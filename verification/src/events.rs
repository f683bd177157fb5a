//! Event values shared between the timeline, the viewport and the app.

use vstd::prelude::*;

verus! {

/// Window context of a hotkey.
#[derive(Clone, Copy, Debug, PartialEq, Eq, Structural)]
pub enum HotkeyWindow {
    /// Global hotkeys (app level).
    Global,
    /// Viewport window.
    Viewport,
    /// Timeline window.
    Timeline,
    /// Project panel.
    Project,
    /// Attribute editor.
    AttributeEditor,
}

/// Composition-level events.
#[derive(Clone, Debug)]
pub enum CompEvent {
    /// The current frame of a composition changed.
    CurrentFrameChanged { comp_uuid: String, old_frame: usize, new_frame: usize },
    /// Layers were added, removed or reordered.
    LayersChanged { comp_uuid: String },
    /// Timeline settings (play range and the like) changed.
    TimelineChanged { comp_uuid: String },
}

/// Remove the selected layers of the active composition.
#[derive(Clone, Copy, Debug)]
pub struct RemoveSelectedLayerEvent;

} // verus!
