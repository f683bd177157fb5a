//! Composition timeline: layers placed on a parent timeline, the comp's
//! in/out range and work area, bounds, layer management and playhead edges.
//!
//! Layer timing is held in timeline frames: `span` is the length of the
//! full bar, `trim_in_span`/`trim_out_span` the trims, all already scaled
//! by the layer's playback speed. `end = in + span - 1`, and the work area
//! (visible range) is `(in + trim_in_span, end - trim_out_span)`.

use vstd::prelude::*;
use crate::compositor::{blend_mode_of, spec_blend_mode_of, BlendMode};
use crate::ids::{contains_id, new_uuid};

verus! {

/// An integer that fits in `i32`.
pub open spec fn fits(x: int) -> bool {
    i32::MIN <= x <= i32::MAX
}

pub open spec fn min_int(a: int, b: int) -> int {
    if a <= b { a } else { b }
}

pub open spec fn max_int(a: int, b: int) -> int {
    if a >= b { a } else { b }
}

/// Errors of layer operations addressed by index.
#[derive(Clone, Copy, Debug, PartialEq, Eq, Structural)]
pub enum CompError {
    LayerIndexOutOfBounds,
    /// Layers can only be added to a composition, not to a file node.
    NotAComposition,
    /// No node with the given uuid.
    NodeNotFound,
    /// A frame position would not fit in `i32`.
    OutOfRange,
}

/// Layer instance - reference to a source node with local timing and flags.
#[derive(Clone, Debug)]
pub struct Layer {
    pub uuid: u128,
    pub source_uuid: u128,
    pub name: String,
    /// Start of the full bar in the parent timeline.
    pub in_frame: i32,
    /// Length of the full bar in timeline frames.
    pub span: i32,
    /// Trim at the start, in timeline frames.
    pub trim_in_span: i32,
    /// Trim at the end, in timeline frames.
    pub trim_out_span: i32,
    pub visible: bool,
    pub solo: bool,
    pub blend_mode: String,
    pub width: u32,
    pub height: u32,
    pub dirty: bool,
}

impl Layer {
    pub open spec fn spec_start(self) -> int {
        self.in_frame as int
    }

    pub open spec fn spec_end(self) -> int {
        self.in_frame + self.span - 1
    }

    pub open spec fn spec_work_area(self) -> (int, int) {
        (self.in_frame + self.trim_in_span, self.spec_end() - self.trim_out_span)
    }

    /// All of the layer's timeline positions fit in `i32`.
    pub open spec fn wf(self) -> bool {
        &&& fits(self.spec_end())
        &&& fits(self.spec_work_area().0)
        &&& fits(self.spec_work_area().1)
    }

    /// Create new layer instance referencing a source node, at speed 1.
    pub fn new(source_uuid: u128, name: &str, start: i32, duration: i32, dim: (usize, usize)) -> (r: Self)
        ensures
            r.uuid != 0,
            r.source_uuid == source_uuid,
            r.name@ == name@,
            r.in_frame == start,
            r.span == duration,
            r.trim_in_span == 0,
            r.trim_out_span == 0,
            r.visible,
            !r.solo,
            r.blend_mode@ == "normal"@,
            r.width == dim.0 as u32,
            r.height == dim.1 as u32,
            !r.dirty,
    {
        proof {
            reveal_strlit("normal");
        }
        Layer {
            uuid: new_uuid(),
            source_uuid,
            name: name.to_owned(),
            in_frame: start,
            span: duration,
            trim_in_span: 0,
            trim_out_span: 0,
            visible: true,
            solo: false,
            blend_mode: "normal".to_owned(),
            width: dim.0 as u32,
            height: dim.1 as u32,
            dirty: false,
        }
    }

    /// Create layer from an existing one (for duplication/paste): new
    /// instance uuid, the given source, everything else kept.
    pub fn from_attrs(source_uuid: u128, attrs: Layer) -> (r: Self)
        ensures
            r.uuid != 0,
            r == (Layer { uuid: r.uuid, source_uuid, dirty: true, ..attrs }),
    {
        Layer { uuid: new_uuid(), source_uuid, dirty: true, ..attrs }
    }

    /// Layer instance uuid.
    pub fn uuid(&self) -> (r: u128)
        ensures
            r == self.uuid,
    {
        self.uuid
    }

    /// Source node uuid.
    pub fn source_uuid(&self) -> (r: u128)
        ensures
            r == self.source_uuid,
    {
        self.source_uuid
    }

    /// Layer start frame in parent timeline.
    pub fn start(&self) -> (r: i32)
        ensures
            r == self.spec_start(),
    {
        self.in_frame
    }

    /// Layer end frame in parent timeline.
    pub fn end(&self) -> (r: i32)
        requires
            fits(self.spec_end()),
        ensures
            r == self.spec_end(),
    {
        ((self.in_frame as i64) + (self.span as i64) - 1) as i32
    }

    /// Work area (trimmed range) in absolute frames.
    pub fn work_area(&self) -> (r: (i32, i32))
        requires
            self.wf(),
        ensures
            r.0 == self.spec_work_area().0,
            r.1 == self.spec_work_area().1,
    {
        let end = ((self.in_frame as i64) + (self.span as i64) - 1) as i32;
        (self.in_frame + self.trim_in_span, end - self.trim_out_span)
    }

    pub fn is_visible(&self) -> (r: bool)
        ensures
            r == self.visible,
    {
        self.visible
    }

    pub fn blend_mode(&self) -> (r: BlendMode)
        ensures
            r == spec_blend_mode_of(self.blend_mode@),
    {
        blend_mode_of(self.blend_mode.as_str())
    }
}

/// Node that composites multiple layers (bottom to top render order).
#[derive(Clone, Debug)]
pub struct CompNode {
    pub uuid: u128,
    pub name: String,
    pub in_frame: i32,
    pub out_frame: i32,
    /// Offset of the work-area start from `in_frame`.
    pub trim_in: i32,
    /// Offset of the work-area end back from `out_frame`.
    pub trim_out: i32,
    /// Current playhead frame.
    pub frame: i32,
    pub width: u32,
    pub height: u32,
    pub dirty: bool,
    pub layers: Vec<Layer>,
    pub layer_selection: Vec<u128>,
    pub layer_selection_anchor: Option<u128>,
}

/// Every layer's positions fit in `i32`.
pub open spec fn layers_wf(ls: Seq<Layer>) -> bool {
    forall|i: int| 0 <= i < ls.len() ==> (#[trigger] ls[i]).wf()
}

/// Index of the first layer with the given instance uuid, or -1.
pub open spec fn index_of_uuid(ls: Seq<Layer>, u: u128) -> int
    decreases ls.len(),
{
    if ls.len() == 0 {
        -1
    } else if ls[0].uuid == u {
        0
    } else {
        let k = index_of_uuid(ls.drop_first(), u);
        if k < 0 { -1 } else { k + 1 }
    }
}

pub proof fn lemma_index_of_uuid(ls: Seq<Layer>, u: u128)
    ensures
        -1 <= index_of_uuid(ls, u) < ls.len(),
        index_of_uuid(ls, u) >= 0 ==> ls[index_of_uuid(ls, u)].uuid == u,
        index_of_uuid(ls, u) >= 0 ==> forall|j: int| 0 <= j < index_of_uuid(ls, u) ==> ls[j].uuid != u,
        index_of_uuid(ls, u) < 0 ==> forall|j: int| 0 <= j < ls.len() ==> ls[j].uuid != u,
    decreases ls.len(),
{
    if ls.len() > 0 && ls[0].uuid != u {
        lemma_index_of_uuid(ls.drop_first(), u);
        assert forall|j: int| 1 <= j < ls.len() implies ls[j] == ls.drop_first()[j - 1] by {}
    }
}

/// A layer counts toward bounds when visible and, in selection mode, selected.
pub open spec fn counted(l: Layer, sel: Seq<u128>, use_sel: bool) -> bool {
    l.visible && (!use_sel || sel.contains(l.uuid))
}

/// The range a layer contributes: its work area, or its full bar.
pub open spec fn range_of(l: Layer, use_trim: bool) -> (int, int) {
    if use_trim {
        l.spec_work_area()
    } else {
        (l.spec_start(), l.spec_end())
    }
}

/// Minimum start over counted layers, starting from `i32::MAX`.
pub open spec fn fold_min_start(ls: Seq<Layer>, sel: Seq<u128>, use_sel: bool, use_trim: bool) -> int
    decreases ls.len(),
{
    if ls.len() == 0 {
        i32::MAX as int
    } else {
        let m = fold_min_start(ls.drop_last(), sel, use_sel, use_trim);
        if counted(ls.last(), sel, use_sel) {
            min_int(m, range_of(ls.last(), use_trim).0)
        } else {
            m
        }
    }
}

/// Maximum end over counted layers, starting from `i32::MIN`.
pub open spec fn fold_max_end(ls: Seq<Layer>, sel: Seq<u128>, use_sel: bool, use_trim: bool) -> int
    decreases ls.len(),
{
    if ls.len() == 0 {
        i32::MIN as int
    } else {
        let m = fold_max_end(ls.drop_last(), sel, use_sel, use_trim);
        if counted(ls.last(), sel, use_sel) {
            max_int(m, range_of(ls.last(), use_trim).1)
        } else {
            m
        }
    }
}

/// The earliest visible layer by work-area start (first among equals).
pub open spec fn fold_first_visible(ls: Seq<Layer>) -> Option<Layer>
    decreases ls.len(),
{
    if ls.len() == 0 {
        None
    } else {
        let e = fold_first_visible(ls.drop_last());
        let l = ls.last();
        if l.visible && (e is None || l.spec_work_area().0 < e->0.spec_work_area().0) {
            Some(l)
        } else {
            e
        }
    }
}

pub proof fn lemma_fold_first_visible_in(ls: Seq<Layer>)
    ensures
        fold_first_visible(ls) is Some ==> exists|i: int|
            0 <= i < ls.len() && ls[i] == fold_first_visible(ls)->0,
    decreases ls.len(),
{
    if ls.len() > 0 {
        lemma_fold_first_visible_in(ls.drop_last());
        let e = fold_first_visible(ls.drop_last());
        if e is Some && fold_first_visible(ls) == e {
            let i = choose|i: int| 0 <= i < ls.drop_last().len() && ls.drop_last()[i] == e->0;
            assert(ls[i] == e->0);
        } else if fold_first_visible(ls) is Some {
            assert(ls[ls.len() - 1] == ls.last());
        }
    }
}

/// `bounds(use_trim, selection_only)`: min start and max end over the
/// visible (and, when asked and any are selected, selected) layers;
/// `(0, 100)` when there are no layers or none count.
pub open spec fn bounds_of(ls: Seq<Layer>, sel: Seq<u128>, use_trim: bool, selection_only: bool) -> (int, int) {
    let use_sel = selection_only && sel.len() > 0;
    let mn = fold_min_start(ls, sel, use_sel, use_trim);
    let mx = fold_max_end(ls, sel, use_sel, use_trim);
    if ls.len() == 0 {
        (0, 100)
    } else if mn == i32::MAX || mx == i32::MIN {
        (0, 100)
    } else {
        (mn, mx)
    }
}


proof fn lemma_folds_skip_hidden(ls: Seq<Layer>, sel: Seq<u128>, use_sel: bool, use_trim: bool, i: int)
    requires
        0 <= i < ls.len(),
        !ls[i].visible,
    ensures
        fold_min_start(ls, sel, use_sel, use_trim) == fold_min_start(ls.remove(i), sel, use_sel, use_trim),
        fold_max_end(ls, sel, use_sel, use_trim) == fold_max_end(ls.remove(i), sel, use_sel, use_trim),
    decreases ls.len(),
{
    if i == ls.len() - 1 {
        assert(ls.remove(i) =~= ls.drop_last());
    } else {
        lemma_folds_skip_hidden(ls.drop_last(), sel, use_sel, use_trim, i);
        assert(ls.remove(i).drop_last() =~= ls.drop_last().remove(i));
        assert(ls.remove(i).last() == ls.last());
    }
}

proof fn lemma_folds_all_hidden(ls: Seq<Layer>, sel: Seq<u128>, use_sel: bool, use_trim: bool)
    requires
        forall|j: int| 0 <= j < ls.len() ==> !(#[trigger] ls[j]).visible,
    ensures
        fold_min_start(ls, sel, use_sel, use_trim) == i32::MAX,
        fold_max_end(ls, sel, use_sel, use_trim) == i32::MIN,
    decreases ls.len(),
{
    if ls.len() > 0 {
        assert(!ls[ls.len() - 1].visible);
        assert forall|j: int| 0 <= j < ls.drop_last().len() implies !(#[trigger] ls.drop_last()[j]).visible by {
            assert(ls.drop_last()[j] == ls[j]);
        }
        lemma_folds_all_hidden(ls.drop_last(), sel, use_sel, use_trim);
    }
}

/// Hidden layers do not count toward a composition's bounds: removing a
/// hidden layer never changes them, and with only hidden layers (or none)
/// they are the default `(0, 100)`.
pub proof fn law_bounds_ignore_hidden(ls: Seq<Layer>, sel: Seq<u128>, use_trim: bool, selection_only: bool, i: int)
    ensures
        0 <= i < ls.len() && !ls[i].visible ==> bounds_of(ls, sel, use_trim, selection_only) == bounds_of(
            ls.remove(i),
            sel,
            use_trim,
            selection_only,
        ),
        (forall|j: int| 0 <= j < ls.len() ==> !(#[trigger] ls[j]).visible) ==> bounds_of(
            ls,
            sel,
            use_trim,
            selection_only,
        ) == (0int, 100int),
{
    let use_sel = selection_only && sel.len() > 0;
    if 0 <= i < ls.len() && !ls[i].visible {
        lemma_folds_skip_hidden(ls, sel, use_sel, use_trim, i);
        if ls.remove(i).len() == 0 {
            assert(ls =~= seq![ls[i]]);
            assert(ls.drop_last() =~= Seq::<Layer>::empty());
        }
    }
    if forall|j: int| 0 <= j < ls.len() ==> !(#[trigger] ls[j]).visible {
        lemma_folds_all_hidden(ls, sel, use_sel, use_trim);
    }
}

/// The size of the earliest visible layer, each side at least 1.
pub open spec fn first_size_of(ls: Seq<Layer>) -> Option<(nat, nat)> {
    match fold_first_visible(ls) {
        Some(l) => Some((max_int(l.width as int, 1) as nat, max_int(l.height as int, 1) as nat)),
        None => None,
    }
}

impl CompNode {
    pub open spec fn spec_work_area(self) -> (int, int) {
        (self.in_frame + self.trim_in, self.out_frame - self.trim_out)
    }

    /// The comp's own positions fit in `i32`.
    pub open spec fn work_fits(self) -> bool {
        &&& fits(self.spec_work_area().0)
        &&& fits(self.spec_work_area().1)
        &&& fits(self.spec_work_area().1 - self.spec_work_area().0 + 1)
        &&& fits(self.out_frame - self.in_frame + 1)
    }

    /// Comp and layer positions all fit in `i32`.
    pub open spec fn wf(self) -> bool {
        &&& self.work_fits()
        &&& layers_wf(self.layers@)
    }

    pub open spec fn spec_is_dirty(self) -> bool {
        self.dirty || exists|i: int| 0 <= i < self.layers@.len() && (#[trigger] self.layers@[i]).dirty
    }

    /// `bounds(use_trim, selection_only)` over this comp's layers.
    pub open spec fn spec_bounds(self, use_trim: bool, selection_only: bool) -> (int, int) {
        bounds_of(self.layers@, self.layer_selection@, use_trim, selection_only)
    }

    /// The size of the earliest visible layer, each side at least 1.
    pub open spec fn spec_first_size(self) -> Option<(nat, nat)> {
        first_size_of(self.layers@)
    }

    /// The comp's scalar fields after `rebound` over the layers `ls` (the
    /// layer vector itself is left as it is): in/out set to the trimmed
    /// bounds of the visible layers, size taken from the earliest visible
    /// layer, trims reset when the work area used to cover the whole range;
    /// dirty.
    pub open spec fn spec_rebound_with(self, ls: Seq<Layer>) -> CompNode {
        let (s, e) = bounds_of(ls, self.layer_selection@, true, false);
        let reset = self.spec_work_area() == (self.in_frame as int, self.out_frame as int);
        let sized = match first_size_of(ls) {
            Some((w, h)) => CompNode { width: w as u32, height: h as u32, ..self },
            None => self,
        };
        CompNode {
            in_frame: s as i32,
            out_frame: e as i32,
            trim_in: if reset { 0 } else { self.trim_in },
            trim_out: if reset { 0 } else { self.trim_out },
            dirty: true,
            ..sized
        }
    }

    /// The comp after `rebound`.
    pub open spec fn spec_rebound(self) -> CompNode {
        self.spec_rebound_with(self.layers@)
    }

    /// Create new composition node.
    pub fn new(name: &str, start: i32, end: i32) -> (r: Self)
        ensures
            r.uuid != 0,
            r.name@ == name@,
            r.in_frame == start,
            r.out_frame == end,
            r.trim_in == 0,
            r.trim_out == 0,
            r.frame == start,
            r.width == 1920,
            r.height == 1080,
            !r.dirty,
            r.layers@.len() == 0,
            r.layer_selection@.len() == 0,
            r.layer_selection_anchor is None,
    {
        CompNode {
            uuid: new_uuid(),
            name: name.to_owned(),
            in_frame: start,
            out_frame: end,
            trim_in: 0,
            trim_out: 0,
            frame: start,
            width: 1920,
            height: 1080,
            dirty: false,
            layers: Vec::new(),
            layer_selection: Vec::new(),
            layer_selection_anchor: None,
        }
    }

    /// Create with specified uuid.
    pub fn with_uuid(self, uuid: u128) -> (r: Self)
        ensures
            r == (CompNode { uuid, ..self }),
    {
        CompNode { uuid, ..self }
    }

    pub fn uuid(&self) -> (r: u128)
        ensures
            r == self.uuid,
    {
        self.uuid
    }

    pub fn _in(&self) -> (r: i32)
        ensures
            r == self.in_frame,
    {
        self.in_frame
    }

    pub fn _out(&self) -> (r: i32)
        ensures
            r == self.out_frame,
    {
        self.out_frame
    }

    pub fn trim_in(&self) -> (r: i32)
        ensures
            r == self.trim_in,
    {
        self.trim_in
    }

    pub fn trim_out(&self) -> (r: i32)
        ensures
            r == self.trim_out,
    {
        self.trim_out
    }

    /// Output size, each side at least 1.
    pub fn dim(&self) -> (r: (usize, usize))
        ensures
            r.0 == max_int(self.width as int, 1),
            r.1 == max_int(self.height as int, 1),
    {
        let w = if self.width == 0 { 1 } else { self.width as usize };
        let h = if self.height == 0 { 1 } else { self.height as usize };
        (w, h)
    }

    pub fn name(&self) -> (r: &str)
        ensures
            r@ == self.name@,
    {
        self.name.as_str()
    }

    /// Number of frames from in to out, never negative.
    pub fn frame_count(&self) -> (r: i32)
        requires
            fits(self.out_frame - self.in_frame + 1),
        ensures
            r == max_int(self.out_frame - self.in_frame + 1, 0),
    {
        let n = (self.out_frame as i64) - (self.in_frame as i64) + 1;
        if n < 0 { 0 } else { n as i32 }
    }

    /// Work area (trimmed range) in absolute frames.
    pub fn work_area(&self) -> (r: (i32, i32))
        requires
            fits(self.spec_work_area().0),
            fits(self.spec_work_area().1),
        ensures
            r.0 == self.spec_work_area().0,
            r.1 == self.spec_work_area().1,
    {
        (self.in_frame + self.trim_in, self.out_frame - self.trim_out)
    }

    /// Current playhead frame.
    pub fn frame(&self) -> (r: i32)
        ensures
            r == self.frame,
    {
        self.frame
    }

    /// Set current playhead frame; the playhead does not make the comp dirty.
    pub fn set_frame(&mut self, frame: i32)
        ensures
            *final(self) == (CompNode { frame, ..*old(self) }),
    {
        self.frame = frame;
    }

    /// Play range (work area).
    pub fn play_range(&self, _use_work_area: bool) -> (r: (i32, i32))
        requires
            fits(self.spec_work_area().0),
            fits(self.spec_work_area().1),
        ensures
            r.0 == self.spec_work_area().0,
            r.1 == self.spec_work_area().1,
    {
        self.work_area()
    }

    /// Number of frames in play range, never negative.
    pub fn play_frame_count(&self) -> (r: i32)
        requires
            self.work_fits(),
        ensures
            r == max_int(self.spec_work_area().1 - self.spec_work_area().0 + 1, 0),
    {
        let (start, end) = self.play_range(true);
        let n = (end as i64) - (start as i64) + 1;
        if n < 0 { 0 } else { n as i32 }
    }

    /// Set play start by adjusting the trim_in offset (never negative).
    pub fn set_comp_play_start(&mut self, start: i32)
        requires
            fits(start - old(self).in_frame),
        ensures
            *final(self) == (CompNode {
                trim_in: max_int(start - old(self).in_frame, 0) as i32,
                dirty: true,
                ..*old(self)
            }),
    {
        let d = start - self.in_frame;
        self.trim_in = if d < 0 { 0 } else { d };
        self.dirty = true;
    }

    /// Set play end by adjusting the trim_out offset (never negative).
    pub fn set_comp_play_end(&mut self, end: i32)
        requires
            fits(old(self).out_frame - end),
        ensures
            *final(self) == (CompNode {
                trim_out: max_int(old(self).out_frame - end, 0) as i32,
                dirty: true,
                ..*old(self)
            }),
    {
        let d = self.out_frame - end;
        self.trim_out = if d < 0 { 0 } else { d };
        self.dirty = true;
    }

    /// Whether the comp or any of its layers changed since the last clear.
    pub fn is_dirty(&self) -> (r: bool)
        ensures
            r == self.spec_is_dirty(),
    {
        if self.dirty {
            return true;
        }
        let mut i: usize = 0;
        while i < self.layers.len()
            invariant
                i <= self.layers@.len(),
                forall|j: int| 0 <= j < i ==> !(#[trigger] self.layers@[j]).dirty,
            decreases self.layers@.len() - i,
        {
            if self.layers[i].dirty {
                return true;
            }
            i = i + 1;
        }
        false
    }

    /// Mark the comp dirty.
    pub fn mark_dirty(&mut self)
        ensures
            *final(self) == (CompNode { dirty: true, ..*old(self) }),
    {
        self.dirty = true;
    }

    /// Clear the dirty flag of the comp and of every layer.
    pub fn clear_dirty(&mut self)
        ensures
            !final(self).spec_is_dirty(),
            final(self).layers@.len() == old(self).layers@.len(),
            forall|i: int| 0 <= i < old(self).layers@.len() ==> (#[trigger] final(self).layers@[i]) == (Layer {
                dirty: false,
                ..old(self).layers@[i]
            }),
            *final(self) == (CompNode { dirty: false, layers: final(self).layers, ..*old(self) }),
    {
        self.dirty = false;
        let n = self.layers.len();
        let ghost old_layers = self.layers@;
        let ghost s0 = *self;
        let mut i: usize = 0;
        while i < n
            invariant
                *self == (CompNode { layers: self.layers, ..s0 }),
                !s0.dirty,
                n == old_layers.len(),
                self.layers@.len() == n,
                i <= n,
                forall|j: int| 0 <= j < i ==> (#[trigger] self.layers@[j]) == (Layer { dirty: false, ..old_layers[j] }),
                forall|j: int| i <= j < n ==> (#[trigger] self.layers@[j]) == old_layers[j],
            decreases n - i,
        {
            self.layers[i].dirty = false;
            i = i + 1;
        }
        proof {
            assert forall|j: int| 0 <= j < self.layers@.len() implies !(#[trigger] self.layers@[j]).dirty by {}
        }
    }

    /// Whether more than one layer is selected.
    pub fn is_multi_selected(&self) -> (r: bool)
        ensures
            r == (self.layer_selection@.len() > 1),
    {
        self.layer_selection.len() > 1
    }

    /// CompNode is never file mode (that's FileNode).
    pub fn is_file_mode(&self) -> (r: bool)
        ensures
            !r,
    {
        false
    }

    /// Node type name.
    pub fn node_type(&self) -> (r: &'static str)
        ensures
            r@ == "Comp"@,
    {
        proof {
            reveal_strlit("Comp");
        }
        "Comp"
    }

    /// The sources of the layers, in layer order.
    pub fn inputs(&self) -> (r: Vec<u128>)
        ensures
            r@ == self.layers@.map_values(|l: Layer| l.source_uuid),
    {
        let mut out: Vec<u128> = Vec::new();
        let mut i: usize = 0;
        while i < self.layers.len()
            invariant
                i <= self.layers@.len(),
                out@ == self.layers@.subrange(0, i as int).map_values(|l: Layer| l.source_uuid),
            decreases self.layers@.len() - i,
        {
            out.push(self.layers[i].source_uuid);
            i = i + 1;
            proof {
                assert(out@ =~= self.layers@.subrange(0, i as int).map_values(|l: Layer| l.source_uuid));
            }
        }
        proof {
            assert(self.layers@.subrange(0, i as int) =~= self.layers@);
        }
        out
    }
}


/// Position of the first layer with the given instance uuid.
pub fn position_of_uuid(ls: &[Layer], u: u128) -> (r: Option<usize>)
    ensures
        match r {
            Some(k) => k as int == index_of_uuid(ls@, u) && k < ls@.len(),
            None => index_of_uuid(ls@, u) == -1,
        },
{
    proof {
        lemma_index_of_uuid(ls@, u);
    }
    let mut i: usize = 0;
    while i < ls.len()
        invariant
            i <= ls@.len(),
            forall|j: int| 0 <= j < i ==> ls@[j].uuid != u,
            -1 <= index_of_uuid(ls@, u) < ls@.len(),
            index_of_uuid(ls@, u) >= 0 ==> ls@[index_of_uuid(ls@, u)].uuid == u,
            index_of_uuid(ls@, u) >= 0 ==> forall|j: int| 0 <= j < index_of_uuid(ls@, u) ==> ls@[j].uuid != u,
            index_of_uuid(ls@, u) < 0 ==> forall|j: int| 0 <= j < ls@.len() ==> ls@[j].uuid != u,
        decreases ls@.len() - i,
    {
        if ls[i].uuid == u {
            return Some(i);
        }
        i = i + 1;
    }
    None
}

impl CompNode {
    /// Calculate bounds from all visible layers (read-only); see `spec_bounds`.
    pub fn bounds(&self, use_trim: bool, selection_only: bool) -> (r: (i32, i32))
        requires
            layers_wf(self.layers@),
        ensures
            r.0 == self.spec_bounds(use_trim, selection_only).0,
            r.1 == self.spec_bounds(use_trim, selection_only).1,
    {
        if self.layers.len() == 0 {
            return (0, 100);
        }
        let use_selection = selection_only && self.layer_selection.len() > 0;
        let ghost sel = self.layer_selection@;
        let mut min_start: i32 = i32::MAX;
        let mut max_end: i32 = i32::MIN;
        let mut i: usize = 0;
        proof {
            assert(self.layers@.subrange(0, 0) =~= Seq::<Layer>::empty());
        }
        while i < self.layers.len()
            invariant
                i <= self.layers@.len(),
                layers_wf(self.layers@),
                sel == self.layer_selection@,
                use_selection == (selection_only && self.layer_selection@.len() > 0),
                min_start == fold_min_start(self.layers@.subrange(0, i as int), sel, use_selection, use_trim),
                max_end == fold_max_end(self.layers@.subrange(0, i as int), sel, use_selection, use_trim),
            decreases self.layers@.len() - i,
        {
            let layer = &self.layers[i];
            proof {
                assert(self.layers@.subrange(0, i + 1).drop_last() =~= self.layers@.subrange(0, i as int));
                assert(self.layers@.subrange(0, i + 1).last() == self.layers@[i as int]);
                assert(self.layers@[i as int].wf());
            }
            if layer.visible && (!use_selection || contains_id(self.layer_selection.as_slice(), layer.uuid)) {
                let (s, e) = if use_trim {
                    layer.work_area()
                } else {
                    (layer.start(), layer.end())
                };
                if s < min_start {
                    min_start = s;
                }
                if e > max_end {
                    max_end = e;
                }
            }
            i = i + 1;
        }
        proof {
            assert(self.layers@.subrange(0, self.layers@.len() as int) =~= self.layers@);
        }
        if min_start == i32::MAX || max_end == i32::MIN {
            (0, 100)
        } else {
            (min_start, max_end)
        }
    }

    /// Dimensions of the first visible layer (by work-area start), each at least 1.
    pub fn get_first_size(&self) -> (r: Option<(usize, usize)>)
        requires
            layers_wf(self.layers@),
        ensures
            match r {
                Some((w, h)) => self.spec_first_size() == Some((w as nat, h as nat)),
                None => self.spec_first_size() is None,
            },
    {
        let mut earliest: Option<(i32, usize)> = None;
        let mut i: usize = 0;
        proof {
            assert(self.layers@.subrange(0, 0) =~= Seq::<Layer>::empty());
        }
        while i < self.layers.len()
            invariant
                i <= self.layers@.len(),
                layers_wf(self.layers@),
                match earliest {
                    None => fold_first_visible(self.layers@.subrange(0, i as int)) is None,
                    Some((s, k)) => k < i && fold_first_visible(self.layers@.subrange(0, i as int))
                        == Some(self.layers@[k as int]) && s == self.layers@[k as int].spec_work_area().0,
                },
            decreases self.layers@.len() - i,
        {
            let layer = &self.layers[i];
            proof {
                assert(self.layers@.subrange(0, i + 1).drop_last() =~= self.layers@.subrange(0, i as int));
                assert(self.layers@.subrange(0, i + 1).last() == self.layers@[i as int]);
                assert(self.layers@[i as int].wf());
            }
            if layer.visible {
                let (start, _) = layer.work_area();
                let take = match earliest {
                    None => true,
                    Some((s, _)) => start < s,
                };
                if take {
                    earliest = Some((start, i));
                }
            }
            i = i + 1;
        }
        proof {
            assert(self.layers@.subrange(0, self.layers@.len() as int) =~= self.layers@);
        }
        match earliest {
            Some((_, k)) => {
                let w = if self.layers[k].width == 0 { 1 } else { self.layers[k].width as usize };
                let h = if self.layers[k].height == 0 { 1 } else { self.layers[k].height as usize };
                Some((w, h))
            },
            None => None,
        }
    }

    /// Recalculate comp bounds and dimensions based on layer extents.
    pub fn rebound(&mut self)
        requires
            layers_wf(old(self).layers@),
            fits(old(self).spec_work_area().0),
            fits(old(self).spec_work_area().1),
        ensures
            *final(self) == old(self).spec_rebound(),
    {
        let old_in = self.in_frame;
        let old_out = self.out_frame;
        let old_work = self.work_area();
        let (s, e) = self.bounds(true, false);
        let size = self.get_first_size();
        self.in_frame = s;
        self.out_frame = e;
        match size {
            Some((w, h)) => {
                self.width = w as u32;
                self.height = h as u32;
            },
            None => {},
        }
        if old_work.0 == old_in && old_work.1 == old_out {
            self.trim_in = 0;
            self.trim_out = 0;
        }
        self.dirty = true;
    }

    /// Called when comp becomes active.
    pub fn on_activate(&mut self)
        requires
            layers_wf(old(self).layers@),
            fits(old(self).spec_work_area().0),
            fits(old(self).spec_work_area().1),
        ensures
            *final(self) == old(self).spec_rebound(),
    {
        self.rebound();
    }
}


/// One attribute of a layer, as set through `set_child_attrs`.
#[derive(Clone, Debug)]
pub enum LayerAttr {
    Name(String),
    In(i32),
    Span(i32),
    TrimInSpan(i32),
    TrimOutSpan(i32),
    Visible(bool),
    Solo(bool),
    BlendMode(String),
    Width(u32),
    Height(u32),
}

/// A layer with one attribute set (and marked dirty).
pub open spec fn apply_attr(l: Layer, a: LayerAttr) -> Layer {
    let l = Layer { dirty: true, ..l };
    match a {
        LayerAttr::Name(v) => Layer { name: v, ..l },
        LayerAttr::In(v) => Layer { in_frame: v, ..l },
        LayerAttr::Span(v) => Layer { span: v, ..l },
        LayerAttr::TrimInSpan(v) => Layer { trim_in_span: v, ..l },
        LayerAttr::TrimOutSpan(v) => Layer { trim_out_span: v, ..l },
        LayerAttr::Visible(v) => Layer { visible: v, ..l },
        LayerAttr::Solo(v) => Layer { solo: v, ..l },
        LayerAttr::BlendMode(v) => Layer { blend_mode: v, ..l },
        LayerAttr::Width(v) => Layer { width: v, ..l },
        LayerAttr::Height(v) => Layer { height: v, ..l },
    }
}

/// A layer with a list of attributes set in order.
pub open spec fn apply_attrs(l: Layer, attrs: Seq<LayerAttr>) -> Layer
    decreases attrs.len(),
{
    if attrs.len() == 0 {
        l
    } else {
        apply_attr(apply_attrs(l, attrs.drop_last()), attrs.last())
    }
}

/// Layers after `move_layers`: for each uuid in order, the first layer
/// with that uuid has its `in` shifted by `delta` (and is marked dirty).
pub open spec fn move_all(ls: Seq<Layer>, uuids: Seq<u128>, delta: int) -> Seq<Layer>
    decreases uuids.len(),
{
    if uuids.len() == 0 {
        ls
    } else {
        let prev = move_all(ls, uuids.drop_last(), delta);
        let k = index_of_uuid(prev, uuids.last());
        if k >= 0 {
            prev.update(k, Layer { in_frame: (prev[k].in_frame + delta) as i32, dirty: true, ..prev[k] })
        } else {
            prev
        }
    }
}


/// Layer uuids are pairwise distinct.
pub open spec fn distinct_layer_uuids(ls: Seq<Layer>) -> bool {
    forall|i: int, j: int| 0 <= i < j < ls.len() ==> (#[trigger] ls[i]).uuid != (#[trigger] ls[j]).uuid
}

proof fn lemma_move_all_exact(ls: Seq<Layer>, uuids: Seq<u128>, delta: int)
    requires
        distinct_layer_uuids(ls),
        forall|i: int, j: int| 0 <= i < j < uuids.len() ==> uuids[i] != uuids[j],
        moves_fit(ls, uuids, delta),
    ensures
        move_all(ls, uuids, delta).len() == ls.len(),
        forall|j: int| 0 <= j < ls.len() ==> (#[trigger] move_all(ls, uuids, delta)[j]) == if uuids.contains(ls[j].uuid) {
            Layer { in_frame: (ls[j].in_frame + delta) as i32, dirty: true, ..ls[j] }
        } else {
            ls[j]
        },
        forall|j: int| 0 <= j < ls.len() && uuids.contains(ls[j].uuid) ==> fits(ls[j].in_frame + delta),
    decreases uuids.len(),
{
    if uuids.len() > 0 {
        let d = uuids.drop_last();
        let u = uuids.last();
        lemma_move_all_exact(ls, d, delta);
        let prev = move_all(ls, d, delta);
        lemma_index_of_uuid(prev, u);
        let k = index_of_uuid(prev, u);
        assert forall|j: int| 0 <= j < ls.len() implies prev[j].uuid == ls[j].uuid by {}
        assert(!d.contains(u)) by {
            if d.contains(u) {
                let m = choose|m: int| 0 <= m < d.len() && d[m] == u;
                assert(uuids[m] == uuids[uuids.len() - 1]);
            }
        }
        assert forall|x: u128| #[trigger] uuids.contains(x) <==> d.contains(x) || x == u by {
            if uuids.contains(x) {
                let m = choose|m: int| 0 <= m < uuids.len() && uuids[m] == x;
                if m < uuids.len() - 1 {
                    assert(d[m] == x);
                }
            }
            if d.contains(x) {
                let m = choose|m: int| 0 <= m < d.len() && d[m] == x;
                assert(uuids[m] == x);
            }
            if x == u {
                assert(uuids[uuids.len() - 1] == x);
            }
        }
        if k >= 0 {
            assert(prev[k] == ls[k]);
            assert forall|j: int| 0 <= j < ls.len() && j != k implies ls[j].uuid != u by {
                if ls[j].uuid == u {
                    if j < k {
                        assert(ls[j].uuid != ls[k].uuid);
                    } else {
                        assert(ls[k].uuid != ls[j].uuid);
                    }
                }
            }
        }
    }
}

/// Moving layers moves each named one by `delta` and no other: with layer
/// uuids distinct and no uuid listed twice, a layer whose uuid is listed
/// starts `delta` frames later (and is marked dirty), every other layer is
/// as it was.
pub proof fn law_move_layers_moves_each(ls: Seq<Layer>, uuids: Seq<u128>, delta: int)
    requires
        distinct_layer_uuids(ls),
        forall|i: int, j: int| 0 <= i < j < uuids.len() ==> uuids[i] != uuids[j],
        moves_fit(ls, uuids, delta),
    ensures
        move_all(ls, uuids, delta).len() == ls.len(),
        forall|j: int| 0 <= j < ls.len() && uuids.contains(ls[j].uuid) ==> {
            &&& (#[trigger] move_all(ls, uuids, delta)[j]).in_frame == ls[j].in_frame + delta
            &&& move_all(ls, uuids, delta)[j] == Layer { in_frame: move_all(ls, uuids, delta)[j].in_frame, dirty: true, ..ls[j] }
        },
        forall|j: int| 0 <= j < ls.len() && !uuids.contains(ls[j].uuid) ==> #[trigger] move_all(ls, uuids, delta)[j] == ls[j],
{
    lemma_move_all_exact(ls, uuids, delta);
}

/// Every shift made by `move_layers` stays within `i32`.
pub open spec fn moves_fit(ls: Seq<Layer>, uuids: Seq<u128>, delta: int) -> bool
    decreases uuids.len(),
{
    if uuids.len() == 0 {
        true
    } else {
        let prev = move_all(ls, uuids.drop_last(), delta);
        let k = index_of_uuid(prev, uuids.last());
        &&& moves_fit(ls, uuids.drop_last(), delta)
        &&& (k >= 0 ==> fits(prev[k].in_frame + delta))
    }
}

/// Layers of a given source, in order.
pub open spec fn layers_of_source(ls: Seq<Layer>, src: u128) -> Seq<Layer>
    decreases ls.len(),
{
    if ls.len() == 0 {
        Seq::empty()
    } else {
        let rest = layers_of_source(ls.drop_last(), src);
        if ls.last().source_uuid == src {
            rest.push(ls.last())
        } else {
            rest
        }
    }
}

/// Indices of the given uuids that name a layer, in the order given.
pub open spec fn indices_of(ls: Seq<Layer>, uuids: Seq<u128>) -> Seq<usize>
    decreases uuids.len(),
{
    if uuids.len() == 0 {
        Seq::empty()
    } else {
        let rest = indices_of(ls, uuids.drop_last());
        let k = index_of_uuid(ls, uuids.last());
        if k >= 0 {
            rest.push(k as usize)
        } else {
            rest
        }
    }
}

impl CompNode {
    /// Add layer at the given position (clamped to the end; `None` appends),
    /// then rebound.
    pub fn add_layer(&mut self, layer: Layer, position: Option<usize>)
        requires
            layer.wf(),
            layers_wf(old(self).layers@),
            fits(old(self).spec_work_area().0),
            fits(old(self).spec_work_area().1),
        ensures
            final(self).layers@ == match position {
                Some(idx) => old(self).layers@.insert(
                    if idx <= old(self).layers@.len() { idx as int } else { old(self).layers@.len() as int },
                    layer,
                ),
                None => old(self).layers@.push(layer),
            },
            *final(self) == (CompNode { layers: final(self).layers, ..old(self).spec_rebound_with(final(self).layers@) }),
    {
        match position {
            Some(idx) => {
                let n = self.layers.len();
                let at = if idx < n { idx } else { n };
                self.layers.insert(at, layer);
            },
            None => {
                self.layers.push(layer);
            },
        }
        self.dirty = true;
        proof {
            assert forall|i: int| 0 <= i < self.layers@.len() implies (#[trigger] self.layers@[i]).wf() by {
                match position {
                    Some(idx) => {
                        let at = if idx <= old(self).layers@.len() { idx as int } else { old(self).layers@.len() as int };
                        if i < at {
                            assert(self.layers@[i] == old(self).layers@[i]);
                        } else if i > at {
                            assert(self.layers@[i] == old(self).layers@[i - 1]);
                        }
                    },
                    None => {
                        if i < old(self).layers@.len() {
                            assert(self.layers@[i] == old(self).layers@[i]);
                        }
                    },
                }
            }
        }
        self.rebound();
    }
}


proof fn lemma_remove_wf(ls: Seq<Layer>, k: int)
    requires
        layers_wf(ls),
        0 <= k < ls.len(),
    ensures
        layers_wf(ls.remove(k)),
{
    assert forall|i: int| 0 <= i < ls.remove(k).len() implies (#[trigger] ls.remove(k)[i]).wf() by {
        if i < k {
            assert(ls.remove(k)[i] == ls[i]);
        } else {
            assert(ls.remove(k)[i] == ls[i + 1]);
        }
    }
}

impl CompNode {
    /// Remove the first layer with the given uuid, then rebound.
    pub fn remove_layer(&mut self, layer_uuid: u128) -> (r: Option<Layer>)
        requires
            layers_wf(old(self).layers@),
            fits(old(self).spec_work_area().0),
            fits(old(self).spec_work_area().1),
        ensures
            ({
                let k = index_of_uuid(old(self).layers@, layer_uuid);
                match r {
                    Some(l) => {
                        &&& 0 <= k < old(self).layers@.len()
                        &&& l == old(self).layers@[k]
                        &&& final(self).layers@ == old(self).layers@.remove(k)
                        &&& *final(self) == (CompNode {
                            layers: final(self).layers,
                            ..old(self).spec_rebound_with(final(self).layers@)
                        })
                    },
                    None => k == -1 && *final(self) == *old(self),
                }
            }),
    {
        match position_of_uuid(self.layers.as_slice(), layer_uuid) {
            Some(idx) => {
                let layer = self.layers.remove(idx);
                self.dirty = true;
                proof {
                    lemma_remove_wf(old(self).layers@, idx as int);
                }
                self.rebound();
                Some(layer)
            },
            None => None,
        }
    }

    /// Alias for `remove_layer`.
    pub fn remove_child(&mut self, layer_uuid: u128) -> (r: Option<Layer>)
        requires
            layers_wf(old(self).layers@),
            fits(old(self).spec_work_area().0),
            fits(old(self).spec_work_area().1),
        ensures
            ({
                let k = index_of_uuid(old(self).layers@, layer_uuid);
                match r {
                    Some(l) => {
                        &&& 0 <= k < old(self).layers@.len()
                        &&& l == old(self).layers@[k]
                        &&& final(self).layers@ == old(self).layers@.remove(k)
                        &&& *final(self) == (CompNode {
                            layers: final(self).layers,
                            ..old(self).spec_rebound_with(final(self).layers@)
                        })
                    },
                    None => k == -1 && *final(self) == *old(self),
                }
            }),
    {
        self.remove_layer(layer_uuid)
    }

    /// The first layer with the given uuid.
    pub fn get_layer(&self, layer_uuid: u128) -> (r: Option<&Layer>)
        ensures
            ({
                let k = index_of_uuid(self.layers@, layer_uuid);
                match r {
                    Some(l) => 0 <= k < self.layers@.len() && *l == self.layers@[k],
                    None => k == -1,
                }
            }),
    {
        match position_of_uuid(self.layers.as_slice(), layer_uuid) {
            Some(idx) => Some(&self.layers[idx]),
            None => None,
        }
    }

    /// Layer index to uuid.
    pub fn idx_to_uuid(&self, idx: usize) -> (r: Option<u128>)
        ensures
            r == (if idx < self.layers@.len() { Some(self.layers@[idx as int].uuid) } else { None::<u128> }),
    {
        if idx < self.layers.len() {
            Some(self.layers[idx].uuid)
        } else {
            None
        }
    }

    /// Layer uuid to index (first match).
    pub fn uuid_to_idx(&self, uuid: u128) -> (r: Option<usize>)
        ensures
            match r {
                Some(k) => k as int == index_of_uuid(self.layers@, uuid) && k < self.layers@.len(),
                None => index_of_uuid(self.layers@, uuid) == -1,
            },
    {
        position_of_uuid(self.layers.as_slice(), uuid)
    }

    /// Indices of the given uuids that name a layer, in the order given.
    pub fn uuids_to_indices(&self, uuids: &[u128]) -> (r: Vec<usize>)
        ensures
            r@ == indices_of(self.layers@, uuids@),
    {
        let mut out: Vec<usize> = Vec::new();
        let mut i: usize = 0;
        proof {
            assert(uuids@.subrange(0, 0) =~= Seq::<u128>::empty());
        }
        while i < uuids.len()
            invariant
                i <= uuids@.len(),
                out@ == indices_of(self.layers@, uuids@.subrange(0, i as int)),
            decreases uuids@.len() - i,
        {
            proof {
                assert(uuids@.subrange(0, i + 1).drop_last() =~= uuids@.subrange(0, i as int));
            }
            match self.uuid_to_idx(uuids[i]) {
                Some(k) => out.push(k),
                None => {},
            }
            i = i + 1;
        }
        proof {
            assert(uuids@.subrange(0, uuids@.len() as int) =~= uuids@);
        }
        out
    }

    /// Layer uuids in order.
    pub fn layers_uuids_vec(&self) -> (r: Vec<u128>)
        ensures
            r@.len() == self.layers@.len(),
            forall|i: int| 0 <= i < r@.len() ==> r@[i] == self.layers@[i].uuid,
    {
        let mut out: Vec<u128> = Vec::new();
        let mut i: usize = 0;
        while i < self.layers.len()
            invariant
                i <= self.layers@.len(),
                out@.len() == i,
                forall|j: int| 0 <= j < i ==> out@[j] == self.layers@[j].uuid,
            decreases self.layers@.len() - i,
        {
            out.push(self.layers[i].uuid);
            i = i + 1;
        }
        out
    }

    /// (layer uuid, source uuid) pairs, in order.
    pub fn get_children_sources(&self) -> (r: Vec<(u128, u128)>)
        ensures
            r@.len() == self.layers@.len(),
            forall|i: int| 0 <= i < r@.len() ==> r@[i] == (self.layers@[i].uuid, self.layers@[i].source_uuid),
    {
        let mut out: Vec<(u128, u128)> = Vec::new();
        let mut i: usize = 0;
        while i < self.layers.len()
            invariant
                i <= self.layers@.len(),
                out@.len() == i,
                forall|j: int| 0 <= j < i ==> out@[j] == (self.layers@[j].uuid, self.layers@[j].source_uuid),
            decreases self.layers@.len() - i,
        {
            out.push((self.layers[i].uuid, self.layers[i].source_uuid));
            i = i + 1;
        }
        out
    }

    /// Uuids of the layers that reference the given source, in order.
    pub fn layers_by_source(&self, source_uuid: u128) -> (r: Vec<u128>)
        ensures
            r@.len() == layers_of_source(self.layers@, source_uuid).len(),
            forall|i: int| 0 <= i < r@.len() ==> r@[i] == layers_of_source(self.layers@, source_uuid)[i].uuid,
    {
        let mut out: Vec<u128> = Vec::new();
        let mut i: usize = 0;
        proof {
            assert(self.layers@.subrange(0, 0) =~= Seq::<Layer>::empty());
        }
        while i < self.layers.len()
            invariant
                i <= self.layers@.len(),
                out@.len() == layers_of_source(self.layers@.subrange(0, i as int), source_uuid).len(),
                forall|j: int| 0 <= j < out@.len() ==> out@[j] == layers_of_source(self.layers@.subrange(0, i as int), source_uuid)[j].uuid,
            decreases self.layers@.len() - i,
        {
            proof {
                assert(self.layers@.subrange(0, i + 1).drop_last() =~= self.layers@.subrange(0, i as int));
                assert(self.layers@.subrange(0, i + 1).last() == self.layers@[i as int]);
            }
            if self.layers[i].source_uuid == source_uuid {
                out.push(self.layers[i].uuid);
            }
            i = i + 1;
        }
        proof {
            assert(self.layers@.subrange(0, self.layers@.len() as int) =~= self.layers@);
        }
        out
    }

    /// Layer "in" frame (full bar start).
    pub fn child_in(&self, layer_uuid: u128) -> (r: Option<i32>)
        ensures
            ({
                let k = index_of_uuid(self.layers@, layer_uuid);
                r == (if k >= 0 { Some(self.layers@[k].in_frame) } else { None::<i32> })
            }),
    {
        proof {
            lemma_index_of_uuid(self.layers@, layer_uuid);
        }
        match self.get_layer(layer_uuid) {
            Some(l) => Some(l.in_frame),
            None => None,
        }
    }

    /// Layer visible start (work-area start).
    pub fn child_start(&self, layer_uuid: u128) -> (r: Option<i32>)
        requires
            layers_wf(self.layers@),
        ensures
            ({
                let k = index_of_uuid(self.layers@, layer_uuid);
                r == (if k >= 0 { Some(self.layers@[k].spec_work_area().0 as i32) } else { None::<i32> })
            }),
    {
        proof {
            lemma_index_of_uuid(self.layers@, layer_uuid);
        }
        match self.get_layer(layer_uuid) {
            Some(l) => {
                proof {
                    assert(self.layers@[index_of_uuid(self.layers@, layer_uuid)].wf());
                }
                Some(l.work_area().0)
            },
            None => None,
        }
    }

    /// Layer visible end (work-area end).
    pub fn child_end(&self, layer_uuid: u128) -> (r: Option<i32>)
        requires
            layers_wf(self.layers@),
        ensures
            ({
                let k = index_of_uuid(self.layers@, layer_uuid);
                r == (if k >= 0 { Some(self.layers@[k].spec_work_area().1 as i32) } else { None::<i32> })
            }),
    {
        proof {
            lemma_index_of_uuid(self.layers@, layer_uuid);
        }
        match self.get_layer(layer_uuid) {
            Some(l) => {
                proof {
                    assert(self.layers@[index_of_uuid(self.layers@, layer_uuid)].wf());
                }
                Some(l.work_area().1)
            },
            None => None,
        }
    }

    /// Layer full bar end.
    pub fn child_full_end(&self, layer_uuid: u128) -> (r: Option<i32>)
        requires
            layers_wf(self.layers@),
        ensures
            ({
                let k = index_of_uuid(self.layers@, layer_uuid);
                r == (if k >= 0 { Some(self.layers@[k].spec_end() as i32) } else { None::<i32> })
            }),
    {
        proof {
            lemma_index_of_uuid(self.layers@, layer_uuid);
        }
        match self.get_layer(layer_uuid) {
            Some(l) => {
                proof {
                    assert(self.layers@[index_of_uuid(self.layers@, layer_uuid)].wf());
                }
                Some(l.end())
            },
            None => None,
        }
    }

    /// Layer work area in absolute frames.
    pub fn child_work_area_abs(&self, layer_uuid: u128) -> (r: Option<(i32, i32)>)
        requires
            layers_wf(self.layers@),
        ensures
            ({
                let k = index_of_uuid(self.layers@, layer_uuid);
                r == (if k >= 0 {
                    Some((self.layers@[k].spec_work_area().0 as i32, self.layers@[k].spec_work_area().1 as i32))
                } else {
                    None::<(i32, i32)>
                })
            }),
    {
        proof {
            lemma_index_of_uuid(self.layers@, layer_uuid);
        }
        match self.get_layer(layer_uuid) {
            Some(l) => {
                proof {
                    assert(self.layers@[index_of_uuid(self.layers@, layer_uuid)].wf());
                }
                Some(l.work_area())
            },
            None => None,
        }
    }
}


proof fn lemma_moves_fit_prefix(ls: Seq<Layer>, u: Seq<u128>, delta: int, j: int)
    requires
        moves_fit(ls, u, delta),
        0 <= j <= u.len(),
    ensures
        moves_fit(ls, u.subrange(0, j), delta),
    decreases u.len(),
{
    if j < u.len() {
        lemma_moves_fit_prefix(ls, u.drop_last(), delta, j);
        assert(u.drop_last().subrange(0, j) =~= u.subrange(0, j));
    } else {
        assert(u.subrange(0, j) =~= u);
    }
}

impl CompNode {
    /// Set attributes on the first layer with the given uuid (in order),
    /// marking the layer and the comp dirty; nothing when no layer matches.
    pub fn set_child_attrs(&mut self, layer_uuid: u128, attrs: Vec<LayerAttr>)
        ensures
            ({
                let k = index_of_uuid(old(self).layers@, layer_uuid);
                if k >= 0 {
                    &&& final(self).layers@ == old(self).layers@.update(
                        k,
                        apply_attrs(old(self).layers@[k], attrs@),
                    )
                    &&& *final(self) == (CompNode { layers: final(self).layers, dirty: true, ..*old(self) })
                } else {
                    *final(self) == *old(self)
                }
            }),
    {
        proof {
            lemma_index_of_uuid(old(self).layers@, layer_uuid);
        }
        let k = match position_of_uuid(self.layers.as_slice(), layer_uuid) {
            Some(k) => k,
            None => return,
        };
        let ghost s0 = *self;
        let ghost all = attrs@;
        let total = attrs.len();
        let mut rest = attrs;
        let mut done: usize = 0;
        proof {
            assert(all.subrange(0, 0) =~= Seq::<LayerAttr>::empty());
            assert(all.subrange(0, all.len() as int) =~= all);
        }
        while rest.len() > 0
            invariant
                k < s0.layers@.len(),
                done + rest@.len() == all.len(),
                all.len() == total,
                rest@ == all.subrange(done as int, all.len() as int),
                self.layers@ == s0.layers@.update(k as int, apply_attrs(s0.layers@[k as int], all.subrange(0, done as int))),
                *self == (CompNode { layers: self.layers, ..s0 }),
            decreases rest@.len(),
        {
            let a = rest.remove(0);
            proof {
                assert(a == all[done as int]);
                assert(all.subrange(0, done + 1).drop_last() =~= all.subrange(0, done as int));
                assert(all.subrange(0, done + 1).last() == a);
            }
            self.layers[k].dirty = true;
            match a {
                LayerAttr::Name(v) => self.layers[k].name = v,
                LayerAttr::In(v) => self.layers[k].in_frame = v,
                LayerAttr::Span(v) => self.layers[k].span = v,
                LayerAttr::TrimInSpan(v) => self.layers[k].trim_in_span = v,
                LayerAttr::TrimOutSpan(v) => self.layers[k].trim_out_span = v,
                LayerAttr::Visible(v) => self.layers[k].visible = v,
                LayerAttr::Solo(v) => self.layers[k].solo = v,
                LayerAttr::BlendMode(v) => self.layers[k].blend_mode = v,
                LayerAttr::Width(v) => self.layers[k].width = v,
                LayerAttr::Height(v) => self.layers[k].height = v,
            }
            done = done + 1;
            proof {
                assert(rest@ =~= all.subrange(done as int, all.len() as int));
            }
        }
        proof {
            assert(all.subrange(0, done as int) =~= all);
        }
        self.dirty = true;
    }

    /// Move layers by delta frames (each uuid moves the first layer that
    /// has it), then rebound.
    pub fn move_layers(&mut self, layer_uuids: &[u128], delta: i32)
        requires
            moves_fit(old(self).layers@, layer_uuids@, delta as int),
            layers_wf(move_all(old(self).layers@, layer_uuids@, delta as int)),
            fits(old(self).spec_work_area().0),
            fits(old(self).spec_work_area().1),
        ensures
            final(self).layers@ == move_all(old(self).layers@, layer_uuids@, delta as int),
            *final(self) == (CompNode { layers: final(self).layers, ..old(self).spec_rebound_with(final(self).layers@) }),
    {
        let ghost s0 = *self;
        let mut i: usize = 0;
        proof {
            assert(layer_uuids@.subrange(0, 0) =~= Seq::<u128>::empty());
        }
        while i < layer_uuids.len()
            invariant
                i <= layer_uuids@.len(),
                moves_fit(s0.layers@, layer_uuids@, delta as int),
                self.layers@ == move_all(s0.layers@, layer_uuids@.subrange(0, i as int), delta as int),
                *self == (CompNode { layers: self.layers, ..s0 }),
            decreases layer_uuids@.len() - i,
        {
            let u = layer_uuids[i];
            proof {
                let pre = layer_uuids@.subrange(0, i + 1);
                assert(pre.drop_last() =~= layer_uuids@.subrange(0, i as int));
                assert(pre.last() == u);
                lemma_moves_fit_prefix(s0.layers@, layer_uuids@, delta as int, i + 1);
                lemma_index_of_uuid(self.layers@, u);
            }
            match position_of_uuid(self.layers.as_slice(), u) {
                Some(k) => {
                    let cur = self.layers[k].in_frame;
                    self.layers[k].in_frame = cur + delta;
                    self.layers[k].dirty = true;
                },
                None => {},
            }
            i = i + 1;
        }
        proof {
            assert(layer_uuids@.subrange(0, layer_uuids@.len() as int) =~= layer_uuids@);
        }
        self.dirty = true;
        self.rebound();
    }

    /// Move a single layer, addressed by index, to a new start; rebound.
    pub fn move_child(&mut self, layer_idx: usize, new_start: i32) -> (r: Result<(), CompError>)
        requires
            layer_idx < old(self).layers@.len() ==> layers_wf(old(self).layers@.update(
                layer_idx as int,
                Layer { in_frame: new_start, dirty: true, ..old(self).layers@[layer_idx as int] },
            )),
            fits(old(self).spec_work_area().0),
            fits(old(self).spec_work_area().1),
        ensures
            layer_idx < old(self).layers@.len() ==> {
                &&& r is Ok
                &&& final(self).layers@ == old(self).layers@.update(
                    layer_idx as int,
                    Layer { in_frame: new_start, dirty: true, ..old(self).layers@[layer_idx as int] },
                )
                &&& *final(self) == (CompNode { layers: final(self).layers, ..old(self).spec_rebound_with(final(self).layers@) })
            },
            layer_idx >= old(self).layers@.len() ==> r == Err::<(), CompError>(CompError::LayerIndexOutOfBounds)
                && *final(self) == *old(self),
    {
        if layer_idx >= self.layers.len() {
            return Err(CompError::LayerIndexOutOfBounds);
        }
        self.layers[layer_idx].in_frame = new_start;
        self.layers[layer_idx].dirty = true;
        self.dirty = true;
        proof {
            assert(self.layers@ =~= old(self).layers@.update(
                layer_idx as int,
                Layer { in_frame: new_start, dirty: true, ..old(self).layers@[layer_idx as int] },
            ));
        }
        self.rebound();
        Ok(())
    }

    /// `new` is `old` with a fresh layer `id` for `source_uuid` (speed 1,
    /// untrimmed, visible, normal blending, the source's size) inserted at
    /// `insert_idx` (clamped; on top when `None`), then rebound.
    pub open spec fn spec_added_child(
        old: CompNode,
        new: CompNode,
        id: u128,
        source_uuid: u128,
        name: Seq<char>,
        start_frame: i32,
        duration: i32,
        insert_idx: Option<usize>,
        source_dim: (usize, usize),
    ) -> bool {
        let n = old.layers@.len() as int;
        let at = match insert_idx {
            Some(idx) => if idx <= n { idx as int } else { n },
            None => n,
        };
        let l = new.layers@[at];
        &&& new.layers@.len() == n + 1
        &&& new.layers@ == old.layers@.insert(at, l)
        &&& l.uuid == id && l.uuid != 0
        &&& l.source_uuid == source_uuid && l.name@ == name
        &&& l.in_frame == start_frame && l.span == duration
        &&& l.trim_in_span == 0 && l.trim_out_span == 0
        &&& l.visible && !l.solo && l.blend_mode@ == "normal"@
        &&& l.width == source_dim.0 as u32 && l.height == source_dim.1 as u32
        &&& !l.dirty
        &&& new == (CompNode { layers: new.layers, ..old.spec_rebound_with(new.layers@) })
    }

    /// Add a new layer for a source (speed 1) at the given index or on top,
    /// then rebound; returns the new layer's uuid.
    pub fn add_child_layer(
        &mut self,
        source_uuid: u128,
        name: &str,
        start_frame: i32,
        duration: i32,
        insert_idx: Option<usize>,
        source_dim: (usize, usize),
    ) -> (r: Result<u128, CompError>)
        requires
            fits(start_frame + duration - 1),
            layers_wf(old(self).layers@),
            fits(old(self).spec_work_area().0),
            fits(old(self).spec_work_area().1),
        ensures
            r is Ok,
            Self::spec_added_child(*old(self), *final(self), r->Ok_0, source_uuid, name@, start_frame, duration, insert_idx, source_dim),
    {
        let layer = Layer::new(source_uuid, name, start_frame, duration, source_dim);
        let uuid = layer.uuid;
        let ghost lg = layer;
        self.add_layer(layer, insert_idx);
        proof {
            let n = old(self).layers@.len() as int;
            let at = match insert_idx {
                Some(idx) => if idx <= n { idx as int } else { n },
                None => n,
            };
            assert(self.layers@[at] == lg);
            match insert_idx {
                Some(idx) => {},
                None => {
                    assert(old(self).layers@.push(lg) =~= old(self).layers@.insert(n, lg));
                },
            }
        }
        Ok(uuid)
    }
}


/// Layer edges in layer order: `(work start, true), (work end, false)` for
/// each layer whose work area is not empty.
pub open spec fn edges_of(ls: Seq<Layer>) -> Seq<(i32, bool)>
    decreases ls.len(),
{
    if ls.len() == 0 {
        Seq::empty()
    } else {
        let rest = edges_of(ls.drop_last());
        let (s, e) = ls.last().spec_work_area();
        if s <= e {
            rest.push((s as i32, true)).push((e as i32, false))
        } else {
            rest
        }
    }
}

/// `r` with edge `e` added in frame order, unless its frame is already there.
pub open spec fn insert_edge(r: Seq<(i32, bool)>, e: (i32, bool)) -> Seq<(i32, bool)>
    decreases r.len(),
{
    if r.len() == 0 {
        seq![e]
    } else if r[0].0 == e.0 {
        r
    } else if r[0].0 > e.0 {
        seq![e] + r
    } else {
        seq![r[0]] + insert_edge(r.drop_first(), e)
    }
}

/// The edges sorted by frame keeping, for each frame, the first edge that
/// has it (what a stable sort followed by dedup by frame leaves).
pub open spec fn sorted_dedup(es: Seq<(i32, bool)>) -> Seq<(i32, bool)>
    decreases es.len(),
{
    if es.len() == 0 {
        Seq::empty()
    } else {
        insert_edge(sorted_dedup(es.drop_last()), es.last())
    }
}

/// Frames strictly increase.
pub open spec fn strictly_sorted(r: Seq<(i32, bool)>) -> bool {
    forall|i: int, j: int| 0 <= i < j < r.len() ==> r[i].0 < r[j].0
}

/// The playhead target of `jump_to_edge`: the nearest edge frame after
/// (before) the current frame, wrapping to the first (last) edge frame;
/// `None` when there are no edges.
pub open spec fn is_jump_target(es: Seq<(i32, bool)>, cur: int, forward: bool, f: int) -> bool {
    &&& has_frame(es, f)
    &&& if forward {
        if exists|k: int| 0 <= k < es.len() && es[k].0 > cur {
            f > cur && forall|k: int| 0 <= k < es.len() && es[k].0 > cur ==> es[k].0 >= f
        } else {
            forall|k: int| 0 <= k < es.len() ==> es[k].0 >= f
        }
    } else {
        if exists|k: int| 0 <= k < es.len() && es[k].0 < cur {
            f < cur && forall|k: int| 0 <= k < es.len() && es[k].0 < cur ==> es[k].0 <= f
        } else {
            forall|k: int| 0 <= k < es.len() ==> es[k].0 <= f
        }
    }
}

impl CompNode {
    fn collect_edges(&self) -> (r: Vec<(i32, bool)>)
        requires
            layers_wf(self.layers@),
        ensures
            r@ == edges_of(self.layers@),
    {
        let mut edges: Vec<(i32, bool)> = Vec::new();
        let mut i: usize = 0;
        proof {
            assert(self.layers@.subrange(0, 0) =~= Seq::<Layer>::empty());
        }
        while i < self.layers.len()
            invariant
                i <= self.layers@.len(),
                layers_wf(self.layers@),
                edges@ == edges_of(self.layers@.subrange(0, i as int)),
            decreases self.layers@.len() - i,
        {
            proof {
                assert(self.layers@.subrange(0, i + 1).drop_last() =~= self.layers@.subrange(0, i as int));
                assert(self.layers@.subrange(0, i + 1).last() == self.layers@[i as int]);
                assert(self.layers@[i as int].wf());
            }
            let (start, end) = self.layers[i].work_area();
            if start <= end {
                edges.push((start, true));
                edges.push((end, false));
            }
            i = i + 1;
        }
        proof {
            assert(self.layers@.subrange(0, self.layers@.len() as int) =~= self.layers@);
        }
        edges
    }

    /// All layer edges (work start and end), sorted by frame, one per frame.
    pub fn get_child_edges(&self) -> (r: Vec<(i32, bool)>)
        requires
            layers_wf(self.layers@),
        ensures
            r@ == sorted_dedup(edges_of(self.layers@)),
    {
        let es = self.collect_edges();
        let ghost esv = es@;
        let mut out: Vec<(i32, bool)> = Vec::new();
        let mut m: usize = 0;
        proof {
            assert(esv.subrange(0, 0) =~= Seq::<(i32, bool)>::empty());
        }
        while m < es.len()
            invariant
                m <= es@.len(),
                esv == es@,
                out@ == sorted_dedup(esv.subrange(0, m as int)),
            decreases es@.len() - m,
        {
            let e = es[m];
            proof {
                assert(esv.subrange(0, m + 1).drop_last() =~= esv.subrange(0, m as int));
                assert(esv.subrange(0, m + 1).last() == e);
                lemma_sorted_dedup_sorted(esv.subrange(0, m as int));
            }
            let mut p: usize = 0;
            while p < out.len() && out[p].0 < e.0
                invariant
                    p <= out@.len(),
                    forall|j: int| 0 <= j < p ==> out@[j].0 < e.0,
                decreases out@.len() - p,
            {
                p = p + 1;
            }
            proof {
                lemma_insert_edge_at(out@, e, p as int);
            }
            if !(p < out.len() && out[p].0 == e.0) {
                out.insert(p, e);
            }
            m = m + 1;
        }
        proof {
            assert(esv.subrange(0, esv.len() as int) =~= esv);
        }
        out
    }
}

/// In a strictly sorted `r`, inserting at the first position whose frame is
/// not smaller is what `insert_edge` does.
pub proof fn lemma_insert_edge_at(r: Seq<(i32, bool)>, e: (i32, bool), p: int)
    requires
        strictly_sorted(r),
        0 <= p <= r.len(),
        forall|j: int| 0 <= j < p ==> r[j].0 < e.0,
        p < r.len() ==> r[p].0 >= e.0,
    ensures
        insert_edge(r, e) == (if p < r.len() && r[p].0 == e.0 { r } else { r.insert(p, e) }),
    decreases r.len(),
{
    if r.len() == 0 {
        assert(r.insert(0, e) =~= seq![e]);
    } else if p == 0 {
        if r[0].0 != e.0 {
            assert(r.insert(0, e) =~= seq![e] + r);
        }
    } else {
        let t = r.drop_first();
        assert forall|i: int, j: int| 0 <= i < j < t.len() implies t[i].0 < t[j].0 by {
            assert(t[i] == r[i + 1] && t[j] == r[j + 1]);
        }
        lemma_insert_edge_at(t, e, p - 1);
        if p < r.len() && r[p].0 == e.0 {
            assert(seq![r[0]] + t =~= r);
        } else {
            assert(seq![r[0]] + t.insert(p - 1, e) =~= r.insert(p, e));
        }
    }
}

/// Whether some kept edge has frame `x`.
pub open spec fn has_frame(r: Seq<(i32, bool)>, x: int) -> bool {
    exists|i: int| 0 <= i < r.len() && r[i].0 == x
}

proof fn lemma_insert_edge_props(r: Seq<(i32, bool)>, e: (i32, bool))
    requires
        strictly_sorted(r),
    ensures
        strictly_sorted(insert_edge(r, e)),
        forall|x: int| has_frame(insert_edge(r, e), x) <==> (has_frame(r, x) || x == e.0),
    decreases r.len(),
{
    let ie = insert_edge(r, e);
    if r.len() == 0 {
        assert(ie[0].0 == e.0);
    } else if r[0].0 == e.0 {
    } else if r[0].0 > e.0 {
        assert forall|x: int| has_frame(ie, x) <==> (has_frame(r, x) || x == e.0) by {
            if has_frame(r, x) {
                let i = choose|i: int| 0 <= i < r.len() && r[i].0 == x;
                assert(ie[i + 1] == r[i]);
            }
            if x == e.0 {
                assert(ie[0] == e);
            }
            if has_frame(ie, x) {
                let i = choose|i: int| 0 <= i < ie.len() && ie[i].0 == x;
                if i > 0 {
                    assert(ie[i] == r[i - 1]);
                }
            }
        }
        assert forall|i: int, j: int| 0 <= i < j < ie.len() implies ie[i].0 < ie[j].0 by {
            if i == 0 {
                assert(ie[j] == r[j - 1]);
                if j - 1 > 0 {
                    assert(r[0].0 < r[j - 1].0);
                }
            } else {
                assert(ie[i] == r[i - 1] && ie[j] == r[j - 1]);
            }
        }
    } else {
        let t = r.drop_first();
        assert forall|i: int, j: int| 0 <= i < j < t.len() implies t[i].0 < t[j].0 by {
            assert(t[i] == r[i + 1] && t[j] == r[j + 1]);
        }
        lemma_insert_edge_props(t, e);
        let it = insert_edge(t, e);
        assert(ie == seq![r[0]] + it);
        assert forall|x: int| has_frame(ie, x) <==> (has_frame(r, x) || x == e.0) by {
            assert(has_frame(insert_edge(t, e), x) <==> (has_frame(t, x) || x == e.0));
            if has_frame(r, x) {
                let i = choose|i: int| 0 <= i < r.len() && r[i].0 == x;
                if i == 0 {
                    assert(ie[0] == r[0]);
                } else {
                    assert(t[i - 1] == r[i]);
                    assert(has_frame(t, x));
                    let k = choose|k: int| 0 <= k < it.len() && it[k].0 == x;
                    assert(ie[k + 1] == it[k]);
                }
            }
            if x == e.0 {
                assert(has_frame(it, x));
                let k = choose|k: int| 0 <= k < it.len() && it[k].0 == x;
                assert(ie[k + 1] == it[k]);
            }
            if has_frame(ie, x) {
                let i = choose|i: int| 0 <= i < ie.len() && ie[i].0 == x;
                if i == 0 {
                    assert(r[0].0 == x);
                } else {
                    assert(ie[i] == it[i - 1]);
                    assert(has_frame(it, x));
                    if has_frame(t, x) {
                        let k = choose|k: int| 0 <= k < t.len() && t[k].0 == x;
                        assert(r[k + 1] == t[k]);
                    }
                }
            }
        }
        assert forall|i: int, j: int| 0 <= i < j < ie.len() implies ie[i].0 < ie[j].0 by {
            if i == 0 {
                assert(ie[j] == it[j - 1]);
                let x = it[j - 1].0 as int;
                assert(has_frame(it, x));
                if has_frame(t, x) {
                    let k = choose|k: int| 0 <= k < t.len() && t[k].0 == x;
                    assert(r[k + 1] == t[k]);
                    assert(r[0].0 < r[k + 1].0);
                }
            } else {
                assert(ie[i] == it[i - 1] && ie[j] == it[j - 1]);
            }
        }
    }
}

/// `sorted_dedup` is strictly sorted and keeps exactly the frames of its input.
pub proof fn lemma_sorted_dedup_sorted(es: Seq<(i32, bool)>)
    ensures
        strictly_sorted(sorted_dedup(es)),
        forall|x: int| has_frame(sorted_dedup(es), x) <==> has_frame(es, x),
    decreases es.len(),
{
    if es.len() > 0 {
        lemma_sorted_dedup_sorted(es.drop_last());
        lemma_insert_edge_props(sorted_dedup(es.drop_last()), es.last());
        assert forall|x: int| has_frame(sorted_dedup(es), x) <==> has_frame(es, x) by {
            if has_frame(es.drop_last(), x) {
                let k = choose|k: int| 0 <= k < es.drop_last().len() && es.drop_last()[k].0 == x;
                assert(es[k] == es.drop_last()[k]);
            }
            if x == es.last().0 {
                assert(es[es.len() - 1] == es.last());
            }
            if has_frame(es, x) {
                let k = choose|k: int| 0 <= k < es.len() && es[k].0 == x;
                if k < es.len() - 1 {
                    assert(es.drop_last()[k] == es[k]);
                }
            }
        }
    }
}

/// Jump the playhead to the next (or previous) layer edge, wrapping around;
/// nothing happens when the comp has no edges.
pub fn jump_to_edge(comp: &mut CompNode, forward: bool)
    requires
        layers_wf(old(comp).layers@),
    ensures
        ({
            let es = edges_of(old(comp).layers@);
            if es.len() == 0 {
                *final(comp) == *old(comp)
            } else {
                &&& *final(comp) == (CompNode { frame: final(comp).frame, ..*old(comp) })
                &&& is_jump_target(es, old(comp).frame as int, forward, final(comp).frame as int)
            }
        }),
{
    let current = comp.frame();
    let edges = comp.get_child_edges();
    let ghost es = edges_of(comp.layers@);
    proof {
        lemma_sorted_dedup_sorted(es);
    }
    if edges.len() == 0 {
        proof {
            if es.len() > 0 {
                assert(has_frame(es, es[0].0 as int));
            }
        }
        return;
    }
    let ghost r = edges@;
    let f = if forward {
        let mut i: usize = 0;
        while i < edges.len() && edges[i].0 <= current
            invariant
                i <= edges@.len(),
                forall|j: int| 0 <= j < i ==> edges@[j].0 <= current,
            decreases edges@.len() - i,
        {
            i = i + 1;
        }
        if i < edges.len() {
            proof {
                lemma_jump_forward_found(es, r, current as int, i as int);
            }
            edges[i].0
        } else {
            proof {
                lemma_jump_forward_wrap(es, r, current as int);
            }
            edges[0].0
        }
    } else {
        let mut i: usize = edges.len();
        while i > 0 && edges[i - 1].0 >= current
            invariant
                i <= edges@.len(),
                forall|j: int| i <= j < edges@.len() ==> edges@[j].0 >= current,
            decreases i,
        {
            i = i - 1;
        }
        if i > 0 {
            proof {
                lemma_jump_backward_found(es, r, current as int, i - 1);
            }
            edges[i - 1].0
        } else {
            proof {
                lemma_jump_backward_wrap(es, r, current as int);
            }
            edges[edges.len() - 1].0
        }
    };
    comp.set_frame(f);
}

proof fn lemma_jump_forward_found(es: Seq<(i32, bool)>, r: Seq<(i32, bool)>, cur: int, i: int)
    requires
        r == sorted_dedup(es),
        strictly_sorted(r),
        forall|x: int| has_frame(r, x) <==> has_frame(es, x),
        0 <= i < r.len(),
        r[i].0 > cur,
        forall|j: int| 0 <= j < i ==> r[j].0 <= cur,
    ensures
        is_jump_target(es, cur, true, r[i].0 as int),
{
    assert(has_frame(r, r[i].0 as int));
    assert forall|k: int| 0 <= k < es.len() && es[k].0 > cur implies es[k].0 >= r[i].0 by {
        assert(has_frame(es, es[k].0 as int));
        let j = choose|j: int| 0 <= j < r.len() && r[j].0 == es[k].0;
        if j > i {
            assert(r[i].0 < r[j].0);
        }
    }
    let x = r[i].0 as int;
    let k = choose|k: int| 0 <= k < es.len() && es[k].0 == x;
    assert(es[k].0 > cur);
}

proof fn lemma_jump_forward_wrap(es: Seq<(i32, bool)>, r: Seq<(i32, bool)>, cur: int)
    requires
        r == sorted_dedup(es),
        strictly_sorted(r),
        forall|x: int| has_frame(r, x) <==> has_frame(es, x),
        r.len() > 0,
        forall|j: int| 0 <= j < r.len() ==> r[j].0 <= cur,
    ensures
        is_jump_target(es, cur, true, r[0].0 as int),
{
    assert(has_frame(r, r[0].0 as int));
    assert forall|k: int| 0 <= k < es.len() implies es[k].0 >= r[0].0 && es[k].0 <= cur by {
        assert(has_frame(es, es[k].0 as int));
        let j = choose|j: int| 0 <= j < r.len() && r[j].0 == es[k].0;
        if j > 0 {
            assert(r[0].0 < r[j].0);
        }
    }
}

proof fn lemma_jump_backward_found(es: Seq<(i32, bool)>, r: Seq<(i32, bool)>, cur: int, i: int)
    requires
        r == sorted_dedup(es),
        strictly_sorted(r),
        forall|x: int| has_frame(r, x) <==> has_frame(es, x),
        0 <= i < r.len(),
        r[i].0 < cur,
        forall|j: int| i < j < r.len() ==> r[j].0 >= cur,
    ensures
        is_jump_target(es, cur, false, r[i].0 as int),
{
    assert(has_frame(r, r[i].0 as int));
    assert forall|k: int| 0 <= k < es.len() && es[k].0 < cur implies es[k].0 <= r[i].0 by {
        assert(has_frame(es, es[k].0 as int));
        let j = choose|j: int| 0 <= j < r.len() && r[j].0 == es[k].0;
        if j < i {
            assert(r[j].0 < r[i].0);
        }
    }
    let x = r[i].0 as int;
    let k = choose|k: int| 0 <= k < es.len() && es[k].0 == x;
    assert(es[k].0 < cur);
}

proof fn lemma_jump_backward_wrap(es: Seq<(i32, bool)>, r: Seq<(i32, bool)>, cur: int)
    requires
        r == sorted_dedup(es),
        strictly_sorted(r),
        forall|x: int| has_frame(r, x) <==> has_frame(es, x),
        r.len() > 0,
        forall|j: int| 0 <= j < r.len() ==> r[j].0 >= cur,
    ensures
        is_jump_target(es, cur, false, r[r.len() - 1].0 as int),
{
    let l = r.len() - 1;
    assert(has_frame(r, r[l].0 as int));
    assert forall|k: int| 0 <= k < es.len() implies es[k].0 <= r[l].0 && es[k].0 >= cur by {
        assert(has_frame(es, es[k].0 as int));
        let j = choose|j: int| 0 <= j < r.len() && r[j].0 == es[k].0;
        if j < l {
            assert(r[j].0 < r[l].0);
        }
    }
}

} // verus!
