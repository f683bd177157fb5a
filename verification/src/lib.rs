//! Verified core of an image-sequence player: sequence path parsing,
//! composition timelines, layer tracks, the media node graph, frame
//! status and pixel buffers, and the small value types they share.

pub mod cache;
pub mod comp;
pub mod comp_edit;
pub mod comp_trim;
pub mod compose;
pub mod compose_plan;
pub mod compose_result;
pub mod compositor;
pub mod detect;
pub mod effects;
pub mod events;
pub mod frame;
pub mod help;
pub mod ids;
pub mod node;
pub mod paths;
pub mod printf;
pub mod project;
pub mod project_layers;
pub mod selection;
pub mod seqpath;
pub mod strs;
pub mod text;
pub mod track;
