use playa::comp::{CompError, CompNode};
use playa::frame::FrameStatus;
use playa::node::{forward_frames, spiral_frames, FileFrame, FileNode, NodeKind};

#[test]
fn test_file_node_creation() {
    let node = FileNode::new("test.*.exr".to_string(), 1, 100);
    assert_eq!(node.file_mask(), Some("test.*.exr".to_string()));
    assert_eq!(node.file_start(), Some(1));
    assert_eq!(node.file_end(), Some(100));
    assert_eq!(node.frame_count(), 100);
}

#[test]
fn test_file_node_trait() {
    let node = FileNode::new("test.*.exr".to_string(), 1, 100);
    assert_eq!(node.node_type(), "File");
    assert!(node.inputs().is_empty());
}

#[test]
fn test_node_kind_file() {
    let file = FileNode::new("test.*.exr".to_string(), 1, 100);
    let kind: NodeKind = file.into();
    assert!(kind.is_file());
    assert!(!kind.is_comp());
    assert_eq!(kind.node_type(), "File");
}

#[test]
fn test_node_kind_comp() {
    let comp = CompNode::new("Test Comp", 0, 100);
    let kind: NodeKind = comp.into();
    assert!(!kind.is_file());
    assert!(kind.is_comp());
    assert_eq!(kind.node_type(), "Comp");
}

#[test]
fn test_node_trait_delegation() {
    let file = FileNode::new("test.*.exr".to_string(), 1, 100);
    let file_uuid = file.uuid();
    let kind: NodeKind = file.into();
    assert_eq!(kind.uuid(), file_uuid);
    assert!(kind.inputs().is_empty());
}

#[test]
fn file_node_defaults() {
    let node = FileNode::new("shot.*.png".to_string(), 10, 19);
    assert_eq!(node.name(), "shot.*.png");
    assert_eq!(node.dim(), (64, 64));
    assert_eq!(node.frame(), 10);
    assert_eq!(node.work_area_abs(), (10, 19));
    assert!(node.is_dirty());
    assert_ne!(node.uuid(), 0);
}

#[test]
fn file_node_frame_paths() {
    let node = FileNode::new("/seq/shot.*.exr".to_string(), 1, 100);
    assert_eq!(node.resolve_frame_path(7), Some("/seq/shot.0007.exr".to_string()));
    assert_eq!(node.resolve_frame_path(-3), Some("/seq/shot.-003.exr".to_string()));
    let video = FileNode::new("/movies/clip.MOV".to_string(), 0, 50);
    assert_eq!(video.resolve_frame_path(12), Some("/movies/clip.MOV@12".to_string()));
    let single = FileNode::new("/stills/one.png".to_string(), 0, 0);
    assert_eq!(single.resolve_frame_path(5), Some("/stills/one.png".to_string()));
}

#[test]
fn file_node_frame_lookup() {
    let mut node = FileNode::new("a.*.exr".to_string(), 1001, 1010);
    node.in_frame = 0;
    node.out_frame = 9;
    node.trim_in = 2;
    assert_eq!(node.frame_at(0), FileFrame::Placeholder);
    assert_eq!(node.frame_at(2), FileFrame::Sequence(1003));
    assert_eq!(node.frame_at(9), FileFrame::Sequence(1010));
    assert_eq!(node.frame_at(10), FileFrame::Placeholder);
    node.file_end = 1005;
    assert_eq!(node.frame_at(8), FileFrame::Placeholder);
    node.out_frame = -1;
    assert_eq!(node.frame_at(0), FileFrame::Nothing);
    assert_eq!(node.load_sequence_frame(4), 1005);
}

#[test]
fn file_node_load_rules() {
    assert!(FileNode::needs_load(None));
    assert!(FileNode::needs_load(Some(FrameStatus::Header)));
    assert!(FileNode::needs_load(Some(FrameStatus::Placeholder)));
    assert!(!FileNode::needs_load(Some(FrameStatus::Error)));
    assert!(!FileNode::needs_load(Some(FrameStatus::Loaded)));
}

#[test]
fn file_node_preload_orders() {
    let seq = FileNode::new("a.*.exr".to_string(), 0, 4);
    assert_eq!(seq.preload_frames(3), vec![3, 2, 4, 1, 0]);
    assert_eq!(seq.preload_frames(10), Vec::<i32>::new());
    assert_eq!(seq.preload_frames(-1), vec![0, 1, 2, 3]);
    let video = FileNode::new("clip.mp4".to_string(), 0, 4);
    assert_eq!(video.preload_frames(2), vec![2, 3, 4]);
    assert_eq!(video.preload_frames(-5), vec![0, 1, 2, 3, 4]);
}

#[test]
fn spiral_and_forward_helpers() {
    assert_eq!(spiral_frames(0, 2, -10, 10), vec![0, 1, 2]);
    assert_eq!(spiral_frames(-1, 2, -10, 10), vec![0, 1]);
    assert_eq!(spiral_frames(5, -1, 0, 10), Vec::<i32>::new());
    assert_eq!(forward_frames(3, 5), vec![3, 4, 5]);
    assert!(forward_frames(5, 3).is_empty());
    let s = spiral_frames(50, 20, 40, 65);
    let mut sorted = s.clone();
    sorted.sort();
    sorted.dedup();
    assert_eq!(sorted.len(), s.len());
    assert_eq!(sorted, (40..=65).collect::<Vec<i32>>());
}

#[test]
fn node_kind_dispatch() {
    let mut kind: NodeKind = FileNode::new("a.*.exr".to_string(), 5, 9).into();
    assert_eq!(kind.play_range(true), (5, 9));
    assert_eq!(kind.bounds(true), (5, 9));
    assert_eq!(kind.frame_count(), 5);
    assert_eq!(kind._in(), 5);
    assert_eq!(kind._out(), 9);
    assert_eq!(kind.file_mask(), Some("a.*.exr".to_string()));
    assert!(kind.as_file().is_some());
    assert!(kind.as_comp().is_none());
    assert!(kind.is_file_mode());
    assert_eq!(
        kind.add_child_layer(1, "x", 0, 10, None, (10, 10)),
        Err(CompError::NotAComposition)
    );
    let mut comp: NodeKind = CompNode::new("C", 0, 10).into();
    let src = 42u128;
    let id = comp.add_child_layer(src, "x", 3, 10, None, (10, 10)).unwrap();
    assert_ne!(id, 0);
    assert_eq!(comp.inputs(), vec![src]);
    assert_eq!(comp.bounds(true), (3, 12));
    assert!(comp.file_mask().is_none());
    assert!(comp.is_dirty());
}
