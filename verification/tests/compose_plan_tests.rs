use playa::comp::{CompNode, Layer};
use playa::node::NodeKind;
use playa::project::Project;

/// root: [mid at 5 (layer 0), leaf at 0 (layer 1)]; mid: [leaf at 0].
fn graph() -> (Project, u128, u128, u128) {
    let mut p = Project::new();
    let leaf = p.create_file("shot.*.exr".to_string(), 1, 10);
    let mut mid = CompNode::new("mid", 0, 10);
    mid.add_layer(Layer::new(leaf, "leaf_1", 0, 10, (10, 10)), None);
    let mid_id = mid.uuid();
    p.add_node(NodeKind::Comp(mid));
    let mut root = CompNode::new("root", 0, 20);
    root.add_layer(Layer::new(mid_id, "mid_1", 5, 10, (10, 10)), None);
    root.add_layer(Layer::new(leaf, "leaf_2", 0, 10, (10, 10)), None);
    let root_id = root.uuid();
    p.add_node(NodeKind::Comp(root));
    (p, root_id, mid_id, leaf)
}

#[test]
fn frame_sources_follow_nested_comps() {
    let (p, root, _mid, leaf) = graph();
    assert_eq!(p.frame_sources(root, 7), Some(vec![(leaf, 8), (leaf, 3)]));
    assert_eq!(p.frame_sources(root, 12), Some(vec![(leaf, 8)]));
    assert_eq!(p.frame_sources(root, 30), Some(vec![]));
    assert_eq!(p.frame_sources(leaf, 4), Some(vec![(leaf, 4)]));
    assert_eq!(p.frame_sources(uuid::Uuid::new_v4().as_u128(), 4), Some(vec![]));
}

#[test]
fn frame_sources_stop_at_cycles_and_missing_sources() {
    let (mut p, root, mid, leaf) = graph();
    let mut m = p.get_comp(mid).unwrap().clone();
    m.add_layer(Layer::new(root, "root_1", 0, 10, (10, 10)), None);
    m.add_layer(Layer::new(uuid::Uuid::new_v4().as_u128(), "gone", 0, 10, (10, 10)), None);
    p.update_node(NodeKind::Comp(m));
    assert_eq!(p.frame_sources(root, 7), Some(vec![(leaf, 8), (leaf, 3)]));
}
