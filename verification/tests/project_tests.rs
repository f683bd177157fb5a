use playa::comp::{CompError, CompNode, Layer};
use playa::node::{FileNode, NodeKind};
use playa::project::Project;

fn test_project() -> Project {
    Project::new()
}

fn fresh() -> u128 {
    uuid::Uuid::new_v4().as_u128()
}

#[test]
fn test_iter_node_empty() {
    let project = test_project();
    let fake_uuid = fresh();
    let items = project.iter_node(fake_uuid, -1);
    assert_eq!(items.len(), 1);
    assert_eq!(items[0].uuid, fake_uuid);
    assert_eq!(items[0].depth, 0);
    assert!(items[0].is_leaf);
}

#[test]
fn test_iter_node_depth_limit() {
    let project = test_project();
    let root = fresh();
    let items = project.iter_node(root, 0);
    assert_eq!(items.len(), 1);
    assert_eq!(items[0].depth, 0);
}

#[test]
fn test_descendants() {
    let project = test_project();
    let root = fresh();
    let desc = project.descendants(root);
    assert_eq!(desc.len(), 1);
    assert_eq!(desc[0], root);
}

#[test]
fn test_is_ancestor_self() {
    let project = test_project();
    let uuid = fresh();
    assert!(project.is_ancestor(uuid, uuid));
}

#[test]
fn test_is_ancestor_different() {
    let project = test_project();
    let a = fresh();
    let b = fresh();
    assert!(!project.is_ancestor(a, b));
}

/// root -> (mid -> leaf), leaf
fn graph() -> (Project, u128, u128, u128) {
    let mut p = Project::new();
    let leaf = p.create_file("shot.*.exr".to_string(), 1, 10);
    let mut mid = CompNode::new("mid", 0, 10);
    mid.add_layer(Layer::new(leaf, "leaf_1", 0, 10, (10, 10)), None);
    let mid_id = mid.uuid();
    p.add_node(NodeKind::Comp(mid));
    let mut root = CompNode::new("root", 0, 10);
    root.add_layer(Layer::new(mid_id, "mid_1", 0, 10, (10, 10)), None);
    root.add_layer(Layer::new(leaf, "leaf_2", 0, 10, (10, 10)), None);
    let root_id = root.uuid();
    p.add_node(NodeKind::Comp(root));
    (p, root_id, mid_id, leaf)
}

#[test]
fn walk_is_depth_first_in_layer_order() {
    let (p, root, mid, leaf) = graph();
    let items = p.iter_node(root, -1);
    let got: Vec<(u128, i32, bool)> = items.iter().map(|i| (i.uuid, i.depth, i.is_leaf)).collect();
    assert_eq!(got, vec![(root, 0, false), (mid, 1, false), (leaf, 2, true), (leaf, 1, true)]);
    let shallow = p.iter_node(root, 1);
    assert_eq!(shallow.len(), 3);
    assert_eq!(p.descendants(mid), vec![mid, leaf]);
    assert!(p.is_ancestor(root, leaf));
    assert!(!p.is_ancestor(leaf, root));
}

#[test]
fn collisions_detect_cycles() {
    let (p, root, mid, leaf) = graph();
    let mid_node = p.get_comp(mid).unwrap().clone();
    assert!(mid_node.check_collisions(root, &p.media, true));
    assert!(mid_node.check_collisions(mid, &p.media, true));
    assert!(!mid_node.check_collisions(leaf, &p.media, true));
    assert!(mid_node.check_collisions(leaf, &p.media, false));
    assert!(!mid_node.check_collisions(root, &p.media, false));
}

#[test]
fn delete_removes_every_reference() {
    let (mut p, root, mid, leaf) = graph();
    p.set_selection(vec![leaf, root]);
    p.del_node(leaf);
    assert!(!p.contains_node(leaf));
    assert!(p.contains_node(root) && p.contains_node(mid));
    assert_eq!(p.get_comp(root).unwrap().inputs(), vec![mid]);
    assert!(p.get_comp(mid).unwrap().inputs().is_empty());
    assert_eq!(p.comps_order(), vec![mid, root]);
    assert_eq!(p.selection(), vec![root]);
    p.del_comp(root);
    assert_eq!(p.comps_order(), vec![mid]);
}

#[test]
fn gen_name_counts_past_existing() {
    let (p, _, _, _) = graph();
    assert_eq!(p.gen_name("leaf.exr"), "leaf_3");
    assert_eq!(p.gen_name("mid_7"), "mid_2");
    assert_eq!(p.gen_name("shot.0001.exr"), "shot._1");
    assert_eq!(p.gen_name("123"), "layer_1");
    assert_eq!(p.gen_name("plate"), "plate_1");
}

#[test]
fn default_comp_and_lookup() {
    let mut p = Project::new();
    let main = p.ensure_default_comp();
    assert_eq!(p.comps_order(), vec![main]);
    assert_eq!(p.get_node(main).unwrap().name(), "Main");
    assert_eq!(p.ensure_default_comp(), main);
    let f = FileNode::new("x.*.png".to_string(), 0, 1);
    let fid = f.uuid();
    p.update_node(NodeKind::File(f));
    assert!(p.get_file(fid).is_some());
    assert!(p.get_comp(fid).is_none());
    assert_eq!(p.node_position(fid), Some(1));
    p.set_active(Some(fid));
    assert_eq!(p.active(), Some(fid));
    let c = p.create_comp("Edit", 120);
    assert_eq!(p.get_comp(c).unwrap()._out(), 120);
    assert!(p.contains_comp(c));
}

#[test]
fn generated_names_are_new() {
    let (p, _, _, _) = graph();
    for src in ["leaf.exr", "mid", "root_3", "shot.0001.exr"] {
        let name = p.gen_name(src);
        for node in &p.media {
            assert_ne!(node.name(), name);
            if let Some(c) = node.as_comp() {
                for l in &c.layers {
                    assert_ne!(l.name, name);
                }
            }
        }
    }
}

#[test]
fn add_layer_takes_range_size_and_fresh_name() {
    let mut p = Project::new();
    let comp = p.create_comp("Edit", 100);
    let plate = p.create_file("plate".to_string(), 1, 10);
    let first = p.add_layer(comp, plate, 5, None).unwrap();
    let second = p.add_layer(comp, plate, 0, Some(0)).unwrap();
    let c = p.get_comp(comp).unwrap();
    assert_eq!(c.layers.len(), 2);
    let top = &c.layers[1];
    assert_eq!(top.uuid, first);
    assert_eq!(top.source_uuid, plate);
    assert_eq!(top.name, "plate_1");
    assert_eq!(top.in_frame, 5);
    assert_eq!(top.span, 10);
    assert_eq!((top.width, top.height), (64, 64));
    assert_eq!(c.layers[0].uuid, second);
    assert_eq!(c.layers[0].name, "plate_2");
    assert_eq!(c.inputs(), vec![plate, plate]);
}

#[test]
fn add_layer_for_unknown_source_uses_defaults() {
    let mut p = Project::new();
    let comp = p.create_comp("Edit", 100);
    let ghost = uuid::Uuid::new_v4().as_u128();
    p.add_layer(comp, ghost, 3, None).unwrap();
    let l = &p.get_comp(comp).unwrap().layers[0];
    assert_eq!(l.name, "layer_1");
    assert_eq!(l.span, 1);
    assert_eq!(l.in_frame, 3);
    assert_eq!((l.width, l.height), (64, 64));
}

#[test]
fn add_layer_errors_leave_project_unchanged() {
    let mut p = Project::new();
    let comp = p.create_comp("Edit", 100);
    let plate = p.create_file("plate".to_string(), 1, 10);
    let missing = uuid::Uuid::new_v4().as_u128();
    assert_eq!(p.add_layer(missing, plate, 0, None), Err(CompError::NodeNotFound));
    assert_eq!(p.add_layer(plate, comp, 0, None), Err(CompError::NotAComposition));
    assert_eq!(p.add_layer(comp, plate, i32::MAX - 5, None), Err(CompError::OutOfRange));
    assert!(p.get_comp(comp).unwrap().layers.is_empty());
    assert_eq!(p.add_layer(comp, plate, i32::MAX - 9, None).map(|_| ()), Ok(()));
}
