use playa::comp::{jump_to_edge, CompError, CompNode, Layer, LayerAttr};
use playa::compositor::BlendMode;
use playa::frame::FrameStatus;

fn fresh() -> u128 {
    uuid::Uuid::new_v4().as_u128()
}

#[test]
fn test_comp_node_creation() {
    let node = CompNode::new("Test Comp", 0, 100);
    assert_eq!(node.name(), "Test Comp");
    assert_eq!(node._in(), 0);
    assert_eq!(node._out(), 100);
    assert!(node.layers.is_empty());
}

#[test]
fn test_layer_creation() {
    let source_uuid = fresh();
    let layer = Layer::new(source_uuid, "Layer 1", 10, 50, (1920, 1080));
    assert_eq!(layer.source_uuid(), source_uuid);
    assert_eq!(layer.start(), 10);
    assert_eq!(layer.end(), 59);
}

#[test]
fn test_add_remove_layer() {
    let mut node = CompNode::new("Test", 0, 100);
    let source_uuid = fresh();
    let layer = Layer::new(source_uuid, "Layer 1", 0, 50, (1920, 1080));
    let layer_uuid = layer.uuid();
    node.add_layer(layer, None);
    assert_eq!(node.layers.len(), 1);
    let removed = node.remove_layer(layer_uuid);
    assert!(removed.is_some());
    assert!(node.layers.is_empty());
}

#[test]
fn test_node_trait() {
    let node = CompNode::new("Test", 0, 100);
    assert_eq!(node.node_type(), "Comp");
    assert!(node.inputs().is_empty());
}

#[test]
fn comp_defaults() {
    let node = CompNode::new("C", 5, 20);
    assert_eq!(node.frame(), 5);
    assert_eq!(node.dim(), (1920, 1080));
    assert_eq!(node.frame_count(), 16);
    assert_eq!(node.work_area(), (5, 20));
    assert!(!node.is_dirty());
    assert!(!node.is_file_mode());
    assert_ne!(node.uuid(), 0);
}

#[test]
fn layer_defaults_and_blend() {
    let mut l = Layer::new(fresh(), "L", 3, 10, (640, 480));
    assert!(l.is_visible());
    assert_eq!(l.blend_mode(), BlendMode::Normal);
    assert_eq!(l.work_area(), (3, 12));
    l.blend_mode = "screen".to_string();
    assert_eq!(l.blend_mode(), BlendMode::Screen);
    l.blend_mode = "bogus".to_string();
    assert_eq!(l.blend_mode(), BlendMode::Normal);
}

#[test]
fn add_layer_rebounds_to_layers() {
    let mut comp = CompNode::new("C", 0, 100);
    comp.add_layer(Layer::new(fresh(), "a", 10, 20, (320, 200)), None);
    comp.add_layer(Layer::new(fresh(), "b", 50, 10, (640, 480)), None);
    assert_eq!((comp._in(), comp._out()), (10, 59));
    assert_eq!(comp.dim(), (320, 200));
    assert!(comp.is_dirty());
    assert_eq!(comp.bounds(true, false), (10, 59));
}

#[test]
fn bounds_without_layers() {
    let comp = CompNode::new("C", 0, 10);
    assert_eq!(comp.bounds(true, false), (0, 100));
}

#[test]
fn move_child_out_of_bounds() {
    let mut comp = CompNode::new("C", 0, 10);
    assert_eq!(comp.move_child(3, 7), Err(CompError::LayerIndexOutOfBounds));
    comp.add_layer(Layer::new(fresh(), "a", 0, 10, (10, 10)), None);
    assert_eq!(comp.move_child(0, 7), Ok(()));
    assert_eq!(comp.layers[0].start(), 7);
    assert_eq!((comp._in(), comp._out()), (7, 16));
}

#[test]
fn child_edges_and_jumps() {
    let mut comp = CompNode::new("C", 0, 100);
    comp.add_layer(Layer::new(fresh(), "a", 10, 11, (10, 10)), None);
    comp.add_layer(Layer::new(fresh(), "b", 30, 11, (10, 10)), None);
    let edges = comp.get_child_edges();
    let frames: Vec<i32> = edges.iter().map(|e| e.0).collect();
    assert_eq!(frames, vec![10, 20, 30, 40]);
    comp.set_frame(15);
    jump_to_edge(&mut comp, true);
    assert_eq!(comp.frame(), 20);
    jump_to_edge(&mut comp, true);
    assert_eq!(comp.frame(), 30);
    comp.set_frame(45);
    jump_to_edge(&mut comp, true);
    assert_eq!(comp.frame(), 10);
    jump_to_edge(&mut comp, false);
    assert_eq!(comp.frame(), 40);
}

#[test]
fn set_child_attrs_applies_in_order() {
    let mut comp = CompNode::new("C", 0, 100);
    let l = Layer::new(fresh(), "a", 0, 10, (10, 10));
    let u = l.uuid();
    comp.add_layer(l, None);
    comp.clear_dirty();
    comp.set_child_attrs(u, vec![LayerAttr::Visible(false), LayerAttr::Name("renamed".to_string()), LayerAttr::In(5)]);
    let l = comp.get_layer(u).unwrap();
    assert!(!l.visible);
    assert_eq!(l.name, "renamed");
    assert_eq!(l.start(), 5);
    assert!(comp.is_dirty());
}

#[test]
fn compose_layers_order_and_solo() {
    let mut comp = CompNode::new("C", 0, 100);
    comp.add_layer(Layer::new(fresh(), "top", 0, 50, (10, 10)), None);
    comp.add_layer(Layer::new(fresh(), "mid", 0, 50, (10, 10)), None);
    comp.add_layer(Layer::new(fresh(), "bottom", 40, 50, (10, 10)), None);
    assert_eq!(comp.compose_layers(10), vec![1, 0]);
    assert_eq!(comp.compose_layers(45), vec![2, 1, 0]);
    comp.layers[1].visible = false;
    assert_eq!(comp.compose_layers(45), vec![2, 0]);
    comp.layers[0].solo = true;
    assert_eq!(comp.compose_layers(45), vec![0]);
    assert_eq!(comp.compose_layers(95), Vec::<usize>::new());
}

#[test]
fn needs_recompose_rules() {
    let mut comp = CompNode::new("C", 0, 10);
    assert!(!comp.needs_recompose(false, Some(FrameStatus::Loaded)));
    assert!(comp.needs_recompose(false, None));
    assert!(comp.needs_recompose(false, Some(FrameStatus::Loading)));
    assert!(comp.needs_recompose(true, Some(FrameStatus::Loaded)));
    comp.mark_dirty();
    assert!(comp.needs_recompose(false, Some(FrameStatus::Loaded)));
    assert!(CompNode::needs_compute(None));
    assert!(CompNode::needs_compute(Some(FrameStatus::Header)));
    assert!(!CompNode::needs_compute(Some(FrameStatus::Loading)));
}

#[test]
fn comp_preload_spiral() {
    let mut comp = CompNode::new("C", 0, 100);
    assert!(comp.preload_frames(5, 3).is_empty());
    comp.add_layer(Layer::new(fresh(), "a", 0, 10, (10, 10)), None);
    assert_eq!(comp.work_area(), (0, 9));
    assert_eq!(comp.preload_frames(5, 2), vec![5, 4, 6, 3, 7]);
    assert_eq!(comp.preload_frames(0, 3), vec![0, 1, 2, 3]);
    assert_eq!(comp.preload_frames(9, 100), vec![9, 8, 7, 6, 5, 4, 3, 2, 1, 0]);
}

#[test]
fn layer_rows_greedy() {
    let mut comp = CompNode::new("C", 0, 100);
    comp.add_layer(Layer::new(fresh(), "a", 0, 10, (10, 10)), None);
    comp.add_layer(Layer::new(fresh(), "b", 5, 10, (10, 10)), None);
    comp.add_layer(Layer::new(fresh(), "c", 20, 10, (10, 10)), None);
    comp.add_layer(Layer::new(fresh(), "d", 8, 3, (10, 10)), None);
    let rows = comp.compute_layer_rows(&[0, 1, 2, 3, 9]);
    assert_eq!(rows, vec![Some(0), Some(1), Some(0), Some(2)]);
    let rows = comp.compute_layer_rows(&[2]);
    assert_eq!(rows, vec![None, None, Some(0), None]);
}

#[test]
fn reorder_and_selection_edits() {
    let mut comp = CompNode::new("C", 0, 100);
    let a = Layer::new(fresh(), "a", 0, 10, (10, 10));
    let b = Layer::new(fresh(), "b", 0, 10, (10, 10));
    let (ua, ub) = (a.uuid(), b.uuid());
    comp.add_layer(a, None);
    comp.add_layer(b, None);
    comp.reorder_layer(0, 1);
    assert_eq!(comp.layers_uuids_vec(), vec![ub, ua]);
    comp.reorder_layer(0, 5);
    assert_eq!(comp.layers_uuids_vec(), vec![ub, ua]);
    comp.select_all_layers();
    assert_eq!(comp.layer_selection, vec![ub, ua]);
    assert_eq!(comp.layer_selection_anchor, Some(ub));
    assert!(comp.is_multi_selected());
    comp.clear_layer_selection();
    assert!(comp.layer_selection.is_empty());
    assert_eq!(comp.layer_selection_anchor, None);
}

#[test]
fn reset_trims_of_selection() {
    let mut comp = CompNode::new("C", 0, 100);
    let mut a = Layer::new(fresh(), "a", 0, 10, (10, 10));
    a.trim_in_span = 2;
    a.trim_out_span = 3;
    let mut b = Layer::new(fresh(), "b", 0, 10, (10, 10));
    b.trim_in_span = 1;
    let ua = a.uuid();
    comp.add_layer(a, None);
    comp.add_layer(b, None);
    comp.layer_selection = vec![ua];
    comp.reset_trims();
    assert_eq!((comp.layers[0].trim_in_span, comp.layers[0].trim_out_span), (0, 0));
    assert_eq!(comp.layers[1].trim_in_span, 1);
    assert!(comp.is_dirty());
}

#[test]
fn play_area_edits() {
    let mut comp = CompNode::new("C", 10, 100);
    comp.set_comp_play_start(20);
    comp.set_comp_play_end(90);
    assert_eq!(comp.play_range(true), (20, 90));
    assert_eq!(comp.play_frame_count(), 71);
    comp.set_comp_play_start(0);
    assert_eq!(comp.trim_in(), 0);
    comp.reset_comp_play_area();
    assert_eq!((comp.trim_in(), comp.trim_out()), (0, 0));
    assert!(comp.positions_fit());
}

#[test]
fn comp_lookup_helpers() {
    let mut comp = CompNode::new("C", 0, 100);
    let src = fresh();
    let a = Layer::new(src, "a", 0, 10, (10, 10));
    let b = Layer::new(fresh(), "b", 5, 10, (10, 10));
    let (ua, ub) = (a.uuid(), b.uuid());
    comp.add_layer(a, None);
    comp.add_layer(b, Some(0));
    assert_eq!(comp.idx_to_uuid(0), Some(ub));
    assert_eq!(comp.uuid_to_idx(ua), Some(1));
    assert_eq!(comp.uuids_to_indices(&[ua, 7, ub]), vec![1, 0]);
    assert_eq!(comp.layers_by_source(src), vec![ua]);
    assert_eq!(comp.child_start(ub), Some(5));
    assert_eq!(comp.child_end(ub), Some(14));
    assert_eq!(comp.child_work_area_abs(ua), Some((0, 9)));
    assert_eq!(comp.child_in(7), None);
}

#[test]
fn trim_layers_moves_edges_and_stops_at_zero() {
    let mut comp = CompNode::new("C", 0, 100);
    let a = Layer::new(fresh(), "a", 10, 20, (10, 10));
    let b = Layer::new(fresh(), "b", 0, 5, (10, 10));
    let (ua, ub) = (a.uuid(), b.uuid());
    comp.add_layer(a, None);
    comp.add_layer(b, None);
    comp.trim_layers(&[ua], "in", 4);
    assert_eq!(comp.layers[0].trim_in_span, 4);
    assert_eq!(comp.layers[0].work_area(), (14, 29));
    comp.trim_layers(&[ua, ub], "start", -10);
    assert_eq!((comp.layers[0].trim_in_span, comp.layers[1].trim_in_span), (0, 0));
    comp.trim_layers(&[ua], "out", -3);
    assert_eq!(comp.layers[0].trim_out_span, 3);
    assert_eq!(comp.layers[0].work_area(), (10, 26));
    comp.trim_layers(&[ua], "end", 7);
    assert_eq!(comp.layers[0].trim_out_span, 0);
    comp.trim_layers(&[ua], "middle", 5);
    assert_eq!((comp.layers[0].trim_in_span, comp.layers[0].trim_out_span), (0, 0));
    assert_eq!((comp._in(), comp._out()), (0, 29));
}

#[test]
fn set_child_start_and_end_set_trims() {
    let mut comp = CompNode::new("C", 0, 100);
    comp.add_layer(Layer::new(fresh(), "a", 10, 20, (10, 10)), None);
    assert_eq!(comp.set_child_start(0, 15), Ok(()));
    assert_eq!(comp.layers[0].trim_in_span, 5);
    assert_eq!(comp.set_child_start(0, 3), Ok(()));
    assert_eq!(comp.layers[0].trim_in_span, 0);
    assert_eq!(comp.set_child_end(0, 25), Ok(()));
    assert_eq!(comp.layers[0].trim_out_span, 4);
    assert_eq!(comp.layers[0].work_area(), (10, 25));
    assert_eq!((comp._in(), comp._out()), (10, 25));
    assert_eq!(comp.set_child_end(0, 40), Ok(()));
    assert_eq!(comp.layers[0].trim_out_span, 0);
    assert_eq!(comp.set_child_start(1, 0), Err(CompError::LayerIndexOutOfBounds));
    assert_eq!(comp.set_child_end(1, 0), Err(CompError::LayerIndexOutOfBounds));
}

#[test]
fn work_area_abs_orders_and_clamps() {
    let mut comp = CompNode::new("C", 0, 100);
    comp.set_work_area_abs(80, 20);
    assert_eq!(comp.work_area(), (20, 80));
    assert_eq!((comp.trim_in(), comp.trim_out()), (20, 20));
    comp.set_work_area_abs(-10, 500);
    assert_eq!(comp.work_area(), (0, 100));
    comp.set_work_area_abs(150, 120);
    assert_eq!(comp.work_area(), (100, 100));
    assert!(comp.is_dirty());
}

#[test]
fn edges_near_nearest_first() {
    let mut comp = CompNode::new("C", 0, 100);
    comp.add_layer(Layer::new(fresh(), "a", 10, 10, (1, 1)), None);
    comp.add_layer(Layer::new(fresh(), "b", 0, 5, (1, 1)), None);
    assert_eq!(comp.get_child_edges_near(50), vec![(19, false), (10, true), (4, false), (0, true)]);
    assert_eq!(comp.get_child_edges_near(0), vec![(0, true), (4, false), (10, true), (19, false)]);
    assert_eq!(comp.get_child_edges_near(7), vec![(4, false), (10, true), (0, true), (19, false)]);
    let mut one = CompNode::new("D", 0, 100);
    one.add_layer(Layer::new(fresh(), "x", 0, 11, (1, 1)), None);
    assert_eq!(one.get_child_edges_near(9), vec![(10, false), (0, true)]);
}
