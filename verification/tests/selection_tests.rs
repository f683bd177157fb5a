use playa::project::Project;
use playa::selection::{is_jump, position_of_id};

#[test]
fn anchor_follows_last_selected() {
    let mut p = Project::new();
    p.set_comps_order(vec![10, 20, 30]);
    p.set_selection_anchored(vec![30, 10], None);
    assert_eq!(p.selection(), vec![30, 10]);
    assert_eq!(p.selection_anchor, Some(0));
    p.set_selection_anchored(vec![20], Some(2));
    assert_eq!(p.selection_anchor, Some(2));
    p.set_selection_anchored(vec![99], None);
    assert_eq!(p.selection_anchor, None);
    p.set_selection_anchored(vec![], None);
    assert_eq!(p.selection_anchor, None);
    p.anchor_on(20);
    assert_eq!(p.selection_anchor, Some(1));
    p.anchor_on(5);
    assert_eq!(p.selection_anchor, None);
    assert_eq!(position_of_id(&[4, 5, 4], 4), Some(0));
}

#[test]
fn jumps_are_more_than_one_frame() {
    assert!(!is_jump(10, 11));
    assert!(!is_jump(10, 9));
    assert!(!is_jump(10, 10));
    assert!(is_jump(10, 12));
    assert!(is_jump(10, 8));
    assert!(is_jump(i32::MIN, i32::MAX));
}
