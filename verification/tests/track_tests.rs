use playa::track::{Track, TrackLayer};

fn make_layer(instance_uuid: u128, in_frame: i32, src_len: i32) -> TrackLayer {
    TrackLayer::new(instance_uuid, in_frame, src_len)
}

fn fresh() -> u128 {
    uuid::Uuid::new_v4().as_u128()
}

#[test]
fn test_layer_timing() {
    let layer = make_layer(fresh(), 10, 100);
    assert_eq!(layer.start(), 10);
    assert_eq!(layer.end(), 109);
}

#[test]
fn test_track_can_place() {
    let mut track = Track::new("Track 1");
    let layer = make_layer(fresh(), 0, 50);
    track.add_layer(layer);
    assert!(!track.can_place(25, 75));
    assert!(track.can_place(50, 100));
    assert!(track.can_place(-50, -1));
}

#[test]
fn test_track_sorted_insert() {
    let mut track = Track::new("Track 1");
    track.add_layer(make_layer(fresh(), 100, 10));
    track.add_layer(make_layer(fresh(), 0, 10));
    track.add_layer(make_layer(fresh(), 50, 10));
    assert_eq!(track.layers[0].start(), 0);
    assert_eq!(track.layers[1].start(), 50);
    assert_eq!(track.layers[2].start(), 100);
}

#[test]
fn track_remove_and_find() {
    let mut track = Track::new("T");
    let a = fresh();
    let b = fresh();
    track.add_layer(make_layer(a, 0, 10));
    track.add_layer(make_layer(b, 20, 10));
    assert_eq!(track.len(), 2);
    assert!(track.find_layer(b).is_some());
    let removed = track.remove_layer(a).unwrap();
    assert_eq!(removed.instance_uuid, a);
    assert!(track.find_layer(a).is_none());
    assert!(track.remove_layer(a).is_none());
    assert_eq!(track.len(), 1);
    assert!(!track.is_empty());
}

#[test]
fn track_layer_at_frame() {
    let mut track = Track::new("T");
    let a = fresh();
    track.add_layer(make_layer(a, 10, 5));
    assert_eq!(track.layer_at_frame(12).unwrap().instance_uuid, a);
    assert_eq!(track.layer_at_frame(14).unwrap().instance_uuid, a);
    assert!(track.layer_at_frame(15).is_none());
    assert!(track.layer_at_frame(9).is_none());
}

#[test]
fn track_stays_sorted_and_disjoint_when_placing() {
    let mut track = Track::new("T");
    for (start, len) in [(30, 5), (0, 10), (15, 5), (40, 1)] {
        let l = make_layer(fresh(), start, len);
        assert!(track.can_place(l.start(), l.end()));
        track.add_layer(l);
    }
    for w in track.layers.windows(2) {
        assert!(w[0].start() <= w[1].start());
        assert!(w[0].end() < w[1].start());
    }
}
