use playa::detect::{sequence_pattern, dedup_by_mask, pick_sequence};
use playa::frame::FrameError;
use playa::node::FileNode;

fn strings(v: &[&str]) -> Vec<String> {
    v.iter().map(|s| s.to_string()).collect()
}

#[test]
fn picks_largest_group() {
    let paths = strings(&[
        "/s/a.0003.exr",
        "/s/b.0001.exr",
        "/s/a.0001.exr",
        "/s/readme.txt",
        "/s/a.0002.exr",
        "/s/b.0002.exr",
    ]);
    let p = pick_sequence("/s/a.*.exr", &paths).unwrap();
    assert_eq!(p.prefix, "/s/a.");
    assert_eq!(p.ext, "exr");
    assert_eq!((p.min_frame, p.max_frame, p.count), (1, 3, 3));
    assert_eq!(p.first_path, "/s/a.0003.exr");
}

#[test]
fn ties_go_to_the_first_group() {
    let paths = strings(&["/s/b.1.png", "/s/a.1.png", "/s/a.2.png", "/s/b.9.png"]);
    let p = pick_sequence("/s/*.png", &paths).unwrap();
    assert_eq!(p.prefix, "/s/b.");
    assert_eq!((p.min_frame, p.max_frame, p.count), (1, 9, 2));
}

#[test]
fn pick_errors() {
    match pick_sequence("/x/*.exr", &[]) {
        Err(FrameError::Image(m)) => assert_eq!(m, "No files matched pattern: /x/*.exr"),
        _ => panic!("expected no-match error"),
    }
    match pick_sequence("/x/*", &strings(&["/x/readme", "/x/plate.exr"])) {
        Err(FrameError::Image(m)) => assert_eq!(m, "No valid sequence files found"),
        _ => panic!("expected no-sequence error"),
    }
    match pick_sequence("/x/*", &strings(&["/x/a.1.exr", "/x/a.123456789012345678901234567890.exr"])) {
        Err(FrameError::Image(m)) => assert!(m.starts_with("Invalid frame number")),
        _ => panic!("expected overflow error"),
    }
}

#[test]
fn nodes_from_detection() {
    let paths = strings(&["/s/shot_v2.0010.exr", "/s/shot_v2.0012.exr"]);
    let p = pick_sequence("/s/shot_v2.*.exr", &paths).unwrap();
    let n = FileNode::from_sequence(&p, 1920, 1080, 4);
    assert_eq!(n.file_mask, "/s/shot_v2.*.exr");
    assert_eq!((n.file_start, n.file_end), (10, 12));
    assert_eq!(n.name, "shot_v2.0010");
    assert_eq!(n.dim(), (1920, 1080));
    assert_eq!(n.resolve_frame_path(11), Some("/s/shot_v2.0011.exr".to_string()));
    let s = FileNode::single_file("/stills/look.png", 640, 480);
    assert_eq!((s.name.as_str(), s.file_start, s.file_end), ("look", 0, 0));
    let v = FileNode::video("/m/clip.mov", 48, 1280, 720);
    assert_eq!((v.file_end, v.padding), (47, 0));
    assert_eq!(v.name, "clip");
    assert_eq!(FileNode::video("/m/empty.mov", 0, 1, 1).file_end, 0);
}

#[test]
fn dedup_keeps_first_per_mask() {
    let a = FileNode::new("a.*.exr".to_string(), 1, 2);
    let b = FileNode::new("b.*.exr".to_string(), 1, 2);
    let a2 = FileNode::new("a.*.exr".to_string(), 5, 6);
    let (ua, ub) = (a.uuid(), b.uuid());
    let out = dedup_by_mask(vec![a, b, a2]);
    let ids: Vec<u128> = out.iter().map(|n| n.uuid()).collect();
    assert_eq!(ids, vec![ua, ub]);
}

#[test]
fn sequence_pattern_is_mask() {
    assert_eq!(sequence_pattern("/shots/a/plate_", "exr"), "/shots/a/plate_*.exr");
    assert_eq!(sequence_pattern("", "png"), "*.png");
}
