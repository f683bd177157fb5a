use playa::compositor::{blend_mode_of, BlendMode};
use playa::effects::EffectType;
use playa::events::{CompEvent, HotkeyWindow};
use playa::frame::FrameError;
use playa::help::HelpEntry;
use playa::comp::Layer;
use playa::ids::contains_id;
use playa::seqpath::{
    classify_ext, file_stem, frame_path, gen_clip_uuid, is_video, is_video_extension, name_extension, name_stem,
    parse_video_path, path_ext, split_sequence_name, split_sequence_path, FileKind, Loader,
};

#[test]
fn effect_catalog() {
    assert_eq!(EffectType::all(), vec![EffectType::GaussianBlur, EffectType::BrightnessContrast, EffectType::AdjustHSV]);
    assert_eq!(EffectType::GaussianBlur.display_name(), "Gaussian Blur");
    assert_eq!(EffectType::BrightnessContrast.display_name(), "Brightness/Contrast");
    let s = EffectType::AdjustHSV.schema();
    assert_eq!(s.name, "FX_AdjustHSV");
    let names: Vec<&str> = s.params.iter().map(|p| p.name).collect();
    assert_eq!(names, vec!["hue_shift", "saturation", "value"]);
    assert_eq!(s.params[0].min, "-180");
    assert_eq!(EffectType::GaussianBlur.schema().params[0].step, "0.5");
}

#[test]
fn help_and_events() {
    let h = HelpEntry::new("F1", "Toggle context help");
    assert_eq!((h.key, h.desc), ("F1", "Toggle context help"));
    assert_ne!(HotkeyWindow::Global, HotkeyWindow::Timeline);
    let e = CompEvent::CurrentFrameChanged { comp_uuid: "c".to_string(), old_frame: 1, new_frame: 2 };
    assert!(matches!(e, CompEvent::CurrentFrameChanged { new_frame: 2, .. }));
}

#[test]
fn blend_names() {
    assert_eq!(blend_mode_of("difference"), BlendMode::Difference);
    assert_eq!(blend_mode_of("Add"), BlendMode::Normal);
}

#[test]
fn fresh_ids() {
    let a = Layer::new(1, "a", 0, 1, (1, 1)).uuid();
    let b = Layer::new(1, "b", 0, 1, (1, 1)).uuid();
    assert_ne!(a, 0);
    assert_ne!(a, b);
    assert!(contains_id(&[a, b], b));
    assert!(!contains_id(&[a], b));
}

#[test]
fn sequence_paths() {
    let r = split_sequence_path("/path/seq.0001.exr").unwrap().unwrap();
    assert_eq!(r, ("/path/seq.".to_string(), 1, "exr".to_string(), 4));
    assert_eq!(split_sequence_path("/path/plate.exr").unwrap(), None);
    assert_eq!(split_sequence_path("/path/noext").unwrap(), None);
    assert_eq!(split_sequence_path("frame12.png").unwrap().unwrap(), ("frame".to_string(), 12, "png".to_string(), 2));
    match split_sequence_path("/p/x.99999999999999999999999.exr") {
        Err(FrameError::Image(msg)) => assert!(msg.contains("Invalid frame number")),
        _ => panic!("expected an error"),
    }
}

#[test]
fn video_paths_and_kinds() {
    assert_eq!(parse_video_path("video.mp4@17"), ("video.mp4".to_string(), Some(17)));
    assert_eq!(parse_video_path("video.mp4"), ("video.mp4".to_string(), None));
    assert_eq!(path_ext("/a/B.EXR"), "exr");
    assert_eq!(path_ext("/a/noext"), "");
    assert!(is_video("/a/clip.MP4"));
    assert!(!is_video("/a/clip.exr"));
    assert_eq!(classify_ext("exr"), FileKind::Exr);
    assert_eq!(classify_ext("mov"), FileKind::Video);
    assert_eq!(classify_ext("png"), FileKind::Generic);
    assert_eq!(Loader::backend("/x/y.Exr"), FileKind::Exr);
    assert_eq!(Loader::backend("/x/y.mkv"), FileKind::Video);
}

#[test]
fn clip_ids_and_frame_paths() {
    assert_eq!(gen_clip_uuid("/s/a.*.exr", 1, 10), "clip:/s/a.*.exr:1:10");
    assert_eq!(frame_path("/s/a.*.exr", 4, 42), "/s/a.0042.exr");
    assert_eq!(frame_path("/s/a.*.exr", 2, 12345), "/s/a.12345.exr");
    assert_eq!(frame_path("/s/clip.mov", 4, 3), "/s/clip.mov@3");
    assert_eq!(frame_path("/s/still.png", 4, 3), "/s/still.png");
}

#[test]
fn split_sequence_name_in_directory() {
    assert_eq!(
        split_sequence_name(Some("/shots/a"), "plate_0042.dpx").unwrap().unwrap(),
        ("/shots/a/plate_".to_string(), 42, "dpx".to_string(), 4)
    );
    assert_eq!(split_sequence_name(Some(""), "f7.png").unwrap().unwrap(), ("f".to_string(), 7, "png".to_string(), 1));
    assert_eq!(split_sequence_name(None, "f7.png").unwrap().unwrap(), ("f".to_string(), 7, "png".to_string(), 1));
    assert_eq!(split_sequence_name(None, ".hidden7").unwrap(), None);
    assert_eq!(split_sequence_name(None, "plate.exr").unwrap(), None);
    match split_sequence_name(None, "x.99999999999999999999999.exr") {
        Err(FrameError::Image(m)) => {
            assert_eq!(m, "Invalid frame number '99999999999999999999999': number too large to fit in target type")
        },
        other => panic!("unexpected {:?}", other),
    }
}

#[test]
fn file_name_parts() {
    assert_eq!(name_extension("a.tar.gz"), Some("gz".to_string()));
    assert_eq!(name_extension(".bashrc"), None);
    assert_eq!(name_extension("noext"), None);
    assert_eq!(name_stem("a.tar.gz"), "a.tar");
    assert_eq!(name_stem(".bashrc"), ".bashrc");
    assert_eq!(file_stem("/x/y/shot.0001.exr"), Some("shot.0001".to_string()));
    assert!(is_video_extension("mov"));
    assert!(!is_video_extension("MOV"));
    assert!(!is_video_extension("exr"));
}
