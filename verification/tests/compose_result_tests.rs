use playa::compose_result::{composite_status, enter_compose, is_cacheable, leave_compose, target_format};
use playa::frame::{FrameStatus, PixelFormat};

#[test]
fn target_format_is_highest_precision() {
    assert_eq!(target_format(&[]), PixelFormat::Rgba8);
    assert_eq!(target_format(&[PixelFormat::Rgba8, PixelFormat::Rgba8]), PixelFormat::Rgba8);
    assert_eq!(target_format(&[PixelFormat::Rgba8, PixelFormat::RgbaF16]), PixelFormat::RgbaF16);
    assert_eq!(
        target_format(&[PixelFormat::RgbaF32, PixelFormat::RgbaF16, PixelFormat::Rgba8]),
        PixelFormat::RgbaF32
    );
}

#[test]
fn incomplete_composite_is_loading_and_not_cached() {
    assert_eq!(composite_status(&[FrameStatus::Loaded, FrameStatus::Loaded]), FrameStatus::Loaded);
    assert_eq!(composite_status(&[]), FrameStatus::Loaded);
    let s = composite_status(&[FrameStatus::Loaded, FrameStatus::Header]);
    assert_eq!(s, FrameStatus::Loading);
    assert!(!is_cacheable(s));
    assert!(is_cacheable(FrameStatus::Loaded));
    assert!(!is_cacheable(FrameStatus::Placeholder));
}

#[test]
fn compose_stack_detects_cycles() {
    let mut stack = Vec::new();
    assert!(enter_compose(&mut stack, 7));
    assert!(enter_compose(&mut stack, 9));
    assert!(!enter_compose(&mut stack, 7));
    assert_eq!(stack, vec![7, 9]);
    leave_compose(&mut stack, 7);
    assert_eq!(stack, vec![9]);
    assert!(enter_compose(&mut stack, 7));
}
