use playa::frame::{
    buffer_mem, crop_buffer, fill_pixels, min_status, placeholder_rgba8, rgba8_to_rgb24, rgba8_to_rgb48, CropAlign,
    FrameConversion, FrameStatus, PixelDepth, PixelFormat, Rgba8Image, StatusChange, TonemapMode,
};

#[test]
fn status_changes() {
    use_statuses();
}

fn use_statuses() {
    let (placeholder, header, loading, loaded, error) =
        (FrameStatus::Placeholder, FrameStatus::Header, FrameStatus::Loading, FrameStatus::Loaded, FrameStatus::Error);
    assert_eq!(loaded.change_to(loaded), StatusChange::Keep);
    assert_eq!(loaded.change_to(header), StatusChange::Unload);
    assert_eq!(error.change_to(header), StatusChange::Unload);
    assert_eq!(placeholder.change_to(header), StatusChange::LoadHeader);
    assert_eq!(header.change_to(loaded), StatusChange::Load);
    assert_eq!(error.change_to(loaded), StatusChange::Load);
    assert_eq!(loading.change_to(header), StatusChange::SetStatus(header));
    assert_eq!(header.change_to(error), StatusChange::SetStatus(error));
}

#[test]
fn claim_only_headers() {
    assert_eq!(FrameStatus::Header.claim_for_loading(), (true, FrameStatus::Loading));
    assert_eq!(FrameStatus::Loading.claim_for_loading(), (false, FrameStatus::Loading));
    assert_eq!(FrameStatus::Loaded.claim_for_loading(), (false, FrameStatus::Loaded));
}

#[test]
fn composition_status_is_worst() {
    let (placeholder, header, loading, loaded, error) =
        (FrameStatus::Placeholder, FrameStatus::Header, FrameStatus::Loading, FrameStatus::Loaded, FrameStatus::Error);
    assert_eq!(min_status(&[]), placeholder);
    assert_eq!(min_status(&[loaded, header, loading]), header);
    assert_eq!(min_status(&[loaded, error, placeholder]), error);
    assert_eq!(min_status(&[loaded, loaded]), loaded);
    assert_eq!(loaded.color_rgb(), (80, 200, 120));
    assert_eq!(error.rank(), 0);
}

#[test]
fn formats_and_defaults() {
    assert_eq!(PixelFormat::Rgba8.wider(PixelFormat::RgbaF16), PixelFormat::RgbaF16);
    assert_eq!(PixelFormat::RgbaF32.wider(PixelFormat::Rgba8), PixelFormat::RgbaF32);
    assert_eq!(PixelFormat::Rgba8.wider(PixelFormat::Rgba8), PixelFormat::Rgba8);
    assert_eq!(PixelDepth::F16.format(), PixelFormat::RgbaF16);
    assert_eq!(buffer_mem(PixelFormat::RgbaF32, 16), 64);
    assert_eq!(buffer_mem(PixelFormat::RgbaF16, 16), 32);
    assert_eq!(TonemapMode::default(), TonemapMode::ACES);
}

#[test]
fn placeholder_is_dark_green() {
    let b = placeholder_rgba8(2, 1);
    assert_eq!(b, vec![0, 100, 0, 255, 0, 100, 0, 255]);
    assert_eq!(fill_pixels(1, &[1u16, 2, 3, 4]), vec![1, 2, 3, 4]);
}

#[test]
fn crop_pads_and_centers() {
    // 2x1 image: red, blue
    let old = vec![255u8, 0, 0, 255, 0, 0, 255, 255];
    let fill = [0u8, 100, 0, 255];
    let grown = crop_buffer(&old, 2, 1, 3, 2, CropAlign::LeftTop, &fill);
    assert_eq!(&grown[0..8], &old[..]);
    assert_eq!(&grown[8..12], &fill);
    assert_eq!(&grown[12..16], &fill);
    let shrunk = crop_buffer(&old, 2, 1, 1, 1, CropAlign::LeftTop, &fill);
    assert_eq!(shrunk, vec![255, 0, 0, 255]);
    // 3x1 centred into 1x1 keeps the middle pixel
    let three = vec![1u8, 1, 1, 1, 2, 2, 2, 2, 3, 3, 3, 3];
    assert_eq!(crop_buffer(&three, 3, 1, 1, 1, CropAlign::Center, &fill), vec![2, 2, 2, 2]);
    // 1x1 centred into 3x1 lands in the middle
    let one = vec![9u8, 9, 9, 9];
    let wide = crop_buffer(&one, 1, 1, 3, 1, CropAlign::Center, &fill);
    assert_eq!(&wide[4..8], &[9, 9, 9, 9]);
    assert_eq!(&wide[0..4], &fill);
    let same = crop_buffer(&three, 3, 1, 3, 1, CropAlign::Center, &fill);
    assert_eq!(same, three);
}

#[test]
fn rgb_conversions() {
    let px = vec![1u8, 2, 3, 4, 255, 0, 128, 9, 7];
    assert_eq!(rgba8_to_rgb24(&px), vec![1, 2, 3, 255, 0, 128]);
    assert_eq!(rgba8_to_rgb48(&px), vec![257, 514, 771, 65535, 0, 32896]);
    let img = Rgba8Image { width: 2, height: 1, pixels: px[..8].to_vec() };
    assert_eq!(img.to_rgb24().unwrap().len(), 6);
    assert_eq!(img.to_rgb48().unwrap()[3], 65535);
}

#[test]
fn crop_to_own_size_is_identity() {
    let img: Vec<u8> = (0..24).collect();
    let fill = [7u8, 7, 7, 7];
    for align in [CropAlign::Center, CropAlign::LeftTop] {
        assert_eq!(crop_buffer(&img, 3, 2, 3, 2, align, &fill), img);
    }
}
