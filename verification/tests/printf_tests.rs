use playa::printf::{padding_from_digits, printf_pattern};

#[test]
fn printf_field_gives_padding_and_glob() {
    assert_eq!(printf_pattern("frame.%04d.exr"), (4, "frame.*.exr".to_string()));
    assert_eq!(printf_pattern("/s/shot_%08d_v%02d.dpx"), (8, "/s/shot_*_v*.dpx".to_string()));
    assert_eq!(printf_pattern("f.%00d.png"), (0, "f.*.png".to_string()));
    assert_eq!(printf_pattern("%%012dd"), (12, "%*d".to_string()));
}

#[test]
fn printf_without_field_keeps_pattern() {
    assert_eq!(printf_pattern("plain.exr"), (4, "plain.exr".to_string()));
    assert_eq!(printf_pattern("x.%0d.png"), (4, "x.%0d.png".to_string()));
    assert_eq!(printf_pattern("x.%4d.png"), (4, "x.%4d.png".to_string()));
    assert_eq!(printf_pattern(""), (4, String::new()));
}

#[test]
fn printf_padding_too_large_falls_back() {
    assert_eq!(printf_pattern("x.%099999999999999999999999d.png"), (4, "x.*.png".to_string()));
}

#[test]
fn padding_from_captured_digits() {
    assert_eq!(padding_from_digits(Some("12")), 12);
    assert_eq!(padding_from_digits(Some("007")), 7);
    assert_eq!(padding_from_digits(Some("1a")), 4);
    assert_eq!(padding_from_digits(Some("")), 4);
    assert_eq!(padding_from_digits(None), 4);
}
