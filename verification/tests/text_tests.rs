use playa::text::TextAlign;

#[test]
fn test_text_alignment() {
    assert_eq!(TextAlign::from_str("left"), TextAlign::Left);
    assert_eq!(TextAlign::from_str("center"), TextAlign::Center);
    assert_eq!(TextAlign::from_str("right"), TextAlign::Right);
    assert_eq!(TextAlign::from_str("CENTER"), TextAlign::Center);
}

#[test]
fn text_alignment_unknown_is_left() {
    assert_eq!(TextAlign::from_str("justify"), TextAlign::Left);
    assert_eq!(TextAlign::from_str(""), TextAlign::Left);
    assert_eq!(TextAlign::from_str("RiGhT"), TextAlign::Right);
}

#[test]
fn text_alignment_round_trip() {
    for a in [TextAlign::Left, TextAlign::Center, TextAlign::Right] {
        assert_eq!(TextAlign::from_str(a.as_str()), a);
    }
    assert_eq!(TextAlign::Center.as_str(), "center");
}

#[test]
fn lowercase_names_parse_without_case_mapping() {
    assert_eq!(TextAlign::from_str("right"), TextAlign::Right);
    assert_eq!(TextAlign::from_str("left"), TextAlign::Left);
}

#[test]
fn alignment_from_lowercase_name() {
    assert_eq!(TextAlign::from_lowercase("right"), TextAlign::Right);
    assert_eq!(TextAlign::from_lowercase("Right"), TextAlign::Left);
    assert_eq!(TextAlign::from_lowercase("justify"), TextAlign::Left);
}
