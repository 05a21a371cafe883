use tzextract::offset::{corrected_daylight, offset_is_valid};
use tzextract::{normalize_offset, normalize_reverse_offset};

#[test]
fn normalize_plain_minus() {
    assert_eq!(normalize_offset("-5"), -5);
}

#[test]
fn normalize_drops_leading_plus() {
    assert_eq!(normalize_offset("+5"), 5);
}

#[test]
fn normalize_drops_leading_space() {
    assert_eq!(normalize_offset(" 5"), 5);
}

#[test]
fn normalize_en_dash_is_minus() {
    assert_eq!(normalize_offset("\u{2013}10"), -10);
}

#[test]
fn normalize_reverse_trailing_minus() {
    assert_eq!(normalize_reverse_offset("12-"), -12);
}

#[test]
fn normalize_reverse_trailing_plus() {
    assert_eq!(normalize_reverse_offset("5+"), 5);
}

#[test]
fn normalize_reverse_trailing_en_dash() {
    assert_eq!(normalize_reverse_offset("5\u{2013}"), -5);
}

#[test]
fn normalize_extremes_of_a_byte() {
    assert_eq!(normalize_offset("-128"), -128);
    assert_eq!(normalize_offset("+127"), 127);
    assert_eq!(normalize_offset("-0007"), -7);
}

#[test]
fn validity_of_offsets() {
    assert!(offset_is_valid("-5"));
    assert!(offset_is_valid("5"));
    assert!(!offset_is_valid("128"));
    assert!(!offset_is_valid("-129"));
    assert!(!offset_is_valid(""));
    assert!(!offset_is_valid("-"));
    assert!(!offset_is_valid("5-"));
    assert!(!offset_is_valid("x5"));
}

#[test]
fn correction_negates_daylight_for_western_zones() {
    assert_eq!(corrected_daylight(-7, 5), -5);
}

#[test]
fn correction_keeps_daylight_near_utc() {
    assert_eq!(corrected_daylight(-1, 5), 5);
}

#[test]
fn correction_keeps_small_daylight() {
    assert_eq!(corrected_daylight(-8, 2), 2);
    assert_eq!(corrected_daylight(-8, -7), -7);
}
