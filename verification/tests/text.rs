use image_dedup::text::{text_eq, to_decimal};

#[test]
fn numbers_are_written_without_leading_zeros() {
    assert_eq!(to_decimal(0), "0");
    assert_eq!(to_decimal(7), "7");
    assert_eq!(to_decimal(10), "10");
    assert_eq!(to_decimal(900_100), "900100");
    assert_eq!(to_decimal(u64::MAX), "18446744073709551615");
}

#[test]
fn texts_are_compared_by_character() {
    assert!(text_eq("", ""));
    assert!(text_eq("bild-ä", "bild-ä"));
    assert!(!text_eq("a", "A"));
    assert!(!text_eq("ab", "a"));
}
