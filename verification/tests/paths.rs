use image_dedup::paths::{has_image_extension, is_image_extension, mime_type};

#[test]
fn extension_check_rejects_non_image() {
    let p = "/tmp/passwords.txt";
    assert!(!has_image_extension(p));
    let p2 = "/tmp/photo.JPG";
    assert!(has_image_extension(p2));
}

#[test]
fn every_listed_extension_is_an_image() {
    for ext in ["jpg", "jpeg", "png", "gif", "bmp", "tiff", "tif", "webp"] {
        assert!(is_image_extension(ext));
        assert!(is_image_extension(&ext.to_uppercase()));
        assert!(mime_type(ext).is_some());
    }
    assert!(!is_image_extension("svg"));
    assert!(!is_image_extension(""));
    assert!(!is_image_extension("jpgx"));
}

#[test]
fn the_last_component_decides() {
    assert!(!has_image_extension("/photos.png/notes"));
    assert!(has_image_extension("/photos/a.txt.webp"));
    assert!(!has_image_extension("/photos/.png"));
    assert!(has_image_extension("/photos/..png"));
    assert!(has_image_extension("/photos/a.png/"));
    assert!(has_image_extension("/photos/a.png/./"));
    assert!(!has_image_extension("/photos/a.png/.."));
    assert!(!has_image_extension("/photos/a.png."));
    assert!(!has_image_extension(""));
    assert!(has_image_extension("a.tif"));
}

#[test]
fn media_types_follow_the_format() {
    assert_eq!(mime_type("jpg"), Some("image/jpeg"));
    assert_eq!(mime_type("jpeg"), Some("image/jpeg"));
    assert_eq!(mime_type("png"), Some("image/png"));
    assert_eq!(mime_type("gif"), Some("image/gif"));
    assert_eq!(mime_type("bmp"), Some("image/bmp"));
    assert_eq!(mime_type("webp"), Some("image/webp"));
    assert_eq!(mime_type("tiff"), Some("image/tiff"));
    assert_eq!(mime_type("tif"), Some("image/tiff"));
    assert_eq!(mime_type("PNG"), None);
}

#[test]
fn a_colon_behind_a_separator_is_a_character_like_any_other() {
    assert!(has_image_extension("/p/12:30.png"));
    assert!(has_image_extension("p:q/a:b.jpg"));
    assert!(!has_image_extension("/p/a.png:b"));
}

#[test]
fn the_last_dot_decides_on_every_platform() {
    assert!(has_image_extension("C:\\p\\a.png"));
    assert!(!has_image_extension("C:\\p.png\\a.txt"));
    assert!(!has_image_extension("C:\\p\\a"));
}
