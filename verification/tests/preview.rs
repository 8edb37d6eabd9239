use image_dedup::allow::{AllowList, ResolvedPath};
use image_dedup::preview::{
    admit_preview, data_url, encode_preview, preview_failure, AdmittedImage, PreviewStep,
};

fn resolved(path: &str) -> ResolvedPath {
    ResolvedPath::new(path.as_bytes().to_vec(), path.to_string())
}

#[test]
fn data_urls_carry_the_media_type_and_the_content() {
    assert_eq!(
        data_url(Some("PNG"), &b"hello world~".to_vec()),
        Ok("data:image/png;base64,aGVsbG8gd29ybGR+".to_string())
    );
    assert_eq!(
        data_url(Some("jpg"), &vec![0xff]),
        Ok("data:image/jpeg;base64,/w==".to_string())
    );
    assert_eq!(
        data_url(Some("tif"), &vec![0xfb, 0xef]),
        Ok("data:image/tiff;base64,++8=".to_string())
    );
    assert_eq!(
        data_url(None, &vec![]),
        Ok("data:image/png;base64,".to_string())
    );
}

#[test]
fn other_extensions_have_no_data_url() {
    assert_eq!(
        data_url(Some("TXT"), &vec![1]),
        Err("unsupported extension: txt".to_string())
    );
}

/// Admits a file that was scanned.
fn admitted(path: &str) -> AdmittedImage {
    let mut list = AllowList::new();
    list.record_allowed(Some(&resolved(path)));
    match admit_preview(path, Some(resolved(path)), Some(&list)) {
        Ok(image) => image,
        Err(e) => panic!("{e}"),
    }
}

#[test]
fn the_extension_is_that_of_the_path() {
    let cat = admitted("/p/cat.GIF");
    assert_eq!(cat.extension(), "GIF");
    assert_eq!(cat.path().text(), "/p/cat.GIF");
    assert_eq!(
        encode_preview(&cat, &b"GIF89a".to_vec()),
        Ok("data:image/gif;base64,R0lGODlh".to_string())
    );
}

#[test]
fn a_path_of_another_platform_keeps_its_extension() {
    let cat = admitted("\\\\?\\C:\\p\\cat.png");
    assert_eq!(cat.extension(), "png");
    assert_eq!(encode_preview(&cat, &vec![0xff]), Ok("data:image/png;base64,/w==".to_string()));
}

#[test]
fn previews_are_for_scanned_images() {
    let mut list = AllowList::new();
    list.record_allowed(Some(&resolved("/p/cat.png")));
    list.record_allowed(Some(&resolved("/p/passwords.txt")));
    assert!(admit_preview("cat.png", Some(resolved("/p/cat.png")), Some(&list)).is_ok());
    match admit_preview("x", Some(resolved("/p/passwords.txt")), Some(&list)) {
        Err(e) => assert_eq!(e, "not an allowed image extension: x"),
        Ok(_) => panic!("a text file is no image"),
    }
    match admit_preview("dog.png", Some(resolved("/p/dog.png")), Some(&list)) {
        Err(e) => assert_eq!(e, "path not in scan allow-list: dog.png"),
        Ok(_) => panic!("the file was not scanned"),
    }
}

#[test]
fn failures_name_the_step() {
    assert_eq!(preview_failure(PreviewStep::Open, "a.png", "gone"), "cannot open a.png: gone");
    assert_eq!(
        preview_failure(PreviewStep::Sniff, "a.png", "gone"),
        "cannot sniff format a.png: gone"
    );
    assert_eq!(
        preview_failure(PreviewStep::Decode, "a.png", "bad"),
        "not a valid image a.png: bad"
    );
    assert_eq!(preview_failure(PreviewStep::Read, "a.png", "gone"), "Cannot read a.png: gone");
}

#[test]
fn an_admitted_image_has_a_data_url() {
    assert_eq!(
        encode_preview(&admitted("/p/cat.WebP"), &b"RIFF".to_vec()),
        Ok("data:image/webp;base64,UklGRg==".to_string())
    );
}

#[test]
fn different_contents_have_different_data_urls() {
    let contents: Vec<Vec<u8>> =
        vec![vec![], vec![0], vec![0, 0], vec![0, 0, 0], vec![0, 0, 1], vec![0, 0, 0, 0]];
    for (i, a) in contents.iter().enumerate() {
        for b in contents.iter().skip(i + 1) {
            assert_ne!(data_url(Some("png"), a), data_url(Some("png"), b));
        }
    }
}
