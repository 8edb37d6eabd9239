use image_dedup::allow::{check_allowed, AllowList, ResolvedPath};
use image_dedup::info::ImageInfo;
use image_dedup::progress::{
    comparison_started, scan_advanced, scan_started, verification_advanced, verification_started,
};
use image_dedup::scan::{
    after_decode, after_hash, after_peek, collect_kept, conclude, is_scan_candidate,
    not_a_directory, AfterDecode, AfterPeek, Conclusion, Tally, Visit, MAX_DECODE_PIXELS,
};

fn info(path: &str) -> ImageInfo {
    after_hash(path.to_string(), 640, 480, 1, 2, Some(("d".to_string(), 3))).unwrap()
}

#[test]
fn decompression_bomb_rejected_by_dimension_check() {
    // A tiny PNG that declares 65535 x 65535 pixels and holds none of them.
    let mut f: Vec<u8> = Vec::new();
    let sig = [137u8, 80, 78, 71, 13, 10, 26, 10];
    f.extend_from_slice(&sig);
    f.extend_from_slice(&[0, 0, 0, 13]);
    f.extend_from_slice(b"IHDR");
    f.extend_from_slice(&[0, 0, 255, 255, 0, 0, 255, 255, 8, 2, 0, 0, 0]);
    f.extend_from_slice(&[0u8, 0, 0, 0]);

    let dims = image::ImageReader::new(std::io::Cursor::new(f))
        .with_guessed_format()
        .ok()
        .and_then(|r| r.into_dimensions().ok());
    assert_eq!(MAX_DECODE_PIXELS, 50_000_000);
    assert!(
        after_peek(dims) != AfterPeek::Decode,
        "65535x65535 image must be flagged as a bomb"
    );
    assert_eq!(after_peek(Some((65535, 65535))), AfterPeek::SkipTooLarge);
}

#[test]
fn the_pixel_budget_is_inclusive() {
    assert_eq!(after_peek(Some((10_000, 5_000))), AfterPeek::Decode);
    assert_eq!(after_peek(Some((10_000, 5_001))), AfterPeek::SkipTooLarge);
    assert_eq!(after_peek(Some((u32::MAX, u32::MAX))), AfterPeek::SkipTooLarge);
    assert_eq!(after_peek(Some((0, u32::MAX))), AfterPeek::Decode);
    assert_eq!(after_peek(None), AfterPeek::Abandon);
}

#[test]
fn both_dimensions_must_reach_the_minimum() {
    assert_eq!(after_decode(Some((50, 50)), 50, 50), AfterDecode::Hash);
    assert_eq!(after_decode(Some((49, 50)), 50, 50), AfterDecode::SkipTooSmall);
    assert_eq!(after_decode(Some((50, 49)), 50, 50), AfterDecode::SkipTooSmall);
    assert_eq!(after_decode(None, 50, 50), AfterDecode::Abandon);
}

#[test]
fn only_files_that_were_read_are_kept() {
    assert!(after_hash("a".to_string(), 1, 1, 0, 0, None).is_none());
    let a = info("a");
    assert_eq!(a.path, "a");
    assert_eq!((a.width, a.height), (640, 480));
    assert_eq!((a.phash, a.dhash), (1, 2));
    assert_eq!((a.md5.as_str(), a.file_size), ("d", 3));
    assert_eq!(a.pixel_count(), 307_200);
    assert_eq!(a.resolution_label(), "640x480");
    let kept = collect_kept(vec![None, Some(info("a")), None, Some(info("b"))]);
    let paths: Vec<String> = kept.into_iter().map(|i| i.path).collect();
    assert_eq!(paths, vec!["a".to_string(), "b".to_string()]);
}

#[test]
fn the_largest_image_has_a_pixel_count() {
    let mut a = info("a");
    a.width = u32::MAX;
    a.height = u32::MAX;
    assert_eq!(a.pixel_count(), 18_446_744_065_119_617_025);
}

#[test]
fn candidates_are_image_files() {
    assert!(is_scan_candidate(true, "/p/a.png"));
    assert!(!is_scan_candidate(false, "/p/a.png"));
    assert!(!is_scan_candidate(true, "/p/a.txt"));
}

#[test]
fn reports_come_every_five_steps_and_at_the_end() {
    for done in [5, 10, 12] {
        let p = scan_advanced(done, 12, "a.png", false).unwrap();
        assert_eq!((p.scanned, p.total, p.current_file.as_str()), (done, 12, "a.png"));
    }
    assert!(scan_advanced(11, 12, "a.png", false).is_none());
    let skipped = scan_advanced(5, 12, "bomb.png", true).unwrap();
    assert_eq!(skipped.current_file, "skipped (too large): bomb.png");
    assert!(verification_advanced(6, 7).is_none());
    let p = verification_advanced(7, 7).unwrap();
    assert_eq!((p.phase.as_str(), p.done, p.total), ("ssim", 7, 7));
    assert_eq!(p.message, "SSIM verification: 7/7 pairs...");
}

#[test]
fn reports_at_the_start() {
    let s = scan_started(1203);
    assert_eq!((s.scanned, s.total), (0, 1203));
    assert_eq!(s.current_file, "Found 1203 images...");
    let c = comparison_started(9);
    assert_eq!((c.phase.as_str(), c.done, c.total), ("phash", 0, 9));
    assert_eq!(c.message, "Comparing pHash values...");
    let v = verification_started(10);
    assert_eq!((v.phase.as_str(), v.done, v.total), ("ssim", 0, 10));
    assert_eq!(v.message, "Verifying 10 candidate pairs with SSIM...");
}

#[test]
fn a_folder_that_is_none_is_named() {
    assert_eq!(not_a_directory("/nope"), "Not a valid directory: /nope");
}

fn end_of(
    peek: Option<(u32, u32)>,
    decoded: Option<(u32, u32)>,
    digest: Option<(&str, u64)>,
) -> Conclusion {
    let visit = Visit {
        path: "a.png".to_string(),
        canon: Some(ResolvedPath::new(b"/p/a.png".to_vec(), "/p/a.png".to_string())),
        peek,
        decoded,
        phash: 1,
        dhash: 2,
        digest: digest.map(|(md5, size)| (md5.to_string(), size)),
    };
    conclude(visit, 50, 50)
}

#[test]
fn an_image_is_kept_when_every_step_passed() {
    let whole = end_of(Some((60, 70)), Some((60, 70)), Some(("d", 3)));
    assert_eq!(whole.tally, Tally::Counted);
    let image = whole.kept.unwrap();
    assert_eq!((image.path.as_str(), image.width, image.height), ("a.png", 60, 70));
    assert_eq!((image.phash, image.dhash, image.file_size), (1, 2, 3));
    assert_eq!(image.md5, "d");

    let headless = end_of(None, Some((60, 70)), Some(("d", 3)));
    assert!(headless.kept.is_none());
    assert_eq!(headless.tally, Tally::Uncounted);
    let huge = end_of(Some((65535, 65535)), Some((60, 70)), Some(("d", 3)));
    assert!(huge.kept.is_none());
    assert_eq!(huge.tally, Tally::CountedTooLarge);
    let broken = end_of(Some((60, 70)), None, None);
    assert!(broken.kept.is_none());
    assert_eq!(broken.tally, Tally::Uncounted);
    let small = end_of(Some((60, 49)), Some((60, 49)), Some(("d", 3)));
    assert!(small.kept.is_none());
    assert_eq!(small.tally, Tally::Counted);
    let unread = end_of(Some((60, 70)), Some((60, 70)), None);
    assert!(unread.kept.is_none());
    assert_eq!(unread.tally, Tally::Uncounted);
}

#[test]
fn every_visited_file_is_recorded() {
    for end in [
        end_of(Some((60, 70)), Some((60, 70)), Some(("d", 3))),
        end_of(None, None, None),
        end_of(Some((65535, 65535)), None, None),
        end_of(Some((1, 1)), Some((1, 1)), None),
    ] {
        let mut list = AllowList::new();
        list.record_allowed(end.recorded.as_ref());
        let path = ResolvedPath::new(b"/p/a.png".to_vec(), "/p/a.png".to_string());
        assert!(check_allowed("a.png", Some(path), Some(&list)).is_ok());
    }
}

#[test]
fn two_scans_of_the_same_files_agree() {
    let scan = || {
        collect_kept(vec![
            end_of(Some((60, 70)), Some((60, 70)), Some(("d", 3))).kept,
            end_of(None, None, None).kept,
            end_of(Some((80, 90)), Some((80, 90)), Some(("e", 4))).kept,
        ])
    };
    let values = |images: Vec<ImageInfo>| {
        images
            .into_iter()
            .map(|i| (i.path, i.width, i.height, i.file_size, i.phash, i.dhash, i.md5))
            .collect::<Vec<_>>()
    };
    assert_eq!(values(scan()), values(scan()));
    assert_eq!(scan().len(), 2);
}
