use image_dedup::binary64::Binary64;
use image_dedup::dedup::find_duplicates;
use image_dedup::groups::group_duplicates;
use image_dedup::info::{default_confidence, DuplicateGroup, ImageInfo};
use image_dedup::pairs::{
    candidate_pairs, candidates_of, judge_pair, needs_ssim, verify_pairs, VerifiedPair,
    DHASH_AGREE_DISTANCE,
};

fn num(x: f64) -> Binary64 {
    Binary64::from_bits(x.to_bits())
}

fn image(path: &str, width: u32, height: u32, file_size: u64) -> ImageInfo {
    ImageInfo {
        path: path.to_string(),
        width,
        height,
        file_size,
        phash: 0,
        dhash: 0,
        md5: String::new(),
    }
}

fn pair(a: usize, b: usize, score: f64, high: bool) -> VerifiedPair {
    VerifiedPair { a, b, score: num(score), high }
}

fn paths(group: &DuplicateGroup) -> Vec<&str> {
    let mut all = vec![group.keeper.path.as_str()];
    all.extend(group.duplicates.iter().map(|d| d.path.as_str()));
    all
}

#[test]
fn candidates_have_close_hashes_or_equal_digests() {
    let mut images = vec![
        image("a", 1, 1, 1),
        image("b", 1, 1, 1),
        image("c", 1, 1, 1),
        image("d", 1, 1, 1),
    ];
    images[1].phash = 0b111;
    images[2].phash = u64::MAX;
    images[2].md5 = "x".to_string();
    images[3].phash = 0b1111_0000;
    images[3].md5 = "x".to_string();
    assert_eq!(candidate_pairs(&images, 3), vec![(0, 1), (2, 3)]);
    assert_eq!(candidate_pairs(&images, 4), vec![(0, 1), (0, 3), (2, 3)]);
    assert_eq!(
        candidate_pairs(&images, 64),
        vec![(0, 1), (0, 2), (0, 3), (1, 2), (1, 3), (2, 3)]
    );
    assert_eq!(candidate_pairs(&vec![], 64), vec![]);
    assert_eq!(candidates_of(&images, 4, 0), vec![(0, 1), (0, 3)]);
    assert_eq!(candidates_of(&images, 64, 3), vec![]);
}

#[test]
fn missing_digests_are_not_equal() {
    let a = image("a", 1, 1, 1);
    let b = image("b", 1, 1, 1);
    assert!(needs_ssim(&a, &b));
    assert_eq!(judge_pair(&a, &b, None, num(0.9)), None);
}

#[test]
fn equal_files_need_no_comparison() {
    let mut a = image("a", 1, 1, 1);
    let mut b = image("b", 1, 1, 1);
    a.md5 = "x".to_string();
    b.md5 = "x".to_string();
    b.dhash = u64::MAX;
    assert!(!needs_ssim(&a, &b));
    assert_eq!(judge_pair(&a, &b, None, num(0.9)), Some((num(1.0), true)));
    assert_eq!(judge_pair(&a, &b, Some(num(0.1)), num(0.9)), Some((num(1.0), true)));
}

#[test]
fn the_thresholds_are_inclusive() {
    let a = image("a", 1, 1, 1);
    let mut b = image("b", 1, 1, 1);
    // Eleven bits apart: the difference hashes do not agree.
    b.dhash = 0x7FF;
    assert_eq!(DHASH_AGREE_DISTANCE, 10);
    assert_eq!(judge_pair(&a, &b, Some(num(0.8999)), num(0.9)), None);
    assert_eq!(judge_pair(&a, &b, Some(num(0.9)), num(0.9)), Some((num(0.9), false)));
    assert_eq!(judge_pair(&a, &b, Some(num(0.9799)), num(0.9)), Some((num(0.9799), false)));
    assert_eq!(judge_pair(&a, &b, Some(num(0.98)), num(0.9)), Some((num(0.98), true)));
    b.dhash = 0x3FF;
    assert_eq!(judge_pair(&a, &b, Some(num(0.9)), num(0.9)), Some((num(0.9), true)));
    // Nothing is below a threshold that is no number.
    assert_eq!(judge_pair(&a, &b, Some(num(-1.0)), num(f64::NAN)), Some((num(-1.0), true)));
}

#[test]
fn verified_pairs_keep_their_order() {
    let images = vec![image("a", 1, 1, 1), image("b", 1, 1, 1), image("c", 1, 1, 1)];
    let pairs = vec![(0, 1), (0, 2), (1, 2)];
    let ssim = vec![Some(num(0.95)), None, Some(num(0.99))];
    assert_eq!(
        verify_pairs(&images, &pairs, &ssim, num(0.9)),
        vec![pair(0, 1, 0.95, true), pair(1, 2, 0.99, true)]
    );
}

#[test]
fn the_keeper_has_the_highest_resolution_then_the_largest_file() {
    let images = vec![
        image("small", 100, 100, 900),
        image("wide", 200, 50, 950),
        image("large", 200, 200, 10),
        image("large2", 400, 100, 20),
        image("large3", 100, 400, 20),
    ];
    let pairs = vec![
        pair(0, 1, 0.91, true),
        pair(1, 2, 0.92, true),
        pair(2, 3, 0.93, true),
        pair(3, 4, 0.94, true),
    ];
    let groups = group_duplicates(&images, &pairs);
    assert_eq!(groups.len(), 1);
    assert_eq!(paths(&groups[0]), vec!["large2", "large3", "large", "wide", "small"]);
    let scores: Vec<(&str, f64)> = groups[0]
        .scores
        .iter()
        .map(|(p, s)| (p.as_str(), f64::from_bits(s.to_bits())))
        .collect();
    assert_eq!(
        scores,
        vec![("large3", 0.94), ("large", 0.93), ("wide", 0.0), ("small", 0.0)]
    );
    assert_eq!(groups[0].confidence, "high");
}

#[test]
fn groups_are_sorted_by_the_space_that_they_recover() {
    let images = vec![
        image("a1", 10, 10, 5),
        image("a2", 9, 9, 100),
        image("b1", 10, 10, 5),
        image("b2", 9, 9, 300),
        image("c1", 10, 10, 5),
        image("c2", 9, 9, 100),
        image("alone", 10, 10, 9999),
    ];
    let pairs = vec![
        pair(4, 5, 0.99, true),
        pair(2, 3, 0.99, true),
        pair(0, 1, 0.99, true),
    ];
    let groups = group_duplicates(&images, &pairs);
    let found: Vec<Vec<&str>> = groups.iter().map(paths).collect();
    assert_eq!(found, vec![vec!["b1", "b2"], vec!["a1", "a2"], vec!["c1", "c2"]]);
}

#[test]
fn one_doubtful_pair_marks_its_group_only() {
    let images = vec![
        image("a", 3, 3, 1),
        image("b", 2, 2, 1),
        image("c", 1, 1, 1),
        image("d", 2, 2, 1),
        image("e", 1, 1, 1),
    ];
    let pairs = vec![
        pair(0, 1, 0.99, true),
        pair(1, 2, 0.95, false),
        pair(3, 4, 0.99, true),
    ];
    let groups = group_duplicates(&images, &pairs);
    assert_eq!(groups.len(), 2);
    assert_eq!(paths(&groups[0]), vec!["a", "b", "c"]);
    assert_eq!(groups[0].confidence, "low");
    assert_eq!(groups[1].confidence, "high");
    assert_eq!(default_confidence(), "high");
}

#[test]
fn many_unions_end_in_one_group() {
    let mut images: Vec<ImageInfo> = Vec::new();
    for i in 0..40u32 {
        images.push(image(&i.to_string(), 100 - i, 1, i as u64));
    }
    let mut pairs: Vec<VerifiedPair> = Vec::new();
    for i in 0..20 {
        pairs.push(pair(2 * i, 2 * i + 1, 0.99, true));
    }
    for i in 0..39 {
        pairs.push(pair(39 - i, 38 - i, 0.97, true));
    }
    let groups = group_duplicates(&images, &pairs);
    assert_eq!(groups.len(), 1);
    assert_eq!(groups[0].keeper.path, "0");
    assert_eq!(groups[0].duplicates.len(), 39);
    assert_eq!(groups[0].duplicates[38].path, "39");
}

#[test]
fn file_sizes_may_add_up_to_more_than_64_bits() {
    let images = vec![
        image("a", 3, 3, u64::MAX),
        image("b", 2, 2, u64::MAX),
        image("c", 1, 1, u64::MAX),
        image("d", 2, 2, 1),
        image("e", 1, 1, u64::MAX),
    ];
    let pairs = vec![
        pair(3, 4, 0.99, true),
        pair(0, 1, 0.99, true),
        pair(0, 2, 0.99, true),
    ];
    let groups = group_duplicates(&images, &pairs);
    assert_eq!(paths(&groups[0]), vec!["a", "b", "c"]);
}

#[test]
fn the_whole_search() {
    let mut images = vec![
        image("a", 10, 10, 1),
        image("b", 20, 20, 2),
        image("c", 30, 30, 3),
        image("d", 10, 10, 4),
        image("e", 20, 20, 5),
    ];
    images[0].md5 = "x".to_string();
    images[1].md5 = "x".to_string();
    images[0].phash = u64::MAX;
    images[2].phash = 0xFFFF_0000_0000_0000;
    images[3].dhash = u64::MAX;
    // 0 and 1 are equal files; 1, 3 and 4 have the same perceptual hash.
    let pairs = candidate_pairs(&images, 10);
    assert_eq!(pairs, vec![(0, 1), (1, 3), (1, 4), (3, 4)]);
    let ssim = vec![None, Some(num(0.5)), None, Some(num(0.95))];
    let groups = find_duplicates(&images, &pairs, &ssim, num(0.9));
    assert_eq!(groups.len(), 2);
    assert_eq!(paths(&groups[0]), vec!["e", "d"]);
    assert_eq!(groups[0].confidence, "low");
    assert_eq!(f64::from_bits(groups[0].scores[0].1.to_bits()), 0.95);
    assert_eq!(paths(&groups[1]), vec!["b", "a"]);
    assert_eq!(groups[1].confidence, "high");
    assert_eq!(f64::from_bits(groups[1].scores[0].1.to_bits()), 1.0);
}

#[test]
fn one_image_has_no_duplicates() {
    assert!(find_duplicates(&vec![], &vec![], &vec![], num(0.9)).is_empty());
    assert!(find_duplicates(&vec![image("a", 1, 1, 1)], &vec![], &vec![], num(0.9)).is_empty());
}

#[test]
fn every_duplicate_has_a_score() {
    let images = vec![image("a", 2, 2, 5), image("b", 1, 1, 5), image("c", 1, 1, 9)];
    let groups = group_duplicates(&images, &vec![pair(0, 1, 0.95, true), pair(1, 2, 0.99, true)]);
    assert_eq!(groups.len(), 1);
    assert_eq!(paths(&groups[0]), vec!["a", "c", "b"]);
    // "c" was found through "b": no pair ties it to the keeper.
    assert_eq!(
        groups[0].scores,
        vec![("c".to_string(), num(0.0)), ("b".to_string(), num(0.95))]
    );
    assert_eq!(groups[0].confidence, "high");
}

#[test]
fn equal_files_are_grouped_without_a_similarity() {
    let mut images = vec![image("a", 2, 2, 5), image("b", 9, 9, 5), image("c", 1, 1, 9)];
    images[0].md5 = "x".to_string();
    images[2].md5 = "x".to_string();
    images[0].phash = 0;
    images[1].phash = 0xFFFF_FFFF;
    images[2].phash = u64::MAX;
    let pairs = candidate_pairs(&images, 10);
    assert_eq!(pairs, vec![(0, 2)]);
    let groups = find_duplicates(&images, &pairs, &vec![None], num(2.0));
    assert_eq!(groups.len(), 1);
    assert_eq!(paths(&groups[0]), vec!["a", "c"]);
    assert_eq!(groups[0].scores, vec![("c".to_string(), num(1.0))]);
}

#[test]
fn the_order_of_the_images_does_not_matter() {
    let sets = |images: &Vec<ImageInfo>| {
        let pairs = candidate_pairs(images, 64);
        let similar = |a: &str, b: &str| match (a.min(b), a.max(b)) {
            ("a", "b") => 0.99,
            ("b", "c") => 0.92,
            ("d", "e") => 0.98,
            _ => 0.1,
        };
        let ssim = pairs
            .iter()
            .map(|&(i, j)| Some(num(similar(&images[i].path, &images[j].path))))
            .collect();
        let mut sets: Vec<(Vec<String>, String)> = find_duplicates(images, &pairs, &ssim, num(0.9))
            .iter()
            .map(|g| {
                let mut members: Vec<String> = paths(g).iter().map(|p| p.to_string()).collect();
                members.sort();
                (members, g.confidence.clone())
            })
            .collect();
        sets.sort();
        sets
    };
    let mut images = vec![
        image("a", 1, 1, 1),
        image("b", 2, 1, 1),
        image("c", 1, 1, 5),
        image("d", 3, 1, 1),
        image("e", 1, 1, 1),
        image("f", 1, 1, 1),
    ];
    images[2].dhash = u64::MAX;
    let expected = sets(&images);
    let text = |s: &[&str]| s.iter().map(|p| p.to_string()).collect::<Vec<String>>();
    assert_eq!(
        expected,
        vec![
            (text(&["a", "b", "c"]), "low".to_string()),
            (text(&["d", "e"]), "high".to_string()),
        ]
    );
    images.reverse();
    assert_eq!(sets(&images), expected);
    images.swap(0, 3);
    images.swap(1, 4);
    assert_eq!(sets(&images), expected);
}
