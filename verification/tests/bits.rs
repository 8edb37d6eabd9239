use image_dedup::bits::{hamming_distance, phash_distance};

#[test]
fn hamming_counts_differing_bits() {
    assert_eq!(hamming_distance(0, 0), 0);
    assert_eq!(hamming_distance(0b1011, 0b0110), 3);
    assert_eq!(hamming_distance(0, u64::MAX), 64);
}

#[test]
fn phash_distance_is_the_hamming_distance() {
    for (a, b) in [(0u64, 1u64), (u64::MAX, 1 << 63), (0xF0F0, 0x0F0F)] {
        assert_eq!(phash_distance(a, b), hamming_distance(b, a));
        assert!(phash_distance(a, 7) <= phash_distance(a, b) + phash_distance(b, 7));
    }
}

#[test]
fn a_detour_is_never_shorter() {
    let (a, b, c) = (0b1010, 0b0110, u64::MAX);
    assert_eq!(hamming_distance(a, a), 0);
    assert_eq!(hamming_distance(a, b), hamming_distance(b, a));
    assert_eq!(hamming_distance(0, c), 64);
    assert_eq!(hamming_distance(a ^ 0xF0F0, b ^ 0xF0F0), hamming_distance(a, b));
    assert_eq!(hamming_distance(a, !a), 64);
    assert!(hamming_distance(a, c) <= hamming_distance(a, b) + hamming_distance(b, c));
}
