use image_dedup::binary64::{Binary64, ONE_BITS, ZERO_BITS};
use image_dedup::pairs::STRICT_SSIM_BITS;

#[test]
fn comparisons_are_those_of_f64() {
    let numbers = [
        0.0,
        -0.0,
        1.0,
        -1.0,
        0.98,
        0.9799999,
        f64::MIN_POSITIVE,
        -f64::MIN_POSITIVE,
        f64::MAX,
        f64::MIN,
        f64::INFINITY,
        f64::NEG_INFINITY,
        f64::NAN,
        -f64::NAN,
    ];
    for a in numbers {
        for b in numbers {
            let x = Binary64::from_bits(a.to_bits());
            let y = Binary64::from_bits(b.to_bits());
            assert_eq!(x.less_than(y), a < b);
            assert_eq!(x.at_least(y), a >= b);
            assert_eq!(x.is_nan(), a.is_nan());
            assert_eq!(x.to_bits(), a.to_bits());
        }
    }
}

#[test]
fn constants() {
    assert_eq!(f64::from_bits(ZERO_BITS), 0.0);
    assert_eq!(f64::from_bits(ONE_BITS), 1.0);
    assert_eq!(f64::from_bits(STRICT_SSIM_BITS), 0.98);
}
