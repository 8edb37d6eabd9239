use image_dedup::binary64::Binary64;
use image_dedup::perceptual::{
    can_resize, compute_dhash, dhash_of_grid, phash_grid, phash_of_spectrum, pixel_sum, resize, ssim_grid,
    GrayImage,
};

fn gradient(width: u32, height: u32, falling: bool) -> GrayImage {
    let mut pixels: Vec<u8> = Vec::new();
    for _ in 0..height {
        for x in 0..width {
            let v = (x * 255 / width) as u8;
            pixels.push(if falling { 255 - v } else { v });
        }
    }
    GrayImage::from_raw(width, height, pixels).unwrap()
}

#[test]
fn the_pixels_must_fit_the_dimensions() {
    assert!(GrayImage::from_raw(2, 2, vec![0; 3]).is_none());
    assert!(GrayImage::from_raw(2, 2, vec![0; 5]).is_none());
    let image = GrayImage::from_raw(2, 2, vec![1, 2, 3, 250]).unwrap();
    assert_eq!((image.width(), image.height()), (2, 2));
    assert_eq!(image.as_raw(), &vec![1, 2, 3, 250]);
    assert_eq!(pixel_sum(&image), 256);
}

#[test]
fn resizing_gives_the_new_dimensions() {
    let small = resize(&gradient(100, 60, false), 9, 8);
    assert_eq!((small.width(), small.height()), (9, 8));
    assert_eq!(small.as_raw().len(), 72);
    let grid = phash_grid(&gradient(100, 60, false));
    assert_eq!((grid.width(), grid.height()), (32, 32));
    let square = ssim_grid(&gradient(10, 60, false), 256);
    assert_eq!((square.width(), square.height()), (256, 256));
    let nothing = ssim_grid(&gradient(10, 60, false), 0);
    assert_eq!((nothing.width(), nothing.height()), (0, 0));
    assert!(nothing.as_raw().is_empty());
    assert!(can_resize(&gradient(10, 60, false), 256, 256));
    assert!(!can_resize(&gradient(10, 60, false), u32::MAX, u32::MAX));
    assert!(!can_resize(&gradient(10, 60, false), 65536, 1));
    assert!(!can_resize(&gradient(10, 60, false), 1, 65536));
}

#[test]
fn the_largest_target_is_within_reach() {
    let dot = GrayImage::from_raw(1, 1, vec![200]).unwrap();
    assert!(can_resize(&dot, 65535, 1));
    assert_eq!(resize(&dot, 65535, 1).as_raw(), &vec![200; 65535]);
    assert_eq!(resize(&dot, 1, 65535).as_raw(), &vec![200; 65535]);
    let line = GrayImage::from_raw(65534, 1, vec![7; 65534]).unwrap();
    assert_eq!(resize(&line, 65535, 1).as_raw(), &vec![7; 65535]);
    let long = GrayImage::from_raw(1_000_000, 1, vec![9; 1_000_000]).unwrap();
    assert_eq!(resize(&long, 65535, 1).as_raw(), &vec![9; 65535]);
}

#[test]
fn an_image_of_the_right_size_is_not_resampled() {
    let mut pixels: Vec<u8> = (0..72).map(|i| (i * 37 % 251) as u8).collect();
    pixels[0] = 255;
    let image = GrayImage::from_raw(9, 8, pixels.clone()).unwrap();
    assert_eq!(resize(&image, 9, 8).as_raw(), &pixels);
    assert_eq!(compute_dhash(&image), dhash_of_grid(&pixels));
}

#[test]
fn an_image_without_pixels_becomes_black() {
    let image = GrayImage::from_raw(0, 7, vec![]).unwrap();
    assert_eq!(resize(&image, 9, 8).as_raw(), &vec![0; 72]);
    assert_eq!(compute_dhash(&image), 0);
}

#[test]
fn an_even_image_stays_even() {
    let image = GrayImage::from_raw(40, 30, vec![77; 1200]).unwrap();
    assert_eq!(resize(&image, 9, 8).as_raw(), &vec![77; 72]);
}

#[test]
fn dhash_marks_where_the_brightness_falls() {
    let mut grid = vec![0u8; 72];
    assert_eq!(dhash_of_grid(&grid), 0);
    // Falls from column 3 to column 4 of row 0.
    grid[3] = 9;
    assert_eq!(dhash_of_grid(&grid), 1 << 3);
    // Falls from column 7 to column 8 of row 7.
    grid[70] = 1;
    assert_eq!(dhash_of_grid(&grid), (1 << 3) | (1 << 63));
    // Column 8 is only ever on the right.
    grid[8] = 200;
    assert_eq!(dhash_of_grid(&grid), (1 << 3) | (1 << 63));
}

#[test]
fn dhash_of_gradients() {
    assert_eq!(compute_dhash(&gradient(90, 80, false)), 0);
    assert_eq!(compute_dhash(&gradient(90, 80, true)), u64::MAX);
}

fn spectrum(low: &[f64; 64], rest: f64) -> Vec<Binary64> {
    let mut dct = vec![Binary64::from_bits(rest.to_bits()); 1024];
    for (i, v) in low.iter().enumerate() {
        dct[(i / 8) * 32 + i % 8] = Binary64::from_bits(v.to_bits());
    }
    dct
}

#[test]
fn phash_marks_what_is_above_the_median() {
    // 0, -1, -2, ... : the median of the numbers behind the first is -32.
    let mut low = [0.0f64; 64];
    for (i, v) in low.iter_mut().enumerate() {
        *v = -(i as f64);
    }
    // Numbers 0 to 31 are above it: the upper half of the bits.
    assert_eq!(phash_of_spectrum(&spectrum(&low, 1.0e9)), 0xFFFF_FFFF_0000_0000);
}

#[test]
fn the_first_coefficient_is_left_out_of_the_median() {
    let mut low = [0.0f64; 64];
    for (i, v) in low.iter_mut().enumerate() {
        *v = i as f64;
    }
    // The median of 1 to 63 is 32, so 33 to 63 are above it.
    assert_eq!(phash_of_spectrum(&spectrum(&low, 0.0)), 0x0000_0000_7FFF_FFFF);
    low[0] = 1.0e6;
    assert_eq!(phash_of_spectrum(&spectrum(&low, 0.0)), 0x8000_0000_7FFF_FFFF);
}

#[test]
fn the_two_zeros_are_equal() {
    let mut low = [0.0f64; 64];
    for v in low.iter_mut().skip(20) {
        *v = -0.0;
    }
    assert_eq!(phash_of_spectrum(&spectrum(&low, 5.0)), 0);
    low[5] = f64::MIN_POSITIVE;
    assert_eq!(phash_of_spectrum(&spectrum(&low, 5.0)), 1 << 58);
}

#[test]
fn the_highest_bit_is_of_the_mean_brightness() {
    let mut low = [0.0f64; 64];
    assert_eq!(phash_of_spectrum(&spectrum(&low, 0.0)), 0);
    low[0] = 255.0;
    assert_eq!(phash_of_spectrum(&spectrum(&low, 0.0)), 1 << 63);
    low[0] = -1.0;
    assert_eq!(phash_of_spectrum(&spectrum(&low, 0.0)), 0);
}

#[test]
fn at_most_half_of_the_bits_are_set() {
    let mut low = [0.0f64; 64];
    for (i, v) in low.iter_mut().enumerate() {
        *v = ((i * 29 + 5) % 64) as f64;
    }
    low[0] = 1.0e6;
    assert_eq!(phash_of_spectrum(&spectrum(&low, 0.0)).count_ones(), 32);
}
