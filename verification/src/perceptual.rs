//! Perceptual hashes of grayscale images.
use vstd::prelude::*;
use vstd::relations::sorted_by;
use vstd::seq_lib::*;

use crate::binary64::Binary64;
use crate::bits::{bit, bits_determine_the_hash, ones_below};

verus! {

/// A grayscale image, its rows one after the other from the top.
pub struct GrayImage {
    width: u32,
    height: u32,
    pixels: Vec<u8>,
}

/// The value of a [`GrayImage`].
#[verifier::ext_equal]
pub struct GrayModel {
    pub width: u32,
    pub height: u32,
    pub pixels: Seq<u8>,
}

impl View for GrayImage {
    type V = GrayModel;

    closed spec fn view(&self) -> GrayModel {
        GrayModel { width: self.width, height: self.height, pixels: self.pixels@ }
    }
}

impl GrayImage {
    #[verifier::type_invariant]
    spec fn full(self) -> bool {
        self.pixels@.len() == self.width * self.height
    }

    /// The image with the given pixels, if they are as many as the dimensions ask for.
    pub fn from_raw(width: u32, height: u32, pixels: Vec<u8>) -> (r: Option<GrayImage>)
        ensures
            r is Some <==> pixels@.len() == width * height,
            r matches Some(image) ==> image@ == (GrayModel { width, height, pixels: pixels@ }),
    {
        assert(width * height <= 0xFFFF_FFFF * 0xFFFF_FFFF) by (nonlinear_arith)
            requires
                width <= 0xFFFF_FFFF,
                height <= 0xFFFF_FFFF,
        ;
        if pixels.len() as u64 == width as u64 * height as u64 {
            Some(GrayImage { width, height, pixels })
        } else {
            None
        }
    }

    /// The width in pixels.
    pub fn width(&self) -> (r: u32)
        ensures
            r == self@.width,
    {
        self.width
    }

    /// The height in pixels.
    pub fn height(&self) -> (r: u32)
        ensures
            r == self@.height,
    {
        self.height
    }

    /// The pixels.
    pub fn as_raw(&self) -> (r: &Vec<u8>)
        ensures
            r@ == self@.pixels,
            r@.len() == self@.width * self@.height,
    {
        proof {
            use_type_invariant(self);
        }
        &self.pixels
    }
}

/// Whether `out` is what [`image::imageops::resize`] may give for an image of `width` by
/// `height` pixels, resized to `nwidth` by `nheight` with the Lanczos filter of three
/// lobes. It is a relation and no function: the filter is computed with the sine of
/// `f32`, whose last digits the standard library leaves to the platform.
pub uninterp spec fn lanczos3_may_give(
    pixels: Seq<u8>,
    width: u32,
    height: u32,
    nwidth: u32,
    nheight: u32,
    out: Seq<u8>,
) -> bool;

/// What holds of every result of a resizing: it has the new dimensions; an image that has
/// them already is copied; and one without pixels becomes black.
pub open spec fn resized(image: GrayModel, nwidth: u32, nheight: u32, out: Seq<u8>) -> bool {
    &&& lanczos3_may_give(image.pixels, image.width, image.height, nwidth, nheight, out)
    &&& out.len() == nwidth * nheight
    &&& (image.width == nwidth && image.height == nheight ==> out == image.pixels)
    &&& (image.width == 0 || image.height == 0 ==> forall|i: int|
        0 <= i < out.len() ==> #[trigger] out[i] == 0)
}

/// The largest width and height that an image is resized to. The places of the new pixels
/// are computed in `f32`; up to here they are exact enough for the filter to find pixels of
/// the image around each of them.
pub const MAX_TARGET_SIZE: u32 = 65535;

/// Whether an image can be resized. The new dimensions must not be too large, and the
/// buffers that it takes must not be either: the one of the result, one of four `f32` for
/// each pixel of the image at its old width and its new height, and a list, which grows by
/// doubling, of up to one `f32` for each column or row.
pub open spec fn resizable(width: u32, height: u32, nwidth: u32, nheight: u32) -> bool {
    &&& nwidth <= MAX_TARGET_SIZE
    &&& nheight <= MAX_TARGET_SIZE
    &&& nwidth * nheight <= isize::MAX
    &&& 16 * (width * nheight) <= isize::MAX
    &&& 8 * width <= isize::MAX
    &&& 8 * height <= isize::MAX
}

/// Whether an image can be resized.
pub fn can_resize(image: &GrayImage, nwidth: u32, nheight: u32) -> (r: bool)
    ensures
        r == resizable(image@.width, image@.height, nwidth, nheight),
        r <==> nwidth <= 65535 && nheight <= 65535 && nwidth * nheight <= isize::MAX && 16 * (
        image@.width * nheight) <= isize::MAX && 8 * image@.width <= isize::MAX && 8
            * image@.height <= isize::MAX,
{
    assert(nwidth * nheight <= 0xFFFF_FFFF * 0xFFFF_FFFF) by (nonlinear_arith)
        requires
            nwidth <= 0xFFFF_FFFF,
            nheight <= 0xFFFF_FFFF,
    ;
    let width: u32 = image.width;
    assert(width * nheight <= 0xFFFF_FFFF * 0xFFFF_FFFF) by (nonlinear_arith)
        requires
            width <= 0xFFFF_FFFF,
            nheight <= 0xFFFF_FFFF,
    ;
    let limit: u128 = isize::MAX as u128;
    nwidth <= MAX_TARGET_SIZE && nheight <= MAX_TARGET_SIZE && nwidth as u128 * nheight as u128
        <= limit && 16 * (width as u128 * nheight as u128) <= limit && 8 * (width as u128) <= limit
        && 8 * (image.height as u128) <= limit
}

/// Calls [`image::imageops::resize`] with [`image::imageops::FilterType::Lanczos3`]. The
/// contract claims the dimensions of the result, that nothing is resampled where the
/// dimensions stay, and that the result is zero throughout where there is nothing to
/// sample from. Of the resampled values it says no more than whose they are: they are
/// computed in floating point. A larger target than [`MAX_TARGET_SIZE`] is left out: a pixel
/// of it may lie, for `f32`, beyond the image, and its weights are then not numbers, on
/// which the function panics.
#[verifier::external_body]
fn lanczos3(pixels: &Vec<u8>, width: u32, height: u32, nwidth: u32, nheight: u32) -> (r: Vec<u8>)
    requires
        pixels@.len() == width * height,
        resizable(width, height, nwidth, nheight),
    ensures
        lanczos3_may_give(pixels@, width, height, nwidth, nheight, r@),
        r@.len() == nwidth * nheight,
        width == nwidth && height == nheight ==> r@ == pixels@,
        width == 0 || height == 0 ==> forall|i: int|
            0 <= i < r@.len() ==> #[trigger] r@[i] == 0,
{
    let source: image::ImageBuffer<image::Luma<u8>, &[u8]> =
        image::ImageBuffer::from_raw(width, height, pixels.as_slice()).unwrap();
    image::imageops::resize(&source, nwidth, nheight, image::imageops::FilterType::Lanczos3)
        .into_raw()
}

/// Resizes an image.
pub fn resize(image: &GrayImage, nwidth: u32, nheight: u32) -> (r: GrayImage)
    requires
        resizable(image@.width, image@.height, nwidth, nheight),
    ensures
        r@.width == nwidth,
        r@.height == nheight,
        resized(image@, nwidth, nheight, r@.pixels),
        lanczos3_may_give(
            image@.pixels,
            image@.width,
            image@.height,
            nwidth,
            nheight,
            r@.pixels,
        ),
        image@.width == nwidth && image@.height == nheight ==> r@.pixels == image@.pixels,
{
    proof {
        use_type_invariant(image);
    }
    let pixels = lanczos3(&image.pixels, image.width, image.height, nwidth, nheight);
    GrayImage { width: nwidth, height: nheight, pixels }
}

/// The sum of the first `k` pixels.
pub open spec fn sum_below(pixels: Seq<u8>, k: int) -> nat
    decreases k,
{
    if k <= 0 {
        0
    } else {
        sum_below(pixels, k - 1) + pixels[k - 1] as nat
    }
}

/// The sum of all pixels; divided by their number it is the mean brightness.
pub fn pixel_sum(image: &GrayImage) -> (r: u128)
    ensures
        r == sum_below(image@.pixels, image@.pixels.len() as int),
        r == image@.pixels.fold_left(0int, |sum: int, pixel: u8| sum + pixel),
{
    let mut sum: u128 = 0;
    let mut i: usize = 0;
    while i < image.pixels.len()
        invariant
            i <= image.pixels@.len(),
            sum == sum_below(image.pixels@, i as int),
            sum <= i * 255,
        decreases image.pixels@.len() - i,
    {
        sum += image.pixels[i] as u128;
        i += 1;
    }
    proof {
        lemma_sum_below(image.pixels@, image.pixels@.len() as int);
        assert(image.pixels@.take(image.pixels@.len() as int) =~= image.pixels@);
    }
    sum
}

proof fn lemma_sum_below(pixels: Seq<u8>, k: int)
    requires
        0 <= k <= pixels.len(),
    ensures
        sum_below(pixels, k) == pixels.take(k).fold_left(
            0int,
            |sum: int, pixel: u8| sum + pixel,
        ),
    decreases k,
{
    if k > 0 {
        lemma_sum_below(pixels, k - 1);
        assert(pixels.take(k).drop_last() =~= pixels.take(k - 1));
    }
}

proof fn lemma_set_bit(hash: u64, k: u64)
    requires
        k < 64,
    ensures
        forall|i: int|
            0 <= i < 64 ==> (#[trigger] bit(hash | (1u64 << k), i) <==> bit(hash, i) || i == k),
{
    assert forall|i: int| 0 <= i < 64 implies (#[trigger] bit(hash | (1u64 << k), i) <==> bit(
        hash,
        i,
    ) || i == k) by {
        let j = i as u64;
        assert(((hash | (1u64 << k)) >> j) & 1 == 1 <==> (hash >> j) & 1 == 1 || j == k)
            by (bit_vector)
            requires
                k < 64,
                j < 64,
        ;
    }
}

proof fn lemma_no_bits()
    ensures
        forall|i: int| 0 <= i < 64 ==> !#[trigger] bit(0, i),
{
    assert forall|i: int| 0 <= i < 64 implies !#[trigger] bit(0, i) by {
        let j = i as u64;
        assert((0u64 >> j) & 1 == 0) by (bit_vector)
            requires
                j < 64,
        ;
    }
}

/// Whether the brightness falls from the pixel at column `k % 8` and row `k / 8` of a grid
/// nine pixels wide to the pixel on its right.
pub open spec fn falls(grid: Seq<u8>, k: int) -> bool {
    grid[(k / 8) * 9 + k % 8] > grid[(k / 8) * 9 + k % 8 + 1]
}

/// Whether `hash` is the difference hash of a grid of nine by eight pixels: bit `k` tells
/// whether the brightness falls at place `k`.
pub open spec fn is_dhash(grid: Seq<u8>, hash: u64) -> bool {
    forall|k: int| 0 <= k < 64 ==> (#[trigger] bit(hash, k) <==> falls(grid, k))
}

/// The difference hash of a grid of nine by eight pixels.
pub fn dhash_of_grid(grid: &Vec<u8>) -> (r: u64)
    requires
        grid@.len() == 72,
    ensures
        is_dhash(grid@, r),
        forall|y: int, x: int|
            #![trigger grid@[9 * y + x]]
            0 <= y < 8 && 0 <= x < 8 ==> ((r >> ((8 * y + x) as u64)) & 1 == 1 <==> grid@[9 * y + x]
                > grid@[9 * y + x + 1]),
{
    let mut hash: u64 = 0;
    proof {
        lemma_no_bits();
    }
    let mut k: u64 = 0;
    while k < 64
        invariant
            k <= 64,
            grid@.len() == 72,
            forall|i: int| 0 <= i < k ==> (#[trigger] bit(hash, i) <==> falls(grid@, i)),
            forall|i: int| k <= i < 64 ==> !#[trigger] bit(hash, i),
        decreases 64 - k,
    {
        let y: usize = (k / 8) as usize;
        let x: usize = (k % 8) as usize;
        let left: u8 = grid[y * 9 + x];
        let right: u8 = grid[y * 9 + x + 1];
        if left > right {
            proof {
                lemma_set_bit(hash, k);
            }
            hash = hash | (1u64 << k);
        }
        k += 1;
    }
    proof {
        assert forall|y: int, x: int|
            #![trigger grid@[9 * y + x]]
            0 <= y < 8 && 0 <= x < 8 implies ((hash >> ((8 * y + x) as u64)) & 1 == 1
            <==> grid@[9 * y + x] > grid@[9 * y + x + 1]) by {
            a_bit_of_the_dhash_is_a_step(grid@, hash, y, x);
        }
    }
    hash
}

/// Each bit of the difference hash tells of one step from a pixel to the one on its right:
/// bit `8 * y + x` is set just when pixel `x` of row `y` is brighter than pixel `x + 1`. All
/// eight rows of nine pixels count.
pub proof fn a_bit_of_the_dhash_is_a_step(grid: Seq<u8>, hash: u64, y: int, x: int)
    requires
        grid.len() == 72,
        is_dhash(grid, hash),
        0 <= y < 8,
        0 <= x < 8,
    ensures
        (hash >> ((8 * y + x) as u64)) & 1 == 1 <==> grid[9 * y + x] > grid[9 * y + x + 1],
{
    let k = 8 * y + x;
    assert(k / 8 == y && k % 8 == x);
    assert(bit(hash, k) <==> falls(grid, k));
}

/// Every step counts: where two pixels next to each other are not equally bright, swapping
/// them flips the bit of that step.
pub proof fn swapping_two_pixels_flips_their_bit(
    grid: Seq<u8>,
    hash: u64,
    other: u64,
    y: int,
    x: int,
)
    requires
        grid.len() == 72,
        0 <= y < 8,
        0 <= x < 8,
        grid[9 * y + x] != grid[9 * y + x + 1],
        is_dhash(grid, hash),
        is_dhash(
            grid.update(9 * y + x, grid[9 * y + x + 1]).update(9 * y + x + 1, grid[9 * y + x]),
            other,
        ),
    ensures
        ((hash >> ((8 * y + x) as u64)) & 1 == 1) != ((other >> ((8 * y + x) as u64)) & 1 == 1),
{
    let swapped = grid.update(9 * y + x, grid[9 * y + x + 1]).update(
        9 * y + x + 1,
        grid[9 * y + x],
    );
    a_bit_of_the_dhash_is_a_step(grid, hash, y, x);
    a_bit_of_the_dhash_is_a_step(swapped, other, y, x);
}

/// A grid has one difference hash.
pub proof fn a_grid_has_one_dhash(grid: Seq<u8>, hash: u64, other: u64)
    requires
        is_dhash(grid, hash),
        is_dhash(grid, other),
    ensures
        hash == other,
{
    assert forall|k: int| 0 <= k < 64 implies bit(hash, k) == bit(other, k) by {
        assert(bit(hash, k) <==> falls(grid, k));
        assert(bit(other, k) <==> falls(grid, k));
    }
    bits_determine_the_hash(hash, other);
}

/// The difference hash of an image: that of the image resized to nine by eight pixels.
pub fn compute_dhash(image: &GrayImage) -> (r: u64)
    requires
        resizable(image@.width, image@.height, 9, 8),
    ensures
        exists|grid: Seq<u8>| #[trigger] resized(image@, 9, 8, grid) && is_dhash(grid, r),
        exists|grid: Seq<u8>|
            #![trigger lanczos3_may_give(image@.pixels, image@.width, image@.height, 9, 8, grid)]
            lanczos3_may_give(image@.pixels, image@.width, image@.height, 9, 8, grid) && grid.len()
                == 72 && (image@.width == 9 && image@.height == 8 ==> grid == image@.pixels)
                && forall|y: int, x: int|
                #![trigger grid[9 * y + x]]
                0 <= y < 8 && 0 <= x < 8 ==> ((r >> ((8 * y + x) as u64)) & 1 == 1 <==> grid[9 * y
                    + x] > grid[9 * y + x + 1]),
{
    let grid = resize(image, 9, 8);
    let pixels = grid.as_raw();
    assert(lanczos3_may_give(image@.pixels, image@.width, image@.height, 9, 8, pixels@));
    dhash_of_grid(pixels)
}

/// The image from which the perceptual hash is computed: 32 by 32 pixels.
pub fn phash_grid(image: &GrayImage) -> (r: GrayImage)
    requires
        resizable(image@.width, image@.height, 32, 32),
    ensures
        r@.width == 32,
        r@.height == 32,
        r@.pixels.len() == 1024,
        resized(image@, 32, 32, r@.pixels),
        lanczos3_may_give(
            image@.pixels,
            image@.width,
            image@.height,
            32,
            32,
            r@.pixels,
        ),
        image@.width == 32 && image@.height == 32 ==> r@.pixels == image@.pixels,
{
    resize(image, 32, 32)
}

/// The image in which the similarity to another is measured: `target_size` pixels square.
pub fn ssim_grid(image: &GrayImage, target_size: u32) -> (r: GrayImage)
    requires
        resizable(image@.width, image@.height, target_size, target_size),
    ensures
        r@.width == target_size,
        r@.height == target_size,
        r@.pixels.len() == target_size * target_size,
        resized(image@, target_size, target_size, r@.pixels),
        lanczos3_may_give(
            image@.pixels,
            image@.width,
            image@.height,
            target_size,
            target_size,
            r@.pixels,
        ),
        image@.width == target_size && image@.height == target_size ==> r@.pixels == image@.pixels,
{
    resize(image, target_size, target_size)
}

/// The `i`th of the 64 coefficients of the lowest frequencies, row by row: the upper left
/// eight by eight ones of a transform of 32 by 32.
pub open spec fn low_frequency(dct: Seq<Binary64>, i: int) -> Binary64 {
    dct[(i / 8) * 32 + i % 8]
}

/// The places, in the order of numbers, of the low frequencies but the first. The first
/// is the mean brightness.
pub open spec fn ac_places(dct: Seq<Binary64>) -> Seq<int> {
    Seq::new(63, |i: int| low_frequency(dct, i + 1).place())
}

/// The number in the middle of `s`, once sorted.
pub open spec fn median(s: Seq<int>) -> int {
    s.sort()[s.len() as int / 2]
}

/// Whether `hash` is the perceptual hash of an image with the given cosine transform: the
/// bits tell, from the highest down, which of the low frequencies are above the median.
pub open spec fn is_phash(dct: Seq<Binary64>, hash: u64) -> bool {
    forall|i: int|
        0 <= i < 64 ==> (#[trigger] bit(hash, 63 - i) <==> low_frequency(dct, i).place() > median(
            ac_places(dct),
        ))
}

spec fn i64_ints(v: Seq<i64>) -> Seq<int> {
    v.map_values(|x: i64| x as int)
}

/// Puts `x` at its place in a sorted list.
fn insert_sorted(v: &mut Vec<i64>, x: i64)
    requires
        sorted_by(i64_ints(old(v)@), |a: int, b: int| a <= b),
    ensures
        sorted_by(i64_ints(final(v)@), |a: int, b: int| a <= b),
        i64_ints(final(v)@).to_multiset() == i64_ints(old(v)@).to_multiset().insert(x as int),
{
    let ghost before = v@;
    let ghost leq = |a: int, b: int| a <= b;
    let mut at: usize = 0;
    while at < v.len() && v[at] <= x
        invariant
            at <= v@.len(),
            v@ == before,
            forall|k: int| 0 <= k < at ==> #[trigger] before[k] <= x,
        decreases v@.len() - at,
    {
        at += 1;
    }
    v.insert(at, x);
    proof {
        let old_ints = i64_ints(before);
        let new_ints = i64_ints(v@);
        assert(new_ints =~= old_ints.insert(at as int, x as int));
        to_multiset_insert(old_ints, at as int, x as int);
        assert forall|i: int, j: int| 0 <= i < j < new_ints.len() implies #[trigger] leq(
            new_ints[i],
            new_ints[j],
        ) by {
            let oi = if i < at { i } else { i - 1 };
            let oj = if j < at { j } else { j - 1 };
            if i != at && j != at {
                assert(leq(old_ints[oi], old_ints[oj]));
            } else if i == at {
                if at < oj {
                    assert(leq(old_ints[at as int], old_ints[oj]));
                }
            } else {
                assert(before[i] <= x);
            }
        }
    }
}

/// The number in the middle of the list, once sorted.
fn find_median(v: &Vec<i64>) -> (r: i64)
    requires
        v@.len() > 0,
    ensures
        r == median(i64_ints(v@)),
{
    let ghost leq = |a: int, b: int| a <= b;
    let mut sorted: Vec<i64> = Vec::new();
    let mut i: usize = 0;
    assert(i64_ints(sorted@) =~= i64_ints(v@.take(0)));
    while i < v.len()
        invariant
            i <= v@.len(),
            sorted_by(i64_ints(sorted@), |a: int, b: int| a <= b),
            i64_ints(sorted@).to_multiset() == i64_ints(v@.take(i as int)).to_multiset(),
        decreases v@.len() - i,
    {
        insert_sorted(&mut sorted, v[i]);
        proof {
            let here = i64_ints(v@.take(i as int));
            assert(i64_ints(v@.take(i + 1)) =~= here.push(v@[i as int] as int));
            to_multiset_build(here, v@[i as int] as int);
        }
        i += 1;
    }
    proof {
        let keys = i64_ints(v@);
        assert(v@.take(i as int) =~= v@);
        keys.lemma_sort_ensures();
        lemma_sorted_unique(i64_ints(sorted@), keys.sort(), leq);
        to_multiset_len(keys);
        to_multiset_len(i64_ints(sorted@));
        assert(i64_ints(sorted@).len() == sorted@.len());
        assert(keys.len() == v@.len());
    }
    sorted[v.len() / 2]
}

/// The perceptual hash of an image, given the cosine transform of its 32 by 32 pixels, row
/// by row.
pub fn phash_of_spectrum(dct: &Vec<Binary64>) -> (r: u64)
    requires
        dct@.len() == 1024,
        forall|i: int| 0 <= i < 1024 ==> !(#[trigger] dct@[i]).nan(),
    ensures
        is_phash(dct@, r),
{
    let mut low: Vec<i64> = Vec::new();
    let mut rest: Vec<i64> = Vec::new();
    let mut i: usize = 0;
    while i < 64
        invariant
            i <= 64,
            dct@.len() == 1024,
            low@.len() == i,
            rest@.len() == if i == 0 { 0int } else { i - 1 },
            forall|j: int| 0 <= j < i ==> #[trigger] low@[j] == low_frequency(dct@, j).place(),
            forall|j: int|
                0 <= j < i - 1 ==> #[trigger] rest@[j] == low_frequency(dct@, j + 1).place(),
        decreases 64 - i,
    {
        let c: i64 = dct[(i / 8) * 32 + i % 8].position();
        low.push(c);
        if i > 0 {
            rest.push(c);
        }
        i += 1;
    }
    let middle: i64 = find_median(&rest);
    assert(i64_ints(rest@) =~= ac_places(dct@));
    let mut hash: u64 = 0;
    proof {
        lemma_no_bits();
    }
    let mut k: usize = 0;
    while k < 64
        invariant
            k <= 64,
            low@.len() == 64,
            middle == median(ac_places(dct@)),
            forall|j: int| 0 <= j < 64 ==> #[trigger] low@[j] == low_frequency(dct@, j).place(),
            forall|j: int|
                0 <= j < k ==> (#[trigger] bit(hash, 63 - j) <==> low_frequency(dct@, j).place()
                    > middle),
            forall|j: int| k <= j < 64 ==> !#[trigger] bit(hash, 63 - j),
        decreases 64 - k,
    {
        if low[k] > middle {
            let at: u64 = 63 - k as u64;
            proof {
                lemma_set_bit(hash, at);
            }
            hash = hash | (1u64 << at);
        }
        k += 1;
    }
    hash
}

/// How many of the first `k` numbers are above `m`.
spec fn above(s: Seq<int>, m: int, k: int) -> nat
    decreases k,
{
    if k <= 0 {
        0
    } else {
        above(s, m, k - 1) + if s[k - 1] > m {
            1nat
        } else {
            0nat
        }
    }
}

proof fn lemma_above_counts(s: Seq<int>, m: int, k: int)
    requires
        0 <= k <= s.len(),
    ensures
        above(s, m, k) == s.take(k).to_multiset().filter(|x: int| x > m).len(),
    decreases k,
{
    broadcast use vstd::multiset::group_multiset_axioms;

    let f = |x: int| x > m;
    if k == 0 {
        assert forall|x: int| s.take(0).to_multiset().count(x) == 0 by {
            to_multiset_contains(s.take(0), x);
        }
        assert(s.take(0).to_multiset().filter(f) =~= vstd::multiset::Multiset::empty());
    } else {
        lemma_above_counts(s, m, k - 1);
        let x = s[k - 1];
        assert(s.take(k) =~= s.take(k - 1).push(x));
        to_multiset_build(s.take(k - 1), x);
        let before = s.take(k - 1).to_multiset();
        if x > m {
            assert(before.insert(x).filter(f) =~= before.filter(f).insert(x));
        } else {
            assert(before.insert(x).filter(f) =~= before.filter(f));
        }
    }
}

proof fn lemma_above_sorted(s: Seq<int>, p: int, k: int)
    requires
        sorted_by(s, |a: int, b: int| a <= b),
        0 <= p < s.len(),
        0 <= k <= s.len(),
    ensures
        above(s, s[p], k) <= if k <= p { 0 } else { k - p - 1 },
    decreases k,
{
    let leq = |a: int, b: int| a <= b;
    if k > 0 {
        lemma_above_sorted(s, p, k - 1);
        if k - 1 < p {
            assert(leq(s[k - 1], s[p]));
        }
    }
}

proof fn lemma_bits_above(dct: Seq<Binary64>, hash: u64, k: nat)
    requires
        is_phash(dct, hash),
        k <= 63,
    ensures
        ones_below(hash, k) == above(
            Seq::new(63, |i: int| low_frequency(dct, 63 - i).place()),
            median(ac_places(dct)),
            k as int,
        ),
    decreases k,
{
    if k > 0 {
        lemma_bits_above(dct, hash, (k - 1) as nat);
        assert(bit(hash, 63 - (64 - k)) <==> low_frequency(dct, 64 - k).place() > median(
            ac_places(dct),
        ));
    }
}

proof fn lemma_reverse_multiset(s: Seq<int>, k: int)
    requires
        0 <= k <= s.len(),
    ensures
        s.reverse().take(k).to_multiset() == s.skip(s.len() - k).to_multiset(),
    decreases k,
{
    broadcast use vstd::multiset::group_multiset_axioms;

    if k == 0 {
        assert(s.reverse().take(0) =~= s.skip(s.len() as int));
    } else {
        lemma_reverse_multiset(s, k - 1);
        let x = s[s.len() - k];
        assert(s.reverse().take(k) =~= s.reverse().take(k - 1).push(x));
        to_multiset_build(s.reverse().take(k - 1), x);
        assert(s.skip(s.len() - k) =~= s.skip(s.len() - k + 1).insert(0, x));
        to_multiset_insert(s.skip(s.len() - k + 1), 0, x);
    }
}

/// The median cuts the frequencies in half: of the 63 bits below the highest, which belong
/// to the frequencies that the median is taken of, at most 31 are set, and so of all 64 at
/// most 32.
pub proof fn the_median_cuts_in_half(dct: Seq<Binary64>, hash: u64)
    requires
        dct.len() == 1024,
        is_phash(dct, hash),
    ensures
        ones_below(hash, 63) <= 31,
        ones_below(hash, 64) <= 32,
{
    let keys = ac_places(dct);
    let back = Seq::new(63, |i: int| low_frequency(dct, 63 - i).place());
    let m = median(keys);
    lemma_bits_above(dct, hash, 63);
    lemma_above_counts(back, m, 63);
    assert(back =~= keys.reverse());
    assert(back.take(63) =~= back);
    lemma_reverse_multiset(keys, 63);
    assert(keys.reverse().take(63) =~= keys.reverse());
    assert(keys.skip(0) =~= keys);
    keys.lemma_sort_ensures();
    let sorted = keys.sort();
    to_multiset_len(keys);
    to_multiset_len(sorted);
    lemma_above_counts(sorted, m, 63);
    assert(sorted.take(63) =~= sorted);
    lemma_above_sorted(sorted, 31, 63);
}

proof fn lemma_median_is_one_of_them(s: Seq<int>)
    requires
        s.len() > 0,
    ensures
        s.contains(median(s)),
{
    broadcast use vstd::multiset::group_multiset_axioms;

    s.lemma_sort_ensures();
    let sorted = s.sort();
    to_multiset_len(s);
    to_multiset_len(sorted);
    assert(sorted.contains(sorted[s.len() as int / 2]));
    to_multiset_contains(sorted, median(s));
    to_multiset_contains(s, median(s));
}

/// The highest bit belongs to the mean brightness: it is set where the mean is above all
/// the other low frequencies, and clear where it is above none of them.
pub proof fn the_highest_bit_is_of_the_mean(dct: Seq<Binary64>, hash: u64)
    requires
        dct.len() == 1024,
        is_phash(dct, hash),
    ensures
        (forall|i: int|
            1 <= i < 64 ==> #[trigger] low_frequency(dct, i).place() < low_frequency(
                dct,
                0,
            ).place()) ==> bit(hash, 63),
        (forall|i: int|
            1 <= i < 64 ==> #[trigger] low_frequency(dct, i).place() >= low_frequency(
                dct,
                0,
            ).place()) ==> !bit(hash, 63),
{
    let keys = ac_places(dct);
    lemma_median_is_one_of_them(keys);
    let k = choose|k: int| 0 <= k < keys.len() && keys[k] == median(keys);
    assert(low_frequency(dct, k + 1).place() == median(keys));
    assert(bit(hash, 63 - 0) <==> low_frequency(dct, 0).place() > median(keys));
}

/// Whether a transform puts the mean brightness of the pixels first, as the cosine transform
/// does: of a black image all low frequencies are the same, and of any other the first is
/// above the rest.
pub open spec fn mean_comes_first(pixels: Seq<u8>, dct: Seq<Binary64>) -> bool {
    if forall|i: int| 0 <= i < pixels.len() ==> #[trigger] pixels[i] == 0 {
        forall|i: int|
            1 <= i < 64 ==> #[trigger] low_frequency(dct, i).place() == low_frequency(
                dct,
                0,
            ).place()
    } else {
        forall|i: int|
            1 <= i < 64 ==> #[trigger] low_frequency(dct, i).place() < low_frequency(
                dct,
                0,
            ).place()
    }
}

/// The highest bit tells whether some pixel is not black, for every transform that puts the
/// mean brightness first.
pub proof fn the_highest_bit_tells_black_from_other(
    pixels: Seq<u8>,
    dct: Seq<Binary64>,
    hash: u64,
)
    requires
        dct.len() == 1024,
        is_phash(dct, hash),
        mean_comes_first(pixels, dct),
    ensures
        bit(hash, 63) <==> exists|i: int| 0 <= i < pixels.len() && #[trigger] pixels[i] != 0,
{
    the_highest_bit_is_of_the_mean(dct, hash);
}

/// A transform in which all the low frequencies are the same number, as they are all zero
/// for a black image, has the hash zero.
pub proof fn an_even_spectrum_has_the_hash_zero(dct: Seq<Binary64>, hash: u64)
    requires
        dct.len() == 1024,
        is_phash(dct, hash),
        forall|i: int|
            0 <= i < 64 ==> #[trigger] low_frequency(dct, i).place() == low_frequency(
                dct,
                0,
            ).place(),
    ensures
        hash == 0,
{
    let keys = ac_places(dct);
    lemma_median_is_one_of_them(keys);
    let k = choose|k: int| 0 <= k < keys.len() && keys[k] == median(keys);
    assert(low_frequency(dct, k + 1).place() == median(keys));
    lemma_no_bits();
    assert forall|i: int| 0 <= i < 64 implies bit(hash, i) == bit(0, i) by {
        assert(bit(hash, 63 - (63 - i)) <==> low_frequency(dct, 63 - i).place() > median(keys));
        assert(!bit(0, i));
    }
    bits_determine_the_hash(hash, 0);
}

proof fn lemma_count(s: Seq<int>, f: spec_fn(int) -> bool)
    ensures
        s.filter(f).len() == s.to_multiset().filter(f).len(),
    decreases s.len(),
{
    broadcast use vstd::multiset::group_multiset_axioms;

    reveal(Seq::filter);
    if s.len() == 0 {
        assert forall|x: int| s.to_multiset().count(x) == 0 by {
            to_multiset_contains(s, x);
        }
        assert(s.to_multiset().filter(f) =~= vstd::multiset::Multiset::empty());
    } else {
        lemma_count(s.drop_last(), f);
        let x = s.last();
        assert(s =~= s.drop_last().push(x));
        to_multiset_build(s.drop_last(), x);
        let before = s.drop_last().to_multiset();
        if f(x) {
            assert(before.insert(x).filter(f) =~= before.filter(f).insert(x));
        } else {
            assert(before.insert(x).filter(f) =~= before.filter(f));
        }
    }
}

proof fn lemma_few_above(s: Seq<int>, p: int, k: int)
    requires
        sorted_by(s, |a: int, b: int| a <= b),
        0 <= p < s.len(),
        0 <= k <= s.len(),
    ensures
        s.take(k).filter(|x: int| x > s[p]).len() <= if k <= p { 0 } else { k - p - 1 },
        s.take(k).filter(|x: int| x < s[p]).len() <= if k <= p { k } else { p },
    decreases k,
{
    reveal(Seq::filter);
    let leq = |a: int, b: int| a <= b;
    if k > 0 {
        lemma_few_above(s, p, k - 1);
        assert(s.take(k).drop_last() =~= s.take(k - 1));
        if k - 1 < p {
            assert(leq(s[k - 1], s[p]));
        }
        if p < k - 1 {
            assert(leq(s[p], s[k - 1]));
        }
    }
}

/// What the bits of the perceptual hash are compared with: one of the 63 low frequencies
/// behind the first, so that at most 31 of them are below it and at most 31 above. Bit
/// `63 - (8 * u + v)` tells whether the coefficient in column `v` of row `u`, for the upper
/// left eight by eight of the 32 by 32, is above it.
pub proof fn a_bit_of_the_phash_is_a_comparison(dct: Seq<Binary64>, hash: u64) -> (m: int)
    requires
        dct.len() == 1024,
        is_phash(dct, hash),
    ensures
        forall|u: int, v: int|
            #![trigger dct[32 * u + v]]
            0 <= u < 8 && 0 <= v < 8 ==> ((hash >> ((63 - (8 * u + v)) as u64)) & 1 == 1 <==> dct[32
                * u + v].place() > m),
        ({
            let others = Seq::new(63, |i: int| dct[32 * ((i + 1) / 8) + (i + 1) % 8].place());
            &&& others.contains(m)
            &&& others.filter(|x: int| x < m).len() <= 31
            &&& others.filter(|x: int| x > m).len() <= 31
        }),
{
    let keys = ac_places(dct);
    let others = Seq::new(63, |i: int| dct[32 * ((i + 1) / 8) + (i + 1) % 8].place());
    assert(keys =~= others);
    let m = median(keys);
    lemma_median_is_one_of_them(keys);
    keys.lemma_sort_ensures();
    let sorted = keys.sort();
    to_multiset_len(keys);
    to_multiset_len(sorted);
    assert(sorted.take(63) =~= sorted);
    lemma_few_above(sorted, 31, 63);
    lemma_count(keys, |x: int| x > m);
    lemma_count(sorted, |x: int| x > m);
    lemma_count(keys, |x: int| x < m);
    lemma_count(sorted, |x: int| x < m);
    assert forall|u: int, v: int|
        #![trigger dct[32 * u + v]]
        0 <= u < 8 && 0 <= v < 8 implies ((hash >> ((63 - (8 * u + v)) as u64)) & 1 == 1 <==> dct[32
        * u + v].place() > m) by {
        let i = 8 * u + v;
        assert(i / 8 == u && i % 8 == v);
        assert(bit(hash, 63 - i) <==> low_frequency(dct, i).place() > m);
    }
    m
}

} // verus!
