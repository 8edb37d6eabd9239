//! Which pairs of images may be duplicates, and which of those are.
use vstd::prelude::*;

use crate::binary64::{Binary64, ONE_BITS};
use crate::bits::{hamming, hamming_distance};
use crate::dedup::a_row_lists_the_close_images;
use crate::info::{models, same_digest, ImageInfo, ImageModel};

verus! {

/// The bit pattern of 0.98. A similarity of at least this much is convincing by itself.
pub const STRICT_SSIM_BITS: u64 = 0x3FEF_5C28_F5C2_8F5C;

/// Up to this distance two difference hashes agree.
pub const DHASH_AGREE_DISTANCE: u32 = 10;

/// Two images that were found to show the same thing.
#[derive(Clone, Copy, Debug, PartialEq, Eq, Structural)]
pub struct VerifiedPair {
    /// The index of the one image.
    pub a: usize,
    /// The index of the other image.
    pub b: usize,
    /// How similar they are.
    pub score: Binary64,
    /// Whether the finding is of high confidence.
    pub high: bool,
}

/// Whether two images are worth a closer look: the files are the same, or the perceptual
/// hashes are within `threshold` of each other.
pub open spec fn is_candidate(a: ImageModel, b: ImageModel, threshold: u32) -> bool {
    same_digest(a, b) || hamming(a.phash, b.phash) <= threshold
}

/// The candidates among the pairs `(i, j)` with `i < j < end`, by rising `j`.
pub open spec fn candidate_row(
    images: Seq<ImageModel>,
    threshold: u32,
    i: int,
    end: int,
) -> Seq<(usize, usize)>
    decreases end - i,
{
    if end <= i + 1 {
        Seq::empty()
    } else {
        let before = candidate_row(images, threshold, i, end - 1);
        if is_candidate(images[i], images[end - 1], threshold) {
            before.push((i as usize, (end - 1) as usize))
        } else {
            before
        }
    }
}

/// The candidates among the pairs `(i, j)` with `i < j` and `i < rows`, by rising `i`, and
/// by rising `j` where `i` is the same.
pub open spec fn candidate_rows(images: Seq<ImageModel>, threshold: u32, rows: int) -> Seq<
    (usize, usize),
>
    decreases rows,
{
    if rows <= 0 {
        Seq::empty()
    } else {
        candidate_rows(images, threshold, rows - 1) + candidate_row(
            images,
            threshold,
            rows - 1,
            images.len() as int,
        )
    }
}

/// All candidates, in lexicographic order.
pub open spec fn candidates(images: Seq<ImageModel>, threshold: u32) -> Seq<(usize, usize)> {
    candidate_rows(images, threshold, images.len() as int)
}

/// Lists the pairs of image `i` and a later one that are worth a closer look.
pub fn candidates_of(images: &Vec<ImageInfo>, phash_threshold: u32, i: usize) -> (r: Vec<
    (usize, usize),
>)
    requires
        i < images@.len(),
    ensures
        r@ == candidate_row(
            models(images@),
            phash_threshold,
            i as int,
            images@.len() as int,
        ),
        forall|j: int|
            #![trigger images@[j]]
            i < j < images@.len() && (hamming(images@[i as int].phash, images@[j].phash)
                <= phash_threshold || (images@[i as int].md5@.len() > 0 && images@[i as int].md5@
                == images@[j].md5@)) ==> r@.contains((i, j as usize)),
        forall|k: int|
            #![trigger r@[k]]
            0 <= k < r@.len() ==> r@[k].0 == i && i < r@[k].1 < images@.len() && (hamming(
                images@[i as int].phash,
                images@[r@[k].1 as int].phash,
            ) <= phash_threshold || (images@[i as int].md5@.len() > 0 && images@[i as int].md5@
                == images@[r@[k].1 as int].md5@)),
        forall|k: int, l: int|
            0 <= k < l < r@.len() ==> (#[trigger] r@[k]).1 < (#[trigger] r@[l]).1,
{
    let n: usize = images.len();
    let ghost all = models(images@);
    let mut row: Vec<(usize, usize)> = Vec::new();
    let mut j: usize = i + 1;
    while j < n
        invariant
            n == images@.len(),
            all == models(images@),
            i < j <= n,
            row@ == candidate_row(all, phash_threshold, i as int, j as int),
        decreases n - j,
    {
        if images[i].same_digest(&images[j]) {
            row.push((i, j));
        } else if hamming_distance(images[i].phash, images[j].phash) <= phash_threshold {
            row.push((i, j));
        }
        j += 1;
    }
    proof {
        a_row_lists_the_close_images(all, phash_threshold, i as int);
        assert forall|j: int|
            #![trigger images@[j]]
            i < j < images@.len() && (hamming(images@[i as int].phash, images@[j].phash)
                <= phash_threshold || (images@[i as int].md5@.len() > 0 && images@[i as int].md5@
                == images@[j].md5@)) implies row@.contains((i, j as usize)) by {
            assert(all[j] == images@[j]@);
        }
        assert forall|k: int| #![trigger row@[k]] 0 <= k < row@.len() implies row@[k].0 == i && i
            < row@[k].1 < images@.len() && (hamming(
            images@[i as int].phash,
            images@[row@[k].1 as int].phash,
        ) <= phash_threshold || (images@[i as int].md5@.len() > 0 && images@[i as int].md5@
            == images@[row@[k].1 as int].md5@)) by {
            assert(all[row@[k].1 as int] == images@[row@[k].1 as int]@);
        }
    }
    row
}

/// Lists the pairs of images that are worth a closer look.
pub fn candidate_pairs(images: &Vec<ImageInfo>, phash_threshold: u32) -> (r: Vec<(usize, usize)>)
    ensures
        r@ == candidates(models(images@), phash_threshold),
{
    let n: usize = images.len();
    let mut pairs: Vec<(usize, usize)> = Vec::new();
    let mut i: usize = 0;
    while i < n
        invariant
            n == images@.len(),
            i <= n,
            pairs@ == candidate_rows(models(images@), phash_threshold, i as int),
        decreases n - i,
    {
        let mut row = candidates_of(images, phash_threshold, i);
        pairs.append(&mut row);
        i += 1;
    }
    pairs
}

/// What is found of a pair: its score and whether the finding is of high confidence, or
/// nothing. Equal files need no comparison; `ssim` is the similarity of the others, or
/// nothing where one of the two could not be read.
pub open spec fn judgement(
    a: ImageModel,
    b: ImageModel,
    ssim: Option<Binary64>,
    threshold: Binary64,
) -> Option<(Binary64, bool)> {
    if same_digest(a, b) {
        Some((Binary64 { bits: ONE_BITS }, true))
    } else {
        match ssim {
            None => None,
            Some(s) => if s.lt(threshold) {
                None
            } else {
                Some(
                    (
                        s,
                        s.ge(Binary64 { bits: STRICT_SSIM_BITS }) || hamming(a.dhash, b.dhash)
                            <= DHASH_AGREE_DISTANCE,
                    ),
                )
            },
        }
    }
}

/// A pair of files that differ is judged by its similarity alone, whatever else is known of
/// the two images: it is dropped where the similarity is unknown or below the threshold, and
/// found with that similarity as its score where it is not. It is of high confidence where
/// the similarity is at least 0.98, or the difference hashes differ in at most ten bits.
pub proof fn the_similarity_alone_decides(
    a: ImageModel,
    b: ImageModel,
    s: Binary64,
    threshold: Binary64,
)
    requires
        a.md5 != b.md5 || a.md5.len() == 0,
    ensures
        judgement(a, b, None, threshold) is None,
        s.lt(threshold) ==> judgement(a, b, Some(s), threshold) is None,
        !s.lt(threshold) ==> judgement(a, b, Some(s), threshold) == Some(
            (
                s,
                s.ge(Binary64 { bits: 0x3FEF_5C28_F5C2_8F5C }) || hamming(a.dhash, b.dhash) <= 10,
            ),
        ),
{
}

/// A pair of files with the same digest is always found, with the score 1.0 and high
/// confidence, whatever the similarity and the threshold.
pub proof fn equal_files_are_always_found(
    a: ImageModel,
    b: ImageModel,
    ssim: Option<Binary64>,
    threshold: Binary64,
)
    requires
        a.md5 == b.md5,
        a.md5.len() > 0,
    ensures
        judgement(a, b, ssim, threshold) == Some(
            (Binary64 { bits: 0x3FF0_0000_0000_0000 }, true),
        ),
{
}

/// A stricter threshold finds no more: what is found under the higher of two thresholds is
/// found under the lower one, with the same score and confidence.
pub proof fn a_lower_threshold_finds_as_much(
    a: ImageModel,
    b: ImageModel,
    ssim: Option<Binary64>,
    low: Binary64,
    high: Binary64,
)
    requires
        !low.nan(),
        !high.nan(),
        !high.lt(low),
        judgement(a, b, ssim, high) is Some,
    ensures
        judgement(a, b, ssim, low) == judgement(a, b, ssim, high),
{
}

/// Whether the similarity of two images has to be computed before they can be judged.
pub fn needs_ssim(a: &ImageInfo, b: &ImageInfo) -> (r: bool)
    ensures
        r == !same_digest(a@, b@),
        r == !(a.md5@.len() > 0 && a.md5@ == b.md5@),
{
    !a.same_digest(b)
}

/// Judges one pair.
pub fn judge_pair(
    a: &ImageInfo,
    b: &ImageInfo,
    ssim: Option<Binary64>,
    ssim_threshold: Binary64,
) -> (r: Option<(Binary64, bool)>)
    ensures
        r == judgement(a@, b@, ssim, ssim_threshold),
        a.md5@.len() > 0 && a.md5@ == b.md5@ ==> r == Some(
            (Binary64 { bits: 0x3FF0_0000_0000_0000 }, true),
        ),
        !(a.md5@.len() > 0 && a.md5@ == b.md5@) && ssim is None ==> r is None,
        !(a.md5@.len() > 0 && a.md5@ == b.md5@) ==> (ssim matches Some(s) ==> r == if s.lt(
            ssim_threshold,
        ) {
            None
        } else {
            Some(
                (
                    s,
                    s.ge(Binary64 { bits: 0x3FEF_5C28_F5C2_8F5C }) || hamming(a.dhash, b.dhash)
                        <= 10,
                ),
            )
        }),
{
    if a.same_digest(b) {
        return Some((Binary64 { bits: ONE_BITS }, true));
    }
    match ssim {
        None => None,
        Some(score) => {
            if score.less_than(ssim_threshold) {
                return None;
            }
            let dhash_dist: u32 = hamming_distance(a.dhash, b.dhash);
            let high: bool = score.at_least(Binary64 { bits: STRICT_SSIM_BITS }) || dhash_dist
                <= DHASH_AGREE_DISTANCE;
            Some((score, high))
        },
    }
}

/// The pairs among the first `k` that were found to show the same thing, in their order.
pub open spec fn verified_below(
    images: Seq<ImageModel>,
    pairs: Seq<(usize, usize)>,
    ssim: Seq<Option<Binary64>>,
    threshold: Binary64,
    k: int,
) -> Seq<VerifiedPair>
    decreases k,
{
    if k <= 0 {
        Seq::empty()
    } else {
        let before = verified_below(images, pairs, ssim, threshold, k - 1);
        let (a, b) = pairs[k - 1];
        match judgement(images[a as int], images[b as int], ssim[k - 1], threshold) {
            None => before,
            Some((score, high)) => before.push(VerifiedPair { a, b, score, high }),
        }
    }
}

/// The pairs that were found to show the same thing, in their order.
pub open spec fn verified(
    images: Seq<ImageModel>,
    pairs: Seq<(usize, usize)>,
    ssim: Seq<Option<Binary64>>,
    threshold: Binary64,
) -> Seq<VerifiedPair> {
    verified_below(images, pairs, ssim, threshold, pairs.len() as int)
}

/// Judges all pairs; `ssim` holds the similarity of each.
pub fn verify_pairs(
    images: &Vec<ImageInfo>,
    pairs: &Vec<(usize, usize)>,
    ssim: &Vec<Option<Binary64>>,
    ssim_threshold: Binary64,
) -> (r: Vec<VerifiedPair>)
    requires
        ssim@.len() == pairs@.len(),
        forall|k: int|
            0 <= k < pairs@.len() ==> (#[trigger] pairs@[k]).0 < images@.len() && pairs@[k].1
                < images@.len(),
    ensures
        r@ == verified(models(images@), pairs@, ssim@, ssim_threshold),
{
    let mut found: Vec<VerifiedPair> = Vec::new();
    let mut k: usize = 0;
    while k < pairs.len()
        invariant
            k <= pairs@.len(),
            ssim@.len() == pairs@.len(),
            forall|k: int|
                0 <= k < pairs@.len() ==> (#[trigger] pairs@[k]).0 < images@.len()
                    && pairs@[k].1 < images@.len(),
            found@ == verified_below(models(images@), pairs@, ssim@, ssim_threshold, k as int),
        decreases pairs@.len() - k,
    {
        let (a, b): (usize, usize) = pairs[k];
        if let Some((score, high)) = judge_pair(&images[a], &images[b], ssim[k], ssim_threshold) {
            found.push(VerifiedPair { a, b, score, high });
        }
        k += 1;
    }
    found
}

} // verus!
