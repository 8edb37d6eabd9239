//! The search for duplicates as a whole, and what can be relied on of its answer.
use vstd::prelude::*;

use crate::binary64::Binary64;
use crate::bits::hamming;
use crate::groups::{are_the_groups, group_duplicates, group_models, presents};
use crate::info::{models, DuplicateGroup, ImageInfo, ImageModel};
use crate::pairs::{
    candidate_row, candidate_rows, candidates, equal_files_are_always_found, is_candidate,
    judgement, the_similarity_alone_decides, verified, verified_below, verify_pairs, VerifiedPair,
};

verus! {

/// Whether `p` comes before `q` in lexicographic order.
pub open spec fn lexicographic(p: (usize, usize), q: (usize, usize)) -> bool {
    p.0 < q.0 || (p.0 == q.0 && p.1 < q.1)
}

proof fn lemma_row(images: Seq<ImageModel>, threshold: u32, i: int, end: int)
    requires
        0 <= i < images.len(),
        end <= images.len() <= usize::MAX,
    ensures
        ({
            let row = candidate_row(images, threshold, i, end);
            &&& forall|k: int|
                0 <= k < row.len() ==> (#[trigger] row[k]).0 == i && i < row[k].1 < end
                    && is_candidate(images[i], images[row[k].1 as int], threshold)
            &&& forall|j: int|
                i < j < end && is_candidate(images[i], #[trigger] images[j], threshold)
                    ==> row.contains((i as usize, j as usize))
            &&& forall|k: int, l: int|
                0 <= k < l < row.len() ==> lexicographic(#[trigger] row[k], #[trigger] row[l])
        }),
    decreases end - i,
{
    if end > i + 1 {
        lemma_row(images, threshold, i, end - 1);
        let before = candidate_row(images, threshold, i, end - 1);
        let row = candidate_row(images, threshold, i, end);
        assert forall|j: int|
            i < j < end && is_candidate(images[i], #[trigger] images[j], threshold) implies row.contains(
            (i as usize, j as usize),
        ) by {
            if j == end - 1 {
                assert(row[before.len() as int] == (i as usize, j as usize));
            } else {
                let k = before.index_of((i as usize, j as usize));
                assert(before.contains((i as usize, j as usize)));
                assert(row[k] == before[k]);
            }
        }
    }
}

proof fn lemma_rows(images: Seq<ImageModel>, threshold: u32, rows: int)
    requires
        0 <= rows <= images.len() <= usize::MAX,
    ensures
        ({
            let all = candidate_rows(images, threshold, rows);
            &&& forall|k: int|
                0 <= k < all.len() ==> (#[trigger] all[k]).0 < rows && all[k].0 < all[k].1
                    < images.len() && is_candidate(
                    images[all[k].0 as int],
                    images[all[k].1 as int],
                    threshold,
                )
            &&& forall|i: int, j: int|
                0 <= i < rows && i < j < images.len() && is_candidate(
                    #[trigger] images[i],
                    #[trigger] images[j],
                    threshold,
                ) ==> all.contains((i as usize, j as usize))
            &&& forall|k: int, l: int|
                0 <= k < l < all.len() ==> lexicographic(#[trigger] all[k], #[trigger] all[l])
        }),
    decreases rows,
{
    if rows > 0 {
        lemma_rows(images, threshold, rows - 1);
        lemma_row(images, threshold, rows - 1, images.len() as int);
        let before = candidate_rows(images, threshold, rows - 1);
        let row = candidate_row(images, threshold, rows - 1, images.len() as int);
        let all = candidate_rows(images, threshold, rows);
        assert(all == before + row);
        assert forall|k: int| 0 <= k < all.len() implies (#[trigger] all[k]).0 < rows && all[k].0
            < all[k].1 < images.len() && is_candidate(
            images[all[k].0 as int],
            images[all[k].1 as int],
            threshold,
        ) by {
            if k < before.len() {
                assert(all[k] == before[k]);
            } else {
                assert(all[k] == row[k - before.len()]);
            }
        }
        assert forall|k: int, l: int| 0 <= k < l < all.len() implies lexicographic(
            #[trigger] all[k],
            #[trigger] all[l],
        ) by {
            if l < before.len() {
                assert(all[k] == before[k] && all[l] == before[l]);
            } else if k < before.len() {
                assert(all[k] == before[k] && all[l] == row[l - before.len()]);
            } else {
                assert(all[k] == row[k - before.len()] && all[l] == row[l - before.len()]);
            }
        }
        assert forall|i: int, j: int|
            0 <= i < rows && i < j < images.len() && is_candidate(
                #[trigger] images[i],
                #[trigger] images[j],
                threshold,
            ) implies all.contains((i as usize, j as usize)) by {
            let pair = (i as usize, j as usize);
            if i < rows - 1 {
                assert(before.contains(pair));
                let k = before.index_of(pair);
                assert(all[k] == pair);
            } else {
                assert(row.contains(pair));
                let k = row.index_of(pair);
                assert(all[before.len() + k] == pair);
            }
        }
    }
}

/// The row of image `i` lists just the later images whose perceptual hash is within the
/// threshold of its own, or whose digest is the same, in their order.
pub proof fn a_row_lists_the_close_images(images: Seq<ImageModel>, threshold: u32, i: int)
    requires
        0 <= i < images.len() <= usize::MAX,
    ensures
        forall|j: int|
            #![trigger images[j]]
            i < j < images.len() && (hamming(images[i].phash, images[j].phash) <= threshold || (
            images[i].md5.len() > 0 && images[i].md5 == images[j].md5)) ==> candidate_row(
                images,
                threshold,
                i,
                images.len() as int,
            ).contains((i as usize, j as usize)),
        forall|k: int|
            0 <= k < candidate_row(images, threshold, i, images.len() as int).len() ==> ({
                let (a, b) = #[trigger] candidate_row(
                    images,
                    threshold,
                    i,
                    images.len() as int,
                )[k];
                a == i && i < b < images.len() && (hamming(images[i].phash, images[b as int].phash)
                    <= threshold || (images[i].md5.len() > 0 && images[i].md5
                    == images[b as int].md5))
            }),
        forall|k: int, l: int|
            0 <= k < l < candidate_row(images, threshold, i, images.len() as int).len() ==> (
            #[trigger] candidate_row(images, threshold, i, images.len() as int)[k]).1 < (
            #[trigger] candidate_row(images, threshold, i, images.len() as int)[l]).1,
{
    lemma_row(images, threshold, i, images.len() as int);
    let row = candidate_row(images, threshold, i, images.len() as int);
    assert forall|j: int|
        #![trigger images[j]]
        i < j < images.len() && (hamming(images[i].phash, images[j].phash) <= threshold || (
        images[i].md5.len() > 0 && images[i].md5 == images[j].md5)) implies row.contains(
        (i as usize, j as usize),
    ) by {
        assert(is_candidate(images[i], images[j], threshold));
    }
    assert forall|k: int, l: int| 0 <= k < l < row.len() implies (#[trigger] row[k]).1 < (
    #[trigger] row[l]).1 by {
        assert(lexicographic(row[k], row[l]));
    }
}

/// The distance between the perceptual hashes decides: every two images within the threshold
/// of each other are a pair of candidates, and so are every two with the same digest. No
/// others are, no pair is listed twice, and the earlier image always comes first.
pub proof fn close_images_are_candidates(images: Seq<ImageModel>, threshold: u32)
    requires
        images.len() <= usize::MAX,
    ensures
        forall|i: int, j: int|
            #![trigger images[i], images[j]]
            0 <= i < j < images.len() && hamming(images[i].phash, images[j].phash) <= threshold
                ==> candidates(images, threshold).contains((i as usize, j as usize)),
        forall|i: int, j: int|
            #![trigger images[i], images[j]]
            0 <= i < j < images.len() && images[i].md5.len() > 0 && images[i].md5 == images[j].md5
                ==> candidates(images, threshold).contains((i as usize, j as usize)),
        forall|k: int|
            0 <= k < candidates(images, threshold).len() ==> ({
                let (i, j) = #[trigger] candidates(images, threshold)[k];
                i < j < images.len() && (hamming(images[i as int].phash, images[j as int].phash)
                    <= threshold || (images[i as int].md5.len() > 0 && images[i as int].md5
                    == images[j as int].md5))
            }),
        forall|k: int, l: int|
            0 <= k < l < candidates(images, threshold).len() ==> ({
                let p = #[trigger] candidates(images, threshold)[k];
                let q = #[trigger] candidates(images, threshold)[l];
                p.0 < q.0 || (p.0 == q.0 && p.1 < q.1)
            }),
{
    candidates_are_complete(images, threshold);
    assert forall|i: int, j: int|
        #![trigger images[i], images[j]]
        0 <= i < j < images.len() && (hamming(images[i].phash, images[j].phash) <= threshold || (
        images[i].md5.len() > 0 && images[i].md5
            == images[j].md5)) implies candidates(images, threshold).contains(
        (i as usize, j as usize),
    ) by {
        assert(is_candidate(images[i], images[j], threshold));
    }
    assert forall|k: int, l: int| 0 <= k < l < candidates(images, threshold).len() implies ({
        let p = #[trigger] candidates(images, threshold)[k];
        let q = #[trigger] candidates(images, threshold)[l];
        p.0 < q.0 || (p.0 == q.0 && p.1 < q.1)
    }) by {
        assert(lexicographic(candidates(images, threshold)[k], candidates(images, threshold)[l]));
    }
}

/// A wider threshold finds no fewer candidates.
pub proof fn a_wider_threshold_finds_no_fewer_candidates(
    images: Seq<ImageModel>,
    narrow: u32,
    wide: u32,
    pair: (usize, usize),
)
    requires
        images.len() <= usize::MAX,
        narrow <= wide,
        candidates(images, narrow).contains(pair),
    ensures
        candidates(images, wide).contains(pair),
{
    close_images_are_candidates(images, narrow);
    close_images_are_candidates(images, wide);
    let k = choose|k: int| 0 <= k < candidates(images, narrow).len() && candidates(images, narrow)[k]
        == pair;
    let (i, j) = candidates(images, narrow)[k];
    assert(0 <= i < j < images.len());
    let (a, b) = (images[i as int], images[j as int]);
}

/// The list of candidates holds every pair of images that is one, none other, and each
/// just once, in lexicographic order.
pub proof fn candidates_are_complete(images: Seq<ImageModel>, threshold: u32)
    requires
        images.len() <= usize::MAX,
    ensures
        forall|k: int|
            0 <= k < candidates(images, threshold).len() ==> ({
                let (i, j) = #[trigger] candidates(images, threshold)[k];
                i < j < images.len() && is_candidate(images[i as int], images[j as int], threshold)
            }),
        forall|i: int, j: int|
            0 <= i < j < images.len() && is_candidate(
                #[trigger] images[i],
                #[trigger] images[j],
                threshold,
            ) ==> candidates(images, threshold).contains((i as usize, j as usize)),
        forall|k: int, l: int|
            0 <= k < l < candidates(images, threshold).len() ==> lexicographic(
                #[trigger] candidates(images, threshold)[k],
                #[trigger] candidates(images, threshold)[l],
            ),
{
    lemma_rows(images, threshold, images.len() as int);
}

/// The place of the pair that a finding came from.
pub proof fn source_of_finding(
    images: Seq<ImageModel>,
    pairs: Seq<(usize, usize)>,
    ssim: Seq<Option<Binary64>>,
    threshold: Binary64,
    k: int,
    f: int,
) -> (p: int)
    requires
        0 <= k <= pairs.len(),
        0 <= f < verified_below(images, pairs, ssim, threshold, k).len(),
    ensures
        0 <= p < k,
        came_from(
            images,
            pairs,
            ssim,
            threshold,
            p,
            verified_below(images, pairs, ssim, threshold, k)[f],
        ),
    decreases k,
{
    let before = verified_below(images, pairs, ssim, threshold, k - 1);
    if f < before.len() {
        source_of_finding(images, pairs, ssim, threshold, k - 1, f)
    } else {
        k - 1
    }
}

/// The place of the finding that a pair led to.
pub proof fn finding_of_pair(
    images: Seq<ImageModel>,
    pairs: Seq<(usize, usize)>,
    ssim: Seq<Option<Binary64>>,
    threshold: Binary64,
    k: int,
    p: int,
) -> (f: int)
    requires
        0 <= p < k <= pairs.len(),
        judgement(images[pairs[p].0 as int], images[pairs[p].1 as int], ssim[p], threshold) is Some,
    ensures
        0 <= f < verified_below(images, pairs, ssim, threshold, k).len(),
        came_from(
            images,
            pairs,
            ssim,
            threshold,
            p,
            verified_below(images, pairs, ssim, threshold, k)[f],
        ),
    decreases k,
{
    let before = verified_below(images, pairs, ssim, threshold, k - 1);
    if p < k - 1 {
        finding_of_pair(images, pairs, ssim, threshold, k - 1, p)
    } else {
        before.len() as int
    }
}

/// Whether `found` is what was found of the pair at the place `p`.
pub open spec fn came_from(
    images: Seq<ImageModel>,
    pairs: Seq<(usize, usize)>,
    ssim: Seq<Option<Binary64>>,
    threshold: Binary64,
    p: int,
    found: VerifiedPair,
) -> bool {
    &&& (found.a, found.b) == pairs[p]
    &&& judgement(images[found.a as int], images[found.b as int], ssim[p], threshold) == Some(
        (found.score, found.high),
    )
}

/// Where the findings come from: one place for each of them, in rising order, so that the
/// findings stand in the order of their pairs and no pair is found twice. Each is the pair at
/// its place with the similarity there, or 1.0 where the files are equal.
pub proof fn findings_follow_their_pairs(
    images: Seq<ImageModel>,
    pairs: Seq<(usize, usize)>,
    ssim: Seq<Option<Binary64>>,
    threshold: Binary64,
) -> (places: Seq<int>)
    ensures
        places.len() == verified(images, pairs, ssim, threshold).len(),
        forall|f: int|
            #![trigger places[f]]
            0 <= f < places.len() ==> 0 <= places[f] < pairs.len() && ({
                let found = verified(images, pairs, ssim, threshold)[f];
                let a = images[found.a as int];
                let b = images[found.b as int];
                let equal = a.md5.len() > 0 && a.md5 == b.md5;
                &&& (found.a, found.b) == pairs[places[f]]
                &&& equal ==> found.score.bits == 0x3FF0_0000_0000_0000 && found.high
                &&& !equal ==> ssim[places[f]] == Some(found.score) && !found.score.lt(threshold)
                    && (found.high <==> found.score.ge(
                    Binary64 { bits: 0x3FEF_5C28_F5C2_8F5C },
                ) || hamming(a.dhash, b.dhash) <= 10)
            }),
        forall|f: int, g: int|
            0 <= f < g < places.len() ==> #[trigger] places[f] < #[trigger] places[g],
{
    lemma_places(images, pairs, ssim, threshold, pairs.len() as int)
}

proof fn lemma_places(
    images: Seq<ImageModel>,
    pairs: Seq<(usize, usize)>,
    ssim: Seq<Option<Binary64>>,
    threshold: Binary64,
    k: int,
) -> (places: Seq<int>)
    requires
        0 <= k <= pairs.len(),
    ensures
        places.len() == verified_below(images, pairs, ssim, threshold, k).len(),
        forall|f: int|
            #![trigger places[f]]
            0 <= f < places.len() ==> 0 <= places[f] < k && ({
                let found = verified_below(images, pairs, ssim, threshold, k)[f];
                let a = images[found.a as int];
                let b = images[found.b as int];
                let equal = a.md5.len() > 0 && a.md5 == b.md5;
                &&& (found.a, found.b) == pairs[places[f]]
                &&& equal ==> found.score.bits == 0x3FF0_0000_0000_0000 && found.high
                &&& !equal ==> ssim[places[f]] == Some(found.score) && !found.score.lt(threshold)
                    && (found.high <==> found.score.ge(
                    Binary64 { bits: 0x3FEF_5C28_F5C2_8F5C },
                ) || hamming(a.dhash, b.dhash) <= 10)
            }),
        forall|f: int, g: int|
            0 <= f < g < places.len() ==> #[trigger] places[f] < #[trigger] places[g],
    decreases k,
{
    if k == 0 {
        Seq::empty()
    } else {
        let before = lemma_places(images, pairs, ssim, threshold, k - 1);
        let (a, b) = pairs[k - 1];
        if judgement(images[a as int], images[b as int], ssim[k - 1], threshold) is Some {
            before.push(k - 1)
        } else {
            before
        }
    }
}

/// Every similar pair is found. A pair of different files whose similarity is known and not
/// below the threshold is among the findings, with that similarity as its score.
pub proof fn similar_pairs_are_found(
    images: Seq<ImageModel>,
    pairs: Seq<(usize, usize)>,
    ssim: Seq<Option<Binary64>>,
    threshold: Binary64,
    p: int,
    s: Binary64,
) -> (f: int)
    requires
        0 <= p < pairs.len(),
        images[pairs[p].0 as int].md5 != images[pairs[p].1 as int].md5
            || images[pairs[p].0 as int].md5.len() == 0,
        ssim[p] == Some(s),
        !s.lt(threshold),
    ensures
        0 <= f < verified(images, pairs, ssim, threshold).len(),
        ({
            let found = verified(images, pairs, ssim, threshold)[f];
            &&& (found.a, found.b) == pairs[p]
            &&& found.score == s
            &&& found.high <==> s.ge(Binary64 { bits: 0x3FEF_5C28_F5C2_8F5C }) || hamming(
                images[pairs[p].0 as int].dhash,
                images[pairs[p].1 as int].dhash,
            ) <= 10
        }),
{
    the_similarity_alone_decides(
        images[pairs[p].0 as int],
        images[pairs[p].1 as int],
        s,
        threshold,
    );
    finding_of_pair(images, pairs, ssim, threshold, pairs.len() as int, p)
}

/// Every pair of files with the same digest is found, with the score 1.0 and high confidence.
pub proof fn equal_pairs_are_found(
    images: Seq<ImageModel>,
    pairs: Seq<(usize, usize)>,
    ssim: Seq<Option<Binary64>>,
    threshold: Binary64,
    p: int,
) -> (f: int)
    requires
        0 <= p < pairs.len(),
        images[pairs[p].0 as int].md5 == images[pairs[p].1 as int].md5,
        images[pairs[p].0 as int].md5.len() > 0,
    ensures
        0 <= f < verified(images, pairs, ssim, threshold).len(),
        ({
            let found = verified(images, pairs, ssim, threshold)[f];
            &&& (found.a, found.b) == pairs[p]
            &&& found.score.bits == 0x3FF0_0000_0000_0000
            &&& found.high
        }),
{
    equal_files_are_always_found(
        images[pairs[p].0 as int],
        images[pairs[p].1 as int],
        ssim[p],
        threshold,
    );
    finding_of_pair(images, pairs, ssim, threshold, pairs.len() as int, p)
}

/// What was found of the candidates: `ssim` holds the similarity of each.
pub open spec fn findings(
    images: Seq<ImageModel>,
    phash_threshold: u32,
    ssim_threshold: Binary64,
    ssim: Seq<Option<Binary64>>,
) -> Seq<VerifiedPair> {
    verified(images, candidates(images, phash_threshold), ssim, ssim_threshold)
}

/// The search is complete, told by the images and their similarities alone: where
/// `similarity` is that of every two images, any two different files whose perceptual hashes
/// are within the threshold, and whose similarity is known and not below the other, are found
/// with it as their score.
pub proof fn similar_images_are_found(
    images: Seq<ImageModel>,
    phash_threshold: u32,
    ssim_threshold: Binary64,
    ssim: Seq<Option<Binary64>>,
    similarity: spec_fn(int, int) -> Option<Binary64>,
    i: int,
    j: int,
    s: Binary64,
) -> (f: int)
    requires
        images.len() <= usize::MAX,
        forall|p: int|
            #![trigger ssim[p]]
            0 <= p < candidates(images, phash_threshold).len() ==> ssim[p] == similarity(
                candidates(images, phash_threshold)[p].0 as int,
                candidates(images, phash_threshold)[p].1 as int,
            ),
        0 <= i < j < images.len(),
        images[i].md5 != images[j].md5 || images[i].md5.len() == 0,
        hamming(images[i].phash, images[j].phash) <= phash_threshold,
        similarity(i, j) == Some(s),
        !s.lt(ssim_threshold),
    ensures
        0 <= f < findings(images, phash_threshold, ssim_threshold, ssim).len(),
        ({
            let found = findings(images, phash_threshold, ssim_threshold, ssim)[f];
            &&& found.a == i
            &&& found.b == j
            &&& found.score == s
            &&& found.high <==> s.ge(Binary64 { bits: 0x3FEF_5C28_F5C2_8F5C }) || hamming(
                images[i].dhash,
                images[j].dhash,
            ) <= 10
        }),
{
    let pairs = candidates(images, phash_threshold);
    close_images_are_candidates(images, phash_threshold);
    assert(pairs.contains((i as usize, j as usize)));
    let p = choose|p: int| 0 <= p < pairs.len() && pairs[p] == (i as usize, j as usize);
    assert(ssim[p] == Some(s));
    similar_pairs_are_found(images, pairs, ssim, ssim_threshold, p, s)
}

/// Finds the groups of duplicates. `pairs` are the [`candidate_pairs`] of the images, and
/// `ssim` holds the similarity of each; it is not looked at for equal files, and absent
/// where a file could not be read.
///
/// [`candidate_pairs`]: crate::pairs::candidate_pairs
pub fn find_duplicates(
    images: &Vec<ImageInfo>,
    pairs: &Vec<(usize, usize)>,
    ssim: &Vec<Option<Binary64>>,
    ssim_threshold: Binary64,
) -> (r: Vec<DuplicateGroup>)
    requires
        ssim@.len() == pairs@.len(),
        forall|k: int|
            0 <= k < pairs@.len() ==> (#[trigger] pairs@[k]).0 < images@.len() && pairs@[k].1
                < images@.len(),
    ensures
        are_the_groups(
            models(images@),
            verified(models(images@), pairs@, ssim@, ssim_threshold),
            group_models(r@),
        ),
        models(images@) == Seq::new(images@.len(), |i: int| images@[i]@),
        group_models(r@) == Seq::new(r@.len(), |k: int| r@[k]@),
{
    let n: usize = images.len();
    let ghost all = models(images@);
    if n < 2 {
        let none: Vec<DuplicateGroup> = Vec::new();
        proof {
            let found = verified(all, pairs@, ssim@, ssim_threshold);
            assert(presents(all, found, Seq::<Seq<int>>::empty(), group_models(none@)));
            assert(all =~= Seq::new(images@.len(), |i: int| images@[i]@));
            assert(group_models(none@) =~= Seq::new(none@.len(), |k: int| none@[k]@));
        }
        return none;
    }
    let found: Vec<VerifiedPair> = verify_pairs(images, pairs, ssim, ssim_threshold);
    proof {
        assert forall|f: int| 0 <= f < found@.len() implies (#[trigger] found@[f]).a
            < images@.len() && found@[f].b < images@.len() by {
            let p = source_of_finding(
                all,
                pairs@,
                ssim@,
                ssim_threshold,
                pairs@.len() as int,
                f,
            );
            assert(pairs@[p] == (found@[f].a, found@[f].b));
        }
    }
    group_duplicates(images, &found)
}

} // verus!
