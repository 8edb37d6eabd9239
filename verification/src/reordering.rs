//! The groups do not depend on the order in which the images are listed.
use vstd::prelude::*;

use crate::binary64::Binary64;
use crate::bits::hamming_is_a_metric;
use crate::connect::{connected, is_chain, joins, leads, linked};
use crate::dedup::{
    came_from, candidates_are_complete, finding_of_pair, findings, source_of_finding,
};
use crate::groups::{
    all_high, are_the_groups, group_of, is_group, is_layout, outranks, pair_within, paths_of,
    presents,
};
use crate::info::{GroupModel, ImageModel};
use crate::pairs::{candidates, is_candidate, judgement, VerifiedPair};

verus! {

/// Whether `other` lists the same images as `images` in another order: image `i` of the one
/// list is image `to[i]` of the other, and image `j` of the other is image `from[j]` of the
/// one.
pub open spec fn is_reordering(
    images: Seq<ImageModel>,
    other: Seq<ImageModel>,
    to: Seq<int>,
    from: Seq<int>,
) -> bool {
    &&& images.len() == other.len() == to.len() == from.len()
    &&& forall|i: int|
        0 <= i < images.len() ==> 0 <= #[trigger] to[i] < other.len() && from[to[i]] == i
            && other[to[i]] == images[i]
    &&& forall|j: int|
        0 <= j < other.len() ==> 0 <= #[trigger] from[j] < images.len() && to[from[j]] == j
            && images[from[j]] == other[j]
}

/// Whether `q` is the pair of the same two images as `p`, either way round.
pub open spec fn same_pair(p: (usize, usize), q: (usize, usize), to: Seq<int>) -> bool {
    ||| q.0 == to[p.0 as int] && q.1 == to[p.1 as int]
    ||| q.0 == to[p.1 as int] && q.1 == to[p.0 as int]
}

/// Whether a similarity moves with its pair: two images are as similar in the one list as
/// in the other, whichever of them comes first.
pub open spec fn same_similarities(
    pairs: Seq<(usize, usize)>,
    ssim: Seq<Option<Binary64>>,
    other_pairs: Seq<(usize, usize)>,
    other_ssim: Seq<Option<Binary64>>,
    to: Seq<int>,
) -> bool {
    forall|p: int, q: int|
        0 <= p < pairs.len() && 0 <= q < other_pairs.len() && #[trigger] same_pair(
            pairs[p],
            other_pairs[q],
            to,
        ) ==> ssim[p] == other_ssim[q]
}

/// Whether every finding is one of the other list too: a pair of the same two images, of
/// the same confidence.
spec fn carries_over(found: Seq<VerifiedPair>, other: Seq<VerifiedPair>, to: Seq<int>) -> bool {
    forall|f: int| 0 <= f < found.len() ==> has_counterpart(#[trigger] found[f], other, to)
}

spec fn is_counterpart(pair: VerifiedPair, other: VerifiedPair, to: Seq<int>) -> bool {
    same_pair((pair.a, pair.b), (other.a, other.b), to) && pair.high == other.high
}

spec fn has_counterpart(pair: VerifiedPair, other: Seq<VerifiedPair>, to: Seq<int>) -> bool {
    exists|g: int| 0 <= g < other.len() && is_counterpart(pair, #[trigger] other[g], to)
}

proof fn lemma_judgement_both_ways(
    a: ImageModel,
    b: ImageModel,
    ssim: Option<Binary64>,
    threshold: Binary64,
    phash_threshold: u32,
)
    ensures
        judgement(a, b, ssim, threshold) == judgement(b, a, ssim, threshold),
        is_candidate(a, b, phash_threshold) == is_candidate(b, a, phash_threshold),
{
    hamming_is_a_metric(a.dhash, b.dhash, 0);
    hamming_is_a_metric(a.phash, b.phash, 0);
}

proof fn lemma_findings_carry_over(
    images: Seq<ImageModel>,
    other: Seq<ImageModel>,
    to: Seq<int>,
    from: Seq<int>,
    phash_threshold: u32,
    ssim_threshold: Binary64,
    ssim: Seq<Option<Binary64>>,
    other_ssim: Seq<Option<Binary64>>,
)
    requires
        images.len() <= usize::MAX,
        is_reordering(images, other, to, from),
        same_similarities(
            candidates(images, phash_threshold),
            ssim,
            candidates(other, phash_threshold),
            other_ssim,
            to,
        ),
    ensures
        carries_over(
            findings(images, phash_threshold, ssim_threshold, ssim),
            findings(other, phash_threshold, ssim_threshold, other_ssim),
            to,
        ),
        forall|f: int|
            0 <= f < findings(images, phash_threshold, ssim_threshold, ssim).len() ==> (
            #[trigger] findings(images, phash_threshold, ssim_threshold, ssim)[f]).a
                < images.len() && findings(images, phash_threshold, ssim_threshold, ssim)[f].b
                < images.len(),
{
    let pairs = candidates(images, phash_threshold);
    let other_pairs = candidates(other, phash_threshold);
    let found = findings(images, phash_threshold, ssim_threshold, ssim);
    let other_found = findings(other, phash_threshold, ssim_threshold, other_ssim);
    candidates_are_complete(images, phash_threshold);
    candidates_are_complete(other, phash_threshold);
    assert forall|f: int| 0 <= f < found.len() implies (#[trigger] found[f]).a < images.len()
        && found[f].b < images.len() && has_counterpart(found[f], other_found, to) by {
        let p = source_of_finding(images, pairs, ssim, ssim_threshold, pairs.len() as int, f);
        assert(came_from(images, pairs, ssim, ssim_threshold, p, found[f]));
        let (i, j) = pairs[p];
        let a = to[i as int];
        let b = to[j as int];
        assert(from[a] == i && from[b] == j);
        let x = if a < b { a } else { b };
        let y = if a < b { b } else { a };
        lemma_judgement_both_ways(
            images[i as int],
            images[j as int],
            ssim[p],
            ssim_threshold,
            phash_threshold,
        );
        assert(is_candidate(other[x], other[y], phash_threshold));
        let moved = (x as usize, y as usize);
        assert(other_pairs.contains(moved));
        let q = choose|q: int| 0 <= q < other_pairs.len() && other_pairs[q] == moved;
        assert(same_pair(pairs[p], other_pairs[q], to));
        assert(ssim[p] == other_ssim[q]);
        let g = finding_of_pair(
            other,
            other_pairs,
            other_ssim,
            ssim_threshold,
            other_pairs.len() as int,
            q,
        );
        assert(came_from(other, other_pairs, other_ssim, ssim_threshold, q, other_found[g]));
        assert(is_counterpart(found[f], other_found[g], to));
    }
}

proof fn lemma_connections_carry_over(
    found: Seq<VerifiedPair>,
    other: Seq<VerifiedPair>,
    to: Seq<int>,
    n: int,
    x: int,
    y: int,
)
    requires
        carries_over(found, other, to),
        to.len() == n,
        forall|f: int| 0 <= f < found.len() ==> (#[trigger] found[f]).a < n && found[f].b < n,
        0 <= x < n,
        0 <= y < n,
        connected(found, x, y),
    ensures
        connected(other, to[x], to[y]),
{
    let chain = choose|chain: Seq<int>| #[trigger] leads(found, chain, x, y);
    let moved = Seq::new(chain.len(), |i: int| to[chain[i]]);
    assert forall|i: int| 0 <= i < moved.len() - 1 implies linked(
        other,
        #[trigger] moved[i],
        moved[i + 1],
    ) by {
        assert(linked(found, chain[i], chain[i + 1]));
        let f = choose|f: int|
            0 <= f < found.len() && joins(#[trigger] found[f], chain[i], chain[i + 1]);
        assert(has_counterpart(found[f], other, to));
        let g = choose|g: int|
            0 <= g < other.len() && is_counterpart(found[f], #[trigger] other[g], to);
        assert(joins(other[g], moved[i], moved[i + 1]));
    }
    assert(is_chain(other, moved));
    assert(moved.first() == to[x]);
    assert(moved.last() == to[y]);
    assert(leads(other, moved, to[x], to[y]));
}

/// The paths of the images that a group shows.
pub open spec fn shown_paths(group: GroupModel) -> Set<Seq<char>> {
    group.duplicates.map_values(|d: ImageModel| d.path).to_set().insert(group.keeper.path)
}

proof fn lemma_shown_paths(images: Seq<ImageModel>, pairs: Seq<VerifiedPair>, members: Seq<int>)
    requires
        members.len() >= 1,
    ensures
        shown_paths(group_of(images, pairs, members)) == paths_of(images, members),
{
    let group = group_of(images, pairs, members);
    let rest = group.duplicates.map_values(|d: ImageModel| d.path);
    let all = members.map_values(|i: int| images[i].path);
    assert forall|p: Seq<char>| #[trigger] shown_paths(group).contains(p) <==> paths_of(
        images,
        members,
    ).contains(p) by {
        if rest.contains(p) {
            let k = choose|k: int| 0 <= k < rest.len() && rest[k] == p;
            assert(all[k + 1] == p);
        }
        if p == group.keeper.path {
            assert(all[0] == p);
        }
        if all.contains(p) {
            let k = choose|k: int| 0 <= k < all.len() && all[k] == p;
            if k > 0 {
                assert(rest[k - 1] == p);
            }
        }
    }
    assert(shown_paths(group) =~= paths_of(images, members));
}

/// Whether one of the groups shows files at just these paths.
pub open spec fn some_group_shows(groups: Seq<GroupModel>, paths: Set<Seq<char>>) -> bool {
    exists|l: int| 0 <= l < groups.len() && shown_paths(#[trigger] groups[l]) == paths
}

proof fn lemma_groups_carry_over(
    images: Seq<ImageModel>,
    other: Seq<ImageModel>,
    to: Seq<int>,
    from: Seq<int>,
    found: Seq<VerifiedPair>,
    other_found: Seq<VerifiedPair>,
    groups: Seq<GroupModel>,
    other_groups: Seq<GroupModel>,
    k: int,
)
    requires
        is_reordering(images, other, to, from),
        carries_over(found, other_found, to),
        carries_over(other_found, found, from),
        forall|f: int|
            0 <= f < found.len() ==> (#[trigger] found[f]).a < images.len() && found[f].b
                < images.len(),
        forall|f: int|
            0 <= f < other_found.len() ==> (#[trigger] other_found[f]).a < other.len()
                && other_found[f].b < other.len(),
        are_the_groups(images, found, groups),
        are_the_groups(other, other_found, other_groups),
        0 <= k < groups.len(),
    ensures
        some_group_shows(other_groups, shown_paths(groups[k])),
{
    let n = images.len() as int;
    let layout = choose|l: Seq<Seq<int>>| #[trigger] presents(images, found, l, groups);
    let other_layout = choose|l: Seq<Seq<int>>| #[trigger]
        presents(other, other_found, l, other_groups);
    let m = layout[k];
    assert(groups[k] == group_of(images, found, m));
    assert(is_group(images, found, m));
    assert(outranks(images, m[0], m[1]));
    assert(m.contains(m[0]) && m.contains(m[1]));
    assert(connected(found, m[0], m[1]));
    lemma_connections_carry_over(found, other_found, to, n, m[0], m[1]);
    assert(to[m[0]] != to[m[1]]) by {
        assert(from[to[m[0]]] == m[0] && from[to[m[1]]] == m[1]);
    }
    assert(is_layout(other, other_found, other_layout));
    let l = choose|l: int|
        0 <= l < other_layout.len() && (#[trigger] other_layout[l]).contains(to[m[0]]);
    let o = other_layout[l];
    assert(other_groups[l] == group_of(other, other_found, o));
    assert(is_group(other, other_found, o));
    let q0 = choose|q: int| 0 <= q < o.len() && o[q] == to[m[0]];
    let paths = m.map_values(|i: int| images[i].path);
    let other_paths = o.map_values(|i: int| other[i].path);
    assert forall|p: Seq<char>| #[trigger] paths_of(images, m).contains(p) <==> paths_of(
        other,
        o,
    ).contains(p) by {
        if paths.contains(p) {
            let i = choose|i: int| 0 <= i < paths.len() && paths[i] == p;
            assert(0 <= m[i] < n);
            assert(m.contains(m[i]));
            assert(connected(found, m[0], m[i]));
            lemma_connections_carry_over(found, other_found, to, n, m[0], m[i]);
            assert(connected(other_found, o[q0], to[m[i]]));
            assert(o.contains(to[m[i]]));
            let j = choose|j: int| 0 <= j < o.len() && o[j] == to[m[i]];
            assert(other_paths[j] == p);
        }
        if other_paths.contains(p) {
            let j = choose|j: int| 0 <= j < other_paths.len() && other_paths[j] == p;
            assert(0 <= o[j] < n);
            assert(o.contains(o[j]));
            assert(connected(other_found, o[q0], o[j]));
            lemma_connections_carry_over(other_found, found, from, n, o[q0], o[j]);
            assert(connected(found, m[0], from[o[j]]));
            assert(m.contains(from[o[j]]));
            let i = choose|i: int| 0 <= i < m.len() && m[i] == from[o[j]];
            assert(paths[i] == p);
        }
    }
    assert(paths_of(images, m) =~= paths_of(other, o));
    lemma_shown_paths(images, found, m);
    lemma_shown_paths(other, other_found, o);
    assert(shown_paths(other_groups[l]) == shown_paths(groups[k]));
}

proof fn lemma_doubt_carries_over(
    images: Seq<ImageModel>,
    other: Seq<ImageModel>,
    to: Seq<int>,
    from: Seq<int>,
    found: Seq<VerifiedPair>,
    other_found: Seq<VerifiedPair>,
    members: Seq<int>,
    other_members: Seq<int>,
)
    requires
        is_reordering(images, other, to, from),
        carries_over(found, other_found, to),
        forall|f: int|
            0 <= f < found.len() ==> (#[trigger] found[f]).a < images.len() && found[f].b
                < images.len(),
        paths_of(images, members) == paths_of(other, other_members),
        all_high(other, other_found, other_members),
    ensures
        all_high(images, found, members),
{
    assert forall|f: int|
        0 <= f < found.len() && pair_within(images, members, #[trigger] found[f]) implies found[f].high by {
        assert(has_counterpart(found[f], other_found, to));
        let g = choose|g: int|
            0 <= g < other_found.len() && is_counterpart(found[f], #[trigger] other_found[g], to);
        assert(other[to[found[f].a as int]] == images[found[f].a as int]);
        assert(other[to[found[f].b as int]] == images[found[f].b as int]);
        assert(pair_within(other, other_members, other_found[g]));
    }
}

proof fn lemma_similarities_move_back(
    images: Seq<ImageModel>,
    other: Seq<ImageModel>,
    to: Seq<int>,
    from: Seq<int>,
    phash_threshold: u32,
    ssim: Seq<Option<Binary64>>,
    other_ssim: Seq<Option<Binary64>>,
)
    requires
        images.len() <= usize::MAX,
        is_reordering(images, other, to, from),
        same_similarities(
            candidates(images, phash_threshold),
            ssim,
            candidates(other, phash_threshold),
            other_ssim,
            to,
        ),
    ensures
        same_similarities(
            candidates(other, phash_threshold),
            other_ssim,
            candidates(images, phash_threshold),
            ssim,
            from,
        ),
{
    let pairs = candidates(images, phash_threshold);
    let other_pairs = candidates(other, phash_threshold);
    candidates_are_complete(images, phash_threshold);
    candidates_are_complete(other, phash_threshold);
    assert forall|q: int, p: int|
        0 <= q < other_pairs.len() && 0 <= p < pairs.len() && #[trigger] same_pair(
            other_pairs[q],
            pairs[p],
            from,
        ) implies other_ssim[q] == ssim[p] by {
        let (x, y) = other_pairs[q];
        let (i, j) = pairs[p];
        assert(to[from[x as int]] == x && to[from[y as int]] == y);
        assert(same_pair(pairs[p], other_pairs[q], to));
    }
}

/// The order in which the images are listed does not matter. Where each similarity moves
/// with its pair, the groups show the same sets of paths, and two groups that show the same
/// paths are of the same confidence.
pub proof fn the_order_of_the_images_does_not_matter(
    images: Seq<ImageModel>,
    other: Seq<ImageModel>,
    to: Seq<int>,
    from: Seq<int>,
    phash_threshold: u32,
    ssim_threshold: Binary64,
    ssim: Seq<Option<Binary64>>,
    other_ssim: Seq<Option<Binary64>>,
    groups: Seq<GroupModel>,
    other_groups: Seq<GroupModel>,
)
    requires
        images.len() <= usize::MAX,
        is_reordering(images, other, to, from),
        same_similarities(
            candidates(images, phash_threshold),
            ssim,
            candidates(other, phash_threshold),
            other_ssim,
            to,
        ),
        are_the_groups(images, findings(images, phash_threshold, ssim_threshold, ssim), groups),
        are_the_groups(
            other,
            findings(other, phash_threshold, ssim_threshold, other_ssim),
            other_groups,
        ),
    ensures
        forall|paths: Set<Seq<char>>| #[trigger]
            some_group_shows(groups, paths) <==> some_group_shows(other_groups, paths),
        forall|k: int, l: int|
            0 <= k < groups.len() && 0 <= l < other_groups.len() && shown_paths(
                #[trigger] groups[k],
            ) == shown_paths(#[trigger] other_groups[l]) ==> groups[k].confidence
                == other_groups[l].confidence,
{
    let found = findings(images, phash_threshold, ssim_threshold, ssim);
    let other_found = findings(other, phash_threshold, ssim_threshold, other_ssim);
    lemma_similarities_move_back(images, other, to, from, phash_threshold, ssim, other_ssim);
    lemma_findings_carry_over(
        images,
        other,
        to,
        from,
        phash_threshold,
        ssim_threshold,
        ssim,
        other_ssim,
    );
    lemma_findings_carry_over(
        other,
        images,
        from,
        to,
        phash_threshold,
        ssim_threshold,
        other_ssim,
        ssim,
    );
    assert forall|paths: Set<Seq<char>>| #[trigger]
        some_group_shows(groups, paths) <==> some_group_shows(other_groups, paths) by {
        if some_group_shows(groups, paths) {
            let k = choose|k: int|
                0 <= k < groups.len() && shown_paths(#[trigger] groups[k]) == paths;
            lemma_groups_carry_over(
                images,
                other,
                to,
                from,
                found,
                other_found,
                groups,
                other_groups,
                k,
            );
        }
        if some_group_shows(other_groups, paths) {
            let l = choose|l: int|
                0 <= l < other_groups.len() && shown_paths(#[trigger] other_groups[l]) == paths;
            lemma_groups_carry_over(
                other,
                images,
                from,
                to,
                other_found,
                found,
                other_groups,
                groups,
                l,
            );
        }
    }
    let layout = choose|l: Seq<Seq<int>>| #[trigger] presents(images, found, l, groups);
    let other_layout = choose|l: Seq<Seq<int>>| #[trigger]
        presents(other, other_found, l, other_groups);
    assert forall|k: int, l: int|
        0 <= k < groups.len() && 0 <= l < other_groups.len() && shown_paths(
            #[trigger] groups[k],
        ) == shown_paths(#[trigger] other_groups[l]) implies groups[k].confidence
        == other_groups[l].confidence by {
        let m = layout[k];
        let o = other_layout[l];
        assert(groups[k] == group_of(images, found, m));
        assert(other_groups[l] == group_of(other, other_found, o));
        assert(is_group(images, found, m));
        assert(is_group(other, other_found, o));
        lemma_shown_paths(images, found, m);
        lemma_shown_paths(other, other_found, o);
        if all_high(other, other_found, o) {
            lemma_doubt_carries_over(images, other, to, from, found, other_found, m, o);
        }
        if all_high(images, found, m) {
            lemma_doubt_carries_over(other, images, from, to, other_found, found, o, m);
        }
    }
}

} // verus!
