//! What can be relied on of the groups of duplicates.
use vstd::prelude::*;

use crate::binary64::{Binary64, ONE_BITS};
use crate::bits::hamming;
use crate::connect::{a_pair_connects, connected};
use crate::dedup::{
    candidates_are_complete, finding_of_pair, findings, similar_images_are_found,
    source_of_finding,
};
use crate::groups::{
    all_high, are_the_groups, group_of, is_group, is_layout, listed_before, outranks,
    pair_of_paths, pair_within, paths_of, presents, score_from, size_below,
};
use crate::info::{same_digest, GroupModel, ImageModel};
use crate::pairs::{
    candidates, is_candidate, judgement, VerifiedPair, DHASH_AGREE_DISTANCE, STRICT_SSIM_BITS,
};

verus! {

proof fn lemma_sorted_alike<A>(s: Seq<A>, t: Seq<A>, before: spec_fn(A, A) -> bool)
    requires
        forall|x: A, y: A| !(#[trigger] before(x, y) && before(y, x)),
        forall|i: int, j: int|
            0 <= i < j < s.len() ==> before(#[trigger] s[i], #[trigger] s[j]),
        forall|i: int, j: int|
            0 <= i < j < t.len() ==> before(#[trigger] t[i], #[trigger] t[j]),
        forall|x: A| #[trigger] s.contains(x) <==> t.contains(x),
    ensures
        s == t,
    decreases s.len(),
{
    if s.len() == 0 {
        if t.len() > 0 {
            assert(t.contains(t[0]));
            assert(s.contains(t[0]));
        }
        assert(s =~= t);
    } else {
        assert(s.contains(s[0]));
        assert(t.contains(s[0]));
        let j = choose|j: int| 0 <= j < t.len() && t[j] == s[0];
        assert(t.contains(t[0]));
        assert(s.contains(t[0]));
        let i = choose|i: int| 0 <= i < s.len() && s[i] == t[0];
        if j > 0 {
            assert(before(t[0], t[j]));
            if i > 0 {
                assert(before(s[0], s[i]));
            }
            assert(!(before(t[0], s[0]) && before(s[0], t[0])));
        }
        assert(s[0] == t[0]);
        let s1 = s.drop_first();
        let t1 = t.drop_first();
        assert forall|x: A| #[trigger] s1.contains(x) <==> t1.contains(x) by {
            if s1.contains(x) {
                let k = choose|k: int| 0 <= k < s1.len() && s1[k] == x;
                assert(s[k + 1] == x);
                assert(before(s[0], s[k + 1]));
                assert(s.contains(x));
                let l = choose|l: int| 0 <= l < t.len() && t[l] == x;
                assert(l > 0);
                assert(t1[l - 1] == x);
            }
            if t1.contains(x) {
                let k = choose|k: int| 0 <= k < t1.len() && t1[k] == x;
                assert(t[k + 1] == x);
                assert(before(t[0], t[k + 1]));
                assert(t.contains(x));
                assert(s.contains(x));
                let l = choose|l: int| 0 <= l < s.len() && s[l] == x;
                assert(l > 0);
                assert(s1[l - 1] == x);
            }
        }
        assert forall|i: int, j: int| 0 <= i < j < s1.len() implies before(
            #[trigger] s1[i],
            #[trigger] s1[j],
        ) by {
            assert(before(s[i + 1], s[j + 1]));
        }
        assert forall|i: int, j: int| 0 <= i < j < t1.len() implies before(
            #[trigger] t1[i],
            #[trigger] t1[j],
        ) by {
            assert(before(t[i + 1], t[j + 1]));
        }
        lemma_sorted_alike(s1, t1, before);
        assert(s =~= seq![s[0]] + s1);
        assert(t =~= seq![t[0]] + t1);
    }
}

/// Two groups that share an image are the same group.
pub proof fn groups_do_not_overlap(
    images: Seq<ImageModel>,
    pairs: Seq<VerifiedPair>,
    m: Seq<int>,
    o: Seq<int>,
    x: int,
)
    requires
        is_group(images, pairs, m),
        is_group(images, pairs, o),
        m.contains(x),
        o.contains(x),
    ensures
        m == o,
{
    let p = choose|p: int| 0 <= p < m.len() && m[p] == x;
    let q = choose|q: int| 0 <= q < o.len() && o[q] == x;
    assert forall|y: int| #[trigger] m.contains(y) <==> o.contains(y) by {
        if m.contains(y) {
            let r = choose|r: int| 0 <= r < m.len() && m[r] == y;
            assert(0 <= m[r] < images.len());
            assert(connected(pairs, m[p], y));
            assert(connected(pairs, o[q], y));
        }
        if o.contains(y) {
            let r = choose|r: int| 0 <= r < o.len() && o[r] == y;
            assert(0 <= o[r] < images.len());
            assert(connected(pairs, o[q], y));
            assert(connected(pairs, m[p], y));
        }
    }
    lemma_sorted_alike(m, o, |i: int, j: int| outranks(images, i, j));
}

proof fn lemma_group_in_other_layout(
    images: Seq<ImageModel>,
    pairs: Seq<VerifiedPair>,
    layout: Seq<Seq<int>>,
    m: Seq<int>,
)
    requires
        is_layout(images, pairs, layout),
        is_group(images, pairs, m),
    ensures
        layout.contains(m),
{
    assert(outranks(images, m[0], m[1]));
    assert(m.contains(m[0]) && m.contains(m[1]));
    assert(connected(pairs, m[0], m[1]));
    let k = choose|k: int| 0 <= k < layout.len() && (#[trigger] layout[k]).contains(m[0]);
    groups_do_not_overlap(images, pairs, m, layout[k], m[0]);
}

/// There is just one answer: two lists of groups that both fit the images and the pairs
/// are the same list.
pub proof fn the_groups_are_unique(
    images: Seq<ImageModel>,
    pairs: Seq<VerifiedPair>,
    one: Seq<GroupModel>,
    other: Seq<GroupModel>,
)
    requires
        are_the_groups(images, pairs, one),
        are_the_groups(images, pairs, other),
    ensures
        one == other,
{
    let l = choose|l: Seq<Seq<int>>| #[trigger] presents(images, pairs, l, one);
    let o = choose|o: Seq<Seq<int>>| #[trigger] presents(images, pairs, o, other);
    let before = |m: Seq<int>, n: Seq<int>| listed_before(images, m, n);
    assert forall|m: Seq<int>, n: Seq<int>| !(#[trigger] before(m, n) && before(n, m)) by {
        if before(m, n) && before(n, m) {
            let p = choose|p: int|
                0 <= p < m.len() && forall|q: int|
                    0 <= q < n.len() ==> #[trigger] m[p] < #[trigger] n[q];
            let q = choose|q: int|
                0 <= q < n.len() && forall|p: int|
                    0 <= p < m.len() ==> #[trigger] n[q] < #[trigger] m[p];
            assert(m[p] < n[q]);
            assert(n[q] < m[p]);
        }
    }
    assert forall|m: Seq<int>| #[trigger] l.contains(m) <==> o.contains(m) by {
        if l.contains(m) {
            let k = choose|k: int| 0 <= k < l.len() && l[k] == m;
            lemma_group_in_other_layout(images, pairs, o, l[k]);
        }
        if o.contains(m) {
            let k = choose|k: int| 0 <= k < o.len() && o[k] == m;
            lemma_group_in_other_layout(images, pairs, l, o[k]);
        }
    }
    lemma_sorted_alike(l, o, before);
    assert(one =~= other);
}

/// The keeper of a group has the highest resolution, and the largest file among those of
/// that resolution.
pub proof fn the_keeper_ranks_first(
    images: Seq<ImageModel>,
    pairs: Seq<VerifiedPair>,
    groups: Seq<GroupModel>,
    k: int,
    d: int,
)
    requires
        are_the_groups(images, pairs, groups),
        0 <= k < groups.len(),
        0 <= d < groups[k].duplicates.len(),
    ensures
        groups[k].keeper.pixels() >= groups[k].duplicates[d].pixels(),
        groups[k].keeper.pixels() == groups[k].duplicates[d].pixels() ==> groups[k].keeper.file_size
            >= groups[k].duplicates[d].file_size,
{
    let l = choose|l: Seq<Seq<int>>| #[trigger] presents(images, pairs, l, groups);
    let m = l[k];
    assert(groups[k] == group_of(images, pairs, m));
    assert(is_group(images, pairs, m));
    assert(outranks(images, m[0], m[d + 1]));
}

/// Every group has something to remove, and tells of each duplicate how similar it is to the
/// keeper. It is of high or of low confidence.
pub proof fn every_group_has_duplicates(
    images: Seq<ImageModel>,
    pairs: Seq<VerifiedPair>,
    groups: Seq<GroupModel>,
    k: int,
)
    requires
        are_the_groups(images, pairs, groups),
        0 <= k < groups.len(),
    ensures
        groups[k].duplicates.len() >= 1,
        groups[k].scores.len() == groups[k].duplicates.len(),
        forall|d: int|
            0 <= d < groups[k].duplicates.len() ==> (#[trigger] groups[k].scores[d]).0
                == groups[k].duplicates[d].path,
        groups[k].confidence == "high"@ || groups[k].confidence == "low"@,
{
    let l = choose|l: Seq<Seq<int>>| #[trigger] presents(images, pairs, l, groups);
    assert(groups[k] == group_of(images, pairs, l[k]));
    assert(is_group(images, pairs, l[k]));
}

/// Whether a group shows an image, as the keeper or as a duplicate.
pub open spec fn shows(group: GroupModel, image: ImageModel) -> bool {
    group.keeper == image || group.duplicates.contains(image)
}

/// Whether one of the groups shows both images.
pub open spec fn shown_together(groups: Seq<GroupModel>, a: ImageModel, b: ImageModel) -> bool {
    exists|k: int| 0 <= k < groups.len() && #[trigger] shows(groups[k], a) && shows(groups[k], b)
}

proof fn lemma_members_are_shown(
    images: Seq<ImageModel>,
    pairs: Seq<VerifiedPair>,
    members: Seq<int>,
    i: int,
)
    requires
        members.contains(i),
    ensures
        shows(group_of(images, pairs, members), images[i]),
{
    let p = choose|p: int| 0 <= p < members.len() && members[p] == i;
    if p > 0 {
        assert(group_of(images, pairs, members).duplicates[p - 1] == images[i]);
    }
}

/// The space that is recovered if the duplicates are removed.
pub open spec fn space(duplicates: Seq<ImageModel>) -> nat
    decreases duplicates.len(),
{
    if duplicates.len() == 0 {
        0
    } else {
        space(duplicates.drop_last()) + duplicates.last().file_size as nat
    }
}

proof fn lemma_space(images: Seq<ImageModel>, members: Seq<int>, k: int)
    requires
        0 <= k < members.len(),
    ensures
        space(Seq::new(k as nat, |i: int| images[members[i + 1]])) == size_below(
            images,
            members,
            k + 1,
        ),
    decreases k,
{
    let here = Seq::new(k as nat, |i: int| images[members[i + 1]]);
    if k > 0 {
        lemma_space(images, members, k - 1);
        assert(here.drop_last() =~= Seq::new((k - 1) as nat, |i: int| images[members[i + 1]]));
    }
}

/// The groups are listed by the space that they recover, the largest first.
pub proof fn groups_are_sorted_by_space(
    images: Seq<ImageModel>,
    pairs: Seq<VerifiedPair>,
    groups: Seq<GroupModel>,
    k: int,
    l: int,
)
    requires
        are_the_groups(images, pairs, groups),
        0 <= k <= l < groups.len(),
    ensures
        space(groups[k].duplicates) >= space(groups[l].duplicates),
{
    let layout = choose|layout: Seq<Seq<int>>| #[trigger] presents(images, pairs, layout, groups);
    assert(groups[k] == group_of(images, pairs, layout[k]));
    assert(groups[l] == group_of(images, pairs, layout[l]));
    assert(is_group(images, pairs, layout[k]));
    assert(is_group(images, pairs, layout[l]));
    lemma_space(images, layout[k], layout[k].len() - 1);
    lemma_space(images, layout[l], layout[l].len() - 1);
    assert(groups[k].duplicates =~= Seq::new(
        (layout[k].len() - 1) as nat,
        |i: int| images[layout[k][i + 1]],
    ));
    assert(groups[l].duplicates =~= Seq::new(
        (layout[l].len() - 1) as nat,
        |i: int| images[layout[l][i + 1]],
    ));
    if k < l {
        assert(listed_before(images, layout[k], layout[l]));
    }
}

/// Images that the pairs connect are in one group.
pub proof fn connected_images_share_a_group(
    images: Seq<ImageModel>,
    pairs: Seq<VerifiedPair>,
    groups: Seq<GroupModel>,
    i: int,
    j: int,
)
    requires
        are_the_groups(images, pairs, groups),
        0 <= i < images.len(),
        0 <= j < images.len(),
        i != j,
        connected(pairs, i, j),
    ensures
        shown_together(groups, images[i], images[j]),
{
    let layout = choose|l: Seq<Seq<int>>| #[trigger] presents(images, pairs, l, groups);
    let k = choose|k: int| 0 <= k < layout.len() && (#[trigger] layout[k]).contains(i);
    let m = layout[k];
    assert(is_group(images, pairs, m));
    let p = choose|p: int| 0 <= p < m.len() && m[p] == i;
    assert(connected(pairs, m[p], j));
    lemma_members_are_shown(images, pairs, m, i);
    lemma_members_are_shown(images, pairs, m, j);
    assert(groups[k] == group_of(images, pairs, m));
}

/// Images that nothing connects are never in one group.
pub proof fn unconnected_images_share_no_group(
    images: Seq<ImageModel>,
    pairs: Seq<VerifiedPair>,
    layout: Seq<Seq<int>>,
    i: int,
    j: int,
    k: int,
)
    requires
        is_layout(images, pairs, layout),
        0 <= i < images.len(),
        0 <= j < images.len(),
        !connected(pairs, i, j),
        0 <= k < layout.len(),
    ensures
        !(layout[k].contains(i) && layout[k].contains(j)),
{
    let m = layout[k];
    assert(is_group(images, pairs, m));
    if m.contains(i) && m.contains(j) {
        let p = choose|p: int| 0 <= p < m.len() && m[p] == i;
        assert(connected(pairs, m[p], j));
    }
}

/// The images of a candidate pair that is judged to be one of duplicates are in one group.
pub proof fn duplicates_are_grouped(
    images: Seq<ImageModel>,
    phash_threshold: u32,
    ssim_threshold: Binary64,
    ssim: Seq<Option<Binary64>>,
    groups: Seq<GroupModel>,
    p: int,
)
    requires
        images.len() <= usize::MAX,
        are_the_groups(images, findings(images, phash_threshold, ssim_threshold, ssim), groups),
        0 <= p < candidates(images, phash_threshold).len(),
        ({
            let (i, j) = candidates(images, phash_threshold)[p];
            judgement(images[i as int], images[j as int], ssim[p], ssim_threshold) is Some
        }),
    ensures
        ({
            let (i, j) = candidates(images, phash_threshold)[p];
            shown_together(groups, images[i as int], images[j as int])
        }),
{
    let pairs = candidates(images, phash_threshold);
    let found = findings(images, phash_threshold, ssim_threshold, ssim);
    let (i, j) = pairs[p];
    candidates_are_complete(images, phash_threshold);
    let f = finding_of_pair(images, pairs, ssim, ssim_threshold, pairs.len() as int, p);
    a_pair_connects(found, f);
    connected_images_share_a_group(images, found, groups, i as int, j as int);
}

/// Two files with the same digest are always in one group, whatever the similarities.
pub proof fn equal_files_are_grouped(
    images: Seq<ImageModel>,
    phash_threshold: u32,
    ssim_threshold: Binary64,
    ssim: Seq<Option<Binary64>>,
    groups: Seq<GroupModel>,
    i: int,
    j: int,
)
    requires
        images.len() <= usize::MAX,
        are_the_groups(images, findings(images, phash_threshold, ssim_threshold, ssim), groups),
        0 <= i < j < images.len(),
        same_digest(images[i], images[j]),
    ensures
        shown_together(groups, images[i], images[j]),
{
    let pairs = candidates(images, phash_threshold);
    candidates_are_complete(images, phash_threshold);
    assert(is_candidate(images[i], images[j], phash_threshold));
    assert(pairs.contains((i as usize, j as usize)));
    let p = choose|p: int| 0 <= p < pairs.len() && pairs[p] == (i as usize, j as usize);
    duplicates_are_grouped(images, phash_threshold, ssim_threshold, ssim, groups, p);
}

/// Every finding is justified. Its images are a pair of candidates; the files are equal,
/// or their similarity is known and not below the threshold. It is of high confidence
/// just where the files are equal, the similarity is at least 0.98, or the difference
/// hashes agree.
pub proof fn findings_are_justified(
    images: Seq<ImageModel>,
    phash_threshold: u32,
    ssim_threshold: Binary64,
    ssim: Seq<Option<Binary64>>,
    f: int,
)
    requires
        images.len() <= usize::MAX,
        0 <= f < findings(images, phash_threshold, ssim_threshold, ssim).len(),
    ensures
        ({
            let found = findings(images, phash_threshold, ssim_threshold, ssim)[f];
            let a = images[found.a as int];
            let b = images[found.b as int];
            &&& found.a < found.b < images.len()
            &&& same_digest(a, b) || hamming(a.phash, b.phash) <= phash_threshold
            &&& same_digest(a, b) ==> found.score.bits == ONE_BITS
            &&& !same_digest(a, b) ==> !found.score.lt(ssim_threshold)
            &&& found.high <==> same_digest(a, b) || found.score.ge(
                Binary64 { bits: STRICT_SSIM_BITS },
            ) || hamming(a.dhash, b.dhash) <= DHASH_AGREE_DISTANCE
        }),
{
    let pairs = candidates(images, phash_threshold);
    let found = findings(images, phash_threshold, ssim_threshold, ssim)[f];
    candidates_are_complete(images, phash_threshold);
    let p = source_of_finding(images, pairs, ssim, ssim_threshold, pairs.len() as int, f);
    assert(pairs[p] == (found.a, found.b));
}

proof fn lemma_within(
    images: Seq<ImageModel>,
    members: Seq<int>,
    pair: VerifiedPair,
)
    requires
        members.contains(pair.a as int),
        members.contains(pair.b as int),
    ensures
        pair_within(images, members, pair),
{
    let path_at = |i: int| images[i].path;
    let p = choose|p: int| 0 <= p < members.len() && members[p] == pair.a;
    let q = choose|q: int| 0 <= q < members.len() && members[q] == pair.b;
    let paths = members.map_values(path_at);
    assert(paths[p] == images[pair.a as int].path);
    assert(paths[q] == images[pair.b as int].path);
}

/// One pair of low confidence between two images of a group marks the whole group as one
/// of low confidence.
pub proof fn a_doubtful_pair_marks_the_group(
    images: Seq<ImageModel>,
    pairs: Seq<VerifiedPair>,
    members: Seq<int>,
    f: int,
)
    requires
        0 <= f < pairs.len(),
        !pairs[f].high,
        members.contains(pairs[f].a as int),
        members.contains(pairs[f].b as int),
    ensures
        group_of(images, pairs, members).confidence == "low"@,
{
    lemma_within(images, members, pairs[f]);
    assert(!all_high(images, pairs, members));
}

/// Where no two images have the same path, a group is of high confidence just when every
/// pair that was found between its images is.
pub proof fn high_confidence_takes_every_pair(
    images: Seq<ImageModel>,
    pairs: Seq<VerifiedPair>,
    members: Seq<int>,
)
    requires
        is_group(images, pairs, members),
        forall|i: int, j: int|
            0 <= i < j < images.len() ==> (#[trigger] images[i]).path != (
            #[trigger] images[j]).path,
        forall|f: int|
            0 <= f < pairs.len() ==> (#[trigger] pairs[f]).a < images.len() && pairs[f].b
                < images.len(),
    ensures
        group_of(images, pairs, members).confidence == "high"@ <==> forall|f: int|
            0 <= f < pairs.len() && members.contains((#[trigger] pairs[f]).a as int)
                && members.contains(pairs[f].b as int) ==> pairs[f].high,
{
    reveal_strlit("high");
    reveal_strlit("low");
    assert("high"@.len() != "low"@.len());
    let path_at = |i: int| images[i].path;
    let paths = members.map_values(path_at);
    assert forall|f: int| 0 <= f < pairs.len() implies (pair_within(
        images,
        members,
        #[trigger] pairs[f],
    ) <==> members.contains(pairs[f].a as int) && members.contains(pairs[f].b as int)) by {
        let a = pairs[f].a as int;
        let b = pairs[f].b as int;
        if members.contains(a) && members.contains(b) {
            lemma_within(images, members, pairs[f]);
        }
        if pair_within(images, members, pairs[f]) {
            let p = choose|p: int| 0 <= p < paths.len() && paths[p] == images[a].path;
            let q = choose|q: int| 0 <= q < paths.len() && paths[q] == images[b].path;
            assert(images[members[p]].path == images[a].path);
            assert(images[members[q]].path == images[b].path);
            assert(members[p] == a);
            assert(members[q] == b);
        }
    }
}

proof fn lemma_space_is_a_sum(duplicates: Seq<ImageModel>)
    ensures
        space(duplicates) == duplicates.fold_left(
            0int,
            |sum: int, d: ImageModel| sum + d.file_size,
        ),
    decreases duplicates.len(),
{
    if duplicates.len() > 0 {
        lemma_space_is_a_sum(duplicates.drop_last());
    }
}

proof fn lemma_score(
    images: Seq<ImageModel>,
    pairs: Seq<VerifiedPair>,
    p: Seq<char>,
    q: Seq<char>,
    from: int,
)
    requires
        0 <= from <= pairs.len(),
    ensures
        ({
            let score = score_from(images, pairs, p, q, from);
            ||| {
                &&& score.bits == 0
                &&& forall|f: int|
                    from <= f < pairs.len() ==> !pair_of_paths(images, #[trigger] pairs[f], p, q)
            }
            ||| exists|f: int|
                from <= f < pairs.len() && pair_of_paths(images, #[trigger] pairs[f], p, q)
                    && score == pairs[f].score && forall|g: int|
                    from <= g < f ==> !pair_of_paths(images, #[trigger] pairs[g], p, q)
        }),
    decreases pairs.len() - from,
{
    if from < pairs.len() && !pair_of_paths(images, pairs[from], p, q) {
        lemma_score(images, pairs, p, q, from + 1);
    }
}

/// The answer, and the images behind it. For each group there is a list of images, by their
/// places among all images.
///
/// The keeper is the first of the list, the duplicates are the others. Every two images of a
/// list are connected by the pairs, and an image that is connected to one of them is on the
/// list; every image that is connected to another one is on some list, and no image is on two.
/// Of two images of a list with as many pixels and as large a file, the earlier comes first.
pub proof fn every_group_is_a_set_of_connected_images(
    images: Seq<ImageModel>,
    pairs: Seq<VerifiedPair>,
    groups: Seq<GroupModel>,
) -> (layout: Seq<Seq<int>>)
    requires
        are_the_groups(images, pairs, groups),
    ensures
        layout.len() == groups.len(),
        forall|k: int|
            #![trigger layout[k]]
            0 <= k < layout.len() ==> layout[k].len() >= 2 && groups[k].duplicates.len() + 1
                == layout[k].len() && groups[k].keeper == images[layout[k][0]],
        forall|k: int, d: int|
            #![trigger groups[k].duplicates[d]]
            0 <= k < layout.len() && 0 <= d < groups[k].duplicates.len()
                ==> groups[k].duplicates[d] == images[layout[k][d + 1]],
        forall|k: int, p: int|
            #![trigger layout[k][p]]
            0 <= k < layout.len() && 0 <= p < layout[k].len() ==> 0 <= layout[k][p]
                < images.len(),
        forall|k: int, p: int, y: int|
            #![trigger connected(pairs, layout[k][p], y)]
            0 <= k < layout.len() && 0 <= p < layout[k].len() && 0 <= y < images.len() ==> (
            connected(pairs, layout[k][p], y) <==> layout[k].contains(y)),
        forall|i: int, j: int|
            0 <= i < images.len() && 0 <= j < images.len() && i != j && #[trigger] connected(
                pairs,
                i,
                j,
            ) ==> exists|k: int| 0 <= k < layout.len() && (#[trigger] layout[k]).contains(i),
        forall|k: int, l: int, p: int, q: int|
            #![trigger layout[k][p], layout[l][q]]
            0 <= k < l < layout.len() && 0 <= p < layout[k].len() && 0 <= q < layout[l].len()
                ==> layout[k][p] != layout[l][q],
        forall|k: int, p: int, q: int|
            #![trigger layout[k][p], layout[k][q]]
            0 <= k < layout.len() && 0 <= p < q < layout[k].len() ==> layout[k][p]
                != layout[k][q] && ({
                let a = images[layout[k][p]];
                let b = images[layout[k][q]];
                a.width * a.height == b.width * b.height && a.file_size == b.file_size
                    ==> layout[k][p] < layout[k][q]
            }),
{
    let layout = choose|l: Seq<Seq<int>>| #[trigger] presents(images, pairs, l, groups);
    assert forall|k: int| #![trigger layout[k]] 0 <= k < layout.len() implies layout[k].len() >= 2
        && groups[k].duplicates.len() + 1 == layout[k].len() && groups[k].keeper
        == images[layout[k][0]] by {
        assert(is_group(images, pairs, layout[k]));
        assert(groups[k] == group_of(images, pairs, layout[k]));
    }
    assert forall|k: int, d: int|
        #![trigger groups[k].duplicates[d]]
        0 <= k < layout.len() && 0 <= d
            < groups[k].duplicates.len() implies groups[k].duplicates[d] == images[layout[k][d
        + 1]] by {
        assert(groups[k] == group_of(images, pairs, layout[k]));
    }
    assert forall|k: int, p: int|
        #![trigger layout[k][p]]
        0 <= k < layout.len() && 0 <= p < layout[k].len() implies 0 <= layout[k][p]
        < images.len() by {
        assert(is_group(images, pairs, layout[k]));
    }
    assert forall|k: int, p: int, y: int|
        #![trigger connected(pairs, layout[k][p], y)]
        0 <= k < layout.len() && 0 <= p < layout[k].len() && 0 <= y < images.len() implies (
    connected(pairs, layout[k][p], y) <==> layout[k].contains(y)) by {
        assert(is_group(images, pairs, layout[k]));
    }
    assert forall|k: int, l: int, p: int, q: int|
        #![trigger layout[k][p], layout[l][q]]
        0 <= k < l < layout.len() && 0 <= p < layout[k].len() && 0 <= q
            < layout[l].len() implies layout[k][p] != layout[l][q] by {
        if layout[k][p] == layout[l][q] {
            assert(is_group(images, pairs, layout[k]));
            assert(is_group(images, pairs, layout[l]));
            groups_do_not_overlap(images, pairs, layout[k], layout[l], layout[k][p]);
            assert(listed_before(images, layout[k], layout[l]));
            let m = layout[k];
            let s = choose|s: int|
                0 <= s < m.len() && forall|u: int|
                    0 <= u < m.len() ==> #[trigger] m[s] < #[trigger] m[u];
            assert(m[s] < m[s]);
        }
    }
    assert forall|k: int, p: int, q: int|
        #![trigger layout[k][p], layout[k][q]]
        0 <= k < layout.len() && 0 <= p < q < layout[k].len() implies layout[k][p]
        != layout[k][q] && ({
        let a = images[layout[k][p]];
        let b = images[layout[k][q]];
        a.width * a.height == b.width * b.height && a.file_size == b.file_size ==> layout[k][p]
            < layout[k][q]
    }) by {
        assert(is_group(images, pairs, layout[k]));
        assert(outranks(images, layout[k][p], layout[k][q]));
    }
    layout
}

/// Within a group the images go from the best to the worst: by the number of their pixels,
/// width times height, and by the size of the file where that is the same. The keeper comes
/// before all duplicates.
pub proof fn a_group_goes_from_the_best_to_the_worst(
    images: Seq<ImageModel>,
    pairs: Seq<VerifiedPair>,
    groups: Seq<GroupModel>,
    k: int,
)
    requires
        are_the_groups(images, pairs, groups),
        0 <= k < groups.len(),
    ensures
        forall|d: int|
            0 <= d < groups[k].duplicates.len() ==> ({
                let better = groups[k].keeper;
                let worse = #[trigger] groups[k].duplicates[d];
                better.width * better.height > worse.width * worse.height || (better.width
                    * better.height == worse.width * worse.height && better.file_size
                    >= worse.file_size)
            }),
        forall|d: int, e: int|
            0 <= d < e < groups[k].duplicates.len() ==> ({
                let better = #[trigger] groups[k].duplicates[d];
                let worse = #[trigger] groups[k].duplicates[e];
                better.width * better.height > worse.width * worse.height || (better.width
                    * better.height == worse.width * worse.height && better.file_size
                    >= worse.file_size)
            }),
{
    let l = choose|l: Seq<Seq<int>>| #[trigger] presents(images, pairs, l, groups);
    let m = l[k];
    assert(groups[k] == group_of(images, pairs, m));
    assert(is_group(images, pairs, m));
    assert forall|d: int| 0 <= d < groups[k].duplicates.len() implies ({
        let better = groups[k].keeper;
        let worse = #[trigger] groups[k].duplicates[d];
        better.width * better.height > worse.width * worse.height || (better.width
            * better.height == worse.width * worse.height && better.file_size >= worse.file_size)
    }) by {
        assert(outranks(images, m[0], m[d + 1]));
    }
    assert forall|d: int, e: int| 0 <= d < e < groups[k].duplicates.len() implies ({
        let better = #[trigger] groups[k].duplicates[d];
        let worse = #[trigger] groups[k].duplicates[e];
        better.width * better.height > worse.width * worse.height || (better.width
            * better.height == worse.width * worse.height && better.file_size >= worse.file_size)
    }) by {
        assert(outranks(images, m[d + 1], m[e + 1]));
    }
}

/// The score of a duplicate is that of the first pair that was found between its path and
/// the path of the keeper, and 0.0 where there is none.
pub proof fn a_score_is_that_of_the_pair_with_the_keeper(
    images: Seq<ImageModel>,
    pairs: Seq<VerifiedPair>,
    groups: Seq<GroupModel>,
    k: int,
    d: int,
)
    requires
        are_the_groups(images, pairs, groups),
        0 <= k < groups.len(),
        0 <= d < groups[k].duplicates.len(),
    ensures
        groups[k].scores.len() == groups[k].duplicates.len(),
        groups[k].scores[d].0 == groups[k].duplicates[d].path,
        ({
            let p = groups[k].duplicates[d].path;
            let q = groups[k].keeper.path;
            let between = |f: int|
                {
                    let a = images[pairs[f].a as int].path;
                    let b = images[pairs[f].b as int].path;
                    (p == a || p == b) && (q == a || q == b)
                };
            ||| {
                &&& groups[k].scores[d].1.bits == 0
                &&& forall|f: int| 0 <= f < pairs.len() ==> !#[trigger] between(f)
            }
            ||| exists|f: int|
                0 <= f < pairs.len() && #[trigger] between(f) && groups[k].scores[d].1
                    == pairs[f].score && forall|g: int| 0 <= g < f ==> !#[trigger] between(g)
        }),
{
    let l = choose|l: Seq<Seq<int>>| #[trigger] presents(images, pairs, l, groups);
    assert(groups[k] == group_of(images, pairs, l[k]));
    let p = groups[k].duplicates[d].path;
    let q = groups[k].keeper.path;
    let between = |f: int|
        {
            let a = images[pairs[f].a as int].path;
            let b = images[pairs[f].b as int].path;
            (p == a || p == b) && (q == a || q == b)
        };
    lemma_score(images, pairs, p, q, 0);
    assert forall|f: int| 0 <= f < pairs.len() implies (#[trigger] between(f) <==> pair_of_paths(
        images,
        pairs[f],
        p,
        q,
    )) by {}
    if exists|f: int| 0 <= f < pairs.len() && pair_of_paths(images, #[trigger] pairs[f], p, q) {
        let f = choose|f: int|
            0 <= f < pairs.len() && pair_of_paths(images, #[trigger] pairs[f], p, q)
                && score_from(images, pairs, p, q, 0) == pairs[f].score && forall|g: int|
                0 <= g < f ==> !pair_of_paths(images, #[trigger] pairs[g], p, q);
        assert(between(f));
    }
}

/// A group is of high confidence just when every pair that was found between two paths of the
/// group is, and of low confidence otherwise.
pub proof fn confidence_is_that_of_the_pairs_within(
    images: Seq<ImageModel>,
    pairs: Seq<VerifiedPair>,
    groups: Seq<GroupModel>,
    k: int,
)
    requires
        are_the_groups(images, pairs, groups),
        0 <= k < groups.len(),
    ensures
        ({
            let within = |path: Seq<char>|
                groups[k].keeper.path == path || exists|d: int|
                    0 <= d < groups[k].duplicates.len() && (#[trigger] groups[k].duplicates[d]).path
                        == path;
            groups[k].confidence == if forall|f: int|
                0 <= f < pairs.len() && within(images[(#[trigger] pairs[f]).a as int].path)
                    && within(images[pairs[f].b as int].path) ==> pairs[f].high {
                "high"@
            } else {
                "low"@
            }
        }),
{
    let l = choose|l: Seq<Seq<int>>| #[trigger] presents(images, pairs, l, groups);
    let m = l[k];
    assert(groups[k] == group_of(images, pairs, m));
    assert(is_group(images, pairs, m));
    let within = |path: Seq<char>|
        groups[k].keeper.path == path || exists|d: int|
            0 <= d < groups[k].duplicates.len() && (#[trigger] groups[k].duplicates[d]).path
                == path;
    let paths = m.map_values(|i: int| images[i].path);
    assert forall|path: Seq<char>| #[trigger] within(path) <==> paths_of(images, m).contains(
        path,
    ) by {
        if groups[k].keeper.path == path {
            assert(paths[0] == path);
        }
        if exists|d: int|
            0 <= d < groups[k].duplicates.len() && (#[trigger] groups[k].duplicates[d]).path
                == path {
            let d = choose|d: int|
                0 <= d < groups[k].duplicates.len() && (#[trigger] groups[k].duplicates[d]).path
                    == path;
            assert(paths[d + 1] == path);
        }
        if paths.contains(path) {
            let p = choose|p: int| 0 <= p < paths.len() && paths[p] == path;
            if p > 0 {
                assert(groups[k].duplicates[p - 1].path == path);
            }
        }
    }
    assert forall|f: int| 0 <= f < pairs.len() implies (pair_within(images, m, #[trigger] pairs[f])
        <==> within(images[pairs[f].a as int].path) && within(
        images[pairs[f].b as int].path,
    )) by {}
}

/// The groups go from the one that recovers the most space to the one that recovers the
/// least: the sizes of the duplicates added up.
pub proof fn the_most_space_comes_first(
    images: Seq<ImageModel>,
    pairs: Seq<VerifiedPair>,
    groups: Seq<GroupModel>,
    k: int,
    l: int,
)
    requires
        are_the_groups(images, pairs, groups),
        0 <= k <= l < groups.len(),
    ensures
        groups[k].duplicates.fold_left(0int, |sum: int, d: ImageModel| sum + d.file_size)
            >= groups[l].duplicates.fold_left(0int, |sum: int, d: ImageModel| sum + d.file_size),
{
    groups_are_sorted_by_space(images, pairs, groups, k, l);
    lemma_space_is_a_sum(groups[k].duplicates);
    lemma_space_is_a_sum(groups[l].duplicates);
}

/// The search as a whole is complete: any two images whose perceptual hashes are within the
/// threshold of each other, and whose similarity is known and not below the other threshold,
/// are in one group of the answer, as are any two files with the same digest. `similarity` is
/// that of every two images.
pub proof fn duplicates_end_up_in_one_group(
    images: Seq<ImageModel>,
    phash_threshold: u32,
    ssim_threshold: Binary64,
    ssim: Seq<Option<Binary64>>,
    similarity: spec_fn(int, int) -> Option<Binary64>,
    groups: Seq<GroupModel>,
    i: int,
    j: int,
) -> (k: int)
    requires
        images.len() <= usize::MAX,
        forall|p: int|
            #![trigger ssim[p]]
            0 <= p < candidates(images, phash_threshold).len() ==> ssim[p] == similarity(
                candidates(images, phash_threshold)[p].0 as int,
                candidates(images, phash_threshold)[p].1 as int,
            ),
        are_the_groups(images, findings(images, phash_threshold, ssim_threshold, ssim), groups),
        0 <= i < j < images.len(),
        (images[i].md5.len() > 0 && images[i].md5 == images[j].md5) || (hamming(
            images[i].phash,
            images[j].phash,
        ) <= phash_threshold && (similarity(i, j) matches Some(s) && !s.lt(ssim_threshold))),
    ensures
        0 <= k < groups.len(),
        groups[k].keeper == images[i] || groups[k].duplicates.contains(images[i]),
        groups[k].keeper == images[j] || groups[k].duplicates.contains(images[j]),
{
    let found = findings(images, phash_threshold, ssim_threshold, ssim);
    if images[i].md5.len() > 0 && images[i].md5 == images[j].md5 {
        equal_files_are_grouped(
            images,
            phash_threshold,
            ssim_threshold,
            ssim,
            groups,
            i,
            j,
        );
    } else {
        let f = similar_images_are_found(
            images,
            phash_threshold,
            ssim_threshold,
            ssim,
            similarity,
            i,
            j,
            similarity(i, j)->0,
        );
        a_pair_connects(found, f);
        connected_images_share_a_group(images, found, groups, i, j);
    }
    choose|k: int|
        0 <= k < groups.len() && #[trigger] shows(groups[k], images[i]) && shows(
            groups[k],
            images[j],
        )
}

} // verus!
