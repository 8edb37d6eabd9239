//! Duplicates put together: one group for each set of images that the verified pairs
//! connect.
use vstd::hash_set::StringHashSet;
use vstd::prelude::*;
use vstd::string::*;

use crate::binary64::{Binary64, ZERO_BITS};
use crate::connect::{connected, no_pairs_connect_nothing, one_more_pair_connects};
use crate::disjoint::DisjointSets;
use crate::info::{models, DuplicateGroup, GroupModel, ImageInfo, ImageModel};
use crate::pairs::VerifiedPair;

verus! {

/// Whether image `i` comes before image `j` in a group: it has the higher resolution, or
/// the larger file where that is the same, or else it was found earlier.
pub open spec fn outranks(images: Seq<ImageModel>, i: int, j: int) -> bool {
    ||| images[i].pixels() > images[j].pixels()
    ||| {
        &&& images[i].pixels() == images[j].pixels()
        &&& images[i].file_size > images[j].file_size
    }
    ||| {
        &&& images[i].pixels() == images[j].pixels()
        &&& images[i].file_size == images[j].file_size
        &&& i < j
    }
}

/// Whether `members` are in range and stand in the order of their rank.
pub open spec fn ranked(images: Seq<ImageModel>, members: Seq<int>) -> bool {
    &&& forall|p: int| 0 <= p < members.len() ==> 0 <= #[trigger] members[p] < images.len()
    &&& forall|p: int, q: int|
        0 <= p < q < members.len() ==> outranks(images, #[trigger] members[p], #[trigger] members[q])
}

/// Whether `members` are a group: two or more images, in the order of their rank, that
/// are connected with each other and with no other image.
pub open spec fn is_group(
    images: Seq<ImageModel>,
    pairs: Seq<VerifiedPair>,
    members: Seq<int>,
) -> bool {
    &&& members.len() >= 2
    &&& ranked(images, members)
    &&& forall|p: int, y: int|
        0 <= p < members.len() && 0 <= y < images.len() ==> (#[trigger] connected(
            pairs,
            members[p],
            y,
        ) <==> members.contains(y))
}

/// The sizes of the files at the places `1..k` of a group, together.
pub open spec fn size_below(images: Seq<ImageModel>, members: Seq<int>, k: int) -> nat
    decreases k,
{
    if k <= 1 {
        0
    } else {
        size_below(images, members, k - 1) + images[members[k - 1]].file_size as nat
    }
}

/// The space that is recovered if all but the keeper are removed.
pub open spec fn recoverable(images: Seq<ImageModel>, members: Seq<int>) -> nat {
    size_below(images, members, members.len() as int)
}

/// Whether one of the images of `m` was found before all those of `o`.
pub open spec fn starts_before(m: Seq<int>, o: Seq<int>) -> bool {
    exists|p: int|
        0 <= p < m.len() && forall|q: int| 0 <= q < o.len() ==> #[trigger] m[p] < #[trigger] o[q]
}

/// Whether the group `m` is listed before the group `o`: more space is recovered from it,
/// or just as much and it was found first.
pub open spec fn listed_before(images: Seq<ImageModel>, m: Seq<int>, o: Seq<int>) -> bool {
    ||| recoverable(images, m) > recoverable(images, o)
    ||| recoverable(images, m) == recoverable(images, o) && starts_before(m, o)
}

/// Whether `layout` lists the members of all groups, in the order of the groups.
pub open spec fn is_layout(
    images: Seq<ImageModel>,
    pairs: Seq<VerifiedPair>,
    layout: Seq<Seq<int>>,
) -> bool {
    &&& forall|k: int| 0 <= k < layout.len() ==> is_group(images, pairs, #[trigger] layout[k])
    &&& forall|i: int, j: int|
        0 <= i < images.len() && 0 <= j < images.len() && i != j && #[trigger] connected(
            pairs,
            i,
            j,
        ) ==> exists|k: int| 0 <= k < layout.len() && (#[trigger] layout[k]).contains(i)
    &&& forall|k: int, l: int|
        0 <= k < l < layout.len() ==> listed_before(
            images,
            #[trigger] layout[k],
            #[trigger] layout[l],
        )
}

/// Whether a pair was found between the files at the paths `p` and `q`.
pub open spec fn pair_of_paths(
    images: Seq<ImageModel>,
    pair: VerifiedPair,
    p: Seq<char>,
    q: Seq<char>,
) -> bool {
    let a = images[pair.a as int].path;
    let b = images[pair.b as int].path;
    (p == a || p == b) && (q == a || q == b)
}

/// The score of the first pair from the `k`th on that was found between `p` and `q`, or 0.0.
pub open spec fn score_from(
    images: Seq<ImageModel>,
    pairs: Seq<VerifiedPair>,
    p: Seq<char>,
    q: Seq<char>,
    k: int,
) -> Binary64
    decreases pairs.len() - k,
{
    if k >= pairs.len() {
        Binary64 { bits: ZERO_BITS }
    } else if pair_of_paths(images, pairs[k], p, q) {
        pairs[k].score
    } else {
        score_from(images, pairs, p, q, k + 1)
    }
}

/// The paths of the images of a group.
pub open spec fn paths_of(images: Seq<ImageModel>, members: Seq<int>) -> Set<Seq<char>> {
    members.map_values(|i: int| images[i].path).to_set()
}

/// Whether a pair was found between two files of a group.
pub open spec fn pair_within(
    images: Seq<ImageModel>,
    members: Seq<int>,
    pair: VerifiedPair,
) -> bool {
    let paths = paths_of(images, members);
    paths.contains(images[pair.a as int].path) && paths.contains(images[pair.b as int].path)
}

/// Whether every pair that was found within a group is of high confidence.
pub open spec fn all_high(
    images: Seq<ImageModel>,
    pairs: Seq<VerifiedPair>,
    members: Seq<int>,
) -> bool {
    forall|k: int|
        0 <= k < pairs.len() && pair_within(images, members, #[trigger] pairs[k]) ==> pairs[k].high
}

/// The group that the `members`, in the order of their rank, make up.
pub open spec fn group_of(
    images: Seq<ImageModel>,
    pairs: Seq<VerifiedPair>,
    members: Seq<int>,
) -> GroupModel {
    let keeper = images[members[0]];
    GroupModel {
        keeper,
        duplicates: Seq::new((members.len() - 1) as nat, |k: int| images[members[k + 1]]),
        scores: Seq::new(
            (members.len() - 1) as nat,
            |k: int|
                {
                    let path = images[members[k + 1]].path;
                    (path, score_from(images, pairs, path, keeper.path, 0))
                },
        ),
        confidence: if all_high(images, pairs, members) {
            "high"@
        } else {
            "low"@
        },
    }
}

/// Whether `groups` are the groups that the `layout` tells of.
pub open spec fn presents(
    images: Seq<ImageModel>,
    pairs: Seq<VerifiedPair>,
    layout: Seq<Seq<int>>,
    groups: Seq<GroupModel>,
) -> bool {
    &&& is_layout(images, pairs, layout)
    &&& groups.len() == layout.len()
    &&& forall|k: int|
        0 <= k < layout.len() ==> #[trigger] groups[k] == group_of(images, pairs, layout[k])
}

/// Whether `groups` are the groups of duplicates among the images: one for each set of
/// two or more connected images, the one that recovers the most space first.
pub open spec fn are_the_groups(
    images: Seq<ImageModel>,
    pairs: Seq<VerifiedPair>,
    groups: Seq<GroupModel>,
) -> bool {
    exists|layout: Seq<Seq<int>>| #[trigger] presents(images, pairs, layout, groups)
}

/// What a list of groups stands for.
pub open spec fn group_models(groups: Seq<DuplicateGroup>) -> Seq<GroupModel> {
    groups.map_values(|g: DuplicateGroup| g@)
}

/// Whether all pairs are pairs of images of the list.
pub open spec fn in_range(images: Seq<ImageInfo>, pairs: Seq<VerifiedPair>) -> bool {
    forall|k: int|
        0 <= k < pairs.len() ==> (#[trigger] pairs[k]).a < images.len() && pairs[k].b
            < images.len()
}

spec fn ints(v: Seq<usize>) -> Seq<int> {
    v.map_values(|i: usize| i as int)
}

/// Whether image `i` comes before image `j` in a group.
fn ranks_before(images: &Vec<ImageInfo>, i: usize, j: usize) -> (r: bool)
    requires
        i < images@.len(),
        j < images@.len(),
    ensures
        r == outranks(models(images@), i as int, j as int),
{
    let pi: u64 = images[i].pixel_count();
    let pj: u64 = images[j].pixel_count();
    let si: u64 = images[i].file_size;
    let sj: u64 = images[j].file_size;
    pi > pj || (pi == pj && si > sj) || (pi == pj && si == sj && i < j)
}

/// Puts `i` at its place among the members that are already there.
fn insert_ranked(images: &Vec<ImageInfo>, members: &mut Vec<usize>, i: usize)
    requires
        i < images@.len(),
        ranked(models(images@), ints(old(members)@)),
        !old(members)@.contains(i),
    ensures
        ranked(models(images@), ints(final(members)@)),
        forall|x: usize| #[trigger]
            final(members)@.contains(x) <==> old(members)@.contains(x) || x == i,
{
    let ghost all = models(images@);
    let ghost before = members@;
    assert forall|p: int| 0 <= p < before.len() implies #[trigger] before[p] < images@.len() by {
        assert(ints(before)[p] == before[p]);
    }
    let mut at: usize = 0;
    while at < members.len() && ranks_before(images, members[at], i)
        invariant
            at <= members@.len(),
            members@ == before,
            all == models(images@),
            i < images@.len(),
            forall|p: int| 0 <= p < before.len() ==> #[trigger] before[p] < images@.len(),
            forall|p: int| 0 <= p < at ==> outranks(all, #[trigger] before[p] as int, i as int),
        decreases members@.len() - at,
    {
        at += 1;
    }
    members.insert(at, i);
    proof {
        let after = members@;
        let old_ints = ints(before);
        let new_ints = ints(after);
        assert(after == before.insert(at as int, i));
        assert forall|p: int| 0 <= p < new_ints.len() implies 0 <= #[trigger] new_ints[p]
            < all.len() by {
            if p < at {
                assert(before[p] == after[p]);
            } else if p > at {
                assert(before[p - 1] == after[p]);
            }
        }
        assert forall|p: int, q: int| 0 <= p < q < new_ints.len() implies outranks(
            all,
            #[trigger] new_ints[p],
            #[trigger] new_ints[q],
        ) by {
            let op = if p < at { p } else { p - 1 };
            let oq = if q < at { q } else { q - 1 };
            if p != at && q != at {
                assert(old_ints[op] == new_ints[p]);
                assert(old_ints[oq] == new_ints[q]);
            } else if q == at {
                assert(before[p] == after[p]);
            } else {
                assert(old_ints[oq] == new_ints[q]);
                assert(before[oq] != i);
                if at < oq {
                    assert(outranks(all, old_ints[at as int], old_ints[oq]));
                }
            }
        }
        assert forall|x: usize| #[trigger] after.contains(x) <==> before.contains(x) || x == i by {
            if before.contains(x) {
                let k = before.index_of(x);
                let nk = if k < at { k } else { k + 1 };
                assert(after[nk] == x);
            }
            if x == i {
                assert(after[at as int] == x);
            }
            if after.contains(x) {
                let k = after.index_of(x);
                if k < at {
                    assert(before[k] == x);
                } else if k > at {
                    assert(before[k - 1] == x);
                }
            }
        }
    }
}

/// Whether one of the two paths is `p`.
fn either_is(a: &String, b: &String, p: &String) -> (r: bool)
    ensures
        r == (p@ == a@ || p@ == b@),
{
    *p == *a || *p == *b
}

/// The score of the first pair that was found between the files at two paths, or 0.0.
fn find_score(
    images: &Vec<ImageInfo>,
    pairs: &Vec<VerifiedPair>,
    duplicate: &String,
    keeper: &String,
) -> (r: Binary64)
    requires
        in_range(images@, pairs@),
    ensures
        r == score_from(models(images@), pairs@, duplicate@, keeper@, 0),
{
    let mut k: usize = 0;
    while k < pairs.len()
        invariant
            k <= pairs@.len(),
            in_range(images@, pairs@),
            score_from(models(images@), pairs@, duplicate@, keeper@, 0) == score_from(
                models(images@),
                pairs@,
                duplicate@,
                keeper@,
                k as int,
            ),
        decreases pairs@.len() - k,
    {
        let pair: VerifiedPair = pairs[k];
        let a = &images[pair.a].path;
        let b = &images[pair.b].path;
        if either_is(a, b, duplicate) && either_is(a, b, keeper) {
            return pair.score;
        }
        k += 1;
    }
    Binary64 { bits: ZERO_BITS }
}

/// Whether every pair that was found within a group is of high confidence.
fn every_pair_high(
    images: &Vec<ImageInfo>,
    pairs: &Vec<VerifiedPair>,
    members: &Vec<usize>,
) -> (r: bool)
    requires
        in_range(images@, pairs@),
        forall|p: int| 0 <= p < members@.len() ==> #[trigger] members@[p] < images@.len(),
    ensures
        r == all_high(models(images@), pairs@, ints(members@)),
{
    let ghost all = models(images@);
    let ghost group = ints(members@);
    let mut paths = StringHashSet::new();
    let mut p: usize = 0;
    assert(paths@ =~= paths_of(all, group.take(0)));
    while p < members.len()
        invariant
            p <= members@.len(),
            all == models(images@),
            group == ints(members@),
            forall|p: int| 0 <= p < members@.len() ==> #[trigger] members@[p] < images@.len(),
            paths@ == paths_of(all, group.take(p as int)),
        decreases members@.len() - p,
    {
        paths.insert(images[members[p]].path.clone());
        proof {
            let path_at = |i: int| all[i].path;
            let here = group.take(p as int).map_values(path_at);
            let next = group.take(p + 1).map_values(path_at);
            assert(next =~= here.push(all[group[p as int]].path));
            assert forall|x: Seq<char>| #[trigger] next.contains(x) <==> here.contains(x) || x
                == all[group[p as int]].path by {
                if here.contains(x) {
                    assert(next[here.index_of(x)] == x);
                }
                if x == all[group[p as int]].path {
                    assert(next[p as int] == x);
                }
            }
            assert(paths@ =~= paths_of(all, group.take(p + 1)));
        }
        p += 1;
    }
    assert(group.take(p as int) =~= group);
    let mut k: usize = 0;
    while k < pairs.len()
        invariant
            k <= pairs@.len(),
            in_range(images@, pairs@),
            all == models(images@),
            group == ints(members@),
            paths@ == paths_of(all, group),
            forall|j: int|
                0 <= j < k && pair_within(all, group, #[trigger] pairs@[j]) ==> pairs@[j].high,
        decreases pairs@.len() - k,
    {
        let pair: VerifiedPair = pairs[k];
        if paths.contains(images[pair.a].path.as_str()) && paths.contains(
            images[pair.b].path.as_str(),
        ) && !pair.high {
            assert(pair_within(all, group, pairs@[k as int]));
            return false;
        }
        k += 1;
    }
    true
}

/// Makes up the group of the `members`, which stand in the order of their rank.
fn make_group(
    images: &Vec<ImageInfo>,
    pairs: &Vec<VerifiedPair>,
    members: &Vec<usize>,
) -> (r: DuplicateGroup)
    requires
        in_range(images@, pairs@),
        members@.len() >= 1,
        forall|p: int| 0 <= p < members@.len() ==> #[trigger] members@[p] < images@.len(),
    ensures
        r@ == group_of(models(images@), pairs@, ints(members@)),
{
    let ghost all = models(images@);
    let ghost group = ints(members@);
    let keeper = images[members[0]].clone();
    let mut duplicates: Vec<ImageInfo> = Vec::new();
    let mut scores: Vec<(String, Binary64)> = Vec::new();
    let mut p: usize = 1;
    while p < members.len()
        invariant
            1 <= p <= members@.len(),
            in_range(images@, pairs@),
            all == models(images@),
            group == ints(members@),
            keeper@ == all[group[0]],
            forall|p: int| 0 <= p < members@.len() ==> #[trigger] members@[p] < images@.len(),
            duplicates@.len() == p - 1,
            scores@.len() == p - 1,
            forall|q: int| 0 <= q < p - 1 ==> (#[trigger] duplicates@[q])@ == all[group[q + 1]],
            forall|q: int|
                0 <= q < p - 1 ==> (#[trigger] scores@[q]).0@ == all[group[q + 1]].path,
            forall|q: int|
                0 <= q < p - 1 ==> (#[trigger] scores@[q]).1 == score_from(
                    all,
                    pairs@,
                    all[group[q + 1]].path,
                    keeper@.path,
                    0,
                ),
        decreases members@.len() - p,
    {
        let duplicate = images[members[p]].clone();
        let score: Binary64 = find_score(images, pairs, &duplicate.path, &keeper.path);
        scores.push((duplicate.path.clone(), score));
        duplicates.push(duplicate);
        p += 1;
    }
    let confidence = if every_pair_high(images, pairs, members) {
        "high".to_owned()
    } else {
        "low".to_owned()
    };
    let r = DuplicateGroup { keeper, duplicates, scores, confidence };
    assert(r@ =~= group_of(all, pairs@, group));
    r
}

/// The space that is recovered if all but the first of the `members` are removed.
fn recoverable_space(images: &Vec<ImageInfo>, members: &Vec<usize>) -> (r: u128)
    requires
        forall|p: int| 0 <= p < members@.len() ==> #[trigger] members@[p] < images@.len(),
    ensures
        r == recoverable(models(images@), ints(members@)),
{
    let ghost all = models(images@);
    let ghost group = ints(members@);
    let mut sum: u128 = 0;
    let mut p: usize = 1;
    while p < members.len()
        invariant
            1 <= p,
            p <= members@.len() || p == 1,
            all == models(images@),
            group == ints(members@),
            forall|p: int| 0 <= p < members@.len() ==> #[trigger] members@[p] < images@.len(),
            sum == size_below(all, group, p as int),
            sum <= (p - 1) * 0xFFFF_FFFF_FFFF_FFFF,
        decreases members@.len() - p,
    {
        assert((p - 1) * 0xFFFF_FFFF_FFFF_FFFF + 0xFFFF_FFFF_FFFF_FFFF
            <= 0xFFFF_FFFF_FFFF_FFFF * 0xFFFF_FFFF_FFFF_FFFF) by (nonlinear_arith)
            requires
                p < 0xFFFF_FFFF_FFFF_FFFF,
        ;
        sum += images[members[p]].file_size as u128;
        p += 1;
    }
    sum
}

/// Whether `class` lists, in the order of their rank, the images below `end` whose
/// representative is `root`.
spec fn is_class(
    images: Seq<ImageModel>,
    reps: Seq<usize>,
    root: int,
    end: int,
    class: Seq<usize>,
) -> bool {
    &&& ranked(images, ints(class))
    &&& forall|x: usize| #[trigger]
        class.contains(x) <==> x < end && reps[x as int] == root
}

/// Connects the images as the pairs say, and returns the representative of each.
fn representatives(n: usize, pairs: &Vec<VerifiedPair>) -> (r: Vec<usize>)
    requires
        forall|k: int| 0 <= k < pairs@.len() ==> (#[trigger] pairs@[k]).a < n && pairs@[k].b < n,
    ensures
        r@.len() == n,
        forall|x: int| 0 <= x < n ==> #[trigger] r@[x] < n,
        forall|x: int, y: int|
            0 <= x < n && 0 <= y < n ==> (#[trigger] connected(pairs@, x, y) <==> r@[x] == r@[y]),
{
    let mut sets = DisjointSets::new(n);
    let mut k: usize = 0;
    proof {
        assert(pairs@.take(0) =~= Seq::<VerifiedPair>::empty());
        assert forall|x: int, y: int| 0 <= x < n && 0 <= y < n implies (#[trigger] sets.same(x, y)
            <==> connected(pairs@.take(0), x, y)) by {
            no_pairs_connect_nothing(x, y);
        }
    }
    while k < pairs.len()
        invariant
            k <= pairs@.len(),
            forall|k: int|
                0 <= k < pairs@.len() ==> (#[trigger] pairs@[k]).a < n && pairs@[k].b < n,
            sets.wf(),
            sets.size() == n,
            forall|x: int, y: int|
                0 <= x < n && 0 <= y < n ==> (#[trigger] sets.same(x, y) <==> connected(
                    pairs@.take(k as int),
                    x,
                    y,
                )),
        decreases pairs@.len() - k,
    {
        let pair: VerifiedPair = pairs[k];
        let ghost before = sets;
        sets.union(pair.a, pair.b);
        proof {
            let here = pairs@.take(k as int);
            assert(pairs@.take(k + 1) =~= here.push(pair));
            assert forall|x: int, y: int| 0 <= x < n && 0 <= y < n implies (#[trigger] sets.same(
                x,
                y,
            ) <==> connected(pairs@.take(k + 1), x, y)) by {
                one_more_pair_connects(here, pair, x, y);
                assert(before.same(x, y) <==> connected(here, x, y));
                assert(before.same(x, pair.a as int) <==> connected(here, x, pair.a as int));
                assert(before.same(pair.b as int, y) <==> connected(here, pair.b as int, y));
                assert(before.same(x, pair.b as int) <==> connected(here, x, pair.b as int));
                assert(before.same(pair.a as int, y) <==> connected(here, pair.a as int, y));
            }
        }
        k += 1;
    }
    assert(pairs@.take(k as int) =~= pairs@);
    let ghost done = sets;
    let mut reps: Vec<usize> = Vec::new();
    let mut i: usize = 0;
    while i < n
        invariant
            i <= n,
            sets.wf(),
            sets.size() == n,
            forall|x: int|
                0 <= x < n ==> #[trigger] sets.representative(x) == done.representative(x),
            reps@.len() == i,
            forall|x: int| 0 <= x < i ==> #[trigger] reps@[x] < n,
            forall|x: int| 0 <= x < i ==> #[trigger] reps@[x] == done.representative(x),
        decreases n - i,
    {
        let root: usize = sets.find(i);
        reps.push(root);
        i += 1;
    }
    assert forall|x: int, y: int| 0 <= x < n && 0 <= y < n implies (#[trigger] connected(
        pairs@,
        x,
        y,
    ) <==> reps@[x] == reps@[y]) by {
        assert(done.same(x, y) <==> connected(pairs@, x, y));
    }
    reps
}

/// Sorts the images into classes by their representatives, each class in the order of the
/// ranks.
fn classes(images: &Vec<ImageInfo>, reps: &Vec<usize>) -> (r: Vec<Vec<usize>>)
    requires
        reps@.len() == images@.len(),
        forall|x: int| 0 <= x < reps@.len() ==> #[trigger] reps@[x] < reps@.len(),
    ensures
        r@.len() == images@.len(),
        forall|root: int|
            0 <= root < r@.len() ==> is_class(
                models(images@),
                reps@,
                root,
                images@.len() as int,
                (#[trigger] r@[root])@,
            ),
{
    let n: usize = images.len();
    let ghost all = models(images@);
    let mut found: Vec<Vec<usize>> = Vec::new();
    let mut j: usize = 0;
    while j < n
        invariant
            j <= n,
            found@.len() == j,
            forall|root: int| 0 <= root < j ==> (#[trigger] found@[root])@.len() == 0,
        decreases n - j,
    {
        found.push(Vec::new());
        j += 1;
    }
    let mut i: usize = 0;
    while i < n
        invariant
            i <= n,
            n == images@.len(),
            all == models(images@),
            reps@.len() == n,
            forall|x: int| 0 <= x < reps@.len() ==> #[trigger] reps@[x] < reps@.len(),
            found@.len() == n,
            forall|root: int|
                0 <= root < n ==> is_class(
                    all,
                    reps@,
                    root,
                    i as int,
                    (#[trigger] found@[root])@,
                ),
        decreases n - i,
    {
        let root: usize = reps[i];
        let ghost before = found@;
        assert(is_class(all, reps@, root as int, i as int, before[root as int]@));
        insert_ranked(images, &mut found[root], i);
        proof {
            assert forall|other: int| 0 <= other < n implies is_class(
                all,
                reps@,
                other,
                i + 1,
                (#[trigger] found@[other])@,
            ) by {
                assert(is_class(all, reps@, other, i as int, before[other]@));
                if other != root {
                    assert(found@[other] == before[other]);
                }
            }
        }
        i += 1;
    }
    found
}

proof fn lemma_ints_contains(v: Seq<usize>, y: int)
    ensures
        ints(v).contains(y) <==> 0 <= y <= usize::MAX && v.contains(y as usize),
{
    if ints(v).contains(y) {
        let p = choose|p: int| 0 <= p < ints(v).len() && ints(v)[p] == y;
        assert(v[p] == y as usize);
    }
    if 0 <= y <= usize::MAX && v.contains(y as usize) {
        let p = choose|p: int| 0 <= p < v.len() && v[p] == y as usize;
        assert(ints(v)[p] == y);
    }
}

proof fn lemma_class_is_group(
    images: Seq<ImageModel>,
    pairs: Seq<VerifiedPair>,
    reps: Seq<usize>,
    root: int,
    class: Seq<usize>,
)
    requires
        reps.len() == images.len(),
        images.len() <= usize::MAX,
        forall|x: int, y: int|
            0 <= x < images.len() && 0 <= y < images.len() ==> (#[trigger] connected(pairs, x, y)
                <==> reps[x] == reps[y]),
        is_class(images, reps, root, images.len() as int, class),
        class.len() >= 2,
    ensures
        is_group(images, pairs, ints(class)),
{
    let members = ints(class);
    assert forall|p: int, y: int| 0 <= p < members.len() && 0 <= y < images.len() implies (
    #[trigger] connected(pairs, members[p], y) <==> members.contains(y)) by {
        assert(class.contains(class[p]));
        lemma_ints_contains(class, y);
        assert(class.contains(y as usize) <==> reps[y] == root);
    }
}

/// The place of a group in the list: behind those that recover as much space or more.
fn place_of(spaces: &Vec<u128>, space: u128) -> (r: usize)
    ensures
        r <= spaces@.len(),
        forall|k: int| 0 <= k < r ==> #[trigger] spaces@[k] >= space,
        r < spaces@.len() ==> spaces@[r as int] < space,
{
    let mut at: usize = 0;
    while at < spaces.len() && spaces[at] >= space
        invariant
            at <= spaces@.len(),
            forall|k: int| 0 <= k < at ==> #[trigger] spaces@[k] >= space,
        decreases spaces@.len() - at,
    {
        at += 1;
    }
    at
}

/// Whether one of the images of `m` is below `end`.
spec fn reaches_below(m: Seq<int>, end: int) -> bool {
    exists|p: int| 0 <= p < m.len() && #[trigger] m[p] < end
}

/// Whether the groups found so far are laid out as `layout` says, and each has an image
/// below `end`.
spec fn placed(
    images: Seq<ImageModel>,
    pairs: Seq<VerifiedPair>,
    layout: Seq<Seq<int>>,
    spaces: Seq<u128>,
    groups: Seq<DuplicateGroup>,
    end: int,
) -> bool {
    &&& spaces.len() == layout.len()
    &&& groups.len() == layout.len()
    &&& forall|k: int| 0 <= k < layout.len() ==> is_group(images, pairs, #[trigger] layout[k])
    &&& forall|k: int|
        0 <= k < layout.len() ==> (#[trigger] groups[k])@ == group_of(images, pairs, layout[k])
    &&& forall|k: int|
        0 <= k < layout.len() ==> #[trigger] spaces[k] == recoverable(images, layout[k])
    &&& forall|k: int|
        0 <= k < layout.len() ==> reaches_below(#[trigger] layout[k], end)
    &&& forall|k: int, l: int|
        0 <= k < l < layout.len() ==> listed_before(
            images,
            #[trigger] layout[k],
            #[trigger] layout[l],
        )
}

proof fn lemma_place(
    images: Seq<ImageModel>,
    pairs: Seq<VerifiedPair>,
    layout: Seq<Seq<int>>,
    spaces: Seq<u128>,
    groups: Seq<DuplicateGroup>,
    end: int,
    at: int,
    members: Seq<int>,
    space: u128,
    group: DuplicateGroup,
)
    requires
        placed(images, pairs, layout, spaces, groups, end),
        0 <= at <= layout.len(),
        forall|k: int| 0 <= k < at ==> #[trigger] spaces[k] >= space,
        at < layout.len() ==> spaces[at] < space,
        is_group(images, pairs, members),
        group@ == group_of(images, pairs, members),
        space == recoverable(images, members),
        members.contains(end),
        forall|p: int| 0 <= p < members.len() ==> #[trigger] members[p] >= end,
    ensures
        placed(
            images,
            pairs,
            layout.insert(at, members),
            spaces.insert(at, space),
            groups.insert(at, group),
            end + 1,
        ),
{
    let new = layout.insert(at, members);
    assert forall|k: int| 0 <= k < new.len() implies reaches_below(#[trigger] new[k], end + 1) by {
        if k == at {
            let p = choose|p: int| 0 <= p < members.len() && members[p] == end;
            assert(new[k][p] < end + 1);
        } else {
            let o = if k < at { k } else { k - 1 };
            assert(new[k] == layout[o]);
            assert(reaches_below(layout[o], end));
            let p = choose|p: int| 0 <= p < layout[o].len() && layout[o][p] < end;
            assert(new[k][p] < end + 1);
        }
    }
    assert forall|k: int, l: int| 0 <= k < l < new.len() implies listed_before(
        images,
        #[trigger] new[k],
        #[trigger] new[l],
    ) by {
        let ok = if k < at { k } else { k - 1 };
        let ol = if l < at { l } else { l - 1 };
        if k != at && l != at {
            assert(new[k] == layout[ok] && new[l] == layout[ol]);
        } else if l == at {
            assert(new[k] == layout[k]);
            assert(spaces[k] >= space);
            assert(reaches_below(layout[k], end));
            let p = choose|p: int| 0 <= p < layout[k].len() && layout[k][p] < end;
            assert(forall|q: int| 0 <= q < members.len() ==> #[trigger] new[k][p] < #[trigger] members[q]);
            assert(starts_before(new[k], new[l]));
        } else {
            assert(new[l] == layout[ol]);
            if at < ol {
                assert(listed_before(images, layout[at], layout[ol]));
            }
            assert(spaces[at] < space);
            assert(spaces[ol] <= spaces[at]);
        }
    }
    assert forall|k: int| 0 <= k < new.len() implies is_group(images, pairs, #[trigger] new[k]) by {
        if k != at {
            let o = if k < at { k } else { k - 1 };
            assert(new[k] == layout[o]);
        }
    }
    let ngroups = groups.insert(at, group);
    let nspaces = spaces.insert(at, space);
    assert forall|k: int| 0 <= k < new.len() implies (#[trigger] ngroups[k])@ == group_of(
        images,
        pairs,
        new[k],
    ) by {
        if k != at {
            let o = if k < at { k } else { k - 1 };
            assert(new[k] == layout[o] && ngroups[k] == groups[o]);
        }
    }
    assert forall|k: int| 0 <= k < new.len() implies #[trigger] nspaces[k] == recoverable(
        images,
        new[k],
    ) by {
        if k != at {
            let o = if k < at { k } else { k - 1 };
            assert(new[k] == layout[o] && nspaces[k] == spaces[o]);
        }
    }
}

/// Puts the images that the pairs connect into groups. The groups that recover the most
/// space come first.
pub fn group_duplicates(images: &Vec<ImageInfo>, pairs: &Vec<VerifiedPair>) -> (r: Vec<
    DuplicateGroup,
>)
    requires
        in_range(images@, pairs@),
    ensures
        are_the_groups(models(images@), pairs@, group_models(r@)),
        models(images@) == Seq::new(images@.len(), |i: int| images@[i]@),
        group_models(r@) == Seq::new(r@.len(), |k: int| r@[k]@),
{
    let n: usize = images.len();
    let ghost all = models(images@);
    let reps: Vec<usize> = representatives(n, pairs);
    let found: Vec<Vec<usize>> = classes(images, &reps);
    let mut seen: Vec<bool> = Vec::new();
    let mut j: usize = 0;
    while j < n
        invariant
            j <= n,
            seen@.len() == j,
            forall|root: int| 0 <= root < j ==> !#[trigger] seen@[root],
        decreases n - j,
    {
        seen.push(false);
        j += 1;
    }
    let mut groups: Vec<DuplicateGroup> = Vec::new();
    let mut spaces: Vec<u128> = Vec::new();
    let ghost mut layout: Seq<Seq<int>> = Seq::empty();
    let mut i: usize = 0;
    while i < n
        invariant
            i <= n,
            n == images@.len(),
            n == all.len(),
            all == models(images@),
            in_range(images@, pairs@),
            reps@.len() == n,
            found@.len() == n,
            seen@.len() == n,
            forall|x: int| 0 <= x < n ==> #[trigger] reps@[x] < n,
            forall|x: int, y: int|
                0 <= x < n && 0 <= y < n ==> (#[trigger] connected(pairs@, x, y) <==> reps@[x]
                    == reps@[y]),
            forall|root: int|
                0 <= root < n ==> is_class(all, reps@, root, n as int, (#[trigger] found@[root])@),
            forall|root: int|
                0 <= root < n ==> (#[trigger] seen@[root] <==> exists|x: int|
                    0 <= x < i && #[trigger] reps@[x] == root),
            placed(all, pairs@, layout, spaces@, groups@, i as int),
            forall|root: int|
                0 <= root < n && #[trigger] seen@[root] && found@[root]@.len() >= 2 ==> exists|
                    k: int,
                |
                    0 <= k < layout.len() && #[trigger] layout[k] == ints(found@[root]@),
        decreases n - i,
    {
        let root: usize = reps[i];
        let ghost seen_before = seen@;
        let ghost layout_before = layout;
        if !seen[root] {
            seen.set(root, true);
            let members = &found[root];
            if members.len() >= 2 {
                let ghost group_members = ints(members@);
                proof {
                    assert(is_class(all, reps@, root as int, n as int, members@));
                    lemma_class_is_group(all, pairs@, reps@, root as int, members@);
                    assert(members@.contains(i));
                    lemma_ints_contains(members@, i as int);
                    assert forall|p: int| 0 <= p < group_members.len() implies
                        #[trigger] group_members[p] >= i by {
                        assert(members@.contains(members@[p]));
                        let x = members@[p] as int;
                        if x < i {
                            assert(reps@[x] == root);
                            assert(seen_before[root as int]);
                        }
                    }
                    assert forall|p: int| 0 <= p < members@.len() implies #[trigger] members@[p]
                        < images@.len() by {
                        assert(group_members[p] == members@[p]);
                    }
                }
                let group = make_group(images, pairs, members);
                let space: u128 = recoverable_space(images, members);
                let at: usize = place_of(&spaces, space);
                proof {
                    lemma_place(
                        all,
                        pairs@,
                        layout,
                        spaces@,
                        groups@,
                        i as int,
                        at as int,
                        group_members,
                        space,
                        group,
                    );
                    layout = layout.insert(at as int, group_members);
                    assert(layout[at as int] == group_members);
                    assert forall|k: int| 0 <= k < layout_before.len() implies exists|l: int|
                        0 <= l < layout.len() && #[trigger] layout[l] == #[trigger] layout_before[k] by {
                        let l = if k < at { k } else { k + 1 };
                        assert(layout[l] == layout_before[k]);
                    }
                }
                groups.insert(at, group);
                spaces.insert(at, space);
            }
        }
        proof {
            assert forall|k: int| 0 <= k < layout.len() implies reaches_below(
                #[trigger] layout[k],
                i + 1,
            ) by {
                if layout == layout_before {
                    assert(reaches_below(layout[k], i as int));
                }
            }
            assert forall|r: int| 0 <= r < n implies (#[trigger] seen@[r] <==> exists|x: int|
                0 <= x < i + 1 && #[trigger] reps@[x] == r) by {
                if r == root {
                    assert(reps@[i as int] == r);
                } else {
                    assert(seen@[r] == seen_before[r]);
                }
            }
        }
        i += 1;
    }
    proof {
        assert forall|x: int, y: int|
            0 <= x < all.len() && 0 <= y < all.len() && x != y && #[trigger] connected(
                pairs@,
                x,
                y,
            ) implies exists|k: int| 0 <= k < layout.len() && (#[trigger] layout[k]).contains(x) by {
            let root = reps@[x] as int;
            assert(seen@[root]);
            let class = found@[root]@;
            assert(is_class(all, reps@, root, n as int, class));
            assert(class.contains(x as usize));
            assert(class.contains(y as usize));
            let p = choose|p: int| 0 <= p < class.len() && class[p] == x as usize;
            let q = choose|q: int| 0 <= q < class.len() && class[q] == y as usize;
            assert(p != q);
            let k = choose|k: int| 0 <= k < layout.len() && #[trigger] layout[k] == ints(class);
            lemma_ints_contains(class, x);
            assert(layout[k].contains(x));
        }
        assert(presents(all, pairs@, layout, group_models(groups@)));
        assert(all =~= Seq::new(images@.len(), |i: int| images@[i]@));
        assert(group_models(groups@) =~= Seq::new(groups@.len(), |k: int| groups@[k]@));
    }
    groups
}

} // verus!
