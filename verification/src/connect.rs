//! Which images a list of pairs ties together.
use vstd::prelude::*;

use crate::pairs::VerifiedPair;

verus! {

/// Whether a pair joins `x` and `y`.
pub open spec fn joins(pair: VerifiedPair, x: int, y: int) -> bool {
    (pair.a == x && pair.b == y) || (pair.a == y && pair.b == x)
}

/// Whether one of the pairs joins `x` and `y`.
pub open spec fn linked(pairs: Seq<VerifiedPair>, x: int, y: int) -> bool {
    exists|k: int| 0 <= k < pairs.len() && joins(#[trigger] pairs[k], x, y)
}

/// Whether each step of `chain` goes along one of the pairs.
pub open spec fn is_chain(pairs: Seq<VerifiedPair>, chain: Seq<int>) -> bool {
    &&& chain.len() > 0
    &&& forall|i: int| 0 <= i < chain.len() - 1 ==> linked(pairs, #[trigger] chain[i], chain[i + 1])
}

/// Whether `chain` leads from `x` to `y`.
pub open spec fn leads(pairs: Seq<VerifiedPair>, chain: Seq<int>, x: int, y: int) -> bool {
    is_chain(pairs, chain) && chain.first() == x && chain.last() == y
}

/// Whether the pairs tie `x` and `y` together: a chain of them leads from one to the other.
pub open spec fn connected(pairs: Seq<VerifiedPair>, x: int, y: int) -> bool {
    exists|chain: Seq<int>| #[trigger] leads(pairs, chain, x, y)
}

/// What a new pair of `a` and `b` ties together, given what the pairs before it do.
pub open spec fn connected_with(pairs: Seq<VerifiedPair>, a: int, b: int, x: int, y: int) -> bool {
    ||| connected(pairs, x, y)
    ||| connected(pairs, x, a) && connected(pairs, b, y)
    ||| connected(pairs, x, b) && connected(pairs, a, y)
}

/// Every image is tied to itself.
pub proof fn connected_to_itself(pairs: Seq<VerifiedPair>, x: int)
    ensures
        connected(pairs, x, x),
{
    assert(leads(pairs, seq![x], x, x));
}

/// Images are tied to each other or not at all.
pub proof fn connected_both_ways(pairs: Seq<VerifiedPair>, x: int, y: int)
    requires
        connected(pairs, x, y),
    ensures
        connected(pairs, y, x),
{
    let chain = choose|chain: Seq<int>| #[trigger] leads(pairs, chain, x, y);
    let back = chain.reverse();
    assert forall|i: int| 0 <= i < back.len() - 1 implies linked(
        pairs,
        #[trigger] back[i],
        back[i + 1],
    ) by {
        let j = chain.len() - 2 - i;
        assert(linked(pairs, chain[j], chain[j + 1]));
        let k = choose|k: int|
            0 <= k < pairs.len() && joins(#[trigger] pairs[k], chain[j], chain[j + 1]);
        assert(joins(pairs[k], back[i], back[i + 1]));
    }
    assert(leads(pairs, back, y, x));
}

/// What is tied to a third image is tied together.
pub proof fn connected_through(pairs: Seq<VerifiedPair>, x: int, y: int, z: int)
    requires
        connected(pairs, x, y),
        connected(pairs, y, z),
    ensures
        connected(pairs, x, z),
{
    let c = choose|c: Seq<int>| #[trigger] leads(pairs, c, x, y);
    let d = choose|d: Seq<int>| #[trigger] leads(pairs, d, y, z);
    let e = c + d.drop_first();
    assert forall|i: int| 0 <= i < e.len() - 1 implies linked(pairs, #[trigger] e[i], e[i + 1]) by {
        if i < c.len() - 1 {
            assert(linked(pairs, c[i], c[i + 1]));
        } else {
            let j = i - (c.len() - 1);
            assert(linked(pairs, d[j], d[j + 1]));
            assert(e[i] == d[j]);
            assert(e[i + 1] == d[j + 1]);
        }
    }
    if d.len() > 1 {
        assert(e.last() == d.last());
    }
    assert(leads(pairs, e, x, z));
}

/// A pair ties its two images together.
pub proof fn a_pair_connects(pairs: Seq<VerifiedPair>, k: int)
    requires
        0 <= k < pairs.len(),
    ensures
        connected(pairs, pairs[k].a as int, pairs[k].b as int),
{
    let chain = seq![pairs[k].a as int, pairs[k].b as int];
    assert(joins(pairs[k], chain[0], chain[1]));
    assert(linked(pairs, chain[0], chain[1]));
    assert(leads(pairs, chain, pairs[k].a as int, pairs[k].b as int));
}

proof fn lemma_more_pairs(pairs: Seq<VerifiedPair>, pair: VerifiedPair, x: int, y: int)
    requires
        connected(pairs, x, y),
    ensures
        connected(pairs.push(pair), x, y),
{
    let more = pairs.push(pair);
    let chain = choose|chain: Seq<int>| #[trigger] leads(pairs, chain, x, y);
    assert forall|i: int| 0 <= i < chain.len() - 1 implies linked(
        more,
        #[trigger] chain[i],
        chain[i + 1],
    ) by {
        assert(linked(pairs, chain[i], chain[i + 1]));
        let k = choose|k: int|
            0 <= k < pairs.len() && joins(#[trigger] pairs[k], chain[i], chain[i + 1]);
        assert(more[k] == pairs[k]);
    }
    assert(leads(more, chain, x, y));
}

proof fn lemma_chain_with(pairs: Seq<VerifiedPair>, pair: VerifiedPair, chain: Seq<int>)
    requires
        is_chain(pairs.push(pair), chain),
    ensures
        connected_with(pairs, pair.a as int, pair.b as int, chain.first(), chain.last()),
    decreases chain.len(),
{
    let more = pairs.push(pair);
    let a = pair.a as int;
    let b = pair.b as int;
    let x = chain.first();
    connected_to_itself(pairs, x);
    if chain.len() > 1 {
        let shorter = chain.drop_last();
        let z = shorter.last();
        let y = chain.last();
        assert forall|i: int| 0 <= i < shorter.len() - 1 implies linked(
            more,
            #[trigger] shorter[i],
            shorter[i + 1],
        ) by {
            assert(linked(more, chain[i], chain[i + 1]));
        }
        lemma_chain_with(pairs, pair, shorter);
        assert(shorter.first() == x);
        let i = chain.len() - 2;
        assert(linked(more, chain[i], chain[i + 1]));
        let k = choose|k: int|
            0 <= k < more.len() && joins(#[trigger] more[k], chain[i], chain[i + 1]);
        connected_to_itself(pairs, a);
        connected_to_itself(pairs, b);
        if k < pairs.len() {
            assert(joins(pairs[k], z, y));
            a_pair_connects(pairs, k);
            if pairs[k].a != z {
                connected_both_ways(pairs, pairs[k].a as int, pairs[k].b as int);
            }
            assert(connected(pairs, z, y));
            if connected(pairs, x, z) {
                connected_through(pairs, x, z, y);
            } else if connected(pairs, x, a) && connected(pairs, b, z) {
                connected_through(pairs, b, z, y);
            } else {
                connected_through(pairs, a, z, y);
            }
        } else {
            assert(joins(pair, z, y));
        }
    }
}

/// One more pair ties together just what was tied to its two images.
pub proof fn one_more_pair_connects(pairs: Seq<VerifiedPair>, pair: VerifiedPair, x: int, y: int)
    ensures
        connected(pairs.push(pair), x, y) <==> connected_with(
            pairs,
            pair.a as int,
            pair.b as int,
            x,
            y,
        ),
        connected(pairs.push(pair), x, y) <==> {
            ||| connected(pairs, x, y)
            ||| connected(pairs, x, pair.a as int) && connected(pairs, pair.b as int, y)
            ||| connected(pairs, x, pair.b as int) && connected(pairs, pair.a as int, y)
        },
{
    let more = pairs.push(pair);
    let a = pair.a as int;
    let b = pair.b as int;
    if connected(more, x, y) {
        let chain = choose|chain: Seq<int>| #[trigger] leads(more, chain, x, y);
        lemma_chain_with(pairs, pair, chain);
    }
    a_pair_connects(more, pairs.len() as int);
    connected_both_ways(more, a, b);
    if connected(pairs, x, y) {
        lemma_more_pairs(pairs, pair, x, y);
    }
    if connected(pairs, x, a) && connected(pairs, b, y) {
        lemma_more_pairs(pairs, pair, x, a);
        lemma_more_pairs(pairs, pair, b, y);
        connected_through(more, x, a, b);
        connected_through(more, x, b, y);
    }
    if connected(pairs, x, b) && connected(pairs, a, y) {
        lemma_more_pairs(pairs, pair, x, b);
        lemma_more_pairs(pairs, pair, a, y);
        connected_through(more, x, b, a);
        connected_through(more, x, a, y);
    }
}

/// No pairs tie nothing together.
pub proof fn no_pairs_connect_nothing(x: int, y: int)
    ensures
        connected(Seq::<VerifiedPair>::empty(), x, y) <==> x == y,
{
    let none = Seq::<VerifiedPair>::empty();
    connected_to_itself(none, x);
    if connected(none, x, y) {
        let chain = choose|chain: Seq<int>| #[trigger] leads(none, chain, x, y);
        if chain.len() > 1 {
            assert(linked(none, chain[0], chain[1]));
        }
    }
}

} // verus!
