//! Disjoint sets over `0..n`: union by rank, with paths halved on each lookup.
use vstd::prelude::*;
use vstd::set_lib::*;

verus! {

/// A partition of `0..n` into disjoint classes, merged two at a time.
pub struct DisjointSets {
    parent: Vec<usize>,
    rank: Vec<usize>,
    /// The representative of each element.
    rep: Ghost<Seq<int>>,
}

impl DisjointSets {
    /// How many elements are partitioned.
    pub closed spec fn size(self) -> nat {
        self.parent@.len()
    }

    /// The element that stands for the class of `x`.
    pub closed spec fn representative(self, x: int) -> int {
        self.rep@[x]
    }

    /// Whether `x` and `y` lie in one class.
    pub open spec fn same(self, x: int, y: int) -> bool {
        self.representative(x) == self.representative(y)
    }

    spec fn roots(self) -> Set<int> {
        set_int_range(0, self.size() as int).filter(|x: int| self.parent@[x] == x)
    }

    proof fn lemma_roots_finite(self)
        ensures
            self.roots().finite(),
    {
        lemma_int_range(0, self.size() as int);
    }

    /// The parents form a forest in which ranks grow towards the roots, and each
    /// element's representative is the root above it. A rank is never larger than the
    /// number of merges done, which is the number of roots lost.
    pub closed spec fn wf(self) -> bool {
        let n = self.parent@.len();
        &&& self.rank@.len() == n
        &&& self.rep@.len() == n
        &&& forall|x: int| 0 <= x < n ==> 0 <= #[trigger] self.parent@[x] < n
        &&& forall|x: int| 0 <= x < n ==> 0 <= #[trigger] self.rep@[x] < n
        &&& forall|x: int|
            0 <= x < n ==> self.parent@[#[trigger] self.rep@[x]] == self.rep@[x]
        &&& forall|x: int|
            0 <= x < n ==> self.rep@[#[trigger] self.parent@[x] as int] == self.rep@[x]
        &&& forall|x: int|
            0 <= x < n && #[trigger] self.parent@[x] == x ==> self.rep@[x] == x
        &&& forall|x: int|
            0 <= x < n && #[trigger] self.parent@[x] != x ==> self.rank@[x]
                < self.rank@[self.parent@[x] as int]
        &&& forall|x: int|
            0 <= x < n ==> #[trigger] self.rank@[x] + self.roots().len() <= n
    }

    /// `n` classes of one element each.
    pub fn new(n: usize) -> (r: DisjointSets)
        ensures
            r.wf(),
            r.size() == n,
            forall|x: int| 0 <= x < n ==> #[trigger] r.representative(x) == x,
    {
        let mut parent: Vec<usize> = Vec::new();
        let mut rank: Vec<usize> = Vec::new();
        let mut i: usize = 0;
        while i < n
            invariant
                i <= n,
                parent@.len() == i,
                rank@.len() == i,
                forall|x: int| 0 <= x < i ==> #[trigger] parent@[x] == x,
                forall|x: int| 0 <= x < i ==> #[trigger] rank@[x] == 0,
            decreases n - i,
        {
            parent.push(i);
            rank.push(0);
            i += 1;
        }
        let r = DisjointSets { parent, rank, rep: Ghost(Seq::new(n as nat, |x: int| x)) };
        proof {
            assert(r.roots() =~= set_int_range(0, n as int));
            lemma_int_range(0, n as int);
        }
        r
    }

    /// The representative of `x`. Halves the path that it walks; the classes stay.
    pub fn find(&mut self, x: usize) -> (r: usize)
        requires
            old(self).wf(),
            x < old(self).size(),
        ensures
            final(self).wf(),
            final(self).size() == old(self).size(),
            r < old(self).size(),
            r == old(self).representative(x as int),
            forall|y: int|
                0 <= y < old(self).size() ==> #[trigger] final(self).representative(y) == old(
                    self,
                ).representative(y),
    {
        self.find_root(x)
    }

    /// Puts the classes of `a` and `b` together.
    pub fn union(&mut self, a: usize, b: usize)
        requires
            old(self).wf(),
            a < old(self).size(),
            b < old(self).size(),
        ensures
            final(self).wf(),
            final(self).size() == old(self).size(),
            forall|x: int, y: int|
                0 <= x < old(self).size() && 0 <= y < old(self).size() ==> (
                #[trigger] final(self).same(x, y) <==> old(self).same(x, y) || (old(self).same(
                    x,
                    a as int,
                ) && old(self).same(b as int, y)) || (old(self).same(x, b as int) && old(
                    self,
                ).same(a as int, y))),
    {
        let ra: usize = self.find_root(a);
        let rb: usize = self.find_root(b);
        if ra == rb {
            return;
        }
        if self.rank[ra] < self.rank[rb] {
            let rank: usize = self.rank[rb];
            self.attach(ra, rb, rank);
        } else if self.rank[ra] > self.rank[rb] {
            let rank: usize = self.rank[ra];
            self.attach(rb, ra, rank);
        } else {
            proof {
                self.lemma_roots_finite();
                assert(self.roots().contains(ra as int));
                assert(self.roots().contains(rb as int));
                assert(self.roots().remove(ra as int).len() == self.roots().len() - 1);
                assert(self.rank@[ra as int] + self.roots().len() <= self.size());
            }
            assert(self.parent.len() == self.size());
            let bumped: usize = self.rank[ra] + 1;
            self.attach(rb, ra, bumped);
        }
    }

    fn find_root(&mut self, x: usize) -> (r: usize)
        requires
            old(self).wf(),
            x < old(self).size(),
        ensures
            final(self).wf(),
            final(self).size() == old(self).size(),
            r < old(self).size(),
            r == old(self).rep@[x as int],
            final(self).rep@ == old(self).rep@,
            final(self).rank@ == old(self).rank@,
            final(self).parent@[r as int] == r,
    {
        let mut x: usize = x;
        let ghost start = x as int;
        while self.parent[x] != x
            invariant
                self.wf(),
                self.size() == old(self).size(),
                x < self.size(),
                self.rep@ == old(self).rep@,
                self.rank@ == old(self).rank@,
                self.rep@[x as int] == old(self).rep@[start],
                0 <= start < old(self).size(),
            decreases self.size() - self.rank@[x as int],
        {
            let ghost before = *self;
            let p: usize = self.parent[x];
            let g: usize = self.parent[p];
            self.parent.set(x, g);
            proof {
                assert(before.rank@[x as int] < before.rank@[p as int]);
                assert(before.rank@[p as int] <= before.rank@[g as int]);
                assert(g != x);
                assert(self.roots() =~= before.roots());
                assert forall|y: int| 0 <= y < self.size() implies self.rep@[
                    #[trigger] self.parent@[y] as int] == self.rep@[y] by {
                    assert(before.rep@[before.parent@[y] as int] == before.rep@[y]);
                    assert(before.rep@[before.parent@[p as int] as int] == before.rep@[p as int]);
                }
                assert forall|y: int| 0 <= y < self.size() implies self.parent@[
                    #[trigger] self.rep@[y]] == self.rep@[y] by {
                    assert(before.parent@[before.rep@[y]] == before.rep@[y]);
                }
                assert(self.rank@[g as int] + self.roots().len() <= self.size());
            }
            x = g;
        }
        x
    }

    /// Hangs the root `child` below the root `top`, which from then on has the rank
    /// `rank`.
    fn attach(&mut self, child: usize, top: usize, rank: usize)
        requires
            old(self).wf(),
            child < old(self).size(),
            top < old(self).size(),
            child != top,
            old(self).parent@[child as int] == child,
            old(self).parent@[top as int] == top,
            old(self).rank@[child as int] < rank,
            old(self).rank@[top as int] <= rank <= old(self).rank@[top as int] + 1,
        ensures
            final(self).wf(),
            final(self).size() == old(self).size(),
            final(self).rep@ == old(self).rep@.map_values(
                |r: int| if r == child { top as int } else { r },
            ),
    {
        self.parent.set(child, top);
        self.rank.set(top, rank);
        proof {
            self.rep@ = self.rep@.map_values(|r: int| if r == child { top as int } else { r });
            let before = *old(self);
            before.lemma_roots_finite();
            assert(self.roots() =~= before.roots().remove(child as int));
            assert(before.roots().contains(child as int));
            assert forall|x: int| 0 <= x < self.size() implies self.rep@[
                #[trigger] self.parent@[x] as int] == self.rep@[x] by {
                assert(before.rep@[before.parent@[x] as int] == before.rep@[x]);
            }
            assert forall|x: int| 0 <= x < self.size() implies self.parent@[
                #[trigger] self.rep@[x]] == self.rep@[x] by {
                assert(before.parent@[before.rep@[x]] == before.rep@[x]);
            }
            assert forall|x: int| 0 <= x < self.size() implies #[trigger] self.rank@[x]
                + self.roots().len() <= self.size() by {
                assert(before.rank@[x] + before.roots().len() <= before.size());
            }
        }
    }
}

} // verus!
