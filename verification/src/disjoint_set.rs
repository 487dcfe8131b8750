//! A partition of the 64 squares into groups, kept as a forest of parent links.

use vstd::prelude::*;

verus! {

/// A partition of `0..64`. Every element starts in a group of its own; `join`
/// merges two groups and never splits one.
pub struct DisjointSet {
    /// The parent of each element, or -1 for the representative of a group.
    pre: [i32; 64],
    /// A height for each element that grows along every parent link.
    rank: Ghost<Seq<int>>,
    /// A bound on all heights.
    cap: Ghost<int>,
}

/// Parent links that lead upwards in `rank`, so that every chain of them ends.
pub open spec fn forest(pre: Seq<i32>, rank: Seq<int>, cap: int) -> bool {
    &&& pre.len() == 64
    &&& rank.len() == 64
    &&& forall|i: int| 0 <= i < 64 ==> 0 <= #[trigger] rank[i] <= cap
    &&& forall|i: int|
        0 <= i < 64 ==> #[trigger] pre[i] == -1 || (0 <= pre[i] < 64 && rank[i] < rank[pre[i] as int])
}

/// The element without a parent that the chain of parent links from `a` ends in.
pub open spec fn root_of(pre: Seq<i32>, rank: Seq<int>, cap: int, a: int) -> int
    decreases cap - rank[a],
    when forest(pre, rank, cap) && 0 <= a < 64
{
    if pre[a] == -1 {
        a
    } else {
        root_of(pre, rank, cap, pre[a] as int)
    }
}

/// The chain of parent links from an element ends in an element without a
/// parent, which is no lower than the element, and higher unless it is the
/// element itself.
proof fn lemma_root_props(pre: Seq<i32>, rank: Seq<int>, cap: int, a: int)
    requires
        forest(pre, rank, cap),
        0 <= a < 64,
    ensures
        0 <= root_of(pre, rank, cap, a) < 64,
        pre[root_of(pre, rank, cap, a)] == -1,
        rank[a] <= rank[root_of(pre, rank, cap, a)],
        pre[a] != -1 ==> rank[a] < rank[root_of(pre, rank, cap, a)],
        pre[a] != -1 ==> root_of(pre, rank, cap, a) != a,
    decreases cap - rank[a],
{
    if pre[a] != -1 {
        lemma_root_props(pre, rank, cap, pre[a] as int);
    }
}

/// Linking an element straight to its representative changes no representative.
proof fn lemma_compress(pre: Seq<i32>, rank: Seq<int>, cap: int, k: int, i: int)
    requires
        forest(pre, rank, cap),
        0 <= k < 64,
        pre[k] != -1,
        0 <= i < 64,
    ensures
        forest(pre.update(k, root_of(pre, rank, cap, k) as i32), rank, cap),
        root_of(pre.update(k, root_of(pre, rank, cap, k) as i32), rank, cap, i) == root_of(
            pre,
            rank,
            cap,
            i,
        ),
    decreases cap - rank[i],
{
    let r = root_of(pre, rank, cap, k);
    let pre2 = pre.update(k, r as i32);
    lemma_root_props(pre, rank, cap, k);
    assert(forest(pre2, rank, cap)) by {
        assert forall|j: int| 0 <= j < 64 implies #[trigger] pre2[j] == -1 || (0 <= pre2[j] < 64
            && rank[j] < rank[pre2[j] as int]) by {
            if j != k {
                assert(pre2[j] == pre[j]);
            }
        }
    }
    if i == k {
        assert(pre2[r] == -1);
        assert(root_of(pre2, rank, cap, r) == r);
    } else if pre[i] != -1 {
        assert(pre2[i] == pre[i]);
        lemma_compress(pre, rank, cap, k, pre[i] as int);
    } else {
        assert(pre2[i] == -1);
    }
}

/// The heights after the group of `rb` was hung below `ra`.
pub open spec fn joined_rank(pre: Seq<i32>, rank: Seq<int>, cap: int, ra: int, rb: int) -> Seq<
    int,
> {
    Seq::new(
        64,
        |j: int|
            if root_of(pre, rank, cap, j) == ra {
                rank[j] + rank[rb] + 1
            } else {
                rank[j]
            },
    )
}

/// Hanging one representative below another merges their two groups and
/// leaves all others as they were.
proof fn lemma_join(pre: Seq<i32>, rank: Seq<int>, cap: int, ra: int, rb: int, i: int)
    requires
        forest(pre, rank, cap),
        0 <= ra < 64,
        0 <= rb < 64,
        ra != rb,
        pre[ra] == -1,
        pre[rb] == -1,
        0 <= i < 64,
    ensures
        forest(pre.update(rb, ra as i32), joined_rank(pre, rank, cap, ra, rb), 2 * cap + 1),
        root_of(pre.update(rb, ra as i32), joined_rank(pre, rank, cap, ra, rb), 2 * cap + 1, i)
            == (if root_of(pre, rank, cap, i) == rb {
            ra
        } else {
            root_of(pre, rank, cap, i)
        }),
    decreases 2 * cap + 1 - joined_rank(pre, rank, cap, ra, rb)[i],
{
    let pre2 = pre.update(rb, ra as i32);
    let rank2 = joined_rank(pre, rank, cap, ra, rb);
    let cap2 = 2 * cap + 1;
    assert(forest(pre2, rank2, cap2)) by {
        assert forall|j: int| 0 <= j < 64 implies #[trigger] pre2[j] == -1 || (0 <= pre2[j] < 64
            && rank2[j] < rank2[pre2[j] as int]) by {
            if j == rb {
                assert(root_of(pre, rank, cap, ra) == ra);
                assert(root_of(pre, rank, cap, rb) == rb);
            } else {
                assert(pre2[j] == pre[j]);
                if pre[j] != -1 {
                    assert(root_of(pre, rank, cap, j) == root_of(pre, rank, cap, pre[j] as int));
                }
            }
        }
    }
    if i == rb {
        assert(root_of(pre, rank, cap, rb) == rb);
        assert(pre2[ra] == -1);
        assert(root_of(pre2, rank2, cap2, ra) == ra);
    } else if pre[i] != -1 {
        assert(pre2[i] == pre[i]);
        lemma_join(pre, rank, cap, ra, rb, pre[i] as int);
    } else {
        assert(pre2[i] == -1);
    }
}

impl DisjointSet {
    /// The invariant of the forest of parent links.
    pub closed spec fn wf(&self) -> bool {
        forest(self.pre@, self.rank@, self.cap@)
    }

    /// The representative of the group of `a`.
    pub closed spec fn root(&self, a: int) -> int {
        root_of(self.pre@, self.rank@, self.cap@, a)
    }

    /// The partition in which every element is alone.
    pub fn new() -> (r: Self)
        ensures
            r.wf(),
            forall|i: int| 0 <= i < 64 ==> r.root(i) == i,
    {
        let r = DisjointSet { pre: [-1i32;64], rank: Ghost(Seq::new(64, |j: int| 0int)), cap: Ghost(0int) };
        assert(forest(r.pre@, r.rank@, r.cap@));
        r
    }

    /// The representative of the group of `a`. Shortens the parent links on the
    /// way; the groups stay as they are.
    pub fn get(&mut self, a: i32) -> (r: i32)
        requires
            old(self).wf(),
            0 <= a < 64,
        ensures
            final(self).wf(),
            r == old(self).root(a as int),
            0 <= r < 64,
            forall|i: int| 0 <= i < 64 ==> final(self).root(i) == old(self).root(i),
    {
        let mut r = a;
        proof {
            lemma_root_props(self.pre@, self.rank@, self.cap@, a as int);
        }
        while self.pre[r as usize] != -1
            invariant
                self.wf(),
                0 <= r < 64,
                self.root(r as int) == self.root(a as int),
            decreases self.cap@ - self.rank@[r as int],
        {
            r = self.pre[r as usize];
        }
        let mut k = a;
        while k != r
            invariant
                self.wf(),
                0 <= k < 64,
                0 <= r < 64,
                self.root(k as int) == r,
                self.rank@ == old(self).rank@,
                self.cap@ == old(self).cap@,
                r == old(self).root(a as int),
                forall|i: int| 0 <= i < 64 ==> self.root(i) == old(self).root(i),
            decreases self.cap@ - self.rank@[k as int],
        {
            let j = self.pre[k as usize];
            proof {
                lemma_root_props(self.pre@, self.rank@, self.cap@, k as int);
                assert forall|i: int| 0 <= i < 64 implies root_of(
                    self.pre@.update(k as int, r),
                    self.rank@,
                    self.cap@,
                    i,
                ) == self.root(i) by {
                    lemma_compress(self.pre@, self.rank@, self.cap@, k as int, i);
                }
                lemma_compress(self.pre@, self.rank@, self.cap@, k as int, j as int);
            }
            self.pre[k as usize] = r;
            k = j;
        }
        r
    }

    /// Merges the groups of `a` and `b`.
    pub fn join(&mut self, a: i32, b: i32)
        requires
            old(self).wf(),
            0 <= a < 64,
            0 <= b < 64,
        ensures
            final(self).wf(),
            forall|i: int|
                0 <= i < 64 ==> final(self).root(i) == (if old(self).root(i) == old(self).root(
                    b as int,
                ) {
                    old(self).root(a as int)
                } else {
                    old(self).root(i)
                }),
    {
        let ra = self.get(a);
        let rb = self.get(b);
        if ra != rb {
            proof {
                lemma_root_props(self.pre@, self.rank@, self.cap@, a as int);
                lemma_root_props(self.pre@, self.rank@, self.cap@, b as int);
                assert forall|i: int| 0 <= i < 64 implies root_of(
                    self.pre@.update(rb as int, ra),
                    joined_rank(self.pre@, self.rank@, self.cap@, ra as int, rb as int),
                    2 * self.cap@ + 1,
                    i,
                ) == (if self.root(i) == rb {
                    ra as int
                } else {
                    self.root(i)
                }) by {
                    lemma_join(self.pre@, self.rank@, self.cap@, ra as int, rb as int, i);
                }
                lemma_join(self.pre@, self.rank@, self.cap@, ra as int, rb as int, 0);
            }
            let ghost rank2 = joined_rank(self.pre@, self.rank@, self.cap@, ra as int, rb as int);
            let ghost cap2 = 2 * self.cap@ + 1;
            self.pre[rb as usize] = ra;
            self.rank = Ghost(rank2);
            self.cap = Ghost(cap2);
        }
    }

    /// Whether all of `items` are in one group. The groups stay as they are.
    pub fn is_joint(&mut self, items: &Vec<i32>) -> (r: bool)
        requires
            old(self).wf(),
            forall|i: int| 0 <= i < items.len() ==> 0 <= #[trigger] items[i] < 64,
        ensures
            final(self).wf(),
            forall|i: int| 0 <= i < 64 ==> final(self).root(i) == old(self).root(i),
            r <==> forall|i: int, j: int|
                0 <= i < items.len() && 0 <= j < items.len() ==> old(self).root(items[i] as int)
                    == old(self).root(items[j] as int),
    {
        if items.len() == 0 {
            return true;
        }
        let e = self.get(items[0]);
        let mut n: usize = 1;
        while n < items.len()
            invariant
                self.wf(),
                1 <= n <= items.len(),
                e == old(self).root(items[0] as int),
                forall|i: int| 0 <= i < items.len() ==> 0 <= #[trigger] items[i] < 64,
                forall|i: int| 0 <= i < 64 ==> self.root(i) == old(self).root(i),
                forall|i: int| 0 <= i < n ==> old(self).root(#[trigger] items[i] as int) == e,
            decreases items.len() - n,
        {
            let x = self.get(items[n]);
            if x != e {
                return false;
            }
            n = n + 1;
        }
        true
    }
}

} // verus!
