//! Disjoint sets of node ids with path halving and union by rank, as used to
//! merge touching conductor shapes into nets.
use vstd::prelude::*;
use vstd::arithmetic::power2::{lemma2_to64, lemma_pow2_strictly_increases, lemma_pow2_unfold, pow2};
use vstd::set_lib::{lemma_int_range, lemma_len_subset, lemma_set_disjoint_lens, set_int_range};

verus! {

/// Parent pointers stay in range, and ranks strictly grow along them.
pub open spec fn ordered(parent: Seq<u32>, rank: Seq<u8>) -> bool {
    &&& rank.len() == parent.len()
    &&& forall|x: int| 0 <= x < parent.len() ==> #[trigger] parent[x] < parent.len()
    &&& forall|x: int| 0 <= x < parent.len() && #[trigger] parent[x] != x ==> rank[x] < rank[parent[x] as int]
}

/// The root reached from `x` by following parent pointers.
pub open spec fn root(parent: Seq<u32>, rank: Seq<u8>, x: int) -> int
    decreases 256 - rank[x],
    when ordered(parent, rank) && 0 <= x < parent.len()
{
    if parent[x] == x {
        x
    } else {
        root(parent, rank, parent[x] as int)
    }
}

/// The nodes whose root is `r`.
pub open spec fn class(parent: Seq<u32>, rank: Seq<u8>, r: int) -> Set<int> {
    Set::new(|x: int| 0 <= x < parent.len() && root(parent, rank, x) == r)
}

/// Ordered pointers, ids that fit `u32`, and every root of rank `k` heading a
/// class of at least `2^k` nodes.
pub open spec fn uf_wf(parent: Seq<u32>, rank: Seq<u8>) -> bool {
    &&& ordered(parent, rank)
    &&& parent.len() <= u32::MAX
    &&& forall|r: int| 0 <= r < parent.len() && parent[r] == r ==> pow2(rank[r] as nat) <= #[trigger] class(parent, rank, r).len()
}

proof fn lemma_root(parent: Seq<u32>, rank: Seq<u8>, x: int)
    requires
        ordered(parent, rank),
        0 <= x < parent.len(),
    ensures
        0 <= root(parent, rank, x) < parent.len(),
        parent[root(parent, rank, x)] == root(parent, rank, x),
        parent[x] != x ==> root(parent, rank, x) == root(parent, rank, parent[x] as int),
    decreases 256 - rank[x],
{
    if parent[x] != x {
        assert(parent[x] < parent.len());
        lemma_root(parent, rank, parent[x] as int);
    }
}

proof fn lemma_class_bounded(parent: Seq<u32>, rank: Seq<u8>, r: int)
    ensures
        class(parent, rank, r).finite(),
        class(parent, rank, r).len() <= parent.len(),
{
    lemma_int_range(0, parent.len() as int);
    assert(class(parent, rank, r).subset_of(set_int_range(0, parent.len() as int)));
    lemma_len_subset(class(parent, rank, r), set_int_range(0, parent.len() as int));
}

/// Roots of a well-formed forest have small ranks: `2^rank` nodes fit in
/// fewer than `2^32` ids.
proof fn lemma_rank_small(parent: Seq<u32>, rank: Seq<u8>, r: int)
    requires
        uf_wf(parent, rank),
        0 <= r < parent.len(),
        parent[r] == r,
    ensures
        rank[r] < 32,
{
    lemma_class_bounded(parent, rank, r);
    assert(pow2(rank[r] as nat) <= class(parent, rank, r).len());
    lemma2_to64();
    if rank[r] >= 32 {
        if rank[r] > 32 {
            lemma_pow2_strictly_increases(32, rank[r] as nat);
        }
    }
}

/// Pointing `r` at its grandparent keeps the order and every root.
proof fn lemma_halve(parent: Seq<u32>, rank: Seq<u8>, r: int, y: int)
    requires
        ordered(parent, rank),
        0 <= r < parent.len(),
        parent[r] != r,
        0 <= y < parent.len(),
    ensures
        ordered(parent.update(r, parent[parent[r] as int]), rank),
        root(parent.update(r, parent[parent[r] as int]), rank, y) == root(parent, rank, y),
    decreases 256 - rank[y],
{
    let p = parent[r] as int;
    let np = parent.update(r, parent[p]);
    assert(parent[p] < parent.len());
    assert(ordered(np, rank)) by {
        assert forall|x: int| 0 <= x < np.len() && #[trigger] np[x] != x implies rank[x] < rank[np[x] as int] by {
            if x == r {
                if parent[p] != p {
                    assert(rank[p] < rank[parent[p] as int]);
                }
            }
        }
    }
    lemma_root(parent, rank, y);
    if y == r {
        lemma_halve(parent, rank, r, parent[p] as int);
        lemma_root(parent, rank, p);
        lemma_root(np, rank, y);
    } else if parent[y] != y {
        lemma_halve(parent, rank, r, parent[y] as int);
        lemma_root(np, rank, y);
    }
}

/// Hanging root `child` under root `top` (with ranks that keep the order)
/// sends `child`'s class to `top` and leaves every other root alone.
proof fn lemma_link(parent: Seq<u32>, rank: Seq<u8>, new_rank: Seq<u8>, child: int, top: int, y: int)
    requires
        ordered(parent, rank),
        0 <= child < parent.len(),
        0 <= top < parent.len(),
        child != top,
        parent[child] == child,
        parent[top] == top,
        new_rank.len() == rank.len(),
        forall|x: int| 0 <= x < rank.len() && x != top ==> #[trigger] new_rank[x] == rank[x],
        rank[top] <= new_rank[top],
        rank[child] < new_rank[top],
        0 <= y < parent.len(),
    ensures
        ordered(parent.update(child, top as u32), new_rank),
        root(parent.update(child, top as u32), new_rank, y)
            == if root(parent, rank, y) == child { top } else { root(parent, rank, y) },
    decreases 256 - rank[y],
{
    let np = parent.update(child, top as u32);
    assert(ordered(np, new_rank)) by {
        assert forall|x: int| 0 <= x < np.len() && #[trigger] np[x] != x implies new_rank[x] < new_rank[np[x] as int] by {
            if x != child {
                assert(parent[x] != x);
                assert(x != top);
                assert(rank[x] < rank[parent[x] as int]);
                if parent[x] as int != top {
                    assert(new_rank[parent[x] as int] == rank[parent[x] as int]);
                }
            }
        }
        assert forall|x: int| 0 <= x < np.len() implies #[trigger] np[x] < np.len() by {
            if x != child {
                assert(parent[x] < parent.len());
            }
        }
    }
    lemma_root(parent, rank, y);
    if y == child {
        lemma_root(np, new_rank, y);
        lemma_root(np, new_rank, top);
    } else if parent[y] == y {
        lemma_root(np, new_rank, y);
    } else {
        lemma_link(parent, rank, new_rank, child, top, parent[y] as int);
        lemma_root(np, new_rank, y);
    }
}

proof fn lemma_halve_wf(parent: Seq<u32>, rank: Seq<u8>, r: int)
    requires
        uf_wf(parent, rank),
        0 <= r < parent.len(),
        parent[r] != r,
    ensures
        uf_wf(parent.update(r, parent[parent[r] as int]), rank),
        forall|y: int| 0 <= y < parent.len() ==> #[trigger] root(parent.update(r, parent[parent[r] as int]), rank, y) == root(parent, rank, y),
{
    let np = parent.update(r, parent[parent[r] as int]);
    lemma_halve(parent, rank, r, r);
    assert forall|y: int| 0 <= y < parent.len() implies #[trigger] root(np, rank, y) == root(parent, rank, y) by {
        lemma_halve(parent, rank, r, y);
    }
    assert forall|q: int| 0 <= q < np.len() && np[q] == q implies pow2(rank[q] as nat) <= #[trigger] class(np, rank, q).len() by {
        assert(class(np, rank, q) =~= class(parent, rank, q));
        assert(parent[q] == q);
    }
}

proof fn lemma_link_wf(parent: Seq<u32>, rank: Seq<u8>, new_rank: Seq<u8>, child: int, top: int)
    requires
        uf_wf(parent, rank),
        0 <= child < parent.len(),
        0 <= top < parent.len(),
        child != top,
        parent[child] == child,
        parent[top] == top,
        new_rank.len() == rank.len(),
        forall|x: int| 0 <= x < rank.len() && x != top ==> #[trigger] new_rank[x] == rank[x],
        rank[top] <= new_rank[top],
        rank[child] < new_rank[top],
        pow2(new_rank[top] as nat) <= class(parent, rank, top).len() + class(parent, rank, child).len(),
    ensures
        uf_wf(parent.update(child, top as u32), new_rank),
        forall|y: int| 0 <= y < parent.len() ==> #[trigger] root(parent.update(child, top as u32), new_rank, y)
            == if root(parent, rank, y) == child { top } else { root(parent, rank, y) },
{
    let np = parent.update(child, top as u32);
    lemma_link(parent, rank, new_rank, child, top, top);
    assert forall|y: int| 0 <= y < parent.len() implies #[trigger] root(np, new_rank, y)
        == if root(parent, rank, y) == child { top } else { root(parent, rank, y) } by {
        lemma_link(parent, rank, new_rank, child, top, y);
    }
    lemma_class_bounded(parent, rank, top);
    lemma_class_bounded(parent, rank, child);
    assert(class(np, new_rank, top) =~= class(parent, rank, top) + class(parent, rank, child));
    assert(class(parent, rank, top).disjoint(class(parent, rank, child)));
    lemma_set_disjoint_lens(class(parent, rank, top), class(parent, rank, child));
    assert forall|q: int| 0 <= q < np.len() && np[q] == q implies pow2(new_rank[q] as nat) <= #[trigger] class(np, new_rank, q).len() by {
        if q != top {
            assert(q != child);
            assert(class(np, new_rank, q) =~= class(parent, rank, q));
            assert(new_rank[q] == rank[q]);
        }
    }
}

/// Disjoint sets over the ids `0..n`.
pub struct UnionFind {
    parent: Vec<u32>,
    rank: Vec<u8>,
}

impl UnionFind {
    pub closed spec fn len(&self) -> nat {
        self.parent@.len()
    }

    pub closed spec fn wf(&self) -> bool {
        uf_wf(self.parent@, self.rank@)
    }

    /// The representative of the class of `x`.
    pub closed spec fn rep(&self, x: int) -> int {
        root(self.parent@, self.rank@, x)
    }

    /// A representative is one of the ids.
    pub proof fn lemma_rep_in_range(&self, x: int)
        requires
            self.wf(),
            0 <= x < self.len(),
        ensures
            0 <= self.rep(x) < self.len(),
    {
        lemma_root(self.parent@, self.rank@, x);
    }

    /// `n` singleton classes.
    pub fn new(n: usize) -> (uf: UnionFind)
        requires
            n <= u32::MAX,
        ensures
            uf.wf(),
            uf.len() == n,
            forall|x: int| 0 <= x < n ==> #[trigger] uf.rep(x) == x,
    {
        let mut parent: Vec<u32> = Vec::new();
        let mut rank: Vec<u8> = Vec::new();
        let mut i: usize = 0;
        while i < n
            invariant
                n <= u32::MAX,
                i <= n,
                parent@.len() == i,
                rank@.len() == i,
                forall|x: int| 0 <= x < i ==> #[trigger] parent@[x] == x && rank@[x] == 0,
            decreases n - i,
        {
            parent.push(i as u32);
            rank.push(0);
            i = i + 1;
        }
        let uf = UnionFind { parent, rank };
        proof {
            assert(ordered(uf.parent@, uf.rank@));
            assert forall|x: int| 0 <= x < n implies #[trigger] root(uf.parent@, uf.rank@, x) == x by {
                assert(uf.parent@[x] == x);
            }
            assert forall|r: int| 0 <= r < n && uf.parent@[r] == r
                implies pow2(uf.rank@[r] as nat) <= #[trigger] class(uf.parent@, uf.rank@, r).len() by {
                assert(class(uf.parent@, uf.rank@, r) =~= set![r]);
                lemma2_to64();
            }
        }
        uf
    }

    /// The representative of `x`, halving the path to it on the way.
    pub fn find(&mut self, x: u32) -> (r: u32)
        requires
            old(self).wf(),
            x < old(self).len(),
        ensures
            final(self).wf(),
            final(self).len() == old(self).len(),
            r == old(self).rep(x as int),
            forall|y: int| 0 <= y < old(self).len() ==> #[trigger] final(self).rep(y) == old(self).rep(y),
    {
        let ghost p0 = self.parent@;
        let ghost k0 = self.rank@;
        proof {
            lemma_root(p0, k0, x as int);
        }
        let mut r = x;
        while self.parent[r as usize] != r
            invariant
                uf_wf(self.parent@, self.rank@),
                self.rank@ == k0,
                self.parent@.len() == p0.len(),
                r < p0.len(),
                root(self.parent@, k0, r as int) == root(p0, k0, x as int),
                forall|y: int| 0 <= y < p0.len() ==> #[trigger] root(self.parent@, k0, y) == root(p0, k0, y),
            decreases 256 - k0[r as int],
        {
            let ghost cur = self.parent@;
            let p = self.parent[r as usize];
            proof {
                assert(cur[r as int] < cur.len());
            }
            let g = self.parent[p as usize];
            proof {
                lemma_halve_wf(cur, k0, r as int);
                lemma_root(cur, k0, r as int);
                lemma_root(cur, k0, p as int);
                assert(cur[p as int] < cur.len());
                if cur[p as int] != p {
                    assert(k0[p as int] < k0[cur[p as int] as int]);
                }
            }
            self.parent.set(r as usize, g);
            r = g;
        }
        proof {
            lemma_root(self.parent@, k0, r as int);
        }
        r
    }

    /// Merges the classes of `a` and `b`.
    pub fn union(&mut self, a: u32, b: u32)
        requires
            old(self).wf(),
            a < old(self).len(),
            b < old(self).len(),
        ensures
            final(self).wf(),
            final(self).len() == old(self).len(),
            forall|y: int, z: int|
                0 <= y < old(self).len() && 0 <= z < old(self).len() ==> (#[trigger] final(self).rep(y) == #[trigger] final(self).rep(z)
                    <==> old(self).rep(y) == old(self).rep(z)
                        || (old(self).rep(y) == old(self).rep(a as int) && old(self).rep(z) == old(self).rep(b as int))
                        || (old(self).rep(y) == old(self).rep(b as int) && old(self).rep(z) == old(self).rep(a as int))),
    {
        let ghost p0 = self.parent@;
        let ghost k0 = self.rank@;
        proof {
            lemma_root(p0, k0, a as int);
            lemma_root(p0, k0, b as int);
        }
        let ghost s0 = *self;
        let ra = self.find(a);
        let ghost s1 = *self;
        let rb = self.find(b);
        let ghost p1 = self.parent@;
        let ghost k1 = self.rank@;
        proof {
            assert(self.rep(ra as int) == s1.rep(ra as int) && s1.rep(ra as int) == s0.rep(ra as int));
            assert(self.rep(rb as int) == s1.rep(rb as int) && s1.rep(rb as int) == s0.rep(rb as int));
            assert forall|y: int| 0 <= y < p0.len() implies #[trigger] root(p1, k1, y) == s0.rep(y) by {
                assert(self.rep(y) == s1.rep(y));
                assert(s1.rep(y) == s0.rep(y));
            }
            lemma_root(p0, k0, ra as int);
            lemma_root(p0, k0, rb as int);
            lemma_root(p1, k1, ra as int);
            lemma_root(p1, k1, rb as int);
            assert(p1[ra as int] == ra);
            assert(p1[rb as int] == rb);
        }
        if ra == rb {
            return;
        }
        proof {
            lemma_class_bounded(p1, k1, ra as int);
            lemma_class_bounded(p1, k1, rb as int);
            lemma_rank_small(p1, k1, ra as int);
            lemma_rank_small(p1, k1, rb as int);
        }
        let rank_a = self.rank[ra as usize];
        let rank_b = self.rank[rb as usize];
        let ghost mut child: int = 0;
        let ghost mut top: int = 0;
        if rank_a < rank_b {
            proof {
                lemma_link_wf(p1, k1, k1, ra as int, rb as int);
                child = ra as int;
                top = rb as int;
            }
            self.parent.set(ra as usize, rb);
        } else if rank_a > rank_b {
            proof {
                lemma_link_wf(p1, k1, k1, rb as int, ra as int);
                child = rb as int;
                top = ra as int;
            }
            self.parent.set(rb as usize, ra);
        } else {
            let ghost k2 = k1.update(ra as int, (rank_a + 1) as u8);
            proof {
                lemma_pow2_unfold((rank_a + 1) as nat);
                lemma_link_wf(p1, k1, k2, rb as int, ra as int);
                child = rb as int;
                top = ra as int;
            }
            self.parent.set(rb as usize, ra);
            self.rank.set(ra as usize, rank_a + 1);
            assert(self.rank@ == k2);
        }
        proof {
            assert(self.parent@ == p1.update(child, top as u32));
            assert(child == ra || child == rb);
            assert(top == ra || top == rb);
            assert(child != top);
            assert forall|y: int| 0 <= y < p0.len() implies #[trigger] self.rep(y)
                == (if s0.rep(y) == child { top } else { s0.rep(y) }) by {
                assert(root(p1, k1, y) == s0.rep(y));
                assert(root(self.parent@, self.rank@, y) == (if root(p1, k1, y) == child { top } else { root(p1, k1, y) }));
            }
            assert(s0.rep(a as int) == ra && s0.rep(b as int) == rb);
        }
    }
}

} // verus!
