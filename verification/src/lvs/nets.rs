//! Numbering the nets of connected nodes: nodes joined through a chain of
//! joining pairs share a net, and nets are numbered in the order in which
//! their first node appears.
use vstd::prelude::*;
use crate::lvs::union_find::UnionFind;

verus! {

/// Nodes `i` and `j` are joined by the first `k` pairs: equal, or linked
/// through a chain of them.
pub open spec fn joined(pairs: Seq<(u32, u32)>, k: int, i: int, j: int) -> bool
    decreases k,
{
    if k <= 0 {
        i == j
    } else {
        let a = pairs[k - 1].0 as int;
        let b = pairs[k - 1].1 as int;
        joined(pairs, k - 1, i, j) || (joined(pairs, k - 1, i, a) && joined(pairs, k - 1, j, b))
            || (joined(pairs, k - 1, i, b) && joined(pairs, k - 1, j, a))
    }
}

/// Node `i` is the first node of its net.
pub open spec fn first_of_net(pairs: Seq<(u32, u32)>, i: int) -> bool {
    forall|k: int| 0 <= k < i ==> !#[trigger] joined(pairs, pairs.len() as int, k, i)
}

/// How many nets have their first node before node `i`.
pub open spec fn nets_before(pairs: Seq<(u32, u32)>, i: int) -> nat
    decreases i,
{
    if i <= 0 {
        0
    } else {
        nets_before(pairs, i - 1) + if first_of_net(pairs, i - 1) { 1nat } else { 0nat }
    }
}

pub proof fn lemma_nets_before_le(pairs: Seq<(u32, u32)>, i: int)
    requires
        0 <= i,
    ensures
        nets_before(pairs, i) <= i,
    decreases i,
{
    if i > 0 {
        lemma_nets_before_le(pairs, i - 1);
    }
}

/// Numbers the nets of nodes `0..n` joined by `pairs`: two nodes share a
/// net exactly when the pairs join them, and the first node of each net
/// gets the number of nets that started before it. Also returns the number
/// of nets.
pub fn nets_of_nodes(n: usize, pairs: &Vec<(u32, u32)>) -> (r: (Vec<u32>, usize))
    requires
        n <= u32::MAX,
        forall|k: int| 0 <= k < pairs@.len() ==> (#[trigger] pairs@[k]).0 < n && pairs@[k].1 < n,
    ensures
        r.0@.len() == n,
        r.1 == nets_before(pairs@, n as int),
        forall|i: int, j: int| 0 <= i < n && 0 <= j < n ==>
            (#[trigger] r.0@[i] == #[trigger] r.0@[j] <==> joined(pairs@, pairs@.len() as int, i, j)),
        forall|i: int| 0 <= i < n && first_of_net(pairs@, i) ==> #[trigger] r.0@[i] == nets_before(pairs@, i),
        forall|i: int| 0 <= i < n ==> #[trigger] r.0@[i] < r.1,
{
    let mut uf = UnionFind::new(n);
    let mut k: usize = 0;
    while k < pairs.len()
        invariant
            n <= u32::MAX,
            forall|q: int| 0 <= q < pairs@.len() ==> (#[trigger] pairs@[q]).0 < n && pairs@[q].1 < n,
            uf.wf(),
            uf.len() == n,
            k <= pairs@.len(),
            forall|y: int, z: int| 0 <= y < n && 0 <= z < n ==> (#[trigger] uf.rep(y) == #[trigger] uf.rep(z) <==> joined(pairs@, k as int, y, z)),
        decreases pairs@.len() - k,
    {
        let (a, b) = pairs[k];
        uf.union(a, b);
        k = k + 1;
    }
    let ghost total = pairs@.len() as int;
    let ghost uf0 = uf;
    proof {
        assert forall|y: int| 0 <= y < n implies 0 <= #[trigger] uf0.rep(y) < n by {
            uf0.lemma_rep_in_range(y);
        }
    }
    let mut net_of_root: Vec<u32> = Vec::new();
    let mut q: usize = 0;
    while q < n
        invariant
            q <= n,
            net_of_root@.len() == q,
            forall|x: int| 0 <= x < q ==> #[trigger] net_of_root@[x] == u32::MAX,
        decreases n - q,
    {
        net_of_root.push(u32::MAX);
        q = q + 1;
    }
    let mut net: Vec<u32> = Vec::new();
    let mut count: usize = 0;
    let mut i: usize = 0;
    while i < n
        invariant
            n <= u32::MAX,
            uf.wf(),
            uf.len() == n,
            forall|y: int| 0 <= y < n ==> #[trigger] uf.rep(y) == uf0.rep(y),
            forall|y: int| 0 <= y < n ==> 0 <= #[trigger] uf0.rep(y) < n,
            forall|y: int, z: int| 0 <= y < n && 0 <= z < n ==> (#[trigger] uf0.rep(y) == #[trigger] uf0.rep(z) <==> joined(pairs@, total, y, z)),
            total == pairs@.len(),
            i <= n,
            net@.len() == i,
            net_of_root@.len() == n,
            count == nets_before(pairs@, i as int),
            count <= i,
            forall|r: int| 0 <= r < n ==> (#[trigger] net_of_root@[r] != u32::MAX <==> exists|y: int| 0 <= y < i && uf0.rep(y) == r),
            forall|r: int| 0 <= r < n && net_of_root@[r] != u32::MAX ==> #[trigger] net_of_root@[r] < count,
            forall|r1: int, r2: int| 0 <= r1 < n && 0 <= r2 < n && r1 != r2 && net_of_root@[r1] != u32::MAX
                ==> #[trigger] net_of_root@[r1] != #[trigger] net_of_root@[r2],
            forall|y: int| 0 <= y < i ==> #[trigger] net@[y] == net_of_root@[uf0.rep(y)],
            forall|y: int| 0 <= y < i && first_of_net(pairs@, y) ==> #[trigger] net@[y] == nets_before(pairs@, y),
        decreases n - i,
    {
        proof {
            lemma_nets_before_le(pairs@, i as int);
        }
        let r = uf.find(i as u32);
        let ghost ri = r as int;
        assert(ri == uf0.rep(i as int));
        if net_of_root[r as usize] == u32::MAX {
            proof {
                assert forall|y: int| 0 <= y < i implies !#[trigger] joined(pairs@, total, y, i as int) by {
                    if joined(pairs@, total, y, i as int) {
                        assert(uf0.rep(y) == uf0.rep(i as int));
                    }
                }
                assert(first_of_net(pairs@, i as int));
            }
            net_of_root.set(r as usize, count as u32);
            count = count + 1;
        } else {
            proof {
                let y = choose|y: int| 0 <= y < i && uf0.rep(y) == ri;
                assert(joined(pairs@, total, y, i as int));
                assert(!first_of_net(pairs@, i as int));
            }
        }
        net.push(net_of_root[r as usize]);
        proof {
            assert forall|rr: int| 0 <= rr < n implies (#[trigger] net_of_root@[rr] != u32::MAX <==> exists|y: int| 0 <= y < i + 1 && uf0.rep(y) == rr) by {
                if rr == ri {
                    assert(uf0.rep(i as int) == rr);
                } else if net_of_root@[rr] != u32::MAX {
                    let y = choose|y: int| 0 <= y < i && uf0.rep(y) == rr;
                }
            }
        }
        i = i + 1;
    }
    proof {
        assert forall|x: int, y: int| 0 <= x < n && 0 <= y < n implies
            (#[trigger] net@[x] == #[trigger] net@[y] <==> joined(pairs@, pairs@.len() as int, x, y)) by {
            assert(net_of_root@[uf0.rep(x)] != u32::MAX);
            assert(net_of_root@[uf0.rep(y)] != u32::MAX);
        }
        assert forall|x: int| 0 <= x < n implies #[trigger] net@[x] < count by {
            assert(net_of_root@[uf0.rep(x)] != u32::MAX);
        }
    }
    (net, count)
}

} // verus!
