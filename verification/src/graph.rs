//! Depth-first search on a graph of node indices: node `u` has the
//! successors `adj[u]`. It lists nodes so that each comes after its
//! successors, or finds a node on a cycle.
use vstd::prelude::*;

verus! {

pub open spec fn graph_wf(adj: Seq<Vec<usize>>) -> bool {
    forall|u: int, j: int| 0 <= u < adj.len() && 0 <= j < adj[u]@.len() ==> #[trigger] adj[u]@[j] < adj.len()
}

pub open spec fn idx_step(adj: Seq<Vec<usize>>, p: Seq<usize>, t: int) -> bool {
    p[t] < adj.len() && adj[p[t] as int]@.contains(p[t + 1])
}

pub open spec fn idx_cycle(adj: Seq<Vec<usize>>, p: Seq<usize>, w: usize) -> bool {
    &&& p.len() >= 2
    &&& p[0] == w
    &&& p.last() == w
    &&& forall|t: int| 0 <= t < p.len() - 1 ==> #[trigger] idx_step(adj, p, t)
}

pub open spec fn on_cycle(adj: Seq<Vec<usize>>, w: usize) -> bool {
    w < adj.len() && exists|p: Seq<usize>| #[trigger] idx_cycle(adj, p, w)
}

/// Marks: 0 unvisited, 1 on the current path (`stack`), 2 finished (in `order`).
/// Finished nodes have all their successors finished earlier.
pub open spec fn dfs_inv(adj: Seq<Vec<usize>>, mark: Seq<u8>, order: Seq<usize>, stack: Seq<usize>) -> bool {
    &&& mark.len() == adj.len()
    &&& stack.no_duplicates()
    &&& order.no_duplicates()
    &&& forall|t: int| 0 <= t < stack.len() ==> #[trigger] stack[t] < adj.len()
    &&& forall|k: int| 0 <= k < order.len() ==> #[trigger] order[k] < adj.len()
    &&& forall|v: usize| v < mark.len() ==> #[trigger] mark[v as int] <= 2
    &&& forall|v: usize| v < mark.len() ==> (#[trigger] mark[v as int] == 1 <==> stack.contains(v))
    &&& forall|v: usize| v < mark.len() ==> (#[trigger] mark[v as int] == 2 <==> order.contains(v))
    &&& forall|t: int| 0 <= t < stack.len() - 1 ==> #[trigger] idx_step(adj, stack, t)
    &&& forall|k: int, j: int|
        0 <= k < order.len() && 0 <= j < adj[order[k] as int]@.len()
            ==> order.subrange(0, k).contains(#[trigger] adj[order[k] as int]@[j])
}

pub proof fn lemma_push_contains(s: Seq<usize>, a: usize, x: usize)
    ensures
        s.push(a).contains(x) <==> (s.contains(x) || x == a),
{
    if s.contains(x) {
        let k = s.index_of(x);
        assert(s.push(a)[k] == x);
    }
    if x == a {
        assert(s.push(a)[s.len() as int] == x);
    }
    if s.push(a).contains(x) {
        let k = s.push(a).index_of(x);
        if k < s.len() {
            assert(s[k] == x);
        }
    }
}

pub proof fn lemma_distinct_bound(s: Seq<usize>, n: int)
    requires
        s.no_duplicates(),
        forall|t: int| 0 <= t < s.len() ==> #[trigger] s[t] < n,
        0 <= n,
    ensures
        s.len() <= n,
{
    let t = s.map_values(|x: usize| x as int);
    assert(t.no_duplicates()) by {
        assert forall|i: int, j: int| 0 <= i < t.len() && 0 <= j < t.len() && i != j implies t[i] != t[j] by {
            assert(s[i] != s[j]);
        }
    }
    t.unique_seq_to_set();
    vstd::set_lib::lemma_int_range(0, n);
    assert(t.to_set().subset_of(vstd::set_lib::set_int_range(0, n))) by {
        assert forall|x: int| t.to_set().contains(x) implies vstd::set_lib::set_int_range(0, n).contains(x) by {
            let i = choose|i: int| 0 <= i < t.len() && t[i] == x;
            assert(s[i] < n);
        }
    }
    vstd::set_lib::lemma_len_subset(t.to_set(), vstd::set_lib::set_int_range(0, n));
}

/// Visits `u` (a successor of the top of `stack`) and everything reachable
/// from it, finishing each node after all its successors; fails with a node
/// that lies on a cycle.
fn visit(u: usize, adj: &Vec<Vec<usize>>, mark: &mut Vec<u8>, order: &mut Vec<usize>, Ghost(stack): Ghost<Seq<usize>>)
    -> (r: Result<(), usize>)
    requires
        graph_wf(adj@),
        dfs_inv(adj@, old(mark)@, old(order)@, stack),
        u < adj@.len(),
        stack.len() > 0 ==> adj@[stack.last() as int]@.contains(u),
    ensures
        match r {
            Ok(()) => {
                &&& dfs_inv(adj@, final(mark)@, final(order)@, stack)
                &&& final(mark)@[u as int] == 2
                &&& old(order)@.len() <= final(order)@.len()
                &&& final(order)@.subrange(0, old(order)@.len() as int) == old(order)@
            },
            Err(w) => on_cycle(adj@, w),
        },
    decreases adj@.len() - stack.len(),
{
    proof {
        lemma_distinct_bound(stack, adj@.len() as int);
    }
    let m = mark[u];
    if m == 2 {
        return Ok(());
    }
    if m == 1 {
        proof {
            assert(stack.contains(u));
            let i = stack.index_of(u);
            let p = stack.subrange(i, stack.len() as int).push(u);
            assert forall|t: int| 0 <= t < p.len() - 1 implies #[trigger] idx_step(adj@, p, t) by {
                if t < p.len() - 2 {
                    assert(idx_step(adj@, stack, i + t));
                } else {
                    assert(p[t] == stack.last());
                }
            }
            assert(idx_cycle(adj@, p, u));
            assert(on_cycle(adj@, u));
        }
        return Err(u);
    }
    let ghost old_order = order@;
    let ghost inner = stack.push(u);
    let ghost pre_mark = mark@;
    mark.set(u, 1);
    proof {
        assert(!stack.contains(u));
        assert(inner.no_duplicates());
        assert forall|v: usize| v < mark@.len() implies (#[trigger] mark@[v as int] == 1 <==> inner.contains(v)) by {
            assert(pre_mark[v as int] == 1 <==> stack.contains(v));
            lemma_push_contains(stack, u, v);
        }
        assert forall|t: int| 0 <= t < inner.len() - 1 implies #[trigger] idx_step(adj@, inner, t) by {
            if t < stack.len() - 1 {
                assert(idx_step(adj@, stack, t));
            }
        }
        assert(dfs_inv(adj@, mark@, order@, inner));
        lemma_distinct_bound(inner, adj@.len() as int);
    }
    let len = adj[u].len();
    let mut j: usize = 0;
    while j < len
        invariant
            graph_wf(adj@),
            dfs_inv(adj@, mark@, order@, inner),
            inner == stack.push(u),
            inner.len() <= adj@.len(),
            !stack.contains(u),
            u < adj@.len(),
            len == adj@[u as int]@.len(),
            j <= len,
            mark@[u as int] == 1,
            old_order.len() <= order@.len(),
            order@.subrange(0, old_order.len() as int) == old_order,
            forall|jj: int| 0 <= jj < j ==> order@.contains(#[trigger] adj@[u as int]@[jj]),
        decreases len - j,
    {
        let c = adj[u][j];
        let ghost before = order@;
        match visit(c, adj, mark, order, Ghost(inner)) {
            Ok(()) => {},
            Err(w) => {
                return Err(w);
            },
        }
        proof {
            assert(order@.contains(c));
            assert forall|jj: int| 0 <= jj < j + 1 implies order@.contains(#[trigger] adj@[u as int]@[jj]) by {
                if jj < j {
                    let x = adj@[u as int]@[jj];
                    assert(before.contains(x));
                    let k = before.index_of(x);
                    assert(order@[k] == before[k]);
                }
            }
            assert(order@.subrange(0, old_order.len() as int) =~= old_order) by {
                assert forall|k: int| 0 <= k < old_order.len() implies order@[k] == old_order[k] by {
                    assert(order@[k] == before[k]);
                    assert(before[k] == old_order[k]);
                }
            }
        }
        j = j + 1;
    }
    let ghost mid = order@;
    let ghost mid_mark = mark@;
    mark.set(u, 2);
    order.push(u);
    proof {
        assert(!mid.contains(u));
        assert(order@.no_duplicates());
        assert forall|v: usize| v < mark@.len() implies (#[trigger] mark@[v as int] == 1 <==> stack.contains(v)) by {
            assert(mid_mark[v as int] == 1 <==> inner.contains(v));
            lemma_push_contains(stack, u, v);
        }
        assert forall|v: usize| v < mark@.len() implies (#[trigger] mark@[v as int] == 2 <==> order@.contains(v)) by {
            assert(mid_mark[v as int] == 2 <==> mid.contains(v));
            lemma_push_contains(mid, u, v);
        }
        assert forall|t: int| 0 <= t < stack.len() - 1 implies #[trigger] idx_step(adj@, stack, t) by {
            assert(idx_step(adj@, inner, t));
        }
        assert forall|k: int, jj: int|
            0 <= k < order@.len() && 0 <= jj < adj@[order@[k] as int]@.len()
                implies order@.subrange(0, k).contains(#[trigger] adj@[order@[k] as int]@[jj]) by {
            if k < mid.len() {
                assert(order@.subrange(0, k) =~= mid.subrange(0, k));
                assert(mid.subrange(0, k).contains(adj@[mid[k] as int]@[jj]));
            } else {
                assert(order@.subrange(0, k) =~= mid);
                assert(mid.contains(adj@[u as int]@[jj]));
            }
        }
        assert(dfs_inv(adj@, mark@, order@, stack));
        assert(order@.subrange(0, old_order.len() as int) =~= old_order) by {
            assert forall|k: int| 0 <= k < old_order.len() implies order@[k] == old_order[k] by {
                assert(order@[k] == mid[k]);
                assert(mid.subrange(0, old_order.len() as int)[k] == old_order[k]);
            }
        }
    }
    Ok(())
}

pub open spec fn finished_topologically(adj: Seq<Vec<usize>>, order: Seq<usize>, roots: int) -> bool {
    &&& order.no_duplicates()
    &&& forall|k: int| 0 <= k < order.len() ==> #[trigger] order[k] < adj.len()
    &&& forall|v: usize| v < roots ==> #[trigger] order.contains(v)
    &&& forall|k: int, j: int|
        0 <= k < order.len() && 0 <= j < adj[order[k] as int]@.len()
            ==> order.subrange(0, k).contains(#[trigger] adj[order[k] as int]@[j])
}

/// Finishes the nodes `0..roots` and everything they reach, or fails with a
/// node on a cycle.
pub(crate) fn dfs_from(adj: &Vec<Vec<usize>>, roots: usize) -> (r: Result<Vec<usize>, usize>)
    requires
        graph_wf(adj@),
        roots <= adj@.len(),
    ensures
        r matches Ok(order) ==> finished_topologically(adj@, order@, roots as int),
        r matches Err(w) ==> on_cycle(adj@, w),
{
    let mut mark: Vec<u8> = Vec::new();
    let mut z: usize = 0;
    while z < adj.len()
        invariant
            z <= adj@.len(),
            mark@.len() == z,
            forall|v: int| 0 <= v < z ==> mark@[v] == 0,
        decreases adj@.len() - z,
    {
        mark.push(0);
        z = z + 1;
    }
    let mut order: Vec<usize> = Vec::new();
    proof {
        assert(dfs_inv(adj@, mark@, order@, Seq::<usize>::empty()));
    }
    let mut u: usize = 0;
    while u < roots
        invariant
            graph_wf(adj@),
            roots <= adj@.len(),
            u <= roots,
            dfs_inv(adj@, mark@, order@, Seq::<usize>::empty()),
            forall|v: usize| v < u ==> #[trigger] order@.contains(v),
        decreases roots - u,
    {
        let ghost before = order@;
        match visit(u, adj, &mut mark, &mut order, Ghost(Seq::<usize>::empty())) {
            Ok(()) => {},
            Err(w) => {
                return Err(w);
            },
        }
        proof {
            assert forall|v: usize| v < u + 1 implies #[trigger] order@.contains(v) by {
                if v < u {
                    assert(before.contains(v));
                    let k = before.index_of(v);
                    assert(order@.subrange(0, before.len() as int)[k] == before[k]);
                    assert(order@[k] == v);
                } else {
                    assert(mark@[v as int] == 2);
                }
            }
        }
        u = u + 1;
    }
    Ok(order)
}

proof fn lemma_idx_descends(adj: Seq<Vec<usize>>, order: Seq<usize>, roots: int, p: Seq<usize>, w: usize, t: int)
    requires
        finished_topologically(adj, order, roots),
        idx_cycle(adj, p, w),
        order.contains(w),
        1 <= t <= p.len() - 1,
    ensures
        order.contains(p[t]),
        order.index_of(p[t]) < order.index_of(w),
    decreases t,
{
    let prev = t - 1;
    if prev > 0 {
        lemma_idx_descends(adj, order, roots, p, w, prev);
    }
    assert(idx_step(adj, p, prev));
    assert(order.contains(p[prev]));
    let k = order.index_of(p[prev]);
    let j = adj[p[prev] as int]@.index_of(p[t]);
    assert(order[k] == p[prev]);
    assert(adj[order[k] as int]@[j] == p[t]);
    assert(order.subrange(0, k).contains(adj[order[k] as int]@[j]));
    let m = order.subrange(0, k).index_of(p[t]);
    assert(order[m] == p[t]);
    assert(order.index_of(p[t]) == m);
}

/// A finished node lies on no cycle: along a cycle every node would have to
/// be finished before its predecessor.
pub proof fn lemma_finished_not_on_cycle(adj: Seq<Vec<usize>>, order: Seq<usize>, roots: int, p: Seq<usize>, w: usize)
    requires
        finished_topologically(adj, order, roots),
        order.contains(w),
    ensures
        !idx_cycle(adj, p, w),
{
    if idx_cycle(adj, p, w) {
        lemma_idx_descends(adj, order, roots, p, w, p.len() - 1);
    }
}

} // verus!
