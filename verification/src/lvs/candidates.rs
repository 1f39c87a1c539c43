//! Sweep-line enumeration of the box pairs that touch or overlap: the
//! prefilter of connectivity extraction, before exact region tests.
use vstd::prelude::*;
use crate::geometry::Bbox;

verus! {

/// Closed boxes that touch or overlap.
pub open spec fn near(a: Bbox, b: Bbox) -> bool {
    a.xmin <= b.xmax && b.xmin <= a.xmax && a.ymin <= b.ymax && b.ymin <= a.ymax
}

pub open spec fn sweep_lo(b: Bbox, sweep_x: bool) -> i32 {
    if sweep_x { b.xmin } else { b.ymin }
}

pub open spec fn sweep_hi(b: Bbox, sweep_x: bool) -> i32 {
    if sweep_x { b.xmax } else { b.ymax }
}

/// The boxes touch or overlap across the sweep axis.
pub open spec fn across_near(a: Bbox, b: Bbox, sweep_x: bool) -> bool {
    if sweep_x {
        a.ymin <= b.ymax && b.ymin <= a.ymax
    } else {
        a.xmin <= b.xmax && b.xmin <= a.xmax
    }
}

pub open spec fn clamp_i32(v: int) -> int {
    if v < i32::MIN { i32::MIN as int } else if v > i32::MAX { i32::MAX as int } else { v }
}

/// `a - b`, saturated to the `i32` range.
fn saturating_diff(a: i32, b: i32) -> (r: i32)
    ensures
        r == clamp_i32(a - b),
{
    let d: i64 = a as i64 - b as i64;
    if d < i32::MIN as i64 {
        i32::MIN
    } else if d > i32::MAX as i64 {
        i32::MAX
    } else {
        d as i32
    }
}

/// Sweep entries `(start, end, box index)`: one per box, ordered by start.
pub open spec fn items_of(items: Seq<(i32, i32, u32)>, boxes: Seq<Bbox>, sweep_x: bool) -> bool {
    &&& forall|k: int| 0 <= k < items.len() ==> (#[trigger] items[k]).2 < boxes.len()
        && items[k].0 == sweep_lo(boxes[items[k].2 as int], sweep_x)
        && items[k].1 == sweep_hi(boxes[items[k].2 as int], sweep_x)
    &&& forall|i: int, j: int| 0 <= i < j < items.len() ==> (#[trigger] items[i]).2 != (#[trigger] items[j]).2
    &&& forall|i: int, j: int| 0 <= i < j < items.len() ==> (#[trigger] items[i]).0 <= (#[trigger] items[j]).0
}

/// Box `x` has an entry.
pub open spec fn listed(items: Seq<(i32, i32, u32)>, x: int) -> bool {
    exists|k: int| 0 <= k < items.len() && (#[trigger] items[k]).2 == x
}

fn sweep_items(boxes: &[Bbox], sweep_x: bool) -> (items: Vec<(i32, i32, u32)>)
    requires
        boxes@.len() <= u32::MAX,
    ensures
        items@.len() == boxes@.len(),
        items_of(items@, boxes@, sweep_x),
        forall|x: int| 0 <= x < boxes@.len() ==> #[trigger] listed(items@, x),
{
    let mut items: Vec<(i32, i32, u32)> = Vec::new();
    let mut q: usize = 0;
    while q < boxes.len()
        invariant
            boxes@.len() <= u32::MAX,
            q <= boxes@.len(),
            items@.len() == q,
            items_of(items@, boxes@, sweep_x),
            forall|k: int| 0 <= k < items@.len() ==> (#[trigger] items@[k]).2 < q,
            forall|x: int| 0 <= x < q ==> #[trigger] listed(items@, x),
        decreases boxes@.len() - q,
    {
        let b = boxes[q];
        let lo = if sweep_x { b.xmin } else { b.ymin };
        let hi = if sweep_x { b.xmax } else { b.ymax };
        let mut pos: usize = 0;
        while pos < items.len() && items[pos].0 <= lo
            invariant
                pos <= items@.len(),
                forall|k: int| 0 <= k < pos ==> (#[trigger] items@[k]).0 <= lo,
            decreases items@.len() - pos,
        {
            pos = pos + 1;
        }
        let ghost before = items@;
        let item = (lo, hi, q as u32);
        items.insert(pos, item);
        proof {
            assert(items@ =~= before.insert(pos as int, item));
            assert forall|k: int| 0 <= k < items@.len() implies (#[trigger] items@[k]).2 < boxes@.len()
                && items@[k].0 == sweep_lo(boxes@[items@[k].2 as int], sweep_x)
                && items@[k].1 == sweep_hi(boxes@[items@[k].2 as int], sweep_x) && items@[k].2 < q + 1 by {
                if k < pos {
                    assert(items@[k] == before[k]);
                } else if k > pos {
                    assert(items@[k] == before[k - 1]);
                }
            }
            assert forall|i: int, j: int| 0 <= i < j < items@.len() implies (#[trigger] items@[i]).2 != (#[trigger] items@[j]).2 by {
                if i != pos && j != pos {
                    let bi = if i < pos { i } else { i - 1 };
                    let bj = if j < pos { j } else { j - 1 };
                    assert(items@[i] == before[bi] && items@[j] == before[bj]);
                } else if i == pos {
                    assert(items@[j] == before[j - 1]);
                } else {
                    assert(items@[i] == before[i]);
                }
            }
            assert forall|i: int, j: int| 0 <= i < j < items@.len() implies (#[trigger] items@[i]).0 <= (#[trigger] items@[j]).0 by {
                if i != pos && j != pos {
                    let bi = if i < pos { i } else { i - 1 };
                    let bj = if j < pos { j } else { j - 1 };
                    assert(items@[i] == before[bi] && items@[j] == before[bj]);
                } else if i == pos {
                    assert(items@[j] == before[j - 1]);
                    if pos < before.len() {
                        assert(before[pos as int].0 > lo);
                        if j - 1 > pos {
                            assert(before[pos as int].0 <= before[j - 1].0);
                        }
                    }
                } else {
                    assert(items@[i] == before[i]);
                }
            }
            assert forall|x: int| 0 <= x < q + 1 implies #[trigger] listed(items@, x) by {
                if x < q {
                    assert(listed(before, x));
                    let k = choose|k: int| 0 <= k < before.len() && (#[trigger] before[k]).2 == x;
                    if k < pos {
                        assert(items@[k] == before[k]);
                    } else {
                        assert(items@[k + 1] == before[k]);
                    }
                } else {
                    assert(items@[pos as int] == item);
                }
            }
        }
        q = q + 1;
    }
    items
}

/// The pair of box indices in ascending order.
pub open spec fn ordered_pair(x: u32, y: u32) -> (u32, u32) {
    if x <= y { (x, y) } else { (y, x) }
}

/// The sweep from entry `p` over entries `q, q + 1, ..` while they start no
/// later than entry `p` ends, keeping those near across the sweep axis.
pub open spec fn row(items: Seq<(i32, i32, u32)>, boxes: Seq<Bbox>, sweep_x: bool, p: int, q: int) -> Seq<(u32, u32)>
    decreases items.len() - q,
{
    if q < 0 || q >= items.len() || items[q].0 > items[p].1 {
        Seq::empty()
    } else {
        (if across_near(boxes[items[p].2 as int], boxes[items[q].2 as int], sweep_x) {
            seq![ordered_pair(items[p].2, items[q].2)]
        } else {
            Seq::empty()
        }) + row(items, boxes, sweep_x, p, q + 1)
    }
}

pub open spec fn rows(items: Seq<(i32, i32, u32)>, boxes: Seq<Bbox>, sweep_x: bool, p: int) -> Seq<(u32, u32)>
    decreases items.len() - p,
{
    if p < 0 || p >= items.len() {
        Seq::empty()
    } else {
        row(items, boxes, sweep_x, p, p + 1) + rows(items, boxes, sweep_x, p + 1)
    }
}

/// Entry `q` (after `p`) starts no later than entry `p` ends, and their
/// boxes are near across the sweep axis.
pub open spec fn found(items: Seq<(i32, i32, u32)>, boxes: Seq<Bbox>, sweep_x: bool, p: int, q: int) -> bool {
    &&& 0 <= p < q < items.len()
    &&& items[q].0 <= items[p].1
    &&& across_near(boxes[items[p].2 as int], boxes[items[q].2 as int], sweep_x)
}

proof fn lemma_row_contains(items: Seq<(i32, i32, u32)>, boxes: Seq<Bbox>, sweep_x: bool, p: int, q0: int, e: (u32, u32))
    requires
        items_of(items, boxes, sweep_x),
        0 <= p < q0,
    ensures
        row(items, boxes, sweep_x, p, q0).contains(e)
            <==> exists|q: int| q0 <= q && #[trigger] found(items, boxes, sweep_x, p, q) && e == ordered_pair(items[p].2, items[q].2),
    decreases items.len() - q0,
{
    let r = row(items, boxes, sweep_x, p, q0);
    if q0 >= items.len() {
        assert(r.len() == 0);
    } else if items[q0].0 > items[p].1 {
        assert(r.len() == 0);
        if exists|q: int| q0 <= q && #[trigger] found(items, boxes, sweep_x, p, q) && e == ordered_pair(items[p].2, items[q].2) {
            let q = choose|q: int| q0 <= q && #[trigger] found(items, boxes, sweep_x, p, q) && e == ordered_pair(items[p].2, items[q].2);
            if q > q0 {
                assert(items[q0].0 <= items[q].0);
            }
        }
    } else {
        lemma_row_contains(items, boxes, sweep_x, p, q0 + 1, e);
        let head: Seq<(u32, u32)> = if across_near(boxes[items[p].2 as int], boxes[items[q0].2 as int], sweep_x) {
            seq![ordered_pair(items[p].2, items[q0].2)]
        } else {
            Seq::empty()
        };
        let tail = row(items, boxes, sweep_x, p, q0 + 1);
        assert(r == head + tail);
        if r.contains(e) {
            let k = r.index_of(e);
            if k < head.len() {
                assert(head[k] == e);
                assert(found(items, boxes, sweep_x, p, q0));
            } else {
                assert(tail[k - head.len()] == e);
                assert(tail.contains(e));
            }
        }
        if exists|q: int| q0 <= q && #[trigger] found(items, boxes, sweep_x, p, q) && e == ordered_pair(items[p].2, items[q].2) {
            let q = choose|q: int| q0 <= q && #[trigger] found(items, boxes, sweep_x, p, q) && e == ordered_pair(items[p].2, items[q].2);
            if q == q0 {
                assert(r[0] == e);
            } else {
                assert(tail.contains(e));
                let k = tail.index_of(e);
                assert(r[head.len() + k] == e);
            }
        }
    }
}

proof fn lemma_rows_contains(items: Seq<(i32, i32, u32)>, boxes: Seq<Bbox>, sweep_x: bool, p0: int, e: (u32, u32))
    requires
        items_of(items, boxes, sweep_x),
        0 <= p0,
    ensures
        rows(items, boxes, sweep_x, p0).contains(e)
            <==> exists|p: int, q: int| p0 <= p && #[trigger] found(items, boxes, sweep_x, p, q) && e == ordered_pair(items[p].2, items[q].2),
    decreases items.len() - p0,
{
    let r = rows(items, boxes, sweep_x, p0);
    if p0 >= items.len() {
        assert(r.len() == 0);
    } else {
        lemma_rows_contains(items, boxes, sweep_x, p0 + 1, e);
        lemma_row_contains(items, boxes, sweep_x, p0, p0 + 1, e);
        let head = row(items, boxes, sweep_x, p0, p0 + 1);
        let tail = rows(items, boxes, sweep_x, p0 + 1);
        assert(r == head + tail);
        if r.contains(e) {
            let k = r.index_of(e);
            if k < head.len() {
                assert(head[k] == e);
                assert(head.contains(e));
            } else {
                assert(tail[k - head.len()] == e);
                assert(tail.contains(e));
            }
        }
        if exists|p: int, q: int| p0 <= p && #[trigger] found(items, boxes, sweep_x, p, q) && e == ordered_pair(items[p].2, items[q].2) {
            let (p, q) = choose|p: int, q: int| p0 <= p && #[trigger] found(items, boxes, sweep_x, p, q) && e == ordered_pair(items[p].2, items[q].2);
            if p == p0 {
                assert(head.contains(e));
                let k = head.index_of(e);
                assert(r[k] == e);
            } else {
                assert(tail.contains(e));
                let k = tail.index_of(e);
                assert(r[head.len() + k] == e);
            }
        }
    }
}

/// The pairs `(i, j)`, `i < j`, of boxes that touch or overlap, found by
/// sweeping along the axis over which the box starts spread more (only the
/// work done depends on that choice). Each pair is listed once.
pub fn node_candidate_pairs(boxes: &[Bbox]) -> (out: Vec<(u32, u32)>)
    requires
        boxes@.len() <= u32::MAX,
    ensures
        forall|i: int, j: int|
            0 <= i < j < boxes@.len() && boxes@[i].wf() && boxes@[j].wf()
                ==> (out@.contains((i as u32, j as u32)) <==> near(boxes@[i], boxes@[j])),
        forall|k: int| 0 <= k < out@.len() ==> (#[trigger] out@[k]).0 < out@[k].1 < boxes@.len(),
        out@.no_duplicates(),
{
    let mut xlo: i32 = i32::MAX;
    let mut xhi: i32 = i32::MIN;
    let mut ylo: i32 = i32::MAX;
    let mut yhi: i32 = i32::MIN;
    let mut t: usize = 0;
    while t < boxes.len()
        invariant
            t <= boxes@.len(),
        decreases boxes@.len() - t,
    {
        let b = boxes[t];
        if b.xmin < xlo {
            xlo = b.xmin;
        }
        if b.xmin > xhi {
            xhi = b.xmin;
        }
        if b.ymin < ylo {
            ylo = b.ymin;
        }
        if b.ymin > yhi {
            yhi = b.ymin;
        }
        t = t + 1;
    }
    let sweep_x = saturating_diff(xhi, xlo) >= saturating_diff(yhi, ylo);
    let items = sweep_items(boxes, sweep_x);
    let m = items.len();
    let mut out: Vec<(u32, u32)> = Vec::new();
    let mut a: usize = 0;
    proof {
        assert(out@ + rows(items@, boxes@, sweep_x, 0) =~= rows(items@, boxes@, sweep_x, 0));
    }
    while a < m
        invariant
            m == items@.len(),
            items_of(items@, boxes@, sweep_x),
            a <= m,
            out@ + rows(items@, boxes@, sweep_x, a as int) == rows(items@, boxes@, sweep_x, 0),
        decreases m - a,
    {
        let hi_a = items[a].1;
        let na = items[a].2;
        let ghost out_a = out@;
        let mut b: usize = a + 1;
        proof {
            assert(rows(items@, boxes@, sweep_x, a as int)
                == row(items@, boxes@, sweep_x, a as int, a as int + 1) + rows(items@, boxes@, sweep_x, a as int + 1));
        }
        while b < m && items[b].0 <= hi_a
            invariant
                m == items@.len(),
                items_of(items@, boxes@, sweep_x),
                a < m,
                a < b <= m,
                hi_a == items@[a as int].1,
                na == items@[a as int].2,
                out@ + row(items@, boxes@, sweep_x, a as int, b as int) == out_a + row(items@, boxes@, sweep_x, a as int, a as int + 1),
            decreases m - b,
        {
            let nb = items[b].2;
            let ba = boxes[na as usize];
            let bb = boxes[nb as usize];
            let close = if sweep_x {
                ba.ymin <= bb.ymax && bb.ymin <= ba.ymax
            } else {
                ba.xmin <= bb.xmax && bb.xmin <= ba.xmax
            };
            let ghost o0 = out@;
            if close {
                let pair = if na <= nb { (na, nb) } else { (nb, na) };
                out.push(pair);
            }
            proof {
                assert(out@ + row(items@, boxes@, sweep_x, a as int, b as int + 1)
                    =~= o0 + row(items@, boxes@, sweep_x, a as int, b as int));
            }
            b = b + 1;
        }
        proof {
            assert(row(items@, boxes@, sweep_x, a as int, b as int) == Seq::<(u32, u32)>::empty());
            assert(out@ + rows(items@, boxes@, sweep_x, a as int + 1) =~= out_a + rows(items@, boxes@, sweep_x, a as int));
        }
        a = a + 1;
    }
    proof {
        assert(rows(items@, boxes@, sweep_x, m as int) == Seq::<(u32, u32)>::empty());
        assert(out@ =~= rows(items@, boxes@, sweep_x, 0));
        lemma_candidates_meaning(items@, boxes@, sweep_x, out@);
        lemma_rows_distinct(items@, boxes@, sweep_x, 0);
    }
    out
}

proof fn lemma_candidates_meaning(items: Seq<(i32, i32, u32)>, boxes: Seq<Bbox>, sweep_x: bool, out: Seq<(u32, u32)>)
    requires
        items_of(items, boxes, sweep_x),
        items.len() == boxes.len(),
        forall|x: int| 0 <= x < boxes.len() ==> #[trigger] listed(items, x),
        out == rows(items, boxes, sweep_x, 0),
    ensures
        forall|i: int, j: int|
            0 <= i < j < boxes.len() && boxes[i].wf() && boxes[j].wf()
                ==> (out.contains((i as u32, j as u32)) <==> near(boxes[i], boxes[j])),
        forall|k: int| 0 <= k < out.len() ==> (#[trigger] out[k]).0 < out[k].1 < boxes.len(),
{
    assert forall|i: int, j: int|
        0 <= i < j < boxes.len() && boxes[i].wf() && boxes[j].wf()
            implies (out.contains((i as u32, j as u32)) <==> near(boxes[i], boxes[j])) by {
        let e = (i as u32, j as u32);
        lemma_rows_contains(items, boxes, sweep_x, 0, e);
        if out.contains(e) {
            let (p, q) = choose|p: int, q: int| 0 <= p && #[trigger] found(items, boxes, sweep_x, p, q) && e == ordered_pair(items[p].2, items[q].2);
            assert(items[p].0 <= items[q].0);
            assert(items[p].2 != items[q].2);
        }
        if near(boxes[i], boxes[j]) {
            assert(listed(items, i) && listed(items, j));
            let pi = choose|k: int| 0 <= k < items.len() && (#[trigger] items[k]).2 == i;
            let pj = choose|k: int| 0 <= k < items.len() && (#[trigger] items[k]).2 == j;
            let p = if pi < pj { pi } else { pj };
            let q = if pi < pj { pj } else { pi };
            assert(pi != pj);
            assert(found(items, boxes, sweep_x, p, q));
            assert(e == ordered_pair(items[p].2, items[q].2));
        }
    }
    assert forall|k: int| 0 <= k < out.len() implies (#[trigger] out[k]).0 < out[k].1 < boxes.len() by {
        let e = out[k];
        assert(out.contains(e));
        lemma_rows_contains(items, boxes, sweep_x, 0, e);
        let (p, q) = choose|p: int, q: int| 0 <= p && #[trigger] found(items, boxes, sweep_x, p, q) && e == ordered_pair(items[p].2, items[q].2);
        assert(items[p].2 != items[q].2);
    }
}

/// The entry of box `x`.
spec fn pos(items: Seq<(i32, i32, u32)>, x: u32) -> int {
    choose|k: int| 0 <= k < items.len() && items[k].2 == x
}

proof fn lemma_pos(items: Seq<(i32, i32, u32)>, boxes: Seq<Bbox>, sweep_x: bool, k: int)
    requires
        items_of(items, boxes, sweep_x),
        0 <= k < items.len(),
    ensures
        pos(items, items[k].2) == k,
{
    let x = items[k].2;
    assert(exists|j: int| 0 <= j < items.len() && items[j].2 == x);
    let j = pos(items, x);
    if j != k {
        if j < k {
            assert(items[j].2 != items[k].2);
        } else {
            assert(items[k].2 != items[j].2);
        }
    }
}

proof fn lemma_no_dup_cat(s: Seq<(u32, u32)>, t: Seq<(u32, u32)>)
    requires
        s.no_duplicates(),
        t.no_duplicates(),
        forall|e: (u32, u32)| s.contains(e) ==> !t.contains(e),
    ensures
        (s + t).no_duplicates(),
{
    let r = s + t;
    assert forall|i: int, j: int| 0 <= i < r.len() && 0 <= j < r.len() && i != j implies r[i] != r[j] by {
        if i < s.len() && j >= s.len() {
            assert(s.contains(r[i]));
            assert(t[j - s.len()] == r[j]);
        } else if j < s.len() && i >= s.len() {
            assert(s.contains(r[j]));
            assert(t[i - s.len()] == r[i]);
        } else if i < s.len() && j < s.len() {
            assert(r[i] == s[i] && r[j] == s[j]);
        } else {
            assert(r[i] == t[i - s.len()] && r[j] == t[j - s.len()]);
        }
    }
}

/// Entries of a row from `p` name the box of entry `p` and one of entry `q0`
/// or later, once each.
proof fn lemma_row_distinct(items: Seq<(i32, i32, u32)>, boxes: Seq<Bbox>, sweep_x: bool, p: int, q0: int)
    requires
        items_of(items, boxes, sweep_x),
        0 <= p < q0,
    ensures
        row(items, boxes, sweep_x, p, q0).no_duplicates(),
        forall|e: (u32, u32)| #[trigger] row(items, boxes, sweep_x, p, q0).contains(e) ==> {
            let (a, b) = (pos(items, e.0), pos(items, e.1));
            &&& (a == p && b >= q0) || (b == p && a >= q0)
        },
    decreases items.len() - q0,
{
    if q0 < items.len() && items[q0].0 <= items[p].1 {
        lemma_row_distinct(items, boxes, sweep_x, p, q0 + 1);
        lemma_pos(items, boxes, sweep_x, p);
        lemma_pos(items, boxes, sweep_x, q0);
        let head: Seq<(u32, u32)> = if across_near(boxes[items[p].2 as int], boxes[items[q0].2 as int], sweep_x) {
            seq![ordered_pair(items[p].2, items[q0].2)]
        } else {
            Seq::empty()
        };
        let tail = row(items, boxes, sweep_x, p, q0 + 1);
        assert(row(items, boxes, sweep_x, p, q0) == head + tail);
        assert forall|e: (u32, u32)| head.contains(e) implies {
            let (a, b) = (pos(items, e.0), pos(items, e.1));
            (a == p && b == q0) || (b == p && a == q0)
        } by {
            assert(head[0] == e);
        }
        lemma_no_dup_cat(head, tail);
        assert forall|e: (u32, u32)| #[trigger] (head + tail).contains(e) implies {
            let (a, b) = (pos(items, e.0), pos(items, e.1));
            &&& (a == p && b >= q0) || (b == p && a >= q0)
        } by {
            let k = (head + tail).index_of(e);
            if k < head.len() {
                assert(head[k] == e);
                assert(head.contains(e));
            } else {
                assert(tail[k - head.len()] == e);
                assert(tail.contains(e));
            }
        }
    }
}

proof fn lemma_rows_distinct(items: Seq<(i32, i32, u32)>, boxes: Seq<Bbox>, sweep_x: bool, p0: int)
    requires
        items_of(items, boxes, sweep_x),
        0 <= p0,
    ensures
        rows(items, boxes, sweep_x, p0).no_duplicates(),
        forall|e: (u32, u32)| #[trigger] rows(items, boxes, sweep_x, p0).contains(e) ==> {
            let (a, b) = (pos(items, e.0), pos(items, e.1));
            &&& a >= p0 && b >= p0 && a != b
        },
    decreases items.len() - p0,
{
    if p0 < items.len() {
        lemma_rows_distinct(items, boxes, sweep_x, p0 + 1);
        lemma_row_distinct(items, boxes, sweep_x, p0, p0 + 1);
        let head = row(items, boxes, sweep_x, p0, p0 + 1);
        let tail = rows(items, boxes, sweep_x, p0 + 1);
        assert(rows(items, boxes, sweep_x, p0) == head + tail);
        lemma_no_dup_cat(head, tail);
        assert forall|e: (u32, u32)| #[trigger] (head + tail).contains(e) implies {
            let (a, b) = (pos(items, e.0), pos(items, e.1));
            &&& a >= p0 && b >= p0 && a != b
        } by {
            let k = (head + tail).index_of(e);
            if k < head.len() {
                assert(head[k] == e);
                assert(head.contains(e));
            } else {
                assert(tail[k - head.len()] == e);
                assert(tail.contains(e));
            }
        }
    }
}

} // verus!
