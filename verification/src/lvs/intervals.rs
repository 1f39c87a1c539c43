//! Interval sets on one scan line, as used by exact rectilinear connectivity:
//! intersecting sorted half-open interval lists, merging closed intervals,
//! and testing two closed interval lists for a common point.
use vstd::prelude::*;
use crate::lvs::compare::{ins, pair_le, sort_pairs, sort_pairs_exec};

verus! {

pub open spec fn max_i32(a: i32, b: i32) -> i32 {
    if a >= b { a } else { b }
}

pub open spec fn min_i32(a: i32, b: i32) -> i32 {
    if a <= b { a } else { b }
}

// ---------------------------------------------------------------------------
// Half-open intervals `[lo, hi)`.

pub open spec fn in_open(iv: (i32, i32), y: int) -> bool {
    iv.0 <= y < iv.1
}

pub open spec fn covers_open(s: Seq<(i32, i32)>, y: int) -> bool {
    exists|k: int| 0 <= k < s.len() && in_open(#[trigger] s[k], y)
}

/// Sorted, pairwise disjoint half-open intervals.
pub open spec fn sorted_open(s: Seq<(i32, i32)>) -> bool {
    &&& forall|k: int| 0 <= k < s.len() ==> (#[trigger] s[k]).0 <= s[k].1
    &&& forall|i: int, j: int| 0 <= i < j < s.len() ==> (#[trigger] s[i]).1 <= (#[trigger] s[j]).0
}

/// Intersection of two interval lists by a simultaneous sweep: the
/// non-empty intersection of the two front intervals, then the sweep past the
/// one that ends first.
pub open spec fn isect(a: Seq<(i32, i32)>, b: Seq<(i32, i32)>) -> Seq<(i32, i32)>
    decreases a.len() + b.len(),
{
    if a.len() == 0 || b.len() == 0 {
        Seq::empty()
    } else {
        let lo = max_i32(a[0].0, b[0].0);
        let hi = min_i32(a[0].1, b[0].1);
        let head = if lo < hi { seq![(lo, hi)] } else { Seq::empty() };
        if a[0].1 < b[0].1 {
            head + isect(a.drop_first(), b)
        } else {
            head + isect(a, b.drop_first())
        }
    }
}

proof fn lemma_covers_open_front(s: Seq<(i32, i32)>, y: int)
    requires
        s.len() > 0,
    ensures
        covers_open(s, y) <==> in_open(s[0], y) || covers_open(s.drop_first(), y),
{
    if covers_open(s, y) {
        let k = choose|k: int| 0 <= k < s.len() && in_open(#[trigger] s[k], y);
        if k > 0 {
            assert(s.drop_first()[k - 1] == s[k]);
        }
    }
    if covers_open(s.drop_first(), y) {
        let k = choose|k: int| 0 <= k < s.drop_first().len() && in_open(#[trigger] s.drop_first()[k], y);
        assert(s[k + 1] == s.drop_first()[k]);
    }
}

proof fn lemma_covers_open_cat(s: Seq<(i32, i32)>, t: Seq<(i32, i32)>, y: int)
    ensures
        covers_open(s + t, y) <==> covers_open(s, y) || covers_open(t, y),
{
    if covers_open(s + t, y) {
        let k = choose|k: int| 0 <= k < (s + t).len() && in_open(#[trigger] (s + t)[k], y);
        if k < s.len() {
            assert((s + t)[k] == s[k]);
        } else {
            assert((s + t)[k] == t[k - s.len()]);
        }
    }
    if covers_open(s, y) {
        let k = choose|k: int| 0 <= k < s.len() && in_open(#[trigger] s[k], y);
        assert((s + t)[k] == s[k]);
    }
    if covers_open(t, y) {
        let k = choose|k: int| 0 <= k < t.len() && in_open(#[trigger] t[k], y);
        assert((s + t)[k + s.len()] == t[k]);
    }
}

/// On sorted disjoint lists, the sweep covers exactly the points that both
/// lists cover.
pub proof fn lemma_isect_covers(a: Seq<(i32, i32)>, b: Seq<(i32, i32)>, y: int)
    requires
        sorted_open(a),
        sorted_open(b),
    ensures
        covers_open(isect(a, b), y) <==> covers_open(a, y) && covers_open(b, y),
    decreases a.len() + b.len(),
{
    if a.len() == 0 || b.len() == 0 {
        if a.len() == 0 {
            assert(!covers_open(a, y));
        } else {
            assert(!covers_open(b, y));
        }
    } else {
        let lo = max_i32(a[0].0, b[0].0);
        let hi = min_i32(a[0].1, b[0].1);
        let head: Seq<(i32, i32)> = if lo < hi { seq![(lo, hi)] } else { Seq::empty() };
        assert(covers_open(head, y) <==> in_open(a[0], y) && in_open(b[0], y)) by {
            if lo < hi {
                assert(head[0] == (lo, hi));
                if in_open(a[0], y) && in_open(b[0], y) {
                    assert(in_open(head[0], y));
                }
            }
        }
        lemma_covers_open_front(a, y);
        lemma_covers_open_front(b, y);
        assert(sorted_open(a.drop_first())) by {
            assert forall|i: int, j: int| 0 <= i < j < a.drop_first().len()
                implies (#[trigger] a.drop_first()[i]).1 <= (#[trigger] a.drop_first()[j]).0 by {
                assert(a.drop_first()[i] == a[i + 1] && a.drop_first()[j] == a[j + 1]);
            }
        }
        assert(sorted_open(b.drop_first())) by {
            assert forall|i: int, j: int| 0 <= i < j < b.drop_first().len()
                implies (#[trigger] b.drop_first()[i]).1 <= (#[trigger] b.drop_first()[j]).0 by {
                assert(b.drop_first()[i] == b[i + 1] && b.drop_first()[j] == b[j + 1]);
            }
        }
        if a[0].1 < b[0].1 {
            lemma_isect_covers(a.drop_first(), b, y);
            lemma_covers_open_cat(head, isect(a.drop_first(), b), y);
            if in_open(a[0], y) && covers_open(b.drop_first(), y) {
                let k = choose|k: int| 0 <= k < b.drop_first().len() && in_open(#[trigger] b.drop_first()[k], y);
                assert(b.drop_first()[k] == b[k + 1]);
                assert(b[0].1 <= b[k + 1].0);
            }
        } else {
            lemma_isect_covers(a, b.drop_first(), y);
            lemma_covers_open_cat(head, isect(a, b.drop_first()), y);
            if in_open(b[0], y) && covers_open(a.drop_first(), y) {
                let k = choose|k: int| 0 <= k < a.drop_first().len() && in_open(#[trigger] a.drop_first()[k], y);
                assert(a.drop_first()[k] == a[k + 1]);
                assert(a[0].1 <= a[k + 1].0);
            }
        }
    }
}

/// Intersects two interval lists by one simultaneous sweep.
pub fn intersect_interval_sets(a: &[(i32, i32)], b: &[(i32, i32)]) -> (out: Vec<(i32, i32)>)
    ensures
        out@ == isect(a@, b@),
{
    let mut i: usize = 0;
    let mut j: usize = 0;
    let mut out: Vec<(i32, i32)> = Vec::new();
    assert(a@.skip(0) =~= a@ && b@.skip(0) =~= b@);
    assert(out@ + isect(a@, b@) =~= isect(a@, b@));
    while i < a.len() && j < b.len()
        invariant
            i <= a@.len(),
            j <= b@.len(),
            out@ + isect(a@.skip(i as int), b@.skip(j as int)) == isect(a@, b@),
        decreases a@.len() - i + b@.len() - j,
    {
        let ai = a[i];
        let bj = b[j];
        let lo = if ai.0 >= bj.0 { ai.0 } else { bj.0 };
        let hi = if ai.1 <= bj.1 { ai.1 } else { bj.1 };
        let ghost sa = a@.skip(i as int);
        let ghost sb = b@.skip(j as int);
        let ghost o0 = out@;
        assert(sa[0] == ai && sb[0] == bj);
        if lo < hi {
            out.push((lo, hi));
        }
        if ai.1 < bj.1 {
            assert(sa.drop_first() =~= a@.skip(i as int + 1));
            i = i + 1;
        } else {
            assert(sb.drop_first() =~= b@.skip(j as int + 1));
            j = j + 1;
        }
        assert(out@ + isect(a@.skip(i as int), b@.skip(j as int)) =~= o0 + isect(sa, sb));
    }
    proof {
        assert(isect(a@.skip(i as int), b@.skip(j as int)) =~= Seq::<(i32, i32)>::empty());
        assert(out@ + Seq::<(i32, i32)>::empty() =~= out@);
    }
    out
}

// ---------------------------------------------------------------------------
// Closed intervals `[lo, hi]`, sampled at half units: `y2` stands for `y2 / 2`.

pub open spec fn in_closed(iv: (i32, i32), y2: int) -> bool {
    2 * iv.0 <= y2 <= 2 * iv.1
}

pub open spec fn covers_closed(s: Seq<(i32, i32)>, y2: int) -> bool {
    exists|k: int| 0 <= k < s.len() && in_closed(#[trigger] s[k], y2)
}

/// Sorted closed intervals with a gap between neighbours.
pub open spec fn separated(s: Seq<(i32, i32)>) -> bool {
    &&& forall|k: int| 0 <= k < s.len() ==> (#[trigger] s[k]).0 <= s[k].1
    &&& forall|i: int, j: int| 0 <= i < j < s.len() ==> (#[trigger] s[i]).1 < (#[trigger] s[j]).0
}

/// Whether the sweep finds two front intervals that share a point.
pub open spec fn meets(a: Seq<(i32, i32)>, b: Seq<(i32, i32)>) -> bool
    decreases a.len() + b.len(),
{
    if a.len() == 0 || b.len() == 0 {
        false
    } else if max_i32(a[0].0, b[0].0) <= min_i32(a[0].1, b[0].1) {
        true
    } else if a[0].1 < b[0].1 {
        meets(a.drop_first(), b)
    } else {
        meets(a, b.drop_first())
    }
}

proof fn lemma_covers_closed_front(s: Seq<(i32, i32)>, y2: int)
    requires
        s.len() > 0,
    ensures
        covers_closed(s, y2) <==> in_closed(s[0], y2) || covers_closed(s.drop_first(), y2),
{
    if covers_closed(s, y2) {
        let k = choose|k: int| 0 <= k < s.len() && in_closed(#[trigger] s[k], y2);
        if k > 0 {
            assert(s.drop_first()[k - 1] == s[k]);
        }
    }
    if covers_closed(s.drop_first(), y2) {
        let k = choose|k: int| 0 <= k < s.drop_first().len() && in_closed(#[trigger] s.drop_first()[k], y2);
        assert(s[k + 1] == s.drop_first()[k]);
    }
}

proof fn lemma_separated_tail(s: Seq<(i32, i32)>)
    requires
        separated(s),
        s.len() > 0,
    ensures
        separated(s.drop_first()),
{
    assert forall|i: int, j: int| 0 <= i < j < s.drop_first().len()
        implies (#[trigger] s.drop_first()[i]).1 < (#[trigger] s.drop_first()[j]).0 by {
        assert(s.drop_first()[i] == s[i + 1] && s.drop_first()[j] == s[j + 1]);
    }
    assert forall|k: int| 0 <= k < s.drop_first().len() implies (#[trigger] s.drop_first()[k]).0 <= s.drop_first()[k].1 by {
        assert(s.drop_first()[k] == s[k + 1]);
    }
}

/// On separated lists, the sweep finds a meeting pair exactly when some point
/// lies in both lists.
pub proof fn lemma_meets_common_point(a: Seq<(i32, i32)>, b: Seq<(i32, i32)>)
    requires
        separated(a),
        separated(b),
    ensures
        meets(a, b) <==> exists|y2: int| covers_closed(a, y2) && covers_closed(b, y2),
    decreases a.len() + b.len(),
{
    if a.len() == 0 || b.len() == 0 {
        if exists|y2: int| covers_closed(a, y2) && covers_closed(b, y2) {
            let y2 = choose|y2: int| covers_closed(a, y2) && covers_closed(b, y2);
            assert(covers_closed(a, y2));
            assert(covers_closed(b, y2));
        }
    } else if max_i32(a[0].0, b[0].0) <= min_i32(a[0].1, b[0].1) {
        let y2 = 2 * max_i32(a[0].0, b[0].0);
        assert(in_closed(a[0], y2) && in_closed(b[0], y2));
        assert(covers_closed(a, y2) && covers_closed(b, y2));
    } else {
        lemma_separated_tail(a);
        lemma_separated_tail(b);
        if a[0].1 < b[0].1 {
            lemma_meets_common_point(a.drop_first(), b);
            if exists|y2: int| covers_closed(a, y2) && covers_closed(b, y2) {
                let y2 = choose|y2: int| covers_closed(a, y2) && covers_closed(b, y2);
                lemma_covers_closed_front(a, y2);
                lemma_covers_closed_front(b, y2);
                if in_closed(a[0], y2) {
                    if covers_closed(b.drop_first(), y2) {
                        let k = choose|k: int| 0 <= k < b.drop_first().len() && in_closed(#[trigger] b.drop_first()[k], y2);
                        assert(b.drop_first()[k] == b[k + 1]);
                        assert(b[0].1 < b[k + 1].0);
                    }
                }
                assert(covers_closed(a.drop_first(), y2));
            }
            if exists|y2: int| covers_closed(a.drop_first(), y2) && covers_closed(b, y2) {
                let y2 = choose|y2: int| covers_closed(a.drop_first(), y2) && covers_closed(b, y2);
                lemma_covers_closed_front(a, y2);
                assert(covers_closed(a, y2));
            }
        } else {
            lemma_meets_common_point(a, b.drop_first());
            if exists|y2: int| covers_closed(a, y2) && covers_closed(b, y2) {
                let y2 = choose|y2: int| covers_closed(a, y2) && covers_closed(b, y2);
                lemma_covers_closed_front(a, y2);
                lemma_covers_closed_front(b, y2);
                if in_closed(b[0], y2) {
                    if covers_closed(a.drop_first(), y2) {
                        let k = choose|k: int| 0 <= k < a.drop_first().len() && in_closed(#[trigger] a.drop_first()[k], y2);
                        assert(a.drop_first()[k] == a[k + 1]);
                        assert(a[0].1 < a[k + 1].0);
                    }
                }
                assert(covers_closed(b.drop_first(), y2));
            }
            if exists|y2: int| covers_closed(a, y2) && covers_closed(b.drop_first(), y2) {
                let y2 = choose|y2: int| covers_closed(a, y2) && covers_closed(b.drop_first(), y2);
                lemma_covers_closed_front(b, y2);
                assert(covers_closed(b, y2));
            }
        }
    }
}

/// Whether two closed interval lists have a pair of intervals sharing a
/// point, found by one simultaneous sweep.
pub fn closed_interval_sets_intersect(a: &[(i32, i32)], b: &[(i32, i32)]) -> (r: bool)
    ensures
        r == meets(a@, b@),
{
    let mut i: usize = 0;
    let mut j: usize = 0;
    assert(a@.skip(0) =~= a@ && b@.skip(0) =~= b@);
    while i < a.len() && j < b.len()
        invariant
            i <= a@.len(),
            j <= b@.len(),
            meets(a@, b@) == meets(a@.skip(i as int), b@.skip(j as int)),
        decreases a@.len() - i + b@.len() - j,
    {
        let ai = a[i];
        let bj = b[j];
        let ghost sa = a@.skip(i as int);
        let ghost sb = b@.skip(j as int);
        assert(sa[0] == ai && sb[0] == bj);
        let lo = if ai.0 >= bj.0 { ai.0 } else { bj.0 };
        let hi = if ai.1 <= bj.1 { ai.1 } else { bj.1 };
        if lo <= hi {
            return true;
        }
        if ai.1 < bj.1 {
            assert(sa.drop_first() =~= a@.skip(i as int + 1));
            i = i + 1;
        } else {
            assert(sb.drop_first() =~= b@.skip(j as int + 1));
            j = j + 1;
        }
    }
    false
}

/// Starts never decrease along `s`.
pub open spec fn lo_sorted(s: Seq<(i32, i32)>) -> bool {
    forall|i: int, j: int| 0 <= i < j < s.len() ==> (#[trigger] s[i]).0 <= (#[trigger] s[j]).0
}

proof fn lemma_ins(t: Seq<(i32, i32)>, x: (i32, i32))
    ensures
        ins(t, x).len() == t.len() + 1,
        forall|y: (i32, i32)| #[trigger] ins(t, x).contains(y) <==> t.contains(y) || y == x,
        lo_sorted(t) ==> lo_sorted(ins(t, x)),
    decreases t.len(),
{
    if t.len() == 0 {
        assert(ins(t, x) =~= seq![x]);
        assert forall|y: (i32, i32)| ins(t, x).contains(y) <==> t.contains(y) || y == x by {
            if ins(t, x).contains(y) {
                let k = ins(t, x).index_of(y);
                assert(ins(t, x)[k] == x);
            }
            if y == x {
                assert(ins(t, x)[0] == x);
            }
        }
    } else if pair_le(x, t[0]) {
        let r = ins(t, x);
        assert(r =~= seq![x] + t);
        assert forall|y: (i32, i32)| r.contains(y) <==> t.contains(y) || y == x by {
            if r.contains(y) {
                let k = r.index_of(y);
                if k > 0 {
                    assert(t[k - 1] == y);
                }
            }
            if t.contains(y) {
                let k = t.index_of(y);
                assert(r[k + 1] == y);
            }
            if y == x {
                assert(r[0] == x);
            }
        }
        if lo_sorted(t) {
            assert forall|i: int, j: int| 0 <= i < j < r.len() implies (#[trigger] r[i]).0 <= (#[trigger] r[j]).0 by {
                if i == 0 {
                    assert(r[j] == t[j - 1]);
                    if j - 1 > 0 {
                        assert(t[0].0 <= t[j - 1].0);
                    }
                } else {
                    assert(r[i] == t[i - 1] && r[j] == t[j - 1]);
                }
            }
        }
    } else {
        let rest = t.drop_first();
        lemma_ins(rest, x);
        let r = ins(t, x);
        assert(r =~= seq![t[0]] + ins(rest, x));
        assert forall|y: (i32, i32)| r.contains(y) <==> t.contains(y) || y == x by {
            if r.contains(y) {
                let k = r.index_of(y);
                if k > 0 {
                    assert(ins(rest, x)[k - 1] == y);
                    assert(ins(rest, x).contains(y));
                    if rest.contains(y) {
                        let q = rest.index_of(y);
                        assert(t[q + 1] == y);
                    }
                } else {
                    assert(t[0] == y);
                }
            }
            if t.contains(y) {
                let k = t.index_of(y);
                if k == 0 {
                    assert(r[0] == y);
                } else {
                    assert(rest[k - 1] == y);
                    assert(rest.contains(y));
                    assert(ins(rest, x).contains(y));
                    let q = ins(rest, x).index_of(y);
                    assert(r[q + 1] == y);
                }
            }
            if y == x {
                assert(ins(rest, x).contains(x));
                let q = ins(rest, x).index_of(x);
                assert(r[q + 1] == x);
            }
        }
        if lo_sorted(t) {
            assert(lo_sorted(rest)) by {
                assert forall|i: int, j: int| 0 <= i < j < rest.len() implies (#[trigger] rest[i]).0 <= (#[trigger] rest[j]).0 by {
                    assert(rest[i] == t[i + 1] && rest[j] == t[j + 1]);
                }
            }
            assert forall|i: int, j: int| 0 <= i < j < r.len() implies (#[trigger] r[i]).0 <= (#[trigger] r[j]).0 by {
                let e = ins(rest, x)[j - 1];
                assert(r[j] == e);
                if i == 0 {
                    assert(ins(rest, x).contains(e));
                    if rest.contains(e) {
                        let q = rest.index_of(e);
                        assert(t[q + 1] == e);
                        assert(t[0].0 <= t[q + 1].0);
                    } else {
                        assert(e == x);
                    }
                } else {
                    assert(r[i] == ins(rest, x)[i - 1]);
                }
            }
        }
    }
}

proof fn lemma_sort_pairs(s: Seq<(i32, i32)>)
    ensures
        lo_sorted(sort_pairs(s)),
        forall|y: (i32, i32)| #[trigger] sort_pairs(s).contains(y) <==> s.contains(y),
    decreases s.len(),
{
    if s.len() > 0 {
        let init = s.drop_last();
        lemma_sort_pairs(init);
        lemma_ins(sort_pairs(init), s.last());
        assert forall|y: (i32, i32)| sort_pairs(s).contains(y) <==> s.contains(y) by {
            if init.contains(y) {
                let k = init.index_of(y);
                assert(s[k] == y);
            }
            if s.contains(y) {
                let k = s.index_of(y);
                if k < s.len() - 1 {
                    assert(init[k] == y);
                }
            }
        }
    }
}

proof fn lemma_covers_closed_same(s: Seq<(i32, i32)>, t: Seq<(i32, i32)>, y2: int)
    requires
        forall|e: (i32, i32)| s.contains(e) <==> t.contains(e),
    ensures
        covers_closed(s, y2) <==> covers_closed(t, y2),
{
    if covers_closed(s, y2) {
        let k = choose|k: int| 0 <= k < s.len() && in_closed(#[trigger] s[k], y2);
        assert(s.contains(s[k]));
        let q = t.index_of(s[k]);
        assert(in_closed(t[q], y2));
    }
    if covers_closed(t, y2) {
        let k = choose|k: int| 0 <= k < t.len() && in_closed(#[trigger] t[k], y2);
        assert(t.contains(t[k]));
        let q = s.index_of(t[k]);
        assert(in_closed(s[q], y2));
    }
}

proof fn lemma_covers_closed_last(s: Seq<(i32, i32)>, y2: int)
    requires
        s.len() > 0,
    ensures
        covers_closed(s, y2) <==> covers_closed(s.drop_last(), y2) || in_closed(s.last(), y2),
{
    if covers_closed(s, y2) {
        let k = choose|k: int| 0 <= k < s.len() && in_closed(#[trigger] s[k], y2);
        if k < s.len() - 1 {
            assert(s.drop_last()[k] == s[k]);
        }
    }
    if covers_closed(s.drop_last(), y2) {
        let k = choose|k: int| 0 <= k < s.drop_last().len() && in_closed(#[trigger] s.drop_last()[k], y2);
        assert(s[k] == s.drop_last()[k]);
    }
}

/// Merges closed intervals into sorted, separated intervals that cover the
/// same points; intervals with `lo > hi` are empty and dropped.
pub fn merge_closed_intervals(intervals: Vec<(i32, i32)>) -> (out: Vec<(i32, i32)>)
    ensures
        separated(out@),
        forall|y2: int| covers_closed(out@, y2) <==> covers_closed(intervals@, y2),
{
    let sorted = sort_pairs_exec(&intervals);
    proof {
        lemma_sort_pairs(intervals@);
    }
    let mut out: Vec<(i32, i32)> = Vec::new();
    let mut k: usize = 0;
    while k < sorted.len()
        invariant
            k <= sorted@.len(),
            lo_sorted(sorted@),
            separated(out@),
            forall|y2: int| covers_closed(out@, y2) <==> covers_closed(sorted@.take(k as int), y2),
            out@.len() > 0 ==> forall|j: int| k <= j < sorted@.len() ==> out@.last().0 <= (#[trigger] sorted@[j]).0,
        decreases sorted@.len() - k,
    {
        let (lo, hi) = sorted[k];
        let ghost o0 = out@;
        let ghost x = sorted@[k as int];
        proof {
            assert(sorted@.take(k as int + 1) =~= sorted@.take(k as int).push(x));
            assert(sorted@.take(k as int + 1).drop_last() =~= sorted@.take(k as int));
        }
        if lo <= hi {
            let n = out.len();
            if n > 0 && lo <= out[n - 1].1 {
                let last = out[n - 1];
                let new_hi = if last.1 >= hi { last.1 } else { hi };
                out.set(n - 1, (last.0, new_hi));
                proof {
                    assert(out@.drop_last() =~= o0.drop_last());
                    assert(last.0 <= lo);
                    assert forall|y2: int| covers_closed(out@, y2) <==> covers_closed(sorted@.take(k as int + 1), y2) by {
                        lemma_covers_closed_last(out@, y2);
                        lemma_covers_closed_last(o0, y2);
                        lemma_covers_closed_last(sorted@.take(k as int + 1), y2);
                    }
                    assert forall|i: int, j: int| 0 <= i < j < out@.len() implies (#[trigger] out@[i]).1 < (#[trigger] out@[j]).0 by {
                        assert(o0[i].1 < o0[j].0);
                    }
                }
            } else {
                proof {
                    if n > 0 {
                        assert forall|i: int| 0 <= i < n implies (#[trigger] o0[i]).1 < lo by {
                            if i < n - 1 {
                                assert(o0[i].1 < o0[n - 1].0);
                            }
                        }
                    }
                }
                out.push((lo, hi));
                proof {
                    assert(out@.drop_last() =~= o0);
                    assert forall|y2: int| covers_closed(out@, y2) <==> covers_closed(sorted@.take(k as int + 1), y2) by {
                        lemma_covers_closed_last(out@, y2);
                        lemma_covers_closed_last(sorted@.take(k as int + 1), y2);
                    }
                    assert forall|i: int, j: int| 0 <= i < j < out@.len() implies (#[trigger] out@[i]).1 < (#[trigger] out@[j]).0 by {
                        if j < n {
                            assert(o0[i].1 < o0[j].0);
                        } else {
                            assert(o0[i].1 < lo);
                        }
                    }
                    assert forall|j: int| k + 1 <= j < sorted@.len() implies out@.last().0 <= (#[trigger] sorted@[j]).0 by {
                        assert(sorted@[k as int].0 <= sorted@[j].0);
                    }
                }
            }
        } else {
            proof {
                assert forall|y2: int| covers_closed(out@, y2) <==> covers_closed(sorted@.take(k as int + 1), y2) by {
                    lemma_covers_closed_last(sorted@.take(k as int + 1), y2);
                }
            }
        }
        k = k + 1;
    }
    proof {
        assert(sorted@.take(k as int) =~= sorted@);
        assert forall|y2: int| covers_closed(out@, y2) <==> covers_closed(intervals@, y2) by {
            lemma_covers_closed_same(sorted@, intervals@, y2);
        }
    }
    out
}

/// Total length of half-open intervals.
pub open spec fn total_len(s: Seq<(i32, i32)>) -> int
    decreases s.len(),
{
    if s.len() == 0 {
        0
    } else {
        (s[0].1 - s[0].0) + total_len(s.drop_first())
    }
}

pub open spec fn within(s: Seq<(i32, i32)>, lo: int, hi: int) -> bool {
    forall|k: int| 0 <= k < s.len() ==> lo <= (#[trigger] s[k]).0 && s[k].1 <= hi
}

proof fn lemma_sorted_open_tail(s: Seq<(i32, i32)>)
    requires
        sorted_open(s),
        s.len() > 0,
    ensures
        sorted_open(s.drop_first()),
        within(s.drop_first(), s[0].1 as int, i32::MAX as int),
{
    let t = s.drop_first();
    assert forall|i: int, j: int| 0 <= i < j < t.len() implies (#[trigger] t[i]).1 <= (#[trigger] t[j]).0 by {
        assert(t[i] == s[i + 1] && t[j] == s[j + 1]);
    }
    assert forall|k: int| 0 <= k < t.len() implies (#[trigger] t[k]).0 <= t[k].1 by {
        assert(t[k] == s[k + 1]);
    }
    assert forall|k: int| 0 <= k < t.len() implies s[0].1 <= (#[trigger] t[k]).0 && t[k].1 <= i32::MAX by {
        assert(t[k] == s[k + 1]);
    }
}

/// Sorted disjoint intervals within `[lo, hi]` have total length at most
/// `hi - lo`.
pub proof fn lemma_total_len_bound(s: Seq<(i32, i32)>, lo: int, hi: int)
    requires
        sorted_open(s),
        within(s, lo, hi),
        lo <= hi,
    ensures
        0 <= total_len(s) <= hi - lo,
    decreases s.len(),
{
    if s.len() > 0 {
        lemma_sorted_open_tail(s);
        let t = s.drop_first();
        assert(within(t, s[0].1 as int, hi)) by {
            assert forall|k: int| 0 <= k < t.len() implies s[0].1 <= (#[trigger] t[k]).0 && t[k].1 <= hi by {
                assert(t[k] == s[k + 1]);
            }
        }
        assert(s[0].0 <= s[0].1);
        lemma_total_len_bound(t, s[0].1 as int, hi);
    }
}

/// The sweep of sorted disjoint lists is sorted and disjoint, lies within
/// any range holding `a`, and starts no lower than either front.
pub proof fn lemma_isect_sorted(a: Seq<(i32, i32)>, b: Seq<(i32, i32)>, lo: int, hi: int)
    requires
        sorted_open(a),
        sorted_open(b),
        within(a, lo, hi),
    ensures
        sorted_open(isect(a, b)),
        within(isect(a, b), lo, hi),
        a.len() > 0 && b.len() > 0 ==> forall|k: int| 0 <= k < isect(a, b).len()
            ==> a[0].0 <= (#[trigger] isect(a, b)[k]).0 && b[0].0 <= isect(a, b)[k].0,
    decreases a.len() + b.len(),
{
    if a.len() > 0 && b.len() > 0 {
        let l = max_i32(a[0].0, b[0].0);
        let h = min_i32(a[0].1, b[0].1);
        let head: Seq<(i32, i32)> = if l < h { seq![(l, h)] } else { Seq::empty() };
        let r = isect(a, b);
        lemma_sorted_open_tail(a);
        lemma_sorted_open_tail(b);
        if a[0].1 < b[0].1 {
            let a1 = a.drop_first();
            assert(within(a1, lo, hi)) by {
                assert forall|k: int| 0 <= k < a1.len() implies lo <= (#[trigger] a1[k]).0 && a1[k].1 <= hi by {
                    assert(a1[k] == a[k + 1]);
                }
            }
            lemma_isect_sorted(a1, b, lo, hi);
            let tail = isect(a1, b);
            assert(r == head + tail);
            assert forall|k: int| 0 <= k < tail.len() implies h <= (#[trigger] tail[k]).0 && a[0].0 <= tail[k].0 && b[0].0 <= tail[k].0 by {
                assert(a1[0] == a[1]);
                assert(a[0].1 <= a[1].0);
            }
            lemma_isect_cat_sorted(head, tail, h as int, a[0].0 as int, b[0].0 as int, lo, hi);
        } else {
            let b1 = b.drop_first();
            lemma_isect_sorted(a, b1, lo, hi);
            let tail = isect(a, b1);
            assert(r == head + tail);
            assert forall|k: int| 0 <= k < tail.len() implies h <= (#[trigger] tail[k]).0 && a[0].0 <= tail[k].0 && b[0].0 <= tail[k].0 by {
                assert(b1[0] == b[1]);
                assert(b[0].1 <= b[1].0);
            }
            lemma_isect_cat_sorted(head, tail, h as int, a[0].0 as int, b[0].0 as int, lo, hi);
        }
    }
}

proof fn lemma_isect_cat_sorted(head: Seq<(i32, i32)>, tail: Seq<(i32, i32)>, h: int, a0: int, b0: int, lo: int, hi: int)
    requires
        head.len() <= 1,
        head.len() == 1 ==> head[0].0 < head[0].1 && head[0].1 == h && a0 <= head[0].0 && b0 <= head[0].0
            && lo <= head[0].0 && head[0].1 <= hi,
        sorted_open(tail),
        within(tail, lo, hi),
        forall|k: int| 0 <= k < tail.len() ==> h <= (#[trigger] tail[k]).0 && a0 <= tail[k].0 && b0 <= tail[k].0,
    ensures
        sorted_open(head + tail),
        within(head + tail, lo, hi),
        forall|k: int| 0 <= k < (head + tail).len() ==> a0 <= (#[trigger] (head + tail)[k]).0 && b0 <= (head + tail)[k].0,
{
    let r = head + tail;
    assert forall|k: int| 0 <= k < r.len() implies (#[trigger] r[k]).0 <= r[k].1 && lo <= r[k].0 && r[k].1 <= hi
        && a0 <= r[k].0 && b0 <= r[k].0 by {
        if k >= head.len() {
            assert(r[k] == tail[k - head.len()]);
        }
    }
    assert forall|i: int, j: int| 0 <= i < j < r.len() implies (#[trigger] r[i]).1 <= (#[trigger] r[j]).0 by {
        if i >= head.len() {
            assert(r[i] == tail[i - head.len()] && r[j] == tail[j - head.len()]);
        } else {
            assert(r[j] == tail[j - head.len()]);
        }
    }
}

} // verus!
