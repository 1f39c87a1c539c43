//! Splitting a channel polygon at the gates that cross it: the gates' spans
//! along the channel's axis, sorted, and the source/drain segments left
//! between them.
use vstd::prelude::*;
use crate::geometry::GeometryStore;
use crate::lvs::recognize::{layer_polys, layer_polys_exec, pair_overlap, pair_overlap_exec};

verus! {

/// A gate's extent along a channel's axis, clipped to the channel.
#[derive(Clone, Copy, Debug, PartialEq, Eq, Structural)]
pub struct GateSpan {
    pub gate: usize,
    pub lo: i32,
    pub hi: i32,
}

/// Gate-layer polygons that overlap channel polygon `d`: layer by layer
/// over the first `k` gate layers, each layer in polygon order.
pub open spec fn overlapping(store: GeometryStore, d: int) -> spec_fn(usize) -> bool {
    |g: usize| pair_overlap(store, g as int, d)
}

pub open spec fn crossing_gates(store: GeometryStore, gate_layers: Seq<u32>, d: int, k: int) -> Seq<usize>
    decreases k,
{
    if k <= 0 {
        Seq::empty()
    } else {
        crossing_gates(store, gate_layers, d, k - 1) + layer_polys(store, gate_layers[k - 1]).filter(overlapping(store, d))
    }
}

/// Gate `g` crosses channel `d` vertically: it covers the channel's y extent
/// or is at least as tall as the channel.
pub open spec fn crosses_vertically(store: GeometryStore, g: int, d: int) -> bool {
    let gb = store.poly_bbox@[g];
    let db = store.poly_bbox@[d];
    (gb.ymin <= db.ymin && gb.ymax >= db.ymax) || gb.ymax - gb.ymin >= db.ymax - db.ymin
}

pub open spec fn with_axis(store: GeometryStore, d: int, axis_x: bool) -> spec_fn(usize) -> bool {
    |g: usize| crosses_vertically(store, g as int, d) == axis_x
}

/// The channel runs along x when at least half of its gates cross it
/// vertically.
pub open spec fn along_x(store: GeometryStore, gates: Seq<usize>, d: int) -> bool {
    2 * gates.filter(with_axis(store, d, true)).len() >= gates.len()
}

pub open spec fn max_i32(a: i32, b: i32) -> i32 {
    if a >= b { a } else { b }
}

pub open spec fn min_i32(a: i32, b: i32) -> i32 {
    if a <= b { a } else { b }
}

/// The extent of gate `g` along the channel's axis, clipped to the channel.
pub open spec fn span_of(store: GeometryStore, d: int, axis_x: bool) -> spec_fn(usize) -> GateSpan {
    |g: usize| {
        let gb = store.poly_bbox@[g as int];
        let db = store.poly_bbox@[d];
        if axis_x {
            GateSpan { gate: g, lo: max_i32(gb.xmin, db.xmin), hi: min_i32(gb.xmax, db.xmax) }
        } else {
            GateSpan { gate: g, lo: max_i32(gb.ymin, db.ymin), hi: min_i32(gb.ymax, db.ymax) }
        }
    }
}

/// `a` sorts no later than `b`: by `lo`, then by `hi`.
pub open spec fn span_le(a: GateSpan, b: GateSpan) -> bool {
    a.lo < b.lo || (a.lo == b.lo && a.hi <= b.hi)
}

/// Inserts `x` into sorted `s` after every span that sorts no later.
pub open spec fn ins_span(s: Seq<GateSpan>, x: GateSpan) -> Seq<GateSpan>
    decreases s.len(),
{
    if s.len() == 0 {
        seq![x]
    } else if span_le(s.last(), x) {
        s.push(x)
    } else {
        ins_span(s.drop_last(), x).push(s.last())
    }
}

/// `s` sorted by (`lo`, `hi`), spans with equal keys keeping their order.
pub open spec fn sort_spans(s: Seq<GateSpan>) -> Seq<GateSpan>
    decreases s.len(),
{
    if s.len() == 0 {
        s
    } else {
        ins_span(sort_spans(s.drop_last()), s.last())
    }
}

/// Sweeping the first `k` sorted spans from `start`: the gaps found so far
/// and the cursor, the furthest end reached.
pub open spec fn sweep(spans: Seq<GateSpan>, start: i32, k: int) -> (Seq<(i32, i32)>, i32)
    decreases k,
{
    if k <= 0 {
        (Seq::empty(), start)
    } else {
        let (segs, c) = sweep(spans, start, k - 1);
        let s = spans[k - 1];
        (if s.lo > c { segs.push((c, s.lo)) } else { segs }, if s.hi > c { s.hi } else { c })
    }
}

/// The parts of `[lo, hi]` that no span covers, in order.
pub open spec fn segments(spans: Seq<GateSpan>, lo: i32, hi: i32) -> Seq<(i32, i32)> {
    let (segs, c) = sweep(spans, lo, spans.len() as int);
    if hi > c { segs.push((c, hi)) } else { segs }
}

/// A channel polygon split at its gates.
pub struct DiffSplit {
    pub diff: usize,
    pub axis_x: bool,
    pub seg_spans: Vec<(i32, i32)>,
    pub gates: Vec<GateSpan>,
}

/// How channel polygon `d` splits: along x or y, the sorted spans of the
/// gates crossing it along that axis, and the segments between them.
pub open spec fn split_spec(store: GeometryStore, gate_layers: Seq<u32>, d: int) -> (bool, Seq<GateSpan>, Seq<(i32, i32)>) {
    let gates = crossing_gates(store, gate_layers, d, gate_layers.len() as int);
    let axis_x = along_x(store, gates, d);
    let spans = sort_spans(gates.filter(with_axis(store, d, axis_x)).map_values(span_of(store, d, axis_x)));
    let db = store.poly_bbox@[d];
    if axis_x {
        (axis_x, spans, segments(spans, db.xmin, db.xmax))
    } else {
        (axis_x, spans, segments(spans, db.ymin, db.ymax))
    }
}

proof fn lemma_filter_step<A>(s: Seq<A>, p: spec_fn(A) -> bool, i: int)
    requires
        0 <= i < s.len(),
    ensures
        s.take(i + 1).filter(p) == if p(s[i]) { s.take(i).filter(p).push(s[i]) } else { s.take(i).filter(p) },
{
    reveal(Seq::filter);
    let t = s.take(i + 1);
    assert(t.drop_last() =~= s.take(i));
    assert(t.last() == s[i]);
    assert(t.filter(p) == if p(t.last()) { t.drop_last().filter(p).push(t.last()) } else { t.drop_last().filter(p) });
}

fn crossing_gates_exec(store: &GeometryStore, gate_layers: &Vec<u32>, d: usize) -> (r: Vec<usize>)
    requires
        store.wf(),
        d < store.poly_layer@.len(),
    ensures
        r@ == crossing_gates(*store, gate_layers@, d as int, gate_layers@.len() as int),
        forall|i: int| 0 <= i < r@.len() ==> (#[trigger] r@[i]) < store.poly_layer@.len(),
{
    let mut r: Vec<usize> = Vec::new();
    let mut k: usize = 0;
    while k < gate_layers.len()
        invariant
            store.wf(),
            d < store.poly_layer@.len(),
            k <= gate_layers@.len(),
            r@ == crossing_gates(*store, gate_layers@, d as int, k as int),
            forall|i: int| 0 <= i < r@.len() ==> (#[trigger] r@[i]) < store.poly_layer@.len(),
        decreases gate_layers@.len() - k,
    {
        let polys = layer_polys_exec(store, gate_layers[k]);
        let ghost start = r@;
        let mut j: usize = 0;
        assert(polys@.take(0).filter(overlapping(*store, d as int)) =~= Seq::<usize>::empty());
        assert(start + Seq::<usize>::empty() =~= start);
        while j < polys.len()
            invariant
                store.wf(),
                d < store.poly_layer@.len(),
                k < gate_layers@.len(),
                polys@ == layer_polys(*store, gate_layers@[k as int]),
                forall|i: int| 0 <= i < polys@.len() ==> (#[trigger] polys@[i]) < store.poly_layer@.len(),
                j <= polys@.len(),
                r@ == start + polys@.take(j as int).filter(overlapping(*store, d as int)),
                forall|i: int| 0 <= i < r@.len() ==> (#[trigger] r@[i]) < store.poly_layer@.len(),
            decreases polys@.len() - j,
        {
            let g = polys[j];
            proof {
                lemma_filter_step(polys@, overlapping(*store, d as int), j as int);
            }
            if pair_overlap_exec(store, g, d) {
                r.push(g);
            }
            assert(r@ =~= start + polys@.take(j as int + 1).filter(overlapping(*store, d as int)));
            j = j + 1;
        }
        assert(polys@.take(j as int) =~= polys@);
        k = k + 1;
    }
    r
}

fn crosses_vertically_exec(store: &GeometryStore, g: usize, d: usize) -> (b: bool)
    requires
        store.wf(),
        g < store.poly_layer@.len(),
        d < store.poly_layer@.len(),
    ensures
        b == crosses_vertically(*store, g as int, d as int),
{
    let gb = store.poly_bbox[g];
    let db = store.poly_bbox[d];
    (gb.ymin <= db.ymin && gb.ymax >= db.ymax) || gb.ymax as i64 - gb.ymin as i64 >= db.ymax as i64 - db.ymin as i64
}

fn span_of_exec(store: &GeometryStore, g: usize, d: usize, axis_x: bool) -> (s: GateSpan)
    requires
        store.wf(),
        g < store.poly_layer@.len(),
        d < store.poly_layer@.len(),
    ensures
        s == span_of(*store, d as int, axis_x)(g),
{
    let gb = store.poly_bbox[g];
    let db = store.poly_bbox[d];
    if axis_x {
        GateSpan {
            gate: g,
            lo: if gb.xmin >= db.xmin { gb.xmin } else { db.xmin },
            hi: if gb.xmax <= db.xmax { gb.xmax } else { db.xmax },
        }
    } else {
        GateSpan {
            gate: g,
            lo: if gb.ymin >= db.ymin { gb.ymin } else { db.ymin },
            hi: if gb.ymax <= db.ymax { gb.ymax } else { db.ymax },
        }
    }
}

proof fn lemma_ins_span_at(s: Seq<GateSpan>, x: GateSpan, p: int)
    requires
        0 <= p <= s.len(),
        forall|j: int| p <= j < s.len() ==> !span_le(#[trigger] s[j], x),
        p > 0 ==> span_le(s[p - 1], x),
    ensures
        ins_span(s, x) == s.take(p) + seq![x] + s.skip(p),
    decreases s.len(),
{
    if s.len() == 0 {
        assert(s.take(p) + seq![x] + s.skip(p) =~= seq![x]);
    } else if p == s.len() {
        assert(s.take(p) + seq![x] + s.skip(p) =~= s.push(x));
    } else {
        let t = s.drop_last();
        assert forall|j: int| p <= j < t.len() implies !span_le(#[trigger] t[j], x) by {
            assert(t[j] == s[j]);
        }
        if p > 0 {
            assert(t[p - 1] == s[p - 1]);
        }
        lemma_ins_span_at(t, x, p);
        assert(ins_span(s, x) == ins_span(t, x).push(s.last()));
        assert(t.take(p) + seq![x] + t.skip(p) + seq![s.last()] =~= s.take(p) + seq![x] + s.skip(p));
    }
}

fn sort_spans_exec(v: &Vec<GateSpan>) -> (r: Vec<GateSpan>)
    ensures
        r@ == sort_spans(v@),
{
    let mut r: Vec<GateSpan> = Vec::new();
    let mut i: usize = 0;
    while i < v.len()
        invariant
            i <= v@.len(),
            r@ == sort_spans(v@.take(i as int)),
        decreases v@.len() - i,
    {
        let x = v[i];
        let mut p: usize = r.len();
        while p > 0 && !(r[p - 1].lo < x.lo || (r[p - 1].lo == x.lo && r[p - 1].hi <= x.hi))
            invariant
                p <= r@.len(),
                forall|j: int| p <= j < r@.len() ==> !span_le(#[trigger] r@[j], x),
            decreases p,
        {
            p = p - 1;
        }
        proof {
            lemma_ins_span_at(r@, x, p as int);
            assert(v@.take(i as int + 1).drop_last() =~= v@.take(i as int));
            assert(v@.take(i as int + 1).last() == x);
        }
        r.insert(p, x);
        assert(r@ =~= sort_spans(v@.take(i as int + 1)));
        i = i + 1;
    }
    assert(v@.take(i as int) =~= v@);
    r
}

fn segments_exec(spans: &Vec<GateSpan>, lo: i32, hi: i32) -> (r: Vec<(i32, i32)>)
    ensures
        r@ == segments(spans@, lo, hi),
{
    let mut segs: Vec<(i32, i32)> = Vec::new();
    let mut cursor = lo;
    let mut k: usize = 0;
    while k < spans.len()
        invariant
            k <= spans@.len(),
            (segs@, cursor) == sweep(spans@, lo, k as int),
        decreases spans@.len() - k,
    {
        let s = spans[k];
        if s.lo > cursor {
            segs.push((cursor, s.lo));
        }
        if s.hi > cursor {
            cursor = s.hi;
        }
        k = k + 1;
    }
    if hi > cursor {
        segs.push((cursor, hi));
    }
    segs
}

/// Splits channel polygon `d` where gate-layer polygons cross it (see
/// `split_spec`).
pub fn split_channel(store: &GeometryStore, gate_layers: &Vec<u32>, d: usize) -> (s: DiffSplit)
    requires
        store.wf(),
        d < store.poly_layer@.len(),
    ensures
        s.diff == d,
        (s.axis_x, s.gates@, s.seg_spans@) == split_spec(*store, gate_layers@, d as int),
{
    let gates = crossing_gates_exec(store, gate_layers, d);
    let ghost vert = with_axis(*store, d as int, true);
    let mut n_vert: usize = 0;
    let mut i: usize = 0;
    while i < gates.len()
        invariant
            store.wf(),
            d < store.poly_layer@.len(),
            forall|q: int| 0 <= q < gates@.len() ==> (#[trigger] gates@[q]) < store.poly_layer@.len(),
            vert == with_axis(*store, d as int, true),
            i <= gates@.len(),
            n_vert == gates@.take(i as int).filter(vert).len(),
            n_vert <= i,
        decreases gates@.len() - i,
    {
        proof {
            lemma_filter_step(gates@, vert, i as int);
        }
        if crosses_vertically_exec(store, gates[i], d) {
            n_vert = n_vert + 1;
        }
        i = i + 1;
    }
    assert(gates@.take(i as int) =~= gates@);
    let axis_x = n_vert as u128 * 2 >= gates.len() as u128;
    let ghost keep = with_axis(*store, d as int, axis_x);
    let ghost to_span = span_of(*store, d as int, axis_x);
    let mut spans: Vec<GateSpan> = Vec::new();
    let mut j: usize = 0;
    assert(gates@.take(0).filter(keep).map_values(to_span) =~= Seq::<GateSpan>::empty());
    while j < gates.len()
        invariant
            store.wf(),
            d < store.poly_layer@.len(),
            forall|q: int| 0 <= q < gates@.len() ==> (#[trigger] gates@[q]) < store.poly_layer@.len(),
            keep == with_axis(*store, d as int, axis_x),
            to_span == span_of(*store, d as int, axis_x),
            j <= gates@.len(),
            spans@ == gates@.take(j as int).filter(keep).map_values(to_span),
        decreases gates@.len() - j,
    {
        let g = gates[j];
        proof {
            lemma_filter_step(gates@, keep, j as int);
        }
        if crosses_vertically_exec(store, g, d) == axis_x {
            let s = span_of_exec(store, g, d, axis_x);
            let ghost before = spans@;
            spans.push(s);
            assert(spans@ =~= gates@.take(j as int + 1).filter(keep).map_values(to_span));
        }
        j = j + 1;
    }
    assert(gates@.take(j as int) =~= gates@);
    let sorted = sort_spans_exec(&spans);
    let db = store.poly_bbox[d];
    let segs = if axis_x {
        segments_exec(&sorted, db.xmin, db.xmax)
    } else {
        segments_exec(&sorted, db.ymin, db.ymax)
    };
    DiffSplit { diff: d, axis_x, seg_spans: segs, gates: sorted }
}

/// Spans in ascending order of `lo`.
pub open spec fn lo_ascending(spans: Seq<GateSpan>) -> bool {
    forall|i: int, j: int| 0 <= i < j < spans.len() ==> (#[trigger] spans[i]).lo <= (#[trigger] spans[j]).lo
}

/// Every span lies within `[lo, hi]`.
pub open spec fn spans_within(spans: Seq<GateSpan>, lo: i32, hi: i32) -> bool {
    forall|j: int| 0 <= j < spans.len() ==> lo <= (#[trigger] spans[j]).lo <= spans[j].hi <= hi
}

/// Point `x` lies in one of the segments.
pub open spec fn in_segment(segs: Seq<(i32, i32)>, x: int) -> bool {
    exists|i: int| 0 <= i < segs.len() && (#[trigger] segs[i]).0 <= x < segs[i].1
}

/// Point `x` lies under one of the first `k` spans.
pub open spec fn under_span(spans: Seq<GateSpan>, x: int, k: int) -> bool {
    exists|j: int| 0 <= j < k && (#[trigger] spans[j]).lo <= x < spans[j].hi
}

/// Segments and spans tile `[lo, hi]`: the segments are non-empty parts of
/// it in ascending order, none overlaps a span, and every point of it lies
/// in a segment or a span.
pub open spec fn tiles(segs: Seq<(i32, i32)>, spans: Seq<GateSpan>, lo: i32, hi: i32) -> bool {
    &&& forall|i: int| 0 <= i < segs.len() ==> lo <= (#[trigger] segs[i]).0 < segs[i].1 <= hi
    &&& forall|i: int, j: int| 0 <= i < j < segs.len() ==> (#[trigger] segs[i]).1 <= (#[trigger] segs[j]).0
    &&& forall|i: int, j: int| 0 <= i < segs.len() && 0 <= j < spans.len() ==>
        (#[trigger] segs[i]).1 <= (#[trigger] spans[j]).lo || spans[j].hi <= segs[i].0
    &&& forall|x: int| #![trigger in_segment(segs, x)] #![trigger under_span(spans, x, spans.len() as int)]
        lo <= x < hi ==> in_segment(segs, x) || under_span(spans, x, spans.len() as int)
}

proof fn lemma_sweep(spans: Seq<GateSpan>, lo: i32, hi: i32, k: int)
    requires
        lo <= hi,
        0 <= k <= spans.len(),
        lo_ascending(spans),
        spans_within(spans, lo, hi),
    ensures
        ({
            let (segs, c) = sweep(spans, lo, k);
            &&& lo <= c <= hi
            &&& forall|j: int| 0 <= j < k ==> (#[trigger] spans[j]).hi <= c
            &&& forall|i: int| 0 <= i < segs.len() ==> lo <= (#[trigger] segs[i]).0 < segs[i].1 <= c
            &&& forall|i: int, j: int| 0 <= i < j < segs.len() ==> (#[trigger] segs[i]).1 <= (#[trigger] segs[j]).0
            &&& forall|i: int, j: int| 0 <= i < segs.len() && 0 <= j < spans.len() ==>
                (#[trigger] segs[i]).1 <= (#[trigger] spans[j]).lo || spans[j].hi <= segs[i].0
            &&& forall|x: int| #![trigger in_segment(segs, x)] #![trigger under_span(spans, x, k)]
                lo <= x < c ==> in_segment(segs, x) || under_span(spans, x, k)
            &&& k > 0 ==> forall|i: int| 0 <= i < segs.len() ==> (#[trigger] segs[i]).1 <= spans[k - 1].lo
        }),
    decreases k,
{
    if k > 0 {
        lemma_sweep(spans, lo, hi, k - 1);
        let (segs0, c0) = sweep(spans, lo, k - 1);
        let s = spans[k - 1];
        let (segs, c) = sweep(spans, lo, k);
        assert(lo <= s.lo <= s.hi <= hi);
        if k > 1 {
            assert(spans[k - 2].lo <= s.lo);
        }
        if s.lo > c0 {
            assert(segs == segs0.push((c0, s.lo)));
            assert forall|i: int, j: int| 0 <= i < segs.len() && 0 <= j < spans.len() implies
                (#[trigger] segs[i]).1 <= (#[trigger] spans[j]).lo || spans[j].hi <= segs[i].0 by {
                if i == segs0.len() {
                    if j >= k - 1 {
                        assert(s.lo <= spans[j].lo);
                    } else {
                        assert(spans[j].hi <= c0);
                    }
                } else {
                    assert(segs[i] == segs0[i]);
                }
            }
            assert forall|x: int| lo <= x < c implies #[trigger] in_segment(segs, x) || under_span(spans, x, k) by {
                if x < c0 {
                    if in_segment(segs0, x) {
                        let i = choose|i: int| 0 <= i < segs0.len() && (#[trigger] segs0[i]).0 <= x < segs0[i].1;
                        assert(segs[i] == segs0[i]);
                    } else {
                        assert(under_span(spans, x, k - 1));
                        let j = choose|j: int| 0 <= j < k - 1 && (#[trigger] spans[j]).lo <= x < spans[j].hi;
                        assert(spans[j].lo <= x < spans[j].hi);
                    }
                } else if x < s.lo {
                    assert(segs[segs0.len() as int] == (c0, s.lo));
                } else {
                    assert(spans[k - 1].lo <= x < spans[k - 1].hi);
                }
            }
            assert forall|i: int| 0 <= i < segs.len() implies (#[trigger] segs[i]).1 <= spans[k - 1].lo by {
                if i < segs0.len() {
                    assert(segs[i] == segs0[i]);
                }
            }
        } else {
            assert(segs == segs0);
            assert forall|x: int| lo <= x < c implies #[trigger] in_segment(segs, x) || under_span(spans, x, k) by {
                if x < c0 {
                    if in_segment(segs0, x) {
                    } else {
                        assert(under_span(spans, x, k - 1));
                        let j = choose|j: int| 0 <= j < k - 1 && (#[trigger] spans[j]).lo <= x < spans[j].hi;
                        assert(spans[j].lo <= x < spans[j].hi);
                    }
                } else {
                    assert(spans[k - 1].lo <= x < spans[k - 1].hi);
                }
            }
            assert forall|i: int| 0 <= i < segs.len() implies (#[trigger] segs[i]).1 <= spans[k - 1].lo by {
                if k > 1 {
                    assert(segs0[i].1 <= spans[k - 2].lo);
                } else {
                    assert(segs0.len() == 0);
                }
            }
        }
    }
}

/// Segments and sorted, clipped spans tile the extent (see `tiles`).
pub proof fn lemma_segments_tile(spans: Seq<GateSpan>, lo: i32, hi: i32)
    requires
        lo <= hi,
        lo_ascending(spans),
        spans_within(spans, lo, hi),
    ensures
        tiles(segments(spans, lo, hi), spans, lo, hi),
{
    lemma_sweep(spans, lo, hi, spans.len() as int);
    let (segs0, c) = sweep(spans, lo, spans.len() as int);
    let segs = segments(spans, lo, hi);
    if hi > c {
        assert(segs == segs0.push((c, hi)));
        assert forall|i: int, j: int| 0 <= i < j < segs.len() implies (#[trigger] segs[i]).1 <= (#[trigger] segs[j]).0 by {
            if j == segs0.len() {
                assert(segs[i] == segs0[i]);
            } else {
                assert(segs[i] == segs0[i] && segs[j] == segs0[j]);
            }
        }
        assert forall|i: int, j: int| 0 <= i < segs.len() && 0 <= j < spans.len() implies
            (#[trigger] segs[i]).1 <= (#[trigger] spans[j]).lo || spans[j].hi <= segs[i].0 by {
            if i < segs0.len() {
                assert(segs[i] == segs0[i]);
            }
        }
        assert forall|i: int| 0 <= i < segs.len() implies lo <= (#[trigger] segs[i]).0 < segs[i].1 <= hi by {
            if i < segs0.len() {
                assert(segs[i] == segs0[i]);
            }
        }
        assert forall|x: int| lo <= x < hi implies #[trigger] in_segment(segs, x) || under_span(spans, x, spans.len() as int) by {
            if x < c {
                if in_segment(segs0, x) {
                    let i = choose|i: int| 0 <= i < segs0.len() && (#[trigger] segs0[i]).0 <= x < segs0[i].1;
                    assert(segs[i] == segs0[i]);
                }
            } else {
                assert(segs[segs0.len() as int] == (c, hi));
            }
        }
    }
}

proof fn lemma_ins_span_sorted(s: Seq<GateSpan>, x: GateSpan)
    requires
        forall|i: int, j: int| 0 <= i < j < s.len() ==> span_le(#[trigger] s[i], #[trigger] s[j]),
    ensures
        forall|i: int, j: int| 0 <= i < j < ins_span(s, x).len() ==> span_le(#[trigger] ins_span(s, x)[i], #[trigger] ins_span(s, x)[j]),
        ins_span(s, x).to_multiset() == s.to_multiset().insert(x),
    decreases s.len(),
{
    broadcast use vstd::seq_lib::group_to_multiset_ensures;
    if s.len() == 0 {
        assert(seq![x].to_multiset() =~= s.to_multiset().insert(x)) by {
            assert(seq![x] == s.push(x));
        }
    } else if span_le(s.last(), x) {
    } else {
        let t = s.drop_last();
        lemma_ins_span_sorted(t, x);
        let r = ins_span(t, x);
        assert(s == t.push(s.last()));
        assert forall|i: int| 0 <= i < r.len() implies span_le(#[trigger] r[i], s.last()) by {
            assert(r.to_multiset().count(r[i]) > 0);
            assert(t.to_multiset().insert(x).count(r[i]) > 0);
            if r[i] != x {
                assert(t.to_multiset().count(r[i]) > 0);
                assert(t.contains(r[i]));
                let k = choose|k: int| 0 <= k < t.len() && t[k] == r[i];
                assert(span_le(s[k], s[s.len() - 1]));
            }
        }
        assert(s.to_multiset().insert(x) =~= t.to_multiset().insert(x).insert(s.last()));
    }
}

/// Sorting keeps the spans and puts them in order.
pub proof fn lemma_sort_spans(s: Seq<GateSpan>)
    ensures
        forall|i: int, j: int| 0 <= i < j < sort_spans(s).len() ==> span_le(#[trigger] sort_spans(s)[i], #[trigger] sort_spans(s)[j]),
        sort_spans(s).to_multiset() == s.to_multiset(),
    decreases s.len(),
{
    broadcast use vstd::seq_lib::group_to_multiset_ensures;
    if s.len() > 0 {
        lemma_sort_spans(s.drop_last());
        lemma_ins_span_sorted(sort_spans(s.drop_last()), s.last());
        assert(s == s.drop_last().push(s.last()));
    }
}

/// The segments of a split channel and its gates' spans tile the channel's
/// extent along its axis: every point lies in a segment or under a gate, and
/// no segment reaches under a gate.
pub proof fn lemma_split_tiles(store: GeometryStore, gate_layers: Seq<u32>, d: int)
    requires
        store.wf(),
        0 <= d < store.poly_layer@.len(),
        forall|p: int| 0 <= p < store.poly_bbox@.len() ==> (#[trigger] store.poly_bbox@[p]).wf(),
        store.poly_layer@.len() <= usize::MAX,
    ensures
        ({
            let (axis_x, spans, segs) = split_spec(store, gate_layers, d);
            let db = store.poly_bbox@[d];
            if axis_x { tiles(segs, spans, db.xmin, db.xmax) } else { tiles(segs, spans, db.ymin, db.ymax) }
        }),
        ({
            let (axis_x, spans, segs) = split_spec(store, gate_layers, d);
            let db = store.poly_bbox@[d];
            &&& forall|j: int| 0 <= j < spans.len() ==> (#[trigger] spans[j]).gate < store.poly_layer@.len()
                && store.poly_bbox@[spans[j].gate as int].overlaps_spec(db)
            &&& forall|j: int| 0 <= j < spans.len() ==> if axis_x {
                db.xmin <= (#[trigger] spans[j]).lo <= spans[j].hi <= db.xmax
            } else {
                db.ymin <= spans[j].lo <= spans[j].hi <= db.ymax
            }
        }),
{
    broadcast use vstd::seq_lib::group_to_multiset_ensures;
    let gates = crossing_gates(store, gate_layers, d, gate_layers.len() as int);
    let axis_x = along_x(store, gates, d);
    let raw = gates.filter(with_axis(store, d, axis_x)).map_values(span_of(store, d, axis_x));
    let spans = sort_spans(raw);
    let db = store.poly_bbox@[d];
    let (lo, hi) = if axis_x { (db.xmin, db.xmax) } else { (db.ymin, db.ymax) };
    lemma_crossing_gates_overlap(store, gate_layers, d, gate_layers.len() as int);
    gates.filter_lemma(with_axis(store, d, axis_x));
    assert forall|j: int| 0 <= j < raw.len() implies lo <= (#[trigger] raw[j]).lo <= raw[j].hi <= hi
        && raw[j].gate < store.poly_layer@.len() && store.poly_bbox@[raw[j].gate as int].overlaps_spec(db) by {
        let g = gates.filter(with_axis(store, d, axis_x))[j];
        lemma_filter_member(gates, with_axis(store, d, axis_x), j);
        let q = choose|q: int| 0 <= q < gates.len() && gates[q] == g;
        assert(pair_overlap(store, gates[q] as int, d) && gates[q] < store.poly_layer@.len());
        assert(store.poly_bbox@[g as int].wf());
    }
    lemma_sort_spans(raw);
    assert forall|j: int| 0 <= j < spans.len() implies lo <= (#[trigger] spans[j]).lo <= spans[j].hi <= hi
        && spans[j].gate < store.poly_layer@.len() && store.poly_bbox@[spans[j].gate as int].overlaps_spec(db) by {
        assert(spans.to_multiset().count(spans[j]) > 0);
        assert(raw.to_multiset().count(spans[j]) > 0);
        assert(raw.contains(spans[j]));
    }
    lemma_segments_tile(spans, lo, hi);
}

proof fn lemma_filter_member(s: Seq<usize>, p: spec_fn(usize) -> bool, j: int)
    requires
        0 <= j < s.filter(p).len(),
    ensures
        s.contains(s.filter(p)[j]),
    decreases s.len(),
{
    reveal(Seq::filter);
    if s.len() > 0 {
        let t = s.drop_last();
        if p(s.last()) && j == t.filter(p).len() {
            assert(s.filter(p)[j] == s.last());
            assert(s[s.len() - 1] == s.last());
        } else {
            lemma_filter_member(t, p, j);
            let k = choose|k: int| 0 <= k < t.len() && t[k] == t.filter(p)[j];
            assert(s[k] == t[k]);
        }
    }
}

proof fn lemma_crossing_gates_overlap(store: GeometryStore, gate_layers: Seq<u32>, d: int, k: int)
    requires
        0 <= k <= gate_layers.len(),
        store.poly_layer@.len() <= usize::MAX,
    ensures
        forall|i: int| 0 <= i < crossing_gates(store, gate_layers, d, k).len()
            ==> pair_overlap(store, #[trigger] crossing_gates(store, gate_layers, d, k)[i] as int, d)
            && crossing_gates(store, gate_layers, d, k)[i] < store.poly_layer@.len(),
    decreases k,
{
    if k > 0 {
        lemma_crossing_gates_overlap(store, gate_layers, d, k - 1);
        let prev = crossing_gates(store, gate_layers, d, k - 1);
        let polys = layer_polys(store, gate_layers[k - 1]);
        let more = polys.filter(overlapping(store, d));
        polys.filter_lemma(overlapping(store, d));
        GeometryStore::lemma_on_layer(store.poly_layer@, gate_layers[k - 1]);
        let all = crossing_gates(store, gate_layers, d, k);
        assert(all == prev + more);
        assert forall|i: int| 0 <= i < all.len() implies pair_overlap(store, #[trigger] all[i] as int, d)
            && all[i] < store.poly_layer@.len() by {
            if i < prev.len() {
                assert(all[i] == prev[i]);
            } else {
                let m = i - prev.len();
                assert(all[i] == more[m]);
                assert(overlapping(store, d)(more[m]));
                lemma_filter_member(polys, overlapping(store, d), m);
                let q = choose|q: int| 0 <= q < polys.len() && polys[q] == more[m];
                assert(polys[q] < store.poly_layer@.len());
            }
        }
    }
}

} // verus!
