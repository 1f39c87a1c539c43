//! Exact vertical slices of rectilinear polygons: the y-intervals a polygon
//! covers on a scan line, without floating point.
use vstd::prelude::*;
use crate::geometry::{Bbox, Point};
use crate::lvs::intervals::{
    closed_interval_sets_intersect, covers_closed, intersect_interval_sets, isect, lemma_meets_common_point, meets, lemma_isect_sorted, lemma_total_len_bound, merge_closed_intervals, separated,
    sorted_open, total_len, within,
};

verus! {

/// Successor of vertex `i` around a ring of `n` vertices.
pub open spec fn next(i: int, n: int) -> int {
    if i + 1 < n { i + 1 } else { 0 }
}

/// Edge `i` runs parallel to an axis.
pub open spec fn axis_edge(ring: Seq<Point>, i: int) -> bool {
    ring[i].x == ring[next(i, ring.len() as int)].x || ring[i].y == ring[next(i, ring.len() as int)].y
}

/// Every edge of the ring runs parallel to an axis.
pub fn is_rectilinear(ring: &Vec<Point>) -> (b: bool)
    ensures
        b == forall|i: int| 0 <= i < ring@.len() ==> #[trigger] axis_edge(ring@, i),
{
    let n = ring.len();
    let mut i: usize = 0;
    while i < n
        invariant
            n == ring@.len(),
            i <= n,
            forall|k: int| 0 <= k < i ==> #[trigger] axis_edge(ring@, k),
        decreases n - i,
    {
        let j = if i + 1 < n { i + 1 } else { 0 };
        let p = ring[i];
        let q = ring[j];
        if !(p.x == q.x || p.y == q.y) {
            assert(!axis_edge(ring@, i as int));
            return false;
        }
        i = i + 1;
    }
    true
}

/// The y of horizontal edge `i` when it strictly spans the scan coordinate
/// `x2` (twice an x).
pub open spec fn crossing(ring: Seq<Point>, i: int, x2: int) -> Option<i32> {
    let p = ring[i];
    let q = ring[next(i, ring.len() as int)];
    let lo2 = 2 * (if p.x <= q.x { p.x } else { q.x });
    let hi2 = 2 * (if p.x <= q.x { q.x } else { p.x });
    if p.y == q.y && lo2 < x2 < hi2 { Some(p.y) } else { None }
}

/// The crossings of edges `0..k`, in edge order.
pub open spec fn crossings(ring: Seq<Point>, x2: int, k: int) -> Seq<i32>
    decreases k,
{
    if k <= 0 {
        Seq::empty()
    } else {
        match crossing(ring, k - 1, x2) {
            Some(y) => crossings(ring, x2, k - 1).push(y),
            None => crossings(ring, x2, k - 1),
        }
    }
}

/// Inserts `y` before the first larger element.
pub open spec fn ins_i32(s: Seq<i32>, y: i32) -> Seq<i32>
    decreases s.len(),
{
    if s.len() == 0 {
        seq![y]
    } else if y <= s[0] {
        seq![y] + s
    } else {
        seq![s[0]] + ins_i32(s.drop_first(), y)
    }
}

/// Ascending insertion sort.
pub open spec fn sort_i32(s: Seq<i32>) -> Seq<i32>
    decreases s.len(),
{
    if s.len() == 0 {
        s
    } else {
        ins_i32(sort_i32(s.drop_last()), s.last())
    }
}

/// Consecutive crossings `(c[2k], c[2k + 1])` from pair `k` on, clipped to
/// `[ymin, ymax]`, keeping the non-empty ones.
pub open spec fn paired(c: Seq<i32>, clip: Bbox, k: int) -> Seq<(i32, i32)>
    decreases c.len() - 2 * k,
{
    if k < 0 || 2 * k + 1 >= c.len() {
        Seq::empty()
    } else {
        let lo = if c[2 * k] >= clip.ymin { c[2 * k] } else { clip.ymin };
        let hi = if c[2 * k + 1] <= clip.ymax { c[2 * k + 1] } else { clip.ymax };
        (if lo < hi { seq![(lo, hi)] } else { Seq::empty() }) + paired(c, clip, k + 1)
    }
}

/// The interior y-intervals of a rectilinear ring, clipped to `clip`, on the
/// vertical scan line at `x2 / 2`: sorted crossings of the horizontal edges
/// that strictly span the line, paired by the even-odd rule.
pub open spec fn interior_at(ring: Seq<Point>, clip: Bbox, x2: int) -> Seq<(i32, i32)> {
    if x2 <= 2 * clip.xmin || x2 >= 2 * clip.xmax {
        Seq::empty()
    } else {
        paired(sort_i32(crossings(ring, x2, ring.len() as int)), clip, 0)
    }
}

fn insert_sorted(s: &mut Vec<i32>, y: i32)
    ensures
        final(s)@ == ins_i32(old(s)@, y),
{
    let mut p: usize = 0;
    while p < s.len() && s[p] < y
        invariant
            p <= s@.len(),
            forall|k: int| 0 <= k < p ==> s@[k] < y,
        decreases s@.len() - p,
    {
        p = p + 1;
    }
    proof {
        lemma_ins_i32_at(s@, y, p as int);
    }
    s.insert(p, y);
}

proof fn lemma_ins_i32_at(s: Seq<i32>, y: i32, p: int)
    requires
        0 <= p <= s.len(),
        forall|k: int| 0 <= k < p ==> s[k] < y,
        p < s.len() ==> y <= s[p],
    ensures
        ins_i32(s, y) == s.insert(p, y),
    decreases s.len(),
{
    if s.len() == 0 || p == 0 {
        assert(ins_i32(s, y) =~= s.insert(p, y));
    } else {
        let t = s.drop_first();
        assert forall|k: int| 0 <= k < p - 1 implies t[k] < y by {
            assert(t[k] == s[k + 1]);
        }
        lemma_ins_i32_at(t, y, p - 1);
        assert(ins_i32(s, y) =~= s.insert(p, y));
    }
}

/// The interior y-intervals of `ring` clipped to `clip` on the scan line at
/// `x2 / 2`. Callers pass odd `x2`, so the line never meets a vertex.
pub fn interior_intervals_at_x2(ring: &Vec<Point>, clip: Bbox, x2: i64) -> (out: Vec<(i32, i32)>)
    ensures
        out@ == interior_at(ring@, clip, x2 as int),
{
    if x2 <= 2 * clip.xmin as i64 || x2 >= 2 * clip.xmax as i64 {
        return Vec::new();
    }
    let n = ring.len();
    let mut found: Vec<i32> = Vec::new();
    let mut sorted: Vec<i32> = Vec::new();
    let mut i: usize = 0;
    while i < n
        invariant
            n == ring@.len(),
            i <= n,
            found@ == crossings(ring@, x2 as int, i as int),
            sorted@ == sort_i32(found@),
        decreases n - i,
    {
        let j = if i + 1 < n { i + 1 } else { 0 };
        let p = ring[i];
        let q = ring[j];
        let lo2: i64 = 2 * (if p.x <= q.x { p.x } else { q.x }) as i64;
        let hi2: i64 = 2 * (if p.x <= q.x { q.x } else { p.x }) as i64;
        if p.y == q.y && lo2 < x2 && x2 < hi2 {
            let ghost f0 = found@;
            found.push(p.y);
            insert_sorted(&mut sorted, p.y);
            assert(found@.drop_last() =~= f0);
        }
        i = i + 1;
    }
    let mut out: Vec<(i32, i32)> = Vec::new();
    let m = sorted.len();
    let mut k: usize = 0;
    proof {
        assert(out@ + paired(sorted@, clip, 0) =~= paired(sorted@, clip, 0));
    }
    let half = m / 2;
    while k < half
        invariant
            m == sorted@.len(),
            half == m / 2,
            k <= half,
            out@ + paired(sorted@, clip, k as int) == paired(sorted@, clip, 0),
        decreases half - k,
    {
        let a = sorted[2 * k];
        let b = sorted[2 * k + 1];
        let lo = if a >= clip.ymin { a } else { clip.ymin };
        let hi = if b <= clip.ymax { b } else { clip.ymax };
        let ghost o0 = out@;
        if lo < hi {
            out.push((lo, hi));
        }
        assert(out@ + paired(sorted@, clip, k as int + 1) =~= o0 + paired(sorted@, clip, k as int));
        k = k + 1;
    }
    proof {
        assert(paired(sorted@, clip, k as int) == Seq::<(i32, i32)>::empty());
        assert(out@ + Seq::<(i32, i32)>::empty() =~= out@);
    }
    out
}

/// The part of vertical edge `i` that lies on the line `x`, clipped to
/// `[ymin, ymax]`, when non-empty.
pub open spec fn vertical_piece(ring: Seq<Point>, clip: Bbox, x: int, i: int) -> Option<(i32, i32)> {
    let p = ring[i];
    let q = ring[next(i, ring.len() as int)];
    let lo0 = if p.y <= q.y { p.y } else { q.y };
    let hi0 = if p.y <= q.y { q.y } else { p.y };
    let lo = if lo0 >= clip.ymin { lo0 } else { clip.ymin };
    let hi = if hi0 <= clip.ymax { hi0 } else { clip.ymax };
    if p.x == q.x && p.x == x && lo <= hi { Some((lo, hi)) } else { None }
}

pub open spec fn vertical_pieces(ring: Seq<Point>, clip: Bbox, x: int, k: int) -> Seq<(i32, i32)>
    decreases k,
{
    if k <= 0 {
        Seq::empty()
    } else {
        match vertical_piece(ring, clip, x, k - 1) {
            Some(v) => vertical_pieces(ring, clip, x, k - 1).push(v),
            None => vertical_pieces(ring, clip, x, k - 1),
        }
    }
}

/// The closed slice of a clipped ring at integer `x`: the interiors just
/// left and right of the line and the vertical boundary on it.
pub open spec fn closed_slice(ring: Seq<Point>, clip: Bbox, x: int) -> Seq<(i32, i32)> {
    if x < clip.xmin || x > clip.xmax {
        Seq::empty()
    } else {
        interior_at(ring, clip, 2 * x - 1) + interior_at(ring, clip, 2 * x + 1)
            + vertical_pieces(ring, clip, x, ring.len() as int)
    }
}

/// The closed vertical slice of a clipped rectilinear ring at integer `x`,
/// as separated closed intervals covering exactly the slice's points; it
/// tells boundary contact apart from mere box contact.
pub fn closed_intervals_at_x(ring: &Vec<Point>, clip: Bbox, x: i32) -> (out: Vec<(i32, i32)>)
    ensures
        separated(out@),
        forall|y2: int| covers_closed(out@, y2) <==> covers_closed(closed_slice(ring@, clip, x as int), y2),
{
    if x < clip.xmin || x > clip.xmax {
        let out: Vec<(i32, i32)> = Vec::new();
        assert forall|y2: int| covers_closed(out@, y2) <==> covers_closed(closed_slice(ring@, clip, x as int), y2) by {
            assert(closed_slice(ring@, clip, x as int).len() == 0);
        }
        return out;
    }
    let mut intervals = interior_intervals_at_x2(ring, clip, 2 * x as i64 - 1);
    let mut right = interior_intervals_at_x2(ring, clip, 2 * x as i64 + 1);
    intervals.append(&mut right);
    let ghost base = intervals@;
    let n = ring.len();
    let mut i: usize = 0;
    while i < n
        invariant
            n == ring@.len(),
            i <= n,
            intervals@ == base + vertical_pieces(ring@, clip, x as int, i as int),
        decreases n - i,
    {
        let j = if i + 1 < n { i + 1 } else { 0 };
        let p = ring[i];
        let q = ring[j];
        if p.x == q.x && p.x == x {
            let lo0 = if p.y <= q.y { p.y } else { q.y };
            let hi0 = if p.y <= q.y { q.y } else { p.y };
            let lo = if lo0 >= clip.ymin { lo0 } else { clip.ymin };
            let hi = if hi0 <= clip.ymax { hi0 } else { clip.ymax };
            if lo <= hi {
                intervals.push((lo, hi));
            }
        }
        assert(intervals@ =~= base + vertical_pieces(ring@, clip, x as int, i as int + 1));
        i = i + 1;
    }
    assert(intervals@ =~= closed_slice(ring@, clip, x as int));
    merge_closed_intervals(intervals)
}

pub open spec fn ascending(s: Seq<i32>) -> bool {
    forall|i: int, j: int| 0 <= i < j < s.len() ==> (#[trigger] s[i]) <= (#[trigger] s[j])
}

proof fn lemma_ins_i32(s: Seq<i32>, y: i32)
    ensures
        ins_i32(s, y).len() == s.len() + 1,
        forall|v: i32| #[trigger] ins_i32(s, y).contains(v) <==> s.contains(v) || v == y,
        ascending(s) ==> ascending(ins_i32(s, y)),
    decreases s.len(),
{
    let r = ins_i32(s, y);
    if s.len() == 0 {
        assert(r =~= seq![y]);
        assert forall|v: i32| r.contains(v) <==> s.contains(v) || v == y by {
            if r.contains(v) {
                assert(r[r.index_of(v)] == y);
            }
            if v == y {
                assert(r[0] == y);
            }
        }
    } else if y <= s[0] {
        assert(r =~= seq![y] + s);
        assert forall|v: i32| r.contains(v) <==> s.contains(v) || v == y by {
            if r.contains(v) {
                let k = r.index_of(v);
                if k > 0 {
                    assert(s[k - 1] == v);
                }
            }
            if s.contains(v) {
                assert(r[s.index_of(v) + 1] == v);
            }
            if v == y {
                assert(r[0] == y);
            }
        }
        if ascending(s) {
            assert forall|i: int, j: int| 0 <= i < j < r.len() implies (#[trigger] r[i]) <= (#[trigger] r[j]) by {
                assert(r[j] == s[j - 1]);
                if i > 0 {
                    assert(r[i] == s[i - 1]);
                } else if j - 1 > 0 {
                    assert(s[0] <= s[j - 1]);
                }
            }
        }
    } else {
        let t = s.drop_first();
        lemma_ins_i32(t, y);
        assert(r =~= seq![s[0]] + ins_i32(t, y));
        assert forall|v: i32| r.contains(v) <==> s.contains(v) || v == y by {
            if r.contains(v) {
                let k = r.index_of(v);
                if k > 0 {
                    assert(ins_i32(t, y)[k - 1] == v);
                    assert(ins_i32(t, y).contains(v));
                    if t.contains(v) {
                        assert(s[t.index_of(v) + 1] == v);
                    }
                } else {
                    assert(s[0] == v);
                }
            }
            if s.contains(v) {
                let k = s.index_of(v);
                if k == 0 {
                    assert(r[0] == v);
                } else {
                    assert(t[k - 1] == v);
                    assert(t.contains(v));
                    assert(ins_i32(t, y).contains(v));
                    assert(r[ins_i32(t, y).index_of(v) + 1] == v);
                }
            }
            if v == y {
                assert(ins_i32(t, y).contains(y));
                assert(r[ins_i32(t, y).index_of(y) + 1] == y);
            }
        }
        if ascending(s) {
            assert(ascending(t)) by {
                assert forall|i: int, j: int| 0 <= i < j < t.len() implies (#[trigger] t[i]) <= (#[trigger] t[j]) by {
                    assert(t[i] == s[i + 1] && t[j] == s[j + 1]);
                }
            }
            assert forall|i: int, j: int| 0 <= i < j < r.len() implies (#[trigger] r[i]) <= (#[trigger] r[j]) by {
                let e = ins_i32(t, y)[j - 1];
                assert(r[j] == e);
                if i == 0 {
                    assert(ins_i32(t, y).contains(e));
                    if t.contains(e) {
                        assert(s[t.index_of(e) + 1] == e);
                        assert(s[0] <= s[t.index_of(e) + 1]);
                    }
                } else {
                    assert(r[i] == ins_i32(t, y)[i - 1]);
                }
            }
        }
    }
}

proof fn lemma_sort_i32(s: Seq<i32>)
    ensures
        ascending(sort_i32(s)),
        sort_i32(s).len() == s.len(),
        forall|v: i32| #[trigger] sort_i32(s).contains(v) <==> s.contains(v),
    decreases s.len(),
{
    if s.len() > 0 {
        let init = s.drop_last();
        lemma_sort_i32(init);
        lemma_ins_i32(sort_i32(init), s.last());
        assert forall|v: i32| #[trigger] sort_i32(s).contains(v) <==> s.contains(v) by {
            if init.contains(v) {
                assert(s[init.index_of(v)] == v);
            }
            if s.contains(v) {
                let k = s.index_of(v);
                if k < s.len() - 1 {
                    assert(init[k] == v);
                }
            }
        }
    }
}

/// Pairs from `k` on are sorted and disjoint, lie within `[ymin, ymax]`, and
/// start no lower than crossing `2k`.
proof fn lemma_paired(c: Seq<i32>, clip: Bbox, k: int)
    requires
        ascending(c),
        0 <= k,
    ensures
        sorted_open(paired(c, clip, k)),
        forall|e: (i32, i32)| #[trigger] paired(c, clip, k).contains(e)
            ==> clip.ymin <= e.0 && e.1 <= clip.ymax && (2 * k < c.len() ==> c[2 * k] <= e.0),
    decreases c.len() - 2 * k,
{
    if 2 * k + 1 < c.len() {
        lemma_paired(c, clip, k + 1);
        let lo = if c[2 * k] >= clip.ymin { c[2 * k] } else { clip.ymin };
        let hi = if c[2 * k + 1] <= clip.ymax { c[2 * k + 1] } else { clip.ymax };
        let head: Seq<(i32, i32)> = if lo < hi { seq![(lo, hi)] } else { Seq::empty() };
        let tail = paired(c, clip, k + 1);
        let r = paired(c, clip, k);
        assert(r == head + tail);
        assert forall|e: (i32, i32)| #[trigger] tail.contains(e) implies hi <= e.0 by {
            if 2 * k + 2 < c.len() {
                assert(c[2 * k + 1] <= c[2 * k + 2]);
            }
        }
        assert forall|e: (i32, i32)| #[trigger] r.contains(e)
            implies clip.ymin <= e.0 && e.1 <= clip.ymax && c[2 * k] <= e.0 by {
            let q = r.index_of(e);
            if q < head.len() {
                assert(head[q] == e);
            } else {
                assert(tail[q - head.len()] == e);
                assert(tail.contains(e));
                if 2 * k + 2 < c.len() {
                    assert(c[2 * k] <= c[2 * k + 2]);
                }
            }
        }
        assert(sorted_open(r)) by {
            assert forall|q: int| 0 <= q < r.len() implies (#[trigger] r[q]).0 <= r[q].1 by {
                if q >= head.len() {
                    assert(r[q] == tail[q - head.len()]);
                }
            }
            assert forall|i: int, j: int| 0 <= i < j < r.len() implies (#[trigger] r[i]).1 <= (#[trigger] r[j]).0 by {
                if i >= head.len() {
                    assert(r[i] == tail[i - head.len()] && r[j] == tail[j - head.len()]);
                } else {
                    assert(r[j] == tail[j - head.len()]);
                    assert(tail.contains(r[j]));
                }
            }
        }
    }
}

/// A polygon, by its ring, clipped to a box.
pub struct PolyRegion {
    pub ring: Vec<Point>,
    pub clip: Bbox,
}

/// What a region holds: its ring's vertices and its clip box.
pub struct RegionV {
    pub ring: Seq<Point>,
    pub clip: Bbox,
}

impl PolyRegion {
    pub open spec fn view(&self) -> RegionV {
        RegionV { ring: self.ring@, clip: self.clip }
    }
}

pub open spec fn regions_view(v: Seq<PolyRegion>) -> Seq<RegionV> {
    v.map_values(|r: PolyRegion| r.view())
}

pub open spec fn ring_xs(ring: Seq<Point>) -> Seq<i32> {
    ring.map_values(|p: Point| p.x)
}

/// Candidate breakpoints of regions `0..k`: each clip's sides, then its
/// ring's x coordinates.
pub open spec fn raw_xs(regions: Seq<RegionV>, k: int) -> Seq<i32>
    decreases k,
{
    if k <= 0 {
        Seq::empty()
    } else {
        raw_xs(regions, k - 1) + seq![regions[k - 1].clip.xmin, regions[k - 1].clip.xmax] + ring_xs(regions[k - 1].ring)
    }
}

/// `s` with each run of equal neighbours reduced to one element.
pub open spec fn dedup(s: Seq<i32>) -> Seq<i32>
    decreases s.len(),
{
    if s.len() == 0 {
        s
    } else {
        let d = dedup(s.drop_last());
        if d.len() > 0 && d.last() == s.last() { d } else { d.push(s.last()) }
    }
}

/// The intervals every region `0..r` covers on the scan line `x2 / 2`.
pub open spec fn common(regions: Seq<RegionV>, x2: int, r: int) -> Seq<(i32, i32)>
    decreases r,
{
    if r <= 1 {
        interior_at(regions[0].ring, regions[0].clip, x2)
    } else {
        isect(common(regions, x2, r - 1), interior_at(regions[r - 1].ring, regions[r - 1].clip, x2))
    }
}

/// The area all regions share over the slab between breakpoints `i` and
/// `i + 1`.
pub open spec fn slab_area(regions: Seq<RegionV>, xs: Seq<i32>, i: int) -> int {
    let x0 = xs[i];
    let x1 = xs[i + 1];
    if x0 >= x1 { 0 } else { (x1 - x0) * total_len(common(regions, x0 + x1, regions.len() as int)) }
}

pub open spec fn area_sum(regions: Seq<RegionV>, xs: Seq<i32>, k: int) -> int
    decreases k,
{
    if k <= 0 { 0 } else { area_sum(regions, xs, k - 1) + slab_area(regions, xs, k - 1) }
}

pub open spec fn all_rectilinear(regions: Seq<RegionV>) -> bool {
    forall|r: int, i: int| 0 <= r < regions.len() && 0 <= i < regions[r].ring.len() ==> #[trigger] axis_edge(regions[r].ring, i)
}

pub open spec fn breakpoints(regions: Seq<RegionV>) -> Seq<i32> {
    dedup(sort_i32(raw_xs(regions, regions.len() as int)))
}

/// The exact area shared by rectilinear regions: over each slab between
/// consecutive distinct breakpoints, the slab width times the length the
/// regions' interiors share on the slab's middle line. Zero when there is no
/// region or one is not rectilinear.
pub open spec fn shared_area(regions: Seq<RegionV>) -> int {
    if regions.len() == 0 || !all_rectilinear(regions) {
        0
    } else {
        area_sum(regions, breakpoints(regions), breakpoints(regions).len() - 1)
    }
}

proof fn lemma_dedup_ascending(s: Seq<i32>)
    requires
        ascending(s),
    ensures
        ascending(dedup(s)),
        forall|k: int| 0 <= k < dedup(s).len() - 1 ==> #[trigger] dedup(s)[k] < dedup(s)[k + 1],
        dedup(s).len() > 0 ==> dedup(s).last() == s.last(),
        dedup(s).len() <= s.len(),
        forall|k: int| 0 <= k < dedup(s).len() ==> s.contains(#[trigger] dedup(s)[k]),
    decreases s.len(),
{
    if s.len() > 0 {
        let init = s.drop_last();
        assert(ascending(init)) by {
            assert forall|i: int, j: int| 0 <= i < j < init.len() implies (#[trigger] init[i]) <= (#[trigger] init[j]) by {
                assert(init[i] == s[i] && init[j] == s[j]);
            }
        }
        lemma_dedup_ascending(init);
        let d = dedup(init);
        assert forall|k: int| 0 <= k < d.len() implies s.contains(#[trigger] d[k]) by {
            assert(init.contains(d[k]));
            assert(s[init.index_of(d[k])] == d[k]);
        }
        if d.len() > 0 {
            assert(init.contains(d.last()) || d.last() == init.last());
            assert(d.last() == init.last());
            assert(init.last() <= s.last());
        }
        if !(d.len() > 0 && d.last() == s.last()) {
            let r = d.push(s.last());
            assert forall|i: int, j: int| 0 <= i < j < r.len() implies (#[trigger] r[i]) <= (#[trigger] r[j]) by {
                if j == r.len() - 1 {
                    assert(s.contains(d[i]));
                    let q = s.index_of(d[i]);
                    assert(s[q] <= s.last()) by {
                        if q < s.len() - 1 {
                            assert(s[q] <= s[s.len() - 1]);
                        }
                    }
                }
            }
            assert forall|k: int| 0 <= k < r.len() implies s.contains(#[trigger] r[k]) by {
                if k == r.len() - 1 {
                    assert(s[s.len() - 1] == r[k]);
                }
            }
        }
    }
}

proof fn lemma_interior(ring: Seq<Point>, clip: Bbox, x2: int)
    ensures
        sorted_open(interior_at(ring, clip, x2)),
        within(interior_at(ring, clip, x2), clip.ymin as int, clip.ymax as int),
{
    if !(x2 <= 2 * clip.xmin || x2 >= 2 * clip.xmax) {
        let c = sort_i32(crossings(ring, x2, ring.len() as int));
        lemma_sort_i32(crossings(ring, x2, ring.len() as int));
        lemma_paired(c, clip, 0);
        let r = paired(c, clip, 0);
        assert forall|k: int| 0 <= k < r.len() implies clip.ymin <= (#[trigger] r[k]).0 && r[k].1 <= clip.ymax by {
            assert(r.contains(r[k]));
        }
    }
}

proof fn lemma_common(regions: Seq<RegionV>, x2: int, r: int)
    requires
        1 <= r <= regions.len(),
    ensures
        sorted_open(common(regions, x2, r)),
        within(common(regions, x2, r), regions[0].clip.ymin as int, regions[0].clip.ymax as int),
    decreases r,
{
    if r <= 1 {
        lemma_interior(regions[0].ring, regions[0].clip, x2);
    } else {
        lemma_common(regions, x2, r - 1);
        lemma_interior(regions[r - 1].ring, regions[r - 1].clip, x2);
        lemma_isect_sorted(common(regions, x2, r - 1), interior_at(regions[r - 1].ring, regions[r - 1].clip, x2),
            regions[0].clip.ymin as int, regions[0].clip.ymax as int);
    }
}

proof fn lemma_common_empty(regions: Seq<RegionV>, x2: int, r: int, r2: int)
    requires
        1 <= r <= r2,
        common(regions, x2, r).len() == 0,
    ensures
        common(regions, x2, r2).len() == 0,
    decreases r2 - r,
{
    if r < r2 {
        lemma_common_empty(regions, x2, r, r2 - 1);
    }
}

/// The covered length lies in `[0, 2^32)`.
proof fn lemma_covered_bound(regions: Seq<RegionV>, x2: int)
    requires
        regions.len() >= 1,
    ensures
        0 <= total_len(common(regions, x2, regions.len() as int)) < 0x1_0000_0000,
{
    let c = common(regions, x2, regions.len() as int);
    lemma_common(regions, x2, regions.len() as int);
    let lo = regions[0].clip.ymin as int;
    let hi = regions[0].clip.ymax as int;
    if lo <= hi {
        lemma_total_len_bound(c, lo, hi);
    } else {
        if c.len() > 0 {
            assert(lo <= c[0].0 && c[0].0 <= c[0].1 && c[0].1 <= hi);
        }
        assert(total_len(c) == 0);
    }
}

fn covered_length(s: &Vec<(i32, i32)>) -> (c: i128)
    ensures
        c == total_len(s@),
{
    let mut c: i128 = 0;
    let mut k: usize = 0;
    assert(s@.skip(0) =~= s@);
    while k < s.len()
        invariant
            k <= s@.len(),
            c + total_len(s@.skip(k as int)) == total_len(s@),
            -(k as int) * 0x1_0000_0000 <= c <= (k as int) * 0x1_0000_0000,
        decreases s@.len() - k,
    {
        let e = s[k];
        assert(s@.skip(k as int)[0] == e);
        assert(s@.skip(k as int).drop_first() =~= s@.skip(k as int + 1));
        c = c + (e.1 as i128 - e.0 as i128);
        k = k + 1;
    }
    assert(s@.skip(k as int).len() == 0);
    c
}

/// The exact area shared by the regions (see `shared_area`), computed in
/// `i128` so the full `i32` coordinate range cannot overflow.
fn all_rings_rectilinear(regions: &Vec<PolyRegion>) -> (b: bool)
    ensures
        b == all_rectilinear(regions_view(regions@)),
{
    let ghost rv = regions_view(regions@);
    let n = regions.len();
    let mut r: usize = 0;
    while r < n
        invariant
            n == regions@.len(),
            r <= n,
            rv == regions_view(regions@),
            forall|rr: int, i: int| 0 <= rr < r && 0 <= i < rv[rr].ring.len() ==> #[trigger] axis_edge(rv[rr].ring, i),
        decreases n - r,
    {
        assert(rv[r as int].ring == regions@[r as int].ring@);
        if !is_rectilinear(&regions[r].ring) {
            proof {
                let i = choose|i: int| !(0 <= i < regions@[r as int].ring@.len() ==> #[trigger] axis_edge(regions@[r as int].ring@, i));
                assert(!axis_edge(rv[r as int].ring, i));
            }
            return false;
        }
        r = r + 1;
    }
    true
}

/// The breakpoints of the regions, ascending without repeats.
fn collect_breakpoints(regions: &Vec<PolyRegion>) -> (xs: Vec<i32>)
    ensures
        xs@ == breakpoints(regions_view(regions@)),
        ascending(xs@),
{
    let ghost rv = regions_view(regions@);
    let n = regions.len();
    let mut raw: Vec<i32> = Vec::new();
    let mut sorted: Vec<i32> = Vec::new();
    let mut k: usize = 0;
    while k < n
        invariant
            n == regions@.len(),
            rv == regions_view(regions@),
            k <= n,
            raw@ == raw_xs(rv, k as int),
            sorted@ == sort_i32(raw@),
        decreases n - k,
    {
        let reg = &regions[k];
        assert(rv[k as int].ring == reg.ring@ && rv[k as int].clip == reg.clip);
        let ghost r0 = raw@;
        raw.push(reg.clip.xmin);
        insert_sorted(&mut sorted, reg.clip.xmin);
        assert(raw@.drop_last() =~= r0);
        assert(sorted@ == sort_i32(raw@));
        let ghost r1 = raw@;
        let ghost r2 = r1.push(reg.clip.xmax);
        raw.push(reg.clip.xmax);
        insert_sorted(&mut sorted, reg.clip.xmax);
        assert(raw@.drop_last() =~= r1);
        assert(sorted@ == sort_i32(raw@));
        assert(raw@ =~= r2 + ring_xs(reg.ring@).take(0));
        let mut v: usize = 0;
        while v < reg.ring.len()
            invariant
                v <= reg.ring@.len(),
                raw@ == r2 + ring_xs(reg.ring@).take(v as int),
                sorted@ == sort_i32(raw@),
            decreases reg.ring@.len() - v,
        {
            let ghost rw = raw@;
            raw.push(reg.ring[v].x);
            insert_sorted(&mut sorted, reg.ring[v].x);
            assert(raw@.drop_last() =~= rw);
            assert(raw@ =~= r2 + ring_xs(reg.ring@).take(v as int + 1));
            v = v + 1;
        }
        assert(ring_xs(reg.ring@).take(v as int) =~= ring_xs(reg.ring@));
        assert(raw@ =~= raw_xs(rv, k as int + 1));
        k = k + 1;
    }
    let mut xs: Vec<i32> = Vec::new();
    let mut t: usize = 0;
    while t < sorted.len()
        invariant
            t <= sorted@.len(),
            xs@ == dedup(sorted@.take(t as int)),
        decreases sorted@.len() - t,
    {
        let v = sorted[t];
        assert(sorted@.take(t as int + 1).drop_last() =~= sorted@.take(t as int));
        if xs.len() == 0 || xs[xs.len() - 1] != v {
            xs.push(v);
        }
        t = t + 1;
    }
    assert(sorted@.take(t as int) =~= sorted@);
    proof {
        lemma_sort_i32(raw@);
        lemma_dedup_ascending(sorted@);
    }
    xs
}

/// The length all regions share on the scan line `x2 / 2`.
fn slab_covered(regions: &Vec<PolyRegion>, x2: i64) -> (c: i128)
    requires
        regions@.len() >= 1,
    ensures
        c == total_len(common(regions_view(regions@), x2 as int, regions@.len() as int)),
        0 <= c < 0x1_0000_0000,
{
    let ghost rv = regions_view(regions@);
    let n = regions.len();
    assert(rv[0].ring == regions@[0].ring@ && rv[0].clip == regions@[0].clip);
    let mut cm = interior_intervals_at_x2(&regions[0].ring, regions[0].clip, x2);
    let mut rr: usize = 1;
    while rr < n && cm.len() > 0
        invariant
            n == regions@.len(),
            rv == regions_view(regions@),
            1 <= rr <= n,
            cm@ == common(rv, x2 as int, rr as int),
        decreases n - rr,
    {
        assert(rv[rr as int].ring == regions@[rr as int].ring@ && rv[rr as int].clip == regions@[rr as int].clip);
        let next = interior_intervals_at_x2(&regions[rr].ring, regions[rr].clip, x2);
        cm = intersect_interval_sets(cm.as_slice(), next.as_slice());
        rr = rr + 1;
    }
    proof {
        if rr < n {
            lemma_common_empty(rv, x2 as int, rr as int, n as int);
        }
        lemma_covered_bound(rv, x2 as int);
    }
    assert(cm@ =~= common(rv, x2 as int, n as int));
    covered_length(&cm)
}

/// The exact area shared by the regions (see `shared_area`), computed in
/// `i128` so the full `i32` coordinate range cannot overflow.
pub fn rectilinear_intersection_area(regions: &Vec<PolyRegion>) -> (a: i128)
    ensures
        a == shared_area(regions_view(regions@)),
{
    let ghost rv = regions_view(regions@);
    let n = regions.len();
    if n == 0 {
        return 0;
    }
    if !all_rings_rectilinear(regions) {
        return 0;
    }
    let xs = collect_breakpoints(regions);
    let m = xs.len();
    if m == 0 {
        return 0;
    }
    let mut area: i128 = 0;
    let mut i: usize = 0;
    while i < m - 1
        invariant
            n == regions@.len(),
            n >= 1,
            rv == regions_view(regions@),
            m == xs@.len(),
            m >= 1,
            i <= m - 1,
            ascending(xs@),
            area == area_sum(rv, xs@, i as int),
            0 <= area <= (xs@[i as int] - xs@[0]) * 0x1_0000_0000,
        decreases m - 1 - i,
    {
        let x0 = xs[i];
        let x1 = xs[i + 1];
        assert(xs@[0] <= x0) by {
            if i > 0 {
                assert(xs@[0] <= xs@[i as int]);
            }
        }
        if x0 < x1 {
            let covered = slab_covered(regions, x0 as i64 + x1 as i64);
            let w: i128 = x1 as i128 - x0 as i128;
            assert(0 <= w * covered <= w * 0x1_0000_0000) by (nonlinear_arith)
                requires
                    0 <= w,
                    0 <= covered <= 0x1_0000_0000,
            ;
            area = area + w * covered;
        }
        proof {
            assert(xs@[i as int] <= xs@[i as int + 1]);
        }
        i = i + 1;
    }
    area
}

pub(crate) fn copy_ring(ring: &Vec<Point>) -> (r: Vec<Point>)
    ensures
        r@ == ring@,
{
    let mut r: Vec<Point> = Vec::new();
    let mut i: usize = 0;
    while i < ring.len()
        invariant
            i <= ring@.len(),
            r@ == ring@.take(i as int),
        decreases ring@.len() - i,
    {
        r.push(ring[i]);
        assert(r@ =~= ring@.take(i as int + 1));
        i = i + 1;
    }
    assert(ring@.take(i as int) =~= ring@);
    r
}

/// Breakpoints for a contact test: both clips' sides and both rings' x
/// coordinates, sorted without repeats.
pub open spec fn touch_breakpoints(a: RegionV, b: RegionV) -> Seq<i32> {
    dedup(sort_i32(seq![a.clip.xmin, a.clip.xmax, b.clip.xmin, b.clip.xmax] + ring_xs(a.ring) + ring_xs(b.ring)))
}

/// At some breakpoint the closed slices of both regions share a point.
pub open spec fn slices_meet(a: RegionV, b: RegionV) -> bool {
    exists|k: int, y2: int|
        0 <= k < touch_breakpoints(a, b).len()
            && #[trigger] covers_closed(closed_slice(a.ring, a.clip, touch_breakpoints(a, b)[k] as int), y2)
            && covers_closed(closed_slice(b.ring, b.clip, touch_breakpoints(a, b)[k] as int), y2)
}

proof fn lemma_meet_at(a: RegionV, b: RegionV, k: int, ai: Seq<(i32, i32)>, bi: Seq<(i32, i32)>)
    requires
        0 <= k < touch_breakpoints(a, b).len(),
        separated(ai),
        separated(bi),
        forall|y2: int| covers_closed(ai, y2) <==> covers_closed(closed_slice(a.ring, a.clip, touch_breakpoints(a, b)[k] as int), y2),
        forall|y2: int| covers_closed(bi, y2) <==> covers_closed(closed_slice(b.ring, b.clip, touch_breakpoints(a, b)[k] as int), y2),
        meets(ai, bi),
    ensures
        slices_meet(a, b),
{
    lemma_meets_common_point(ai, bi);
    let y2 = choose|y2: int| covers_closed(ai, y2) && covers_closed(bi, y2);
    assert(covers_closed(closed_slice(a.ring, a.clip, touch_breakpoints(a, b)[k] as int), y2));
}

/// Two rectilinear regions touch: they share area, or their closed slices
/// share a point on some breakpoint line (boundary contact, not mere box
/// contact).
pub fn rectilinear_regions_touch(a: &PolyRegion, b: &PolyRegion) -> (t: bool)
    ensures
        t == (shared_area(seq![a.view(), b.view()]) > 0 || (all_rectilinear(seq![a.view(), b.view()]) && slices_meet(a.view(), b.view()))),
{
    let pair = vec![
        PolyRegion { ring: copy_ring(&a.ring), clip: a.clip },
        PolyRegion { ring: copy_ring(&b.ring), clip: b.clip },
    ];
    assert(regions_view(pair@) =~= seq![a.view(), b.view()]);
    if rectilinear_intersection_area(&pair) > 0 {
        return true;
    }
    if !is_rectilinear(&a.ring) || !is_rectilinear(&b.ring) {
        proof {
            assert(!all_rectilinear(seq![a.view(), b.view()])) by {
                if !(forall|i: int| 0 <= i < a.ring@.len() ==> #[trigger] axis_edge(a.ring@, i)) {
                    let i = choose|i: int| !(0 <= i < a.ring@.len() ==> #[trigger] axis_edge(a.ring@, i));
                    assert(seq![a.view(), b.view()][0] == a.view());
                    assert(!axis_edge(seq![a.view(), b.view()][0].ring, i));
                } else {
                    let i = choose|i: int| !(0 <= i < b.ring@.len() ==> #[trigger] axis_edge(b.ring@, i));
                    assert(seq![a.view(), b.view()][1] == b.view());
                    assert(!axis_edge(seq![a.view(), b.view()][1].ring, i));
                }
            }
        }
        return false;
    }
    let ghost both = seq![a.view(), b.view()];
    assert(all_rectilinear(both)) by {
        assert forall|r: int, i: int| 0 <= r < 2 && 0 <= i < both[r].ring.len()
            implies #[trigger] axis_edge(both[r].ring, i) by {
            if r == 0 {
                assert(both[r] == a.view());
            } else {
                assert(both[r] == b.view());
            }
        }
    }
    let mut raw: Vec<i32> = vec![a.clip.xmin, a.clip.xmax, b.clip.xmin, b.clip.xmax];
    let ghost r0 = raw@;
    let mut v: usize = 0;
    while v < a.ring.len()
        invariant
            v <= a.ring@.len(),
            raw@ == r0 + ring_xs(a.ring@).take(v as int),
        decreases a.ring@.len() - v,
    {
        raw.push(a.ring[v].x);
        assert(raw@ =~= r0 + ring_xs(a.ring@).take(v as int + 1));
        v = v + 1;
    }
    assert(ring_xs(a.ring@).take(v as int) =~= ring_xs(a.ring@));
    let ghost r1 = raw@;
    let mut v: usize = 0;
    while v < b.ring.len()
        invariant
            v <= b.ring@.len(),
            raw@ == r1 + ring_xs(b.ring@).take(v as int),
        decreases b.ring@.len() - v,
    {
        raw.push(b.ring[v].x);
        assert(raw@ =~= r1 + ring_xs(b.ring@).take(v as int + 1));
        v = v + 1;
    }
    assert(ring_xs(b.ring@).take(v as int) =~= ring_xs(b.ring@));
    let mut sorted: Vec<i32> = Vec::new();
    let mut t: usize = 0;
    while t < raw.len()
        invariant
            t <= raw@.len(),
            sorted@ == sort_i32(raw@.take(t as int)),
        decreases raw@.len() - t,
    {
        insert_sorted(&mut sorted, raw[t]);
        assert(raw@.take(t as int + 1).drop_last() =~= raw@.take(t as int));
        t = t + 1;
    }
    assert(raw@.take(t as int) =~= raw@);
    let mut xs: Vec<i32> = Vec::new();
    let mut t: usize = 0;
    while t < sorted.len()
        invariant
            t <= sorted@.len(),
            xs@ == dedup(sorted@.take(t as int)),
        decreases sorted@.len() - t,
    {
        let x = sorted[t];
        assert(sorted@.take(t as int + 1).drop_last() =~= sorted@.take(t as int));
        if xs.len() == 0 || xs[xs.len() - 1] != x {
            xs.push(x);
        }
        t = t + 1;
    }
    assert(sorted@.take(t as int) =~= sorted@);
    assert(raw@ =~= seq![a.clip.xmin, a.clip.xmax, b.clip.xmin, b.clip.xmax] + ring_xs(a.ring@) + ring_xs(b.ring@));
    assert(xs@ == touch_breakpoints(a.view(), b.view()));
    let mut k: usize = 0;
    while k < xs.len()
        invariant
            xs@ == touch_breakpoints(a.view(), b.view()),
            k <= xs@.len(),
            all_rectilinear(seq![a.view(), b.view()]),
            !(shared_area(seq![a.view(), b.view()]) > 0),
            forall|q: int, y2: int| 0 <= q < k ==> !(#[trigger] covers_closed(closed_slice(a.ring@, a.clip, xs@[q] as int), y2)
                && covers_closed(closed_slice(b.ring@, b.clip, xs@[q] as int), y2)),
        decreases xs@.len() - k,
    {
        let ai = closed_intervals_at_x(&a.ring, a.clip, xs[k]);
        let bi = closed_intervals_at_x(&b.ring, b.clip, xs[k]);
        if closed_interval_sets_intersect(ai.as_slice(), bi.as_slice()) {
            proof {
                lemma_meet_at(a.view(), b.view(), k as int, ai@, bi@);
            }
            return true;
        }
        proof {
            lemma_meets_common_point(ai@, bi@);
            assert forall|q: int, y2: int| 0 <= q < k + 1 implies !(#[trigger] covers_closed(closed_slice(a.ring@, a.clip, xs@[q] as int), y2)
                && covers_closed(closed_slice(b.ring@, b.clip, xs@[q] as int), y2)) by {
                if q == k {
                    if covers_closed(closed_slice(a.ring@, a.clip, xs@[q] as int), y2)
                        && covers_closed(closed_slice(b.ring@, b.clip, xs@[q] as int), y2) {
                        assert(covers_closed(ai@, y2) && covers_closed(bi@, y2));
                    }
                }
            }
        }
        k = k + 1;
    }
    false
}

/// Two polygons overlap with positive area: their boxes overlap and their
/// shared exact area is positive (each clipped to its own box).
pub fn poly_poly_overlap(a_ring: &Vec<Point>, a_box: Bbox, b_ring: &Vec<Point>, b_box: Bbox) -> (r: bool)
    ensures
        r == (a_box.overlaps_spec(b_box)
            && shared_area(seq![RegionV { ring: a_ring@, clip: a_box }, RegionV { ring: b_ring@, clip: b_box }]) > 0),
{
    if !a_box.overlaps(&b_box) {
        return false;
    }
    let pair = vec![
        PolyRegion { ring: copy_ring(a_ring), clip: a_box },
        PolyRegion { ring: copy_ring(b_ring), clip: b_box },
    ];
    assert(regions_view(pair@) =~= seq![RegionV { ring: a_ring@, clip: a_box }, RegionV { ring: b_ring@, clip: b_box }]);
    rectilinear_intersection_area(&pair) > 0
}

} // verus!
