//! Exact stroking of rectilinear GDS paths into rectangles.
//!
//! A centerline with even positive width becomes one rectangle per segment;
//! inner joints extend by half the width, the ends by the cap of the path
//! type (flush 0, half-width 2, explicit extensions 4). Round caps, diagonal
//! segments and half-grid edges are refused.
use vstd::prelude::*;
use crate::geometry::{check_ring, lemma_ring_defect, ring_defect, ring_valid, Point};
use crate::text::{decimal, push_decimal, push_signed, signed_decimal};
use super::gds::{GdsPath, LayoutError, LayoutErrorKind};

verus! {

pub open spec fn fits32(v: int) -> bool {
    i32::MIN <= v <= i32::MAX
}

/// Kind and message of a failure to stroke a path.
pub type StrokeFault = (LayoutErrorKind, Seq<char>);

pub open spec fn overflow_fault() -> StrokeFault {
    (LayoutErrorKind::ArithmeticOverflow, "PATH coordinate overflow"@)
}

fn overflow() -> (e: LayoutError)
    ensures
        e.kind == LayoutErrorKind::ArithmeticOverflow,
        e.message@ == overflow_fault().1,
{
    LayoutError::layout(LayoutErrorKind::ArithmeticOverflow, String::from_str("PATH coordinate overflow"))
}

fn fail(kind: LayoutErrorKind, text: &str) -> (e: LayoutError)
    ensures
        e.kind == kind,
        e.offset.is_none(),
        e.message@ == text@,
{
    LayoutError::layout(kind, String::from_str(text))
}

/// `value + delta`, or an overflow error.
pub fn checked_add(value: i32, delta: i32) -> (r: Result<i32, LayoutError>)
    ensures
        fits32(value + delta) ==> r == Ok::<i32, LayoutError>((value + delta) as i32),
        !fits32(value + delta) ==> (r matches Err(e) && e.kind == LayoutErrorKind::ArithmeticOverflow && e.message@ == overflow_fault().1),
{
    match value.checked_add(delta) {
        Some(v) => Ok(v),
        None => Err(overflow()),
    }
}

/// `value - delta`, or an overflow error.
pub fn checked_sub(value: i32, delta: i32) -> (r: Result<i32, LayoutError>)
    ensures
        fits32(value - delta) ==> r == Ok::<i32, LayoutError>((value - delta) as i32),
        !fits32(value - delta) ==> (r matches Err(e) && e.kind == LayoutErrorKind::ArithmeticOverflow && e.message@ == overflow_fault().1),
{
    match value.checked_sub(delta) {
        Some(v) => Ok(v),
        None => Err(overflow()),
    }
}

/// `value + direction * delta`, or an overflow error when the product or the
/// sum leaves `i32`.
pub fn checked_add_mul(value: i32, direction: i32, delta: i32) -> (r: Result<i32, LayoutError>)
    requires
        direction == 1 || direction == -1,
    ensures
        fits32(direction * delta) && fits32(value + direction * delta) ==> r == Ok::<i32, LayoutError>((value + direction * delta) as i32),
        !(fits32(direction * delta) && fits32(value + direction * delta)) ==> (r matches Err(e) && e.kind == LayoutErrorKind::ArithmeticOverflow && e.message@ == overflow_fault().1),
{
    match direction.checked_mul(delta) {
        Some(m) => checked_add(value, m),
        None => Err(overflow()),
    }
}

/// `value - direction * delta`, or an overflow error.
pub fn checked_sub_mul(value: i32, direction: i32, delta: i32) -> (r: Result<i32, LayoutError>)
    requires
        direction == 1 || direction == -1,
    ensures
        fits32(direction * delta) && fits32(value - direction * delta) ==> r == Ok::<i32, LayoutError>((value - direction * delta) as i32),
        !(fits32(direction * delta) && fits32(value - direction * delta)) ==> (r matches Err(e) && e.kind == LayoutErrorKind::ArithmeticOverflow && e.message@ == overflow_fault().1),
{
    match direction.checked_mul(delta) {
        Some(m) => checked_sub(value, m),
        None => Err(overflow()),
    }
}

pub open spec fn dir(from: int, to: int) -> int {
    if to > from { 1 } else { -1 }
}

pub open spec fn pt(x: int, y: int) -> Point {
    Point { x: x as i32, y: y as i32 }
}

/// Rectangle of one axis-parallel segment `a -> b` (`a != b`), extended by
/// `s` before `a` and `e` beyond `b`; `None` when a coordinate leaves `i32`.
pub open spec fn segment_ring(a: Point, b: Point, half: int, s: int, e: int) -> Option<Seq<Point>> {
    if a.y == b.y {
        let d = dir(a.x as int, b.x as int);
        let x0 = a.x - d * s;
        let x1 = b.x + d * e;
        if fits32(d * s) && fits32(x0) && fits32(d * e) && fits32(x1) && fits32(a.y - half) && fits32(a.y + half) {
            Some(seq![pt(x0, a.y - half), pt(x1, a.y - half), pt(x1, a.y + half), pt(x0, a.y + half)])
        } else {
            None
        }
    } else {
        let d = dir(a.y as int, b.y as int);
        let y0 = a.y - d * s;
        let y1 = b.y + d * e;
        if fits32(d * s) && fits32(y0) && fits32(d * e) && fits32(y1) && fits32(a.x - half) && fits32(a.x + half) {
            Some(seq![pt(a.x - half, y0), pt(a.x + half, y0), pt(a.x + half, y1), pt(a.x - half, y1)])
        } else {
            None
        }
    }
}

/// Rectangles of the first `k` segments, or the first failure: a repeated
/// point (malformed), a diagonal segment (unsupported), an overflowing
/// coordinate, or a rectangle that is not a valid ring (malformed).
pub open spec fn stroke_segments(cl: Seq<Point>, half: int, begin: int, end: int, k: int) -> Result<Seq<Seq<Point>>, StrokeFault>
    decreases k,
{
    if k <= 0 {
        Ok(Seq::empty())
    } else {
        match stroke_segments(cl, half, begin, end, k - 1) {
            Err(e) => Err(e),
            Ok(prev) => {
                let i = k - 1;
                let last = cl.len() - 2;
                let a = cl[i];
                let b = cl[i + 1];
                let s = if i == 0 { begin } else { half };
                let e = if i == last { end } else { half };
                if a == b {
                    Err((LayoutErrorKind::Malformed, "PATH has zero-length segment "@ + decimal(i as nat)))
                } else if a.y != b.y && a.x != b.x {
                    Err((LayoutErrorKind::Unsupported, "diagonal PATH segment "@ + decimal(i as nat)
                        + " is retained but exact stroking is not implemented"@))
                } else {
                    match segment_ring(a, b, half, s, e) {
                        None => Err(overflow_fault()),
                        Some(r) => if ring_valid(r) {
                            Ok(prev.push(r))
                        } else {
                            Err((LayoutErrorKind::Malformed, "stroked PATH segment is invalid: "@ + ring_defect(r)->0))
                        },
                    }
                }
            },
        }
    }
}

/// What stroking gives for a path, checked in order: no unhandled records
/// (else unsupported); a width (else unsupported) that is positive (else
/// unsupported) and even (else half-grid); path type 0, 2 or 4 (round caps
/// and others unsupported); extensions only with type 4, which needs both
/// (else malformed); at least two points (else malformed); then every
/// segment.
pub open spec fn stroke_spec(p: GdsPath) -> Result<Seq<Seq<Point>>, StrokeFault> {
    if p.meta.unhandled_records@.len() != 0 {
        Err((LayoutErrorKind::Unsupported, "PATH contains unhandled records"@))
    } else if p.width is None {
        Err((LayoutErrorKind::Unsupported, "zero/default-width PATH has no area representation"@))
    } else if p.width->0 <= 0 {
        Err((LayoutErrorKind::Unsupported, "non-positive/absolute PATH WIDTH is retained but not supported for verification"@))
    } else if p.width->0 % 2 != 0 {
        Err((LayoutErrorKind::NonIntegralTransform, "PATH width "@ + signed_decimal(p.width->0 as int) + " requires half-grid edges"@))
    } else {
        let t: int = match p.path_type { Some(t) => t as int, None => 0 };
        let half = p.width->0 / 2;
        if t == 1 {
            Err((LayoutErrorKind::Unsupported, "round-cap PATHTYPE 1 cannot be represented by exact integer polygons"@))
        } else if t != 0 && t != 2 && t != 4 {
            Err((LayoutErrorKind::Unsupported, "PATHTYPE "@ + signed_decimal(t)))
        } else if t != 4 && (p.begin_extension is Some || p.end_extension is Some) {
            Err((LayoutErrorKind::Malformed, "BGNEXTN/ENDEXTN require PATHTYPE 4"@))
        } else if t == 4 && p.begin_extension is None {
            Err((LayoutErrorKind::Malformed, "PATHTYPE 4 is missing BGNEXTN"@))
        } else if t == 4 && p.end_extension is None {
            Err((LayoutErrorKind::Malformed, "PATHTYPE 4 is missing ENDEXTN"@))
        } else if p.centerline@.len() < 2 {
            Err((LayoutErrorKind::Malformed, "PATH needs two points"@))
        } else {
            let begin = if t == 0 { 0 } else if t == 2 { half as int } else { p.begin_extension->0 as int };
            let end = if t == 0 { 0 } else if t == 2 { half as int } else { p.end_extension->0 as int };
            stroke_segments(p.centerline@, half as int, begin, end, p.centerline@.len() - 1)
        }
    }
}

fn segment_exec(a: Point, b: Point, half: i32, s: i32, e: i32) -> (r: Result<Vec<Point>, LayoutError>)
    requires
        a != b,
        a.y == b.y || a.x == b.x,
    ensures
        segment_ring(a, b, half as int, s as int, e as int) matches Some(ring) ==> (r matches Ok(v) && v@ == ring),
        segment_ring(a, b, half as int, s as int, e as int) is None ==> (r matches Err(err) && err.kind == overflow_fault().0 && err.message@ == overflow_fault().1),
{
    if a.y == b.y {
        let d: i32 = if b.x > a.x { 1 } else { -1 };
        let x0 = match checked_sub_mul(a.x, d, s) { Ok(v) => v, Err(err) => { return Err(err); } };
        let x1 = match checked_add_mul(b.x, d, e) { Ok(v) => v, Err(err) => { return Err(err); } };
        let y0 = match checked_sub(a.y, half) { Ok(v) => v, Err(err) => { return Err(err); } };
        let y1 = match checked_add(a.y, half) { Ok(v) => v, Err(err) => { return Err(err); } };
        let v = vec![Point { x: x0, y: y0 }, Point { x: x1, y: y0 }, Point { x: x1, y: y1 }, Point { x: x0, y: y1 }];
        assert(v@ =~= segment_ring(a, b, half as int, s as int, e as int)->0);
        Ok(v)
    } else {
        let d: i32 = if b.y > a.y { 1 } else { -1 };
        let y0 = match checked_sub_mul(a.y, d, s) { Ok(v) => v, Err(err) => { return Err(err); } };
        let y1 = match checked_add_mul(b.y, d, e) { Ok(v) => v, Err(err) => { return Err(err); } };
        let x0 = match checked_sub(a.x, half) { Ok(v) => v, Err(err) => { return Err(err); } };
        let x1 = match checked_add(a.x, half) { Ok(v) => v, Err(err) => { return Err(err); } };
        let v = vec![Point { x: x0, y: y0 }, Point { x: x1, y: y0 }, Point { x: x1, y: y1 }, Point { x: x0, y: y1 }];
        assert(v@ =~= segment_ring(a, b, half as int, s as int, e as int)->0);
        Ok(v)
    }
}

/// Strokes a path into one rectangle per segment (see `stroke_spec`).
pub fn stroke_path(path: &GdsPath) -> (r: Result<Vec<Vec<Point>>, LayoutError>)
    ensures
        match stroke_spec(*path) {
            Ok(rings) => r matches Ok(v) && v@.len() == rings.len() && forall|i: int| 0 <= i < v@.len() ==> (#[trigger] v@[i])@ == rings[i],
            Err((kind, m)) => r matches Err(e) && e.kind == kind && e.message@ == m,
        },
{
    if path.meta.unhandled_records.len() != 0 {
        return Err(fail(LayoutErrorKind::Unsupported, "PATH contains unhandled records"));
    }
    let raw_width = match path.width {
        Some(w) => w,
        None => {
            return Err(fail(LayoutErrorKind::Unsupported, "zero/default-width PATH has no area representation"));
        },
    };
    if raw_width <= 0 {
        return Err(fail(LayoutErrorKind::Unsupported, "non-positive/absolute PATH WIDTH is retained but not supported for verification"));
    }
    if raw_width % 2 != 0 {
        let mut m = String::from_str("PATH width ");
        push_signed(&mut m, raw_width as i64);
        m.append(" requires half-grid edges");
        return Err(LayoutError::layout(LayoutErrorKind::NonIntegralTransform, m));
    }
    let path_type: i16 = match path.path_type { Some(t) => t, None => 0 };
    if path_type == 1 {
        return Err(fail(LayoutErrorKind::Unsupported, "round-cap PATHTYPE 1 cannot be represented by exact integer polygons"));
    }
    if path_type != 0 && path_type != 2 && path_type != 4 {
        let mut m = String::from_str("PATHTYPE ");
        push_signed(&mut m, path_type as i64);
        return Err(LayoutError::layout(LayoutErrorKind::Unsupported, m));
    }
    if path_type != 4 && (path.begin_extension.is_some() || path.end_extension.is_some()) {
        return Err(fail(LayoutErrorKind::Malformed, "BGNEXTN/ENDEXTN require PATHTYPE 4"));
    }
    let half = raw_width / 2;
    let begin: i32 = if path_type == 0 {
        0
    } else if path_type == 2 {
        half
    } else {
        match path.begin_extension {
            Some(v) => v,
            None => {
                return Err(fail(LayoutErrorKind::Malformed, "PATHTYPE 4 is missing BGNEXTN"));
            },
        }
    };
    let end: i32 = if path_type == 0 {
        0
    } else if path_type == 2 {
        half
    } else {
        match path.end_extension {
            Some(v) => v,
            None => {
                return Err(fail(LayoutErrorKind::Malformed, "PATHTYPE 4 is missing ENDEXTN"));
            },
        }
    };
    let n = path.centerline.len();
    if n < 2 {
        return Err(fail(LayoutErrorKind::Malformed, "PATH needs two points"));
    }
    let last = n - 2;
    let ghost cl = path.centerline@;
    let mut polygons: Vec<Vec<Point>> = Vec::new();
    let mut index: usize = 0;
    while index <= last
        invariant
            n == cl.len() >= 2,
            last == n - 2,
            cl == path.centerline@,
            index <= last + 1,
            stroke_segments(cl, half as int, begin as int, end as int, index as int) matches Ok(prev)
                && polygons@.len() == prev.len()
                && forall|i: int| 0 <= i < polygons@.len() ==> (#[trigger] polygons@[i])@ == prev[i],
            stroke_spec(*path) == stroke_segments(cl, half as int, begin as int, end as int, n - 1),
        decreases last + 1 - index,
    {
        let a = path.centerline[index];
        let b = path.centerline[index + 1];
        let ghost prev = stroke_segments(cl, half as int, begin as int, end as int, index as int)->Ok_0;
        if a.x == b.x && a.y == b.y {
            proof { lemma_segments_stop(cl, half as int, begin as int, end as int, index as int + 1, n - 1); }
            let mut m = String::from_str("PATH has zero-length segment ");
            push_decimal(&mut m, index as u64);
            return Err(LayoutError::layout(LayoutErrorKind::Malformed, m));
        }
        if a.y != b.y && a.x != b.x {
            proof { lemma_segments_stop(cl, half as int, begin as int, end as int, index as int + 1, n - 1); }
            let mut m = String::from_str("diagonal PATH segment ");
            push_decimal(&mut m, index as u64);
            m.append(" is retained but exact stroking is not implemented");
            return Err(LayoutError::layout(LayoutErrorKind::Unsupported, m));
        }
        let s = if index == 0 { begin } else { half };
        let e = if index == last { end } else { half };
        let ring = match segment_exec(a, b, half, s, e) {
            Ok(v) => v,
            Err(err) => {
                proof { lemma_segments_stop(cl, half as int, begin as int, end as int, index as int + 1, n - 1); }
                return Err(err);
            },
        };
        match check_ring(&ring) {
            Ok(()) => {},
            Err(defect) => {
                proof {
                    lemma_ring_defect(ring@);
                    lemma_segments_stop(cl, half as int, begin as int, end as int, index as int + 1, n - 1);
                }
                let mut m = String::from_str("stroked PATH segment is invalid: ");
                m.append(defect.as_str());
                return Err(LayoutError::layout(LayoutErrorKind::Malformed, m));
            },
        }
        let ghost pv = polygons@;
        polygons.push(ring);
        proof {
            let next = stroke_segments(cl, half as int, begin as int, end as int, index as int + 1)->Ok_0;
            assert(next == prev.push(ring@));
            assert forall|i: int| 0 <= i < polygons@.len() implies (#[trigger] polygons@[i])@ == next[i] by {
                if i < pv.len() {
                    assert(polygons@[i] == pv[i]);
                }
            }
        }
        index = index + 1;
    }
    Ok(polygons)
}

/// Ring `r` is a rectangle of thickness `w` across its segment: four
/// vertices, the first edge or the second running across the segment.
pub open spec fn thick_rect(r: Seq<Point>, w: int) -> bool {
    &&& r.len() == 4
    &&& (r[2].y - r[1].y == w && r[0].y == r[1].y) || (r[1].x - r[0].x == w && r[1].y == r[0].y)
}

proof fn lemma_segment_thick(a: Point, b: Point, half: int, s: int, e: int)
    requires
        segment_ring(a, b, half, s, e) is Some,
    ensures
        thick_rect(segment_ring(a, b, half, s, e)->0, 2 * half),
{
}

proof fn lemma_segments_thick(cl: Seq<Point>, half: int, begin: int, end: int, k: int)
    requires
        stroke_segments(cl, half, begin, end, k) is Ok,
        0 <= k <= cl.len() - 1,
    ensures
        forall|j: int| 0 <= j < stroke_segments(cl, half, begin, end, k)->Ok_0.len() ==>
            thick_rect(#[trigger] stroke_segments(cl, half, begin, end, k)->Ok_0[j], 2 * half),
        stroke_segments(cl, half, begin, end, k)->Ok_0.len() == k,
    decreases k,
{
    if k > 0 {
        lemma_segments_thick(cl, half, begin, end, k - 1);
        let prev = stroke_segments(cl, half, begin, end, k - 1)->Ok_0;
        let i = k - 1;
        let a = cl[i];
        let b = cl[i + 1];
        let s = if i == 0 { begin } else { half };
        let e = if i == cl.len() - 2 { end } else { half };
        let r = segment_ring(a, b, half, s, e)->0;
        lemma_segment_thick(a, b, half, s, e);
        let cur = prev.push(r);
        assert(stroke_segments(cl, half, begin, end, k) == Ok::<Seq<Seq<Point>>, StrokeFault>(cur));
        assert forall|j: int| 0 <= j < cur.len() implies thick_rect(#[trigger] cur[j], 2 * half) by {
            if j < prev.len() {
                assert(cur[j] == prev[j]);
            }
        }
    }
}

/// A stroked path gives one rectangle per segment, each as thick as the path
/// is wide.
pub proof fn lemma_stroke_rectangles(p: GdsPath)
    requires
        stroke_spec(p) is Ok,
    ensures
        stroke_spec(p)->Ok_0.len() == p.centerline@.len() - 1,
        forall|j: int| 0 <= j < stroke_spec(p)->Ok_0.len() ==> thick_rect(#[trigger] stroke_spec(p)->Ok_0[j], p.width->0 as int),
{
    let t: int = match p.path_type { Some(t) => t as int, None => 0 };
    let half = p.width->0 / 2;
    let begin = if t == 0 { 0 } else if t == 2 { half as int } else { p.begin_extension->0 as int };
    let end = if t == 0 { 0 } else if t == 2 { half as int } else { p.end_extension->0 as int };
    lemma_segments_thick(p.centerline@, half as int, begin, end, p.centerline@.len() - 1);
}

/// Once a prefix of the segments fails, every longer prefix fails the same way.
proof fn lemma_segments_stop(cl: Seq<Point>, half: int, begin: int, end: int, k: int, m: int)
    requires
        0 <= k <= m,
        stroke_segments(cl, half, begin, end, k) is Err,
    ensures
        stroke_segments(cl, half, begin, end, m) == stroke_segments(cl, half, begin, end, k),
    decreases m - k,
{
    if m > k {
        lemma_segments_stop(cl, half, begin, end, k, m - 1);
    }
}

/// Start extension of segment `i`: the path's own at the first segment,
/// half the width elsewhere.
pub open spec fn start_ext(half: int, begin: int, i: int) -> int {
    if i == 0 { begin } else { half }
}

/// End extension of segment `i` of a centerline with `n` points: the
/// path's own at the last segment, half the width elsewhere.
pub open spec fn end_ext(half: int, end: int, n: int, i: int) -> int {
    if i == n - 2 { end } else { half }
}

/// Segment `i` strokes: its points differ, it runs along an axis, and its
/// rectangle fits `i32` and is a valid ring.
pub open spec fn segment_ok(cl: Seq<Point>, half: int, begin: int, end: int, i: int) -> bool {
    let a = cl[i];
    let b = cl[i + 1];
    let r = segment_ring(a, b, half, start_ext(half, begin, i), end_ext(half, end, cl.len() as int, i));
    &&& a != b
    &&& (a.y == b.y || a.x == b.x)
    &&& r is Some
    &&& ring_valid(r->0)
}

proof fn lemma_segments_ok(cl: Seq<Point>, half: int, begin: int, end: int, k: int)
    requires
        0 <= k <= cl.len() - 1,
    ensures
        stroke_segments(cl, half, begin, end, k) is Ok <==> forall|i: int| 0 <= i < k ==> #[trigger] segment_ok(cl, half, begin, end, i),
        stroke_segments(cl, half, begin, end, k) is Ok ==> {
            let rs = stroke_segments(cl, half, begin, end, k)->Ok_0;
            &&& rs.len() == k
            &&& forall|j: int| 0 <= j < k ==> #[trigger] rs[j] == segment_ring(
                cl[j],
                cl[j + 1],
                half,
                start_ext(half, begin, j),
                end_ext(half, end, cl.len() as int, j),
            )->0
        },
    decreases k,
{
    if k > 0 {
        lemma_segments_ok(cl, half, begin, end, k - 1);
        let prev = stroke_segments(cl, half, begin, end, k - 1);
        if prev is Ok {
            if segment_ok(cl, half, begin, end, k - 1) {
                let rs = stroke_segments(cl, half, begin, end, k)->Ok_0;
                assert forall|j: int| 0 <= j < k implies #[trigger] rs[j] == segment_ring(
                    cl[j],
                    cl[j + 1],
                    half,
                    start_ext(half, begin, j),
                    end_ext(half, end, cl.len() as int, j),
                )->0 by {
                    if j < k - 1 {
                        assert(rs[j] == prev->Ok_0[j]);
                    }
                }
            } else {
                assert(!(forall|i: int| 0 <= i < k ==> #[trigger] segment_ok(cl, half, begin, end, i)));
            }
        } else {
            let i = choose|i: int| 0 <= i < k - 1 && !#[trigger] segment_ok(cl, half, begin, end, i);
            assert(!(forall|i: int| 0 <= i < k ==> #[trigger] segment_ok(cl, half, begin, end, i)));
        }
    }
}

/// The extension a path's first segment gets before its start: none for
/// flush ends (type 0), half the width for square ends (type 2), the
/// path's own begin extension for type 4.
pub open spec fn begin_of(p: GdsPath) -> int {
    let t: int = match p.path_type { Some(t) => t as int, None => 0 };
    if t == 0 { 0 } else if t == 2 { (p.width->0 / 2) as int } else { p.begin_extension->0 as int }
}

/// The extension a path's last segment gets beyond its end (as `begin_of`).
pub open spec fn end_of(p: GdsPath) -> int {
    let t: int = match p.path_type { Some(t) => t as int, None => 0 };
    if t == 0 { 0 } else if t == 2 { (p.width->0 / 2) as int } else { p.end_extension->0 as int }
}

/// A path strokes exactly when it has no unhandled records, a positive even
/// width, path type 0, 2 or 4 (absent meaning 0) with both extensions for
/// type 4 and none otherwise, at least two points, and every segment has
/// distinct ends, runs along an axis, and gives a rectangle that fits
/// `i32` and is a valid ring.
pub proof fn lemma_stroke_succeeds(p: GdsPath)
    ensures
        stroke_spec(p) is Ok <==> {
            let t: int = match p.path_type { Some(t) => t as int, None => 0 };
            &&& p.meta.unhandled_records@.len() == 0
            &&& p.width matches Some(w) && w > 0 && w % 2 == 0
            &&& (t == 0 || t == 2 || t == 4)
            &&& (t == 4 <==> p.begin_extension is Some)
            &&& (t == 4 <==> p.end_extension is Some)
            &&& p.centerline@.len() >= 2
            &&& forall|i: int| 0 <= i < p.centerline@.len() - 1 ==> #[trigger] segment_ok(
                p.centerline@,
                (p.width->0 / 2) as int,
                begin_of(p),
                end_of(p),
                i,
            )
        },
{
    if p.centerline@.len() >= 2 {
        lemma_segments_ok(p.centerline@, (p.width->0 / 2) as int, begin_of(p), end_of(p), p.centerline@.len() - 1);
    }
}

/// Each rectangle of a stroked path covers its segment `a -> b` exactly:
/// across the segment from its coordinate minus half the width to plus
/// half the width; along it from `a`, pushed back by the start extension,
/// to `b`, pushed on by the end extension (see `start_ext`, `end_ext`).
pub proof fn lemma_stroke_segment(p: GdsPath, j: int)
    requires
        stroke_spec(p) is Ok,
        0 <= j < p.centerline@.len() - 1,
    ensures
        stroke_spec(p)->Ok_0.len() == p.centerline@.len() - 1,
        ({
            let a = p.centerline@[j];
            let b = p.centerline@[j + 1];
            let h = (p.width->0 / 2) as int;
            let s = start_ext(h, begin_of(p), j);
            let e = end_ext(h, end_of(p), p.centerline@.len() as int, j);
            let r = stroke_spec(p)->Ok_0[j];
            &&& a != b
            &&& r.len() == 4
            &&& if a.y == b.y {
                let d: int = if b.x > a.x { 1 } else { -1 };
                &&& r[0].x == a.x - d * s && r[3].x == a.x - d * s
                &&& r[1].x == b.x + d * e && r[2].x == b.x + d * e
                &&& r[0].y == a.y - h && r[1].y == a.y - h
                &&& r[2].y == a.y + h && r[3].y == a.y + h
            } else {
                let d: int = if b.y > a.y { 1 } else { -1 };
                &&& a.x == b.x
                &&& r[0].y == a.y - d * s && r[1].y == a.y - d * s
                &&& r[2].y == b.y + d * e && r[3].y == b.y + d * e
                &&& r[0].x == a.x - h && r[3].x == a.x - h
                &&& r[1].x == a.x + h && r[2].x == a.x + h
            }
        }),
{
    let cl = p.centerline@;
    let h = (p.width->0 / 2) as int;
    let s = start_ext(h, begin_of(p), j);
    let e = end_ext(h, end_of(p), cl.len() as int, j);
    assert(stroke_spec(p) == stroke_segments(cl, h, begin_of(p), end_of(p), cl.len() - 1));
    lemma_segments_ok(cl, h, begin_of(p), end_of(p), cl.len() - 1);
    assert(segment_ok(cl, h, begin_of(p), end_of(p), j));
    assert(stroke_spec(p)->Ok_0[j] == segment_ring(cl[j], cl[j + 1], h, s, e)->0);
    lemma_segment_ring_shape(cl[j], cl[j + 1], h, s, e);
}

proof fn lemma_segment_ring_shape(a: Point, b: Point, h: int, s: int, e: int)
    requires
        a != b,
        a.y == b.y || a.x == b.x,
        segment_ring(a, b, h, s, e) is Some,
    ensures
        ({
            let r = segment_ring(a, b, h, s, e)->0;
            &&& r.len() == 4
            &&& if a.y == b.y {
                let d: int = if b.x > a.x { 1 } else { -1 };
                &&& r[0].x == a.x - d * s && r[3].x == a.x - d * s
                &&& r[1].x == b.x + d * e && r[2].x == b.x + d * e
                &&& r[0].y == a.y - h && r[1].y == a.y - h
                &&& r[2].y == a.y + h && r[3].y == a.y + h
            } else {
                let d: int = if b.y > a.y { 1 } else { -1 };
                &&& a.x == b.x
                &&& r[0].y == a.y - d * s && r[1].y == a.y - d * s
                &&& r[2].y == b.y + d * e && r[3].y == b.y + d * e
                &&& r[0].x == a.x - h && r[3].x == a.x - h
                &&& r[1].x == a.x + h && r[2].x == a.x + h
            }
        }),
{
}

} // verus!
