//! Integer layout geometry: points, bounding boxes and a per-cell polygon store.
use vstd::prelude::*;

verus! {

/// A layout coordinate in database units.
#[derive(Clone, Copy, Debug, PartialEq, Eq, Structural)]
pub struct Point {
    pub x: i32,
    pub y: i32,
}

/// Axis-aligned box, `xmin <= xmax` and `ymin <= ymax` when well formed.
#[derive(Clone, Copy, Debug, PartialEq, Eq, Structural)]
pub struct Bbox {
    pub xmin: i32,
    pub ymin: i32,
    pub xmax: i32,
    pub ymax: i32,
}

impl Bbox {
    pub open spec fn wf(self) -> bool {
        self.xmin <= self.xmax && self.ymin <= self.ymax
    }

    pub open spec fn overlaps_spec(self, o: Bbox) -> bool {
        self.xmin < o.xmax && o.xmin < self.xmax && self.ymin < o.ymax && o.ymin < self.ymax
    }

    /// Whether the point lies in the half-open box `[xmin, xmax) x [ymin, ymax)`.
    pub open spec fn covers(self, x: int, y: int) -> bool {
        self.xmin <= x < self.xmax && self.ymin <= y < self.ymax
    }

    /// Width `xmax - xmin`; the box is assumed well formed and narrow enough.
    pub fn width(&self) -> (w: i32)
        requires
            i32::MIN <= self.xmax - self.xmin <= i32::MAX,
        ensures
            w == self.xmax - self.xmin,
    {
        self.xmax - self.xmin
    }

    /// Height `ymax - ymin`.
    pub fn height(&self) -> (h: i32)
        requires
            i32::MIN <= self.ymax - self.ymin <= i32::MAX,
        ensures
            h == self.ymax - self.ymin,
    {
        self.ymax - self.ymin
    }

    /// Interiors intersect.
    pub fn overlaps(&self, o: &Bbox) -> (r: bool)
        ensures
            r == self.overlaps_spec(*o),
    {
        self.xmin < o.xmax && o.xmin < self.xmax && self.ymin < o.ymax && o.ymin < self.ymax
    }
}

/// Polygons of one cell, each with its layer, bounding box and ring of
/// vertices; polygon `i` is the `i`-th entry of each vector.
pub struct GeometryStore {
    pub poly_layer: Vec<u32>,
    pub poly_bbox: Vec<Bbox>,
    pub poly_ring: Vec<Vec<Point>>,
}

/// The vertices of a rectangle, counter-clockwise from its lower left corner.
pub open spec fn rect_ring(x0: i32, y0: i32, x1: i32, y1: i32) -> Seq<Point> {
    seq![Point { x: x0, y: y0 }, Point { x: x1, y: y0 }, Point { x: x1, y: y1 }, Point { x: x0, y: y1 }]
}

impl GeometryStore {
    pub open spec fn wf(&self) -> bool {
        &&& self.poly_layer@.len() == self.poly_bbox@.len()
        &&& self.poly_ring@.len() == self.poly_layer@.len()
    }

    /// The ring of polygon `i`.
    pub open spec fn ring(&self, i: int) -> Seq<Point> {
        self.poly_ring@[i]@
    }

    /// Indices of the polygons on `layer`, ascending.
    pub open spec fn on_layer(layers: Seq<u32>, layer: u32) -> Seq<usize>
        decreases layers.len(),
    {
        if layers.len() == 0 {
            Seq::empty()
        } else {
            let prev = Self::on_layer(layers.drop_last(), layer);
            if layers.last() == layer {
                prev.push((layers.len() - 1) as usize)
            } else {
                prev
            }
        }
    }

    /// Every entry of `on_layer(layers, layer)` is the index of a polygon
    /// on `layer`, and the entries ascend.
    pub proof fn lemma_on_layer(layers: Seq<u32>, layer: u32)
        requires
            layers.len() <= usize::MAX,
        ensures
            forall|i: int| 0 <= i < Self::on_layer(layers, layer).len() ==>
                (#[trigger] Self::on_layer(layers, layer)[i]) < layers.len()
                && layers[Self::on_layer(layers, layer)[i] as int] == layer,
            forall|i: int, j: int| 0 <= i < j < Self::on_layer(layers, layer).len() ==>
                Self::on_layer(layers, layer)[i] < Self::on_layer(layers, layer)[j],
        decreases layers.len(),
    {
        if layers.len() > 0 {
            let init = layers.drop_last();
            Self::lemma_on_layer(init, layer);
            let prev = Self::on_layer(init, layer);
            let cur = Self::on_layer(layers, layer);
            if layers.last() == layer {
                assert(cur == prev.push((layers.len() - 1) as usize));
                assert(cur[prev.len() as int] == layers.len() - 1);
                assert forall|i: int| 0 <= i < cur.len() implies (#[trigger] cur[i]) < layers.len()
                    && layers[cur[i] as int] == layer by {
                    if i < prev.len() {
                        assert(cur[i] == prev[i]);
                        assert(layers[prev[i] as int] == init[prev[i] as int]);
                    }
                }
                assert forall|i: int, j: int| 0 <= i < j < cur.len() implies cur[i] < cur[j] by {
                    if j < prev.len() {
                        assert(cur[i] == prev[i] && cur[j] == prev[j]);
                    } else {
                        assert(cur[i] == prev[i]);
                        assert(prev[i] < init.len());
                    }
                }
            } else {
                assert(cur == prev);
                assert forall|i: int| 0 <= i < cur.len() implies (#[trigger] cur[i]) < layers.len()
                    && layers[cur[i] as int] == layer by {
                    assert(layers[prev[i] as int] == init[prev[i] as int]);
                }
            }
        }
    }

    pub fn new() -> (s: GeometryStore)
        ensures
            s.wf(),
            s.poly_layer@.len() == 0,
    {
        GeometryStore { poly_layer: Vec::new(), poly_bbox: Vec::new(), poly_ring: Vec::new() }
    }

    pub fn poly_count(&self) -> (n: usize)
        requires
            self.wf(),
        ensures
            n == self.poly_layer@.len(),
    {
        self.poly_layer.len()
    }

    /// Appends the rectangle with corner `(x, y)`, width `w` and height `h`.
    pub fn add_rect(&mut self, layer: u32, x: i32, y: i32, w: i32, h: i32)
        requires
            old(self).wf(),
            i32::MIN <= x + w <= i32::MAX,
            i32::MIN <= y + h <= i32::MAX,
        ensures
            final(self).wf(),
            final(self).poly_layer@ == old(self).poly_layer@.push(layer),
            final(self).poly_bbox@ == old(self).poly_bbox@.push(Bbox { xmin: x, ymin: y, xmax: (x + w) as i32, ymax: (y + h) as i32 }),
            final(self).poly_ring@.drop_last() == old(self).poly_ring@,
            final(self).ring(old(self).poly_ring@.len() as int) == rect_ring(x, y, (x + w) as i32, (y + h) as i32),
    {
        self.poly_layer.push(layer);
        self.poly_bbox.push(Bbox { xmin: x, ymin: y, xmax: x + w, ymax: y + h });
        let ring = vec![
            Point { x: x, y: y },
            Point { x: x + w, y: y },
            Point { x: x + w, y: y + h },
            Point { x: x, y: y + h },
        ];
        let ghost r0 = self.poly_ring@;
        self.poly_ring.push(ring);
        assert(self.poly_ring@.drop_last() =~= r0);
        assert(self.ring(r0.len() as int) =~= rect_ring(x, y, (x + w) as i32, (y + h) as i32));
    }

    /// Polygons on `layer`, in index order.
    pub fn polys_on_layer(&self, layer: u32) -> (r: Vec<usize>)
        ensures
            r@ == Self::on_layer(self.poly_layer@, layer),
    {
        let mut out: Vec<usize> = Vec::new();
        let mut i: usize = 0;
        while i < self.poly_layer.len()
            invariant
                i <= self.poly_layer@.len(),
                out@ == Self::on_layer(self.poly_layer@.take(i as int), layer),
            decreases self.poly_layer@.len() - i,
        {
            proof {
                assert(self.poly_layer@.take(i as int + 1).drop_last() =~= self.poly_layer@.take(i as int));
            }
            if self.poly_layer[i] == layer {
                out.push(i);
            }
            i = i + 1;
        }
        proof {
            assert(self.poly_layer@.take(self.poly_layer@.len() as int) =~= self.poly_layer@);
        }
        out
    }
}


// --- rings ---

/// Twice the signed area contribution of the edge `p -> q`.
pub open spec fn cross(p: Point, q: Point) -> int {
    p.x * q.y - q.x * p.y
}

/// Twice the signed area of the closed ring, summed over its first `n` edges.
pub open spec fn area2(r: Seq<Point>, n: int) -> int
    decreases n,
{
    if n <= 0 {
        0
    } else {
        area2(r, n - 1) + cross(r[n - 1], r[n % (r.len() as int)])
    }
}

/// A ring (closing vertex not repeated) that can stand for a polygon: at
/// least three vertices, no vertex equal to the next one (cyclically), and
/// non-zero area.
#[verifier::opaque]
pub open spec fn ring_valid(r: Seq<Point>) -> bool {
    &&& r.len() >= 3
    &&& forall|i: int| 0 <= i < r.len() ==> #[trigger] r[i] != r[(i + 1) % (r.len() as int)]
    &&& area2(r, r.len() as int) != 0
}

proof fn lemma_cross_bound(p: Point, q: Point)
    ensures
        -0x8000_0000_0000_0000int <= cross(p, q) <= 0x8000_0000_0000_0000int,
{
    let a = p.x as int;
    let b = q.y as int;
    let c = q.x as int;
    let d = p.y as int;
    assert(-0x4000_0000_0000_0000int <= a * b <= 0x4000_0000_0000_0000int) by (nonlinear_arith)
        requires
            -0x8000_0000int <= a <= 0x7fff_ffffint,
            -0x8000_0000int <= b <= 0x7fff_ffffint,
    ;
    assert(-0x4000_0000_0000_0000int <= c * d <= 0x4000_0000_0000_0000int) by (nonlinear_arith)
        requires
            -0x8000_0000int <= c <= 0x7fff_ffffint,
            -0x8000_0000int <= d <= 0x7fff_ffffint,
    ;
}

/// Some vertex of the ring equals the next one (cyclically).
pub open spec fn has_repeated_vertex(r: Seq<Point>) -> bool {
    exists|i: int| 0 <= i < r.len() && #[trigger] r[i] == r[(i + 1) % (r.len() as int)]
}

/// The defect that makes a ring invalid, in the order checked: too few
/// vertices, a repeated consecutive vertex, zero area.
pub open spec fn ring_defect(r: Seq<Point>) -> Option<Seq<char>> {
    if r.len() < 3 {
        Some("ring needs at least three vertices"@)
    } else if has_repeated_vertex(r) {
        Some("duplicate consecutive vertex"@)
    } else if area2(r, r.len() as int) == 0 {
        Some("ring has zero area"@)
    } else {
        None
    }
}

/// A ring is valid exactly when it has no defect.
pub proof fn lemma_ring_defect(r: Seq<Point>)
    ensures
        ring_valid(r) <==> ring_defect(r) is None,
{
    reveal(ring_valid);
}

/// Checks a ring, naming the first defect found.
pub fn check_ring(r: &Vec<Point>) -> (res: Result<(), String>)
    ensures
        res is Ok <==> ring_valid(r@),
        match ring_defect(r@) {
            None => res is Ok,
            Some(m) => res matches Err(x) && x@ == m,
        },
{
    proof {
        lemma_ring_defect(r@);
    }
    proof {
        reveal(ring_valid);
    }
    let n = r.len();
    if n < 3 {
        return Err(String::from_str("ring needs at least three vertices"));
    }
    let mut i: usize = 0;
    let mut sum: i128 = 0;
    while i < n
        invariant
            n == r@.len() >= 3,
            i <= n,
            forall|j: int| 0 <= j < i ==> #[trigger] r@[j] != r@[(j + 1) % (r@.len() as int)],
            sum == area2(r@, i as int),
            -(i as int) * 0x8000_0000_0000_0000int <= sum <= (i as int) * 0x8000_0000_0000_0000int,
        decreases n - i,
    {
        let p = r[i];
        let q = if i + 1 == n { r[0] } else { r[i + 1] };
        assert((i as int + 1) % (n as int) == (if i + 1 == n { 0int } else { i as int + 1 })) by (nonlinear_arith)
            requires
                i < n,
        ;
        assert(q == r@[(i as int + 1) % (r@.len() as int)]);
        if p.x == q.x && p.y == q.y {
            proof {
                reveal(ring_valid);
            }
            return Err(String::from_str("duplicate consecutive vertex"));
        }
        proof {
            lemma_cross_bound(p, q);
            assert((i as int + 1) * 0x8000_0000_0000_0000int <= 0x7fff_ffff_ffff_ffff_ffff_ffff_ffff_ffffint) by (nonlinear_arith)
                requires
                    i < n,
                    n <= usize::MAX,
                    usize::MAX <= 0xffff_ffff_ffff_ffff,
            ;
        }
        let a: i128 = p.x as i128;
        let b: i128 = q.y as i128;
        let e: i128 = q.x as i128;
        let d: i128 = p.y as i128;
        assert(-0x4000_0000_0000_0000int <= a * b <= 0x4000_0000_0000_0000int) by (nonlinear_arith)
            requires
                -0x8000_0000int <= a <= 0x7fff_ffffint,
                -0x8000_0000int <= b <= 0x7fff_ffffint,
        ;
        assert(-0x4000_0000_0000_0000int <= e * d <= 0x4000_0000_0000_0000int) by (nonlinear_arith)
            requires
                -0x8000_0000int <= e <= 0x7fff_ffffint,
                -0x8000_0000int <= d <= 0x7fff_ffffint,
        ;
        let c: i128 = a * b - e * d;
        assert(c == cross(p, q));
        assert(area2(r@, i as int + 1) == area2(r@, i as int) + cross(r@[i as int], r@[(i as int + 1) % (r@.len() as int)]));
        sum = sum + c;
        i = i + 1;
    }
    proof {
        reveal(ring_valid);
    }
    if sum == 0 {
        return Err(String::from_str("ring has zero area"));
    }
    Ok(())
}

/// Twice the signed area of a ring.
pub fn ring_area2(r: &Vec<Point>) -> (a: i128)
    ensures
        a == area2(r@, r@.len() as int),
{
    let n = r.len();
    let mut i: usize = 0;
    let mut sum: i128 = 0;
    while i < n
        invariant
            n == r@.len(),
            i <= n,
            sum == area2(r@, i as int),
            -(i as int) * 0x8000_0000_0000_0000int <= sum <= (i as int) * 0x8000_0000_0000_0000int,
        decreases n - i,
    {
        let p = r[i];
        let q = if i + 1 == n { r[0] } else { r[i + 1] };
        assert((i as int + 1) % (n as int) == (if i + 1 == n { 0int } else { i as int + 1 })) by (nonlinear_arith)
            requires
                i < n,
        ;
        assert(q == r@[(i as int + 1) % (r@.len() as int)]);
        proof {
            lemma_cross_bound(p, q);
            assert((i as int + 1) * 0x8000_0000_0000_0000int <= 0x7fff_ffff_ffff_ffff_ffff_ffff_ffff_ffffint) by (nonlinear_arith)
                requires
                    i < n,
                    n <= usize::MAX,
                    usize::MAX <= 0xffff_ffff_ffff_ffff,
            ;
        }
        let a: i128 = p.x as i128;
        let b: i128 = q.y as i128;
        let e: i128 = q.x as i128;
        let d: i128 = p.y as i128;
        assert(-0x4000_0000_0000_0000int <= a * b <= 0x4000_0000_0000_0000int) by (nonlinear_arith)
            requires
                -0x8000_0000int <= a <= 0x7fff_ffffint,
                -0x8000_0000int <= b <= 0x7fff_ffffint,
        ;
        assert(-0x4000_0000_0000_0000int <= e * d <= 0x4000_0000_0000_0000int) by (nonlinear_arith)
            requires
                -0x8000_0000int <= e <= 0x7fff_ffffint,
                -0x8000_0000int <= d <= 0x7fff_ffffint,
        ;
        let c: i128 = a * b - e * d;
        assert(c == cross(p, q));
        sum = sum + c;
        i = i + 1;
    }
    sum
}

} // verus!
