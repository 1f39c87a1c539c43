//! Derived layers: boolean operations on the bounding boxes of layer polygons.
//!
//! - `And(layers)`: the intersection of the regions of all the layers, as
//!   the pieces of each box of the first layer met with every overlapping box
//!   of each other layer;
//! - `Subtract { base, minus }`: base boxes minus every minus box;
//! - `Or(layers)`: every box of every listed layer.
use vstd::prelude::*;
use crate::geometry::{rect_ring, Bbox, GeometryStore, Point};
use crate::io::params::{names_of, LayerTable};

verus! {

/// How a derived layer is computed from named layers.
pub enum DerivedLayerOp {
    And(Vec<String>),
    Subtract { base: String, minus: String },
    Or(Vec<String>),
}

/// A named derived layer.
pub struct DerivedLayerSchema {
    pub name: String,
    pub op: DerivedLayerOp,
}

/// Width and height of the box are representable.
pub open spec fn fits(b: Bbox) -> bool {
    &&& i32::MIN <= b.xmax - b.xmin <= i32::MAX
    &&& i32::MIN <= b.ymax - b.ymin <= i32::MAX
}

pub open spec fn positive(b: Bbox) -> bool {
    b.xmax > b.xmin && b.ymax > b.ymin
}

pub open spec fn all_fit(s: Seq<Bbox>) -> bool {
    forall|i: int| 0 <= i < s.len() ==> fits(#[trigger] s[i])
}

// --- rectangle subtraction ---

/// Pieces of `r` outside `m`: `r` itself when the interiors do not meet,
/// otherwise the top, bottom, left and right strips that are non-empty.
pub open spec fn cut(r: Bbox, m: Bbox) -> Seq<Bbox> {
    let ox_min = if r.xmin >= m.xmin { r.xmin } else { m.xmin };
    let ox_max = if r.xmax <= m.xmax { r.xmax } else { m.xmax };
    let oy_min = if r.ymin >= m.ymin { r.ymin } else { m.ymin };
    let oy_max = if r.ymax <= m.ymax { r.ymax } else { m.ymax };
    if ox_min >= ox_max || oy_min >= oy_max {
        seq![r]
    } else {
        let top = if r.ymax > oy_max { seq![Bbox { xmin: r.xmin, ymin: oy_max, xmax: r.xmax, ymax: r.ymax }] } else { Seq::empty() };
        let bottom = if r.ymin < oy_min { seq![Bbox { xmin: r.xmin, ymin: r.ymin, xmax: r.xmax, ymax: oy_min }] } else { Seq::empty() };
        let left = if r.xmin < ox_min { seq![Bbox { xmin: r.xmin, ymin: oy_min, xmax: ox_min, ymax: oy_max }] } else { Seq::empty() };
        let right = if r.xmax > ox_max { seq![Bbox { xmin: ox_max, ymin: oy_min, xmax: r.xmax, ymax: oy_max }] } else { Seq::empty() };
        top + bottom + left + right
    }
}

/// `cut` applied to every rectangle, results concatenated in order.
pub open spec fn cut_all(rs: Seq<Bbox>, m: Bbox) -> Seq<Bbox>
    decreases rs.len(),
{
    if rs.len() == 0 {
        Seq::empty()
    } else {
        cut_all(rs.drop_last(), m) + cut(rs.last(), m)
    }
}

/// `base` minus the first `n` boxes of `minus`.
pub open spec fn subtract_spec(base: Bbox, minus: Seq<Bbox>, n: int) -> Seq<Bbox>
    decreases n,
{
    if n <= 0 {
        seq![base]
    } else {
        cut_all(subtract_spec(base, minus, n - 1), minus[n - 1])
    }
}

pub open spec fn covered_by_some(rs: Seq<Bbox>, x: int, y: int) -> bool {
    exists|i: int| 0 <= i < rs.len() && (#[trigger] rs[i]).covers(x, y)
}

proof fn lemma_cut_covers(r: Bbox, m: Bbox, x: int, y: int)
    ensures
        covered_by_some(cut(r, m), x, y) <==> (r.covers(x, y) && !m.covers(x, y)),
        forall|i: int| 0 <= i < cut(r, m).len() ==> #[trigger] cut(r, m)[i].covers(x, y) ==> r.covers(x, y),
{
    let c = cut(r, m);
    if r.covers(x, y) && !m.covers(x, y) {
        let ox_min = if r.xmin >= m.xmin { r.xmin } else { m.xmin };
        let ox_max = if r.xmax <= m.xmax { r.xmax } else { m.xmax };
        let oy_min = if r.ymin >= m.ymin { r.ymin } else { m.ymin };
        let oy_max = if r.ymax <= m.ymax { r.ymax } else { m.ymax };
        if ox_min >= ox_max || oy_min >= oy_max {
            assert(c[0].covers(x, y));
        } else {
            let top = if r.ymax > oy_max { seq![Bbox { xmin: r.xmin, ymin: oy_max, xmax: r.xmax, ymax: r.ymax }] } else { Seq::<Bbox>::empty() };
            let bottom = if r.ymin < oy_min { seq![Bbox { xmin: r.xmin, ymin: r.ymin, xmax: r.xmax, ymax: oy_min }] } else { Seq::<Bbox>::empty() };
            let left = if r.xmin < ox_min { seq![Bbox { xmin: r.xmin, ymin: oy_min, xmax: ox_min, ymax: oy_max }] } else { Seq::<Bbox>::empty() };
            let right = if r.xmax > ox_max { seq![Bbox { xmin: ox_max, ymin: oy_min, xmax: r.xmax, ymax: oy_max }] } else { Seq::<Bbox>::empty() };
            assert(c == top + bottom + left + right);
            if y >= oy_max {
                assert(c[0].covers(x, y));
            } else if y < oy_min {
                assert(c[top.len() as int].covers(x, y));
            } else if x < ox_min {
                assert(c[(top.len() + bottom.len()) as int].covers(x, y));
            } else {
                assert(c[(top.len() + bottom.len() + left.len()) as int].covers(x, y));
            }
        }
    }
}

proof fn lemma_cut_all_covers(rs: Seq<Bbox>, m: Bbox, x: int, y: int)
    ensures
        covered_by_some(cut_all(rs, m), x, y) <==> (covered_by_some(rs, x, y) && !m.covers(x, y)),
    decreases rs.len(),
{
    if rs.len() > 0 {
        let p = rs.drop_last();
        lemma_cut_all_covers(p, m, x, y);
        lemma_cut_covers(rs.last(), m, x, y);
        let a = cut_all(p, m);
        let b = cut(rs.last(), m);
        assert(cut_all(rs, m) == a + b);
        if covered_by_some(a + b, x, y) {
            let i = choose|i: int| 0 <= i < (a + b).len() && (#[trigger] (a + b)[i]).covers(x, y);
            if i < a.len() {
                assert(a[i].covers(x, y));
            } else {
                assert(b[i - a.len()].covers(x, y));
            }
            if !(covered_by_some(rs, x, y)) {
                if i >= a.len() {
                    assert(rs[rs.len() - 1].covers(x, y));
                } else {
                    let j = choose|j: int| 0 <= j < p.len() && (#[trigger] p[j]).covers(x, y);
                    assert(rs[j].covers(x, y));
                }
            }
        }
        if covered_by_some(rs, x, y) && !m.covers(x, y) {
            let j = choose|j: int| 0 <= j < rs.len() && (#[trigger] rs[j]).covers(x, y);
            if j < p.len() {
                assert(p[j].covers(x, y));
                let i = choose|i: int| 0 <= i < a.len() && (#[trigger] a[i]).covers(x, y);
                assert((a + b)[i].covers(x, y));
            } else {
                let i = choose|i: int| 0 <= i < b.len() && (#[trigger] b[i]).covers(x, y);
                assert((a + b)[a.len() + i].covers(x, y));
            }
        }
    }
}

/// Subtraction is exact on points: a point of the plane lies in one of the
/// remaining rectangles exactly when it lies in `base` and in none of the
/// subtracted boxes (boxes taken half-open).
pub proof fn lemma_subtract_exact(base: Bbox, minus: Seq<Bbox>, x: int, y: int)
    ensures
        covered_by_some(subtract_spec(base, minus, minus.len() as int), x, y)
            <==> (base.covers(x, y) && forall|k: int| 0 <= k < minus.len() ==> !(#[trigger] minus[k]).covers(x, y)),
{
    lemma_subtract_prefix(base, minus, minus.len() as int, x, y);
}

proof fn lemma_subtract_prefix(base: Bbox, minus: Seq<Bbox>, n: int, x: int, y: int)
    requires
        0 <= n <= minus.len(),
    ensures
        covered_by_some(subtract_spec(base, minus, n), x, y)
            <==> (base.covers(x, y) && forall|k: int| 0 <= k < n ==> !(#[trigger] minus[k]).covers(x, y)),
    decreases n,
{
    if n == 0 {
        let s = subtract_spec(base, minus, 0);
        if base.covers(x, y) {
            assert(s[0].covers(x, y));
        }
    } else {
        lemma_subtract_prefix(base, minus, n - 1, x, y);
        lemma_cut_all_covers(subtract_spec(base, minus, n - 1), minus[n - 1], x, y);
    }
}

proof fn lemma_cut_fits(r: Bbox, m: Bbox)
    requires
        fits(r),
    ensures
        all_fit(cut(r, m)),
{
}

proof fn lemma_cut_all_fits(rs: Seq<Bbox>, m: Bbox)
    requires
        all_fit(rs),
    ensures
        all_fit(cut_all(rs, m)),
    decreases rs.len(),
{
    if rs.len() > 0 {
        lemma_cut_all_fits(rs.drop_last(), m);
        lemma_cut_fits(rs.last(), m);
        let a = cut_all(rs.drop_last(), m);
        let b = cut(rs.last(), m);
        assert forall|i: int| 0 <= i < (a + b).len() implies fits(#[trigger] (a + b)[i]) by {
            if i < a.len() {
                assert((a + b)[i] == a[i]);
            } else {
                assert((a + b)[i] == b[i - a.len()]);
            }
        }
    }
}

proof fn lemma_subtract_fits(base: Bbox, minus: Seq<Bbox>, n: int)
    requires
        fits(base),
        0 <= n <= minus.len(),
    ensures
        all_fit(subtract_spec(base, minus, n)),
    decreases n,
{
    if n > 0 {
        lemma_subtract_fits(base, minus, n - 1);
        lemma_cut_all_fits(subtract_spec(base, minus, n - 1), minus[n - 1]);
    }
}

fn cut_exec(r: Bbox, m: Bbox, out: &mut Vec<Bbox>)
    ensures
        final(out)@ == old(out)@ + cut(r, m),
{
    let ox_min = if r.xmin >= m.xmin { r.xmin } else { m.xmin };
    let ox_max = if r.xmax <= m.xmax { r.xmax } else { m.xmax };
    let oy_min = if r.ymin >= m.ymin { r.ymin } else { m.ymin };
    let oy_max = if r.ymax <= m.ymax { r.ymax } else { m.ymax };
    if ox_min >= ox_max || oy_min >= oy_max {
        out.push(r);
        assert(out@ =~= old(out)@ + cut(r, m));
        return;
    }
    let ghost o = out@;
    if r.ymax > oy_max {
        out.push(Bbox { xmin: r.xmin, ymin: oy_max, xmax: r.xmax, ymax: r.ymax });
    }
    if r.ymin < oy_min {
        out.push(Bbox { xmin: r.xmin, ymin: r.ymin, xmax: r.xmax, ymax: oy_min });
    }
    if r.xmin < ox_min {
        out.push(Bbox { xmin: r.xmin, ymin: oy_min, xmax: ox_min, ymax: oy_max });
    }
    if r.xmax > ox_max {
        out.push(Bbox { xmin: ox_max, ymin: oy_min, xmax: r.xmax, ymax: oy_max });
    }
    assert(out@ =~= o + cut(r, m));
}

/// The parts of `base` outside every box of `minus`, as rectangles.
pub fn subtract_bbox(base: Bbox, minus: &Vec<Bbox>) -> (r: Vec<Bbox>)
    ensures
        r@ == subtract_spec(base, minus@, minus@.len() as int),
{
    let mut rects: Vec<Bbox> = Vec::new();
    rects.push(base);
    let mut k: usize = 0;
    while k < minus.len()
        invariant
            k <= minus@.len(),
            rects@ == subtract_spec(base, minus@, k as int),
        decreases minus@.len() - k,
    {
        let m = minus[k];
        let mut next: Vec<Bbox> = Vec::new();
        let mut i: usize = 0;
        while i < rects.len()
            invariant
                i <= rects@.len(),
                next@ == cut_all(rects@.take(i as int), m),
            decreases rects@.len() - i,
        {
            proof {
                assert(rects@.take(i as int + 1).drop_last() =~= rects@.take(i as int));
            }
            cut_exec(rects[i], m, &mut next);
            i = i + 1;
        }
        proof {
            assert(rects@.take(rects@.len() as int) =~= rects@);
        }
        rects = next;
        k = k + 1;
    }
    rects
}


// --- layer resolution ---

/// Last position below `n` holding `name`.
pub open spec fn last_name(names: Seq<Seq<char>>, name: Seq<char>, n: int) -> Option<int>
    decreases n,
{
    if n <= 0 {
        None
    } else if names[n - 1] == name {
        Some(n - 1)
    } else {
        last_name(names, name, n - 1)
    }
}

/// Layer id of `name`: a deck layer, else the latest derived layer of that
/// name (derived layer `k` has id `deck.len() + k`).
pub open spec fn resolve(deck: Seq<Seq<char>>, derived: Seq<Seq<char>>, name: Seq<char>) -> Option<int> {
    match last_name(deck, name, deck.len() as int) {
        Some(i) => Some(i),
        None => match last_name(derived, name, derived.len() as int) {
            Some(k) => Some(deck.len() + k),
            None => None,
        },
    }
}

/// Ids of the resolvable names among the first `n`, in order.
pub open spec fn resolve_list(deck: Seq<Seq<char>>, derived: Seq<Seq<char>>, names: Seq<String>, n: int) -> Seq<u32>
    decreases n,
{
    if n <= 0 {
        Seq::empty()
    } else {
        let prev = resolve_list(deck, derived, names, n - 1);
        match resolve(deck, derived, names[n - 1]@) {
            Some(id) => prev.push(id as u32),
            None => prev,
        }
    }
}

proof fn lemma_last_name_range(names: Seq<Seq<char>>, name: Seq<char>, n: int)
    ensures
        last_name(names, name, n) matches Some(k) ==> 0 <= k < n && names[k] == name,
        last_name(names, name, n) is None ==> forall|j: int| 0 <= j < n ==> names[j] != name,
    decreases n,
{
    if n > 0 {
        lemma_last_name_range(names, name, n - 1);
    }
}

proof fn lemma_last_name_unique(names: Seq<Seq<char>>, name: Seq<char>, k: int)
    requires
        names.no_duplicates(),
        0 <= k < names.len(),
        names[k] == name,
    ensures
        last_name(names, name, names.len() as int) == Some(k),
{
    lemma_last_name_from(names, name, k, names.len() as int);
}

proof fn lemma_last_name_from(names: Seq<Seq<char>>, name: Seq<char>, k: int, n: int)
    requires
        names.no_duplicates(),
        0 <= k < n <= names.len(),
        names[k] == name,
    ensures
        last_name(names, name, n) == Some(k),
    decreases n,
{
    if n - 1 != k {
        assert(names[n - 1] != names[k]);
        lemma_last_name_from(names, name, k, n - 1);
    }
}

fn find_derived(dnames: &Vec<String>, name: &String) -> (r: Option<usize>)
    ensures
        r matches Some(k) ==> last_name(names_of(dnames@), name@, dnames@.len() as int) == Some(k as int),
        r is None ==> last_name(names_of(dnames@), name@, dnames@.len() as int) is None,
{
    let mut n = dnames.len();
    while n > 0
        invariant
            n <= dnames@.len(),
            last_name(names_of(dnames@), name@, dnames@.len() as int) == last_name(names_of(dnames@), name@, n as int),
        decreases n,
    {
        if dnames[n - 1] == *name {
            return Some(n - 1);
        }
        n = n - 1;
    }
    None
}

fn resolve_exec(lt: &LayerTable, dnames: &Vec<String>, name: &String) -> (r: Option<u32>)
    requires
        lt.wf(),
        lt.id_to_name@.len() + dnames@.len() <= u32::MAX,
    ensures
        r matches Some(id) ==> resolve(names_of(lt.id_to_name@), names_of(dnames@), name@) == Some(id as int),
        r is None ==> resolve(names_of(lt.id_to_name@), names_of(dnames@), name@) is None,
{
    let ghost deck = names_of(lt.id_to_name@);
    match lt.id(name) {
        Some(k) => {
            proof {
                assert(deck[k as int] == name@);
                lemma_last_name_unique(deck, name@, k as int);
            }
            Some(k)
        },
        None => {
            proof {
                lemma_last_name_range(deck, name@, deck.len() as int);
                if last_name(deck, name@, deck.len() as int) is Some {
                    let k = last_name(deck, name@, deck.len() as int)->0;
                    assert(deck[k] == name@);
                    assert(deck.contains(name@));
                }
            }
            proof {
                lemma_last_name_range(names_of(dnames@), name@, dnames@.len() as int);
            }
            match find_derived(dnames, name) {
                Some(k) => Some((lt.id_to_name.len() + k) as u32),
                None => None,
            }
        },
    }
}

fn resolve_names(lt: &LayerTable, dnames: &Vec<String>, names: &Vec<String>) -> (r: Vec<u32>)
    requires
        lt.wf(),
        lt.id_to_name@.len() + dnames@.len() <= u32::MAX,
    ensures
        r@ == resolve_list(names_of(lt.id_to_name@), names_of(dnames@), names@, names@.len() as int),
{
    let mut out: Vec<u32> = Vec::new();
    let mut i: usize = 0;
    while i < names.len()
        invariant
            lt.wf(),
            lt.id_to_name@.len() + dnames@.len() <= u32::MAX,
            i <= names@.len(),
            out@ == resolve_list(names_of(lt.id_to_name@), names_of(dnames@), names@, i as int),
        decreases names@.len() - i,
    {
        match resolve_exec(lt, dnames, &names[i]) {
            Some(id) => out.push(id),
            None => {},
        }
        i = i + 1;
    }
    out
}

// --- store state ---

/// Boxes of the first `n` polygons that lie on layer `l`, in order.
pub open spec fn boxes_on(lay: Seq<u32>, bx: Seq<Bbox>, l: u32, n: int) -> Seq<Bbox>
    decreases n,
{
    if n <= 0 {
        Seq::empty()
    } else {
        let prev = boxes_on(lay, bx, l, n - 1);
        if lay[n - 1] == l {
            prev.push(bx[n - 1])
        } else {
            prev
        }
    }
}

pub open spec fn layer_boxes(lay: Seq<u32>, bx: Seq<Bbox>, l: u32) -> Seq<Bbox> {
    boxes_on(lay, bx, l, lay.len() as int)
}

proof fn lemma_boxes_on_fit(lay: Seq<u32>, bx: Seq<Bbox>, l: u32, n: int)
    requires
        0 <= n <= lay.len() == bx.len(),
        all_fit(bx),
    ensures
        all_fit(boxes_on(lay, bx, l, n)),
    decreases n,
{
    if n > 0 {
        lemma_boxes_on_fit(lay, bx, l, n - 1);
    }
}

proof fn lemma_boxes_on_prefix(lay: Seq<u32>, bx: Seq<Bbox>, lay2: Seq<u32>, bx2: Seq<Bbox>, l: u32, n: int)
    requires
        0 <= n <= lay.len(),
        n <= lay2.len(),
        n <= bx.len(),
        n <= bx2.len(),
        lay.take(n) == lay2.take(n),
        bx.take(n) == bx2.take(n),
    ensures
        boxes_on(lay, bx, l, n) == boxes_on(lay2, bx2, l, n),
    decreases n,
{
    if n > 0 {
        assert(lay.take(n - 1) =~= lay.take(n).take(n - 1));
        assert(lay2.take(n - 1) =~= lay2.take(n).take(n - 1));
        assert(bx.take(n - 1) =~= bx.take(n).take(n - 1));
        assert(bx2.take(n - 1) =~= bx2.take(n).take(n - 1));
        assert(lay[n - 1] == lay.take(n)[n - 1]);
        assert(lay2[n - 1] == lay2.take(n)[n - 1]);
        assert(bx[n - 1] == bx.take(n)[n - 1]);
        assert(bx2[n - 1] == bx2.take(n)[n - 1]);
        lemma_boxes_on_prefix(lay, bx, lay2, bx2, l, n - 1);
    }
}

fn layer_boxes_exec(store: &GeometryStore, l: u32) -> (r: Vec<Bbox>)
    requires
        store.wf(),
    ensures
        r@ == layer_boxes(store.poly_layer@, store.poly_bbox@, l),
{
    let mut out: Vec<Bbox> = Vec::new();
    let mut i: usize = 0;
    while i < store.poly_layer.len()
        invariant
            store.wf(),
            i <= store.poly_layer@.len(),
            out@ == boxes_on(store.poly_layer@, store.poly_bbox@, l, i as int),
        decreases store.poly_layer@.len() - i,
    {
        if store.poly_layer[i] == l {
            out.push(store.poly_bbox[i]);
        }
        i = i + 1;
    }
    out
}

// --- And ---

pub open spec fn meet(a: Bbox, b: Bbox) -> Bbox {
    Bbox {
        xmin: if a.xmin >= b.xmin { a.xmin } else { b.xmin },
        ymin: if a.ymin >= b.ymin { a.ymin } else { b.ymin },
        xmax: if a.xmax <= b.xmax { a.xmax } else { b.xmax },
        ymax: if a.ymax <= b.ymax { a.ymax } else { b.ymax },
    }
}

/// `r` met with each box of `bs` whose interior meets it, in order.
pub open spec fn clip_one(r: Bbox, bs: Seq<Bbox>) -> Seq<Bbox>
    decreases bs.len(),
{
    if bs.len() == 0 {
        Seq::empty()
    } else {
        let prev = clip_one(r, bs.drop_last());
        if bs.last().overlaps_spec(r) { prev.push(meet(r, bs.last())) } else { prev }
    }
}

/// Each piece of `rs` met with each box of `bs` that it overlaps: the
/// pieces of the intersection of the region of `rs` with that of `bs`.
pub open spec fn clip_all(rs: Seq<Bbox>, bs: Seq<Bbox>) -> Seq<Bbox>
    decreases rs.len(),
{
    if rs.len() == 0 {
        Seq::empty()
    } else {
        clip_all(rs.drop_last(), bs) + clip_one(rs.last(), bs)
    }
}

/// The pieces of `rs` intersected with the region of every layer of `rest`.
pub open spec fn and_pieces(lay: Seq<u32>, bx: Seq<Bbox>, rest: Seq<u32>, rs: Seq<Bbox>) -> Seq<Bbox>
    decreases rest.len(),
{
    if rest.len() == 0 {
        rs
    } else {
        and_pieces(lay, bx, rest.drop_first(), clip_all(rs, layer_boxes(lay, bx, rest[0])))
    }
}

/// Store after the `And` step has visited the first `n` base boxes: each
/// base box adds its positive pieces inside the regions of all `rest` layers.
pub open spec fn and_steps(lay: Seq<u32>, bx: Seq<Bbox>, lid: u32, bases: Seq<Bbox>, rest: Seq<u32>, n: int) -> (Seq<u32>, Seq<Bbox>)
    decreases n,
{
    if n <= 0 {
        (lay, bx)
    } else {
        let (l, b) = and_steps(lay, bx, lid, bases, rest, n - 1);
        let added = positive_only(and_pieces(l, b, rest, seq![bases[n - 1]]));
        (l + Seq::new(added.len(), |i: int| lid), b + added)
    }
}

/// `c` lies inside `r`.
pub open spec fn inside(c: Bbox, r: Bbox) -> bool {
    r.xmin <= c.xmin && c.xmax <= r.xmax && r.ymin <= c.ymin && c.ymax <= r.ymax
}

pub open spec fn all_inside(s: Seq<Bbox>, r: Bbox) -> bool {
    forall|i: int| 0 <= i < s.len() ==> inside(#[trigger] s[i], r)
}

proof fn lemma_clip_one_inside(r: Bbox, bs: Seq<Bbox>, big: Bbox)
    requires
        inside(r, big),
    ensures
        all_inside(clip_one(r, bs), big),
    decreases bs.len(),
{
    if bs.len() > 0 {
        lemma_clip_one_inside(r, bs.drop_last(), big);
    }
}

proof fn lemma_clip_all_inside(rs: Seq<Bbox>, bs: Seq<Bbox>, big: Bbox)
    requires
        all_inside(rs, big),
    ensures
        all_inside(clip_all(rs, bs), big),
    decreases rs.len(),
{
    if rs.len() > 0 {
        lemma_clip_all_inside(rs.drop_last(), bs, big);
        lemma_clip_one_inside(rs.last(), bs, big);
        let a = clip_all(rs.drop_last(), bs);
        let c = clip_one(rs.last(), bs);
        assert forall|i: int| 0 <= i < (a + c).len() implies inside(#[trigger] (a + c)[i], big) by {
            if i < a.len() {
                assert((a + c)[i] == a[i]);
            } else {
                assert((a + c)[i] == c[i - a.len()]);
            }
        }
    }
}

proof fn lemma_and_pieces_inside(lay: Seq<u32>, bx: Seq<Bbox>, rest: Seq<u32>, rs: Seq<Bbox>, big: Bbox)
    requires
        all_inside(rs, big),
    ensures
        all_inside(and_pieces(lay, bx, rest, rs), big),
    decreases rest.len(),
{
    if rest.len() > 0 {
        lemma_clip_all_inside(rs, layer_boxes(lay, bx, rest[0]), big);
        lemma_and_pieces_inside(lay, bx, rest.drop_first(), clip_all(rs, layer_boxes(lay, bx, rest[0])), big);
    }
}

proof fn lemma_clip_one_covers(r: Bbox, bs: Seq<Bbox>, x: int, y: int)
    ensures
        covered_by_some(clip_one(r, bs), x, y) <==> (r.covers(x, y) && covered_by_some(bs, x, y)),
    decreases bs.len(),
{
    if bs.len() > 0 {
        let t = bs.drop_last();
        let c = bs.last();
        lemma_clip_one_covers(r, t, x, y);
        let prev = clip_one(r, t);
        let cur = clip_one(r, bs);
        if covered_by_some(prev, x, y) {
            let i = choose|i: int| 0 <= i < prev.len() && (#[trigger] prev[i]).covers(x, y);
            assert(cur[i] == prev[i]);
            let j = choose|j: int| 0 <= j < t.len() && (#[trigger] t[j]).covers(x, y);
            assert(bs[j] == t[j]);
        }
        if r.covers(x, y) && c.covers(x, y) {
            assert(c.overlaps_spec(r));
            assert(cur[prev.len() as int] == meet(r, c));
        }
        if covered_by_some(cur, x, y) {
            let i = choose|i: int| 0 <= i < cur.len() && (#[trigger] cur[i]).covers(x, y);
            if i < prev.len() {
                assert(cur[i] == prev[i]);
            } else {
                assert(cur[i] == meet(r, c));
                assert(bs[bs.len() - 1] == c);
            }
        }
        if r.covers(x, y) && covered_by_some(bs, x, y) && !c.covers(x, y) {
            let j = choose|j: int| 0 <= j < bs.len() && (#[trigger] bs[j]).covers(x, y);
            assert(t[j] == bs[j]);
        }
    }
}

proof fn lemma_clip_all_covers(rs: Seq<Bbox>, bs: Seq<Bbox>, x: int, y: int)
    ensures
        covered_by_some(clip_all(rs, bs), x, y) <==> (covered_by_some(rs, x, y) && covered_by_some(bs, x, y)),
    decreases rs.len(),
{
    if rs.len() > 0 {
        let t = rs.drop_last();
        let r = rs.last();
        lemma_clip_all_covers(t, bs, x, y);
        lemma_clip_one_covers(r, bs, x, y);
        let a = clip_all(t, bs);
        let c = clip_one(r, bs);
        if covered_by_some(a + c, x, y) {
            let i = choose|i: int| 0 <= i < (a + c).len() && (#[trigger] (a + c)[i]).covers(x, y);
            if i < a.len() {
                assert((a + c)[i] == a[i]);
                let j = choose|j: int| 0 <= j < t.len() && (#[trigger] t[j]).covers(x, y);
                assert(rs[j] == t[j]);
            } else {
                assert((a + c)[i] == c[i - a.len()]);
                assert(rs[rs.len() - 1] == r);
            }
        }
        if covered_by_some(rs, x, y) && covered_by_some(bs, x, y) {
            let j = choose|j: int| 0 <= j < rs.len() && (#[trigger] rs[j]).covers(x, y);
            if j < t.len() {
                assert(t[j] == rs[j]);
                let i = choose|i: int| 0 <= i < a.len() && (#[trigger] a[i]).covers(x, y);
                assert((a + c)[i] == a[i]);
            } else {
                let i = choose|i: int| 0 <= i < c.len() && (#[trigger] c[i]).covers(x, y);
                assert((a + c)[a.len() + i] == c[i]);
            }
        }
    }
}

/// `And` is exact on points: a point lies in one of the pieces exactly when
/// it lies in one of the starting pieces and in some box of every layer of
/// `rest` (boxes taken half-open).
pub proof fn lemma_and_pieces_exact(lay: Seq<u32>, bx: Seq<Bbox>, rest: Seq<u32>, rs: Seq<Bbox>, x: int, y: int)
    ensures
        covered_by_some(and_pieces(lay, bx, rest, rs), x, y) <==> (covered_by_some(rs, x, y)
            && forall|k: int| 0 <= k < rest.len() ==> covered_by_some(#[trigger] layer_boxes(lay, bx, rest[k]), x, y)),
    decreases rest.len(),
{
    if rest.len() > 0 {
        let next = clip_all(rs, layer_boxes(lay, bx, rest[0]));
        lemma_clip_all_covers(rs, layer_boxes(lay, bx, rest[0]), x, y);
        lemma_and_pieces_exact(lay, bx, rest.drop_first(), next, x, y);
        let t = rest.drop_first();
        assert forall|k: int| 0 <= k < t.len() implies #[trigger] layer_boxes(lay, bx, t[k]) == layer_boxes(lay, bx, rest[k + 1]) by {}
        if covered_by_some(rs, x, y) && forall|k: int| 0 <= k < rest.len() ==> covered_by_some(#[trigger] layer_boxes(lay, bx, rest[k]), x, y) {
            assert(covered_by_some(layer_boxes(lay, bx, rest[0]), x, y));
            assert forall|k: int| 0 <= k < t.len() implies covered_by_some(#[trigger] layer_boxes(lay, bx, t[k]), x, y) by {
                assert(t[k] == rest[k + 1]);
                assert(covered_by_some(layer_boxes(lay, bx, rest[k + 1]), x, y));
            }
        }
        if covered_by_some(and_pieces(lay, bx, rest, rs), x, y) {
            assert forall|k: int| 0 <= k < rest.len() implies covered_by_some(#[trigger] layer_boxes(lay, bx, rest[k]), x, y) by {
                if k > 0 {
                    assert(t[k - 1] == rest[k]);
                    assert(covered_by_some(layer_boxes(lay, bx, t[k - 1]), x, y));
                }
            }
        }
    }
}

fn meet_exec(r: Bbox, o: Bbox) -> (m: Bbox)
    ensures
        m == meet(r, o),
{
    Bbox {
        xmin: if r.xmin >= o.xmin { r.xmin } else { o.xmin },
        ymin: if r.ymin >= o.ymin { r.ymin } else { o.ymin },
        xmax: if r.xmax <= o.xmax { r.xmax } else { o.xmax },
        ymax: if r.ymax <= o.ymax { r.ymax } else { o.ymax },
    }
}

fn clip_one_exec(r: Bbox, bs: &Vec<Bbox>, out: &mut Vec<Bbox>)
    ensures
        final(out)@ == old(out)@ + clip_one(r, bs@),
{
    let mut j: usize = 0;
    assert(bs@.take(0) =~= Seq::<Bbox>::empty());
    assert(out@ =~= old(out)@ + clip_one(r, bs@.take(0)));
    while j < bs.len()
        invariant
            j <= bs@.len(),
            out@ == old(out)@ + clip_one(r, bs@.take(j as int)),
        decreases bs@.len() - j,
    {
        proof {
            assert(bs@.take(j as int + 1).drop_last() =~= bs@.take(j as int));
            assert(bs@.take(j as int + 1).last() == bs@[j as int]);
        }
        if bs[j].overlaps(&r) {
            out.push(meet_exec(r, bs[j]));
        }
        assert(out@ =~= old(out)@ + clip_one(r, bs@.take(j as int + 1)));
        j = j + 1;
    }
    assert(bs@.take(bs@.len() as int) =~= bs@);
}

fn clip_all_exec(rs: &Vec<Bbox>, bs: &Vec<Bbox>) -> (o: Vec<Bbox>)
    ensures
        o@ == clip_all(rs@, bs@),
{
    let mut o: Vec<Bbox> = Vec::new();
    let mut i: usize = 0;
    assert(rs@.take(0) =~= Seq::<Bbox>::empty());
    while i < rs.len()
        invariant
            i <= rs@.len(),
            o@ == clip_all(rs@.take(i as int), bs@),
        decreases rs@.len() - i,
    {
        proof {
            assert(rs@.take(i as int + 1).drop_last() =~= rs@.take(i as int));
            assert(rs@.take(i as int + 1).last() == rs@[i as int]);
        }
        clip_one_exec(rs[i], bs, &mut o);
        i = i + 1;
    }
    assert(rs@.take(rs@.len() as int) =~= rs@);
    o
}

fn and_pieces_exec(store: &GeometryStore, layers: &Vec<u32>, r0: Bbox) -> (o: Vec<Bbox>)
    requires
        store.wf(),
        layers@.len() > 0,
    ensures
        o@ == and_pieces(store.poly_layer@, store.poly_bbox@, layers@.drop_first(), seq![r0]),
{
    let ghost lay = store.poly_layer@;
    let ghost bx = store.poly_bbox@;
    let mut rs: Vec<Bbox> = vec![r0];
    let mut k: usize = 1;
    assert(layers@.drop_first() =~= layers@.skip(1));
    assert(rs@ =~= seq![r0]);
    while k < layers.len()
        invariant
            store.wf(),
            1 <= k <= layers@.len(),
            and_pieces(lay, bx, layers@.drop_first(), seq![r0]) == and_pieces(lay, bx, layers@.skip(k as int), rs@),
            lay == store.poly_layer@,
            bx == store.poly_bbox@,
        decreases layers@.len() - k,
    {
        let bs = layer_boxes_exec(store, layers[k]);
        proof {
            assert(layers@.skip(k as int).drop_first() =~= layers@.skip(k as int + 1));
            assert(layers@.skip(k as int)[0] == layers@[k as int]);
        }
        rs = clip_all_exec(&rs, &bs);
        k = k + 1;
    }
    proof {
        assert(layers@.skip(k as int).len() == 0);
    }
    rs
}

// --- Subtract and Or ---

/// Positive-area rectangles of `s`, in order.
pub open spec fn positive_only(s: Seq<Bbox>) -> Seq<Bbox>
    decreases s.len(),
{
    if s.len() == 0 {
        s
    } else {
        let prev = positive_only(s.drop_last());
        if positive(s.last()) { prev.push(s.last()) } else { prev }
    }
}

/// Boxes added by `Subtract` for the first `n` base boxes.
pub open spec fn subtract_added(bases: Seq<Bbox>, minus: Seq<Bbox>, n: int) -> Seq<Bbox>
    decreases n,
{
    if n <= 0 {
        Seq::empty()
    } else {
        subtract_added(bases, minus, n - 1) + positive_only(subtract_spec(bases[n - 1], minus, minus.len() as int))
    }
}

/// Boxes added by `Or`: every box of the first `n` layers, layer by layer.
pub open spec fn or_added(lay: Seq<u32>, bx: Seq<Bbox>, layers: Seq<u32>, n: int) -> Seq<Bbox>
    decreases n,
{
    if n <= 0 {
        Seq::empty()
    } else {
        or_added(lay, bx, layers, n - 1) + layer_boxes(lay, bx, layers[n - 1])
    }
}

/// Store after evaluating one derived layer with id `lid`; `dnames` are the
/// names of the derived layers up to and including this one.
pub open spec fn op_step(lay: Seq<u32>, bx: Seq<Bbox>, deck: Seq<Seq<char>>, dnames: Seq<Seq<char>>, lid: u32, op: DerivedLayerOp) -> (Seq<u32>, Seq<Bbox>) {
    match op {
        DerivedLayerOp::And(ns) => {
            let layers = resolve_list(deck, dnames, ns@, ns@.len() as int);
            if layers.len() == 0 {
                (lay, bx)
            } else {
                let bases = layer_boxes(lay, bx, layers[0]);
                and_steps(lay, bx, lid, bases, layers.drop_first(), bases.len() as int)
            }
        },
        DerivedLayerOp::Subtract { base, minus } => {
            match (resolve(deck, dnames, base@), resolve(deck, dnames, minus@)) {
                (Some(b), Some(m)) => {
                    let added = subtract_added(layer_boxes(lay, bx, b as u32), layer_boxes(lay, bx, m as u32),
                        layer_boxes(lay, bx, b as u32).len() as int);
                    (lay + Seq::new(added.len(), |i: int| lid), bx + added)
                },
                _ => (lay, bx),
            }
        },
        DerivedLayerOp::Or(ns) => {
            let layers = resolve_list(deck, dnames, ns@, ns@.len() as int);
            let added = or_added(lay, bx, layers, layers.len() as int);
            (lay + Seq::new(added.len(), |i: int| lid), bx + added)
        },
    }
}

pub open spec fn derived_names(derived: Seq<DerivedLayerSchema>) -> Seq<Seq<char>> {
    derived.map_values(|d: DerivedLayerSchema| d.name@)
}

/// Store after evaluating the first `n` derived layers.
pub open spec fn eval_steps(lay: Seq<u32>, bx: Seq<Bbox>, deck: Seq<Seq<char>>, derived: Seq<DerivedLayerSchema>, n: int) -> (Seq<u32>, Seq<Bbox>)
    decreases n,
{
    if n <= 0 {
        (lay, bx)
    } else {
        let (l, b) = eval_steps(lay, bx, deck, derived, n - 1);
        op_step(l, b, deck, derived_names(derived).take(n), (deck.len() + n - 1) as u32, derived[n - 1].op)
    }
}


proof fn lemma_positive_only_fits(s: Seq<Bbox>)
    requires
        all_fit(s),
    ensures
        all_fit(positive_only(s)),
        forall|i: int| 0 <= i < positive_only(s).len() ==> positive(#[trigger] positive_only(s)[i]),
    decreases s.len(),
{
    if s.len() > 0 {
        lemma_positive_only_fits(s.drop_last());
    }
}

/// The rectangle ring of a box, counter-clockwise from its lower left corner.
pub open spec fn box_ring(b: Bbox) -> Seq<Point> {
    rect_ring(b.xmin, b.ymin, b.xmax, b.ymax)
}

/// `after` keeps every polygon of `before` (ring and box), and each polygon
/// added after them is the rectangle of its box.
pub open spec fn extends_with_boxes(before: GeometryStore, after: GeometryStore) -> bool {
    &&& before.poly_ring@.len() <= after.poly_ring@.len()
    &&& before.poly_bbox@.len() <= after.poly_bbox@.len()
    &&& forall|i: int| 0 <= i < before.poly_bbox@.len() ==> #[trigger] after.poly_bbox@[i] == before.poly_bbox@[i]
    &&& forall|i: int| 0 <= i < before.poly_ring@.len() ==> #[trigger] after.ring(i) == before.ring(i)
    &&& forall|i: int| before.poly_ring@.len() <= i < after.poly_ring@.len() ==> #[trigger] after.ring(i) == box_ring(after.poly_bbox@[i])
}

proof fn lemma_extends_refl(s: GeometryStore)
    ensures
        extends_with_boxes(s, s),
{
}

proof fn lemma_extends_trans(a: GeometryStore, b: GeometryStore, c: GeometryStore)
    requires
        extends_with_boxes(a, b),
        extends_with_boxes(b, c),
        b.wf(),
    ensures
        extends_with_boxes(a, c),
{
    assert forall|i: int| a.poly_ring@.len() <= i < c.poly_ring@.len() implies #[trigger] c.ring(i) == box_ring(c.poly_bbox@[i]) by {
        if i < b.poly_ring@.len() {
            assert(c.ring(i) == b.ring(i));
            assert(c.poly_bbox@[i] == b.poly_bbox@[i]);
        }
    }
    assert forall|i: int| 0 <= i < a.poly_ring@.len() implies #[trigger] c.ring(i) == a.ring(i) by {
        assert(c.ring(i) == b.ring(i));
    }
    assert forall|i: int| 0 <= i < a.poly_bbox@.len() implies #[trigger] c.poly_bbox@[i] == a.poly_bbox@[i] by {
        assert(c.poly_bbox@[i] == b.poly_bbox@[i]);
    }
}

fn add_box(store: &mut GeometryStore, lid: u32, r: Bbox)
    requires
        old(store).wf(),
        fits(r),
    ensures
        final(store).wf(),
        final(store).poly_layer@ == old(store).poly_layer@.push(lid),
        final(store).poly_bbox@ == old(store).poly_bbox@.push(r),
        extends_with_boxes(*old(store), *final(store)),
{
    let w = r.width();
    let h = r.height();
    store.add_rect(lid, r.xmin, r.ymin, w, h);
    assert(store.poly_bbox@.last() == r);
    assert(store.poly_bbox@ =~= old(store).poly_bbox@.push(r));
    proof {
        let n = old(store).poly_ring@.len() as int;
        assert forall|i: int| 0 <= i < n implies #[trigger] store.ring(i) == old(store).ring(i) by {
            assert(store.poly_ring@.drop_last()[i] == store.poly_ring@[i]);
        }
        assert(store.ring(n) == box_ring(store.poly_bbox@[n]));
    }
}

fn and_op(store: &mut GeometryStore, layers: &Vec<u32>, lid: u32)
    requires
        old(store).wf(),
        all_fit(old(store).poly_bbox@),
        layers@.len() > 0,
    ensures
        final(store).wf(),
        all_fit(final(store).poly_bbox@),
        (final(store).poly_layer@, final(store).poly_bbox@) == and_steps(old(store).poly_layer@, old(store).poly_bbox@, lid,
            layer_boxes(old(store).poly_layer@, old(store).poly_bbox@, layers@[0]), layers@.drop_first(),
            layer_boxes(old(store).poly_layer@, old(store).poly_bbox@, layers@[0]).len() as int),
        extends_with_boxes(*old(store), *final(store)),
{
    proof {
        lemma_extends_refl(*store);
    }
    let ghost lay0 = store.poly_layer@;
    let ghost bx0 = store.poly_bbox@;
    let bases = layer_boxes_exec(store, layers[0]);
    proof {
        lemma_boxes_on_fit(lay0, bx0, layers@[0], lay0.len() as int);
    }
    let mut i: usize = 0;
    while i < bases.len()
        invariant
            store.wf(),
            all_fit(store.poly_bbox@),
            all_fit(bases@),
            layers@.len() > 0,
            i <= bases@.len(),
            bases@ == layer_boxes(lay0, bx0, layers@[0]),
            (store.poly_layer@, store.poly_bbox@) == and_steps(lay0, bx0, lid, bases@, layers@.drop_first(), i as int),
            extends_with_boxes(*old(store), *store),
        decreases bases@.len() - i,
    {
        let bp = bases[i];
        let pieces = and_pieces_exec(store, layers, bp);
        let ghost l1 = store.poly_layer@;
        let ghost b1 = store.poly_bbox@;
        proof {
            assert(fits(bases@[i as int]));
            assert(all_inside(seq![bp], bp));
            lemma_and_pieces_inside(l1, b1, layers@.drop_first(), seq![bp], bp);
        }
        let mut j: usize = 0;
        assert(pieces@.take(0) =~= Seq::<Bbox>::empty());
        assert(store.poly_layer@ =~= l1 + Seq::new(positive_only(pieces@.take(0)).len(), |k: int| lid));
        assert(store.poly_bbox@ =~= b1 + positive_only(pieces@.take(0)));
        while j < pieces.len()
            invariant
                store.wf(),
                all_fit(store.poly_bbox@),
                j <= pieces@.len(),
                all_inside(pieces@, bp),
                fits(bp),
                store.poly_layer@ == l1 + Seq::new(positive_only(pieces@.take(j as int)).len(), |k: int| lid),
                store.poly_bbox@ == b1 + positive_only(pieces@.take(j as int)),
                extends_with_boxes(*old(store), *store),
            decreases pieces@.len() - j,
        {
            let r = pieces[j];
            proof {
                assert(pieces@.take(j as int + 1).drop_last() =~= pieces@.take(j as int));
                assert(pieces@.take(j as int + 1).last() == r);
                assert(inside(pieces@[j as int], bp));
            }
            if r.xmax > r.xmin && r.ymax > r.ymin {
                let ghost bprev = store.poly_bbox@;
                let ghost prev = *store;
                add_box(store, lid, r);
                proof {
                    lemma_extends_trans(*old(store), prev, *store);
                    assert forall|q: int| 0 <= q < store.poly_bbox@.len() implies fits(#[trigger] store.poly_bbox@[q]) by {
                        if q < bprev.len() {
                            assert(store.poly_bbox@[q] == bprev[q]);
                        }
                    }
                    let np = positive_only(pieces@.take(j as int + 1));
                    assert(np == positive_only(pieces@.take(j as int)).push(r));
                    assert(store.poly_bbox@ =~= b1 + np);
                    assert(store.poly_layer@ =~= l1 + Seq::new(np.len(), |k: int| lid));
                }
            } else {
                assert(positive_only(pieces@.take(j as int + 1)) == positive_only(pieces@.take(j as int)));
            }
            j = j + 1;
        }
        proof {
            assert(pieces@.take(pieces@.len() as int) =~= pieces@);
        }
        i = i + 1;
    }
}

fn subtract_op(store: &mut GeometryStore, bl: u32, ml: u32, lid: u32)
    requires
        old(store).wf(),
        all_fit(old(store).poly_bbox@),
    ensures
        final(store).wf(),
        all_fit(final(store).poly_bbox@),
        ({
            let lay = old(store).poly_layer@;
            let bx = old(store).poly_bbox@;
            let added = subtract_added(layer_boxes(lay, bx, bl), layer_boxes(lay, bx, ml), layer_boxes(lay, bx, bl).len() as int);
            final(store).poly_layer@ == lay + Seq::new(added.len(), |i: int| lid) && final(store).poly_bbox@ == bx + added
        }),
        extends_with_boxes(*old(store), *final(store)),
{
    proof {
        lemma_extends_refl(*store);
    }
    let ghost lay0 = store.poly_layer@;
    let ghost bx0 = store.poly_bbox@;
    let minus = layer_boxes_exec(store, ml);
    let bases = layer_boxes_exec(store, bl);
    proof {
        lemma_boxes_on_fit(lay0, bx0, bl, lay0.len() as int);
    }
    let mut i: usize = 0;
    while i < bases.len()
        invariant
            store.wf(),
            all_fit(store.poly_bbox@),
            all_fit(bases@),
            i <= bases@.len(),
            bases@ == layer_boxes(lay0, bx0, bl),
            minus@ == layer_boxes(lay0, bx0, ml),
            store.poly_layer@ == lay0 + Seq::new(subtract_added(bases@, minus@, i as int).len(), |k: int| lid),
            store.poly_bbox@ == bx0 + subtract_added(bases@, minus@, i as int),
            extends_with_boxes(*old(store), *store),
        decreases bases@.len() - i,
    {
        let rem = subtract_bbox(bases[i], &minus);
        proof {
            lemma_subtract_fits(bases@[i as int], minus@, minus@.len() as int);
        }
        let ghost before = subtract_added(bases@, minus@, i as int);
        let mut j: usize = 0;
        while j < rem.len()
            invariant
                store.wf(),
                all_fit(store.poly_bbox@),
                all_fit(rem@),
                j <= rem@.len(),
                store.poly_layer@ == lay0 + Seq::new((before + positive_only(rem@.take(j as int))).len(), |k: int| lid),
                store.poly_bbox@ == bx0 + (before + positive_only(rem@.take(j as int))),
                extends_with_boxes(*old(store), *store),
            decreases rem@.len() - j,
        {
            let r = rem[j];
            proof {
                assert(rem@.take(j as int + 1).drop_last() =~= rem@.take(j as int));
                assert(rem@.take(j as int + 1).last() == r);
            }
            if r.xmax > r.xmin && r.ymax > r.ymin {
                let ghost b0 = store.poly_bbox@;
                let ghost l0 = store.poly_layer@;
                let ghost prev = *store;
                add_box(store, lid, r);
                proof {
                    lemma_extends_trans(*old(store), prev, *store);
                    assert forall|q: int| 0 <= q < store.poly_bbox@.len() implies fits(#[trigger] store.poly_bbox@[q]) by {
                        if q < b0.len() {
                            assert(store.poly_bbox@[q] == b0[q]);
                        }
                    }
                    let np = positive_only(rem@.take(j as int + 1));
                    assert(np == positive_only(rem@.take(j as int)).push(r));
                    assert(store.poly_bbox@ =~= bx0 + (before + np));
                    assert(store.poly_layer@ =~= lay0 + Seq::new((before + np).len(), |k: int| lid));
                }
            } else {
                assert(positive_only(rem@.take(j as int + 1)) == positive_only(rem@.take(j as int)));
            }
            j = j + 1;
        }
        proof {
            assert(rem@.take(rem@.len() as int) =~= rem@);
            assert(subtract_added(bases@, minus@, i as int + 1) == before + positive_only(rem@));
        }
        i = i + 1;
    }
}

fn or_op(store: &mut GeometryStore, layers: &Vec<u32>, lid: u32)
    requires
        old(store).wf(),
        all_fit(old(store).poly_bbox@),
    ensures
        final(store).wf(),
        all_fit(final(store).poly_bbox@),
        ({
            let lay = old(store).poly_layer@;
            let bx = old(store).poly_bbox@;
            let added = or_added(lay, bx, layers@, layers@.len() as int);
            final(store).poly_layer@ == lay + Seq::new(added.len(), |i: int| lid) && final(store).poly_bbox@ == bx + added
        }),
        extends_with_boxes(*old(store), *final(store)),
{
    let ghost lay0 = store.poly_layer@;
    let ghost bx0 = store.poly_bbox@;
    let mut all: Vec<Bbox> = Vec::new();
    let mut i: usize = 0;
    while i < layers.len()
        invariant
            store.wf(),
            store.poly_layer@ == lay0,
            store.poly_bbox@ == bx0,
            all_fit(bx0),
            i <= layers@.len(),
            all@ == or_added(lay0, bx0, layers@, i as int),
            all_fit(all@),
        decreases layers@.len() - i,
    {
        let bs = layer_boxes_exec(store, layers[i]);
        proof {
            lemma_boxes_on_fit(lay0, bx0, layers@[i as int], lay0.len() as int);
        }
        let ghost a0 = all@;
        let mut j: usize = 0;
        while j < bs.len()
            invariant
                j <= bs@.len(),
                all@ == a0 + bs@.take(j as int),
                all_fit(a0),
                all_fit(bs@),
            decreases bs@.len() - j,
        {
            all.push(bs[j]);
            assert(all@ =~= a0 + bs@.take(j as int + 1));
            j = j + 1;
        }
        proof {
            assert(bs@.take(bs@.len() as int) =~= bs@);
            assert forall|q: int| 0 <= q < all@.len() implies fits(#[trigger] all@[q]) by {
                if q < a0.len() {
                    assert(all@[q] == a0[q]);
                } else {
                    assert(all@[q] == bs@[q - a0.len()]);
                }
            }
        }
        i = i + 1;
    }
    proof {
        lemma_extends_refl(*store);
    }
    let mut j: usize = 0;
    while j < all.len()
        invariant
            store.wf(),
            all_fit(store.poly_bbox@),
            all_fit(all@),
            j <= all@.len(),
            store.poly_layer@ == lay0 + Seq::new(j as nat, |k: int| lid),
            store.poly_bbox@ == bx0 + all@.take(j as int),
            extends_with_boxes(*old(store), *store),
        decreases all@.len() - j,
    {
        let ghost b0 = store.poly_bbox@;
        let ghost prev = *store;
        add_box(store, lid, all[j]);
        proof {
            lemma_extends_trans(*old(store), prev, *store);
            assert forall|q: int| 0 <= q < store.poly_bbox@.len() implies fits(#[trigger] store.poly_bbox@[q]) by {
                if q < b0.len() {
                    assert(store.poly_bbox@[q] == b0[q]);
                }
            }
            assert(store.poly_bbox@ =~= bx0 + all@.take(j as int + 1));
            assert(store.poly_layer@ =~= lay0 + Seq::new((j + 1) as nat, |k: int| lid));
        }
        j = j + 1;
    }
    proof {
        assert(all@.take(all@.len() as int) =~= all@);
    }
}

/// Evaluates the derived layers in order, adding their rectangles to the
/// store. Derived layer `k` gets id `deck layers + k`; a name resolves to a
/// deck layer first, else to the latest derived layer of that name (the
/// current one included). Returns each derived layer's name and id.
pub fn evaluate_derived_layers(store: &mut GeometryStore, lt: &LayerTable, derived: &Vec<DerivedLayerSchema>) -> (ids: Vec<(String, u32)>)
    requires
        old(store).wf(),
        all_fit(old(store).poly_bbox@),
        lt.wf(),
        lt.id_to_name@.len() + derived@.len() <= u32::MAX,
    ensures
        final(store).wf(),
        all_fit(final(store).poly_bbox@),
        (final(store).poly_layer@, final(store).poly_bbox@) == eval_steps(old(store).poly_layer@, old(store).poly_bbox@,
            names_of(lt.id_to_name@), derived@, derived@.len() as int),
        extends_with_boxes(*old(store), *final(store)),
        ids@.len() == derived@.len(),
        forall|k: int| 0 <= k < ids@.len() ==> (#[trigger] ids@[k]).0@ == derived@[k].name@ && ids@[k].1 == lt.id_to_name@.len() + k,
{
    let ghost deck = names_of(lt.id_to_name@);
    let ghost lay0 = store.poly_layer@;
    let ghost bx0 = store.poly_bbox@;
    proof {
        lemma_extends_refl(*store);
    }
    let mut dnames: Vec<String> = Vec::new();
    let mut ids: Vec<(String, u32)> = Vec::new();
    let base = lt.id_to_name.len();
    let mut k: usize = 0;
    while k < derived.len()
        invariant
            store.wf(),
            all_fit(store.poly_bbox@),
            lt.wf(),
            base == lt.id_to_name@.len(),
            deck == names_of(lt.id_to_name@),
            base + derived@.len() <= u32::MAX,
            k <= derived@.len(),
            names_of(dnames@) == derived_names(derived@).take(k as int),
            (store.poly_layer@, store.poly_bbox@) == eval_steps(lay0, bx0, deck, derived@, k as int),
            extends_with_boxes(*old(store), *store),
            ids@.len() == k,
            forall|q: int| 0 <= q < ids@.len() ==> (#[trigger] ids@[q]).0@ == derived@[q].name@ && ids@[q].1 == base + q,
        decreases derived@.len() - k,
    {
        let dl = &derived[k];
        let lid = (base + k) as u32;
        dnames.push(dl.name.clone());
        ids.push((dl.name.clone(), lid));
        proof {
            assert(names_of(dnames@) =~= derived_names(derived@).take(k as int + 1));
        }
        let ghost prev = *store;
        match &dl.op {
            DerivedLayerOp::And(ns) => {
                let layers = resolve_names(lt, &dnames, ns);
                if layers.len() > 0 {
                    and_op(store, &layers, lid);
                }
            },
            DerivedLayerOp::Subtract { base: b, minus: m } => {
                let bl = resolve_exec(lt, &dnames, b);
                let ml = resolve_exec(lt, &dnames, m);
                match (bl, ml) {
                    (Some(bl), Some(ml)) => {
                        subtract_op(store, bl, ml, lid);
                    },
                    _ => {},
                }
            },
            DerivedLayerOp::Or(ns) => {
                let layers = resolve_names(lt, &dnames, ns);
                or_op(store, &layers, lid);
            },
        }
        proof {
            lemma_extends_refl(*store);
            lemma_extends_trans(*old(store), prev, *store);
        }
        k = k + 1;
    }
    ids
}

// --- what one derived layer covers ---

/// Appending boxes on layer `lid` adds them to that layer only.
proof fn lemma_layer_boxes_append(lay: Seq<u32>, bx: Seq<Bbox>, lid: u32, add: Seq<Bbox>, l: u32)
    requires
        lay.len() == bx.len(),
    ensures
        layer_boxes(lay + Seq::new(add.len(), |i: int| lid), bx + add, l)
            == if l == lid { layer_boxes(lay, bx, l) + add } else { layer_boxes(lay, bx, l) },
{
    lemma_boxes_on_tail(lay, bx, lid, add, l, add.len() as int);
    assert(add.take(add.len() as int) =~= add);
}

proof fn lemma_boxes_on_tail(lay: Seq<u32>, bx: Seq<Bbox>, lid: u32, add: Seq<Bbox>, l: u32, j: int)
    requires
        lay.len() == bx.len(),
        0 <= j <= add.len(),
    ensures
        boxes_on(lay + Seq::new(add.len(), |i: int| lid), bx + add, l, lay.len() + j)
            == if l == lid { layer_boxes(lay, bx, l) + add.take(j) } else { layer_boxes(lay, bx, l) },
    decreases j,
{
    let lay2 = lay + Seq::new(add.len(), |i: int| lid);
    let bx2 = bx + add;
    if j == 0 {
        assert(lay2.take(lay.len() as int) =~= lay.take(lay.len() as int));
        assert(bx2.take(lay.len() as int) =~= bx.take(lay.len() as int));
        lemma_boxes_on_prefix(lay, bx, lay2, bx2, l, lay.len() as int);
        assert(add.take(0) =~= Seq::<Bbox>::empty());
        assert(layer_boxes(lay, bx, l) + add.take(0) =~= layer_boxes(lay, bx, l));
    } else {
        lemma_boxes_on_tail(lay, bx, lid, add, l, j - 1);
        assert(lay2[lay.len() + j - 1] == lid);
        assert(bx2[lay.len() + j - 1] == add[j - 1]);
        if l == lid {
            assert(layer_boxes(lay, bx, l) + add.take(j) =~= (layer_boxes(lay, bx, l) + add.take(j - 1)).push(add[j - 1]));
        }
    }
}

/// Boxes without area cover no point.
proof fn lemma_positive_only_covers(s: Seq<Bbox>, x: int, y: int)
    ensures
        covered_by_some(positive_only(s), x, y) <==> covered_by_some(s, x, y),
    decreases s.len(),
{
    if s.len() > 0 {
        let init = s.drop_last();
        lemma_positive_only_covers(init, x, y);
        let prev = positive_only(init);
        let cur = positive_only(s);
        assert(cur == if positive(s.last()) { prev.push(s.last()) } else { prev });
        if covered_by_some(s, x, y) {
            let i = choose|i: int| 0 <= i < s.len() && (#[trigger] s[i]).covers(x, y);
            if i < s.len() - 1 {
                assert(init[i] == s[i]);
                assert(covered_by_some(init, x, y));
                let j = choose|j: int| 0 <= j < prev.len() && (#[trigger] prev[j]).covers(x, y);
                assert(cur[j] == prev[j]);
            } else {
                assert(positive(s.last()));
                assert(cur[prev.len() as int] == s.last());
            }
        }
        if covered_by_some(cur, x, y) {
            let i = choose|i: int| 0 <= i < cur.len() && (#[trigger] cur[i]).covers(x, y);
            if i < prev.len() {
                assert(cur[i] == prev[i]);
                assert(covered_by_some(prev, x, y));
                let k = choose|k: int| 0 <= k < init.len() && (#[trigger] init[k]).covers(x, y);
                assert(s[k] == init[k]);
            } else {
                assert(s[s.len() - 1].covers(x, y));
            }
        }
    }
}

proof fn lemma_covered_cat(a: Seq<Bbox>, b: Seq<Bbox>, x: int, y: int)
    ensures
        covered_by_some(a + b, x, y) <==> (covered_by_some(a, x, y) || covered_by_some(b, x, y)),
{
    if covered_by_some(a + b, x, y) {
        let i = choose|i: int| 0 <= i < (a + b).len() && (#[trigger] (a + b)[i]).covers(x, y);
        if i < a.len() {
            assert((a + b)[i] == a[i]);
        } else {
            assert((a + b)[i] == b[i - a.len()]);
        }
    }
    if covered_by_some(a, x, y) {
        let i = choose|i: int| 0 <= i < a.len() && (#[trigger] a[i]).covers(x, y);
        assert((a + b)[i] == a[i]);
    }
    if covered_by_some(b, x, y) {
        let i = choose|i: int| 0 <= i < b.len() && (#[trigger] b[i]).covers(x, y);
        assert((a + b)[a.len() + i] == b[i]);
    }
}

/// `and_pieces` reads the store only through the boxes of the `rest` layers.
proof fn lemma_and_pieces_same(l1: Seq<u32>, b1: Seq<Bbox>, l2: Seq<u32>, b2: Seq<Bbox>, rest: Seq<u32>, rs: Seq<Bbox>)
    requires
        forall|k: int| 0 <= k < rest.len() ==> #[trigger] layer_boxes(l1, b1, rest[k]) == layer_boxes(l2, b2, rest[k]),
    ensures
        and_pieces(l1, b1, rest, rs) == and_pieces(l2, b2, rest, rs),
    decreases rest.len(),
{
    if rest.len() > 0 {
        let t = rest.drop_first();
        assert forall|k: int| 0 <= k < t.len() implies #[trigger] layer_boxes(l1, b1, t[k]) == layer_boxes(l2, b2, t[k]) by {
            assert(t[k] == rest[k + 1]);
        }
        assert(layer_boxes(l1, b1, rest[0]) == layer_boxes(l2, b2, rest[0]));
        lemma_and_pieces_same(l1, b1, l2, b2, t, clip_all(rs, layer_boxes(l1, b1, rest[0])));
    }
}

/// The boxes the `And` step adds for the first `n` bases.
pub open spec fn and_added(lay: Seq<u32>, bx: Seq<Bbox>, bases: Seq<Bbox>, rest: Seq<u32>, n: int) -> Seq<Bbox>
    decreases n,
{
    if n <= 0 {
        Seq::empty()
    } else {
        and_added(lay, bx, bases, rest, n - 1) + positive_only(and_pieces(lay, bx, rest, seq![bases[n - 1]]))
    }
}

proof fn lemma_and_steps(lay: Seq<u32>, bx: Seq<Bbox>, lid: u32, bases: Seq<Bbox>, rest: Seq<u32>, n: int)
    requires
        lay.len() == bx.len(),
        !rest.contains(lid),
        0 <= n <= bases.len(),
    ensures
        and_steps(lay, bx, lid, bases, rest, n) == ({
            let a = and_added(lay, bx, bases, rest, n);
            (lay + Seq::new(a.len(), |i: int| lid), bx + a)
        }),
    decreases n,
{
    if n > 0 {
        lemma_and_steps(lay, bx, lid, bases, rest, n - 1);
        let a0 = and_added(lay, bx, bases, rest, n - 1);
        let l0 = lay + Seq::new(a0.len(), |i: int| lid);
        let b0 = bx + a0;
        assert forall|k: int| 0 <= k < rest.len() implies #[trigger] layer_boxes(l0, b0, rest[k]) == layer_boxes(lay, bx, rest[k]) by {
            lemma_layer_boxes_append(lay, bx, lid, a0, rest[k]);
        }
        lemma_and_pieces_same(l0, b0, lay, bx, rest, seq![bases[n - 1]]);
        let piece = positive_only(and_pieces(lay, bx, rest, seq![bases[n - 1]]));
        let a = and_added(lay, bx, bases, rest, n);
        assert(l0 + Seq::new(piece.len(), |i: int| lid) =~= lay + Seq::new(a.len(), |i: int| lid));
        assert(b0 + piece =~= bx + a);
    }
}

proof fn lemma_and_added_covers(lay: Seq<u32>, bx: Seq<Bbox>, bases: Seq<Bbox>, rest: Seq<u32>, n: int, x: int, y: int)
    requires
        0 <= n <= bases.len(),
    ensures
        covered_by_some(and_added(lay, bx, bases, rest, n), x, y) <==> (covered_by_some(bases.take(n), x, y)
            && forall|k: int| 0 <= k < rest.len() ==> covered_by_some(#[trigger] layer_boxes(lay, bx, rest[k]), x, y)),
    decreases n,
{
    if n == 0 {
        assert(!covered_by_some(bases.take(0), x, y));
    } else {
        lemma_and_added_covers(lay, bx, bases, rest, n - 1, x, y);
        let one = seq![bases[n - 1]];
        lemma_covered_cat(and_added(lay, bx, bases, rest, n - 1), positive_only(and_pieces(lay, bx, rest, one)), x, y);
        lemma_positive_only_covers(and_pieces(lay, bx, rest, one), x, y);
        lemma_and_pieces_exact(lay, bx, rest, one, x, y);
        assert(bases.take(n) =~= bases.take(n - 1) + one);
        lemma_covered_cat(bases.take(n - 1), one, x, y);
    }
}

proof fn lemma_or_added_covers(lay: Seq<u32>, bx: Seq<Bbox>, layers: Seq<u32>, n: int, x: int, y: int)
    requires
        0 <= n <= layers.len(),
    ensures
        covered_by_some(or_added(lay, bx, layers, n), x, y) <==> exists|k: int| 0 <= k < n && covered_by_some(#[trigger] layer_boxes(lay, bx, layers[k]), x, y),
    decreases n,
{
    if n > 0 {
        lemma_or_added_covers(lay, bx, layers, n - 1, x, y);
        lemma_covered_cat(or_added(lay, bx, layers, n - 1), layer_boxes(lay, bx, layers[n - 1]), x, y);
        if covered_by_some(layer_boxes(lay, bx, layers[n - 1]), x, y) {
            assert(exists|k: int| 0 <= k < n && covered_by_some(#[trigger] layer_boxes(lay, bx, layers[k]), x, y));
        }
    }
}

proof fn lemma_subtract_added_covers(bases: Seq<Bbox>, minus: Seq<Bbox>, n: int, x: int, y: int)
    requires
        0 <= n <= bases.len(),
    ensures
        covered_by_some(subtract_added(bases, minus, n), x, y) <==> (covered_by_some(bases.take(n), x, y) && !covered_by_some(minus, x, y)),
    decreases n,
{
    if n == 0 {
        assert(!covered_by_some(bases.take(0), x, y));
    } else {
        lemma_subtract_added_covers(bases, minus, n - 1, x, y);
        let r = subtract_spec(bases[n - 1], minus, minus.len() as int);
        lemma_covered_cat(subtract_added(bases, minus, n - 1), positive_only(r), x, y);
        lemma_positive_only_covers(r, x, y);
        lemma_subtract_exact(bases[n - 1], minus, x, y);
        assert(bases.take(n) =~= bases.take(n - 1) + seq![bases[n - 1]]);
        lemma_covered_cat(bases.take(n - 1), seq![bases[n - 1]], x, y);
        assert(covered_by_some(seq![bases[n - 1]], x, y) <==> bases[n - 1].covers(x, y)) by {
            if bases[n - 1].covers(x, y) {
                assert(seq![bases[n - 1]][0] == bases[n - 1]);
            }
        }
        assert((forall|k: int| 0 <= k < minus.len() ==> !(#[trigger] minus[k]).covers(x, y)) <==> !covered_by_some(minus, x, y));
    }
}

/// The layers one derived layer reads.
pub open spec fn op_layers(deck: Seq<Seq<char>>, dnames: Seq<Seq<char>>, op: DerivedLayerOp) -> Seq<u32> {
    match op {
        DerivedLayerOp::And(ns) => resolve_list(deck, dnames, ns@, ns@.len() as int),
        DerivedLayerOp::Or(ns) => resolve_list(deck, dnames, ns@, ns@.len() as int),
        DerivedLayerOp::Subtract { base, minus } => match (resolve(deck, dnames, base@), resolve(deck, dnames, minus@)) {
            (Some(b), Some(m)) => seq![b as u32, m as u32],
            _ => Seq::empty(),
        },
    }
}

/// The points a derived layer covers, over the layers it reads: for `And`,
/// those in every one (none when no name resolves); for `Subtract`, those
/// of the base outside the subtracted layer (none unless both resolve); for
/// `Or`, those in any.
pub open spec fn op_covers(lay: Seq<u32>, bx: Seq<Bbox>, deck: Seq<Seq<char>>, dnames: Seq<Seq<char>>, op: DerivedLayerOp, x: int, y: int) -> bool {
    let ls = op_layers(deck, dnames, op);
    match op {
        DerivedLayerOp::And(ns) => ls.len() > 0 && forall|k: int| 0 <= k < ls.len() ==> covered_by_some(#[trigger] layer_boxes(lay, bx, ls[k]), x, y),
        DerivedLayerOp::Or(ns) => exists|k: int| 0 <= k < ls.len() && covered_by_some(#[trigger] layer_boxes(lay, bx, ls[k]), x, y),
        DerivedLayerOp::Subtract { base, minus } => ls.len() == 2 && covered_by_some(layer_boxes(lay, bx, ls[0]), x, y)
            && !covered_by_some(layer_boxes(lay, bx, ls[1]), x, y),
    }
}

/// Evaluating one derived layer on a new layer `lid` keeps every polygon,
/// puts every added polygon on `lid`, and makes `lid` cover exactly the
/// points that the operation gives over the layers it reads (boxes taken
/// half-open): the intersection of all of them for `And`, the base minus
/// the subtracted layer for `Subtract`, their union for `Or`. It holds when
/// the layer is not among those it reads.
pub proof fn lemma_op_step_covers(lay: Seq<u32>, bx: Seq<Bbox>, deck: Seq<Seq<char>>, dnames: Seq<Seq<char>>, lid: u32, op: DerivedLayerOp, x: int, y: int)
    requires
        lay.len() == bx.len(),
        !lay.contains(lid),
        !op_layers(deck, dnames, op).contains(lid),
    ensures
        ({
            let (l2, b2) = op_step(lay, bx, deck, dnames, lid, op);
            &&& l2.len() == b2.len()
            &&& l2.take(lay.len() as int) == lay
            &&& b2.take(bx.len() as int) == bx
            &&& forall|i: int| lay.len() <= i < l2.len() ==> l2[i] == lid
            &&& covered_by_some(layer_boxes(l2, b2, lid), x, y) <==> op_covers(lay, bx, deck, dnames, op, x, y)
        }),
{
    let ls = op_layers(deck, dnames, op);
    assert(layer_boxes(lay, bx, lid) =~= Seq::<Bbox>::empty()) by {
        lemma_boxes_absent(lay, bx, lid, lay.len() as int);
    }
    let added: Seq<Bbox> = match op {
        DerivedLayerOp::And(ns) => if ls.len() == 0 {
            Seq::empty()
        } else {
            let bases = layer_boxes(lay, bx, ls[0]);
            and_added(lay, bx, bases, ls.drop_first(), bases.len() as int)
        },
        DerivedLayerOp::Subtract { base, minus } => if ls.len() == 2 {
            subtract_added(layer_boxes(lay, bx, ls[0]), layer_boxes(lay, bx, ls[1]), layer_boxes(lay, bx, ls[0]).len() as int)
        } else {
            Seq::empty()
        },
        DerivedLayerOp::Or(ns) => or_added(lay, bx, ls, ls.len() as int),
    };
    match op {
        DerivedLayerOp::And(ns) => {
            if ls.len() > 0 {
                let bases = layer_boxes(lay, bx, ls[0]);
                let rest = ls.drop_first();
                assert(!rest.contains(lid)) by {
                    if rest.contains(lid) {
                        let k = choose|k: int| 0 <= k < rest.len() && rest[k] == lid;
                        assert(ls[k + 1] == lid);
                    }
                }
                lemma_and_steps(lay, bx, lid, bases, rest, bases.len() as int);
                lemma_and_added_covers(lay, bx, bases, rest, bases.len() as int, x, y);
                assert(bases.take(bases.len() as int) =~= bases);
                if op_covers(lay, bx, deck, dnames, op, x, y) {
                    assert(covered_by_some(layer_boxes(lay, bx, ls[0]), x, y));
                    assert forall|k: int| 0 <= k < rest.len() implies covered_by_some(#[trigger] layer_boxes(lay, bx, rest[k]), x, y) by {
                        assert(rest[k] == ls[k + 1]);
                        assert(covered_by_some(layer_boxes(lay, bx, ls[k + 1]), x, y));
                    }
                }
                if covered_by_some(added, x, y) {
                    assert forall|k: int| 0 <= k < ls.len() implies covered_by_some(#[trigger] layer_boxes(lay, bx, ls[k]), x, y) by {
                        if k > 0 {
                            assert(ls[k] == rest[k - 1]);
                        }
                    }
                }
            } else {
                assert(op_step(lay, bx, deck, dnames, lid, op) == (lay, bx));
                assert(lay + Seq::new(added.len(), |i: int| lid) =~= lay);
                assert(bx + added =~= bx);
            }
        },
        DerivedLayerOp::Subtract { base, minus } => {
            if ls.len() == 2 {
                let bases = layer_boxes(lay, bx, ls[0]);
                lemma_subtract_added_covers(bases, layer_boxes(lay, bx, ls[1]), bases.len() as int, x, y);
                assert(bases.take(bases.len() as int) =~= bases);
            } else {
                assert(lay + Seq::new(added.len(), |i: int| lid) =~= lay);
                assert(bx + added =~= bx);
            }
        },
        DerivedLayerOp::Or(ns) => {
            lemma_or_added_covers(lay, bx, ls, ls.len() as int, x, y);
        },
    }
    assert(op_step(lay, bx, deck, dnames, lid, op) == (lay + Seq::new(added.len(), |i: int| lid), bx + added));
    lemma_layer_boxes_append(lay, bx, lid, added, lid);
    assert(layer_boxes(lay, bx, lid) + added =~= added);
    assert((lay + Seq::new(added.len(), |i: int| lid)).take(lay.len() as int) =~= lay);
    assert((bx + added).take(bx.len() as int) =~= bx);
}

proof fn lemma_boxes_absent(lay: Seq<u32>, bx: Seq<Bbox>, l: u32, n: int)
    requires
        0 <= n <= lay.len(),
        !lay.contains(l),
    ensures
        boxes_on(lay, bx, l, n).len() == 0,
    decreases n,
{
    if n > 0 {
        lemma_boxes_absent(lay, bx, l, n - 1);
        assert(lay[n - 1] != l);
    }
}

// --- which layers a list of names reads ---

/// The layers a list of names reads are those of its names that resolve,
/// in list order, one for each such name: the names kept by resolution,
/// each replaced by its layer.
pub proof fn lemma_resolve_list_names(deck: Seq<Seq<char>>, derived: Seq<Seq<char>>, names: Seq<String>, n: int)
    requires
        0 <= n <= names.len(),
    ensures
        resolve_list(deck, derived, names, n) == names.take(n).filter(|s: String| resolve(deck, derived, s@) is Some).map_values(
            |s: String| resolve(deck, derived, s@)->0 as u32,
        ),
    decreases n,
{
    reveal(Seq::filter);
    let f = |s: String| resolve(deck, derived, s@) is Some;
    let g = |s: String| resolve(deck, derived, s@)->0 as u32;
    if n == 0 {
        assert(names.take(0).filter(f) =~= Seq::<String>::empty());
        assert(names.take(0).filter(f).map_values(g) =~= Seq::<u32>::empty());
    } else {
        lemma_resolve_list_names(deck, derived, names, n - 1);
        let t = names.take(n);
        assert(t.drop_last() =~= names.take(n - 1));
        assert(t.last() == names[n - 1]);
        if f(names[n - 1]) {
            assert(t.filter(f) == names.take(n - 1).filter(f).push(names[n - 1]));
            assert(t.filter(f).map_values(g) =~= names.take(n - 1).filter(f).map_values(g).push(g(names[n - 1])));
        } else {
            assert(t.filter(f) == names.take(n - 1).filter(f));
        }
    }
}

/// Box cover of layer `l` at a point.
pub open spec fn layer_covers(lay: Seq<u32>, bx: Seq<Bbox>, l: u32, x: int, y: int) -> bool {
    covered_by_some(layer_boxes(lay, bx, l), x, y)
}

/// Some of the first `n` names resolves.
pub open spec fn some_resolves(deck: Seq<Seq<char>>, derived: Seq<Seq<char>>, names: Seq<String>, n: int) -> bool {
    exists|j: int| 0 <= j < n && #[trigger] resolve(deck, derived, names[j]@) is Some
}

proof fn lemma_resolve_list_reads(deck: Seq<Seq<char>>, derived: Seq<Seq<char>>, names: Seq<String>, n: int, lay: Seq<u32>, bx: Seq<Bbox>, x: int, y: int, lid: u32)
    requires
        0 <= n <= names.len(),
    ensures
        ({
            let ls = resolve_list(deck, derived, names, n);
            &&& (ls.len() > 0 <==> some_resolves(deck, derived, names, n))
            &&& ((forall|k: int| 0 <= k < ls.len() ==> #[trigger] layer_covers(lay, bx, ls[k], x, y))
                <==> (forall|j: int| 0 <= j < n && #[trigger] resolve(deck, derived, names[j]@) is Some
                    ==> layer_covers(lay, bx, resolve(deck, derived, names[j]@)->0 as u32, x, y)))
            &&& ((exists|k: int| 0 <= k < ls.len() && #[trigger] layer_covers(lay, bx, ls[k], x, y))
                <==> (exists|j: int| 0 <= j < n && #[trigger] resolve(deck, derived, names[j]@) is Some
                    && layer_covers(lay, bx, resolve(deck, derived, names[j]@)->0 as u32, x, y)))
            &&& (ls.contains(lid) <==> exists|j: int| 0 <= j < n && #[trigger] resolve(deck, derived, names[j]@) is Some
                && resolve(deck, derived, names[j]@)->0 as u32 == lid)
        }),
    decreases n,
{
    if n > 0 {
        lemma_resolve_list_reads(deck, derived, names, n - 1, lay, bx, x, y, lid);
        let prev = resolve_list(deck, derived, names, n - 1);
        let ls = resolve_list(deck, derived, names, n);
        let r = resolve(deck, derived, names[n - 1]@);
        if r is Some {
            let id = r->0 as u32;
            assert(ls == prev.push(id));
            assert(ls[prev.len() as int] == id);
            assert forall|k: int| 0 <= k < prev.len() implies #[trigger] ls[k] == prev[k] by {}
            if some_resolves(deck, derived, names, n - 1) {
                let j = choose|j: int| 0 <= j < n - 1 && #[trigger] resolve(deck, derived, names[j]@) is Some;
                assert(resolve(deck, derived, names[j]@) is Some);
            }
            assert(resolve(deck, derived, names[n - 1]@) is Some);
            if (forall|j: int| 0 <= j < n && #[trigger] resolve(deck, derived, names[j]@) is Some
                    ==> layer_covers(lay, bx, resolve(deck, derived, names[j]@)->0 as u32, x, y)) {
                assert forall|k: int| 0 <= k < ls.len() implies #[trigger] layer_covers(lay, bx, ls[k], x, y) by {
                    if k < prev.len() {
                        assert(ls[k] == prev[k]);
                        assert(layer_covers(lay, bx, prev[k], x, y));
                    } else {
                        assert(resolve(deck, derived, names[n - 1]@) is Some);
                    }
                }
            }
            if (forall|k: int| 0 <= k < ls.len() ==> #[trigger] layer_covers(lay, bx, ls[k], x, y)) {
                assert forall|k: int| 0 <= k < prev.len() implies #[trigger] layer_covers(lay, bx, prev[k], x, y) by {
                    assert(ls[k] == prev[k]);
                    assert(layer_covers(lay, bx, ls[k], x, y));
                }
                assert(layer_covers(lay, bx, ls[prev.len() as int], x, y));
            }
            if (exists|k: int| 0 <= k < ls.len() && #[trigger] layer_covers(lay, bx, ls[k], x, y)) {
                let k = choose|k: int| 0 <= k < ls.len() && #[trigger] layer_covers(lay, bx, ls[k], x, y);
                if k < prev.len() {
                    assert(layer_covers(lay, bx, prev[k], x, y));
                } else {
                    assert(resolve(deck, derived, names[n - 1]@) is Some);
                }
            }
            if (exists|j: int| 0 <= j < n && #[trigger] resolve(deck, derived, names[j]@) is Some
                    && layer_covers(lay, bx, resolve(deck, derived, names[j]@)->0 as u32, x, y)) {
                let j = choose|j: int| 0 <= j < n && #[trigger] resolve(deck, derived, names[j]@) is Some
                    && layer_covers(lay, bx, resolve(deck, derived, names[j]@)->0 as u32, x, y);
                if j < n - 1 {
                    let k = choose|k: int| 0 <= k < prev.len() && #[trigger] layer_covers(lay, bx, prev[k], x, y);
                    assert(layer_covers(lay, bx, ls[k], x, y));
                } else {
                    assert(layer_covers(lay, bx, ls[prev.len() as int], x, y));
                }
            }
            if ls.contains(lid) {
                let k = choose|k: int| 0 <= k < ls.len() && ls[k] == lid;
                if k < prev.len() {
                    assert(prev.contains(lid));
                } else {
                    assert(resolve(deck, derived, names[n - 1]@) is Some);
                }
            }
            if (exists|j: int| 0 <= j < n && #[trigger] resolve(deck, derived, names[j]@) is Some
                    && resolve(deck, derived, names[j]@)->0 as u32 == lid) {
                let j = choose|j: int| 0 <= j < n && #[trigger] resolve(deck, derived, names[j]@) is Some
                    && resolve(deck, derived, names[j]@)->0 as u32 == lid;
                if j < n - 1 {
                    let k = choose|k: int| 0 <= k < prev.len() && prev[k] == lid;
                    assert(ls[k] == lid);
                } else {
                    assert(ls[prev.len() as int] == lid);
                }
            }
        } else {
            assert(ls == prev);
            if some_resolves(deck, derived, names, n) {
                let j = choose|j: int| 0 <= j < n && #[trigger] resolve(deck, derived, names[j]@) is Some;
                assert(j < n - 1);
            }
            if some_resolves(deck, derived, names, n - 1) {
                let j = choose|j: int| 0 <= j < n - 1 && #[trigger] resolve(deck, derived, names[j]@) is Some;
                assert(resolve(deck, derived, names[j]@) is Some);
            }
        }
    }
}

/// A derived `And` of names covers exactly the points that every named
/// layer covers (deck layers and earlier derived layers; names that name
/// none are skipped), and nothing when no name resolves; an `Or` covers the
/// points some named layer covers. It holds when no name resolves to the
/// layer being defined, which starts empty.
pub proof fn lemma_and_or_read_every_name(
    lay: Seq<u32>,
    bx: Seq<Bbox>,
    deck: Seq<Seq<char>>,
    dnames: Seq<Seq<char>>,
    lid: u32,
    ns: Vec<String>,
    x: int,
    y: int,
)
    requires
        lay.len() == bx.len(),
        !lay.contains(lid),
        forall|j: int| 0 <= j < ns@.len() && #[trigger] resolve(deck, dnames, ns@[j]@) is Some
            ==> resolve(deck, dnames, ns@[j]@)->0 as u32 != lid,
    ensures
        ({
            let (l2, b2) = op_step(lay, bx, deck, dnames, lid, DerivedLayerOp::And(ns));
            layer_covers(l2, b2, lid, x, y) <==> (some_resolves(deck, dnames, ns@, ns@.len() as int)
                && forall|j: int| 0 <= j < ns@.len() && #[trigger] resolve(deck, dnames, ns@[j]@) is Some
                    ==> layer_covers(lay, bx, resolve(deck, dnames, ns@[j]@)->0 as u32, x, y))
        }),
        ({
            let (l2, b2) = op_step(lay, bx, deck, dnames, lid, DerivedLayerOp::Or(ns));
            layer_covers(l2, b2, lid, x, y) <==> exists|j: int| 0 <= j < ns@.len() && #[trigger] resolve(deck, dnames, ns@[j]@) is Some
                && layer_covers(lay, bx, resolve(deck, dnames, ns@[j]@)->0 as u32, x, y)
        }),
{
    let n = ns@.len() as int;
    lemma_resolve_list_reads(deck, dnames, ns@, n, lay, bx, x, y, lid);
    let ls = resolve_list(deck, dnames, ns@, n);
    if ls.contains(lid) {
        let j = choose|j: int| 0 <= j < n && #[trigger] resolve(deck, dnames, ns@[j]@) is Some
            && resolve(deck, dnames, ns@[j]@)->0 as u32 == lid;
    }
    assert(op_layers(deck, dnames, DerivedLayerOp::And(ns)) == ls);
    assert(op_layers(deck, dnames, DerivedLayerOp::Or(ns)) == ls);
    lemma_op_step_covers(lay, bx, deck, dnames, lid, DerivedLayerOp::And(ns), x, y);
    lemma_op_step_covers(lay, bx, deck, dnames, lid, DerivedLayerOp::Or(ns), x, y);
    let all_k = forall|k: int| 0 <= k < ls.len() ==> #[trigger] layer_covers(lay, bx, ls[k], x, y);
    let all_b = forall|k: int| 0 <= k < ls.len() ==> covered_by_some(#[trigger] layer_boxes(lay, bx, ls[k]), x, y);
    assert(all_k <==> all_b) by {
        if all_k {
            assert forall|k: int| 0 <= k < ls.len() implies covered_by_some(#[trigger] layer_boxes(lay, bx, ls[k]), x, y) by {
                assert(layer_covers(lay, bx, ls[k], x, y));
            }
        }
        if all_b {
            assert forall|k: int| 0 <= k < ls.len() implies #[trigger] layer_covers(lay, bx, ls[k], x, y) by {
                assert(covered_by_some(layer_boxes(lay, bx, ls[k]), x, y));
            }
        }
    }
    let ex_k = exists|k: int| 0 <= k < ls.len() && #[trigger] layer_covers(lay, bx, ls[k], x, y);
    let ex_b = exists|k: int| 0 <= k < ls.len() && covered_by_some(#[trigger] layer_boxes(lay, bx, ls[k]), x, y);
    assert(ex_k <==> ex_b) by {
        if ex_k {
            let k = choose|k: int| 0 <= k < ls.len() && #[trigger] layer_covers(lay, bx, ls[k], x, y);
            assert(covered_by_some(layer_boxes(lay, bx, ls[k]), x, y));
        }
        if ex_b {
            let k = choose|k: int| 0 <= k < ls.len() && covered_by_some(#[trigger] layer_boxes(lay, bx, ls[k]), x, y);
            assert(layer_covers(lay, bx, ls[k], x, y));
        }
    }
}

/// A derived `Subtract` covers exactly the points of the layer named as
/// its base that the layer named as subtracted does not cover, and nothing
/// unless both names resolve. It holds when neither resolves to the layer
/// being defined, which starts empty.
pub proof fn lemma_subtract_reads_base_and_minus(
    lay: Seq<u32>,
    bx: Seq<Bbox>,
    deck: Seq<Seq<char>>,
    dnames: Seq<Seq<char>>,
    lid: u32,
    base: String,
    minus: String,
    x: int,
    y: int,
)
    requires
        lay.len() == bx.len(),
        !lay.contains(lid),
        resolve(deck, dnames, base@) is Some ==> resolve(deck, dnames, base@)->0 as u32 != lid,
        resolve(deck, dnames, minus@) is Some ==> resolve(deck, dnames, minus@)->0 as u32 != lid,
    ensures
        ({
            let (l2, b2) = op_step(lay, bx, deck, dnames, lid, DerivedLayerOp::Subtract { base: base, minus: minus });
            layer_covers(l2, b2, lid, x, y) <==> (resolve(deck, dnames, base@) is Some && resolve(deck, dnames, minus@) is Some
                && layer_covers(lay, bx, resolve(deck, dnames, base@)->0 as u32, x, y)
                && !layer_covers(lay, bx, resolve(deck, dnames, minus@)->0 as u32, x, y))
        }),
{
    let op = DerivedLayerOp::Subtract { base: base, minus: minus };
    let ls = op_layers(deck, dnames, op);
    if ls.contains(lid) {
        let k = choose|k: int| 0 <= k < ls.len() && ls[k] == lid;
        assert(k == 0 || k == 1);
    }
    lemma_op_step_covers(lay, bx, deck, dnames, lid, op, x, y);
}

} // verus!
