//! Cell hierarchy for hierarchical LVS: cells that place other cells, and the
//! leaves-first order in which cells are compared.
use vstd::prelude::*;
use crate::geometry::{Bbox, GeometryStore, Point};
use crate::lvs::types::{LvsResult, RefNetlist};
use crate::graph::{dfs_from, finished_topologically, graph_wf, idx_cycle, idx_step, on_cycle};

verus! {

/// An instance of a subcell placed in a parent cell.
pub struct CellInstance {
    pub cell_name: String,
    pub dx: i32,
    pub dy: i32,
}

/// A boundary pin (port) of a cell.
pub struct Port {
    pub name: String,
    pub layer: u32,
    pub bbox: Bbox,
}

/// A cell in the layout hierarchy.
pub struct HierCell {
    pub name: String,
    pub geometry: GeometryStore,
    pub instances: Vec<CellInstance>,
    pub ports: Vec<Port>,
}

/// A matched subcircuit that becomes an abstract device at the parent level:
/// its pins as `(pin name, net id)`.
#[derive(Clone)]
pub struct SubcircuitDevice {
    pub cell_name: String,
    pub pins: Vec<(String, u32)>,
}

/// Reference hierarchy: the netlist of each reference cell, by cell name.
pub struct RefHierarchy {
    pub cells: Vec<(String, RefCellNetlist)>,
    pub top_cell: String,
}

/// Reference netlist for one cell in the hierarchy.
pub struct RefCellNetlist {
    pub netlist: RefNetlist,
    pub subcircuit_instances: Vec<RefSubcktInstance>,
}

/// A subcircuit instance of a reference cell, its pins as `(pin name, net name)`.
pub struct RefSubcktInstance {
    pub cell_name: String,
    pub pins: Vec<(String, String)>,
}

/// Result of hierarchical LVS.
pub struct HierLvsResult {
    pub matched: bool,
    pub per_cell: Vec<(String, LvsResult)>,
    pub flattened_cells: Vec<String>,
}

// ---------------------------------------------------------------------------
// The hierarchy as a graph of names.

/// No two cells share a name (the cells of a layout are keyed by name).
pub open spec fn names_distinct(cells: Seq<HierCell>) -> bool {
    forall|i: int, j: int|
        0 <= i < cells.len() && 0 <= j < cells.len() && i != j ==> cells[i].name@ != cells[j].name@
}

/// The cell named `a` places an instance of the cell named `b`.
pub open spec fn places(cells: Seq<HierCell>, a: Seq<char>, b: Seq<char>) -> bool {
    exists|i: int, j: int|
        #![trigger cells[i].instances@[j]]
        0 <= i < cells.len() && cells[i].name@ == a && 0 <= j < cells[i].instances@.len()
            && cells[i].instances@[j].cell_name@ == b
}

/// `x` is the name of a cell or the target of an instance.
pub open spec fn named(cells: Seq<HierCell>, x: Seq<char>) -> bool {
    (exists|i: int| 0 <= i < cells.len() && #[trigger] cells[i].name@ == x)
        || (exists|a: Seq<char>| #[trigger] places(cells, a, x))
}

pub open spec fn cycle_step(cells: Seq<HierCell>, p: Seq<Seq<char>>, t: int) -> bool {
    places(cells, p[t], p[t + 1])
}

/// `p` is a closed chain of placements: each name places the next, and the
/// chain ends where it starts.
pub open spec fn is_cycle(cells: Seq<HierCell>, p: Seq<Seq<char>>) -> bool {
    &&& p.len() >= 2
    &&& p[0] == p.last()
    &&& forall|t: int| 0 <= t < p.len() - 1 ==> #[trigger] cycle_step(cells, p, t)
}

/// Every name that a listed cell places is listed before that cell.
pub open spec fn leaves_first(cells: Seq<HierCell>, order: Seq<Seq<char>>) -> bool {
    forall|k: int, b: Seq<char>|
        0 <= k < order.len() && #[trigger] places(cells, order[k], b) ==> order.subrange(0, k).contains(b)
}

pub open spec fn views(s: Seq<String>) -> Seq<Seq<char>> {
    s.map_values(|x: String| x@)
}

pub open spec fn distinct_views(s: Seq<String>) -> bool {
    forall|a: int, b: int| 0 <= a < s.len() && 0 <= b < s.len() && a != b ==> s[a]@ != s[b]@
}

/// `names` lists the cell names (cell `i` at index `i`) and then every other
/// instance target, once each; `adj[u][j]` is the index of the target of
/// instance `j` of cell `u`.
spec fn graph_indexed(cells: Seq<HierCell>, names: Seq<String>, adj: Seq<Vec<usize>>) -> bool {
    &&& names.len() >= cells.len()
    &&& adj.len() == names.len()
    &&& forall|i: int| 0 <= i < cells.len() ==> #[trigger] names[i]@ == cells[i].name@
    &&& distinct_views(names)
    &&& forall|k: int| 0 <= k < names.len() ==> named(cells, #[trigger] names[k]@)
    &&& forall|u: int| 0 <= u < cells.len() ==> #[trigger] adj[u]@.len() == cells[u].instances@.len()
    &&& forall|u: int| cells.len() <= u < adj.len() ==> #[trigger] adj[u]@.len() == 0
    &&& forall|u: int, j: int|
        0 <= u < cells.len() && 0 <= j < adj[u]@.len()
            ==> #[trigger] adj[u]@[j] < names.len() && names[adj[u]@[j] as int]@ == cells[u].instances@[j].cell_name@
}

fn find_name(names: &Vec<String>, name: &String) -> (r: Option<usize>)
    ensures
        r matches Some(k) ==> k < names@.len() && names@[k as int]@ == name@,
        r is None ==> forall|k: int| 0 <= k < names@.len() ==> #[trigger] names@[k]@ != name@,
{
    let mut k: usize = 0;
    while k < names.len()
        invariant
            k <= names@.len(),
            forall|q: int| 0 <= q < k ==> #[trigger] names@[q]@ != name@,
        decreases names@.len() - k,
    {
        if names[k] == *name {
            return Some(k);
        }
        k = k + 1;
    }
    None
}

fn index_graph(cells: &Vec<HierCell>) -> (res: (Vec<String>, Vec<Vec<usize>>))
    requires
        names_distinct(cells@),
    ensures
        graph_indexed(cells@, res.0@, res.1@),
{
    let mut names: Vec<String> = Vec::new();
    let mut i: usize = 0;
    while i < cells.len()
        invariant
            i <= cells@.len(),
            names@.len() == i,
            forall|q: int| 0 <= q < i ==> #[trigger] names@[q]@ == cells@[q].name@,
        decreases cells@.len() - i,
    {
        names.push(cells[i].name.clone());
        i = i + 1;
    }
    proof {
        assert forall|k: int| 0 <= k < names@.len() implies named(cells@, #[trigger] names@[k]@) by {
            assert(cells@[k].name@ == names@[k]@);
        }
    }
    let mut adj: Vec<Vec<usize>> = Vec::new();
    let mut i: usize = 0;
    while i < cells.len()
        invariant
            names_distinct(cells@),
            i <= cells@.len(),
            adj@.len() == i,
            names@.len() >= cells@.len(),
            forall|q: int| 0 <= q < cells@.len() ==> #[trigger] names@[q]@ == cells@[q].name@,
            distinct_views(names@),
            forall|k: int| 0 <= k < names@.len() ==> named(cells@, #[trigger] names@[k]@),
            forall|u: int| 0 <= u < i ==> #[trigger] adj@[u]@.len() == cells@[u].instances@.len(),
            forall|u: int, j: int|
                0 <= u < i && 0 <= j < adj@[u]@.len()
                    ==> #[trigger] adj@[u]@[j] < names@.len() && names@[adj@[u]@[j] as int]@ == cells@[u].instances@[j].cell_name@,
        decreases cells@.len() - i,
    {
        let mut row: Vec<usize> = Vec::new();
        let n_inst = cells[i].instances.len();
        let mut j: usize = 0;
        while j < n_inst
            invariant
                names_distinct(cells@),
                i < cells@.len(),
                n_inst == cells@[i as int].instances@.len(),
                j <= n_inst,
                row@.len() == j,
                adj@.len() == i,
                names@.len() >= cells@.len(),
                forall|q: int| 0 <= q < cells@.len() ==> #[trigger] names@[q]@ == cells@[q].name@,
                distinct_views(names@),
                forall|k: int| 0 <= k < names@.len() ==> named(cells@, #[trigger] names@[k]@),
                forall|jj: int| 0 <= jj < j ==> #[trigger] row@[jj] < names@.len()
                    && names@[row@[jj] as int]@ == cells@[i as int].instances@[jj].cell_name@,
                forall|u: int, jj: int|
                    0 <= u < i && 0 <= jj < adj@[u]@.len()
                        ==> #[trigger] adj@[u]@[jj] < names@.len() && names@[adj@[u]@[jj] as int]@ == cells@[u].instances@[jj].cell_name@,
            decreases n_inst - j,
        {
            let target = &cells[i].instances[j].cell_name;
            let idx = match find_name(&names, target) {
                Some(k) => k,
                None => {
                    proof {
                        assert(places(cells@, cells@[i as int].name@, target@)) by {
                            assert(cells@[i as int].instances@[j as int].cell_name@ == target@);
                        }
                    }
                    names.push(target.clone());
                    proof {
                        assert forall|k: int| 0 <= k < names@.len() implies named(cells@, #[trigger] names@[k]@) by {
                            if k == names@.len() - 1 {
                                assert(names@[k]@ == target@);
                                assert(places(cells@, cells@[i as int].name@, names@[k]@));
                            }
                        }
                    }
                    names.len() - 1
                },
            };
            row.push(idx);
            j = j + 1;
        }
        adj.push(row);
        i = i + 1;
    }
    while adj.len() < names.len()
        invariant
            adj@.len() >= cells@.len(),
            adj@.len() <= names@.len(),
            forall|u: int| 0 <= u < cells@.len() ==> #[trigger] adj@[u]@.len() == cells@[u].instances@.len(),
            forall|u: int| cells@.len() <= u < adj@.len() ==> #[trigger] adj@[u]@.len() == 0,
            forall|u: int, j: int|
                0 <= u < cells@.len() && 0 <= j < adj@[u]@.len()
                    ==> #[trigger] adj@[u]@[j] < names@.len() && names@[adj@[u]@[j] as int]@ == cells@[u].instances@[j].cell_name@,
        decreases names@.len() - adj@.len(),
    {
        adj.push(Vec::new());
    }
    (names, adj)
}

proof fn lemma_edge_of_index(cells: Seq<HierCell>, names: Seq<String>, adj: Seq<Vec<usize>>, u: int, v: usize)
    requires
        graph_indexed(cells, names, adj),
        0 <= u < names.len(),
        adj[u]@.contains(v),
    ensures
        v < names.len(),
        places(cells, names[u]@, names[v as int]@),
{
    let j = adj[u]@.index_of(v);
    assert(u < cells.len());
    assert(adj[u]@[j] == v);
    assert(cells[u].instances@[j].cell_name@ == names[v as int]@);
}

proof fn lemma_index_of_edge(cells: Seq<HierCell>, names: Seq<String>, adj: Seq<Vec<usize>>, u: int, b: Seq<char>)
    requires
        graph_indexed(cells, names, adj),
        0 <= u < names.len(),
        places(cells, names[u]@, b),
    ensures
        exists|j: int| 0 <= j < adj[u]@.len() && #[trigger] names[adj[u]@[j] as int]@ == b,
{
    let (i, j) = choose|i: int, j: int|
        #![trigger cells[i].instances@[j]]
        0 <= i < cells.len() && cells[i].name@ == names[u]@ && 0 <= j < cells[i].instances@.len()
            && cells[i].instances@[j].cell_name@ == b;
    assert(names[i]@ == cells[i].name@);
    assert(i == u);
    assert(adj[u]@[j] < names.len());
    assert(names[adj[u]@[j] as int]@ == b);
}

/// Orders the cells of a layout leaves first: every cell appears once, after
/// every cell it places (a placed name that is no cell of the layout appears
/// too, as a leaf). A placement cycle is an error naming a cell on it.
pub fn topo_sort(cells: &Vec<HierCell>) -> (r: Result<Vec<String>, String>)
    requires
        names_distinct(cells@),
    ensures
        r matches Ok(order) ==> {
            &&& forall|i: int| 0 <= i < cells@.len() ==> views(order@).contains(#[trigger] cells@[i].name@)
            &&& views(order@).no_duplicates()
            &&& forall|k: int| 0 <= k < order@.len() ==> named(cells@, #[trigger] order@[k]@)
            &&& leaves_first(cells@, views(order@))
        },
        r matches Err(name) ==> exists|p: Seq<Seq<char>>| #[trigger] is_cycle(cells@, p) && p[0] == name@,
{
    let (names, adj) = index_graph(cells);
    proof {
        assert forall|u: int, j: int| 0 <= u < adj@.len() && 0 <= j < adj@[u]@.len() implies #[trigger] adj@[u]@[j] < adj@.len() by {
            if u >= cells@.len() {
                assert(adj@[u]@.len() == 0);
            }
        }
    }
    match dfs_from(&adj, cells.len()) {
        Ok(order) => {
            let mut out: Vec<String> = Vec::new();
            let mut k: usize = 0;
            while k < order.len()
                invariant
                    k <= order@.len(),
                    out@.len() == k,
                    names@.len() == adj@.len(),
                    forall|q: int| 0 <= q < order@.len() ==> #[trigger] order@[q] < adj@.len(),
                    forall|q: int| 0 <= q < k ==> #[trigger] out@[q]@ == names@[order@[q] as int]@,
                decreases order@.len() - k,
            {
                out.push(names[order[k]].clone());
                k = k + 1;
            }
            proof {
                let vo = views(out@);
                assert(vo.len() == order@.len());
                assert forall|q: int| 0 <= q < vo.len() implies #[trigger] vo[q] == names@[order@[q] as int]@ by {
                    assert(vo[q] == out@[q]@);
                }
                assert forall|i: int| 0 <= i < cells@.len() implies vo.contains(#[trigger] cells@[i].name@) by {
                    assert(order@.contains(i as usize));
                    let q = order@.index_of(i as usize);
                    assert(vo[q] == names@[i]@);
                }
                assert(vo.no_duplicates()) by {
                    assert forall|a: int, b: int| 0 <= a < vo.len() && 0 <= b < vo.len() && a != b implies vo[a] != vo[b] by {
                        assert(order@[a] != order@[b]);
                        assert(vo[a] == names@[order@[a] as int]@);
                        assert(vo[b] == names@[order@[b] as int]@);
                    }
                }
                assert forall|q: int| 0 <= q < out@.len() implies named(cells@, #[trigger] out@[q]@) by {
                    assert(out@[q]@ == names@[order@[q] as int]@);
                }
                assert forall|q: int, b: Seq<char>| 0 <= q < vo.len() && #[trigger] places(cells@, vo[q], b)
                    implies vo.subrange(0, q).contains(b) by {
                    let u = order@[q] as int;
                    assert(vo[q] == names@[u]@);
                    lemma_index_of_edge(cells@, names@, adj@, u, b);
                    let j = choose|j: int| 0 <= j < adj@[u]@.len() && #[trigger] names@[adj@[u]@[j] as int]@ == b;
                    let c = adj@[u]@[j];
                    assert(order@.subrange(0, q).contains(c));
                    let m = order@.subrange(0, q).index_of(c);
                    assert(order@[m] == c);
                    assert(vo.subrange(0, q)[m] == vo[m]);
                    assert(vo[m] == names@[c as int]@);
                }
            }
            Ok(out)
        },
        Err(w) => {
            proof {
                let p = choose|p: Seq<usize>| #[trigger] idx_cycle(adj@, p, w);
                let q = p.map_values(|x: usize| names@[x as int]@);
                assert forall|t: int| 0 <= t < q.len() - 1 implies #[trigger] cycle_step(cells@, q, t) by {
                    assert(idx_step(adj@, p, t));
                    lemma_edge_of_index(cells@, names@, adj@, p[t] as int, p[t + 1]);
                }
                assert(is_cycle(cells@, q));
            }
            Err(names[w].clone())
        },
    }
}

proof fn lemma_descends(cells: Seq<HierCell>, order: Seq<Seq<char>>, p: Seq<Seq<char>>, t: int)
    requires
        forall|i: int| 0 <= i < cells.len() ==> order.contains(#[trigger] cells[i].name@),
        order.no_duplicates(),
        leaves_first(cells, order),
        is_cycle(cells, p),
        1 <= t <= p.len() - 1,
    ensures
        order.contains(p[t]),
        order.contains(p[0]),
        order.index_of(p[t]) < order.index_of(p[0]),
    decreases t,
{
    let prev = t - 1;
    assert(cycle_step(cells, p, prev));
    let (i, j) = choose|i: int, j: int|
        #![trigger cells[i].instances@[j]]
        0 <= i < cells.len() && cells[i].name@ == p[prev] && 0 <= j < cells[i].instances@.len()
            && cells[i].instances@[j].cell_name@ == p[t];
    assert(order.contains(cells[i].name@));
    let k = order.index_of(p[prev]);
    assert(order[k] == p[prev]);
    assert(places(cells, order[k], p[t]));
    assert(order.subrange(0, k).contains(p[t]));
    let m = order.subrange(0, k).index_of(p[t]);
    assert(order[m] == p[t]);
    assert(order.contains(p[t]));
    assert(order.index_of(p[t]) == m);
    if t > 1 {
        lemma_descends(cells, order, p, prev);
    }
}

/// A listing of all cells in which every cell comes after each cell it places
/// leaves no room for a placement cycle. With the error case of `topo_sort`,
/// this makes `topo_sort` succeed exactly on hierarchies without a cycle.
pub proof fn lemma_leaves_first_acyclic(cells: Seq<HierCell>, order: Seq<Seq<char>>, p: Seq<Seq<char>>)
    requires
        forall|i: int| 0 <= i < cells.len() ==> order.contains(#[trigger] cells[i].name@),
        order.no_duplicates(),
        leaves_first(cells, order),
    ensures
        !is_cycle(cells, p),
{
    if is_cycle(cells, p) {
        lemma_descends(cells, order, p, p.len() - 1);
    }
}

/// `b` moved by `(dx, dy)`.
pub open spec fn translated(b: Bbox, dx: int, dy: int) -> Bbox {
    Bbox {
        xmin: (b.xmin + dx) as i32,
        ymin: (b.ymin + dy) as i32,
        xmax: (b.xmax + dx) as i32,
        ymax: (b.ymax + dy) as i32,
    }
}

/// Moving `b` by `(dx, dy)` keeps every coordinate in range.
pub open spec fn fits_translated(b: Bbox, dx: int, dy: int) -> bool {
    &&& i32::MIN <= b.xmin + dx <= i32::MAX
    &&& i32::MIN <= b.ymin + dy <= i32::MAX
    &&& i32::MIN <= b.xmax + dx <= i32::MAX
    &&& i32::MIN <= b.ymax + dy <= i32::MAX
}

/// `p` moved by `(dx, dy)`.
pub open spec fn moved_point(p: Point, dx: int, dy: int) -> Point {
    Point { x: (p.x + dx) as i32, y: (p.y + dy) as i32 }
}

/// Moving every vertex of `r` by `(dx, dy)` keeps it in range.
pub open spec fn ring_fits(r: Seq<Point>, dx: int, dy: int) -> bool {
    forall|k: int| 0 <= k < r.len() ==> i32::MIN <= (#[trigger] r[k]).x + dx <= i32::MAX && i32::MIN <= r[k].y + dy <= i32::MAX
}

fn translated_ring(ring: &Vec<Point>, dx: i32, dy: i32) -> (out: Vec<Point>)
    requires
        ring_fits(ring@, dx as int, dy as int),
    ensures
        out@ == ring@.map_values(|p: Point| moved_point(p, dx as int, dy as int)),
{
    let ghost target = ring@.map_values(|p: Point| moved_point(p, dx as int, dy as int));
    let mut out: Vec<Point> = Vec::new();
    let mut k: usize = 0;
    while k < ring.len()
        invariant
            k <= ring@.len(),
            ring_fits(ring@, dx as int, dy as int),
            target == ring@.map_values(|p: Point| moved_point(p, dx as int, dy as int)),
            out@ == target.take(k as int),
        decreases ring@.len() - k,
    {
        let q = ring[k];
        assert(i32::MIN <= ring@[k as int].x + dx <= i32::MAX && i32::MIN <= ring@[k as int].y + dy <= i32::MAX);
        out.push(Point { x: q.x + dx, y: q.y + dy });
        assert(out@ =~= target.take(k as int + 1));
        k = k + 1;
    }
    assert(target.take(k as int) =~= target);
    out
}

/// Copies every polygon of `src` into `dst`, moved by `(dx, dy)`, after the
/// polygons `dst` already holds.
pub fn append_translated(dst: &mut GeometryStore, src: &GeometryStore, dx: i32, dy: i32)
    requires
        old(dst).wf(),
        src.wf(),
        forall|i: int| 0 <= i < src.poly_bbox@.len() ==> fits_translated(#[trigger] src.poly_bbox@[i], dx as int, dy as int),
        forall|i: int| 0 <= i < src.poly_ring@.len() ==> ring_fits(#[trigger] src.ring(i), dx as int, dy as int),
    ensures
        final(dst).wf(),
        final(dst).poly_layer@ == old(dst).poly_layer@ + src.poly_layer@,
        final(dst).poly_bbox@ == old(dst).poly_bbox@ + src.poly_bbox@.map_values(|b: Bbox| translated(b, dx as int, dy as int)),
        forall|i: int| 0 <= i < old(dst).poly_ring@.len() ==> #[trigger] final(dst).ring(i) == old(dst).ring(i),
        forall|i: int| 0 <= i < src.poly_ring@.len() ==> #[trigger] final(dst).ring(old(dst).poly_ring@.len() + i)
            == src.ring(i).map_values(|p: Point| moved_point(p, dx as int, dy as int)),
{
    let ghost layers0 = dst.poly_layer@;
    let ghost boxes0 = dst.poly_bbox@;
    let ghost rings0 = dst.poly_ring@;
    let ghost moved = src.poly_bbox@.map_values(|b: Bbox| translated(b, dx as int, dy as int));
    let mut p: usize = 0;
    while p < src.poly_bbox.len()
        invariant
            src.wf(),
            p <= src.poly_bbox@.len(),
            forall|i: int| 0 <= i < src.poly_bbox@.len() ==> fits_translated(#[trigger] src.poly_bbox@[i], dx as int, dy as int),
            forall|i: int| 0 <= i < src.poly_ring@.len() ==> ring_fits(#[trigger] src.ring(i), dx as int, dy as int),
            moved == src.poly_bbox@.map_values(|b: Bbox| translated(b, dx as int, dy as int)),
            dst.poly_layer@ == layers0 + src.poly_layer@.subrange(0, p as int),
            dst.poly_bbox@ == boxes0 + moved.subrange(0, p as int),
            dst.poly_ring@.len() == rings0.len() + p,
            forall|i: int| 0 <= i < rings0.len() ==> #[trigger] dst.ring(i) == rings0[i]@,
            forall|i: int| 0 <= i < p ==> #[trigger] dst.ring(rings0.len() + i)
                == src.ring(i).map_values(|q: Point| moved_point(q, dx as int, dy as int)),
        decreases src.poly_bbox@.len() - p,
    {
        let b = src.poly_bbox[p];
        assert(fits_translated(src.poly_bbox@[p as int], dx as int, dy as int));
        let t = Bbox { xmin: b.xmin + dx, ymin: b.ymin + dy, xmax: b.xmax + dx, ymax: b.ymax + dy };
        assert(ring_fits(src.ring(p as int), dx as int, dy as int));
        let ring = translated_ring(&src.poly_ring[p], dx, dy);
        let ghost before = dst.poly_ring@;
        assert forall|i: int| 0 <= i < rings0.len() implies #[trigger] before[i]@ == rings0[i]@ by {
            assert(dst.ring(i) == rings0[i]@);
        }
        assert forall|i: int| 0 <= i < p implies #[trigger] before[rings0.len() + i]@
            == src.ring(i).map_values(|q: Point| moved_point(q, dx as int, dy as int)) by {
            assert(dst.ring(rings0.len() + i) == src.ring(i).map_values(|q: Point| moved_point(q, dx as int, dy as int)));
        }
        dst.poly_layer.push(src.poly_layer[p]);
        dst.poly_bbox.push(t);
        dst.poly_ring.push(ring);
        proof {
            assert(t == moved[p as int]);
            assert(src.poly_layer@.subrange(0, p as int + 1) =~= src.poly_layer@.subrange(0, p as int).push(src.poly_layer@[p as int]));
            assert(moved.subrange(0, p as int + 1) =~= moved.subrange(0, p as int).push(moved[p as int]));
            assert forall|i: int| 0 <= i < rings0.len() implies #[trigger] dst.ring(i) == rings0[i]@ by {
                assert(dst.poly_ring@[i] == before[i]);
                assert(before[i]@ == rings0[i]@);
            }
            assert forall|i: int| 0 <= i < p + 1 implies #[trigger] dst.ring(rings0.len() + i)
                == src.ring(i).map_values(|q: Point| moved_point(q, dx as int, dy as int)) by {
                if i < p {
                    assert(dst.poly_ring@[rings0.len() + i] == before[rings0.len() + i]);
                    assert(before[rings0.len() + i]@ == src.ring(i).map_values(|q: Point| moved_point(q, dx as int, dy as int)));
                } else {
                    assert(dst.poly_ring@[rings0.len() + i] == ring);
                }
            }
        }
        p = p + 1;
    }
    proof {
        assert(src.poly_layer@.subrange(0, p as int) =~= src.poly_layer@);
        assert(moved.subrange(0, p as int) =~= moved);
    }
}

} // verus!
