//! Which conductor nodes join into one net: a pair of nodes joins when
//! their regions make contact and the deck's connectivity lets their layers
//! connect, a gate never joining the channel segments it splits.
use vstd::prelude::*;
use crate::geometry::{Bbox, GeometryStore};
use crate::lvs::rectilinear::{
    all_rectilinear, copy_ring, rectilinear_intersection_area, rectilinear_regions_touch, regions_view, shared_area, slices_meet,
    PolyRegion, RegionV,
};

verus! {

/// A piece of conductor: a whole polygon, or one segment of a split channel
/// polygon (`is_diff_seg`), clipped to `clip`.
#[derive(Clone, Copy, Debug)]
pub struct Node {
    pub bbox: Bbox,
    pub layer: u32,
    pub is_diff_seg: bool,
    pub poly: usize,
    pub clip: Bbox,
}

/// The layers and switches that decide which nodes may join.
pub struct JoinRules {
    pub gate_layers: Vec<u32>,
    pub channel_layers: Vec<u32>,
    /// For each via layer, the layers it connects.
    pub vias: Vec<(u32, Vec<u32>)>,
    /// Layers join only through a via shape.
    pub cut_required: bool,
    /// Shapes on one layer join when their boundaries touch.
    pub intra_layer_touch: bool,
}

/// The first via declaration for `layer` among the first `k`.
pub open spec fn first_decl(vias: Seq<(u32, Vec<u32>)>, layer: u32, k: int) -> Option<int>
    decreases k,
{
    if k <= 0 {
        None
    } else {
        match first_decl(vias, layer, k - 1) {
            Some(i) => Some(i),
            None => if vias[k - 1].0 == layer {
                Some(k - 1)
            } else {
                None
            },
        }
    }
}

/// Some layer of `connects` is a channel layer (or, with `also`, is `also`).
pub open spec fn meets_channel(connects: Seq<u32>, channel: Seq<u32>, also: Option<u32>) -> bool {
    exists|i: int| 0 <= i < connects.len() && (channel.contains(#[trigger] connects[i]) || also == Some(connects[i]))
}

/// Via node `via` reaches `other`: the via layer's first declaration lists
/// the other layer, or the other is a channel segment and the declaration
/// lists a channel layer.
pub open spec fn via_reaches(rules: JoinRules, via: Node, other: Node) -> bool {
    match first_decl(rules.vias@, via.layer, rules.vias@.len() as int) {
        Some(k) => {
            let connects = rules.vias@[k].1@;
            connects.contains(other.layer) || (other.is_diff_seg && meets_channel(connects, rules.channel_layers@, Some(other.layer)))
        },
        None => false,
    }
}

/// Via declaration `k` covers node `x`'s layer (a channel segment counting
/// as any channel layer).
pub open spec fn declared(rules: JoinRules, k: int, x: Node) -> bool {
    let connects = rules.vias@[k].1@;
    connects.contains(x.layer) || (x.is_diff_seg && meets_channel(connects, rules.channel_layers@, None))
}

/// Touching nodes `a` and `b` may join: never a gate with a channel
/// segment; always two nodes on one layer or a via with a layer it reaches;
/// otherwise, when cuts are not required, any layers if no via is declared,
/// else two layers that one via declaration covers.
pub open spec fn can_join(rules: JoinRules, a: Node, b: Node) -> bool {
    if (rules.gate_layers@.contains(a.layer) && b.is_diff_seg) || (rules.gate_layers@.contains(b.layer) && a.is_diff_seg) {
        false
    } else if a.layer == b.layer {
        true
    } else if via_reaches(rules, a, b) || via_reaches(rules, b, a) {
        true
    } else if rules.cut_required {
        false
    } else if rules.vias@.len() == 0 {
        true
    } else {
        exists|k: int| 0 <= k < rules.vias@.len() && #[trigger] declared(rules, k, a) && declared(rules, k, b)
    }
}

/// The region of a node: its polygon's ring clipped to the node's box.
pub open spec fn node_region(store: GeometryStore, n: Node) -> RegionV {
    RegionV { ring: store.ring(n.poly as int), clip: n.clip }
}

/// Nodes `a` and `b` make contact: they share area, or (same layer, with
/// touching enabled) their rectilinear boundaries meet.
pub open spec fn contact(store: GeometryStore, touch: bool, a: Node, b: Node) -> bool {
    let r = seq![node_region(store, a), node_region(store, b)];
    if touch && a.layer == b.layer {
        shared_area(r) > 0 || (all_rectilinear(r) && slices_meet(r[0], r[1]))
    } else {
        shared_area(r) > 0
    }
}

/// A candidate pair joins: its nodes make contact and may join.
pub open spec fn joins(store: GeometryStore, rules: JoinRules, nodes: Seq<Node>) -> spec_fn((u32, u32)) -> bool {
    |p: (u32, u32)| contact(store, rules.intra_layer_touch, nodes[p.0 as int], nodes[p.1 as int])
        && can_join(rules, nodes[p.0 as int], nodes[p.1 as int])
}

fn contains_layer(v: &Vec<u32>, x: u32) -> (b: bool)
    ensures
        b == v@.contains(x),
{
    let mut i: usize = 0;
    while i < v.len()
        invariant
            i <= v@.len(),
            forall|j: int| 0 <= j < i ==> v@[j] != x,
        decreases v@.len() - i,
    {
        if v[i] == x {
            assert(v@[i as int] == x);
            return true;
        }
        i = i + 1;
    }
    false
}

fn meets_channel_exec(connects: &Vec<u32>, channel: &Vec<u32>, also: Option<u32>) -> (b: bool)
    ensures
        b == meets_channel(connects@, channel@, also),
{
    let mut i: usize = 0;
    while i < connects.len()
        invariant
            i <= connects@.len(),
            forall|j: int| 0 <= j < i ==> !(channel@.contains(#[trigger] connects@[j]) || also == Some(connects@[j])),
        decreases connects@.len() - i,
    {
        let c = connects[i];
        let hit = contains_layer(channel, c) || match also {
            Some(x) => x == c,
            None => false,
        };
        if hit {
            assert(channel@.contains(connects@[i as int]) || also == Some(connects@[i as int]));
            return true;
        }
        i = i + 1;
    }
    false
}

fn via_reaches_exec(rules: &JoinRules, via: &Node, other: &Node) -> (b: bool)
    ensures
        b == via_reaches(*rules, *via, *other),
{
    let mut k: usize = 0;
    while k < rules.vias.len()
        invariant
            k <= rules.vias@.len(),
            first_decl(rules.vias@, via.layer, k as int) is None,
        decreases rules.vias@.len() - k,
    {
        if rules.vias[k].0 == via.layer {
            proof {
                lemma_first_decl_stays(rules.vias@, via.layer, k as int + 1, rules.vias@.len() as int);
            }
            let connects = &rules.vias[k].1;
            return contains_layer(connects, other.layer)
                || (other.is_diff_seg && meets_channel_exec(connects, &rules.channel_layers, Some(other.layer)));
        }
        k = k + 1;
    }
    false
}

proof fn lemma_first_decl_stays(vias: Seq<(u32, Vec<u32>)>, layer: u32, k: int, n: int)
    requires
        0 < k <= n,
        first_decl(vias, layer, k) is Some,
    ensures
        first_decl(vias, layer, n) == first_decl(vias, layer, k),
    decreases n - k,
{
    if n > k {
        lemma_first_decl_stays(vias, layer, k, n - 1);
    }
}

fn declared_exec(rules: &JoinRules, k: usize, x: &Node) -> (b: bool)
    requires
        k < rules.vias@.len(),
    ensures
        b == declared(*rules, k as int, *x),
{
    let connects = &rules.vias[k].1;
    contains_layer(connects, x.layer) || (x.is_diff_seg && meets_channel_exec(connects, &rules.channel_layers, None))
}

/// Whether touching nodes `a` and `b` may join (see `can_join`).
pub fn can_join_exec(rules: &JoinRules, a: &Node, b: &Node) -> (r: bool)
    ensures
        r == can_join(*rules, *a, *b),
{
    if (contains_layer(&rules.gate_layers, a.layer) && b.is_diff_seg) || (contains_layer(&rules.gate_layers, b.layer) && a.is_diff_seg) {
        return false;
    }
    if a.layer == b.layer {
        return true;
    }
    if via_reaches_exec(rules, a, b) || via_reaches_exec(rules, b, a) {
        return true;
    }
    if rules.cut_required {
        return false;
    }
    if rules.vias.len() == 0 {
        return true;
    }
    let mut k: usize = 0;
    while k < rules.vias.len()
        invariant
            k <= rules.vias@.len(),
            !((rules.gate_layers@.contains(a.layer) && b.is_diff_seg) || (rules.gate_layers@.contains(b.layer) && a.is_diff_seg)),
            a.layer != b.layer,
            !(via_reaches(*rules, *a, *b) || via_reaches(*rules, *b, *a)),
            !rules.cut_required,
            rules.vias@.len() > 0,
            forall|q: int| 0 <= q < k ==> !(#[trigger] declared(*rules, q, *a) && declared(*rules, q, *b)),
        decreases rules.vias@.len() - k,
    {
        if declared_exec(rules, k, a) && declared_exec(rules, k, b) {
            assert(declared(*rules, k as int, *a) && declared(*rules, k as int, *b));
            return true;
        }
        k = k + 1;
    }
    false
}

fn region_of_node(store: &GeometryStore, n: &Node) -> (r: PolyRegion)
    requires
        store.wf(),
        n.poly < store.poly_layer@.len(),
    ensures
        r.view() == node_region(*store, *n),
{
    PolyRegion { ring: copy_ring(&store.poly_ring[n.poly]), clip: n.clip }
}

fn contact_exec(store: &GeometryStore, touch: bool, a: &Node, b: &Node) -> (r: bool)
    requires
        store.wf(),
        a.poly < store.poly_layer@.len(),
        b.poly < store.poly_layer@.len(),
    ensures
        r == contact(*store, touch, *a, *b),
{
    let ra = region_of_node(store, a);
    let rb = region_of_node(store, b);
    if touch && a.layer == b.layer {
        rectilinear_regions_touch(&ra, &rb)
    } else {
        let pair = vec![ra, rb];
        assert(regions_view(pair@) =~= seq![node_region(*store, *a), node_region(*store, *b)]);
        rectilinear_intersection_area(&pair) > 0
    }
}

/// The candidate pairs, in order, whose nodes make contact and may join.
pub fn joining_pairs(store: &GeometryStore, rules: &JoinRules, nodes: &Vec<Node>, candidates: &Vec<(u32, u32)>) -> (r: Vec<(u32, u32)>)
    requires
        store.wf(),
        forall|i: int| 0 <= i < nodes@.len() ==> (#[trigger] nodes@[i]).poly < store.poly_layer@.len(),
        forall|k: int| 0 <= k < candidates@.len() ==> (#[trigger] candidates@[k]).0 < nodes@.len() && candidates@[k].1 < nodes@.len(),
    ensures
        r@ == candidates@.filter(joins(*store, *rules, nodes@)),
{
    let ghost keep = joins(*store, *rules, nodes@);
    let mut r: Vec<(u32, u32)> = Vec::new();
    let mut k: usize = 0;
    while k < candidates.len()
        invariant
            store.wf(),
            forall|i: int| 0 <= i < nodes@.len() ==> (#[trigger] nodes@[i]).poly < store.poly_layer@.len(),
            forall|q: int| 0 <= q < candidates@.len() ==> (#[trigger] candidates@[q]).0 < nodes@.len() && candidates@[q].1 < nodes@.len(),
            keep == joins(*store, *rules, nodes@),
            k <= candidates@.len(),
            r@ == candidates@.take(k as int).filter(keep),
        decreases candidates@.len() - k,
    {
        let (i, j) = candidates[k];
        proof {
            reveal(Seq::filter);
            let t = candidates@.take(k as int + 1);
            assert(t.drop_last() =~= candidates@.take(k as int));
            assert(t.last() == candidates@[k as int]);
        }
        let a = &nodes[i as usize];
        let b = &nodes[j as usize];
        if contact_exec(store, rules.intra_layer_touch, a, b) && can_join_exec(rules, a, b) {
            r.push((i, j));
        }
        k = k + 1;
    }
    assert(candidates@.take(k as int) =~= candidates@);
    r
}


/// Polygon `i` becomes a node of its own: its layer is not a channel layer
/// and is a conductor or via layer.
pub open spec fn own_node(store: GeometryStore, channels: Seq<u32>, conductors: Seq<u32>, vias: Seq<u32>, i: int) -> bool {
    let l = store.poly_layer@[i];
    !channels.contains(l) && (conductors.contains(l) || vias.contains(l))
}

/// The node of a whole polygon.
pub open spec fn poly_node(store: GeometryStore, i: int) -> Node {
    Node { bbox: store.poly_bbox@[i], layer: store.poly_layer@[i], is_diff_seg: false, poly: i as usize, clip: store.poly_bbox@[i] }
}

/// The nodes of the first `k` polygons that are nodes of their own.
pub open spec fn conductor_nodes(store: GeometryStore, channels: Seq<u32>, conductors: Seq<u32>, vias: Seq<u32>, k: int) -> Seq<Node>
    decreases k,
{
    if k <= 0 {
        Seq::empty()
    } else if own_node(store, channels, conductors, vias, k - 1) {
        conductor_nodes(store, channels, conductors, vias, k - 1).push(poly_node(store, k - 1))
    } else {
        conductor_nodes(store, channels, conductors, vias, k - 1)
    }
}

/// The nodes of the polygons on conductor and via layers outside the
/// channel layers, in polygon order, and for each polygon the index of its
/// node (`u32::MAX` for none).
pub fn build_conductor_nodes(store: &GeometryStore, channels: &Vec<u32>, conductors: &Vec<u32>, vias: &Vec<u32>) -> (r: (Vec<Node>, Vec<u32>))
    requires
        store.wf(),
        store.poly_layer@.len() < u32::MAX,
    ensures
        r.0@ == conductor_nodes(*store, channels@, conductors@, vias@, store.poly_layer@.len() as int),
        r.1@.len() == store.poly_layer@.len(),
        forall|i: int| 0 <= i < store.poly_layer@.len() ==> #[trigger] r.1@[i] == if own_node(*store, channels@, conductors@, vias@, i) {
            conductor_nodes(*store, channels@, conductors@, vias@, i).len() as u32
        } else {
            u32::MAX
        },
{
    let n = store.poly_layer.len();
    let mut nodes: Vec<Node> = Vec::new();
    let mut node_of_poly: Vec<u32> = Vec::new();
    let mut i: usize = 0;
    while i < n
        invariant
            store.wf(),
            n == store.poly_layer@.len(),
            n < u32::MAX,
            i <= n,
            nodes@ == conductor_nodes(*store, channels@, conductors@, vias@, i as int),
            nodes@.len() <= i,
            node_of_poly@.len() == i,
            forall|q: int| 0 <= q < i ==> #[trigger] node_of_poly@[q] == if own_node(*store, channels@, conductors@, vias@, q) {
                conductor_nodes(*store, channels@, conductors@, vias@, q).len() as u32
            } else {
                u32::MAX
            },
        decreases n - i,
    {
        let l = store.poly_layer[i];
        if !contains_layer(channels, l) && (contains_layer(conductors, l) || contains_layer(vias, l)) {
            node_of_poly.push(nodes.len() as u32);
            let b = store.poly_bbox[i];
            nodes.push(Node { bbox: b, layer: l, is_diff_seg: false, poly: i, clip: b });
        } else {
            node_of_poly.push(u32::MAX);
        }
        i = i + 1;
    }
    (nodes, node_of_poly)
}

/// The node of segment `(lo, hi)` of channel polygon `d` on `layer`: the
/// polygon's box cut to the segment along the channel's axis.
pub open spec fn segment_node(store: GeometryStore, d: int, layer: u32, axis_x: bool, seg: (i32, i32)) -> Node {
    let db = store.poly_bbox@[d];
    let bb = if axis_x {
        Bbox { xmin: seg.0, xmax: seg.1, ymin: db.ymin, ymax: db.ymax }
    } else {
        Bbox { xmin: db.xmin, xmax: db.xmax, ymin: seg.0, ymax: seg.1 }
    };
    Node { bbox: bb, layer, is_diff_seg: true, poly: d as usize, clip: bb }
}

/// The nodes of the segments of split channel polygon `d`, in order.
pub fn segment_nodes(store: &GeometryStore, d: usize, layer: u32, axis_x: bool, segs: &Vec<(i32, i32)>) -> (r: Vec<Node>)
    requires
        store.wf(),
        d < store.poly_layer@.len(),
    ensures
        r@.len() == segs@.len(),
        forall|k: int| 0 <= k < segs@.len() ==> #[trigger] r@[k] == segment_node(*store, d as int, layer, axis_x, segs@[k]),
{
    let db = store.poly_bbox[d];
    let mut r: Vec<Node> = Vec::new();
    let mut k: usize = 0;
    while k < segs.len()
        invariant
            store.wf(),
            d < store.poly_layer@.len(),
            db == store.poly_bbox@[d as int],
            k <= segs@.len(),
            r@.len() == k,
            forall|q: int| 0 <= q < k ==> #[trigger] r@[q] == segment_node(*store, d as int, layer, axis_x, segs@[q]),
        decreases segs@.len() - k,
    {
        let (lo, hi) = segs[k];
        let bb = if axis_x {
            Bbox { xmin: lo, xmax: hi, ymin: db.ymin, ymax: db.ymax }
        } else {
            Bbox { xmin: db.xmin, xmax: db.xmax, ymin: lo, ymax: hi }
        };
        r.push(Node { bbox: bb, layer, is_diff_seg: true, poly: d, clip: bb });
        k = k + 1;
    }
    r
}

} // verus!
