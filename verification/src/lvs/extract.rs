//! Netlist extraction: conductor polygons and the segments of channel
//! polygons split at their gates become nodes; touching nodes whose layers
//! may connect share a net; transistors, passives and bipolar devices are
//! recognized over those nets; labels merge global nets and flag conflicts;
//! the MOS devices are reduced and the nets that touch no terminal reported.
use vstd::prelude::*;
use crate::geometry::{area2, has_repeated_vertex, ring_area2, Bbox, GeometryStore, Point};
use crate::lvs::rectilinear::{axis_edge, is_rectilinear};
use crate::text::{decimal, push_decimal};
use crate::io::params::{BjtRule, CapRule, Deck, DiodeRule, MosRule, ResistorRule};
use crate::lvs::channel::{split_channel, split_spec, lemma_split_tiles, DiffSplit};
use crate::lvs::connect::{build_conductor_nodes, conductor_nodes, own_node, poly_node, segment_node, segment_nodes, Node};
use crate::lvs::candidates::{near, node_candidate_pairs};
use crate::lvs::connect::{joining_pairs, joins, JoinRules};
use crate::lvs::labels::{
    find_floating_nets, find_label_conflicts, floating_nets, floating_view, label_conflicts, merge_global_nets, merge_globals,
};
use crate::lvs::nets::{first_of_net, joined, lemma_nets_before_le, nets_before, nets_of_nodes};
use crate::lvs::recognize::{
    bjt_rules, bjts_view, extract_bjt_devices, extract_two_terminal_devices, passives_of, passives_view, resolve_connectivity,
    PassiveDevice,
};
use crate::lvs::reduce::{copy_device, reduce_netlist_with_protected, reduce_spec, used_set};
use crate::lvs::transistors::{gate_outcome, mos_devices_of_split, mos_views, split_devices, MosV};
use crate::lvs::channel::GateSpan;
use crate::lvs::types::{
    BjtDevice, Device, DeviceRecognitionSource, ExtractOpts, ExtractedNetlist, FloatingNet, TwoTerminalDevice,
};

verus! {

// --- gate and channel layers ---

/// `r` with `x` added in its place, unless `r` holds it already.
pub open spec fn ins_layer(r: Seq<u32>, x: u32) -> Seq<u32> {
    if r.contains(x) {
        r
    } else {
        r.filter(|y: u32| y < x).push(x) + r.filter(|y: u32| y > x)
    }
}

/// The values of `s`, ascending, each once.
pub open spec fn sorted_layers(s: Seq<u32>) -> Seq<u32>
    decreases s.len(),
{
    if s.len() == 0 {
        Seq::empty()
    } else {
        ins_layer(sorted_layers(s.drop_last()), s.last())
    }
}

/// Gate layers of the MOS rules, ascending, each once.
pub open spec fn gate_layers_of(rules: Seq<MosRule>) -> Seq<u32> {
    sorted_layers(rules.map_values(|r: MosRule| r.gate_layer))
}

/// The channel layers of the MOS rules, ascending, each once.
pub open spec fn channel_layers_of(rules: Seq<MosRule>) -> Seq<u32> {
    sorted_layers(rules.map_values(|r: MosRule| r.channel_layer))
}

fn insert_layer(r: &Vec<u32>, x: u32) -> (out: Vec<u32>)
    ensures
        out@ == ins_layer(r@, x),
{
    let mut i: usize = 0;
    while i < r.len()
        invariant
            i <= r@.len(),
            forall|j: int| 0 <= j < i ==> r@[j] != x,
        decreases r@.len() - i,
    {
        if r[i] == x {
            proof {
                assert(r@.contains(x));
            }
            return copy_layers(r);
        }
        i = i + 1;
    }
    let ghost below = |y: u32| y < x;
    let ghost above = |y: u32| y > x;
    let mut out: Vec<u32> = Vec::new();
    let mut k: usize = 0;
    while k < r.len()
        invariant
            k <= r@.len(),
            below == (|y: u32| y < x),
            out@ == r@.take(k as int).filter(below),
        decreases r@.len() - k,
    {
        proof {
            reveal(Seq::filter);
            let t = r@.take(k as int + 1);
            assert(t.drop_last() =~= r@.take(k as int));
            assert(t.last() == r@[k as int]);
        }
        if r[k] < x {
            out.push(r[k]);
        }
        k = k + 1;
    }
    assert(r@.take(k as int) =~= r@);
    out.push(x);
    let ghost head = out@;
    let mut k: usize = 0;
    while k < r.len()
        invariant
            k <= r@.len(),
            above == (|y: u32| y > x),
            out@ == head + r@.take(k as int).filter(above),
        decreases r@.len() - k,
    {
        proof {
            reveal(Seq::filter);
            let t = r@.take(k as int + 1);
            assert(t.drop_last() =~= r@.take(k as int));
            assert(t.last() == r@[k as int]);
        }
        if r[k] > x {
            out.push(r[k]);
            assert(out@ =~= head + r@.take(k as int + 1).filter(above));
        }
        k = k + 1;
    }
    assert(r@.take(k as int) =~= r@);
    assert(below =~= |y: u32| y < x);
    assert(above =~= |y: u32| y > x);
    assert(!r@.contains(x)) by {
        if r@.contains(x) {
            let j = choose|j: int| 0 <= j < r@.len() && r@[j] == x;
            assert(r@[j] != x);
        }
    }
    out
}

/// A copy of `v`.
pub fn copy_layers(v: &Vec<u32>) -> (r: Vec<u32>)
    ensures
        r@ == v@,
{
    let mut r: Vec<u32> = Vec::new();
    let mut i: usize = 0;
    while i < v.len()
        invariant
            i <= v@.len(),
            r@ == v@.take(i as int),
        decreases v@.len() - i,
    {
        r.push(v[i]);
        assert(r@ =~= v@.take(i as int + 1));
        i = i + 1;
    }
    assert(v@.take(i as int) =~= v@);
    r
}

/// Gate layers (`gates`) or channel layers of the rules, ascending,
/// each once.
fn rule_layers(rules: &Vec<MosRule>, gates: bool) -> (r: Vec<u32>)
    ensures
        gates ==> r@ == gate_layers_of(rules@),
        !gates ==> r@ == channel_layers_of(rules@),
{
    let ghost f = if gates { |m: MosRule| m.gate_layer } else { |m: MosRule| m.channel_layer };
    let mut r: Vec<u32> = Vec::new();
    let mut i: usize = 0;
    while i < rules.len()
        invariant
            i <= rules@.len(),
            f == (if gates { |m: MosRule| m.gate_layer } else { |m: MosRule| m.channel_layer }),
            r@ == sorted_layers(rules@.take(i as int).map_values(f)),
        decreases rules@.len() - i,
    {
        let x = if gates { rules[i].gate_layer } else { rules[i].channel_layer };
        proof {
            let t = rules@.take(i as int + 1).map_values(f);
            assert(t.drop_last() =~= rules@.take(i as int).map_values(f));
            assert(t.last() == x);
        }
        r = insert_layer(&r, x);
        i = i + 1;
    }
    assert(rules@.take(i as int) =~= rules@);
    proof {
        if gates {
            assert(rules@.map_values(f) =~= rules@.map_values(|m: MosRule| m.gate_layer));
        } else {
            assert(rules@.map_values(f) =~= rules@.map_values(|m: MosRule| m.channel_layer));
        }
    }
    r
}

/// A sorted copy of the values of `v`, each once.
fn sort_layers(v: &Vec<u32>) -> (r: Vec<u32>)
    ensures
        r@ == sorted_layers(v@),
{
    let mut r: Vec<u32> = Vec::new();
    let mut i: usize = 0;
    while i < v.len()
        invariant
            i <= v@.len(),
            r@ == sorted_layers(v@.take(i as int)),
        decreases v@.len() - i,
    {
        proof {
            let t = v@.take(i as int + 1);
            assert(t.drop_last() =~= v@.take(i as int));
        }
        r = insert_layer(&r, v[i]);
        i = i + 1;
    }
    assert(v@.take(i as int) =~= v@);
    r
}

// --- geometry that exact extraction accepts ---

/// The first `k` layer lists, one after the other.
pub open spec fn layer_list(lists: Seq<Seq<u32>>, k: int) -> Seq<u32>
    decreases k,
{
    if k <= 0 {
        Seq::empty()
    } else {
        layer_list(lists, k - 1) + lists[k - 1]
    }
}

pub open spec fn mos_rule_layers(r: MosRule) -> Seq<u32> {
    seq![r.gate_layer, r.channel_layer, r.type_implant] + r.flavor_markers@.map_values(|m: (u32, String)| m.0) + match r.well_layer {
        Some(l) => seq![l],
        None => Seq::empty(),
    }
}

pub open spec fn resistor_rule_layers(r: ResistorRule) -> Seq<u32> {
    seq![r.body_layer, r.marker_layer, r.terminal_layer]
}

pub open spec fn diode_rule_layers(r: DiodeRule) -> Seq<u32> {
    seq![r.anode_layer, r.cathode_layer, r.implant_layer]
}

pub open spec fn cap_rule_layers(r: CapRule) -> Seq<u32> {
    seq![r.top_layer, r.bottom_layer] + match r.marker_layer {
        Some(l) => seq![l],
        None => Seq::empty(),
    }
}

pub open spec fn bjt_rule_layers(r: BjtRule) -> Seq<u32> {
    seq![r.collector_layer, r.base_layer, r.emitter_layer, r.type_marker]
}

/// Every layer the deck's connectivity and device rules name, ascending,
/// each once: the layers whose polygons extraction treats exactly.
pub open spec fn exact_layers(deck: Deck) -> Seq<u32> {
    let d = deck.devices;
    sorted_layers(
        deck.connectivity.conductors@ + via_layers(deck)
            + layer_list(d.mos_rules@.map_values(|r: MosRule| mos_rule_layers(r)), d.mos_rules@.len() as int)
            + layer_list(d.resistor_rules@.map_values(|r: ResistorRule| resistor_rule_layers(r)), d.resistor_rules@.len() as int)
            + layer_list(d.diode_rules@.map_values(|r: DiodeRule| diode_rule_layers(r)), d.diode_rules@.len() as int)
            + layer_list(d.cap_rules@.map_values(|r: CapRule| cap_rule_layers(r)), d.cap_rules@.len() as int)
            + layer_list(d.bjt_rules@.map_values(|r: BjtRule| bjt_rule_layers(r)), d.bjt_rules@.len() as int),
    )
}

/// Why exact extraction cannot take a ring, in the order checked: too few
/// vertices, a zero-length edge, an edge off the axes, zero area.
pub open spec fn lvs_defect(r: Seq<Point>) -> Option<Seq<char>> {
    if r.len() < 4 {
        Some(" has fewer than four vertices; exact rectilinear LVS cannot process it"@)
    } else if has_repeated_vertex(r) {
        Some(" has a zero-length edge; exact rectilinear LVS cannot process it"@)
    } else if !(forall|i: int| 0 <= i < r.len() ==> #[trigger] axis_edge(r, i)) {
        Some(" is non-rectilinear; exact all-angle LVS geometry is not implemented"@)
    } else if area2(r, r.len() as int) == 0 {
        Some(" is degenerate or self-intersecting; LVS extraction stopped"@)
    } else {
        None
    }
}

/// The first of the first `k` polygons of `polys` with a defect.
pub open spec fn first_defect(store: GeometryStore, polys: Seq<usize>, k: int) -> Option<int>
    decreases k,
{
    if k <= 0 {
        None
    } else {
        match first_defect(store, polys, k - 1) {
            Some(j) => Some(j),
            None => if lvs_defect(store.ring(polys[k - 1] as int)) is Some {
                Some(k - 1)
            } else {
                None
            },
        }
    }
}

/// The report of the first defective polygon on the exact layers (layer by
/// layer, ascending, each layer's polygons in index order), naming it and
/// its layer; `None` when there is none.
pub open spec fn geometry_error(store: GeometryStore, deck: Deck) -> Option<Seq<char>> {
    let layers = exact_layers(deck);
    let polys = channel_items(store.poly_layer@, layers, layers.len() as int);
    match first_defect(store, polys, polys.len() as int) {
        Some(j) => {
            let p = polys[j] as int;
            Some("polygon "@ + decimal(p as nat) + " on '"@ + deck.layers.id_to_name@[store.poly_layer@[p] as int]@ + "'"@
                + lvs_defect(store.ring(p))->0)
        },
        None => None,
    }
}

/// Every polygon on an exact layer lies on a layer that the deck's table names.
pub open spec fn exact_layers_named(store: GeometryStore, deck: Deck) -> bool {
    forall|q: int| 0 <= q < store.poly_layer@.len() && #[trigger] exact_layers(deck).contains(store.poly_layer@[q])
        ==> store.poly_layer@[q] < deck.layers.id_to_name@.len()
}

fn ring_defect_text(r: &Vec<Point>) -> (d: Option<&'static str>)
    ensures
        match lvs_defect(r@) {
            None => d is None,
            Some(m) => d matches Some(t) && t@ == m,
        },
{
    proof {
        reveal_strlit(" has fewer than four vertices; exact rectilinear LVS cannot process it");
        reveal_strlit(" has a zero-length edge; exact rectilinear LVS cannot process it");
        reveal_strlit(" is non-rectilinear; exact all-angle LVS geometry is not implemented");
        reveal_strlit(" is degenerate or self-intersecting; LVS extraction stopped");
    }
    let n = r.len();
    if n < 4 {
        return Some(" has fewer than four vertices; exact rectilinear LVS cannot process it");
    }
    let mut i: usize = 0;
    while i < n
        invariant
            n == r@.len() >= 4,
            i <= n,
            forall|j: int| 0 <= j < i ==> #[trigger] r@[j] != r@[(j + 1) % (r@.len() as int)],
        decreases n - i,
    {
        let p = r[i];
        let q = if i + 1 == n { r[0] } else { r[i + 1] };
        assert((i as int + 1) % (n as int) == (if i + 1 == n { 0int } else { i as int + 1 })) by (nonlinear_arith)
            requires
                i < n,
        ;
        if p.x == q.x && p.y == q.y {
            assert(r@[i as int] == r@[(i as int + 1) % (r@.len() as int)]);
            return Some(" has a zero-length edge; exact rectilinear LVS cannot process it");
        }
        i = i + 1;
    }
    assert(!has_repeated_vertex(r@));
    if !is_rectilinear(r) {
        return Some(" is non-rectilinear; exact all-angle LVS geometry is not implemented");
    }
    if ring_area2(r) == 0 {
        return Some(" is degenerate or self-intersecting; LVS extraction stopped");
    }
    None
}

/// Appends the layers of each rule in turn.
fn push_mos_layers(out: &mut Vec<u32>, rules: &Vec<MosRule>)
    ensures
        final(out)@ == old(out)@ + layer_list(rules@.map_values(|r: MosRule| mos_rule_layers(r)), rules@.len() as int),
{
    let ghost f = |r: MosRule| mos_rule_layers(r);
    let ghost start = out@;
    let mut i: usize = 0;
    while i < rules.len()
        invariant
            f == (|r: MosRule| mos_rule_layers(r)),
            i <= rules@.len(),
            out@ == start + layer_list(rules@.map_values(f), i as int),
        decreases rules@.len() - i,
    {
        let r = &rules[i];
        let ghost before = out@;
        out.push(r.gate_layer);
        out.push(r.channel_layer);
        out.push(r.type_implant);
        let mut j: usize = 0;
        while j < r.flavor_markers.len()
            invariant
                j <= r.flavor_markers@.len(),
                out@ == before + seq![r.gate_layer, r.channel_layer, r.type_implant]
                    + r.flavor_markers@.take(j as int).map_values(|m: (u32, String)| m.0),
            decreases r.flavor_markers@.len() - j,
        {
            out.push(r.flavor_markers[j].0);
            assert(r.flavor_markers@.take(j as int + 1).map_values(|m: (u32, String)| m.0)
                =~= r.flavor_markers@.take(j as int).map_values(|m: (u32, String)| m.0).push(r.flavor_markers@[j as int].0));
            j = j + 1;
        }
        assert(r.flavor_markers@.take(j as int) =~= r.flavor_markers@);
        match r.well_layer {
            Some(l) => {
                out.push(l);
            },
            None => {},
        }
        assert(rules@.map_values(f)[i as int] == mos_rule_layers(rules@[i as int]));
        assert(out@ =~= start + layer_list(rules@.map_values(f), i as int + 1));
        i = i + 1;
    }
}

fn push_resistor_layers(out: &mut Vec<u32>, rules: &Vec<ResistorRule>)
    ensures
        final(out)@ == old(out)@ + layer_list(rules@.map_values(|r: ResistorRule| resistor_rule_layers(r)), rules@.len() as int),
{
    let ghost f = |r: ResistorRule| resistor_rule_layers(r);
    let ghost start = out@;
    let mut i: usize = 0;
    while i < rules.len()
        invariant
            f == (|r: ResistorRule| resistor_rule_layers(r)),
            i <= rules@.len(),
            out@ == start + layer_list(rules@.map_values(f), i as int),
        decreases rules@.len() - i,
    {
        let r = &rules[i];
        out.push(r.body_layer);
        out.push(r.marker_layer);
        out.push(r.terminal_layer);
        assert(rules@.map_values(f)[i as int] == resistor_rule_layers(rules@[i as int]));
        assert(out@ =~= start + layer_list(rules@.map_values(f), i as int + 1));
        i = i + 1;
    }
}

fn push_diode_layers(out: &mut Vec<u32>, rules: &Vec<DiodeRule>)
    ensures
        final(out)@ == old(out)@ + layer_list(rules@.map_values(|r: DiodeRule| diode_rule_layers(r)), rules@.len() as int),
{
    let ghost f = |r: DiodeRule| diode_rule_layers(r);
    let ghost start = out@;
    let mut i: usize = 0;
    while i < rules.len()
        invariant
            f == (|r: DiodeRule| diode_rule_layers(r)),
            i <= rules@.len(),
            out@ == start + layer_list(rules@.map_values(f), i as int),
        decreases rules@.len() - i,
    {
        let r = &rules[i];
        out.push(r.anode_layer);
        out.push(r.cathode_layer);
        out.push(r.implant_layer);
        assert(rules@.map_values(f)[i as int] == diode_rule_layers(rules@[i as int]));
        assert(out@ =~= start + layer_list(rules@.map_values(f), i as int + 1));
        i = i + 1;
    }
}

fn push_cap_layers(out: &mut Vec<u32>, rules: &Vec<CapRule>)
    ensures
        final(out)@ == old(out)@ + layer_list(rules@.map_values(|r: CapRule| cap_rule_layers(r)), rules@.len() as int),
{
    let ghost f = |r: CapRule| cap_rule_layers(r);
    let ghost start = out@;
    let mut i: usize = 0;
    while i < rules.len()
        invariant
            f == (|r: CapRule| cap_rule_layers(r)),
            i <= rules@.len(),
            out@ == start + layer_list(rules@.map_values(f), i as int),
        decreases rules@.len() - i,
    {
        let r = &rules[i];
        out.push(r.top_layer);
        out.push(r.bottom_layer);
        match r.marker_layer {
            Some(l) => {
                out.push(l);
            },
            None => {},
        }
        assert(rules@.map_values(f)[i as int] == cap_rule_layers(rules@[i as int]));
        assert(out@ =~= start + layer_list(rules@.map_values(f), i as int + 1));
        i = i + 1;
    }
}

fn push_bjt_layers(out: &mut Vec<u32>, rules: &Vec<BjtRule>)
    ensures
        final(out)@ == old(out)@ + layer_list(rules@.map_values(|r: BjtRule| bjt_rule_layers(r)), rules@.len() as int),
{
    let ghost f = |r: BjtRule| bjt_rule_layers(r);
    let ghost start = out@;
    let mut i: usize = 0;
    while i < rules.len()
        invariant
            f == (|r: BjtRule| bjt_rule_layers(r)),
            i <= rules@.len(),
            out@ == start + layer_list(rules@.map_values(f), i as int),
        decreases rules@.len() - i,
    {
        let r = &rules[i];
        out.push(r.collector_layer);
        out.push(r.base_layer);
        out.push(r.emitter_layer);
        out.push(r.type_marker);
        assert(rules@.map_values(f)[i as int] == bjt_rule_layers(rules@[i as int]));
        assert(out@ =~= start + layer_list(rules@.map_values(f), i as int + 1));
        i = i + 1;
    }
}

/// Checks the polygons on the exact layers (see `geometry_error`).
fn validate_rectilinear_layers(store: &GeometryStore, deck: &Deck, conductors: &Vec<u32>, vias: &Vec<u32>) -> (r: Result<(), String>)
    requires
        store.wf(),
        store.poly_layer@.len() < u32::MAX,
        exact_layers_named(*store, *deck),
        conductors@ == deck.connectivity.conductors@,
        vias@ == via_layers(*deck),
    ensures
        match geometry_error(*store, *deck) {
            None => r is Ok,
            Some(m) => r matches Err(e) && e@ == m,
        },
{
    let mut all = copy_layers(conductors);
    let mut v = copy_layers(vias);
    all.append(&mut v);
    push_mos_layers(&mut all, &deck.devices.mos_rules);
    push_resistor_layers(&mut all, &deck.devices.resistor_rules);
    push_diode_layers(&mut all, &deck.devices.diode_rules);
    push_cap_layers(&mut all, &deck.devices.cap_rules);
    push_bjt_layers(&mut all, &deck.devices.bjt_rules);
    let layers = sort_layers(&all);
    assert(layers@ == exact_layers(*deck));
    let polys = channel_polys(store, &layers);
    proof {
        lemma_channel_items(store.poly_layer@, layers@, layers@.len() as int);
    }
    let mut k: usize = 0;
    while k < polys.len()
        invariant
            store.wf(),
            exact_layers_named(*store, *deck),
            layers@ == exact_layers(*deck),
            polys@ == channel_items(store.poly_layer@, layers@, layers@.len() as int),
            forall|i: int| 0 <= i < polys@.len() ==> (#[trigger] polys@[i]) < store.poly_layer@.len()
                && layers@.contains(store.poly_layer@[polys@[i] as int]),
            k <= polys@.len(),
            first_defect(*store, polys@, k as int) is None,
        decreases polys@.len() - k,
    {
        let d = polys[k];
        match ring_defect_text(&store.poly_ring[d]) {
            Some(t) => {
                let layer = store.poly_layer[d];
                assert(exact_layers(*deck).contains(store.poly_layer@[d as int]));
                let name = deck.layers.name(layer);
                let mut m = String::from_str("polygon ");
                push_decimal(&mut m, d as u64);
                m.append(" on '");
                m.append(name.as_str());
                m.append("'");
                m.append(t);
                proof {
                    reveal_strlit("polygon ");
                    reveal_strlit(" on '");
                    reveal_strlit("'");
                    lemma_first_defect_stays(*store, polys@, k as int + 1, polys@.len() as int);
                }
                assert(m@ =~= "polygon "@ + decimal(d as nat) + " on '"@ + deck.layers.id_to_name@[store.poly_layer@[d as int] as int]@ + "'"@
                    + lvs_defect(store.ring(d as int))->0);
                return Err(m);
            },
            None => {},
        }
        k = k + 1;
    }
    Ok(())
}

proof fn lemma_first_defect_stays(store: GeometryStore, polys: Seq<usize>, k: int, n: int)
    requires
        0 < k <= n,
        first_defect(store, polys, k) is Some,
    ensures
        first_defect(store, polys, n) == first_defect(store, polys, k),
    decreases n - k,
{
    if n > k {
        lemma_first_defect_stays(store, polys, k, n - 1);
    }
}

// --- nodes ---

/// The channel polygons: those on each channel layer in turn, each layer's
/// in index order.
pub open spec fn channel_items(layers: Seq<u32>, channels: Seq<u32>, k: int) -> Seq<usize>
    decreases k,
{
    if k <= 0 {
        Seq::empty()
    } else {
        channel_items(layers, channels, k - 1) + GeometryStore::on_layer(layers, channels[k - 1])
    }
}

/// The channel polygons of a deck's MOS rules.
pub open spec fn items_of(store: GeometryStore, deck: Deck) -> Seq<usize> {
    let ch = channel_layers_of(deck.devices.mos_rules@);
    channel_items(store.poly_layer@, ch, ch.len() as int)
}

/// The nodes of the segments of channel polygon `d` split at its gates.
pub open spec fn segs_of(store: GeometryStore, gates: Seq<u32>, d: int) -> Seq<Node> {
    let (axis_x, spans, segs) = split_spec(store, gates, d);
    Seq::new(segs.len(), |q: int| segment_node(store, d, store.poly_layer@[d], axis_x, segs[q]))
}

/// The segment nodes of the first `k` channel polygons.
pub open spec fn seg_nodes_upto(store: GeometryStore, gates: Seq<u32>, items: Seq<usize>, k: int) -> Seq<Node>
    decreases k,
{
    if k <= 0 {
        Seq::empty()
    } else {
        seg_nodes_upto(store, gates, items, k - 1) + segs_of(store, gates, items[k - 1] as int)
    }
}

/// The via layers of a deck.
pub open spec fn via_layers(deck: Deck) -> Seq<u32> {
    deck.connectivity.vias@.map_values(|e: (u32, Vec<u32>)| e.0)
}

/// The nodes of whole polygons: those on conductor and via layers outside
/// the channel layers.
pub open spec fn base_nodes(store: GeometryStore, deck: Deck) -> Seq<Node> {
    conductor_nodes(
        store,
        channel_layers_of(deck.devices.mos_rules@),
        deck.connectivity.conductors@,
        via_layers(deck),
        store.poly_layer@.len() as int,
    )
}

/// Every node of the extraction: the whole-polygon nodes, then the
/// segments of each channel polygon in turn.
pub open spec fn nodes_of(store: GeometryStore, deck: Deck) -> Seq<Node> {
    let items = items_of(store, deck);
    base_nodes(store, deck) + seg_nodes_upto(store, gate_layers_of(deck.devices.mos_rules@), items, items.len() as int)
}

/// Where the segment nodes of channel polygon `k` start.
pub open spec fn seg_start(store: GeometryStore, deck: Deck, k: int) -> int {
    (base_nodes(store, deck).len() + seg_nodes_upto(store, gate_layers_of(deck.devices.mos_rules@), items_of(store, deck), k).len()) as int
}

proof fn lemma_channel_items(layers: Seq<u32>, channels: Seq<u32>, k: int)
    requires
        layers.len() <= usize::MAX,
        0 <= k <= channels.len(),
    ensures
        forall|i: int| 0 <= i < channel_items(layers, channels, k).len() ==>
            (#[trigger] channel_items(layers, channels, k)[i]) < layers.len()
            && channels.contains(layers[channel_items(layers, channels, k)[i] as int]),
    decreases k,
{
    if k > 0 {
        lemma_channel_items(layers, channels, k - 1);
        GeometryStore::lemma_on_layer(layers, channels[k - 1]);
        let prev = channel_items(layers, channels, k - 1);
        let add = GeometryStore::on_layer(layers, channels[k - 1]);
        assert forall|i: int| 0 <= i < channel_items(layers, channels, k).len() implies
            (#[trigger] channel_items(layers, channels, k)[i]) < layers.len()
            && channels.contains(layers[channel_items(layers, channels, k)[i] as int]) by {
            if i < prev.len() {
                assert(channel_items(layers, channels, k)[i] == prev[i]);
            } else {
                assert(channel_items(layers, channels, k)[i] == add[i - prev.len()]);
                assert(channels[k - 1] == layers[add[i - prev.len()] as int]);
            }
        }
    }
}

proof fn lemma_seg_nodes_len(store: GeometryStore, gates: Seq<u32>, items: Seq<usize>, j: int, k: int)
    requires
        0 <= j <= k,
    ensures
        seg_nodes_upto(store, gates, items, j).len() <= seg_nodes_upto(store, gates, items, k).len(),
        seg_nodes_upto(store, gates, items, j) == seg_nodes_upto(store, gates, items, k).take(
            seg_nodes_upto(store, gates, items, j).len() as int,
        ),
    decreases k - j,
{
    if j < k {
        lemma_seg_nodes_len(store, gates, items, j, k - 1);
        let a = seg_nodes_upto(store, gates, items, k - 1);
        assert(seg_nodes_upto(store, gates, items, k).take(a.len() as int) =~= a);
        assert(seg_nodes_upto(store, gates, items, k).take(seg_nodes_upto(store, gates, items, j).len() as int)
            =~= a.take(seg_nodes_upto(store, gates, items, j).len() as int));
    } else {
        assert(seg_nodes_upto(store, gates, items, k).take(seg_nodes_upto(store, gates, items, k).len() as int)
            =~= seg_nodes_upto(store, gates, items, k));
    }
}

proof fn lemma_conductor_polys(store: GeometryStore, channels: Seq<u32>, conductors: Seq<u32>, vias: Seq<u32>, k: int)
    requires
        0 <= k <= store.poly_layer@.len(),
    ensures
        conductor_nodes(store, channels, conductors, vias, k).len() <= k,
        forall|i: int| 0 <= i < conductor_nodes(store, channels, conductors, vias, k).len() ==>
            (#[trigger] conductor_nodes(store, channels, conductors, vias, k)[i]).poly < k,
    decreases k,
{
    if k > 0 {
        lemma_conductor_polys(store, channels, conductors, vias, k - 1);
        let a = conductor_nodes(store, channels, conductors, vias, k - 1);
        let b = conductor_nodes(store, channels, conductors, vias, k);
        assert forall|i: int| 0 <= i < b.len() implies (#[trigger] b[i]).poly < k by {
            if i < a.len() {
                if own_node(store, channels, conductors, vias, k - 1) {
                    assert(b[i] == a[i]);
                }
            }
        }
    }
}

proof fn lemma_conductor_nodes(store: GeometryStore, channels: Seq<u32>, conductors: Seq<u32>, vias: Seq<u32>, j: int, k: int)
    requires
        0 <= j <= k <= store.poly_layer@.len(),
    ensures
        conductor_nodes(store, channels, conductors, vias, j).len() <= conductor_nodes(store, channels, conductors, vias, k).len(),
        j < k && own_node(store, channels, conductors, vias, j) ==> conductor_nodes(store, channels, conductors, vias, j).len()
            < conductor_nodes(store, channels, conductors, vias, k).len(),
    decreases k - j,
{
    if j < k {
        lemma_conductor_nodes(store, channels, conductors, vias, j, k - 1);
    }
}

/// The channel polygons on the given layers, layer by layer.
fn channel_polys(store: &GeometryStore, channels: &Vec<u32>) -> (r: Vec<usize>)
    ensures
        r@ == channel_items(store.poly_layer@, channels@, channels@.len() as int),
{
    let mut r: Vec<usize> = Vec::new();
    let mut c: usize = 0;
    while c < channels.len()
        invariant
            c <= channels@.len(),
            r@ == channel_items(store.poly_layer@, channels@, c as int),
        decreases channels@.len() - c,
    {
        let mut polys = store.polys_on_layer(channels[c]);
        r.append(&mut polys);
        c = c + 1;
    }
    r
}

/// The whole-polygon nodes with each polygon's node, then the segment nodes
/// of every channel polygon, its split and where its segments start.
fn build_nodes(store: &GeometryStore, deck: &Deck, gates: &Vec<u32>, channels: &Vec<u32>, conductors: &Vec<u32>, vias: &Vec<u32>)
    -> (r: (Vec<Node>, Vec<u32>, Vec<DiffSplit>, Vec<usize>))
    requires
        store.wf(),
        store.poly_layer@.len() < u32::MAX,
        gates@ == gate_layers_of(deck.devices.mos_rules@),
        channels@ == channel_layers_of(deck.devices.mos_rules@),
        conductors@ == deck.connectivity.conductors@,
        vias@ == via_layers(*deck),
    ensures
        r.0@ == nodes_of(*store, *deck),
        r.1@.len() == store.poly_layer@.len(),
        forall|i: int| 0 <= i < store.poly_layer@.len() ==> #[trigger] r.1@[i] == if own_node(*store, channels@, conductors@, vias@, i) {
            conductor_nodes(*store, channels@, conductors@, vias@, i).len() as u32
        } else {
            u32::MAX
        },
        r.2@.len() == items_of(*store, *deck).len(),
        r.3@.len() == items_of(*store, *deck).len(),
        forall|k: int| 0 <= k < r.2@.len() ==> (#[trigger] r.2@[k]).diff == items_of(*store, *deck)[k]
            && (r.2@[k].axis_x, r.2@[k].gates@, r.2@[k].seg_spans@) == split_spec(*store, gates@, items_of(*store, *deck)[k] as int),
        forall|k: int| 0 <= k < r.3@.len() ==> #[trigger] r.3@[k] == seg_start(*store, *deck, k),
{
    let (mut nodes, node_of_poly) = build_conductor_nodes(store, channels, conductors, vias);
    let items = channel_polys(store, channels);
    proof {
        lemma_channel_items(store.poly_layer@, channels@, channels@.len() as int);
    }
    let ghost base = nodes@;
    let mut splits: Vec<DiffSplit> = Vec::new();
    let mut starts: Vec<usize> = Vec::new();
    let mut k: usize = 0;
    while k < items.len()
        invariant
            store.wf(),
            items@ == items_of(*store, *deck),
            gates@ == gate_layers_of(deck.devices.mos_rules@),
            channels@ == channel_layers_of(deck.devices.mos_rules@),
            base == base_nodes(*store, *deck),
            forall|i: int| 0 <= i < items@.len() ==> (#[trigger] items@[i]) < store.poly_layer@.len(),
            k <= items@.len(),
            nodes@ == base + seg_nodes_upto(*store, gates@, items@, k as int),
            splits@.len() == k,
            starts@.len() == k,
            forall|q: int| 0 <= q < k ==> (#[trigger] splits@[q]).diff == items@[q]
                && (splits@[q].axis_x, splits@[q].gates@, splits@[q].seg_spans@) == split_spec(*store, gates@, items@[q] as int),
            forall|q: int| 0 <= q < k ==> #[trigger] starts@[q] == seg_start(*store, *deck, q),
        decreases items@.len() - k,
    {
        let d = items[k];
        let sp = split_channel(store, gates, d);
        let mut segs = segment_nodes(store, d, store.poly_layer[d], sp.axis_x, &sp.seg_spans);
        proof {
            assert(segs@ =~= segs_of(*store, gates@, d as int));
        }
        starts.push(nodes.len());
        nodes.append(&mut segs);
        splits.push(sp);
        k = k + 1;
    }
    (nodes, node_of_poly, splits, starts)
}

// --- nets of polygons ---

/// The net of each polygon after the first `k` channel polygons: a
/// whole-polygon node's net, or for a channel polygon that net of its first
/// segment, else `u32::MAX`.
pub open spec fn poly_nets_upto(store: GeometryStore, deck: Deck, node_nets: Seq<u32>, k: int) -> Seq<u32>
    decreases k,
{
    if k <= 0 {
        let ch = channel_layers_of(deck.devices.mos_rules@);
        Seq::new(
            store.poly_layer@.len(),
            |i: int|
                if own_node(store, ch, deck.connectivity.conductors@, via_layers(deck), i) {
                    node_nets[conductor_nodes(store, ch, deck.connectivity.conductors@, via_layers(deck), i).len() as int]
                } else {
                    u32::MAX
                },
        )
    } else {
        let prev = poly_nets_upto(store, deck, node_nets, k - 1);
        let d = items_of(store, deck)[k - 1] as int;
        if segs_of(store, gate_layers_of(deck.devices.mos_rules@), d).len() > 0 {
            prev.update(d, node_nets[seg_start(store, deck, k - 1)])
        } else {
            prev
        }
    }
}

/// The net of each polygon, given the net of each node.
pub open spec fn poly_nets(store: GeometryStore, deck: Deck, node_nets: Seq<u32>) -> Seq<u32> {
    poly_nets_upto(store, deck, node_nets, items_of(store, deck).len() as int)
}

proof fn lemma_poly_nets_len(store: GeometryStore, deck: Deck, node_nets: Seq<u32>, k: int)
    requires
        0 <= k <= items_of(store, deck).len(),
        store.poly_layer@.len() <= usize::MAX,
    ensures
        poly_nets_upto(store, deck, node_nets, k).len() == store.poly_layer@.len(),
    decreases k,
{
    if k > 0 {
        lemma_poly_nets_len(store, deck, node_nets, k - 1);
        let ch = channel_layers_of(deck.devices.mos_rules@);
        lemma_channel_items(store.poly_layer@, ch, ch.len() as int);
        assert(items_of(store, deck)[k - 1] < store.poly_layer@.len());
    }
}

fn poly_nets_exec(
    store: &GeometryStore,
    deck: &Deck,
    node_of_poly: &Vec<u32>,
    node_nets: &Vec<u32>,
    splits: &Vec<DiffSplit>,
    starts: &Vec<usize>,
) -> (r: Vec<u32>)
    requires
        store.wf(),
        store.poly_layer@.len() < u32::MAX,
        node_nets@.len() == nodes_of(*store, *deck).len(),
        node_of_poly@.len() == store.poly_layer@.len(),
        forall|i: int| 0 <= i < store.poly_layer@.len() ==> #[trigger] node_of_poly@[i] == if own_node(
            *store,
            channel_layers_of(deck.devices.mos_rules@),
            deck.connectivity.conductors@,
            via_layers(*deck),
            i,
        ) {
            conductor_nodes(*store, channel_layers_of(deck.devices.mos_rules@), deck.connectivity.conductors@, via_layers(*deck), i).len() as u32
        } else {
            u32::MAX
        },
        splits@.len() == items_of(*store, *deck).len(),
        starts@.len() == items_of(*store, *deck).len(),
        forall|k: int| 0 <= k < splits@.len() ==> (#[trigger] splits@[k]).diff == items_of(*store, *deck)[k]
            && (splits@[k].axis_x, splits@[k].gates@, splits@[k].seg_spans@) == split_spec(
                *store,
                gate_layers_of(deck.devices.mos_rules@),
                items_of(*store, *deck)[k] as int,
            ),
        forall|k: int| 0 <= k < starts@.len() ==> #[trigger] starts@[k] == seg_start(*store, *deck, k),
    ensures
        r@ == poly_nets(*store, *deck, node_nets@),
{
    let ghost ch = channel_layers_of(deck.devices.mos_rules@);
    let ghost gl = gate_layers_of(deck.devices.mos_rules@);
    let ghost items = items_of(*store, *deck);
    let ghost cond = deck.connectivity.conductors@;
    let ghost vl = via_layers(*deck);
    let n = node_of_poly.len();
    proof {
        lemma_conductor_nodes(*store, ch, cond, vl, n as int, n as int);
        lemma_conductor_polys(*store, ch, cond, vl, n as int);
        lemma_seg_nodes_len(*store, gl, items, 0, items.len() as int);
        lemma_channel_items(store.poly_layer@, ch, ch.len() as int);
    }
    let mut r: Vec<u32> = Vec::new();
    let mut i: usize = 0;
    while i < n
        invariant
            n == node_of_poly@.len(),
            n == store.poly_layer@.len(),
            node_nets@.len() == nodes_of(*store, *deck).len(),
            nodes_of(*store, *deck).len() >= conductor_nodes(*store, ch, cond, vl, n as int).len(),
            conductor_nodes(*store, ch, cond, vl, n as int).len() <= n,
            n < u32::MAX,
            ch == channel_layers_of(deck.devices.mos_rules@),
            cond == deck.connectivity.conductors@,
            vl == via_layers(*deck),
            forall|q: int| 0 <= q < n ==> #[trigger] node_of_poly@[q] == if own_node(*store, ch, cond, vl, q) {
                conductor_nodes(*store, ch, cond, vl, q).len() as u32
            } else {
                u32::MAX
            },
            i <= n,
            r@ == poly_nets_upto(*store, *deck, node_nets@, 0).take(i as int),
        decreases n - i,
    {
        let v = node_of_poly[i];
        if v != u32::MAX {
            proof {
                lemma_conductor_nodes(*store, ch, cond, vl, i as int, n as int);
            }
            r.push(node_nets[v as usize]);
        } else {
            proof {
                if own_node(*store, ch, cond, vl, i as int) {
                    lemma_conductor_nodes(*store, ch, cond, vl, i as int, n as int);
                }
            }
            r.push(u32::MAX);
        }
        assert(r@ =~= poly_nets_upto(*store, *deck, node_nets@, 0).take(i as int + 1));
        i = i + 1;
    }
    assert(r@ =~= poly_nets_upto(*store, *deck, node_nets@, 0));
    let mut k: usize = 0;
    while k < splits.len()
        invariant
            n == store.poly_layer@.len(),
            n < u32::MAX,
            node_nets@.len() == nodes_of(*store, *deck).len(),
            gl == gate_layers_of(deck.devices.mos_rules@),
            items == items_of(*store, *deck),
            nodes_of(*store, *deck).len() == base_nodes(*store, *deck).len() + seg_nodes_upto(*store, gl, items, items.len() as int).len(),
            forall|q: int| 0 <= q < items.len() ==> (#[trigger] items[q]) < n,
            splits@.len() == items.len(),
            starts@.len() == items.len(),
            forall|q: int| 0 <= q < splits@.len() ==> (#[trigger] splits@[q]).diff == items[q]
                && (splits@[q].axis_x, splits@[q].gates@, splits@[q].seg_spans@) == split_spec(*store, gl, items[q] as int),
            forall|q: int| 0 <= q < starts@.len() ==> #[trigger] starts@[q] == seg_start(*store, *deck, q),
            k <= items.len(),
            r@ == poly_nets_upto(*store, *deck, node_nets@, k as int),
        decreases items.len() - k,
    {
        proof {
            lemma_poly_nets_len(*store, *deck, node_nets@, k as int);
            lemma_seg_nodes_len(*store, gl, items, k as int + 1, items.len() as int);
        }
        let sp = &splits[k];
        if sp.seg_spans.len() > 0 {
            let d = sp.diff;
            r.set(d, node_nets[starts[k]]);
        }
        k = k + 1;
    }
    r
}

// --- transistors ---

/// Every polygon box is well formed and its extent fits `i32` along both
/// axes.
pub open spec fn boxes_fit(store: GeometryStore) -> bool {
    forall|p: int| 0 <= p < store.poly_bbox@.len() ==> {
        let b = #[trigger] store.poly_bbox@[p];
        &&& b.wf()
        &&& b.xmax - b.xmin <= i32::MAX
        &&& b.ymax - b.ymin <= i32::MAX
    }
}

/// The transistors of the first `k` channel polygons, polygon by polygon,
/// or the first classification error (see `split_devices`).
pub open spec fn mos_upto(store: GeometryStore, deck: Deck, node_nets: Seq<u32>, k: int) -> Result<Seq<MosV>, Seq<char>>
    decreases k,
{
    if k <= 0 {
        Ok(Seq::empty())
    } else {
        match mos_upto(store, deck, node_nets, k - 1) {
            Err(m) => Err(m),
            Ok(v) => {
                let d = items_of(store, deck)[k - 1] as int;
                let (axis_x, spans, segs) = split_spec(store, gate_layers_of(deck.devices.mos_rules@), d);
                let start = seg_start(store, deck, k - 1);
                match split_devices(
                    store,
                    deck.devices.mos_rules@,
                    d,
                    axis_x,
                    spans,
                    segs,
                    node_nets.subrange(start, start + segs.len()),
                    poly_nets(store, deck, node_nets),
                    spans.len() as int,
                ) {
                    Err(m) => Err(m),
                    Ok(w) => Ok(v + w),
                }
            },
        }
    }
}

/// The transistors of every channel polygon.
pub open spec fn mos_all(store: GeometryStore, deck: Deck, node_nets: Seq<u32>) -> Result<Seq<MosV>, Seq<char>> {
    mos_upto(store, deck, node_nets, items_of(store, deck).len() as int)
}

fn mos_exec(
    store: &GeometryStore,
    deck: &Deck,
    splits: &Vec<DiffSplit>,
    starts: &Vec<usize>,
    node_nets: &Vec<u32>,
    nets: &Vec<u32>,
) -> (r: Result<(Vec<Device>, Vec<DeviceRecognitionSource>), String>)
    requires
        store.wf(),
        boxes_fit(*store),
        store.poly_layer@.len() < u32::MAX,
        node_nets@.len() == nodes_of(*store, *deck).len(),
        nets@ == poly_nets(*store, *deck, node_nets@),
        splits@.len() == items_of(*store, *deck).len(),
        starts@.len() == items_of(*store, *deck).len(),
        forall|k: int| 0 <= k < splits@.len() ==> (#[trigger] splits@[k]).diff == items_of(*store, *deck)[k]
            && (splits@[k].axis_x, splits@[k].gates@, splits@[k].seg_spans@) == split_spec(
                *store,
                gate_layers_of(deck.devices.mos_rules@),
                items_of(*store, *deck)[k] as int,
            ),
        forall|k: int| 0 <= k < starts@.len() ==> #[trigger] starts@[k] == seg_start(*store, *deck, k),
    ensures
        match mos_all(*store, *deck, node_nets@) {
            Err(m) => r matches Err(e) && e@ == m,
            Ok(v) => r matches Ok((ds, ss)) && ds@.len() == ss@.len() && mos_views(ds@, ss@) == v,
        },
{
    let ghost gl = gate_layers_of(deck.devices.mos_rules@);
    let ghost items = items_of(*store, *deck);
    let ghost ch = channel_layers_of(deck.devices.mos_rules@);
    proof {
        lemma_channel_items(store.poly_layer@, ch, ch.len() as int);
        lemma_poly_nets_len(*store, *deck, node_nets@, items.len() as int);
    }
    let mut devices: Vec<Device> = Vec::new();
    let mut sources: Vec<DeviceRecognitionSource> = Vec::new();
    assert(mos_views(devices@, sources@) =~= Seq::<MosV>::empty());
    let mut k: usize = 0;
    while k < splits.len()
        invariant
            store.wf(),
            boxes_fit(*store),
            store.poly_layer@.len() < u32::MAX,
            node_nets@.len() == nodes_of(*store, *deck).len(),
            nets@ == poly_nets(*store, *deck, node_nets@),
            nets@.len() == store.poly_layer@.len(),
            gl == gate_layers_of(deck.devices.mos_rules@),
            items == items_of(*store, *deck),
            nodes_of(*store, *deck).len() == base_nodes(*store, *deck).len() + seg_nodes_upto(*store, gl, items, items.len() as int).len(),
            forall|q: int| 0 <= q < items.len() ==> (#[trigger] items[q]) < store.poly_layer@.len(),
            splits@.len() == items.len(),
            starts@.len() == items.len(),
            forall|q: int| 0 <= q < splits@.len() ==> (#[trigger] splits@[q]).diff == items[q]
                && (splits@[q].axis_x, splits@[q].gates@, splits@[q].seg_spans@) == split_spec(*store, gl, items[q] as int),
            forall|q: int| 0 <= q < starts@.len() ==> #[trigger] starts@[q] == seg_start(*store, *deck, q),
            k <= items.len(),
            devices@.len() == sources@.len(),
            mos_upto(*store, *deck, node_nets@, k as int) == Ok::<Seq<MosV>, Seq<char>>(mos_views(devices@, sources@)),
        decreases items.len() - k,
    {
        let sp = &splits[k];
        let start = starts[k];
        proof {
            lemma_seg_nodes_len(*store, gl, items, k as int + 1, items.len() as int);
            lemma_split_tiles(*store, gl, items[k as int] as int);
            assert(seg_start(*store, *deck, k as int + 1) == start + sp.seg_spans@.len());
        }
        let mut seg_nets: Vec<u32> = Vec::new();
        let m = node_nets.len();
        let mut q: usize = 0;
        while q < sp.seg_spans.len()
            invariant
                m == node_nets@.len(),
                start + sp.seg_spans@.len() <= node_nets@.len(),
                q <= sp.seg_spans@.len(),
                seg_nets@ == node_nets@.subrange(start as int, start + q),
            decreases sp.seg_spans@.len() - q,
        {
            seg_nets.push(node_nets[start + q]);
            assert(seg_nets@ =~= node_nets@.subrange(start as int, start + q + 1));
            q = q + 1;
        }
        match mos_devices_of_split(store, &deck.devices.mos_rules, sp, &seg_nets, nets) {
            Err(e) => {
                proof {
                    lemma_mos_err(*store, *deck, node_nets@, k as int + 1, items.len() as int);
                }
                return Err(e);
            },
            Ok((mut ds, mut ss)) => {
                let ghost before = mos_views(devices@, sources@);
                let ghost added = mos_views(ds@, ss@);
                devices.append(&mut ds);
                sources.append(&mut ss);
                assert(mos_views(devices@, sources@) =~= before + added);
            },
        }
        k = k + 1;
    }
    Ok((devices, sources))
}

proof fn lemma_mos_err(store: GeometryStore, deck: Deck, node_nets: Seq<u32>, k: int, n: int)
    requires
        0 < k <= n,
        mos_upto(store, deck, node_nets, k) is Err,
    ensures
        mos_upto(store, deck, node_nets, n) == mos_upto(store, deck, node_nets, k),
    decreases n - k,
{
    if n > k {
        lemma_mos_err(store, deck, node_nets, k, n - 1);
    }
}

// --- the whole extraction ---

/// The pairs `(i, j)`, `i < j`, of well-formed boxes that touch or overlap,
/// each listed once, in some order.
pub open spec fn candidate_pairs(boxes: Seq<Bbox>, out: Seq<(u32, u32)>) -> bool {
    &&& forall|i: int, j: int|
        0 <= i < j < boxes.len() && boxes[i].wf() && boxes[j].wf() ==> (out.contains((i as u32, j as u32)) <==> near(boxes[i], boxes[j]))
    &&& forall|k: int| 0 <= k < out.len() ==> (#[trigger] out[k]).0 < out[k].1 < boxes.len()
    &&& out.no_duplicates()
}

/// `nets` numbers the nets of nodes `0..n` joined by `pairs`: two nodes
/// share a number exactly when the pairs join them, the first node of each
/// net gets the number of nets that started before it, and every number is
/// below the number of nets.
pub open spec fn numbering(pairs: Seq<(u32, u32)>, n: int, nets: Seq<u32>) -> bool {
    &&& nets.len() == n
    &&& forall|i: int, j: int| 0 <= i < n && 0 <= j < n ==> (#[trigger] nets[i] == #[trigger] nets[j] <==> joined(pairs, pairs.len() as int, i, j))
    &&& forall|i: int| 0 <= i < n && first_of_net(pairs, i) ==> #[trigger] nets[i] == nets_before(pairs, i)
    &&& forall|i: int| 0 <= i < n ==> #[trigger] nets[i] < nets_before(pairs, n)
}

/// The nets of labelled polygons (other than "no net"): nets that series
/// reduction keeps.
pub open spec fn protected_of(nets: Seq<u32>, labels: Seq<(u32, String)>) -> Seq<u32> {
    labels.map_values(|l: (u32, String)| nets[l.0 as int]).filter(|x: u32| x != u32::MAX)
}

/// A device whose unresolved body (`u32::MAX`) reads as net 0.
pub open spec fn body_resolved(d: Device) -> Device {
    if d.body == u32::MAX {
        Device { body: 0, ..d }
    } else {
        d
    }
}

/// The two-terminal devices of `passives`, one for one, with their values
/// left at zero.
pub open spec fn two_terminal_of(tt: Seq<TwoTerminalDevice>, passives: Seq<PassiveDevice>) -> bool {
    &&& tt.len() == passives.len()
    &&& forall|i: int| 0 <= i < tt.len() ==> {
        let t = #[trigger] tt[i];
        &&& t.kind == passives[i].kind
        &&& t.name@ == passives[i].name@
        &&& t.terminal_a == passives[i].terminal_a
        &&& t.terminal_b == passives[i].terminal_b
        &&& t.value_bits == 0
    }
}

/// One run of the extraction as the contract sees it: the join rules, the
/// candidate pairs of the sweep (in the sweep's order), the net of each
/// node, the transistors with their sources, and the netlist handed to
/// reduction.
pub struct ExtractRun {
    pub rules: JoinRules,
    pub cands: Seq<(u32, u32)>,
    pub node_nets: Seq<u32>,
    pub mos: Seq<Device>,
    pub sources: Seq<DeviceRecognitionSource>,
    pub pre: ExtractedNetlist,
}

/// The join rules are the deck's, the candidate pairs are those of the
/// node boxes, and the node nets number the nets of the joining pairs.
pub open spec fn run_ok(store: GeometryStore, deck: Deck, opts: ExtractOpts, w: ExtractRun) -> bool {
    let nodes = nodes_of(store, deck);
    let pairs = w.cands.filter(joins(store, w.rules, nodes));
    &&& w.rules.gate_layers@ == gate_layers_of(deck.devices.mos_rules@)
    &&& w.rules.channel_layers@ == channel_layers_of(deck.devices.mos_rules@)
    &&& w.rules.vias@.len() == deck.connectivity.vias@.len()
    &&& forall|k: int| 0 <= k < w.rules.vias@.len() ==> (#[trigger] w.rules.vias@[k]).0 == deck.connectivity.vias@[k].0
        && w.rules.vias@[k].1@ == deck.connectivity.vias@[k].1@
    &&& w.rules.cut_required == opts.cut_required
    &&& w.rules.intra_layer_touch == deck.intra_layer_touch
    &&& candidate_pairs(nodes.map_values(|n: Node| n.bbox), w.cands)
    &&& numbering(pairs, nodes.len() as int, w.node_nets)
}

/// `x` (with the passive devices `passives`) is what the run `w` gives:
/// transistors recognized over the node nets, global nets merged, passive
/// and bipolar devices recognized over the merged nets, label conflicts,
/// the transistors reduced (labelled nets kept), floating nets, and
/// unresolved bodies read as net 0.
pub open spec fn extracted(
    store: GeometryStore,
    labels: Seq<(u32, String)>,
    deck: Deck,
    w: ExtractRun,
    x: ExtractedNetlist,
    passives: Seq<PassiveDevice>,
) -> bool {
    let nodes = nodes_of(store, deck);
    let pairs = w.cands.filter(joins(store, w.rules, nodes));
    let merged = merge_globals(poly_nets(store, deck, w.node_nets), w.mos, labels, deck.global_nets@, deck.global_nets@.len() as int);
    let nets = merged.0;
    let reduced = reduce_spec(w.pre, merged.1, protected_of(nets, labels));
    &&& w.mos.len() == w.sources.len()
    &&& mos_all(store, deck, w.node_nets) == Ok::<Seq<MosV>, Seq<char>>(mos_views(w.mos, w.sources))
    &&& w.pre.two_terminal == x.two_terminal
    &&& w.pre.bjt_devices == x.bjt_devices
    &&& x.devices@ == reduced.map_values(|d: Device| body_resolved(d))
    &&& x.device_sources@.len() == 0
    &&& x.net_count == nets_before(pairs, nodes.len() as int)
    &&& x.used_nets == used_set(reduced).len()
    &&& x.net_of_poly@ == nets
    &&& x.label_conflicts@.map_values(|s: String| s@) == label_conflicts(nets, labels, labels.len() as int)
    &&& passives_view(passives) == passives_of(store, deck.devices, nets)
    &&& two_terminal_of(x.two_terminal@, passives)
    &&& bjts_view(x.bjt_devices@) == bjt_rules(store, deck.devices.bjt_rules@, nets, deck.devices.bjt_rules@.len() as int)
    &&& x.floating_nets@.map_values(|f: FloatingNet| floating_view(f)) == floating_nets(
        nets,
        labels,
        reduced,
        x.two_terminal@,
        x.bjt_devices@,
        x.net_count as int,
    )
}

fn copy_vias(v: &Vec<(u32, Vec<u32>)>) -> (r: Vec<(u32, Vec<u32>)>)
    ensures
        r@.len() == v@.len(),
        forall|k: int| 0 <= k < r@.len() ==> (#[trigger] r@[k]).0 == v@[k].0 && r@[k].1@ == v@[k].1@,
{
    let mut r: Vec<(u32, Vec<u32>)> = Vec::new();
    let mut i: usize = 0;
    while i < v.len()
        invariant
            i <= v@.len(),
            r@.len() == i,
            forall|k: int| 0 <= k < i ==> (#[trigger] r@[k]).0 == v@[k].0 && r@[k].1@ == v@[k].1@,
        decreases v@.len() - i,
    {
        let c = copy_layers(&v[i].1);
        r.push((v[i].0, c));
        i = i + 1;
    }
    r
}

fn node_boxes(nodes: &Vec<Node>) -> (r: Vec<Bbox>)
    ensures
        r@ == nodes@.map_values(|n: Node| n.bbox),
{
    let mut r: Vec<Bbox> = Vec::new();
    let mut i: usize = 0;
    while i < nodes.len()
        invariant
            i <= nodes@.len(),
            r@ == nodes@.take(i as int).map_values(|n: Node| n.bbox),
        decreases nodes@.len() - i,
    {
        r.push(nodes[i].bbox);
        assert(r@ =~= nodes@.take(i as int + 1).map_values(|n: Node| n.bbox));
        i = i + 1;
    }
    assert(nodes@.take(i as int) =~= nodes@);
    r
}

fn protected_nets(nets: &Vec<u32>, labels: &Vec<(u32, String)>) -> (r: Vec<u32>)
    requires
        forall|q: int| 0 <= q < labels@.len() ==> (#[trigger] labels@[q]).0 < nets@.len(),
    ensures
        r@ == protected_of(nets@, labels@),
{
    let ghost f = |l: (u32, String)| nets@[l.0 as int];
    let ghost keep = |x: u32| x != u32::MAX;
    let mut r: Vec<u32> = Vec::new();
    let mut k: usize = 0;
    while k < labels.len()
        invariant
            forall|q: int| 0 <= q < labels@.len() ==> (#[trigger] labels@[q]).0 < nets@.len(),
            f == (|l: (u32, String)| nets@[l.0 as int]),
            keep == (|x: u32| x != u32::MAX),
            k <= labels@.len(),
            r@ == labels@.take(k as int).map_values(f).filter(keep),
        decreases labels@.len() - k,
    {
        proof {
            reveal(Seq::filter);
            let t = labels@.take(k as int + 1).map_values(f);
            assert(t.drop_last() =~= labels@.take(k as int).map_values(f));
            assert(t.last() == nets@[labels@[k as int].0 as int]);
        }
        let v = nets[labels[k].0 as usize];
        if v != u32::MAX {
            r.push(v);
        }
        k = k + 1;
    }
    assert(labels@.take(k as int) =~= labels@);
    r
}

fn two_terminal_devices(passives: &Vec<PassiveDevice>) -> (r: Vec<TwoTerminalDevice>)
    ensures
        two_terminal_of(r@, passives@),
{
    let mut r: Vec<TwoTerminalDevice> = Vec::new();
    let mut i: usize = 0;
    while i < passives.len()
        invariant
            i <= passives@.len(),
            two_terminal_of(r@, passives@.take(i as int)),
        decreases passives@.len() - i,
    {
        let p = &passives[i];
        r.push(TwoTerminalDevice { kind: p.kind, name: p.name.clone(), terminal_a: p.terminal_a, terminal_b: p.terminal_b, value_bits: 0 });
        i = i + 1;
    }
    assert(passives@.take(i as int) =~= passives@);
    r
}

fn resolve_bodies(devices: &mut Vec<Device>)
    ensures
        final(devices)@ == old(devices)@.map_values(|d: Device| body_resolved(d)),
{
    let ghost d0 = devices@;
    let mut i: usize = 0;
    while i < devices.len()
        invariant
            devices@.len() == d0.len(),
            i <= d0.len(),
            forall|k: int| 0 <= k < i ==> #[trigger] devices@[k] == body_resolved(d0[k]),
            forall|k: int| i <= k < d0.len() ==> #[trigger] devices@[k] == d0[k],
        decreases d0.len() - i,
    {
        if devices[i].body == u32::MAX {
            let mut d = copy_device(&devices[i]);
            d.body = 0;
            devices.set(i, d);
        }
        i = i + 1;
    }
    assert(devices@ =~= d0.map_values(|d: Device| body_resolved(d)));
}

/// The first transistor-classification error of the extraction, if any;
/// it does not depend on how nets are numbered (see
/// `lemma_extraction_fails_alike`).
pub open spec fn classification_error(store: GeometryStore, deck: Deck) -> Option<Seq<char>> {
    match mos_all(store, deck, Seq::new(nodes_of(store, deck).len(), |i: int| 0u32)) {
        Err(m) => Some(m),
        Ok(_) => None,
    }
}

/// Extraction succeeds: the deck has conductor layers, the exact layers
/// hold only proper rectilinear rings, and every transistor classifies.
pub open spec fn extraction_succeeds(store: GeometryStore, deck: Deck) -> bool {
    &&& deck.connectivity.conductors@.len() > 0
    &&& geometry_error(store, deck) is None
    &&& classification_error(store, deck) is None
}

/// What an extraction returns: without conductor layers, that error;
/// then the first polygon on an exact layer that exact extraction cannot
/// take (see `geometry_error`); otherwise, for some run of the extraction
/// (see `run_ok`), the first
/// transistor-classification error of that run, or the netlist and passive
/// devices it gives (see `extracted`).
pub open spec fn extraction_result(
    store: GeometryStore,
    labels: Seq<(u32, String)>,
    deck: Deck,
    opts: ExtractOpts,
    r: Result<(ExtractedNetlist, Vec<PassiveDevice>), String>,
) -> bool {
    &&& (r is Ok) == extraction_succeeds(store, deck)
    &&& match r {
        Ok((x, passives)) => deck.connectivity.conductors@.len() > 0 && geometry_error(store, deck) is None && exists|w: ExtractRun|
            #[trigger] run_ok(store, deck, opts, w) && extracted(store, labels, deck, w, x, passives@),
        Err(e) => (deck.connectivity.conductors@.len() == 0 && e@ == "no conductors configured in connectivity schema"@) || (
        deck.connectivity.conductors@.len() > 0 && geometry_error(store, deck) == Some(e@)) || (deck.connectivity.conductors@.len() > 0
            && geometry_error(store, deck) is None && exists|w: ExtractRun|
            #[trigger] run_ok(store, deck, opts, w) && mos_all(store, deck, w.node_nets) == Err::<Seq<MosV>, Seq<char>>(e@)),
    }
}

/// Extracts the netlist of one cell's polygons with the deck's
/// connectivity and device rules; `labels` names polygons (polygon index,
/// text). Fails when the deck has no conductor layers, on the first polygon
/// of an exact layer that is not a proper rectilinear ring, or with the
/// first transistor-classification error. Alongside the netlist come the passive
/// devices with their geometry, one for each two-terminal device of the
/// netlist, whose value (left at zero) the caller computes from the layers'
/// electrical parameters.
pub fn extract_netlist_opts(store: &GeometryStore, labels: &Vec<(u32, String)>, deck: &Deck, opts: &ExtractOpts) -> (r: Result<
    (ExtractedNetlist, Vec<PassiveDevice>),
    String,
>)
    requires
        store.wf(),
        boxes_fit(*store),
        store.poly_layer@.len() < u32::MAX,
        nodes_of(*store, *deck).len() < u32::MAX,
        exact_layers_named(*store, *deck),
        forall|q: int| 0 <= q < labels@.len() ==> (#[trigger] labels@[q]).0 < store.poly_layer@.len(),
    ensures
        extraction_result(*store, labels@, *deck, *opts, r),
{
    let (conductors, vias) = match resolve_connectivity(&deck.connectivity) {
        Err(e) => {
            return Err(e);
        },
        Ok(p) => p,
    };
    match validate_rectilinear_layers(store, deck, &conductors, &vias) {
        Err(e) => {
            return Err(e);
        },
        Ok(()) => {},
    }
    let gates = rule_layers(&deck.devices.mos_rules, true);
    let channels = rule_layers(&deck.devices.mos_rules, false);
    let (nodes, node_of_poly, splits, starts) = build_nodes(store, deck, &gates, &channels, &conductors, &vias);
    let boxes = node_boxes(&nodes);
    let cands = node_candidate_pairs(boxes.as_slice());
    let rules = JoinRules {
        gate_layers: gates,
        channel_layers: channels,
        vias: copy_vias(&deck.connectivity.vias),
        cut_required: opts.cut_required,
        intra_layer_touch: deck.intra_layer_touch,
    };
    proof {
        let ch = channel_layers_of(deck.devices.mos_rules@);
        let gl = gate_layers_of(deck.devices.mos_rules@);
        let items = items_of(*store, *deck);
        let n = store.poly_layer@.len() as int;
        lemma_conductor_polys(*store, ch, deck.connectivity.conductors@, via_layers(*deck), n);
        lemma_channel_items(store.poly_layer@, ch, ch.len() as int);
        lemma_seg_polys(*store, gl, items, items.len() as int);
    }
    let pairs = joining_pairs(store, &rules, &nodes, &cands);
    proof {
        let keep = joins(*store, rules, nodes@);
        assert forall|k: int| 0 <= k < pairs@.len() implies (#[trigger] pairs@[k]).0 < nodes@.len() && pairs@[k].1 < nodes@.len() by {
            assert(pairs@.contains(pairs@[k]));
            cands@.lemma_filter_contains_rev(keep, pairs@[k]);
        }
    }
    let (node_nets, net_count) = nets_of_nodes(nodes.len(), &pairs);
    proof {
        lemma_nets_before_le(pairs@, nodes@.len() as int);
    }
    let nets = poly_nets_exec(store, deck, &node_of_poly, &node_nets, &splits, &starts);
    let ghost w0 = ExtractRun {
        rules: rules,
        cands: cands@,
        node_nets: node_nets@,
        mos: Seq::empty(),
        sources: Seq::empty(),
        pre: vstd::pervasive::arbitrary(),
    };
    assert(run_ok(*store, *deck, *opts, w0));
    proof {
        let zeros = Seq::new(nodes_of(*store, *deck).len(), |i: int| 0u32);
        lemma_run_netted(*store, *deck, *opts, w0);
        lemma_extraction_fails_alike(*store, *deck, node_nets@, zeros);
    }
    let (mut devices, sources) = match mos_exec(store, deck, &splits, &starts, &node_nets, &nets) {
        Err(e) => {
            return Err(e);
        },
        Ok(p) => p,
    };
    let ghost mos = devices@;
    let mut nets = nets;
    proof {
        lemma_poly_nets_len(*store, *deck, node_nets@, items_of(*store, *deck).len() as int);
    }
    let ghost nets0 = nets@;
    merge_global_nets(&mut nets, &mut devices, labels, &deck.global_nets);
    proof {
        lemma_merge_len(nets0, mos, labels@, deck.global_nets@, deck.global_nets@.len() as int);
    }
    let passives = extract_two_terminal_devices(store, &deck.devices, &nets);
    let two_terminal = two_terminal_devices(&passives);
    let bjt_devices = extract_bjt_devices(store, &deck.devices, &nets);
    let conflicts = find_label_conflicts(&nets, labels);
    let protected = protected_nets(&nets, labels);
    let mut ext = ExtractedNetlist {
        devices,
        device_sources: sources,
        net_count,
        used_nets: 0,
        net_of_poly: nets,
        label_conflicts: conflicts,
        two_terminal,
        bjt_devices,
        floating_nets: Vec::new(),
    };
    let ghost pre = ext;
    reduce_netlist_with_protected(&mut ext, &protected);
    let ghost reduced = ext.devices@;
    let floating = find_floating_nets(&ext.net_of_poly, net_count as u32, labels, &ext.devices, &ext.two_terminal, &ext.bjt_devices);
    ext.floating_nets = floating;
    resolve_bodies(&mut ext.devices);
    let ghost w = ExtractRun { mos: mos, sources: pre.device_sources@, pre: pre, ..w0 };
    assert(run_ok(*store, *deck, *opts, w));
    proof {
        let merged = merge_globals(poly_nets(*store, *deck, w.node_nets), w.mos, labels@, deck.global_nets@, deck.global_nets@.len() as int);
        let nets = merged.0;
        let reduced = reduce_spec(w.pre, merged.1, protected_of(nets, labels@));
        assert(w.mos.len() == w.sources.len());
        assert(mos_all(*store, *deck, w.node_nets) == Ok::<Seq<MosV>, Seq<char>>(mos_views(w.mos, w.sources)));
        assert(ext.devices@ == reduced.map_values(|d: Device| body_resolved(d)));
        assert(ext.net_of_poly@ == nets);
        assert(ext.used_nets == used_set(reduced).len());
        assert(ext.label_conflicts@.map_values(|s: String| s@) == label_conflicts(nets, labels@, labels@.len() as int));
        assert(passives_view(passives@) == passives_of(*store, deck.devices, nets));
        assert(bjts_view(ext.bjt_devices@) == bjt_rules(*store, deck.devices.bjt_rules@, nets, deck.devices.bjt_rules@.len() as int));
        assert(ext.floating_nets@.map_values(|f: FloatingNet| floating_view(f)) == floating_nets(
            nets, labels@, reduced, ext.two_terminal@, ext.bjt_devices@, ext.net_count as int));
    }
    assert(extracted(*store, labels@, *deck, w, ext, passives@));
    Ok((ext, passives))
}

/// `extract_netlist_opts` with the deck's own cut requirement.
pub fn extract_netlist(store: &GeometryStore, labels: &Vec<(u32, String)>, deck: &Deck) -> (r: Result<(ExtractedNetlist, Vec<PassiveDevice>), String>)
    requires
        store.wf(),
        boxes_fit(*store),
        store.poly_layer@.len() < u32::MAX,
        nodes_of(*store, *deck).len() < u32::MAX,
        exact_layers_named(*store, *deck),
        forall|q: int| 0 <= q < labels@.len() ==> (#[trigger] labels@[q]).0 < store.poly_layer@.len(),
    ensures
        extraction_result(*store, labels@, *deck, (ExtractOpts { cut_required: deck.lvs_cut_required }), r),
{
    extract_netlist_opts(store, labels, deck, &ExtractOpts { cut_required: deck.lvs_cut_required })
}

proof fn lemma_seg_polys(store: GeometryStore, gates: Seq<u32>, items: Seq<usize>, k: int)
    requires
        0 <= k <= items.len(),
        forall|i: int| 0 <= i < items.len() ==> (#[trigger] items[i]) < store.poly_layer@.len(),
    ensures
        forall|i: int| 0 <= i < seg_nodes_upto(store, gates, items, k).len() ==>
            (#[trigger] seg_nodes_upto(store, gates, items, k)[i]).poly < store.poly_layer@.len(),
    decreases k,
{
    if k > 0 {
        lemma_seg_polys(store, gates, items, k - 1);
        let a = seg_nodes_upto(store, gates, items, k - 1);
        let b = seg_nodes_upto(store, gates, items, k);
        assert forall|i: int| 0 <= i < b.len() implies (#[trigger] b[i]).poly < store.poly_layer@.len() by {
            if i < a.len() {
                assert(b[i] == a[i]);
            }
        }
    }
}

proof fn lemma_merge_len(nets: Seq<u32>, devices: Seq<Device>, labels: Seq<(u32, String)>, globals: Seq<String>, k: int)
    ensures
        merge_globals(nets, devices, labels, globals, k).0.len() == nets.len(),
    decreases k,
{
    if k > 0 {
        lemma_merge_len(nets, devices, labels, globals, k - 1);
    }
}

// --- when extraction fails ---

/// `a` and `b` leave the same polygons without a net.
pub open spec fn same_netless(a: Seq<u32>, b: Seq<u32>) -> bool {
    &&& a.len() == b.len()
    &&& forall|i: int| 0 <= i < a.len() ==> (#[trigger] a[i] == u32::MAX <==> b[i] == u32::MAX)
}

/// No node is without a net.
pub open spec fn all_netted(nn: Seq<u32>) -> bool {
    forall|i: int| 0 <= i < nn.len() ==> #[trigger] nn[i] != u32::MAX
}

proof fn lemma_split_devices_alike(
    store: GeometryStore,
    rules: Seq<MosRule>,
    d: int,
    axis_x: bool,
    gates: Seq<GateSpan>,
    segs: Seq<(i32, i32)>,
    sn1: Seq<u32>,
    sn2: Seq<u32>,
    n1: Seq<u32>,
    n2: Seq<u32>,
    k: int,
)
    requires
        same_netless(n1, n2),
        forall|j: int| 0 <= j < gates.len() ==> (#[trigger] gates[j]).gate < n1.len(),
        k <= gates.len(),
    ensures
        (split_devices(store, rules, d, axis_x, gates, segs, sn1, n1, k) is Err) == (split_devices(store, rules, d, axis_x, gates, segs, sn2, n2, k) is Err),
        split_devices(store, rules, d, axis_x, gates, segs, sn1, n1, k) is Err ==> split_devices(store, rules, d, axis_x, gates, segs, sn1, n1, k)
            == split_devices(store, rules, d, axis_x, gates, segs, sn2, n2, k),
    decreases k,
{
    if k > 0 {
        lemma_split_devices_alike(store, rules, d, axis_x, gates, segs, sn1, sn2, n1, n2, k - 1);
        let gs = gates[k - 1];
        assert(n1[gs.gate as int] == u32::MAX <==> n2[gs.gate as int] == u32::MAX);
        let o1 = gate_outcome(store, rules, d, axis_x, segs, sn1, n1, gs);
        let o2 = gate_outcome(store, rules, d, axis_x, segs, sn2, n2, gs);
        assert((o1 is Err) == (o2 is Err));
        assert(o1 is Err ==> o1 == o2);
    }
}

proof fn lemma_poly_nets_netless(store: GeometryStore, deck: Deck, nn1: Seq<u32>, nn2: Seq<u32>, k: int)
    requires
        nn1.len() == nodes_of(store, deck).len(),
        nn2.len() == nn1.len(),
        all_netted(nn1),
        all_netted(nn2),
        0 <= k <= items_of(store, deck).len(),
        store.poly_layer@.len() < u32::MAX,
    ensures
        same_netless(poly_nets_upto(store, deck, nn1, k), poly_nets_upto(store, deck, nn2, k)),
    decreases k,
{
    let ch = channel_layers_of(deck.devices.mos_rules@);
    let gl = gate_layers_of(deck.devices.mos_rules@);
    let items = items_of(store, deck);
    let cond = deck.connectivity.conductors@;
    let vl = via_layers(deck);
    let n = store.poly_layer@.len() as int;
    lemma_poly_nets_len(store, deck, nn1, k);
    lemma_poly_nets_len(store, deck, nn2, k);
    lemma_seg_nodes_len(store, gl, items, 0, items.len() as int);
    if k == 0 {
        lemma_conductor_nodes(store, ch, cond, vl, n, n);
        let a = poly_nets_upto(store, deck, nn1, 0);
        let b = poly_nets_upto(store, deck, nn2, 0);
        assert forall|i: int| 0 <= i < a.len() implies (#[trigger] a[i] == u32::MAX <==> b[i] == u32::MAX) by {
            if own_node(store, ch, cond, vl, i) {
                lemma_conductor_nodes(store, ch, cond, vl, i, n);
                assert(nn1[conductor_nodes(store, ch, cond, vl, i).len() as int] != u32::MAX);
                assert(nn2[conductor_nodes(store, ch, cond, vl, i).len() as int] != u32::MAX);
            }
        }
    } else {
        lemma_poly_nets_netless(store, deck, nn1, nn2, k - 1);
        lemma_seg_nodes_len(store, gl, items, k, items.len() as int);
        lemma_channel_items(store.poly_layer@, ch, ch.len() as int);
        let d = items[k - 1] as int;
        if segs_of(store, gl, d).len() > 0 {
            assert(seg_start(store, deck, k - 1) < nn1.len());
            assert(nn1[seg_start(store, deck, k - 1)] != u32::MAX);
            assert(nn2[seg_start(store, deck, k - 1)] != u32::MAX);
            let a = poly_nets_upto(store, deck, nn1, k);
            let b = poly_nets_upto(store, deck, nn2, k);
            let pa = poly_nets_upto(store, deck, nn1, k - 1);
            let pb = poly_nets_upto(store, deck, nn2, k - 1);
            lemma_poly_nets_len(store, deck, nn1, k - 1);
            lemma_poly_nets_len(store, deck, nn2, k - 1);
            assert(d < n);
            assert(a == pa.update(d, nn1[seg_start(store, deck, k - 1)]));
            assert(b == pb.update(d, nn2[seg_start(store, deck, k - 1)]));
            assert forall|i: int| 0 <= i < a.len() implies (#[trigger] a[i] == u32::MAX <==> b[i] == u32::MAX) by {
                if i != d {
                    assert(a[i] == pa[i] && b[i] == pb[i]);
                }
            }
        }
    }
}

proof fn lemma_mos_upto_alike(store: GeometryStore, deck: Deck, nn1: Seq<u32>, nn2: Seq<u32>, k: int)
    requires
        nn1.len() == nodes_of(store, deck).len(),
        nn2.len() == nn1.len(),
        all_netted(nn1),
        all_netted(nn2),
        0 <= k <= items_of(store, deck).len(),
        store.wf(),
        store.poly_layer@.len() < u32::MAX,
        forall|p: int| 0 <= p < store.poly_bbox@.len() ==> (#[trigger] store.poly_bbox@[p]).wf(),
    ensures
        (mos_upto(store, deck, nn1, k) is Err) == (mos_upto(store, deck, nn2, k) is Err),
        mos_upto(store, deck, nn1, k) is Err ==> mos_upto(store, deck, nn1, k) == mos_upto(store, deck, nn2, k),
    decreases k,
{
    if k > 0 {
        lemma_mos_upto_alike(store, deck, nn1, nn2, k - 1);
        let ch = channel_layers_of(deck.devices.mos_rules@);
        let gl = gate_layers_of(deck.devices.mos_rules@);
        let items = items_of(store, deck);
        lemma_channel_items(store.poly_layer@, ch, ch.len() as int);
        let d = items[k - 1] as int;
        lemma_split_tiles(store, gl, d);
        lemma_poly_nets_netless(store, deck, nn1, nn2, items.len() as int);
        lemma_poly_nets_len(store, deck, nn1, items.len() as int);
        let (axis_x, spans, segs) = split_spec(store, gl, d);
        let start = seg_start(store, deck, k - 1);
        lemma_split_devices_alike(
            store,
            deck.devices.mos_rules@,
            d,
            axis_x,
            spans,
            segs,
            nn1.subrange(start, start + segs.len()),
            nn2.subrange(start, start + segs.len()),
            poly_nets(store, deck, nn1),
            poly_nets(store, deck, nn2),
            spans.len() as int,
        );
    }
}

/// Whether extraction fails in transistor classification, and with which
/// message, does not depend on how the nodes' nets are numbered: any two
/// numberings that give every node a net fail alike.
pub proof fn lemma_extraction_fails_alike(store: GeometryStore, deck: Deck, nn1: Seq<u32>, nn2: Seq<u32>)
    requires
        store.wf(),
        boxes_fit(store),
        store.poly_layer@.len() < u32::MAX,
        nn1.len() == nodes_of(store, deck).len(),
        nn2.len() == nn1.len(),
        all_netted(nn1),
        all_netted(nn2),
    ensures
        (mos_all(store, deck, nn1) is Err) == (mos_all(store, deck, nn2) is Err),
        mos_all(store, deck, nn1) is Err ==> mos_all(store, deck, nn1) == mos_all(store, deck, nn2),
{
    lemma_mos_upto_alike(store, deck, nn1, nn2, items_of(store, deck).len() as int);
}

/// The node nets of a run give every node a net.
pub proof fn lemma_run_netted(store: GeometryStore, deck: Deck, opts: ExtractOpts, w: ExtractRun)
    requires
        run_ok(store, deck, opts, w),
        nodes_of(store, deck).len() < u32::MAX,
    ensures
        all_netted(w.node_nets),
        w.node_nets.len() == nodes_of(store, deck).len(),
{
    let nodes = nodes_of(store, deck);
    let pairs = w.cands.filter(joins(store, w.rules, nodes));
    lemma_nets_before_le(pairs, nodes.len() as int);
    assert forall|i: int| 0 <= i < w.node_nets.len() implies #[trigger] w.node_nets[i] != u32::MAX by {
        assert(w.node_nets[i] < nets_before(pairs, nodes.len() as int));
    }
}

} // verus!
