//! Recognizing bipolar transistors and two-terminal passives once every
//! polygon's net is known. Polygons are visited layer by layer in index
//! order, so the devices come out in a fixed order.
use vstd::prelude::*;
use crate::geometry::{Bbox, GeometryStore};
use crate::io::params::{BjtRule, CapRule, ConnectivityConfig, DeviceConfig, DiodeRule, MosRule, ResistorRule};
use crate::lvs::classify::{full, layer_overlaps, layer_overlaps_exec, name_is, region_of};
use crate::lvs::rectilinear::{poly_poly_overlap, rectilinear_intersection_area, regions_view, shared_area};
use crate::lvs::types::{BjtDevice, DeviceKind, TwoTerminalKind};

verus! {

/// Polygons `p` and `q` overlap with positive area: their boxes overlap and
/// the exact area they share, each clipped to its own box, is positive.
pub open spec fn pair_overlap(store: GeometryStore, p: int, q: int) -> bool {
    store.poly_bbox@[p].overlaps_spec(store.poly_bbox@[q]) && shared_area(seq![full(store, p), full(store, q)]) > 0
}

pub(crate) fn pair_overlap_exec(store: &GeometryStore, p: usize, q: usize) -> (b: bool)
    requires
        store.wf(),
        p < store.poly_layer@.len(),
        q < store.poly_layer@.len(),
    ensures
        b == pair_overlap(*store, p as int, q as int),
{
    poly_poly_overlap(&store.poly_ring[p], store.poly_bbox[p], &store.poly_ring[q], store.poly_bbox[q])
}

/// The indices of the polygons on `layer`, ascending.
pub open spec fn layer_polys(store: GeometryStore, layer: u32) -> Seq<usize> {
    GeometryStore::on_layer(store.poly_layer@, layer)
}

pub(crate) fn layer_polys_exec(store: &GeometryStore, layer: u32) -> (r: Vec<usize>)
    requires
        store.wf(),
    ensures
        r@ == layer_polys(*store, layer),
        forall|i: int| 0 <= i < r@.len() ==> (#[trigger] r@[i]) < store.poly_layer@.len(),
{
    let _n = store.poly_layer.len();
    proof {
        GeometryStore::lemma_on_layer(store.poly_layer@, layer);
    }
    store.polys_on_layer(layer)
}

// --- bipolar transistors ---

/// A bipolar transistor as the contracts see it.
pub struct BjtV {
    pub kind: DeviceKind,
    pub collector: u32,
    pub base: u32,
    pub emitter: u32,
    pub name: Seq<char>,
}

pub open spec fn bjt_view(d: BjtDevice) -> BjtV {
    BjtV { kind: d.kind, collector: d.collector, base: d.base, emitter: d.emitter, name: d.name@ }
}

pub open spec fn bjts_view(v: Seq<BjtDevice>) -> Seq<BjtV> {
    v.map_values(|d: BjtDevice| bjt_view(d))
}

/// A rule's device type: `pnp`, or `npn` for any other name.
pub open spec fn bjt_kind(t: Seq<char>) -> DeviceKind {
    if t == "pnp"@ {
        DeviceKind::Pnp
    } else {
        DeviceKind::Npn
    }
}

/// The transistor of `rule` with emitter `e`, base `b` and collector `c`:
/// there is one when base and collector overlap, some polygon of the type
/// marker shares area with emitter and base, and all three have a net.
pub open spec fn bjt_at(store: GeometryStore, rule: BjtRule, nets: Seq<u32>, e: int, b: int, c: int) -> Seq<BjtV> {
    if pair_overlap(store, b, c) && layer_overlaps(store, rule.type_marker, e, b) && nets[e] != u32::MAX
        && nets[b] != u32::MAX && nets[c] != u32::MAX {
        seq![BjtV { kind: bjt_kind(rule.device_type@), collector: nets[c], base: nets[b], emitter: nets[e], name: rule.name@ }]
    } else {
        Seq::empty()
    }
}

/// Transistors of `rule` with emitter `e` and base `b`, over the first `k`
/// collector-layer polygons.
pub open spec fn bjt_collectors(store: GeometryStore, rule: BjtRule, nets: Seq<u32>, e: int, b: int, k: int) -> Seq<BjtV>
    decreases k,
{
    if k <= 0 {
        Seq::empty()
    } else {
        bjt_collectors(store, rule, nets, e, b, k - 1)
            + bjt_at(store, rule, nets, e, b, layer_polys(store, rule.collector_layer)[k - 1] as int)
    }
}

/// Transistors of `rule` with emitter `e`, over the first `k` base-layer
/// polygons; a base counts only where it overlaps the emitter.
pub open spec fn bjt_bases(store: GeometryStore, rule: BjtRule, nets: Seq<u32>, e: int, k: int) -> Seq<BjtV>
    decreases k,
{
    if k <= 0 {
        Seq::empty()
    } else {
        let b = layer_polys(store, rule.base_layer)[k - 1] as int;
        bjt_bases(store, rule, nets, e, k - 1) + if pair_overlap(store, e, b) {
            bjt_collectors(store, rule, nets, e, b, layer_polys(store, rule.collector_layer).len() as int)
        } else {
            Seq::empty()
        }
    }
}

/// Transistors of `rule` over the first `k` emitter-layer polygons.
pub open spec fn bjt_emitters(store: GeometryStore, rule: BjtRule, nets: Seq<u32>, k: int) -> Seq<BjtV>
    decreases k,
{
    if k <= 0 {
        Seq::empty()
    } else {
        bjt_emitters(store, rule, nets, k - 1) + bjt_bases(
            store,
            rule,
            nets,
            layer_polys(store, rule.emitter_layer)[k - 1] as int,
            layer_polys(store, rule.base_layer).len() as int,
        )
    }
}

/// Transistors of the first `k` rules, rule by rule.
pub open spec fn bjt_rules(store: GeometryStore, rules: Seq<BjtRule>, nets: Seq<u32>, k: int) -> Seq<BjtV>
    decreases k,
{
    if k <= 0 {
        Seq::empty()
    } else {
        bjt_rules(store, rules, nets, k - 1)
            + bjt_emitters(store, rules[k - 1], nets, layer_polys(store, rules[k - 1].emitter_layer).len() as int)
    }
}

proof fn lemma_bjts_push(v: Seq<BjtDevice>, d: BjtDevice)
    ensures
        bjts_view(v.push(d)) == bjts_view(v).push(bjt_view(d)),
{
    assert(bjts_view(v.push(d)) =~= bjts_view(v).push(bjt_view(d)));
}

fn append_bjt_collectors(
    store: &GeometryStore,
    rule: &BjtRule,
    kind: DeviceKind,
    nets: &Vec<u32>,
    e: usize,
    b: usize,
    collectors: &Vec<usize>,
    out: &mut Vec<BjtDevice>,
)
    requires
        store.wf(),
        nets@.len() == store.poly_layer@.len(),
        e < store.poly_layer@.len(),
        b < store.poly_layer@.len(),
        kind == bjt_kind(rule.device_type@),
        collectors@ == layer_polys(*store, rule.collector_layer),
        forall|i: int| 0 <= i < collectors@.len() ==> (#[trigger] collectors@[i]) < store.poly_layer@.len(),
    ensures
        bjts_view(final(out)@) == bjts_view(old(out)@) + bjt_collectors(*store, *rule, nets@, e as int, b as int, collectors@.len() as int),
{
    let ghost start = bjts_view(out@);
    let mut k: usize = 0;
    assert(start + Seq::<BjtV>::empty() =~= start);
    while k < collectors.len()
        invariant
            store.wf(),
            nets@.len() == store.poly_layer@.len(),
            e < store.poly_layer@.len(),
            b < store.poly_layer@.len(),
            kind == bjt_kind(rule.device_type@),
            collectors@ == layer_polys(*store, rule.collector_layer),
            forall|i: int| 0 <= i < collectors@.len() ==> (#[trigger] collectors@[i]) < store.poly_layer@.len(),
            k <= collectors@.len(),
            bjts_view(out@) == start + bjt_collectors(*store, *rule, nets@, e as int, b as int, k as int),
        decreases collectors@.len() - k,
    {
        let c = collectors[k];
        let ghost before = bjts_view(out@);
        if pair_overlap_exec(store, b, c) && layer_overlaps_exec(store, rule.type_marker, e, b) && nets[e] != u32::MAX
            && nets[b] != u32::MAX && nets[c] != u32::MAX {
            let d = BjtDevice { kind, collector: nets[c], base: nets[b], emitter: nets[e], name: rule.name.clone() };
            let ghost v0 = out@;
            out.push(d);
            proof {
                lemma_bjts_push(v0, d);
            }
        }
        assert(bjts_view(out@) =~= before + bjt_at(*store, *rule, nets@, e as int, b as int, c as int));
        assert(bjts_view(out@) =~= start + bjt_collectors(*store, *rule, nets@, e as int, b as int, k as int + 1));
        k = k + 1;
    }
}

fn append_bjt_bases(
    store: &GeometryStore,
    rule: &BjtRule,
    kind: DeviceKind,
    nets: &Vec<u32>,
    e: usize,
    bases: &Vec<usize>,
    collectors: &Vec<usize>,
    out: &mut Vec<BjtDevice>,
)
    requires
        store.wf(),
        nets@.len() == store.poly_layer@.len(),
        e < store.poly_layer@.len(),
        kind == bjt_kind(rule.device_type@),
        bases@ == layer_polys(*store, rule.base_layer),
        collectors@ == layer_polys(*store, rule.collector_layer),
        forall|i: int| 0 <= i < bases@.len() ==> (#[trigger] bases@[i]) < store.poly_layer@.len(),
        forall|i: int| 0 <= i < collectors@.len() ==> (#[trigger] collectors@[i]) < store.poly_layer@.len(),
    ensures
        bjts_view(final(out)@) == bjts_view(old(out)@) + bjt_bases(*store, *rule, nets@, e as int, bases@.len() as int),
{
    let ghost start = bjts_view(out@);
    let mut k: usize = 0;
    assert(start + Seq::<BjtV>::empty() =~= start);
    while k < bases.len()
        invariant
            store.wf(),
            nets@.len() == store.poly_layer@.len(),
            e < store.poly_layer@.len(),
            kind == bjt_kind(rule.device_type@),
            bases@ == layer_polys(*store, rule.base_layer),
            collectors@ == layer_polys(*store, rule.collector_layer),
            forall|i: int| 0 <= i < bases@.len() ==> (#[trigger] bases@[i]) < store.poly_layer@.len(),
            forall|i: int| 0 <= i < collectors@.len() ==> (#[trigger] collectors@[i]) < store.poly_layer@.len(),
            k <= bases@.len(),
            bjts_view(out@) == start + bjt_bases(*store, *rule, nets@, e as int, k as int),
        decreases bases@.len() - k,
    {
        let b = bases[k];
        let ghost before = bjts_view(out@);
        if pair_overlap_exec(store, e, b) {
            append_bjt_collectors(store, rule, kind, nets, e, b, collectors, out);
        } else {
            assert(bjts_view(out@) =~= before + Seq::<BjtV>::empty());
        }
        assert(bjts_view(out@) =~= start + bjt_bases(*store, *rule, nets@, e as int, k as int + 1));
        k = k + 1;
    }
}

fn append_bjt_rule(store: &GeometryStore, rule: &BjtRule, nets: &Vec<u32>, out: &mut Vec<BjtDevice>)
    requires
        store.wf(),
        nets@.len() == store.poly_layer@.len(),
    ensures
        bjts_view(final(out)@) == bjts_view(old(out)@)
            + bjt_emitters(*store, *rule, nets@, layer_polys(*store, rule.emitter_layer).len() as int),
{
    let kind = if name_is(&rule.device_type, "pnp") {
        DeviceKind::Pnp
    } else {
        DeviceKind::Npn
    };
    let emitters = layer_polys_exec(store, rule.emitter_layer);
    let bases = layer_polys_exec(store, rule.base_layer);
    let collectors = layer_polys_exec(store, rule.collector_layer);
    let ghost start = bjts_view(out@);
    let mut k: usize = 0;
    assert(start + Seq::<BjtV>::empty() =~= start);
    while k < emitters.len()
        invariant
            store.wf(),
            nets@.len() == store.poly_layer@.len(),
            kind == bjt_kind(rule.device_type@),
            emitters@ == layer_polys(*store, rule.emitter_layer),
            bases@ == layer_polys(*store, rule.base_layer),
            collectors@ == layer_polys(*store, rule.collector_layer),
            forall|i: int| 0 <= i < emitters@.len() ==> (#[trigger] emitters@[i]) < store.poly_layer@.len(),
            forall|i: int| 0 <= i < bases@.len() ==> (#[trigger] bases@[i]) < store.poly_layer@.len(),
            forall|i: int| 0 <= i < collectors@.len() ==> (#[trigger] collectors@[i]) < store.poly_layer@.len(),
            k <= emitters@.len(),
            bjts_view(out@) == start + bjt_emitters(*store, *rule, nets@, k as int),
        decreases emitters@.len() - k,
    {
        let ghost before = bjts_view(out@);
        append_bjt_bases(store, rule, kind, nets, emitters[k], &bases, &collectors, out);
        assert(bjts_view(out@) =~= start + bjt_emitters(*store, *rule, nets@, k as int + 1));
        k = k + 1;
    }
}

/// Recognizes the bipolar transistors of every rule, rule by rule; within a
/// rule by emitter, then base, then collector, each in polygon order. The
/// type is `pnp` for a rule so named and `npn` otherwise.
pub fn extract_bjt_devices(store: &GeometryStore, devices: &DeviceConfig, net_of_poly: &Vec<u32>) -> (out: Vec<BjtDevice>)
    requires
        store.wf(),
        net_of_poly@.len() == store.poly_layer@.len(),
    ensures
        bjts_view(out@) == bjt_rules(*store, devices.bjt_rules@, net_of_poly@, devices.bjt_rules@.len() as int),
{
    let mut out: Vec<BjtDevice> = Vec::new();
    let mut r: usize = 0;
    assert(bjts_view(out@) =~= Seq::<BjtV>::empty());
    while r < devices.bjt_rules.len()
        invariant
            store.wf(),
            net_of_poly@.len() == store.poly_layer@.len(),
            r <= devices.bjt_rules@.len(),
            bjts_view(out@) == bjt_rules(*store, devices.bjt_rules@, net_of_poly@, r as int),
        decreases devices.bjt_rules@.len() - r,
    {
        append_bjt_rule(store, &devices.bjt_rules[r], net_of_poly, &mut out);
        r = r + 1;
    }
    out
}

// --- two-terminal passives ---

/// A recognized resistor, diode or capacitor, with the geometry its value
/// is computed from: for a resistor the body's layer and its extent along
/// (`length`) and across (`width`) its longer side; for a capacitor the top
/// plate's layer and the plates' shared `area`. Fields that do not apply
/// are zero.
#[derive(Clone, Debug)]
pub struct PassiveDevice {
    pub kind: TwoTerminalKind,
    pub name: String,
    pub terminal_a: u32,
    pub terminal_b: u32,
    pub layer: u32,
    pub length: i64,
    pub width: i64,
    pub area: i128,
}

/// A passive device as the contracts see it.
pub struct PassiveV {
    pub kind: TwoTerminalKind,
    pub name: Seq<char>,
    pub terminal_a: u32,
    pub terminal_b: u32,
    pub layer: u32,
    pub length: i64,
    pub width: i64,
    pub area: i128,
}

pub open spec fn passive_view(d: PassiveDevice) -> PassiveV {
    PassiveV {
        kind: d.kind,
        name: d.name@,
        terminal_a: d.terminal_a,
        terminal_b: d.terminal_b,
        layer: d.layer,
        length: d.length,
        width: d.width,
        area: d.area,
    }
}

pub open spec fn passives_view(v: Seq<PassiveDevice>) -> Seq<PassiveV> {
    v.map_values(|d: PassiveDevice| passive_view(d))
}

proof fn lemma_passives_push(v: Seq<PassiveDevice>, d: PassiveDevice)
    ensures
        passives_view(v.push(d)) == passives_view(v).push(passive_view(d)),
{
    assert(passives_view(v.push(d)) =~= passives_view(v).push(passive_view(d)));
}

/// Half of `v`, rounded toward zero.
pub open spec fn half_toward_zero(v: int) -> int {
    if v >= 0 {
        v / 2
    } else {
        -((-v) / 2)
    }
}

/// The box is at least as wide as it is tall.
pub open spec fn wide(bb: Bbox) -> bool {
    bb.xmax - bb.xmin >= bb.ymax - bb.ymin
}

/// Where terminal polygon `t` sits along the body's longer side: the middle
/// of its box in x for a wide body, in y otherwise.
pub open spec fn along(store: GeometryStore, body: int, t: int) -> i64 {
    let tb = store.poly_bbox@[t];
    if wide(store.poly_bbox@[body]) {
        half_toward_zero(tb.xmin + tb.xmax) as i64
    } else {
        half_toward_zero(tb.ymin + tb.ymax) as i64
    }
}

/// The terminals of resistor body `body` among the first `k` terminal-layer
/// polygons, as (net, position along the body): those that overlap the body
/// and have a net.
pub open spec fn terminals(store: GeometryStore, rule: ResistorRule, nets: Seq<u32>, body: int, k: int) -> Seq<(u32, i64)>
    decreases k,
{
    if k <= 0 {
        Seq::empty()
    } else {
        let t = layer_polys(store, rule.terminal_layer)[k - 1] as int;
        let prev = terminals(store, rule, nets, body, k - 1);
        if pair_overlap(store, t, body) && nets[t] != u32::MAX {
            prev.push((nets[t], along(store, body, t)))
        } else {
            prev
        }
    }
}

/// Index of the entry with the smallest position among the first `k`, the
/// earliest one on a tie.
pub open spec fn lowest(s: Seq<(u32, i64)>, k: int) -> int
    decreases k,
{
    if k <= 1 {
        0
    } else {
        let b = lowest(s, k - 1);
        if s[k - 1].1 < s[b].1 {
            k - 1
        } else {
            b
        }
    }
}

/// Index of the entry with the largest position among the first `k`, the
/// latest one on a tie.
pub open spec fn highest(s: Seq<(u32, i64)>, k: int) -> int
    decreases k,
{
    if k <= 1 {
        0
    } else {
        let b = highest(s, k - 1);
        if s[k - 1].1 >= s[b].1 {
            k - 1
        } else {
            b
        }
    }
}

/// `lowest` picks what a stable sort by position puts first, and `highest`
/// what it puts last: the first entry of least position and the last entry
/// of greatest position.
pub proof fn lemma_lowest_highest(s: Seq<(u32, i64)>, k: int)
    requires
        1 <= k <= s.len(),
    ensures
        0 <= lowest(s, k) < k,
        forall|j: int| 0 <= j < k ==> s[lowest(s, k)].1 <= #[trigger] s[j].1,
        forall|j: int| 0 <= j < lowest(s, k) ==> s[lowest(s, k)].1 < #[trigger] s[j].1,
        0 <= highest(s, k) < k,
        forall|j: int| 0 <= j < k ==> #[trigger] s[j].1 <= s[highest(s, k)].1,
        forall|j: int| highest(s, k) < j < k ==> #[trigger] s[j].1 < s[highest(s, k)].1,
    decreases k,
{
    if k > 1 {
        lemma_lowest_highest(s, k - 1);
    }
}

/// Some polygon on `layer` overlaps polygon `q` (in that order).
pub open spec fn overlapped_from(store: GeometryStore, layer: u32, q: int) -> bool {
    exists|p: int| 0 <= p < store.poly_layer@.len() && store.poly_layer@[p] == layer && #[trigger] pair_overlap(store, p, q)
}

/// Polygon `q` overlaps some gate-layer polygon of a MOS rule.
pub open spec fn on_a_gate(store: GeometryStore, mos: Seq<MosRule>, q: int) -> bool {
    exists|i: int, g: int|
        0 <= i < mos.len() && 0 <= g < store.poly_layer@.len() && store.poly_layer@[g] == (#[trigger] mos[i]).gate_layer
            && #[trigger] pair_overlap(store, q, g)
}

/// The resistor of `rule` on body `body`: the body must be overlapped by a
/// marker polygon, must not overlap a MOS gate, and must have at least two
/// terminals; it runs from the first lowest to the last highest terminal.
pub open spec fn resistor_at(store: GeometryStore, mos: Seq<MosRule>, rule: ResistorRule, nets: Seq<u32>, body: int) -> Seq<PassiveV> {
    let ts = terminals(store, rule, nets, body, layer_polys(store, rule.terminal_layer).len() as int);
    let bb = store.poly_bbox@[body];
    let w = bb.xmax - bb.xmin;
    let h = bb.ymax - bb.ymin;
    if !overlapped_from(store, rule.marker_layer, body) || on_a_gate(store, mos, body) || ts.len() < 2 {
        Seq::empty()
    } else {
        seq![PassiveV {
            kind: TwoTerminalKind::Resistor,
            name: rule.name@,
            terminal_a: ts[lowest(ts, ts.len() as int)].0,
            terminal_b: ts[highest(ts, ts.len() as int)].0,
            layer: rule.body_layer,
            length: (if w >= h { w } else { h }) as i64,
            width: (if w >= h { h } else { w }) as i64,
            area: 0,
        }]
    }
}

/// Resistors of `rule` over the first `k` body-layer polygons.
pub open spec fn resistor_bodies(store: GeometryStore, mos: Seq<MosRule>, rule: ResistorRule, nets: Seq<u32>, k: int) -> Seq<PassiveV>
    decreases k,
{
    if k <= 0 {
        Seq::empty()
    } else {
        resistor_bodies(store, mos, rule, nets, k - 1)
            + resistor_at(store, mos, rule, nets, layer_polys(store, rule.body_layer)[k - 1] as int)
    }
}

/// Resistors of the first `k` resistor rules.
pub open spec fn resistor_rules(store: GeometryStore, devices: DeviceConfig, nets: Seq<u32>, k: int) -> Seq<PassiveV>
    decreases k,
{
    if k <= 0 {
        Seq::empty()
    } else {
        let rule = devices.resistor_rules@[k - 1];
        resistor_rules(store, devices, nets, k - 1)
            + resistor_bodies(store, devices.mos_rules@, rule, nets, layer_polys(store, rule.body_layer).len() as int)
    }
}

fn overlapped_from_exec(store: &GeometryStore, layer: u32, q: usize) -> (b: bool)
    requires
        store.wf(),
        q < store.poly_layer@.len(),
    ensures
        b == overlapped_from(*store, layer, q as int),
{
    let n = store.poly_layer.len();
    let mut p: usize = 0;
    while p < n
        invariant
            store.wf(),
            n == store.poly_layer@.len(),
            q < n,
            p <= n,
            forall|r: int| 0 <= r < p ==> !(store.poly_layer@[r] == layer && #[trigger] pair_overlap(*store, r, q as int)),
        decreases n - p,
    {
        if store.poly_layer[p] == layer && pair_overlap_exec(store, p, q) {
            return true;
        }
        p = p + 1;
    }
    false
}

fn on_a_gate_exec(store: &GeometryStore, mos: &Vec<MosRule>, q: usize) -> (b: bool)
    requires
        store.wf(),
        q < store.poly_layer@.len(),
    ensures
        b == on_a_gate(*store, mos@, q as int),
{
    let n = store.poly_layer.len();
    let mut i: usize = 0;
    while i < mos.len()
        invariant
            store.wf(),
            n == store.poly_layer@.len(),
            q < n,
            i <= mos@.len(),
            forall|a: int, g: int|
                0 <= a < i && 0 <= g < n && store.poly_layer@[g] == (#[trigger] mos@[a]).gate_layer
                    ==> !#[trigger] pair_overlap(*store, q as int, g),
        decreases mos@.len() - i,
    {
        let layer = mos[i].gate_layer;
        let mut g: usize = 0;
        while g < n
            invariant
                store.wf(),
                n == store.poly_layer@.len(),
                q < n,
                i < mos@.len(),
                layer == mos@[i as int].gate_layer,
                g <= n,
                forall|a: int, h: int|
                    0 <= a < i && 0 <= h < n && store.poly_layer@[h] == (#[trigger] mos@[a]).gate_layer
                        ==> !#[trigger] pair_overlap(*store, q as int, h),
                forall|h: int| 0 <= h < g && store.poly_layer@[h] == layer ==> !#[trigger] pair_overlap(*store, q as int, h),
            decreases n - g,
        {
            if store.poly_layer[g] == layer && pair_overlap_exec(store, q, g) {
                assert(store.poly_layer@[g as int] == mos@[i as int].gate_layer);
                return true;
            }
            g = g + 1;
        }
        i = i + 1;
    }
    false
}

fn half_toward_zero_exec(v: i64) -> (h: i64)
    requires
        -0x1_0000_0000 <= v <= 0x1_0000_0000,
    ensures
        h == half_toward_zero(v as int),
        -0x8000_0000 <= h <= 0x8000_0000,
{
    if v >= 0 {
        v / 2
    } else {
        -((-v) / 2)
    }
}

fn resistor_terminals(store: &GeometryStore, rule: &ResistorRule, nets: &Vec<u32>, body: usize, candidates: &Vec<usize>) -> (r: Vec<(u32, i64)>)
    requires
        store.wf(),
        nets@.len() == store.poly_layer@.len(),
        body < store.poly_layer@.len(),
        candidates@ == layer_polys(*store, rule.terminal_layer),
        forall|i: int| 0 <= i < candidates@.len() ==> (#[trigger] candidates@[i]) < store.poly_layer@.len(),
    ensures
        r@ == terminals(*store, *rule, nets@, body as int, candidates@.len() as int),
{
    let bb = store.poly_bbox[body];
    let is_wide = bb.xmax as i64 - bb.xmin as i64 >= bb.ymax as i64 - bb.ymin as i64;
    let mut r: Vec<(u32, i64)> = Vec::new();
    let mut k: usize = 0;
    while k < candidates.len()
        invariant
            store.wf(),
            nets@.len() == store.poly_layer@.len(),
            body < store.poly_layer@.len(),
            bb == store.poly_bbox@[body as int],
            is_wide == wide(bb),
            candidates@ == layer_polys(*store, rule.terminal_layer),
            forall|i: int| 0 <= i < candidates@.len() ==> (#[trigger] candidates@[i]) < store.poly_layer@.len(),
            k <= candidates@.len(),
            r@ == terminals(*store, *rule, nets@, body as int, k as int),
        decreases candidates@.len() - k,
    {
        let t = candidates[k];
        if pair_overlap_exec(store, t, body) && nets[t] != u32::MAX {
            let tb = store.poly_bbox[t];
            let pos = if is_wide {
                half_toward_zero_exec(tb.xmin as i64 + tb.xmax as i64)
            } else {
                half_toward_zero_exec(tb.ymin as i64 + tb.ymax as i64)
            };
            assert(pos == along(*store, body as int, t as int));
            r.push((nets[t], pos));
        }
        k = k + 1;
    }
    r
}

fn lowest_highest_exec(ts: &Vec<(u32, i64)>) -> (r: (usize, usize))
    requires
        ts@.len() >= 1,
    ensures
        r.0 == lowest(ts@, ts@.len() as int),
        r.1 == highest(ts@, ts@.len() as int),
        r.0 < ts@.len(),
        r.1 < ts@.len(),
{
    let mut lo: usize = 0;
    let mut hi: usize = 0;
    let mut i: usize = 1;
    while i < ts.len()
        invariant
            1 <= i <= ts@.len(),
            lo == lowest(ts@, i as int),
            hi == highest(ts@, i as int),
            lo < i,
            hi < i,
        decreases ts@.len() - i,
    {
        if ts[i].1 < ts[lo].1 {
            lo = i;
        }
        if ts[i].1 >= ts[hi].1 {
            hi = i;
        }
        i = i + 1;
    }
    (lo, hi)
}

fn append_resistor_bodies(store: &GeometryStore, mos: &Vec<MosRule>, rule: &ResistorRule, nets: &Vec<u32>, out: &mut Vec<PassiveDevice>)
    requires
        store.wf(),
        nets@.len() == store.poly_layer@.len(),
    ensures
        passives_view(final(out)@) == passives_view(old(out)@)
            + resistor_bodies(*store, mos@, *rule, nets@, layer_polys(*store, rule.body_layer).len() as int),
{
    let bodies = layer_polys_exec(store, rule.body_layer);
    let candidates = layer_polys_exec(store, rule.terminal_layer);
    let ghost start = passives_view(out@);
    assert(start + Seq::<PassiveV>::empty() =~= start);
    let mut k: usize = 0;
    while k < bodies.len()
        invariant
            store.wf(),
            nets@.len() == store.poly_layer@.len(),
            bodies@ == layer_polys(*store, rule.body_layer),
            candidates@ == layer_polys(*store, rule.terminal_layer),
            forall|i: int| 0 <= i < bodies@.len() ==> (#[trigger] bodies@[i]) < store.poly_layer@.len(),
            forall|i: int| 0 <= i < candidates@.len() ==> (#[trigger] candidates@[i]) < store.poly_layer@.len(),
            k <= bodies@.len(),
            passives_view(out@) == start + resistor_bodies(*store, mos@, *rule, nets@, k as int),
        decreases bodies@.len() - k,
    {
        let body = bodies[k];
        let ghost before = passives_view(out@);
        if overlapped_from_exec(store, rule.marker_layer, body) && !on_a_gate_exec(store, mos, body) {
            let ts = resistor_terminals(store, rule, nets, body, &candidates);
            if ts.len() >= 2 {
                let (lo, hi) = lowest_highest_exec(&ts);
                let bb = store.poly_bbox[body];
                let w: i64 = bb.xmax as i64 - bb.xmin as i64;
                let h: i64 = bb.ymax as i64 - bb.ymin as i64;
                let d = PassiveDevice {
                    kind: TwoTerminalKind::Resistor,
                    name: rule.name.clone(),
                    terminal_a: ts[lo].0,
                    terminal_b: ts[hi].0,
                    layer: rule.body_layer,
                    length: if w >= h { w } else { h },
                    width: if w >= h { h } else { w },
                    area: 0,
                };
                let ghost v0 = out@;
                out.push(d);
                proof {
                    lemma_passives_push(v0, d);
                }
            }
        }
        assert(passives_view(out@) =~= before + resistor_at(*store, mos@, *rule, nets@, body as int));
        assert(passives_view(out@) =~= start + resistor_bodies(*store, mos@, *rule, nets@, k as int + 1));
        k = k + 1;
    }
}

/// The diode of `rule` with anode `a` and cathode `c`: there is one when
/// they overlap, some implant polygon shares area with both, and both have
/// a net.
pub open spec fn diode_at(store: GeometryStore, rule: DiodeRule, nets: Seq<u32>, a: int, c: int) -> Seq<PassiveV> {
    if pair_overlap(store, a, c) && layer_overlaps(store, rule.implant_layer, a, c) && nets[a] != u32::MAX && nets[c] != u32::MAX {
        seq![PassiveV {
            kind: TwoTerminalKind::Diode,
            name: rule.name@,
            terminal_a: nets[a],
            terminal_b: nets[c],
            layer: 0,
            length: 0,
            width: 0,
            area: 0,
        }]
    } else {
        Seq::empty()
    }
}

/// Diodes of `rule` with anode `a`, over the first `k` cathode-layer polygons.
pub open spec fn diode_cathodes(store: GeometryStore, rule: DiodeRule, nets: Seq<u32>, a: int, k: int) -> Seq<PassiveV>
    decreases k,
{
    if k <= 0 {
        Seq::empty()
    } else {
        diode_cathodes(store, rule, nets, a, k - 1)
            + diode_at(store, rule, nets, a, layer_polys(store, rule.cathode_layer)[k - 1] as int)
    }
}

/// Diodes of `rule` over the first `k` anode-layer polygons.
pub open spec fn diode_anodes(store: GeometryStore, rule: DiodeRule, nets: Seq<u32>, k: int) -> Seq<PassiveV>
    decreases k,
{
    if k <= 0 {
        Seq::empty()
    } else {
        diode_anodes(store, rule, nets, k - 1) + diode_cathodes(
            store,
            rule,
            nets,
            layer_polys(store, rule.anode_layer)[k - 1] as int,
            layer_polys(store, rule.cathode_layer).len() as int,
        )
    }
}

/// Diodes of the first `k` diode rules.
pub open spec fn diode_rules(store: GeometryStore, devices: DeviceConfig, nets: Seq<u32>, k: int) -> Seq<PassiveV>
    decreases k,
{
    if k <= 0 {
        Seq::empty()
    } else {
        let rule = devices.diode_rules@[k - 1];
        diode_rules(store, devices, nets, k - 1) + diode_anodes(store, rule, nets, layer_polys(store, rule.anode_layer).len() as int)
    }
}

/// The capacitor of `rule` with top plate `t` and bottom plate `b`: there is
/// one when the plates overlap, the marker (if the rule has one) shares area
/// with both plates, and both plates have a net. Its area is the plates'
/// shared area.
pub open spec fn cap_at(store: GeometryStore, rule: CapRule, nets: Seq<u32>, t: int, b: int) -> Seq<PassiveV> {
    let marked = match rule.marker_layer {
        Some(m) => layer_overlaps(store, m, t, b),
        None => true,
    };
    if pair_overlap(store, t, b) && marked && nets[t] != u32::MAX && nets[b] != u32::MAX {
        seq![PassiveV {
            kind: TwoTerminalKind::Capacitor,
            name: rule.name@,
            terminal_a: nets[t],
            terminal_b: nets[b],
            layer: rule.top_layer,
            length: 0,
            width: 0,
            area: shared_area(seq![full(store, t), full(store, b)]) as i128,
        }]
    } else {
        Seq::empty()
    }
}

/// Capacitors of `rule` with top plate `t`, over the first `k` bottom-layer
/// polygons.
pub open spec fn cap_bottoms(store: GeometryStore, rule: CapRule, nets: Seq<u32>, t: int, k: int) -> Seq<PassiveV>
    decreases k,
{
    if k <= 0 {
        Seq::empty()
    } else {
        cap_bottoms(store, rule, nets, t, k - 1) + cap_at(store, rule, nets, t, layer_polys(store, rule.bottom_layer)[k - 1] as int)
    }
}

/// Capacitors of `rule` over the first `k` top-layer polygons.
pub open spec fn cap_tops(store: GeometryStore, rule: CapRule, nets: Seq<u32>, k: int) -> Seq<PassiveV>
    decreases k,
{
    if k <= 0 {
        Seq::empty()
    } else {
        cap_tops(store, rule, nets, k - 1) + cap_bottoms(
            store,
            rule,
            nets,
            layer_polys(store, rule.top_layer)[k - 1] as int,
            layer_polys(store, rule.bottom_layer).len() as int,
        )
    }
}

/// Capacitors of the first `k` capacitor rules.
pub open spec fn cap_rules(store: GeometryStore, devices: DeviceConfig, nets: Seq<u32>, k: int) -> Seq<PassiveV>
    decreases k,
{
    if k <= 0 {
        Seq::empty()
    } else {
        let rule = devices.cap_rules@[k - 1];
        cap_rules(store, devices, nets, k - 1) + cap_tops(store, rule, nets, layer_polys(store, rule.top_layer).len() as int)
    }
}

/// All passives: the resistors, then the diodes, then the capacitors, each
/// rule by rule.
pub open spec fn passives_of(store: GeometryStore, devices: DeviceConfig, nets: Seq<u32>) -> Seq<PassiveV> {
    resistor_rules(store, devices, nets, devices.resistor_rules@.len() as int)
        + diode_rules(store, devices, nets, devices.diode_rules@.len() as int)
        + cap_rules(store, devices, nets, devices.cap_rules@.len() as int)
}

fn append_diode_cathodes(
    store: &GeometryStore,
    rule: &DiodeRule,
    nets: &Vec<u32>,
    a: usize,
    cathodes: &Vec<usize>,
    out: &mut Vec<PassiveDevice>,
)
    requires
        store.wf(),
        nets@.len() == store.poly_layer@.len(),
        a < store.poly_layer@.len(),
        cathodes@ == layer_polys(*store, rule.cathode_layer),
        forall|i: int| 0 <= i < cathodes@.len() ==> (#[trigger] cathodes@[i]) < store.poly_layer@.len(),
    ensures
        passives_view(final(out)@) == passives_view(old(out)@) + diode_cathodes(*store, *rule, nets@, a as int, cathodes@.len() as int),
{
    let ghost start = passives_view(out@);
    assert(start + Seq::<PassiveV>::empty() =~= start);
    let mut k: usize = 0;
    while k < cathodes.len()
        invariant
            store.wf(),
            nets@.len() == store.poly_layer@.len(),
            a < store.poly_layer@.len(),
            cathodes@ == layer_polys(*store, rule.cathode_layer),
            forall|i: int| 0 <= i < cathodes@.len() ==> (#[trigger] cathodes@[i]) < store.poly_layer@.len(),
            k <= cathodes@.len(),
            passives_view(out@) == start + diode_cathodes(*store, *rule, nets@, a as int, k as int),
        decreases cathodes@.len() - k,
    {
        let c = cathodes[k];
        let ghost before = passives_view(out@);
        if pair_overlap_exec(store, a, c) && layer_overlaps_exec(store, rule.implant_layer, a, c) && nets[a] != u32::MAX
            && nets[c] != u32::MAX {
            let d = PassiveDevice {
                kind: TwoTerminalKind::Diode,
                name: rule.name.clone(),
                terminal_a: nets[a],
                terminal_b: nets[c],
                layer: 0,
                length: 0,
                width: 0,
                area: 0,
            };
            let ghost v0 = out@;
            out.push(d);
            proof {
                lemma_passives_push(v0, d);
            }
        }
        assert(passives_view(out@) =~= before + diode_at(*store, *rule, nets@, a as int, c as int));
        assert(passives_view(out@) =~= start + diode_cathodes(*store, *rule, nets@, a as int, k as int + 1));
        k = k + 1;
    }
}

fn append_diode_rule(store: &GeometryStore, rule: &DiodeRule, nets: &Vec<u32>, out: &mut Vec<PassiveDevice>)
    requires
        store.wf(),
        nets@.len() == store.poly_layer@.len(),
    ensures
        passives_view(final(out)@) == passives_view(old(out)@)
            + diode_anodes(*store, *rule, nets@, layer_polys(*store, rule.anode_layer).len() as int),
{
    let anodes = layer_polys_exec(store, rule.anode_layer);
    let cathodes = layer_polys_exec(store, rule.cathode_layer);
    let ghost start = passives_view(out@);
    assert(start + Seq::<PassiveV>::empty() =~= start);
    let mut k: usize = 0;
    while k < anodes.len()
        invariant
            store.wf(),
            nets@.len() == store.poly_layer@.len(),
            anodes@ == layer_polys(*store, rule.anode_layer),
            cathodes@ == layer_polys(*store, rule.cathode_layer),
            forall|i: int| 0 <= i < anodes@.len() ==> (#[trigger] anodes@[i]) < store.poly_layer@.len(),
            forall|i: int| 0 <= i < cathodes@.len() ==> (#[trigger] cathodes@[i]) < store.poly_layer@.len(),
            k <= anodes@.len(),
            passives_view(out@) == start + diode_anodes(*store, *rule, nets@, k as int),
        decreases anodes@.len() - k,
    {
        append_diode_cathodes(store, rule, nets, anodes[k], &cathodes, out);
        assert(passives_view(out@) =~= start + diode_anodes(*store, *rule, nets@, k as int + 1));
        k = k + 1;
    }
}

fn append_cap_bottoms(
    store: &GeometryStore,
    rule: &CapRule,
    nets: &Vec<u32>,
    t: usize,
    bottoms: &Vec<usize>,
    out: &mut Vec<PassiveDevice>,
)
    requires
        store.wf(),
        nets@.len() == store.poly_layer@.len(),
        t < store.poly_layer@.len(),
        bottoms@ == layer_polys(*store, rule.bottom_layer),
        forall|i: int| 0 <= i < bottoms@.len() ==> (#[trigger] bottoms@[i]) < store.poly_layer@.len(),
    ensures
        passives_view(final(out)@) == passives_view(old(out)@) + cap_bottoms(*store, *rule, nets@, t as int, bottoms@.len() as int),
{
    let ghost start = passives_view(out@);
    assert(start + Seq::<PassiveV>::empty() =~= start);
    let mut k: usize = 0;
    while k < bottoms.len()
        invariant
            store.wf(),
            nets@.len() == store.poly_layer@.len(),
            t < store.poly_layer@.len(),
            bottoms@ == layer_polys(*store, rule.bottom_layer),
            forall|i: int| 0 <= i < bottoms@.len() ==> (#[trigger] bottoms@[i]) < store.poly_layer@.len(),
            k <= bottoms@.len(),
            passives_view(out@) == start + cap_bottoms(*store, *rule, nets@, t as int, k as int),
        decreases bottoms@.len() - k,
    {
        let b = bottoms[k];
        let ghost before = passives_view(out@);
        if store.poly_bbox[t].overlaps(&store.poly_bbox[b]) {
            let pair = vec![region_of(store, t), region_of(store, b)];
            assert(regions_view(pair@) =~= seq![full(*store, t as int), full(*store, b as int)]);
            let area = rectilinear_intersection_area(&pair);
            if area > 0 {
                let marked = match rule.marker_layer {
                    Some(m) => layer_overlaps_exec(store, m, t, b),
                    None => true,
                };
                if marked && nets[t] != u32::MAX && nets[b] != u32::MAX {
                    let d = PassiveDevice {
                        kind: TwoTerminalKind::Capacitor,
                        name: rule.name.clone(),
                        terminal_a: nets[t],
                        terminal_b: nets[b],
                        layer: rule.top_layer,
                        length: 0,
                        width: 0,
                        area,
                    };
                    let ghost v0 = out@;
                    out.push(d);
                    proof {
                        lemma_passives_push(v0, d);
                    }
                }
            }
        }
        assert(passives_view(out@) =~= before + cap_at(*store, *rule, nets@, t as int, b as int));
        assert(passives_view(out@) =~= start + cap_bottoms(*store, *rule, nets@, t as int, k as int + 1));
        k = k + 1;
    }
}

fn append_cap_rule(store: &GeometryStore, rule: &CapRule, nets: &Vec<u32>, out: &mut Vec<PassiveDevice>)
    requires
        store.wf(),
        nets@.len() == store.poly_layer@.len(),
    ensures
        passives_view(final(out)@) == passives_view(old(out)@)
            + cap_tops(*store, *rule, nets@, layer_polys(*store, rule.top_layer).len() as int),
{
    let tops = layer_polys_exec(store, rule.top_layer);
    let bottoms = layer_polys_exec(store, rule.bottom_layer);
    let ghost start = passives_view(out@);
    assert(start + Seq::<PassiveV>::empty() =~= start);
    let mut k: usize = 0;
    while k < tops.len()
        invariant
            store.wf(),
            nets@.len() == store.poly_layer@.len(),
            tops@ == layer_polys(*store, rule.top_layer),
            bottoms@ == layer_polys(*store, rule.bottom_layer),
            forall|i: int| 0 <= i < tops@.len() ==> (#[trigger] tops@[i]) < store.poly_layer@.len(),
            forall|i: int| 0 <= i < bottoms@.len() ==> (#[trigger] bottoms@[i]) < store.poly_layer@.len(),
            k <= tops@.len(),
            passives_view(out@) == start + cap_tops(*store, *rule, nets@, k as int),
        decreases tops@.len() - k,
    {
        append_cap_bottoms(store, rule, nets, tops[k], &bottoms, out);
        assert(passives_view(out@) =~= start + cap_tops(*store, *rule, nets@, k as int + 1));
        k = k + 1;
    }
}

/// Recognizes the two-terminal devices: resistors, then diodes, then
/// capacitors (see `passives_of` for what each rule recognizes). Values are
/// left to the caller, which holds the layers' electrical parameters; each
/// device carries the geometry its value follows from.
pub fn extract_two_terminal_devices(store: &GeometryStore, devices: &DeviceConfig, net_of_poly: &Vec<u32>) -> (out: Vec<PassiveDevice>)
    requires
        store.wf(),
        net_of_poly@.len() == store.poly_layer@.len(),
    ensures
        passives_view(out@) == passives_of(*store, *devices, net_of_poly@),
{
    let mut out: Vec<PassiveDevice> = Vec::new();
    assert(passives_view(out@) =~= Seq::<PassiveV>::empty());
    let mut r: usize = 0;
    while r < devices.resistor_rules.len()
        invariant
            store.wf(),
            net_of_poly@.len() == store.poly_layer@.len(),
            r <= devices.resistor_rules@.len(),
            passives_view(out@) == resistor_rules(*store, *devices, net_of_poly@, r as int),
        decreases devices.resistor_rules@.len() - r,
    {
        append_resistor_bodies(store, &devices.mos_rules, &devices.resistor_rules[r], net_of_poly, &mut out);
        r = r + 1;
    }
    let ghost after_res = passives_view(out@);
    assert(after_res + Seq::<PassiveV>::empty() =~= after_res);
    let mut r: usize = 0;
    while r < devices.diode_rules.len()
        invariant
            store.wf(),
            net_of_poly@.len() == store.poly_layer@.len(),
            r <= devices.diode_rules@.len(),
            passives_view(out@) == after_res + diode_rules(*store, *devices, net_of_poly@, r as int),
        decreases devices.diode_rules@.len() - r,
    {
        append_diode_rule(store, &devices.diode_rules[r], net_of_poly, &mut out);
        assert(passives_view(out@) =~= after_res + diode_rules(*store, *devices, net_of_poly@, r as int + 1));
        r = r + 1;
    }
    let ghost after_diodes = passives_view(out@);
    assert(after_diodes + Seq::<PassiveV>::empty() =~= after_diodes);
    let mut r: usize = 0;
    while r < devices.cap_rules.len()
        invariant
            store.wf(),
            net_of_poly@.len() == store.poly_layer@.len(),
            r <= devices.cap_rules@.len(),
            passives_view(out@) == after_diodes + cap_rules(*store, *devices, net_of_poly@, r as int),
        decreases devices.cap_rules@.len() - r,
    {
        append_cap_rule(store, &devices.cap_rules[r], net_of_poly, &mut out);
        assert(passives_view(out@) =~= after_diodes + cap_rules(*store, *devices, net_of_poly@, r as int + 1));
        r = r + 1;
    }
    out
}

/// Resolves the layers that carry nets and the via layers between them; a
/// deck without conductor layers cannot be extracted.
pub fn resolve_connectivity(connectivity: &ConnectivityConfig) -> (r: Result<(Vec<u32>, Vec<u32>), String>)
    ensures
        connectivity.conductors@.len() == 0 ==> (r matches Err(m) && m@ == "no conductors configured in connectivity schema"@),
        connectivity.conductors@.len() > 0 ==> (r matches Ok((c, v)) && c@ == connectivity.conductors@
            && v@ == connectivity.vias@.map_values(|e: (u32, Vec<u32>)| e.0)),
{
    if connectivity.conductors.len() == 0 {
        return Err(String::from_str("no conductors configured in connectivity schema"));
    }
    let mut vias: Vec<u32> = Vec::new();
    let mut i: usize = 0;
    while i < connectivity.vias.len()
        invariant
            i <= connectivity.vias@.len(),
            vias@ == connectivity.vias@.take(i as int).map_values(|e: (u32, Vec<u32>)| e.0),
        decreases connectivity.vias@.len() - i,
    {
        vias.push(connectivity.vias[i].0);
        assert(connectivity.vias@.take(i as int + 1).map_values(|e: (u32, Vec<u32>)| e.0)
            =~= connectivity.vias@.take(i as int).map_values(|e: (u32, Vec<u32>)| e.0).push(connectivity.vias@[i as int].0));
        i = i + 1;
    }
    assert(connectivity.vias@.take(i as int) =~= connectivity.vias@);
    let mut conductors: Vec<u32> = Vec::new();
    let mut j: usize = 0;
    while j < connectivity.conductors.len()
        invariant
            j <= connectivity.conductors@.len(),
            conductors@ == connectivity.conductors@.take(j as int),
        decreases connectivity.conductors@.len() - j,
    {
        conductors.push(connectivity.conductors[j]);
        assert(conductors@ =~= connectivity.conductors@.take(j as int + 1));
        j = j + 1;
    }
    assert(connectivity.conductors@.take(j as int) =~= connectivity.conductors@);
    Ok((conductors, vias))
}

} // verus!
