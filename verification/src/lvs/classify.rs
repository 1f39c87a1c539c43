//! Classifying a gate crossing by the deck's MOS rules: the rule whose gate
//! and channel layers match and whose type implant overlaps both polygons,
//! with the flavor its markers give.
use vstd::prelude::*;
use crate::geometry::GeometryStore;
use crate::io::params::MosRule;
use crate::lvs::rectilinear::{copy_ring, rectilinear_intersection_area, regions_view, shared_area, PolyRegion, RegionV};
use crate::lvs::types::{DeviceFlavor, DeviceKind};
use crate::text::{decimal, push_decimal};

verus! {

/// The rule that classified a device.
#[derive(Clone, Copy, Debug, PartialEq, Eq, Structural)]
pub struct MosMatch {
    pub kind: DeviceKind,
    pub flavor: DeviceFlavor,
    pub rule_idx: usize,
}

/// Polygon `p` as a region clipped to its own box.
pub open spec fn full(store: GeometryStore, p: int) -> RegionV {
    RegionV { ring: store.ring(p), clip: store.poly_bbox@[p] }
}

/// Polygon `p` shares positive area with both gate polygon `g` and channel polygon `c`.
pub open spec fn overlaps3(store: GeometryStore, p: int, g: int, c: int) -> bool {
    shared_area(seq![full(store, p), full(store, g), full(store, c)]) > 0
}

/// Some polygon on `layer` shares positive area with gate polygon `g` and channel polygon `c`.
pub open spec fn layer_overlaps(store: GeometryStore, layer: u32, g: int, c: int) -> bool {
    exists|p: int| 0 <= p < store.poly_layer@.len() && store.poly_layer@[p] == layer && #[trigger] overlaps3(store, p, g, c)
}

pub open spec fn kind_named(t: Seq<char>) -> Option<DeviceKind> {
    if t == "pmos"@ {
        Some(DeviceKind::Pmos)
    } else if t == "nmos"@ {
        Some(DeviceKind::Nmos)
    } else {
        None
    }
}

pub open spec fn flavor_named(t: Seq<char>) -> Option<DeviceFlavor> {
    if t == "hvt"@ || t == "Hvt"@ || t == "HVT"@ {
        Some(DeviceFlavor::Hvt)
    } else if t == "lvt"@ || t == "Lvt"@ || t == "LVT"@ {
        Some(DeviceFlavor::Lvt)
    } else {
        None
    }
}

/// Scanning markers `j..`: the first overlapping marker with an unknown
/// flavor name, or whether high- and low-threshold markers overlap.
pub open spec fn marker_scan(store: GeometryStore, markers: Seq<(u32, String)>, g: int, c: int, j: int) -> Result<(bool, bool), Seq<char>>
    decreases markers.len() - j,
{
    if j < 0 || j >= markers.len() {
        Ok((false, false))
    } else if layer_overlaps(store, markers[j].0, g, c) {
        match flavor_named(markers[j].1@) {
            None => Err(markers[j].1@),
            Some(f) => match marker_scan(store, markers, g, c, j + 1) {
                Err(e) => Err(e),
                Ok((h, l)) => Ok((h || f == DeviceFlavor::Hvt, l || f == DeviceFlavor::Lvt)),
            },
        }
    } else {
        marker_scan(store, markers, g, c, j + 1)
    }
}

pub open spec fn polygon_pair_text(g: int, c: int) -> Seq<char> {
    "gate polygon "@ + decimal(g as nat) + " crossing channel polygon "@ + decimal(c as nat)
}

pub open spec fn device_type_text(name: Seq<char>, t: Seq<char>) -> Seq<char> {
    "MOS rule '"@ + name + "' has unsupported device type '"@ + t + "' during extraction"@
}

pub open spec fn flavor_text(name: Seq<char>, f: Seq<char>) -> Seq<char> {
    "MOS rule '"@ + name + "' has unsupported flavor '"@ + f + "' during extraction"@
}

/// What one rule says of the crossing: nothing (`Ok(None)`), a device, or
/// an error.
pub open spec fn rule_outcome(store: GeometryStore, rule: MosRule, g: int, c: int) -> Result<Option<(DeviceKind, DeviceFlavor)>, Seq<char>> {
    if rule.gate_layer != store.poly_layer@[g] || rule.channel_layer != store.poly_layer@[c]
        || !layer_overlaps(store, rule.type_implant, g, c) {
        Ok(None)
    } else {
        match kind_named(rule.device_type@) {
            None => Err(device_type_text(rule.name@, rule.device_type@)),
            Some(k) => match marker_scan(store, rule.flavor_markers@, g, c, 0) {
                Err(bad) => Err(flavor_text(rule.name@, bad)),
                Ok((h, l)) => if h && l {
                    Err(polygon_pair_text(g, c) + " matches multiple flavor markers for MOS rule '"@ + rule.name@ + "'"@)
                } else {
                    Ok(Some((k, if h { DeviceFlavor::Hvt } else if l { DeviceFlavor::Lvt } else { DeviceFlavor::Standard })))
                },
            },
        }
    }
}

/// Rules `i..` in order: the first error, or the matches with their rule
/// indices.
pub open spec fn scan_rules(store: GeometryStore, rules: Seq<MosRule>, g: int, c: int, i: int)
    -> Result<Seq<(DeviceKind, DeviceFlavor, int)>, Seq<char>>
    decreases rules.len() - i,
{
    if i < 0 || i >= rules.len() {
        Ok(Seq::empty())
    } else {
        match rule_outcome(store, rules[i], g, c) {
            Err(m) => Err(m),
            Ok(None) => scan_rules(store, rules, g, c, i + 1),
            Ok(Some((k, f))) => match scan_rules(store, rules, g, c, i + 1) {
                Err(m) => Err(m),
                Ok(ms) => Ok(seq![(k, f, i)] + ms),
            },
        }
    }
}

/// Every rule index the scan from rule `i` reports is a rule at or after `i`.
pub proof fn lemma_scan_rules_range(store: GeometryStore, rules: Seq<MosRule>, g: int, c: int, i: int)
    requires
        0 <= i,
    ensures
        scan_rules(store, rules, g, c, i) matches Ok(ms) ==> forall|k: int| 0 <= k < ms.len() ==> i <= (#[trigger] ms[k]).2 < rules.len(),
    decreases rules.len() - i,
{
    if i < rules.len() {
        lemma_scan_rules_range(store, rules, g, c, i + 1);
        if let Ok(ms) = scan_rules(store, rules, g, c, i) {
            if let Ok(Some((k, f))) = rule_outcome(store, rules[i], g, c) {
                if let Ok(rest) = scan_rules(store, rules, g, c, i + 1) {
                    assert(ms == seq![(k, f, i)] + rest);
                    assert forall|q: int| 0 <= q < ms.len() implies i <= (#[trigger] ms[q]).2 < rules.len() by {
                        if q > 0 {
                            assert(ms[q] == rest[q - 1]);
                        }
                    }
                }
            }
        }
    }
}

/// The names of the matched rules, as a bracketed list of quoted names.
pub open spec fn quoted_names(rules: Seq<MosRule>, ms: Seq<(DeviceKind, DeviceFlavor, int)>) -> Seq<char>
    decreases ms.len(),
{
    if ms.len() == 0 {
        Seq::empty()
    } else {
        let prev = quoted_names(rules, ms.drop_last());
        (if ms.len() > 1 { prev + ", "@ } else { prev }) + "\""@ + rules[ms.last().2].name@ + "\""@
    }
}

/// The classification of gate polygon `g` crossing channel polygon `c`.
pub open spec fn pick_spec(store: GeometryStore, rules: Seq<MosRule>, g: int, c: int) -> Result<(DeviceKind, DeviceFlavor, int), Seq<char>> {
    if rules.len() == 0 {
        Err("found gate crossing but no MOS rules to classify device"@)
    } else {
        match scan_rules(store, rules, g, c, 0) {
            Err(m) => Err(m),
            Ok(ms) => if ms.len() == 0 {
                Err(polygon_pair_text(g, c) + " has no matching MOS type implant"@)
            } else if ms.len() == 1 {
                Ok(ms[0])
            } else {
                Err(polygon_pair_text(g, c) + " ambiguously matches MOS rules "@ + "["@ + quoted_names(rules, ms) + "]"@)
            },
        }
    }
}

pub(crate) fn region_of(store: &GeometryStore, p: usize) -> (r: PolyRegion)
    requires
        store.wf(),
        p < store.poly_layer@.len(),
    ensures
        r.view() == full(*store, p as int),
{
    PolyRegion { ring: copy_ring(&store.poly_ring[p]), clip: store.poly_bbox[p] }
}

pub(crate) fn overlaps3_exec(store: &GeometryStore, p: usize, g: usize, c: usize) -> (b: bool)
    requires
        store.wf(),
        p < store.poly_layer@.len(),
        g < store.poly_layer@.len(),
        c < store.poly_layer@.len(),
    ensures
        b == overlaps3(*store, p as int, g as int, c as int),
{
    let regions = vec![region_of(store, p), region_of(store, g), region_of(store, c)];
    assert(regions_view(regions@) =~= seq![full(*store, p as int), full(*store, g as int), full(*store, c as int)]);
    rectilinear_intersection_area(&regions) > 0
}

pub(crate) fn layer_overlaps_exec(store: &GeometryStore, layer: u32, g: usize, c: usize) -> (b: bool)
    requires
        store.wf(),
        g < store.poly_layer@.len(),
        c < store.poly_layer@.len(),
    ensures
        b == layer_overlaps(*store, layer, g as int, c as int),
{
    let n = store.poly_layer.len();
    let mut p: usize = 0;
    while p < n
        invariant
            store.wf(),
            n == store.poly_layer@.len(),
            g < n,
            c < n,
            p <= n,
            forall|q: int| 0 <= q < p ==> !(store.poly_layer@[q] == layer && #[trigger] overlaps3(*store, q, g as int, c as int)),
        decreases n - p,
    {
        if store.poly_layer[p] == layer && overlaps3_exec(store, p, g, c) {
            return true;
        }
        p = p + 1;
    }
    false
}

pub(crate) fn name_is(s: &String, lit: &str) -> (b: bool)
    ensures
        b == (s@ == lit@),
{
    let t = String::from_str(lit);
    *s == t
}

fn kind_of(t: &String) -> (k: Option<DeviceKind>)
    ensures
        k == kind_named(t@),
{
    if name_is(t, "pmos") {
        Some(DeviceKind::Pmos)
    } else if name_is(t, "nmos") {
        Some(DeviceKind::Nmos)
    } else {
        None
    }
}

fn flavor_of(t: &String) -> (f: Option<DeviceFlavor>)
    ensures
        f == flavor_named(t@),
{
    if name_is(t, "hvt") || name_is(t, "Hvt") || name_is(t, "HVT") {
        Some(DeviceFlavor::Hvt)
    } else if name_is(t, "lvt") || name_is(t, "Lvt") || name_is(t, "LVT") {
        Some(DeviceFlavor::Lvt)
    } else {
        None
    }
}

pub open spec fn or_flags(h: bool, l: bool, r: Result<(bool, bool), Seq<char>>) -> Result<(bool, bool), Seq<char>> {
    match r {
        Err(e) => Err(e),
        Ok((h2, l2)) => Ok((h || h2, l || l2)),
    }
}

fn scan_markers(store: &GeometryStore, markers: &Vec<(u32, String)>, g: usize, c: usize) -> (r: Result<(bool, bool), String>)
    requires
        store.wf(),
        g < store.poly_layer@.len(),
        c < store.poly_layer@.len(),
    ensures
        match marker_scan(*store, markers@, g as int, c as int, 0) {
            Ok(v) => r matches Ok(w) && w == v,
            Err(e) => r matches Err(t) && t@ == e,
        },
{
    let mut saw_hvt = false;
    let mut saw_lvt = false;
    let mut j: usize = 0;
    while j < markers.len()
        invariant
            store.wf(),
            g < store.poly_layer@.len(),
            c < store.poly_layer@.len(),
            j <= markers@.len(),
            marker_scan(*store, markers@, g as int, c as int, 0)
                == or_flags(saw_hvt, saw_lvt, marker_scan(*store, markers@, g as int, c as int, j as int)),
        decreases markers@.len() - j,
    {
        let (layer, ref name) = markers[j];
        if layer_overlaps_exec(store, layer, g, c) {
            match flavor_of(name) {
                None => {
                    return Err(name.clone());
                },
                Some(f) => {
                    if f == DeviceFlavor::Hvt {
                        saw_hvt = true;
                    }
                    if f == DeviceFlavor::Lvt {
                        saw_lvt = true;
                    }
                },
            }
        }
        j = j + 1;
    }
    Ok((saw_hvt, saw_lvt))
}

fn rule_outcome_exec(store: &GeometryStore, rule: &MosRule, g: usize, c: usize) -> (r: Result<Option<(DeviceKind, DeviceFlavor)>, String>)
    requires
        store.wf(),
        g < store.poly_layer@.len(),
        c < store.poly_layer@.len(),
    ensures
        match rule_outcome(*store, *rule, g as int, c as int) {
            Ok(o) => r matches Ok(x) && x == o,
            Err(m) => r matches Err(t) && t@ == m,
        },
{
    if rule.gate_layer != store.poly_layer[g] || rule.channel_layer != store.poly_layer[c]
        || !layer_overlaps_exec(store, rule.type_implant, g, c) {
        return Ok(None);
    }
    let kind = match kind_of(&rule.device_type) {
        Some(k) => k,
        None => {
            let mut m = String::from_str("MOS rule '");
            m.append(rule.name.as_str());
            m.append("' has unsupported device type '");
            m.append(rule.device_type.as_str());
            m.append("' during extraction");
            return Err(m);
        },
    };
    match scan_markers(store, &rule.flavor_markers, g, c) {
        Err(bad) => {
            let mut m = String::from_str("MOS rule '");
            m.append(rule.name.as_str());
            m.append("' has unsupported flavor '");
            m.append(bad.as_str());
            m.append("' during extraction");
            Err(m)
        },
        Ok((h, l)) => {
            if h && l {
                let mut m = polygon_pair_message(g, c);
                m.append(" matches multiple flavor markers for MOS rule '");
                m.append(rule.name.as_str());
                m.append("'");
                Err(m)
            } else {
                let flavor = if h { DeviceFlavor::Hvt } else if l { DeviceFlavor::Lvt } else { DeviceFlavor::Standard };
                Ok(Some((kind, flavor)))
            }
        },
    }
}

fn polygon_pair_message(g: usize, c: usize) -> (m: String)
    ensures
        m@ == polygon_pair_text(g as int, c as int),
{
    let mut m = String::from_str("gate polygon ");
    push_decimal(&mut m, g as u64);
    m.append(" crossing channel polygon ");
    push_decimal(&mut m, c as u64);
    m
}

pub open spec fn with_prefix(ms: Seq<(DeviceKind, DeviceFlavor, int)>, r: Result<Seq<(DeviceKind, DeviceFlavor, int)>, Seq<char>>)
    -> Result<Seq<(DeviceKind, DeviceFlavor, int)>, Seq<char>> {
    match r {
        Err(m) => Err(m),
        Ok(rest) => Ok(ms + rest),
    }
}

pub open spec fn matches_view(v: Seq<MosMatch>) -> Seq<(DeviceKind, DeviceFlavor, int)> {
    v.map_values(|m: MosMatch| (m.kind, m.flavor, m.rule_idx as int))
}

/// Classifies the MOS device at the crossing of polygon `gate` over polygon
/// `channel`: exactly one rule must apply, its device type must be `nmos`
/// or `pmos`, and its overlapping flavor markers must name one flavor.
pub fn pick_type_and_flavor(store: &GeometryStore, rules: &Vec<MosRule>, gate: usize, channel: usize) -> (r: Result<MosMatch, String>)
    requires
        store.wf(),
        gate < store.poly_layer@.len(),
        channel < store.poly_layer@.len(),
    ensures
        match pick_spec(*store, rules@, gate as int, channel as int) {
            Ok((k, f, i)) => r matches Ok(m) && m.kind == k && m.flavor == f && m.rule_idx == i,
            Err(msg) => r matches Err(e) && e@ == msg,
        },
{
    if rules.len() == 0 {
        return Err(String::from_str("found gate crossing but no MOS rules to classify device"));
    }
    let mut found: Vec<MosMatch> = Vec::new();
    let mut i: usize = 0;
    assert(matches_view(found@) =~= Seq::<(DeviceKind, DeviceFlavor, int)>::empty());
    assert(with_prefix(Seq::empty(), scan_rules(*store, rules@, gate as int, channel as int, 0))
        =~= scan_rules(*store, rules@, gate as int, channel as int, 0));
    while i < rules.len()
        invariant
            store.wf(),
            gate < store.poly_layer@.len(),
            channel < store.poly_layer@.len(),
            i <= rules@.len(),
            scan_rules(*store, rules@, gate as int, channel as int, 0)
                == with_prefix(matches_view(found@), scan_rules(*store, rules@, gate as int, channel as int, i as int)),
            forall|k: int| 0 <= k < found@.len() ==> (#[trigger] found@[k]).rule_idx < i,
        decreases rules@.len() - i,
    {
        match rule_outcome_exec(store, &rules[i], gate, channel) {
            Err(m) => {
                return Err(m);
            },
            Ok(None) => {},
            Ok(Some((kind, flavor))) => {
                let ghost f0 = found@;
                found.push(MosMatch { kind, flavor, rule_idx: i });
                assert(matches_view(found@) =~= matches_view(f0) + seq![(kind, flavor, i as int)]);
                proof {
                    match scan_rules(*store, rules@, gate as int, channel as int, i as int + 1) {
                        Err(m) => {},
                        Ok(rest) => {
                            assert(matches_view(f0) + (seq![(kind, flavor, i as int)] + rest)
                                =~= matches_view(found@) + rest);
                        },
                    }
                }
            },
        }
        i = i + 1;
    }
    assert(with_prefix(matches_view(found@), Ok(Seq::empty())) == Ok::<Seq<(DeviceKind, DeviceFlavor, int)>, Seq<char>>(matches_view(found@)))
        by {
        assert(matches_view(found@) + Seq::empty() =~= matches_view(found@));
    }
    let nf = found.len();
    if nf == 0 {
        let mut m = polygon_pair_message(gate, channel);
        m.append(" has no matching MOS type implant");
        return Err(m);
    }
    if nf == 1 {
        let only = found.pop().unwrap();
        return Ok(only);
    }
    let mut m = polygon_pair_message(gate, channel);
    m.append(" ambiguously matches MOS rules ");
    m.append("[");
    let ghost head = m@;
    let mut k: usize = 0;
    while k < nf
        invariant
            nf == found@.len(),
            k <= nf,
            forall|q: int| 0 <= q < found@.len() ==> (#[trigger] found@[q]).rule_idx < rules@.len(),
            m@ == head + quoted_names(rules@, matches_view(found@).take(k as int)),
        decreases nf - k,
    {
        let idx = found[k].rule_idx;
        assert(matches_view(found@).take(k as int + 1).drop_last() =~= matches_view(found@).take(k as int));
        if k > 0 {
            m.append(", ");
        }
        m.append("\"");
        m.append(rules[idx].name.as_str());
        m.append("\"");
        k = k + 1;
    }
    assert(matches_view(found@).take(k as int) =~= matches_view(found@));
    m.append("]");
    Err(m)
}

} // verus!
