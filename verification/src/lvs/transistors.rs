//! Recognizing the MOS transistors of a split channel: each gate span with a
//! source segment before it and a drain segment after it is a device, typed
//! by the deck's MOS rules, with its width, length and body.
use vstd::prelude::*;
use crate::geometry::GeometryStore;
use crate::io::params::MosRule;
use crate::lvs::channel::{DiffSplit, GateSpan};
use crate::lvs::classify::{lemma_scan_rules_range, overlaps3, overlaps3_exec, pick_spec, pick_type_and_flavor};
use crate::lvs::detailed_extract::class_view;
use crate::lvs::recognize::{layer_polys, layer_polys_exec};
use crate::lvs::types::{Device, DeviceFlavor, DeviceKind, DeviceRecognitionSource};

verus! {

/// A recognized transistor and where it came from, as the contracts see it.
pub struct MosV {
    pub kind: DeviceKind,
    pub gate: u32,
    pub source: u32,
    pub drain: u32,
    pub body: u32,
    pub flavor: DeviceFlavor,
    pub w: i32,
    pub l: i32,
    pub class: Option<Seq<char>>,
    pub gate_polygon: u32,
    pub channel_polygon: u32,
    pub well_polygon: Option<u32>,
    pub rule_id: Seq<char>,
}

pub open spec fn mos_view(d: Device, s: DeviceRecognitionSource) -> MosV {
    MosV {
        kind: d.kind,
        gate: d.gate,
        source: d.source,
        drain: d.drain,
        body: d.body,
        flavor: d.flavor,
        w: d.w,
        l: d.l,
        class: class_view(d.device_class),
        gate_polygon: s.gate_polygon,
        channel_polygon: s.channel_polygon,
        well_polygon: s.well_polygon,
        rule_id: s.rule_id@,
    }
}

pub open spec fn mos_views(ds: Seq<Device>, ss: Seq<DeviceRecognitionSource>) -> Seq<MosV> {
    Seq::new(ds.len(), |i: int| mos_view(ds[i], ss[i]))
}

/// The last of the first `k` segments that ends no later than `lo`.
pub open spec fn last_before(segs: Seq<(i32, i32)>, lo: i32, k: int) -> Option<int>
    decreases k,
{
    if k <= 0 {
        None
    } else if segs[k - 1].1 <= lo {
        Some(k - 1)
    } else {
        last_before(segs, lo, k - 1)
    }
}

/// The first of the first `k` segments that starts no earlier than `hi`.
pub open spec fn first_after(segs: Seq<(i32, i32)>, hi: i32, k: int) -> Option<int>
    decreases k,
{
    if k <= 0 {
        None
    } else {
        match first_after(segs, hi, k - 1) {
            Some(j) => Some(j),
            None => if segs[k - 1].0 >= hi {
                Some(k - 1)
            } else {
                None
            },
        }
    }
}

/// The first polygon on `layer` that shares area with both gate `g` and
/// channel `d`, among the first `k` of that layer.
pub open spec fn first_well(store: GeometryStore, layer: u32, g: int, d: int, k: int) -> Option<int>
    decreases k,
{
    if k <= 0 {
        None
    } else {
        match first_well(store, layer, g, d, k - 1) {
            Some(w) => Some(w),
            None => {
                let w = layer_polys(store, layer)[k - 1] as int;
                if overlaps3(store, w, g, d) {
                    Some(w)
                } else {
                    None
                }
            },
        }
    }
}

pub open spec fn min_int(a: int, b: int) -> int {
    if a <= b { a } else { b }
}

pub open spec fn max_int(a: int, b: int) -> int {
    if a >= b { a } else { b }
}

/// The width of the transistor under gate `g`: the overlap of gate and
/// channel boxes across the channel's axis.
pub open spec fn width_across(store: GeometryStore, g: int, d: int, axis_x: bool) -> int {
    let gb = store.poly_bbox@[g];
    let db = store.poly_bbox@[d];
    if axis_x {
        min_int(db.ymax as int, gb.ymax as int) - max_int(db.ymin as int, gb.ymin as int)
    } else {
        min_int(db.xmax as int, gb.xmax as int) - max_int(db.xmin as int, gb.xmin as int)
    }
}

/// What gate span `gs` of channel `d` gives: nothing when its gate has no
/// net or it lacks a segment on either side; otherwise the transistor the
/// MOS rules classify (or their error), from the nearest segment before it
/// (source) to the nearest after it (drain), with the net of the first
/// overlapping well polygon as body when the rule names a well layer.
pub open spec fn gate_outcome(
    store: GeometryStore,
    rules: Seq<MosRule>,
    d: int,
    axis_x: bool,
    segs: Seq<(i32, i32)>,
    seg_nets: Seq<u32>,
    nets: Seq<u32>,
    gs: GateSpan,
) -> Result<Option<MosV>, Seq<char>> {
    let g = gs.gate as int;
    if nets[g] == u32::MAX {
        Ok(None)
    } else {
        match (last_before(segs, gs.lo, segs.len() as int), first_after(segs, gs.hi, segs.len() as int)) {
            (Some(s), Some(t)) => match pick_spec(store, rules, g, d) {
                Err(m) => Err(m),
                Ok((kind, flavor, ri)) => {
                    let rule = rules[ri];
                    let well = match rule.well_layer {
                        Some(wl) => first_well(store, wl, g, d, layer_polys(store, wl).len() as int),
                        None => None,
                    };
                    Ok(Some(MosV {
                        kind,
                        gate: nets[g],
                        source: seg_nets[s],
                        drain: seg_nets[t],
                        body: match well {
                            Some(wp) => nets[wp],
                            None => u32::MAX,
                        },
                        flavor,
                        w: width_across(store, g, d, axis_x) as i32,
                        l: (gs.hi - gs.lo) as i32,
                        class: class_view(rule.device_class),
                        gate_polygon: g as u32,
                        channel_polygon: d as u32,
                        well_polygon: match well {
                            Some(wp) => Some(wp as u32),
                            None => None,
                        },
                        rule_id: rule.name@,
                    }))
                },
            },
            _ => Ok(None),
        }
    }
}

/// The transistors of the first `k` gate spans, or the first error.
pub open spec fn split_devices(
    store: GeometryStore,
    rules: Seq<MosRule>,
    d: int,
    axis_x: bool,
    gates: Seq<GateSpan>,
    segs: Seq<(i32, i32)>,
    seg_nets: Seq<u32>,
    nets: Seq<u32>,
    k: int,
) -> Result<Seq<MosV>, Seq<char>>
    decreases k,
{
    if k <= 0 {
        Ok(Seq::empty())
    } else {
        match split_devices(store, rules, d, axis_x, gates, segs, seg_nets, nets, k - 1) {
            Err(m) => Err(m),
            Ok(v) => match gate_outcome(store, rules, d, axis_x, segs, seg_nets, nets, gates[k - 1]) {
                Err(m) => Err(m),
                Ok(None) => Ok(v),
                Ok(Some(x)) => Ok(v.push(x)),
            },
        }
    }
}

/// A split channel that `store` can hold: its polygon and gates are
/// polygons of the store with well-formed boxes, its extent fits `i32`
/// along both axes, and each gate's box overlaps it, that gate's span
/// lying within it.
pub open spec fn split_fits(store: GeometryStore, split: DiffSplit) -> bool {
    let db = store.poly_bbox@[split.diff as int];
    &&& split.diff < store.poly_layer@.len()
    &&& db.wf()
    &&& db.xmax - db.xmin <= i32::MAX
    &&& db.ymax - db.ymin <= i32::MAX
    &&& forall|j: int| 0 <= j < split.gates@.len() ==> {
        let gs = #[trigger] split.gates@[j];
        &&& gs.gate < store.poly_layer@.len()
        &&& store.poly_bbox@[gs.gate as int].wf()
        &&& store.poly_bbox@[gs.gate as int].overlaps_spec(db)
        &&& (if split.axis_x { db.xmin <= gs.lo <= gs.hi <= db.xmax } else { db.ymin <= gs.lo <= gs.hi <= db.ymax })
    }
}

fn last_before_exec(segs: &Vec<(i32, i32)>, lo: i32) -> (r: Option<usize>)
    ensures
        match r {
            Some(s) => last_before(segs@, lo, segs@.len() as int) == Some(s as int),
            None => last_before(segs@, lo, segs@.len() as int) is None,
        },
        r matches Some(s) ==> s < segs@.len(),
{
    let mut k = segs.len();
    while k > 0
        invariant
            k <= segs@.len(),
            last_before(segs@, lo, segs@.len() as int) == last_before(segs@, lo, k as int),
        decreases k,
    {
        if segs[k - 1].1 <= lo {
            return Some(k - 1);
        }
        k = k - 1;
    }
    None
}

fn first_after_exec(segs: &Vec<(i32, i32)>, hi: i32) -> (r: Option<usize>)
    ensures
        match r {
            Some(t) => first_after(segs@, hi, segs@.len() as int) == Some(t as int),
            None => first_after(segs@, hi, segs@.len() as int) is None,
        },
        r matches Some(t) ==> t < segs@.len(),
{
    let mut k: usize = 0;
    while k < segs.len()
        invariant
            k <= segs@.len(),
            first_after(segs@, hi, k as int) is None,
        decreases segs@.len() - k,
    {
        if segs[k].0 >= hi {
            proof {
                lemma_first_after_stays(segs@, hi, k as int + 1, segs@.len() as int);
            }
            return Some(k);
        }
        k = k + 1;
    }
    None
}

proof fn lemma_first_after_stays(segs: Seq<(i32, i32)>, hi: i32, k: int, n: int)
    requires
        0 < k <= n,
        first_after(segs, hi, k) is Some,
    ensures
        first_after(segs, hi, n) == first_after(segs, hi, k),
    decreases n - k,
{
    if n > k {
        lemma_first_after_stays(segs, hi, k, n - 1);
    }
}

proof fn lemma_first_well_stays(store: GeometryStore, layer: u32, g: int, d: int, k: int, n: int)
    requires
        0 < k <= n,
        first_well(store, layer, g, d, k) is Some,
    ensures
        first_well(store, layer, g, d, n) == first_well(store, layer, g, d, k),
    decreases n - k,
{
    if n > k {
        lemma_first_well_stays(store, layer, g, d, k, n - 1);
    }
}

fn first_well_exec(store: &GeometryStore, layer: u32, g: usize, d: usize) -> (r: Option<usize>)
    requires
        store.wf(),
        g < store.poly_layer@.len(),
        d < store.poly_layer@.len(),
    ensures
        match r {
            Some(w) => first_well(*store, layer, g as int, d as int, layer_polys(*store, layer).len() as int) == Some(w as int),
            None => first_well(*store, layer, g as int, d as int, layer_polys(*store, layer).len() as int) is None,
        },
        r matches Some(w) ==> w < store.poly_layer@.len(),
{
    let wells = layer_polys_exec(store, layer);
    let mut k: usize = 0;
    while k < wells.len()
        invariant
            store.wf(),
            g < store.poly_layer@.len(),
            d < store.poly_layer@.len(),
            wells@ == layer_polys(*store, layer),
            forall|i: int| 0 <= i < wells@.len() ==> (#[trigger] wells@[i]) < store.poly_layer@.len(),
            k <= wells@.len(),
            first_well(*store, layer, g as int, d as int, k as int) is None,
        decreases wells@.len() - k,
    {
        if overlaps3_exec(store, wells[k], g, d) {
            proof {
                lemma_first_well_stays(*store, layer, g as int, d as int, k as int + 1, wells@.len() as int);
            }
            return Some(wells[k]);
        }
        k = k + 1;
    }
    None
}

fn gate_device(
    store: &GeometryStore,
    rules: &Vec<MosRule>,
    split: &DiffSplit,
    seg_nets: &Vec<u32>,
    nets: &Vec<u32>,
    gs: GateSpan,
) -> (r: Result<Option<(Device, DeviceRecognitionSource)>, String>)
    requires
        store.wf(),
        store.poly_layer@.len() <= u32::MAX,
        split_fits(*store, *split),
        gs.gate < store.poly_layer@.len(),
        store.poly_bbox@[gs.gate as int].wf(),
        store.poly_bbox@[gs.gate as int].overlaps_spec(store.poly_bbox@[split.diff as int]),
        split.axis_x ==> store.poly_bbox@[split.diff as int].xmin <= gs.lo <= gs.hi <= store.poly_bbox@[split.diff as int].xmax,
        !split.axis_x ==> store.poly_bbox@[split.diff as int].ymin <= gs.lo <= gs.hi <= store.poly_bbox@[split.diff as int].ymax,
        seg_nets@.len() == split.seg_spans@.len(),
        nets@.len() == store.poly_layer@.len(),
    ensures
        match gate_outcome(*store, rules@, split.diff as int, split.axis_x, split.seg_spans@, seg_nets@, nets@, gs) {
            Err(m) => r matches Err(e) && e@ == m,
            Ok(None) => r matches Ok(None),
            Ok(Some(v)) => r matches Ok(Some((dv, src))) && mos_view(dv, src) == v,
        },
{
    let g = gs.gate;
    let d = split.diff;
    let gate_net = nets[g];
    if gate_net == u32::MAX {
        return Ok(None);
    }
    let s = last_before_exec(&split.seg_spans, gs.lo);
    let t = first_after_exec(&split.seg_spans, gs.hi);
    match (s, t) {
        (Some(s), Some(t)) => {
            let m = match pick_type_and_flavor(store, rules, g, d) {
                Ok(m) => m,
                Err(e) => {
                    return Err(e);
                },
            };
            proof {
                assert(m.rule_idx < rules@.len()) by {
                    lemma_pick_index(*store, rules@, g as int, d as int);
                }
            }
            let rule = &rules[m.rule_idx];
            let well = match rule.well_layer {
                Some(wl) => first_well_exec(store, wl, g, d),
                None => None,
            };
            let gb = store.poly_bbox[g];
            let db = store.poly_bbox[d];
            let w: i64 = if split.axis_x {
                let top: i64 = if db.ymax <= gb.ymax { db.ymax as i64 } else { gb.ymax as i64 };
                let bot: i64 = if db.ymin >= gb.ymin { db.ymin as i64 } else { gb.ymin as i64 };
                top - bot
            } else {
                let right: i64 = if db.xmax <= gb.xmax { db.xmax as i64 } else { gb.xmax as i64 };
                let left: i64 = if db.xmin >= gb.xmin { db.xmin as i64 } else { gb.xmin as i64 };
                right - left
            };
            let device_class = match &rule.device_class {
                Some(c) => Some(c.clone()),
                None => None,
            };
            let body = match well {
                Some(wp) => nets[wp],
                None => u32::MAX,
            };
            let device = Device {
                kind: m.kind,
                gate: gate_net,
                source: seg_nets[s],
                drain: seg_nets[t],
                body,
                flavor: m.flavor,
                w: w as i32,
                l: gs.hi - gs.lo,
                device_class,
            };
            let source = DeviceRecognitionSource {
                gate_polygon: g as u32,
                channel_polygon: d as u32,
                well_polygon: match well {
                    Some(wp) => Some(wp as u32),
                    None => None,
                },
                rule_id: rule.name.clone(),
            };
            Ok(Some((device, source)))
        },
        _ => Ok(None),
    }
}

proof fn lemma_pick_index(store: GeometryStore, rules: Seq<MosRule>, g: int, d: int)
    ensures
        pick_spec(store, rules, g, d) matches Ok((k, f, i)) ==> 0 <= i < rules.len(),
{
    lemma_scan_rules_range(store, rules, g, d, 0);
}

/// The transistors of a split channel, gate span by gate span (see
/// `gate_outcome`), or the first classification error. `seg_nets` holds the
/// net of each segment and `nets` the net of each polygon.
pub fn mos_devices_of_split(
    store: &GeometryStore,
    rules: &Vec<MosRule>,
    split: &DiffSplit,
    seg_nets: &Vec<u32>,
    nets: &Vec<u32>,
) -> (r: Result<(Vec<Device>, Vec<DeviceRecognitionSource>), String>)
    requires
        store.wf(),
        store.poly_layer@.len() <= u32::MAX,
        split_fits(*store, *split),
        seg_nets@.len() == split.seg_spans@.len(),
        nets@.len() == store.poly_layer@.len(),
    ensures
        match split_devices(
            *store,
            rules@,
            split.diff as int,
            split.axis_x,
            split.gates@,
            split.seg_spans@,
            seg_nets@,
            nets@,
            split.gates@.len() as int,
        ) {
            Err(m) => r matches Err(e) && e@ == m,
            Ok(v) => r matches Ok((ds, ss)) && ds@.len() == ss@.len() && mos_views(ds@, ss@) == v,
        },
{
    let mut devices: Vec<Device> = Vec::new();
    let mut sources: Vec<DeviceRecognitionSource> = Vec::new();
    let mut k: usize = 0;
    assert(mos_views(devices@, sources@) =~= Seq::<MosV>::empty());
    while k < split.gates.len()
        invariant
            store.wf(),
            store.poly_layer@.len() <= u32::MAX,
            split_fits(*store, *split),
            seg_nets@.len() == split.seg_spans@.len(),
            nets@.len() == store.poly_layer@.len(),
            k <= split.gates@.len(),
            devices@.len() == sources@.len(),
            split_devices(*store, rules@, split.diff as int, split.axis_x, split.gates@, split.seg_spans@, seg_nets@, nets@, k as int)
                == Ok::<Seq<MosV>, Seq<char>>(mos_views(devices@, sources@)),
        decreases split.gates@.len() - k,
    {
        let gs = split.gates[k];
        assert(gs == split.gates@[k as int]);
        match gate_device(store, rules, split, seg_nets, nets, gs) {
            Err(e) => {
                proof {
                    lemma_split_devices_err(*store, rules@, split.diff as int, split.axis_x, split.gates@, split.seg_spans@, seg_nets@, nets@, k as int + 1, split.gates@.len() as int);
                }
                return Err(e);
            },
            Ok(None) => {},
            Ok(Some((dv, src))) => {
                let ghost before = mos_views(devices@, sources@);
                devices.push(dv);
                sources.push(src);
                assert(mos_views(devices@, sources@) =~= before.push(mos_view(dv, src)));
            },
        }
        k = k + 1;
    }
    Ok((devices, sources))
}

proof fn lemma_split_devices_err(
    store: GeometryStore,
    rules: Seq<MosRule>,
    d: int,
    axis_x: bool,
    gates: Seq<GateSpan>,
    segs: Seq<(i32, i32)>,
    seg_nets: Seq<u32>,
    nets: Seq<u32>,
    k: int,
    n: int,
)
    requires
        0 < k <= n,
        split_devices(store, rules, d, axis_x, gates, segs, seg_nets, nets, k) is Err,
    ensures
        split_devices(store, rules, d, axis_x, gates, segs, seg_nets, nets, n) == split_devices(store, rules, d, axis_x, gates, segs, seg_nets, nets, k),
    decreases n - k,
{
    if n > k {
        lemma_split_devices_err(store, rules, d, axis_x, gates, segs, seg_nets, nets, k, n - 1);
    }
}

} // verus!
