//! What net labels do to an extracted netlist: polygons labelled with one
//! global net name are merged into a single net, and a net carrying two
//! different labels is reported. Labels come as (polygon, text) entries in
//! the order they are looked at.
use vstd::prelude::*;
use crate::lvs::types::{BjtDevice, Device, FloatingNet, TwoTerminalDevice};
use crate::text::push_decimal;

verus! {

/// The nets (other than "no net") of the polygons that the first `k` label
/// entries give the text `name`.
pub open spec fn label_nets(nets: Seq<u32>, labels: Seq<(u32, String)>, name: Seq<char>, k: int) -> Set<u32> {
    Set::new(|x: u32| x != u32::MAX && exists|q: int| 0 <= q < k && (#[trigger] labels[q]).1@ == name && nets[labels[q].0 as int] == x)
}

/// The smallest member of `s`.
pub open spec fn least(s: Set<u32>) -> u32 {
    choose|m: u32| s.contains(m) && forall|y: u32| #[trigger] s.contains(y) ==> m <= y
}

/// `x` after merging the nets of `s` into the smallest of them.
pub open spec fn merge_to(s: Set<u32>, x: u32) -> u32 {
    if s.contains(x) { least(s) } else { x }
}

/// A device with its terminals merged as `s` says.
pub open spec fn retarget(s: Set<u32>, d: Device) -> Device {
    Device {
        gate: merge_to(s, d.gate),
        source: merge_to(s, d.source),
        drain: merge_to(s, d.drain),
        body: merge_to(s, d.body),
        ..d
    }
}

/// Nets and devices after merging the first `k` global names, one after
/// the other, each against the nets as the previous merges left them.
pub open spec fn merge_globals(nets: Seq<u32>, devices: Seq<Device>, labels: Seq<(u32, String)>, globals: Seq<String>, k: int) -> (
    Seq<u32>,
    Seq<Device>,
)
    decreases k,
{
    if k <= 0 {
        (nets, devices)
    } else {
        let (n0, d0) = merge_globals(nets, devices, labels, globals, k - 1);
        let s = label_nets(n0, labels, globals[k - 1]@, labels.len() as int);
        (n0.map_values(|x: u32| merge_to(s, x)), d0.map_values(|d: Device| retarget(s, d)))
    }
}

/// The nets labelled `name`, and the least of them (if any).
fn collect_label_nets(nets: &Vec<u32>, labels: &Vec<(u32, String)>, name: &String) -> (r: (Vec<u32>, Option<u32>))
    requires
        forall|q: int| 0 <= q < labels@.len() ==> (#[trigger] labels@[q]).0 < nets@.len(),
    ensures
        forall|x: u32| r.0@.contains(x) <==> label_nets(nets@, labels@, name@, labels@.len() as int).contains(x),
        match r.1 {
            Some(m) => label_nets(nets@, labels@, name@, labels@.len() as int).contains(m) && m == least(label_nets(nets@, labels@, name@, labels@.len() as int)),
            None => label_nets(nets@, labels@, name@, labels@.len() as int) =~= Set::<u32>::empty(),
        },
{
    let mut found: Vec<u32> = Vec::new();
    let mut least_net: Option<u32> = None;
    let mut k: usize = 0;
    while k < labels.len()
        invariant
            forall|q: int| 0 <= q < labels@.len() ==> (#[trigger] labels@[q]).0 < nets@.len(),
            k <= labels@.len(),
            forall|x: u32| found@.contains(x) <==> label_nets(nets@, labels@, name@, k as int).contains(x),
            match least_net {
                Some(m) => label_nets(nets@, labels@, name@, k as int).contains(m)
                    && forall|y: u32| #[trigger] label_nets(nets@, labels@, name@, k as int).contains(y) ==> m <= y,
                None => forall|y: u32| !#[trigger] label_nets(nets@, labels@, name@, k as int).contains(y),
            },
        decreases labels@.len() - k,
    {
        let ghost before = label_nets(nets@, labels@, name@, k as int);
        let hit = labels[k].1 == *name && nets[labels[k].0 as usize] != u32::MAX;
        if hit {
            let x = nets[labels[k].0 as usize];
            let ghost old_found = found@;
            found.push(x);
            proof {
                assert forall|y: u32| found@.contains(y) <==> (old_found.contains(y) || y == x) by {
                    if old_found.contains(y) {
                        let i = choose|i: int| 0 <= i < old_found.len() && old_found[i] == y;
                        assert(found@[i] == y);
                    }
                    if y == x {
                        assert(found@[found@.len() - 1] == x);
                    }
                    if found@.contains(y) {
                        let i = choose|i: int| 0 <= i < found@.len() && found@[i] == y;
                        if i < old_found.len() {
                            assert(old_found[i] == y);
                        }
                    }
                }
            }
            least_net = match least_net {
                Some(m) => if x < m { Some(x) } else { Some(m) },
                None => Some(x),
            };
            proof {
                assert(labels@[k as int].1@ == name@);
                assert forall|y: u32| label_nets(nets@, labels@, name@, k as int + 1).contains(y) <==> before.contains(y) || y == x by {
                    if label_nets(nets@, labels@, name@, k as int + 1).contains(y) && y != x {
                        let q = choose|q: int| 0 <= q < k + 1 && (#[trigger] labels@[q]).1@ == name@ && nets@[labels@[q].0 as int] == y;
                        assert(q < k);
                    }
                    if before.contains(y) {
                        let q = choose|q: int| 0 <= q < k && (#[trigger] labels@[q]).1@ == name@ && nets@[labels@[q].0 as int] == y;
                        assert(0 <= q < k + 1);
                    }
                    if y == x {
                        assert(nets@[labels@[k as int].0 as int] == x);
                        assert(x != u32::MAX);
                    }
                }
                assert forall|y: u32| found@.contains(y) <==> label_nets(nets@, labels@, name@, k as int + 1).contains(y) by {
                    assert(old_found.contains(y) <==> before.contains(y));
                    assert(found@.contains(y) <==> (old_found.contains(y) || y == x));
                    assert(label_nets(nets@, labels@, name@, k as int + 1).contains(y) <==> before.contains(y) || y == x);
                }
                let after = label_nets(nets@, labels@, name@, k as int + 1);
                let lm = least_net->Some_0;
                assert(after.contains(lm)) by {
                    if lm != x {
                        assert(before.contains(lm));
                    }
                }
                assert forall|y: u32| #[trigger] after.contains(y) implies lm <= y by {
                    if y != x {
                        assert(before.contains(y));
                    }
                }
            }
        } else {
            proof {
                assert forall|y: u32| label_nets(nets@, labels@, name@, k as int + 1).contains(y) <==> before.contains(y) by {
                    if label_nets(nets@, labels@, name@, k as int + 1).contains(y) {
                        let q = choose|q: int| 0 <= q < k + 1 && (#[trigger] labels@[q]).1@ == name@ && nets@[labels@[q].0 as int] == y;
                        if q == k {
                            assert(labels[k as int].1@ == name@);
                        }
                    }
                    if before.contains(y) {
                        let q = choose|q: int| 0 <= q < k && (#[trigger] labels@[q]).1@ == name@ && nets@[labels@[q].0 as int] == y;
                        assert(0 <= q < k + 1);
                    }
                }
                let after = label_nets(nets@, labels@, name@, k as int + 1);
                if let Some(lm) = least_net {
                    assert(before.contains(lm));
                    assert(after.contains(lm));
                    assert forall|y: u32| #[trigger] after.contains(y) implies lm <= y by {
                        assert(before.contains(y));
                    }
                } else {
                    assert forall|y: u32| !#[trigger] after.contains(y) by {
                        if after.contains(y) {
                            assert(before.contains(y));
                        }
                    }
                }
            }
        }
        k = k + 1;
    }
    let ghost s = label_nets(nets@, labels@, name@, labels@.len() as int);
    proof {
        if let Some(m) = least_net {
            let c = least(s);
            assert(s.contains(c) && forall|y: u32| #[trigger] s.contains(y) ==> c <= y);
            assert(c <= m && m <= c);
        } else {
            assert(s =~= Set::<u32>::empty());
        }
    }
    (found, least_net)
}

fn contains_net(v: &Vec<u32>, x: u32) -> (b: bool)
    ensures
        b == v@.contains(x),
{
    let mut i: usize = 0;
    while i < v.len()
        invariant
            i <= v@.len(),
            forall|j: int| 0 <= j < i ==> v@[j] != x,
        decreases v@.len() - i,
    {
        if v[i] == x {
            assert(v@[i as int] == x);
            return true;
        }
        i = i + 1;
    }
    false
}

/// Merges, name by name, the nets of polygons labelled with each global
/// name into the smallest of them, in `nets` (the net of each polygon) and
/// in the devices' terminals.
pub fn merge_global_nets(nets: &mut Vec<u32>, devices: &mut Vec<Device>, labels: &Vec<(u32, String)>, globals: &Vec<String>)
    requires
        forall|q: int| 0 <= q < labels@.len() ==> (#[trigger] labels@[q]).0 < old(nets)@.len(),
    ensures
        (final(nets)@, final(devices)@) == merge_globals(old(nets)@, old(devices)@, labels@, globals@, globals@.len() as int),
{
    let ghost n0 = nets@;
    let ghost d0 = devices@;
    let mut g: usize = 0;
    while g < globals.len()
        invariant
            nets@.len() == n0.len(),
            forall|q: int| 0 <= q < labels@.len() ==> (#[trigger] labels@[q]).0 < nets@.len(),
            g <= globals@.len(),
            (nets@, devices@) == merge_globals(n0, d0, labels@, globals@, g as int),
        decreases globals@.len() - g,
    {
        let (found, least_net) = collect_label_nets(nets, labels, &globals[g]);
        let ghost s = label_nets(nets@, labels@, globals@[g as int]@, labels@.len() as int);
        let ghost nb = nets@;
        let ghost db = devices@;
        match least_net {
            None => {
                assert(nb.map_values(|x: u32| merge_to(s, x)) =~= nb);
                assert(db.map_values(|d: Device| retarget(s, d)) =~= db);
            },
            Some(m) => {
                let mut i: usize = 0;
                while i < nets.len()
                    invariant
                        nets@.len() == nb.len(),
                        i <= nets@.len(),
                        m == least(s),
                        forall|x: u32| found@.contains(x) <==> s.contains(x),
                        forall|j: int| 0 <= j < i ==> #[trigger] nets@[j] == merge_to(s, nb[j]),
                        forall|j: int| i <= j < nets@.len() ==> #[trigger] nets@[j] == nb[j],
                    decreases nb.len() - i,
                {
                    if contains_net(&found, nets[i]) {
                        nets.set(i, m);
                    }
                    i = i + 1;
                }
                assert(nets@ =~= nb.map_values(|x: u32| merge_to(s, x)));
                let mut j: usize = 0;
                while j < devices.len()
                    invariant
                        devices@.len() == db.len(),
                        j <= devices@.len(),
                        m == least(s),
                        forall|x: u32| found@.contains(x) <==> s.contains(x),
                        forall|q: int| 0 <= q < j ==> #[trigger] devices@[q] == retarget(s, db[q]),
                        forall|q: int| j <= q < devices@.len() ==> #[trigger] devices@[q] == db[q],
                    decreases db.len() - j,
                {
                    let old = &devices[j];
                    let class = match &old.device_class {
                        Some(c) => Some(c.clone()),
                        None => None,
                    };
                    let d = Device {
                        kind: old.kind,
                        gate: if contains_net(&found, old.gate) { m } else { old.gate },
                        source: if contains_net(&found, old.source) { m } else { old.source },
                        drain: if contains_net(&found, old.drain) { m } else { old.drain },
                        body: if contains_net(&found, old.body) { m } else { old.body },
                        flavor: old.flavor,
                        w: old.w,
                        l: old.l,
                        device_class: class,
                    };
                    devices.set(j, d);
                    j = j + 1;
                }
                assert(devices@ =~= db.map_values(|d: Device| retarget(s, d)));
            },
        }
        g = g + 1;
    }
}


/// The first of the first `k` label entries on a polygon of net `net`.
pub open spec fn first_label_on(nets: Seq<u32>, labels: Seq<(u32, String)>, net: u32, k: int) -> Option<int>
    decreases k,
{
    if k <= 0 {
        None
    } else {
        match first_label_on(nets, labels, net, k - 1) {
            Some(j) => Some(j),
            None => if nets[labels[k - 1].0 as int] == net {
                Some(k - 1)
            } else {
                None
            },
        }
    }
}

/// The report of a net whose first label is `first` and which also carries
/// `other`.
pub open spec fn conflict_text(net: u32, first: Seq<char>, other: Seq<char>) -> Seq<char> {
    "net "@ + crate::text::decimal(net as nat) + " has conflicting labels: '"@ + first + "' vs '"@ + other + "'"@
}

/// Conflicts among the first `k` label entries: an entry on a net whose
/// first label (among earlier entries) has another text is reported.
pub open spec fn label_conflicts(nets: Seq<u32>, labels: Seq<(u32, String)>, k: int) -> Seq<Seq<char>>
    decreases k,
{
    if k <= 0 {
        Seq::empty()
    } else {
        let prev = label_conflicts(nets, labels, k - 1);
        let net = nets[labels[k - 1].0 as int];
        if net == u32::MAX {
            prev
        } else {
            match first_label_on(nets, labels, net, k - 1) {
                Some(j) => if labels[j].1@ != labels[k - 1].1@ {
                    prev.push(conflict_text(net, labels[j].1@, labels[k - 1].1@))
                } else {
                    prev
                },
                None => prev,
            }
        }
    }
}

fn first_label_on_exec(nets: &Vec<u32>, labels: &Vec<(u32, String)>, net: u32, k: usize) -> (r: Option<usize>)
    requires
        k <= labels@.len(),
        forall|q: int| 0 <= q < labels@.len() ==> (#[trigger] labels@[q]).0 < nets@.len(),
    ensures
        match r {
            Some(j) => first_label_on(nets@, labels@, net, k as int) == Some(j as int) && j < k,
            None => first_label_on(nets@, labels@, net, k as int) is None,
        },
{
    let mut j: usize = 0;
    while j < k
        invariant
            k <= labels@.len(),
            forall|q: int| 0 <= q < labels@.len() ==> (#[trigger] labels@[q]).0 < nets@.len(),
            j <= k,
            first_label_on(nets@, labels@, net, j as int) is None,
        decreases k - j,
    {
        if nets[labels[j].0 as usize] == net {
            proof {
                lemma_first_label_stays(nets@, labels@, net, j as int + 1, k as int);
            }
            return Some(j);
        }
        j = j + 1;
    }
    None
}

proof fn lemma_first_label_stays(nets: Seq<u32>, labels: Seq<(u32, String)>, net: u32, k: int, n: int)
    requires
        0 < k <= n,
        first_label_on(nets, labels, net, k) is Some,
    ensures
        first_label_on(nets, labels, net, n) == first_label_on(nets, labels, net, k),
    decreases n - k,
{
    if n > k {
        lemma_first_label_stays(nets, labels, net, k, n - 1);
    }
}

/// Reports, in entry order, the label entries that give a net a text other
/// than its first label (see `label_conflicts`).
pub fn find_label_conflicts(nets: &Vec<u32>, labels: &Vec<(u32, String)>) -> (r: Vec<String>)
    requires
        forall|q: int| 0 <= q < labels@.len() ==> (#[trigger] labels@[q]).0 < nets@.len(),
    ensures
        r@.map_values(|s: String| s@) == label_conflicts(nets@, labels@, labels@.len() as int),
{
    let mut out: Vec<String> = Vec::new();
    let mut k: usize = 0;
    while k < labels.len()
        invariant
            forall|q: int| 0 <= q < labels@.len() ==> (#[trigger] labels@[q]).0 < nets@.len(),
            k <= labels@.len(),
            out@.map_values(|s: String| s@) == label_conflicts(nets@, labels@, k as int),
        decreases labels@.len() - k,
    {
        let net = nets[labels[k].0 as usize];
        if net != u32::MAX {
            match first_label_on_exec(nets, labels, net, k) {
                Some(j) => {
                    if labels[j].1 != labels[k].1 {
                        let mut m = String::from_str("net ");
                        push_decimal(&mut m, net as u64);
                        m.append(" has conflicting labels: '");
                        m.append(labels[j].1.as_str());
                        m.append("' vs '");
                        m.append(labels[k].1.as_str());
                        m.append("'");
                        let ghost before = out@;
                        out.push(m);
                        assert(out@.map_values(|s: String| s@) =~= before.map_values(|s: String| s@).push(m@));
                    }
                },
                None => {},
            }
        }
        k = k + 1;
    }
    out
}


/// Net `v` is a terminal of a device: a MOS gate, source, drain or
/// resolved body, a passive's terminal, or a bipolar transistor's terminal.
pub open spec fn is_terminal(devices: Seq<Device>, passives: Seq<TwoTerminalDevice>, bjts: Seq<BjtDevice>, v: u32) -> bool {
    (exists|i: int| 0 <= i < devices.len() && #[trigger] mos_touches(devices[i], v))
        || (exists|i: int| 0 <= i < passives.len() && ((#[trigger] passives[i]).terminal_a == v || passives[i].terminal_b == v))
        || (exists|i: int| 0 <= i < bjts.len() && ((#[trigger] bjts[i]).collector == v || bjts[i].base == v || bjts[i].emitter == v))
}

pub open spec fn mos_touches(d: Device, v: u32) -> bool {
    d.gate == v || d.source == v || d.drain == v || (d.body != u32::MAX && d.body == v)
}

/// The first of the first `k` label entries for polygon `p`.
pub open spec fn first_entry(labels: Seq<(u32, String)>, p: int, k: int) -> Option<int>
    decreases k,
{
    if k <= 0 {
        None
    } else {
        match first_entry(labels, p, k - 1) {
            Some(j) => Some(j),
            None => if labels[k - 1].0 == p {
                Some(k - 1)
            } else {
                None
            },
        }
    }
}

/// The label entry of net `v`: that of the first of the first `k` polygons
/// of the net that has one.
pub open spec fn net_entry(nets: Seq<u32>, labels: Seq<(u32, String)>, v: u32, k: int) -> Option<int>
    decreases k,
{
    if k <= 0 {
        None
    } else {
        match net_entry(nets, labels, v, k - 1) {
            Some(j) => Some(j),
            None => if nets[k - 1] == v {
                first_entry(labels, k - 1, labels.len() as int)
            } else {
                None
            },
        }
    }
}

pub open spec fn is_net(v: u32) -> spec_fn(u32) -> bool {
    |x: u32| x == v
}

/// A floating net as the contracts see it.
pub open spec fn floating_view(f: FloatingNet) -> (u32, Option<Seq<char>>, usize) {
    (f.net_id, match f.label {
        Some(l) => Some(l@),
        None => None,
    }, f.polygon_count)
}

/// The floating nets among nets `0..k`, ascending: nets with polygons that
/// no device terminal touches, with their first label and polygon count.
pub open spec fn floating_nets(
    nets: Seq<u32>,
    labels: Seq<(u32, String)>,
    devices: Seq<Device>,
    passives: Seq<TwoTerminalDevice>,
    bjts: Seq<BjtDevice>,
    k: int,
) -> Seq<(u32, Option<Seq<char>>, usize)>
    decreases k,
{
    if k <= 0 {
        Seq::empty()
    } else {
        let prev = floating_nets(nets, labels, devices, passives, bjts, k - 1);
        let v = (k - 1) as u32;
        let count = nets.filter(is_net(v)).len();
        if count > 0 && !is_terminal(devices, passives, bjts, v) {
            prev.push((v, match net_entry(nets, labels, v, nets.len() as int) {
                Some(j) => Some(labels[j].1@),
                None => None,
            }, count as usize))
        } else {
            prev
        }
    }
}

proof fn lemma_first_entry_stays(labels: Seq<(u32, String)>, p: int, k: int, n: int)
    requires
        0 < k <= n,
        first_entry(labels, p, k) is Some,
    ensures
        first_entry(labels, p, n) == first_entry(labels, p, k),
    decreases n - k,
{
    if n > k {
        lemma_first_entry_stays(labels, p, k, n - 1);
    }
}

proof fn lemma_first_entry_range(labels: Seq<(u32, String)>, p: int, k: int)
    ensures
        first_entry(labels, p, k) matches Some(j) ==> 0 <= j < k && j < labels.len() + k,
    decreases k,
{
    if k > 0 {
        lemma_first_entry_range(labels, p, k - 1);
    }
}

proof fn lemma_net_entry_range(nets: Seq<u32>, labels: Seq<(u32, String)>, v: u32, k: int)
    ensures
        net_entry(nets, labels, v, k) matches Some(j) ==> 0 <= j < labels.len(),
    decreases k,
{
    if k > 0 {
        lemma_net_entry_range(nets, labels, v, k - 1);
        lemma_first_entry_range(labels, k - 1, labels.len() as int);
    }
}

/// For each polygon, its first label entry.
fn entries_of_polys(n: usize, labels: &Vec<(u32, String)>) -> (r: Vec<Option<usize>>)
    requires
        forall|q: int| 0 <= q < labels@.len() ==> (#[trigger] labels@[q]).0 < n,
    ensures
        r@.len() == n,
        forall|p: int| 0 <= p < n ==> #[trigger] r@[p] == match first_entry(labels@, p, labels@.len() as int) {
            Some(j) => Some(j as usize),
            None => None::<usize>,
        },
{
    let mut r: Vec<Option<usize>> = Vec::new();
    let mut i: usize = 0;
    while i < n
        invariant
            i <= n,
            r@.len() == i,
            forall|p: int| 0 <= p < i ==> #[trigger] r@[p] is None,
        decreases n - i,
    {
        r.push(None);
        i = i + 1;
    }
    let mut k: usize = 0;
    while k < labels.len()
        invariant
            forall|q: int| 0 <= q < labels@.len() ==> (#[trigger] labels@[q]).0 < n,
            k <= labels@.len(),
            r@.len() == n,
            forall|p: int| 0 <= p < n ==> #[trigger] r@[p] == match first_entry(labels@, p, k as int) {
                Some(j) => Some(j as usize),
                None => None::<usize>,
            },
        decreases labels@.len() - k,
    {
        let p = labels[k].0 as usize;
        if r[p].is_none() {
            r.set(p, Some(k));
        }
        proof {
            assert forall|q: int| 0 <= q < n implies #[trigger] r@[q] == match first_entry(labels@, q, k as int + 1) {
                Some(j) => Some(j as usize),
                None => None::<usize>,
            } by {
                lemma_first_entry_range(labels@, q, k as int);
            }
        }
        k = k + 1;
    }
    proof {
        assert forall|p: int| 0 <= p < n implies #[trigger] r@[p] == match first_entry(labels@, p, labels@.len() as int) {
            Some(j) => Some(j as usize),
            None => None::<usize>,
        } by {
            assert(k == labels@.len());
        }
    }
    r
}

/// Whether net `v` is some device's terminal (see `is_terminal`).
fn terminal_exec(devices: &Vec<Device>, passives: &Vec<TwoTerminalDevice>, bjts: &Vec<BjtDevice>, v: u32) -> (b: bool)
    ensures
        b == is_terminal(devices@, passives@, bjts@, v),
{
    let mut i: usize = 0;
    while i < devices.len()
        invariant
            i <= devices@.len(),
            forall|q: int| 0 <= q < i ==> !#[trigger] mos_touches(devices@[q], v),
        decreases devices@.len() - i,
    {
        let d = &devices[i];
        if d.gate == v || d.source == v || d.drain == v || (d.body != u32::MAX && d.body == v) {
            assert(mos_touches(devices@[i as int], v));
            return true;
        }
        i = i + 1;
    }
    let mut i: usize = 0;
    while i < passives.len()
        invariant
            i <= passives@.len(),
            forall|q: int| 0 <= q < i ==> !((#[trigger] passives@[q]).terminal_a == v || passives@[q].terminal_b == v),
        decreases passives@.len() - i,
    {
        if passives[i].terminal_a == v || passives[i].terminal_b == v {
            assert(passives@[i as int].terminal_a == v || passives@[i as int].terminal_b == v);
            return true;
        }
        i = i + 1;
    }
    let mut i: usize = 0;
    while i < bjts.len()
        invariant
            i <= bjts@.len(),
            forall|q: int| 0 <= q < i ==> !((#[trigger] bjts@[q]).collector == v || bjts@[q].base == v || bjts@[q].emitter == v),
        decreases bjts@.len() - i,
    {
        if bjts[i].collector == v || bjts[i].base == v || bjts[i].emitter == v {
            assert(bjts@[i as int].collector == v || bjts@[i as int].base == v || bjts@[i as int].emitter == v);
            return true;
        }
        i = i + 1;
    }
    false
}

proof fn lemma_filter_step_u32(s: Seq<u32>, p: spec_fn(u32) -> bool, i: int)
    requires
        0 <= i < s.len(),
    ensures
        s.take(i + 1).filter(p) == if p(s[i]) { s.take(i).filter(p).push(s[i]) } else { s.take(i).filter(p) },
{
    reveal(Seq::filter);
    let t = s.take(i + 1);
    assert(t.drop_last() =~= s.take(i));
    assert(t.last() == s[i]);
}

/// The floating nets among nets `0..net_count`, in ascending order (see
/// `floating_nets`): nets with polygons that no device terminal touches,
/// each with its polygon count and the label of its first labelled polygon.
/// `labels` names each polygon at most once.
pub fn find_floating_nets(
    nets: &Vec<u32>,
    net_count: u32,
    labels: &Vec<(u32, String)>,
    devices: &Vec<Device>,
    passives: &Vec<TwoTerminalDevice>,
    bjts: &Vec<BjtDevice>,
) -> (r: Vec<FloatingNet>)
    requires
        forall|q: int| 0 <= q < labels@.len() ==> (#[trigger] labels@[q]).0 < nets@.len(),
    ensures
        r@.map_values(|f: FloatingNet| floating_view(f)) == floating_nets(nets@, labels@, devices@, passives@, bjts@, net_count as int),
{
    let entries = entries_of_polys(nets.len(), labels);
    let mut out: Vec<FloatingNet> = Vec::new();
    let mut v: u32 = 0;
    while v < net_count
        invariant
            forall|q: int| 0 <= q < labels@.len() ==> (#[trigger] labels@[q]).0 < nets@.len(),
            entries@.len() == nets@.len(),
            forall|p: int| 0 <= p < nets@.len() ==> #[trigger] entries@[p] == match first_entry(labels@, p, labels@.len() as int) {
                Some(j) => Some(j as usize),
                None => None::<usize>,
            },
            v <= net_count,
            out@.map_values(|f: FloatingNet| floating_view(f)) == floating_nets(nets@, labels@, devices@, passives@, bjts@, v as int),
        decreases net_count - v,
    {
        let mut count: usize = 0;
        let mut entry: Option<usize> = None;
        let mut i: usize = 0;
        while i < nets.len()
            invariant
                forall|q: int| 0 <= q < labels@.len() ==> (#[trigger] labels@[q]).0 < nets@.len(),
                entries@.len() == nets@.len(),
                forall|p: int| 0 <= p < nets@.len() ==> #[trigger] entries@[p] == match first_entry(labels@, p, labels@.len() as int) {
                    Some(j) => Some(j as usize),
                    None => None::<usize>,
                },
                i <= nets@.len(),
                count == nets@.take(i as int).filter(is_net(v)).len(),
                count <= i,
                entry == match net_entry(nets@, labels@, v, i as int) {
                    Some(j) => Some(j as usize),
                    None => None::<usize>,
                },
            decreases nets@.len() - i,
        {
            proof {
                lemma_filter_step_u32(nets@, is_net(v), i as int);
            }
            if nets[i] == v {
                count = count + 1;
                if entry.is_none() {
                    entry = entries[i];
                }
            }
            i = i + 1;
        }
        assert(nets@.take(i as int) =~= nets@);
        if count > 0 && !terminal_exec(devices, passives, bjts, v) {
            proof {
                lemma_net_entry_range(nets@, labels@, v, nets@.len() as int);
            }
            let nlab = labels.len();
            let label = match entry {
                Some(j) => {
                    let t = labels[j].1.clone();
                    assert(t@ == labels@[j as int].1@);
                    Some(t)
                },
                None => None,
            };
            proof {
                match net_entry(nets@, labels@, v, nets@.len() as int) {
                    Some(js) => {
                        assert(0 <= js < labels@.len());
                        assert(js < nlab);
                        assert(entry == Some(js as usize));
                        assert(label is Some);
                        assert(label->Some_0@ == labels@[js].1@);
                    },
                    None => {
                        assert(label is None);
                    },
                }
                assert(count == nets@.filter(is_net(v)).len());
            }
            let ghost before = out@;
            out.push(FloatingNet { net_id: v, label, polygon_count: count });
            assert(out@.map_values(|f: FloatingNet| floating_view(f)) =~= before.map_values(|f: FloatingNet| floating_view(f)).push(
                floating_view(FloatingNet { net_id: v, label, polygon_count: count }),
            ));
        }
        v = v + 1;
    }
    out
}

} // verus!
