//! Netlist comparison by joint partition refinement of the layout and the
//! reference graph.
//!
//! Both graphs share one class space. Each refinement round hashes every device
//! from the classes of its pins and every net from the classes of its incident
//! terminals, then splits classes whose members hash differently. Remaining
//! symmetric classes are broken one pair at a time. The verdict is read from the
//! refined classes: every class must have as many layout as reference members,
//! seeded reference nets must stay apart, and paired MOS sizes must agree.
use vstd::prelude::*;
use crate::text::{decimal, signed_decimal, push_decimal, push_signed, text_of, starts_with};
use super::types::{DeviceKind, DeviceFlavor, TwoTerminalKind, Device, RefDevice, ExtractedNetlist, RefNetlist, LvsResult, Mismatch, FloatingNet, PropertyTolerance, count_kind, count_ref_kind, count_devices_of_kind, count_ref_devices_of_kind};

verus! {

/// Number of distinct pin roles.
pub const NUM_ROLES: usize = 10;
/// Pin roles: permutable pins share a role so that their order does not change a hash.
pub const ROLE_GATE: u8 = 0;
pub const ROLE_SD: u8 = 1;
pub const ROLE_SOURCE: u8 = 1;
pub const ROLE_DRAIN: u8 = 2;
pub const ROLE_TERM: u8 = 4;
pub const ROLE_COLLECTOR: u8 = 5;
pub const ROLE_BASE: u8 = 6;
pub const ROLE_EMITTER: u8 = 7;
pub const ROLE_ANODE: u8 = 8;
pub const ROLE_CATHODE: u8 = 9;

pub open spec fn spec_kind_tag(k: DeviceKind) -> u32 {
    match k {
        DeviceKind::Nmos => 0,
        DeviceKind::Pmos => 1,
        DeviceKind::Npn => 0,
        DeviceKind::Pnp => 0,
    }
}

pub open spec fn spec_flavor_tag(f: DeviceFlavor) -> u32 {
    match f {
        DeviceFlavor::Standard => 0,
        DeviceFlavor::Lvt => 1,
        DeviceFlavor::Hvt => 2,
    }
}

/// Class tag of a MOS kind (bipolar kinds share tag 0; they never meet MOS devices).
pub fn kind_tag(k: &DeviceKind) -> (t: u32)
    ensures
        t == spec_kind_tag(*k),
{
    match k {
        DeviceKind::Nmos => 0,
        DeviceKind::Pmos => 1,
        DeviceKind::Npn => 0,
        DeviceKind::Pnp => 0,
    }
}

/// Class tag of a MOS flavor.
pub fn flavor_tag(f: &DeviceFlavor) -> (t: u32)
    ensures
        t == spec_flavor_tag(*f),
{
    match f {
        DeviceFlavor::Standard => 0,
        DeviceFlavor::Lvt => 1,
        DeviceFlavor::Hvt => 2,
    }
}

/// Name of a MOS kind tag.
pub fn kind_name(tag: u32) -> (s: &'static str)
    ensures
        tag == 0 ==> s@ == "Nmos"@,
        tag != 0 ==> s@ == "Pmos"@,
{
    if tag == 0 {
        "Nmos"
    } else {
        "Pmos"
    }
}

/// Name of a flavor tag.
pub fn flavor_name(tag: u32) -> (s: &'static str)
    ensures
        tag == 1 ==> s@ == "Lvt"@,
        tag == 2 ==> s@ == "Hvt"@,
        tag != 1 && tag != 2 ==> s@ == "Std"@,
{
    if tag == 1 {
        "Lvt"
    } else if tag == 2 {
        "Hvt"
    } else {
        "Std"
    }
}

pub open spec fn spec_bjt_kind_tag(k: DeviceKind) -> u32 {
    match k {
        DeviceKind::Pnp => 51,
        _ => 50,
    }
}

/// Class tag of a bipolar kind.
fn bjt_kind_tag(k: &DeviceKind) -> (t: u32)
    ensures
        t == spec_bjt_kind_tag(*k),
{
    match k {
        DeviceKind::Pnp => 51,
        _ => 50,
    }
}

pub open spec fn spec_two_term_kind_tag(k: TwoTerminalKind) -> u32 {
    match k {
        TwoTerminalKind::Resistor => 0,
        TwoTerminalKind::Diode => 1,
        TwoTerminalKind::Capacitor => 2,
    }
}

/// Class tag of a two-terminal kind.
fn two_term_kind_tag(k: &TwoTerminalKind) -> (t: u32)
    ensures
        t == spec_two_term_kind_tag(*k),
{
    match k {
        TwoTerminalKind::Resistor => 0,
        TwoTerminalKind::Diode => 1,
        TwoTerminalKind::Capacitor => 2,
    }
}

/// Name of a two-terminal kind tag.
pub fn two_term_kind_label(tag: u32) -> (s: &'static str)
    ensures
        tag == 0 ==> s@ == "Resistor"@,
        tag == 1 ==> s@ == "Diode"@,
        tag != 0 && tag != 1 ==> s@ == "Capacitor"@,
{
    if tag == 0 {
        "Resistor"
    } else if tag == 1 {
        "Diode"
    } else {
        "Capacitor"
    }
}

pub open spec fn spec_two_term_roles(k: TwoTerminalKind) -> (u8, u8) {
    match k {
        TwoTerminalKind::Diode => (ROLE_ANODE, ROLE_CATHODE),
        _ => (ROLE_TERM, ROLE_TERM),
    }
}

/// Pin roles of a two-terminal device: diodes are polar, resistors and
/// capacitors are symmetric.
fn two_term_roles(k: &TwoTerminalKind) -> (r: (u8, u8))
    ensures
        r == spec_two_term_roles(*k),
{
    match k {
        TwoTerminalKind::Diode => (ROLE_ANODE, ROLE_CATHODE),
        _ => (ROLE_TERM, ROLE_TERM),
    }
}

// --- deterministic xorshift generator ---

pub open spec fn xorshift(s: u64) -> u64 {
    let a = s ^ (s << 13u64);
    let b = a ^ (a >> 7u64);
    b ^ (b << 17u64)
}

/// The generator state after `n` draws from state `s`.
pub open spec fn draws(s: u64, n: nat) -> u64
    decreases n,
{
    if n == 0 {
        s
    } else {
        xorshift(draws(s, (n - 1) as nat))
    }
}

/// `c1` extends `c0` with the values drawn in turn from a generator at state
/// `s0`, which is at state `s1` afterwards.
pub open spec fn drawn_after(c0: Seq<u64>, s0: u64, c1: Seq<u64>, s1: u64) -> bool {
    &&& c0.len() <= c1.len()
    &&& forall|i: int| 0 <= i < c0.len() ==> #[trigger] c1[i] == c0[i]
    &&& forall|i: int| c0.len() <= i < c1.len() ==> #[trigger] c1[i] == draws(s0, (i - c0.len() + 1) as nat)
    &&& s1 == draws(s0, (c1.len() - c0.len()) as nat)
}

proof fn lemma_draws_add(s: u64, m: nat, k: nat)
    ensures
        draws(draws(s, m), k) == draws(s, m + k),
    decreases k,
{
    if k > 0 {
        lemma_draws_add(s, m, (k - 1) as nat);
    }
}

proof fn lemma_drawn_refl(c: Seq<u64>, s: u64)
    ensures
        drawn_after(c, s, c, s),
{
}

proof fn lemma_drawn_push(c: Seq<u64>, s: u64)
    ensures
        drawn_after(c, s, c.push(xorshift(s)), xorshift(s)),
{
    assert(draws(s, 1) == xorshift(draws(s, 0)));
}

proof fn lemma_drawn_trans(c0: Seq<u64>, s0: u64, c1: Seq<u64>, s1: u64, c2: Seq<u64>, s2: u64)
    requires
        drawn_after(c0, s0, c1, s1),
        drawn_after(c1, s1, c2, s2),
    ensures
        drawn_after(c0, s0, c2, s2),
{
    let m = (c1.len() - c0.len()) as nat;
    assert forall|i: int| c0.len() <= i < c2.len() implies #[trigger] c2[i] == draws(s0, (i - c0.len() + 1) as nat) by {
        if i >= c1.len() {
            lemma_draws_add(s0, m, (i - c1.len() + 1) as nat);
        } else {
            assert(c2[i] == c1[i]);
        }
    }
    assert forall|i: int| 0 <= i < c0.len() implies #[trigger] c2[i] == c0[i] by {
        assert(c2[i] == c1[i]);
    }
    lemma_draws_add(s0, m, (c2.len() - c1.len()) as nat);
}

/// Deterministic xorshift64 generator of hash magic numbers.
pub struct Rng {
    pub state: u64,
}

impl Rng {
    pub fn new(seed: u64) -> (r: Rng)
        ensures
            r.state == seed,
    {
        Rng { state: seed }
    }

    pub fn next(&mut self) -> (v: u64)
        ensures
            final(self).state == xorshift(old(self).state),
            v == final(self).state,
    {
        let s = self.state;
        let a = s ^ (s << 13u64);
        let b = a ^ (a >> 7u64);
        let c = b ^ (b << 17u64);
        self.state = c;
        c
    }
}


// --- graph representation ---

/// One device of a comparison graph: a seed class and up to four pins, each
/// a local net id with a role.
pub struct GraphDev {
    pub seed: u32,
    pub nets: Vec<usize>,
    pub roles: Vec<u8>,
    /// Index into the MOS device list of the netlist (MOS devices only).
    pub orig_idx: usize,
    pub is_mos: bool,
}

/// Device/net bipartite graph with dense local net ids.
pub struct TopoGraph {
    pub devs: Vec<GraphDev>,
    pub net_count: usize,
}

pub open spec fn dev_wf(d: GraphDev, net_count: nat) -> bool {
    &&& d.nets@.len() == d.roles@.len()
    &&& d.nets@.len() <= 4
    &&& forall|k: int| 0 <= k < d.nets@.len() ==> (#[trigger] d.nets@[k] as int) < net_count
    &&& forall|k: int| 0 <= k < d.roles@.len() ==> (#[trigger] d.roles@[k] as int) < NUM_ROLES
}

pub open spec fn graph_wf(g: TopoGraph) -> bool {
    forall|i: int| 0 <= i < g.devs@.len() ==> dev_wf(#[trigger] g.devs@[i], g.net_count as nat)
}

pub open spec fn is_dmos(c: Option<String>) -> bool {
    match c {
        Some(s) => s@ == "dmos"@,
        None => false,
    }
}

/// Initial class of a layout MOS device: kind and flavor, DMOS apart.
pub open spec fn mos_seed(d: Device) -> u32 {
    (spec_kind_tag(d.kind) * 3 + spec_flavor_tag(d.flavor) + (if is_dmos(d.device_class) { 20int } else { 0int })) as u32
}

pub open spec fn ref_mos_seed(kind: DeviceKind, flavor: DeviceFlavor) -> u32 {
    (spec_kind_tag(kind) * 3 + spec_flavor_tag(flavor)) as u32
}

pub open spec fn sd_roles(strict: bool) -> (u8, u8) {
    if strict { (ROLE_SOURCE, ROLE_DRAIN) } else { (ROLE_SD, ROLE_SD) }
}

pub open spec fn tt_seed(k: TwoTerminalKind) -> u32 {
    (100 + spec_two_term_kind_tag(k) * 10) as u32
}

/// Graph node `gd` stands for a three-pin device with pins `p` and roles `r`.
pub open spec fn node3<N>(gd: GraphDev, names: Seq<N>, seed: u32, p: (N, N, N), r: (u8, u8, u8)) -> bool {
    &&& gd.seed == seed
    &&& gd.nets@.len() == 3
    &&& names[gd.nets@[0] as int] == p.0
    &&& names[gd.nets@[1] as int] == p.1
    &&& names[gd.nets@[2] as int] == p.2
    &&& gd.roles@ == seq![r.0, r.1, r.2]
}

/// Graph node `gd` stands for a two-pin device.
pub open spec fn node2<N>(gd: GraphDev, names: Seq<N>, seed: u32, p: (N, N), r: (u8, u8)) -> bool {
    &&& gd.seed == seed
    &&& gd.nets@.len() == 2
    &&& names[gd.nets@[0] as int] == p.0
    &&& names[gd.nets@[1] as int] == p.1
    &&& gd.roles@ == seq![r.0, r.1]
}

/// `g` (with local net names `names`) is the comparison graph of `ext`.
pub open spec fn ext_graph(ext: ExtractedNetlist, strict: bool, g: TopoGraph, names: Seq<u32>) -> bool {
    let nd = ext.devices@.len();
    let nb = ext.bjt_devices@.len();
    let nt = ext.two_terminal@.len();
    &&& g.devs@.len() == nd + nb + nt
    &&& g.net_count == names.len()
    &&& names.no_duplicates()
    &&& graph_wf(g)
    &&& forall|i: int| 0 <= i < nd ==> {
        let d = #[trigger] ext.devices@[i];
        let gd = g.devs@[i];
        &&& node3(gd, names, mos_seed(d), (d.gate, d.source, d.drain),
                 (ROLE_GATE, sd_roles(strict).0, sd_roles(strict).1))
        &&& gd.orig_idx == i && gd.is_mos
    }
    &&& forall|j: int| 0 <= j < nb ==> {
        let d = #[trigger] ext.bjt_devices@[j];
        let gd = g.devs@[nd + j];
        &&& node3(gd, names, spec_bjt_kind_tag(d.kind), (d.collector, d.base, d.emitter),
                 (ROLE_COLLECTOR, ROLE_BASE, ROLE_EMITTER))
        &&& !gd.is_mos
    }
    &&& forall|j: int| 0 <= j < nt ==> {
        let d = #[trigger] ext.two_terminal@[j];
        let gd = g.devs@[nd + nb + j];
        &&& node2(gd, names, tt_seed(d.kind), (d.terminal_a, d.terminal_b), spec_two_term_roles(d.kind))
        &&& !gd.is_mos
    }
}

/// `ext2` is `ext` with every net id `n` of its MOS, bipolar and
/// two-terminal device pins replaced by `f(n)`, all else of the devices kept.
pub open spec fn renumbered(ext: ExtractedNetlist, ext2: ExtractedNetlist, f: spec_fn(u32) -> u32) -> bool {
    &&& ext2.devices@.len() == ext.devices@.len()
    &&& ext2.bjt_devices@.len() == ext.bjt_devices@.len()
    &&& ext2.two_terminal@.len() == ext.two_terminal@.len()
    &&& forall|i: int| 0 <= i < ext.devices@.len() ==> {
        let d = #[trigger] ext.devices@[i];
        let e = ext2.devices@[i];
        &&& e.gate == f(d.gate) && e.source == f(d.source) && e.drain == f(d.drain)
        &&& mos_seed(e) == mos_seed(d)
    }
    &&& forall|j: int| 0 <= j < ext.bjt_devices@.len() ==> {
        let d = #[trigger] ext.bjt_devices@[j];
        let e = ext2.bjt_devices@[j];
        &&& e.collector == f(d.collector) && e.base == f(d.base) && e.emitter == f(d.emitter)
        &&& e.kind == d.kind
    }
    &&& forall|j: int| 0 <= j < ext.two_terminal@.len() ==> {
        let d = #[trigger] ext.two_terminal@[j];
        let e = ext2.two_terminal@[j];
        &&& e.terminal_a == f(d.terminal_a) && e.terminal_b == f(d.terminal_b)
        &&& e.kind == d.kind
    }
}

/// Renumbering the nets of a netlist one-to-one leaves its comparison graph
/// unchanged: the graph of `ext` is the graph of the renumbered netlist, its
/// local nets renamed by `f`.
pub proof fn lemma_renumber_same_graph(ext: ExtractedNetlist, ext2: ExtractedNetlist, f: spec_fn(u32) -> u32,
    strict: bool, g: TopoGraph, names: Seq<u32>)
    requires
        renumbered(ext, ext2, f),
        forall|a: u32, b: u32| #[trigger] f(a) == #[trigger] f(b) ==> a == b,
        ext_graph(ext, strict, g, names),
    ensures
        ext_graph(ext2, strict, g, names.map_values(f)),
{
    let m = names.map_values(f);
    assert forall|i: int, j: int| 0 <= i < m.len() && 0 <= j < m.len() && i != j implies m[i] != m[j] by {
        assert(names[i] != names[j]);
    }
    let nd = ext.devices@.len();
    let nb = ext.bjt_devices@.len();
    assert forall|i: int| 0 <= i < nd implies {
        let d = #[trigger] ext2.devices@[i];
        let gd = g.devs@[i];
        &&& node3(gd, m, mos_seed(d), (d.gate, d.source, d.drain), (ROLE_GATE, sd_roles(strict).0, sd_roles(strict).1))
        &&& gd.orig_idx == i && gd.is_mos
    } by {
        let d = ext.devices@[i];
        let gd = g.devs@[i];
        assert(dev_wf(gd, g.net_count as nat));
        assert(node3(gd, names, mos_seed(d), (d.gate, d.source, d.drain), (ROLE_GATE, sd_roles(strict).0, sd_roles(strict).1)));
    }
    assert forall|j: int| 0 <= j < nb implies {
        let d = #[trigger] ext2.bjt_devices@[j];
        let gd = g.devs@[nd + j];
        &&& node3(gd, m, spec_bjt_kind_tag(d.kind), (d.collector, d.base, d.emitter), (ROLE_COLLECTOR, ROLE_BASE, ROLE_EMITTER))
        &&& !gd.is_mos
    } by {
        let d = ext.bjt_devices@[j];
        let gd = g.devs@[nd + j];
        assert(dev_wf(gd, g.net_count as nat));
        assert(node3(gd, names, spec_bjt_kind_tag(d.kind), (d.collector, d.base, d.emitter), (ROLE_COLLECTOR, ROLE_BASE, ROLE_EMITTER)));
    }
    assert forall|j: int| 0 <= j < ext.two_terminal@.len() implies {
        let d = #[trigger] ext2.two_terminal@[j];
        let gd = g.devs@[nd + nb + j];
        &&& node2(gd, m, tt_seed(d.kind), (d.terminal_a, d.terminal_b), spec_two_term_roles(d.kind))
        &&& !gd.is_mos
    } by {
        let d = ext.two_terminal@[j];
        let gd = g.devs@[nd + nb + j];
        assert(dev_wf(gd, g.net_count as nat));
        assert(node2(gd, names, tt_seed(d.kind), (d.terminal_a, d.terminal_b), spec_two_term_roles(d.kind)));
    }
}

pub open spec fn views(s: Seq<String>) -> Seq<Seq<char>> {
    s.map_values(|x: String| x@)
}

/// `g` (with local net names `names`) is the comparison graph of `reference`.
pub open spec fn ref_graph(reference: RefNetlist, strict: bool, g: TopoGraph, names: Seq<Seq<char>>) -> bool {
    let nd = reference.devices@.len();
    let nb = reference.ref_bjt@.len();
    let nt = reference.ref_two_terminal@.len();
    &&& g.devs@.len() == nd + nb + nt
    &&& g.net_count == names.len()
    &&& names.no_duplicates()
    &&& graph_wf(g)
    &&& forall|i: int| 0 <= i < nd ==> {
        let d = #[trigger] reference.devices@[i];
        let gd = g.devs@[i];
        &&& node3(gd, names, ref_mos_seed(d.kind, d.flavor), (d.gate@, d.source@, d.drain@),
                 (ROLE_GATE, sd_roles(strict).0, sd_roles(strict).1))
        &&& gd.orig_idx == i && gd.is_mos
    }
    &&& forall|j: int| 0 <= j < nb ==> {
        let d = #[trigger] reference.ref_bjt@[j];
        let gd = g.devs@[nd + j];
        &&& node3(gd, names, spec_bjt_kind_tag(d.kind), (d.collector@, d.base@, d.emitter@),
                 (ROLE_COLLECTOR, ROLE_BASE, ROLE_EMITTER))
        &&& !gd.is_mos
    }
    &&& forall|j: int| 0 <= j < nt ==> {
        let d = #[trigger] reference.ref_two_terminal@[j];
        let gd = g.devs@[nd + nb + j];
        &&& node2(gd, names, tt_seed(d.kind), (d.terminal_a@, d.terminal_b@), spec_two_term_roles(d.kind))
        &&& !gd.is_mos
    }
}

/// Dense local id of layout net `n`, appending it on first sight.
fn local_net(names: &mut Vec<u32>, n: u32) -> (id: usize)
    requires
        old(names)@.no_duplicates(),
    ensures
        final(names)@.no_duplicates(),
        id < final(names)@.len(),
        final(names)@[id as int] == n,
        old(names)@.contains(n) ==> final(names)@ == old(names)@,
        !old(names)@.contains(n) ==> final(names)@ == old(names)@.push(n),
{
    let mut k: usize = 0;
    while k < names.len()
        invariant
            k <= names@.len(),
            names@ == old(names)@,
            names@.no_duplicates(),
            forall|j: int| 0 <= j < k ==> names@[j] != n,
        decreases names@.len() - k,
    {
        if names[k] == n {
            return k;
        }
        k = k + 1;
    }
    names.push(n);
    proof {
        assert(!old(names)@.contains(n));
        assert forall|i: int, j: int| 0 <= i < j < names@.len() implies names@[i] != names@[j] by {
            if j == names@.len() - 1 {
                assert(names@[j] == n);
            } else {
                assert(names@[i] == old(names)@[i] && names@[j] == old(names)@[j]);
            }
        }
    }
    k
}

/// Dense local id of reference net `n`, appending it on first sight.
fn local_ref_net(names: &mut Vec<String>, n: &String) -> (id: usize)
    requires
        views(old(names)@).no_duplicates(),
    ensures
        views(final(names)@).no_duplicates(),
        id < final(names)@.len(),
        views(final(names)@)[id as int] == n@,
        views(old(names)@).contains(n@) ==> views(final(names)@) == views(old(names)@),
        !views(old(names)@).contains(n@) ==> views(final(names)@) == views(old(names)@).push(n@),
{
    let mut k: usize = 0;
    while k < names.len()
        invariant
            k <= names@.len(),
            names@ == old(names)@,
            views(names@).no_duplicates(),
            forall|j: int| 0 <= j < k ==> names@[j]@ != n@,
        decreases names@.len() - k,
    {
        if names[k] == *n {
            assert(views(names@)[k as int] == n@);
            return k;
        }
        k = k + 1;
    }
    let ghost old_views = views(names@);
    names.push(n.clone());
    proof {
        assert(views(names@) =~= old_views.push(n@));
        assert(!old_views.contains(n@)) by {
            if old_views.contains(n@) {
                let j = choose|j: int| 0 <= j < old_views.len() && old_views[j] == n@;
                assert(names@[j]@ == n@);
            }
        }
        let nv = views(names@);
        assert forall|i: int, j: int| 0 <= i < j < nv.len() implies nv[i] != nv[j] by {
            if j == nv.len() - 1 {
                assert(nv[j] == n@);
                assert(old_views[i] == nv[i]);
            } else {
                assert(old_views[i] == nv[i] && old_views[j] == nv[j]);
            }
        }
    }
    k
}

/// DMOS devices seed a class of their own.
fn device_is_dmos(c: &Option<String>) -> (b: bool)
    ensures
        b == is_dmos(*c),
{
    match c {
        Some(s) => {
            let dmos = String::from_str("dmos");
            *s == dmos
        },
        None => false,
    }
}

proof fn lemma_names_grow<N>(old_names: Seq<N>, new_names: Seq<N>, n: N)
    requires
        old_names.contains(n) ==> new_names == old_names,
        !old_names.contains(n) ==> new_names == old_names.push(n),
    ensures
        old_names.len() <= new_names.len(),
        forall|k: int| 0 <= k < old_names.len() ==> new_names[k] == old_names[k],
{
}

/// Comparison graph of an extracted netlist, with the layout net id of each
/// local net.
pub fn graph_from_extracted(ext: &ExtractedNetlist, strict: bool) -> (r: (TopoGraph, Vec<u32>))
    ensures
        ext_graph(*ext, strict, r.0, r.1@),
{
    let mut names: Vec<u32> = Vec::new();
    let mut devs: Vec<GraphDev> = Vec::new();
    let nd = ext.devices.len();
    let nb = ext.bjt_devices.len();
    let (sr, dr) = if strict { (ROLE_SOURCE, ROLE_DRAIN) } else { (ROLE_SD, ROLE_SD) };
    let mut i: usize = 0;
    while i < nd
        invariant
            nd == ext.devices@.len(),
            i <= nd,
            devs@.len() == i,
            names@.no_duplicates(),
            (sr, dr) == sd_roles(strict),
            forall|k: int| 0 <= k < i ==> dev_wf(#[trigger] devs@[k], names@.len()),
            forall|k: int| 0 <= k < i ==> {
                let d = #[trigger] ext.devices@[k];
                let gd = devs@[k];
                &&& node3(gd, names@, mos_seed(d), (d.gate, d.source, d.drain), (ROLE_GATE, sr, dr))
                &&& gd.orig_idx == k && gd.is_mos
            },
        decreases nd - i,
    {
        let d = &ext.devices[i];
        let ghost n0 = names@;
        let g = local_net(&mut names, d.gate);
        let ghost n1 = names@;
        let s = local_net(&mut names, d.source);
        let ghost n2 = names@;
        let t = local_net(&mut names, d.drain);
        proof {
            lemma_names_grow(n0, n1, d.gate);
            lemma_names_grow(n1, n2, d.source);
            lemma_names_grow(n2, names@, d.drain);
        }
        let mut seed = kind_tag(&d.kind) * 3 + flavor_tag(&d.flavor);
        if device_is_dmos(&d.device_class) {
            seed = seed + 20;
        }
        let gd = GraphDev {
            seed,
            nets: vec![g, s, t],
            roles: vec![ROLE_GATE, sr, dr],
            orig_idx: i,
            is_mos: true,
        };
        assert(gd.roles@ =~= seq![ROLE_GATE, sr, dr]);
        devs.push(gd);
        i = i + 1;
    }
    let mut j: usize = 0;
    while j < nb
        invariant
            nd == ext.devices@.len(),
            nb == ext.bjt_devices@.len(),
            j <= nb,
            devs@.len() == nd + j,
            names@.no_duplicates(),
            (sr, dr) == sd_roles(strict),
            forall|k: int| 0 <= k < nd + j ==> dev_wf(#[trigger] devs@[k], names@.len()),
            forall|k: int| 0 <= k < nd ==> {
                let d = #[trigger] ext.devices@[k];
                let gd = devs@[k];
                &&& node3(gd, names@, mos_seed(d), (d.gate, d.source, d.drain), (ROLE_GATE, sr, dr))
                &&& gd.orig_idx == k && gd.is_mos
            },
            forall|k: int| 0 <= k < j ==> {
                let d = #[trigger] ext.bjt_devices@[k];
                let gd = devs@[nd + k];
                &&& node3(gd, names@, spec_bjt_kind_tag(d.kind), (d.collector, d.base, d.emitter),
                         (ROLE_COLLECTOR, ROLE_BASE, ROLE_EMITTER))
                &&& !gd.is_mos
            },
        decreases nb - j,
    {
        let d = &ext.bjt_devices[j];
        let ghost n0 = names@;
        let c = local_net(&mut names, d.collector);
        let ghost n1 = names@;
        let b = local_net(&mut names, d.base);
        let ghost n2 = names@;
        let e = local_net(&mut names, d.emitter);
        proof {
            lemma_names_grow(n0, n1, d.collector);
            lemma_names_grow(n1, n2, d.base);
            lemma_names_grow(n2, names@, d.emitter);
        }
        let gd = GraphDev {
            seed: bjt_kind_tag(&d.kind),
            nets: vec![c, b, e],
            roles: vec![ROLE_COLLECTOR, ROLE_BASE, ROLE_EMITTER],
            orig_idx: 0,
            is_mos: false,
        };
        assert(gd.roles@ =~= seq![ROLE_COLLECTOR, ROLE_BASE, ROLE_EMITTER]);
        devs.push(gd);
        j = j + 1;
    }
    let nt = ext.two_terminal.len();
    let mut j: usize = 0;
    while j < nt
        invariant
            nd == ext.devices@.len(),
            nb == ext.bjt_devices@.len(),
            nt == ext.two_terminal@.len(),
            j <= nt,
            devs@.len() == nd + nb + j,
            names@.no_duplicates(),
            (sr, dr) == sd_roles(strict),
            forall|k: int| 0 <= k < nd + nb + j ==> dev_wf(#[trigger] devs@[k], names@.len()),
            forall|k: int| 0 <= k < nd ==> {
                let d = #[trigger] ext.devices@[k];
                let gd = devs@[k];
                &&& node3(gd, names@, mos_seed(d), (d.gate, d.source, d.drain), (ROLE_GATE, sr, dr))
                &&& gd.orig_idx == k && gd.is_mos
            },
            forall|k: int| 0 <= k < nb ==> {
                let d = #[trigger] ext.bjt_devices@[k];
                let gd = devs@[nd + k];
                &&& node3(gd, names@, spec_bjt_kind_tag(d.kind), (d.collector, d.base, d.emitter),
                         (ROLE_COLLECTOR, ROLE_BASE, ROLE_EMITTER))
                &&& !gd.is_mos
            },
            forall|k: int| 0 <= k < j ==> {
                let d = #[trigger] ext.two_terminal@[k];
                let gd = devs@[nd + nb + k];
                &&& node2(gd, names@, tt_seed(d.kind), (d.terminal_a, d.terminal_b), spec_two_term_roles(d.kind))
                &&& !gd.is_mos
            },
        decreases nt - j,
    {
        let d = &ext.two_terminal[j];
        let ghost n0 = names@;
        let a = local_net(&mut names, d.terminal_a);
        let ghost n1 = names@;
        let b = local_net(&mut names, d.terminal_b);
        proof {
            lemma_names_grow(n0, n1, d.terminal_a);
            lemma_names_grow(n1, names@, d.terminal_b);
        }
        let (ra, rb) = two_term_roles(&d.kind);
        let gd = GraphDev {
            seed: 100 + two_term_kind_tag(&d.kind) * 10,
            nets: vec![a, b],
            roles: vec![ra, rb],
            orig_idx: 0,
            is_mos: false,
        };
        assert(gd.roles@ =~= seq![ra, rb]);
        devs.push(gd);
        j = j + 1;
    }
    let net_count = names.len();
    (TopoGraph { devs, net_count }, names)
}


proof fn lemma_ref_names_grow(old_names: Seq<String>, new_names: Seq<String>, n: String)
    requires
        views(old_names).contains(n@) ==> views(new_names) == views(old_names),
        !views(old_names).contains(n@) ==> views(new_names) == views(old_names).push(n@),
    ensures
        views(old_names).len() <= views(new_names).len(),
        forall|k: int| 0 <= k < views(old_names).len() ==> views(new_names)[k] == views(old_names)[k],
{
}

/// Comparison graph of a reference netlist, with the reference net name of
/// each local net.
pub fn graph_from_reference(reference: &RefNetlist, strict: bool) -> (r: (TopoGraph, Vec<String>))
    ensures
        ref_graph(*reference, strict, r.0, views(r.1@)),
{
    let mut names: Vec<String> = Vec::new();
    let mut devs: Vec<GraphDev> = Vec::new();
    let nd = reference.devices.len();
    let nb = reference.ref_bjt.len();
    let (sr, dr) = if strict { (ROLE_SOURCE, ROLE_DRAIN) } else { (ROLE_SD, ROLE_SD) };
    assert(views(names@) =~= Seq::<Seq<char>>::empty());
    let mut i: usize = 0;
    while i < nd
        invariant
            nd == reference.devices@.len(),
            i <= nd,
            devs@.len() == i,
            views(names@).no_duplicates(),
            (sr, dr) == sd_roles(strict),
            forall|k: int| 0 <= k < i ==> dev_wf(#[trigger] devs@[k], names@.len()),
            forall|k: int| 0 <= k < i ==> {
                let d = #[trigger] reference.devices@[k];
                let gd = devs@[k];
                &&& node3(gd, views(names@), ref_mos_seed(d.kind, d.flavor), (d.gate@, d.source@, d.drain@),
                         (ROLE_GATE, sr, dr))
                &&& gd.orig_idx == k && gd.is_mos
            },
        decreases nd - i,
    {
        let d = &reference.devices[i];
        let ghost n0 = names@;
        let g = local_ref_net(&mut names, &d.gate);
        let ghost n1 = names@;
        let s = local_ref_net(&mut names, &d.source);
        let ghost n2 = names@;
        let t = local_ref_net(&mut names, &d.drain);
        proof {
            lemma_ref_names_grow(n0, n1, d.gate);
            lemma_ref_names_grow(n1, n2, d.source);
            lemma_ref_names_grow(n2, names@, d.drain);
        }
        let seed = kind_tag(&d.kind) * 3 + flavor_tag(&d.flavor);
        let gd = GraphDev {
            seed,
            nets: vec![g, s, t],
            roles: vec![ROLE_GATE, sr, dr],
            orig_idx: i,
            is_mos: true,
        };
        assert(gd.roles@ =~= seq![ROLE_GATE, sr, dr]);
        devs.push(gd);
        i = i + 1;
    }
    let mut j: usize = 0;
    while j < nb
        invariant
            nd == reference.devices@.len(),
            nb == reference.ref_bjt@.len(),
            j <= nb,
            devs@.len() == nd + j,
            views(names@).no_duplicates(),
            (sr, dr) == sd_roles(strict),
            forall|k: int| 0 <= k < nd + j ==> dev_wf(#[trigger] devs@[k], names@.len()),
            forall|k: int| 0 <= k < nd ==> {
                let d = #[trigger] reference.devices@[k];
                let gd = devs@[k];
                &&& node3(gd, views(names@), ref_mos_seed(d.kind, d.flavor), (d.gate@, d.source@, d.drain@),
                         (ROLE_GATE, sr, dr))
                &&& gd.orig_idx == k && gd.is_mos
            },
            forall|k: int| 0 <= k < j ==> {
                let d = #[trigger] reference.ref_bjt@[k];
                let gd = devs@[nd + k];
                &&& node3(gd, views(names@), spec_bjt_kind_tag(d.kind), (d.collector@, d.base@, d.emitter@),
                         (ROLE_COLLECTOR, ROLE_BASE, ROLE_EMITTER))
                &&& !gd.is_mos
            },
        decreases nb - j,
    {
        let d = &reference.ref_bjt[j];
        let ghost n0 = names@;
        let c = local_ref_net(&mut names, &d.collector);
        let ghost n1 = names@;
        let b = local_ref_net(&mut names, &d.base);
        let ghost n2 = names@;
        let e = local_ref_net(&mut names, &d.emitter);
        proof {
            lemma_ref_names_grow(n0, n1, d.collector);
            lemma_ref_names_grow(n1, n2, d.base);
            lemma_ref_names_grow(n2, names@, d.emitter);
        }
        let gd = GraphDev {
            seed: bjt_kind_tag(&d.kind),
            nets: vec![c, b, e],
            roles: vec![ROLE_COLLECTOR, ROLE_BASE, ROLE_EMITTER],
            orig_idx: 0,
            is_mos: false,
        };
        assert(gd.roles@ =~= seq![ROLE_COLLECTOR, ROLE_BASE, ROLE_EMITTER]);
        devs.push(gd);
        j = j + 1;
    }
    let nt = reference.ref_two_terminal.len();
    let mut j: usize = 0;
    while j < nt
        invariant
            nd == reference.devices@.len(),
            nb == reference.ref_bjt@.len(),
            nt == reference.ref_two_terminal@.len(),
            j <= nt,
            devs@.len() == nd + nb + j,
            views(names@).no_duplicates(),
            (sr, dr) == sd_roles(strict),
            forall|k: int| 0 <= k < nd + nb + j ==> dev_wf(#[trigger] devs@[k], names@.len()),
            forall|k: int| 0 <= k < nd ==> {
                let d = #[trigger] reference.devices@[k];
                let gd = devs@[k];
                &&& node3(gd, views(names@), ref_mos_seed(d.kind, d.flavor), (d.gate@, d.source@, d.drain@),
                         (ROLE_GATE, sr, dr))
                &&& gd.orig_idx == k && gd.is_mos
            },
            forall|k: int| 0 <= k < nb ==> {
                let d = #[trigger] reference.ref_bjt@[k];
                let gd = devs@[nd + k];
                &&& node3(gd, views(names@), spec_bjt_kind_tag(d.kind), (d.collector@, d.base@, d.emitter@),
                         (ROLE_COLLECTOR, ROLE_BASE, ROLE_EMITTER))
                &&& !gd.is_mos
            },
            forall|k: int| 0 <= k < j ==> {
                let d = #[trigger] reference.ref_two_terminal@[k];
                let gd = devs@[nd + nb + k];
                &&& node2(gd, views(names@), tt_seed(d.kind), (d.terminal_a@, d.terminal_b@), spec_two_term_roles(d.kind))
                &&& !gd.is_mos
            },
        decreases nt - j,
    {
        let d = &reference.ref_two_terminal[j];
        let ghost n0 = names@;
        let a = local_ref_net(&mut names, &d.terminal_a);
        let ghost n1 = names@;
        let b = local_ref_net(&mut names, &d.terminal_b);
        proof {
            lemma_ref_names_grow(n0, n1, d.terminal_a);
            lemma_ref_names_grow(n1, names@, d.terminal_b);
        }
        let (ra, rb) = two_term_roles(&d.kind);
        let gd = GraphDev {
            seed: 100 + two_term_kind_tag(&d.kind) * 10,
            nets: vec![a, b],
            roles: vec![ra, rb],
            orig_idx: 0,
            is_mos: false,
        };
        assert(gd.roles@ =~= seq![ra, rb]);
        devs.push(gd);
        j = j + 1;
    }
    let net_count = names.len();
    (TopoGraph { devs, net_count }, names)
}


// --- hashing ---

/// Wrapping sum over the first `k` pins of `d` of `pin_magic[role] ^ class_magic[net class]`.
pub open spec fn dev_hash_upto(d: GraphDev, ncls: Seq<u64>, pm: Seq<u64>, cm: Seq<u64>, k: int) -> u64
    decreases k,
{
    if k <= 0 {
        0
    } else {
        dev_hash_upto(d, ncls, pm, cm, k - 1).wrapping_add(
            pm[d.roles@[k - 1] as int] ^ cm[ncls[d.nets@[k - 1] as int] as int],
        )
    }
}

pub open spec fn dev_hash(d: GraphDev, ncls: Seq<u64>, pm: Seq<u64>, cm: Seq<u64>) -> u64 {
    dev_hash_upto(d, ncls, pm, cm, d.nets@.len() as int)
}

/// All classes of `cls` are allocated in the magic table of length `bound`.
pub open spec fn classes_below(cls: Seq<u64>, bound: nat) -> bool {
    forall|i: int| 0 <= i < cls.len() ==> (#[trigger] cls[i] as int) < bound
}

/// Device hashes from the current net classes.
fn compute_dev_hashes(g: &TopoGraph, ncls: &Vec<u64>, pm: &Vec<u64>, cm: &Vec<u64>) -> (r: Vec<u64>)
    requires
        graph_wf(*g),
        ncls@.len() == g.net_count,
        pm@.len() == NUM_ROLES,
        classes_below(ncls@, cm@.len()),
    ensures
        r@.len() == g.devs@.len(),
        forall|i: int| 0 <= i < r@.len() ==> #[trigger] r@[i] == dev_hash(g.devs@[i], ncls@, pm@, cm@),
{
    let mut r: Vec<u64> = Vec::new();
    let mut i: usize = 0;
    while i < g.devs.len()
        invariant
            graph_wf(*g),
            ncls@.len() == g.net_count,
            pm@.len() == NUM_ROLES,
            classes_below(ncls@, cm@.len()),
            i <= g.devs@.len(),
            r@.len() == i,
            forall|k: int| 0 <= k < i ==> #[trigger] r@[k] == dev_hash(g.devs@[k], ncls@, pm@, cm@),
        decreases g.devs@.len() - i,
    {
        let d = &g.devs[i];
        assert(dev_wf(*d, g.net_count as nat));
        let mut h: u64 = 0;
        let mut k: usize = 0;
        while k < d.nets.len()
            invariant
                dev_wf(*d, g.net_count as nat),
                ncls@.len() == g.net_count,
                pm@.len() == NUM_ROLES,
                classes_below(ncls@, cm@.len()),
                k <= d.nets@.len(),
                h == dev_hash_upto(*d, ncls@, pm@, cm@, k as int),
            decreases d.nets@.len() - k,
        {
            let net = d.nets[k];
            let role = d.roles[k];
            assert((d.nets@[k as int] as int) < g.net_count);
            let nc = ncls[net];
            assert((ncls@[net as int] as int) < cm@.len());
            assert((nc as int) < cm@.len());
            assert(nc < cm.len());
            let ci = nc as usize;
            assert(ci as int == nc as int);
            let term = pm[role as usize] ^ cm[ci];
            assert(term == pm@[d.roles@[k as int] as int] ^ cm@[ncls@[d.nets@[k as int] as int] as int]);
            h = h.wrapping_add(term);
            k = k + 1;
        }
        r.push(h);
        i = i + 1;
    }
    r
}

/// Wrapping sum over the first `k` pins of `d` that sit on net `n`.
pub open spec fn pins_acc(h: u64, d: GraphDev, m: u64, pm: Seq<u64>, n: int, k: int) -> u64
    decreases k,
{
    if k <= 0 {
        h
    } else {
        let h1 = pins_acc(h, d, m, pm, n, k - 1);
        if d.nets@[k - 1] as int == n {
            h1.wrapping_add(pm[d.roles@[k - 1] as int] ^ m)
        } else {
            h1
        }
    }
}

/// Wrapping sum over the terminals of the first `i` devices on net `n`.
pub open spec fn net_acc(g: TopoGraph, dcls: Seq<u64>, pm: Seq<u64>, cm: Seq<u64>, i: int, n: int) -> u64
    decreases i,
{
    if i <= 0 {
        0
    } else {
        pins_acc(net_acc(g, dcls, pm, cm, i - 1, n), g.devs@[i - 1], cm[dcls[i - 1] as int], pm, n,
            g.devs@[i - 1].nets@.len() as int)
    }
}

/// Some pin of the first `i` devices lies on net `n`.
pub open spec fn net_touched(g: TopoGraph, i: int, n: int) -> bool {
    exists|j: int, k: int| 0 <= j < i && 0 <= k < g.devs@[j].nets@.len() && #[trigger] g.devs@[j].nets@[k] as int == n
}

/// Net hash: sum over incident terminals, or the all-ones sentinel for a net
/// without terminals.
pub open spec fn net_hash(g: TopoGraph, dcls: Seq<u64>, pm: Seq<u64>, cm: Seq<u64>, n: int) -> u64 {
    if net_touched(g, g.devs@.len() as int, n) {
        net_acc(g, dcls, pm, cm, g.devs@.len() as int, n)
    } else {
        u64::MAX
    }
}

/// Net hashes from the current device classes.
fn compute_net_hashes(g: &TopoGraph, dcls: &Vec<u64>, pm: &Vec<u64>, cm: &Vec<u64>) -> (r: Vec<u64>)
    requires
        graph_wf(*g),
        dcls@.len() == g.devs@.len(),
        pm@.len() == NUM_ROLES,
        classes_below(dcls@, cm@.len()),
    ensures
        r@.len() == g.net_count,
        forall|n: int| 0 <= n < r@.len() ==> #[trigger] r@[n] == net_hash(*g, dcls@, pm@, cm@, n),
{
    let nc = g.net_count;
    let mut hashes: Vec<u64> = vec![0u64; nc];
    let mut has_term: Vec<bool> = vec![false; nc];
    let mut di: usize = 0;
    while di < g.devs.len()
        invariant
            graph_wf(*g),
            nc == g.net_count,
            dcls@.len() == g.devs@.len(),
            pm@.len() == NUM_ROLES,
            classes_below(dcls@, cm@.len()),
            di <= g.devs@.len(),
            hashes@.len() == nc,
            has_term@.len() == nc,
            forall|n: int| 0 <= n < nc ==> #[trigger] hashes@[n] == net_acc(*g, dcls@, pm@, cm@, di as int, n),
            forall|n: int| 0 <= n < nc ==> #[trigger] has_term@[n] == net_touched(*g, di as int, n),
        decreases g.devs@.len() - di,
    {
        let d = &g.devs[di];
        assert(dev_wf(*d, nc as nat));
        let dc = dcls[di];
        assert((dcls@[di as int] as int) < cm@.len());
        assert(dc < cm.len());
        let dci = dc as usize;
        assert(dci as int == dc as int);
        let m = cm[dci];
        assert(m == cm@[dcls@[di as int] as int]);
        let ghost base = hashes@;
        let ghost base_t = has_term@;
        let mut k: usize = 0;
        while k < d.nets.len()
            invariant
                dev_wf(*d, nc as nat),
                nc == g.net_count,
                pm@.len() == NUM_ROLES,
                k <= d.nets@.len(),
                hashes@.len() == nc,
                has_term@.len() == nc,
                base.len() == nc,
                base_t.len() == nc,
                forall|n: int| 0 <= n < nc ==> #[trigger] hashes@[n] == pins_acc(base[n], *d, m, pm@, n, k as int),
                forall|n: int| 0 <= n < nc ==> #[trigger] has_term@[n] == (base_t[n] || exists|k2: int|
                    0 <= k2 < k && d.nets@[k2] as int == n),
            decreases d.nets@.len() - k,
        {
            let net = d.nets[k];
            let role = d.roles[k];
            let term = pm[role as usize] ^ m;
            let hv = hashes[net].wrapping_add(term);
            hashes.set(net, hv);
            has_term.set(net, true);
            proof {
                assert forall|n: int| 0 <= n < nc implies #[trigger] hashes@[n] == pins_acc(base[n], *d, m, pm@, n, k + 1) by {
                }
                assert forall|n: int| 0 <= n < nc implies #[trigger] has_term@[n] == (base_t[n] || exists|k2: int|
                    0 <= k2 < k + 1 && d.nets@[k2] as int == n) by {
                    if n == net as int {
                        assert(d.nets@[k as int] as int == n);
                    }
                }
            }
            k = k + 1;
        }
        proof {
            assert forall|n: int| 0 <= n < nc implies #[trigger] hashes@[n] == net_acc(*g, dcls@, pm@, cm@, di + 1, n) by {
                assert(g.devs@[di as int] == *d);
                assert(base[n] == net_acc(*g, dcls@, pm@, cm@, di as int, n));
                assert(net_acc(*g, dcls@, pm@, cm@, di + 1, n) == pins_acc(net_acc(*g, dcls@, pm@, cm@, di as int, n),
                    *d, m, pm@, n, d.nets@.len() as int));
            }
            assert forall|n: int| 0 <= n < nc implies #[trigger] has_term@[n] == net_touched(*g, di + 1, n) by {
                assert(g.devs@[di as int] == *d);
                if has_term@[n] {
                    if base_t[n] {
                        let (j, k2) = choose|j: int, k2: int| 0 <= j < di && 0 <= k2 < g.devs@[j].nets@.len()
                            && #[trigger] g.devs@[j].nets@[k2] as int == n;
                        assert(0 <= j < di + 1);
                    } else {
                        let k2 = choose|k2: int| 0 <= k2 < d.nets@.len() && d.nets@[k2] as int == n;
                        assert(g.devs@[di as int].nets@[k2] as int == n);
                    }
                }
                if net_touched(*g, di + 1, n) {
                    let (j, k2) = choose|j: int, k2: int| 0 <= j < di + 1 && 0 <= k2 < g.devs@[j].nets@.len()
                        && #[trigger] g.devs@[j].nets@[k2] as int == n;
                    if j < di {
                        assert(net_touched(*g, di as int, n));
                    } else {
                        assert(d.nets@[k2] as int == n);
                    }
                }
            }
        }
        di = di + 1;
    }
    let mut n: usize = 0;
    while n < nc
        invariant
            nc == g.net_count,
            n <= nc,
            hashes@.len() == nc,
            has_term@.len() == nc,
            forall|j: int| 0 <= j < nc ==> #[trigger] has_term@[j] == net_touched(*g, g.devs@.len() as int, j),
            forall|j: int| n <= j < nc ==> #[trigger] hashes@[j] == net_acc(*g, dcls@, pm@, cm@, g.devs@.len() as int, j),
            forall|j: int| 0 <= j < n ==> #[trigger] hashes@[j] == net_hash(*g, dcls@, pm@, cm@, j),
        decreases nc - n,
    {
        if !has_term[n] {
            hashes.set(n, u64::MAX);
        }
        n = n + 1;
    }
    hashes
}


// --- class fracturing ---

pub open spec fn has_pair(t: Seq<(u64, u64, u64)>, o: u64, hh: u64) -> bool {
    exists|k: int| 0 <= k < t.len() && (#[trigger] t[k]).0 == o && t[k].1 == hh
}

pub open spec fn has_class(t: Seq<(u64, u64, u64)>, o: u64) -> bool {
    exists|k: int| 0 <= k < t.len() && (#[trigger] t[k]).0 == o
}

/// Split table invariant: `(old class, hash) -> new class` is injective; a new
/// class is either the old class kept by its first hash group or a fresh id.
pub open spec fn tbl_ok(t: Seq<(u64, u64, u64)>, old_len: nat, cm_len: nat) -> bool {
    &&& old_len <= cm_len
    &&& forall|k: int| 0 <= k < t.len() ==> ((#[trigger] t[k]).0 as int) < old_len
    &&& forall|k: int| 0 <= k < t.len() ==> (#[trigger] t[k]).2 == t[k].0 || (old_len <= t[k].2 && t[k].2 < cm_len)
    &&& forall|k1: int, k2: int| 0 <= k1 < t.len() && 0 <= k2 < t.len() && k1 != k2 ==>
        ((#[trigger] t[k1]).0 != (#[trigger] t[k2]).0 || t[k1].1 != t[k2].1)
    &&& forall|k1: int, k2: int| 0 <= k1 < t.len() && 0 <= k2 < t.len() && k1 != k2 ==>
        (#[trigger] t[k1]).2 != (#[trigger] t[k2]).2
}

/// The table records exactly the processed elements `0..p`.
pub open spec fn covers(t: Seq<(u64, u64, u64)>, oa: Seq<u64>, h: Seq<u64>, cur: Seq<u64>, p: int) -> bool {
    &&& forall|e: int| #![trigger cur[e]] 0 <= e < p ==> exists|k: int| 0 <= k < t.len() && #[trigger] t[k] == (oa[e], h[e], cur[e])
    &&& forall|k: int| 0 <= k < t.len() ==> exists|e: int| 0 <= e < p && #[trigger] oa[e] == (#[trigger] t[k]).0 && h[e] == t[k].1
}

/// Some class among elements `0..p` holds two different hashes.
pub open spec fn split_seen(oa: Seq<u64>, h: Seq<u64>, p: int) -> bool {
    exists|e1: int, e2: int| 0 <= e1 < p && 0 <= e2 < p && #[trigger] oa[e1] == #[trigger] oa[e2] && h[e1] != h[e2]
}

/// New class of an element of old class `o` with hash `hh`: the recorded one,
/// the old class for the first hash group of the class, else a fresh class
/// (then the flag is set).
fn classify(table: &mut Vec<(u64, u64, u64)>, o: u64, hh: u64, cm: &mut Vec<u64>, rng: &mut Rng) -> (r: (u64, bool))
    ensures
        r.1 == (!has_pair(old(table)@, o, hh) && has_class(old(table)@, o)),
        has_pair(old(table)@, o, hh) ==> {
            &&& final(table)@ == old(table)@
            &&& final(cm)@ == old(cm)@
            &&& exists|k: int| 0 <= k < old(table)@.len() && #[trigger] old(table)@[k] == (o, hh, r.0)
        },
        !has_pair(old(table)@, o, hh) && has_class(old(table)@, o) ==> {
            &&& final(table)@ == old(table)@.push((o, hh, r.0))
            &&& r.0 as int == old(cm)@.len()
            &&& final(cm)@.len() == old(cm)@.len() + 1
            &&& forall|i: int| 0 <= i < old(cm)@.len() ==> final(cm)@[i] == old(cm)@[i]
        },
        !has_class(old(table)@, o) ==> {
            &&& final(table)@ == old(table)@.push((o, hh, o))
            &&& r.0 == o
            &&& final(cm)@ == old(cm)@
        },
        drawn_after(old(cm)@, old(rng).state, final(cm)@, final(rng).state),
{
    proof {
        lemma_drawn_refl(cm@, rng.state);
    }
    let mut k: usize = 0;
    let mut class_seen = false;
    while k < table.len()
        invariant
            k <= table@.len(),
            table@ == old(table)@,
            cm@ == old(cm)@,
            forall|j: int| 0 <= j < k ==> !((#[trigger] table@[j]).0 == o && table@[j].1 == hh),
            class_seen == exists|j: int| 0 <= j < k && (#[trigger] table@[j]).0 == o,
        decreases table@.len() - k,
    {
        let (a, b, c) = table[k];
        if a == o && b == hh {
            assert(table@[k as int] == (o, hh, c));
            return (c, false);
        }
        if a == o {
            class_seen = true;
        }
        k = k + 1;
    }
    assert(!has_pair(old(table)@, o, hh));
    if class_seen {
        let fresh = cm.len() as u64;
        let magic = rng.next();
        cm.push(magic);
        proof {
            lemma_drawn_push(old(cm)@, old(rng).state);
        }
        table.push((o, hh, fresh));
        (fresh, true)
    } else {
        table.push((o, hh, o));
        (o, false)
    }
}

proof fn lemma_push_covers(t: Seq<(u64, u64, u64)>, t2: Seq<(u64, u64, u64)>, oa: Seq<u64>, h: Seq<u64>,
    cur: Seq<u64>, cur2: Seq<u64>, p: int)
    requires
        0 <= p < oa.len(),
        oa.len() == h.len(),
        cur.len() == oa.len(),
        cur2 == cur.update(p, cur2[p]),
        t2 == t.push((oa[p], h[p], cur2[p])),
        covers(t, oa, h, cur, p),
    ensures
        covers(t2, oa, h, cur2, p + 1),
{
    assert forall|e: int| #![trigger cur2[e]] 0 <= e < p + 1 implies exists|k2: int| 0 <= k2 < t2.len() && #[trigger] t2[k2] == (oa[e], h[e], cur2[e]) by {
        if e == p {
            assert(t2[t.len() as int] == (oa[e], h[e], cur2[e]));
        } else {
            assert(cur2[e] == cur[e]);
            let k2 = choose|k2: int| 0 <= k2 < t.len() && #[trigger] t[k2] == (oa[e], h[e], cur[e]);
            assert(t2[k2] == t[k2]);
        }
    }
    assert forall|k2: int| 0 <= k2 < t2.len() implies exists|e: int| 0 <= e < p + 1 && #[trigger] oa[e] == (#[trigger] t2[k2]).0 && h[e] == t2[k2].1 by {
        if k2 < t.len() {
            assert(t2[k2] == t[k2]);
            let e = choose|e: int| 0 <= e < p && #[trigger] oa[e] == (#[trigger] t[k2]).0 && h[e] == t[k2].1;
        } else {
            assert(oa[p] == t2[k2].0 && h[p] == t2[k2].1);
        }
    }
}

proof fn lemma_fracture_step(
    t: Seq<(u64, u64, u64)>, t2: Seq<(u64, u64, u64)>,
    oa: Seq<u64>, h: Seq<u64>, cur: Seq<u64>, cur2: Seq<u64>, p: int,
    old_len: nat, cm_len: nat, cm_len2: nat, nw: u64, changed: bool, changed2: bool,
)
    requires
        0 <= p < oa.len(),
        oa.len() == h.len(),
        cur.len() == oa.len(),
        (oa[p] as int) < old_len,
        tbl_ok(t, old_len, cm_len),
        covers(t, oa, h, cur, p),
        changed == split_seen(oa, h, p),
        cur2 == cur.update(p, nw),
        has_pair(t, oa[p], h[p]) ==> {
            &&& t2 == t && cm_len2 == cm_len && changed2 == changed
            &&& exists|k: int| 0 <= k < t.len() && #[trigger] t[k] == (oa[p], h[p], nw)
        },
        !has_pair(t, oa[p], h[p]) && has_class(t, oa[p]) ==> {
            &&& t2 == t.push((oa[p], h[p], nw))
            &&& nw as int == cm_len && cm_len2 == cm_len + 1
            &&& changed2
        },
        !has_class(t, oa[p]) ==> {
            &&& t2 == t.push((oa[p], h[p], oa[p]))
            &&& nw == oa[p] && cm_len2 == cm_len && changed2 == changed
        },
    ensures
        tbl_ok(t2, old_len, cm_len2),
        covers(t2, oa, h, cur2, p + 1),
        changed2 == split_seen(oa, h, p + 1),
{
    let o = oa[p];
    let hh = h[p];
    if has_pair(t, o, hh) {
        let k = choose|k: int| 0 <= k < t.len() && #[trigger] t[k] == (o, hh, nw);
        assert forall|e: int| #![trigger cur2[e]] 0 <= e < p + 1 implies exists|k2: int| 0 <= k2 < t2.len() && #[trigger] t2[k2] == (oa[e], h[e], cur2[e]) by {
            if e == p {
                assert(t2[k] == (oa[e], h[e], cur2[e]));
            } else {
                assert(cur2[e] == cur[e]);
            }
        }
        assert forall|k2: int| 0 <= k2 < t2.len() implies exists|e: int| 0 <= e < p + 1 && #[trigger] oa[e] == (#[trigger] t2[k2]).0 && h[e] == t2[k2].1 by {
            let e = choose|e: int| 0 <= e < p && #[trigger] oa[e] == (#[trigger] t[k2]).0 && h[e] == t[k2].1;
        }
        assert(covers(t2, oa, h, cur2, p + 1));
        if split_seen(oa, h, p + 1) {
            let (e1, e2) = choose|e1: int, e2: int| 0 <= e1 < p + 1 && 0 <= e2 < p + 1 && #[trigger] oa[e1] == #[trigger] oa[e2] && h[e1] != h[e2];
            if e1 < p && e2 < p {
                assert(split_seen(oa, h, p));
            } else {
                let other = if e1 == p { e2 } else { e1 };
                assert(other < p);
                let k2 = choose|k2: int| 0 <= k2 < t.len() && #[trigger] t[k2] == (oa[other], h[other], cur[other]);
                let e0 = choose|e0: int| 0 <= e0 < p && #[trigger] oa[e0] == (#[trigger] t[k]).0 && h[e0] == t[k].1;
                assert(oa[e0] == oa[other] && h[e0] != h[other]);
                assert(split_seen(oa, h, p));
            }
        }
    } else if has_class(t, o) {
        let kc = choose|k: int| 0 <= k < t.len() && (#[trigger] t[k]).0 == o;
        assert forall|k1: int, k2: int| 0 <= k1 < t2.len() && 0 <= k2 < t2.len() && k1 != k2 implies
            (#[trigger] t2[k1]).2 != (#[trigger] t2[k2]).2 by {
            if k1 < t.len() && k2 < t.len() {
                assert(t2[k1] == t[k1] && t2[k2] == t[k2]);
            } else if k1 < t.len() {
                assert(t2[k1] == t[k1]);
            } else {
                assert(t2[k2] == t[k2]);
            }
        }
        assert forall|k1: int, k2: int| 0 <= k1 < t2.len() && 0 <= k2 < t2.len() && k1 != k2 implies
            ((#[trigger] t2[k1]).0 != (#[trigger] t2[k2]).0 || t2[k1].1 != t2[k2].1) by {
            if k1 < t.len() && k2 < t.len() {
                assert(t2[k1] == t[k1] && t2[k2] == t[k2]);
            } else if k1 < t.len() {
                assert(t2[k1] == t[k1]);
            } else {
                assert(t2[k2] == t[k2]);
            }
        }
        lemma_push_covers(t, t2, oa, h, cur, cur2, p);
        assert(covers(t2, oa, h, cur2, p + 1));
        let e0 = choose|e0: int| 0 <= e0 < p && #[trigger] oa[e0] == (#[trigger] t[kc]).0 && h[e0] == t[kc].1;
        assert(h[e0] != hh);
        assert(oa[e0] == oa[p]);
        assert(split_seen(oa, h, p + 1));
    } else {
        assert forall|k1: int, k2: int| 0 <= k1 < t2.len() && 0 <= k2 < t2.len() && k1 != k2 implies
            (#[trigger] t2[k1]).2 != (#[trigger] t2[k2]).2 by {
            if k1 < t.len() && k2 < t.len() {
                assert(t2[k1] == t[k1] && t2[k2] == t[k2]);
            } else if k1 < t.len() {
                assert(t2[k1] == t[k1]);
            } else {
                assert(t2[k2] == t[k2]);
            }
        }
        assert forall|k1: int, k2: int| 0 <= k1 < t2.len() && 0 <= k2 < t2.len() && k1 != k2 implies
            ((#[trigger] t2[k1]).0 != (#[trigger] t2[k2]).0 || t2[k1].1 != t2[k2].1) by {
            if k1 < t.len() && k2 < t.len() {
                assert(t2[k1] == t[k1] && t2[k2] == t[k2]);
            } else if k1 < t.len() {
                assert(t2[k1] == t[k1]);
            } else {
                assert(t2[k2] == t[k2]);
            }
        }
        lemma_push_covers(t, t2, oa, h, cur, cur2, p);
        assert(covers(t2, oa, h, cur2, p + 1));
        if split_seen(oa, h, p + 1) {
            let (e1, e2) = choose|e1: int, e2: int| 0 <= e1 < p + 1 && 0 <= e2 < p + 1 && #[trigger] oa[e1] == #[trigger] oa[e2] && h[e1] != h[e2];
            if e1 < p && e2 < p {
                assert(split_seen(oa, h, p));
            } else {
                let other = if e1 == p { e2 } else { e1 };
                assert(other < p);
                let k2 = choose|k2: int| 0 <= k2 < t.len() && #[trigger] t[k2] == (oa[other], h[other], cur[other]);
                assert(t[k2].0 == o);
                assert(false);
            }
        }
    }
}

/// Joint split of the classes of two element lists (layout first, then
/// reference) by their hashes.
pub open spec fn refines_by(oa: Seq<u64>, h: Seq<u64>, na: Seq<u64>, old_len: nat) -> bool {
    &&& na.len() == oa.len()
    &&& forall|e1: int, e2: int| 0 <= e1 < na.len() && 0 <= e2 < na.len() ==>
        (#[trigger] na[e1] == #[trigger] na[e2] <==> (oa[e1] == oa[e2] && h[e1] == h[e2]))
    &&& forall|e: int| 0 <= e < na.len() ==> #[trigger] na[e] == oa[e] || (na[e] as int) >= old_len
}

proof fn lemma_covers_refines(t: Seq<(u64, u64, u64)>, oa: Seq<u64>, h: Seq<u64>, na: Seq<u64>, old_len: nat, cm_len: nat)
    requires
        oa.len() == h.len(),
        na.len() == oa.len(),
        tbl_ok(t, old_len, cm_len),
        covers(t, oa, h, na, oa.len() as int),
    ensures
        refines_by(oa, h, na, old_len),
        classes_below(na, cm_len),
{
    assert forall|e1: int, e2: int| 0 <= e1 < na.len() && 0 <= e2 < na.len() implies
        (#[trigger] na[e1] == #[trigger] na[e2] <==> (oa[e1] == oa[e2] && h[e1] == h[e2])) by {
        let k1 = choose|k: int| 0 <= k < t.len() && #[trigger] t[k] == (oa[e1], h[e1], na[e1]);
        let k2 = choose|k: int| 0 <= k < t.len() && #[trigger] t[k] == (oa[e2], h[e2], na[e2]);
        if k1 != k2 {
            assert(t[k1].2 != t[k2].2);
            assert(t[k1].0 != t[k2].0 || t[k1].1 != t[k2].1);
        }
    }
    assert forall|e: int| 0 <= e < na.len() implies #[trigger] na[e] == oa[e] || (na[e] as int) >= old_len by {
        let k1 = choose|k: int| 0 <= k < t.len() && #[trigger] t[k] == (oa[e], h[e], na[e]);
    }
    assert forall|e: int| 0 <= e < na.len() implies (#[trigger] na[e] as int) < cm_len by {
        let k1 = choose|k: int| 0 <= k < t.len() && #[trigger] t[k] == (oa[e], h[e], na[e]);
    }
}

/// Splits the classes of both element lists jointly: two elements share a
/// class afterwards exactly when they shared one before and hash alike.
/// Returns whether any class was split.
fn fracture(
    cls_a: &mut Vec<u64>, hash_a: &Vec<u64>,
    cls_b: &mut Vec<u64>, hash_b: &Vec<u64>,
    cm: &mut Vec<u64>, rng: &mut Rng,
) -> (changed: bool)
    requires
        old(cls_a)@.len() == hash_a@.len(),
        old(cls_b)@.len() == hash_b@.len(),
        classes_below(old(cls_a)@ + old(cls_b)@, old(cm)@.len()),
    ensures
        final(cls_a)@.len() == old(cls_a)@.len(),
        final(cls_b)@.len() == old(cls_b)@.len(),
        refines_by(old(cls_a)@ + old(cls_b)@, hash_a@ + hash_b@, final(cls_a)@ + final(cls_b)@, old(cm)@.len()),
        classes_below(final(cls_a)@ + final(cls_b)@, final(cm)@.len()),
        old(cm)@.len() <= final(cm)@.len(),
        forall|i: int| 0 <= i < old(cm)@.len() ==> final(cm)@[i] == old(cm)@[i],
        changed == split_seen(old(cls_a)@ + old(cls_b)@, hash_a@ + hash_b@, (old(cls_a)@.len() + old(cls_b)@.len()) as int),
        !changed ==> final(cls_a)@ == old(cls_a)@ && final(cls_b)@ == old(cls_b)@ && final(cm)@ == old(cm)@,
        drawn_after(old(cm)@, old(rng).state, final(cm)@, final(rng).state),
{
    proof {
        lemma_drawn_refl(cm@, rng.state);
    }
    let ghost oa = old(cls_a)@ + old(cls_b)@;
    let ghost h = hash_a@ + hash_b@;
    let ghost old_len = old(cm)@.len();
    let ghost old_cm = old(cm)@;
    let la = cls_a.len();
    let lb = cls_b.len();
    let mut table: Vec<(u64, u64, u64)> = Vec::new();
    let mut changed = false;
    let mut i: usize = 0;
    while i < la
        invariant
            la == cls_a@.len(),
            lb == cls_b@.len(),
            la == hash_a@.len(),
            lb == hash_b@.len(),
            i <= la,
            old(cls_a)@.len() == la,
            old(cls_b)@.len() == lb,
            oa == old(cls_a)@ + old(cls_b)@,
            h == hash_a@ + hash_b@,
            cls_b@ == old(cls_b)@,
            old_len == old(cm)@.len(),
            old_cm == old(cm)@,
            classes_below(oa, old_len),
            forall|j: int| i <= j < la ==> cls_a@[j] == old(cls_a)@[j],
            tbl_ok(table@, old_len, cm@.len()),
            covers(table@, oa, h, cls_a@ + cls_b@, i as int),
            changed == split_seen(oa, h, i as int),
            forall|j: int| 0 <= j < old_len ==> cm@[j] == old_cm[j],
            !changed ==> cm@ == old_cm,
            !changed ==> forall|k: int| 0 <= k < table@.len() ==> (#[trigger] table@[k]).2 == table@[k].0,
            !changed ==> forall|j: int| 0 <= j < i ==> cls_a@[j] == old(cls_a)@[j],
            drawn_after(old(cm)@, old(rng).state, cm@, rng.state),
        decreases la - i,
    {
        let o = cls_a[i];
        let hh = hash_a[i];
        let ghost t = table@;
        let ghost cur = cls_a@ + cls_b@;
        let ghost cml = cm@.len();
        let ghost cm_before = cm@;
        let ghost st_before = rng.state;
        assert(oa[i as int] == o && h[i as int] == hh);
        assert((oa[i as int] as int) < old_len);
        let (nw, fresh) = classify(&mut table, o, hh, cm, rng);
        proof {
            lemma_drawn_trans(old(cm)@, old(rng).state, cm_before, st_before, cm@, rng.state);
            if !changed && !fresh {
                if has_pair(t, o, hh) {
                    let k = choose|k: int| 0 <= k < t.len() && #[trigger] t[k] == (o, hh, nw);
                    assert(t[k].2 == t[k].0);
                }
                assert(nw == o);
                assert forall|k: int| 0 <= k < table@.len() implies (#[trigger] table@[k]).2 == table@[k].0 by {
                    if k < t.len() {
                        assert(table@[k] == t[k]);
                    }
                }
            }
        }
        cls_a.set(i, nw);
        proof {
            assert(cls_a@ + cls_b@ =~= cur.update(i as int, nw));
            lemma_fracture_step(t, table@, oa, h, cur, cls_a@ + cls_b@, i as int, old_len, cml, cm@.len(),
                nw, changed, changed || fresh);
        }
        changed = changed || fresh;
        i = i + 1;
    }
    let mut j: usize = 0;
    while j < lb
        invariant
            la == cls_a@.len(),
            lb == cls_b@.len(),
            la == hash_a@.len(),
            lb == hash_b@.len(),
            j <= lb,
            old(cls_a)@.len() == la,
            old(cls_b)@.len() == lb,
            oa == old(cls_a)@ + old(cls_b)@,
            h == hash_a@ + hash_b@,
            old_len == old(cm)@.len(),
            old_cm == old(cm)@,
            classes_below(oa, old_len),
            forall|k: int| j <= k < lb ==> cls_b@[k] == old(cls_b)@[k],
            tbl_ok(table@, old_len, cm@.len()),
            covers(table@, oa, h, cls_a@ + cls_b@, la + j),
            changed == split_seen(oa, h, la + j),
            forall|k: int| 0 <= k < old_len ==> cm@[k] == old_cm[k],
            !changed ==> cm@ == old_cm,
            !changed ==> forall|k: int| 0 <= k < table@.len() ==> (#[trigger] table@[k]).2 == table@[k].0,
            !changed ==> cls_a@ == old(cls_a)@,
            !changed ==> forall|k: int| 0 <= k < j ==> cls_b@[k] == old(cls_b)@[k],
            drawn_after(old(cm)@, old(rng).state, cm@, rng.state),
        decreases lb - j,
    {
        let o = cls_b[j];
        let hh = hash_b[j];
        let ghost t = table@;
        let ghost cur = cls_a@ + cls_b@;
        let ghost cml = cm@.len();
        let ghost cm_before = cm@;
        let ghost st_before = rng.state;
        assert(oa[la + j] == o && h[la + j] == hh);
        assert((oa[la + j] as int) < old_len);
        let (nw, fresh) = classify(&mut table, o, hh, cm, rng);
        proof {
            lemma_drawn_trans(old(cm)@, old(rng).state, cm_before, st_before, cm@, rng.state);
            if !changed && !fresh {
                if has_pair(t, o, hh) {
                    let k = choose|k: int| 0 <= k < t.len() && #[trigger] t[k] == (o, hh, nw);
                    assert(t[k].2 == t[k].0);
                }
                assert(nw == o);
                assert forall|k: int| 0 <= k < table@.len() implies (#[trigger] table@[k]).2 == table@[k].0 by {
                    if k < t.len() {
                        assert(table@[k] == t[k]);
                    }
                }
            }
        }
        cls_b.set(j, nw);
        proof {
            assert(cls_a@ + cls_b@ =~= cur.update(la + j, nw));
            lemma_fracture_step(t, table@, oa, h, cur, cls_a@ + cls_b@, la + j, old_len, cml, cm@.len(),
                nw, changed, changed || fresh);
        }
        changed = changed || fresh;
        j = j + 1;
    }
    proof {
        lemma_covers_refines(table@, oa, h, cls_a@ + cls_b@, old_len, cm@.len());
        if !changed {
            assert(cls_a@ =~= old(cls_a)@);
            assert(cls_b@ =~= old(cls_b)@);
        }
    }
    changed
}


// --- class statistics ---

/// Number of elements of class `c`.
pub open spec fn occ(s: Seq<u64>, c: u64) -> nat
    decreases s.len(),
{
    if s.len() == 0 {
        0
    } else {
        occ(s.drop_last(), c) + (if s.last() == c { 1nat } else { 0nat })
    }
}

proof fn lemma_occ_pos(s: Seq<u64>, i: int)
    requires
        0 <= i < s.len(),
    ensures
        occ(s, s[i]) >= 1,
    decreases s.len(),
{
    if i < s.len() - 1 {
        lemma_occ_pos(s.drop_last(), i);
    }
}

proof fn lemma_occ_zero(s: Seq<u64>, c: u64)
    requires
        occ(s, c) == 0,
    ensures
        !s.contains(c),
    decreases s.len(),
{
    if s.len() > 0 {
        lemma_occ_zero(s.drop_last(), c);
        assert forall|i: int| 0 <= i < s.len() implies s[i] != c by {
            if i < s.len() - 1 {
                assert(s.drop_last()[i] == s[i]);
            }
        }
    }
}

proof fn lemma_occ_some(s: Seq<u64>, c: u64)
    requires
        occ(s, c) > 0,
    ensures
        exists|j: int| 0 <= j < s.len() && s[j] == c,
    decreases s.len(),
{
    if s.last() != c {
        lemma_occ_some(s.drop_last(), c);
        let j = choose|j: int| 0 <= j < s.drop_last().len() && s.drop_last()[j] == c;
        assert(s[j] == c);
    } else {
        assert(s[s.len() - 1] == c);
    }
}

/// A class with two members has a member other than `i0`.
proof fn lemma_occ_other(s: Seq<u64>, c: u64, i0: int)
    requires
        occ(s, c) > 1,
        0 <= i0 < s.len(),
        s[i0] == c,
    ensures
        exists|j: int| 0 <= j < s.len() && j != i0 && s[j] == c,
    decreases s.len(),
{
    let t = s.drop_last();
    if s.last() == c && i0 != s.len() - 1 {
        assert(s[s.len() - 1] == c);
    } else if s.last() == c {
        lemma_occ_some(t, c);
        let j = choose|j: int| 0 <= j < t.len() && t[j] == c;
        assert(s[j] == c);
    } else {
        assert(t[i0] == c);
        lemma_occ_other(t, c, i0);
        let j = choose|j: int| 0 <= j < t.len() && j != i0 && t[j] == c;
        assert(s[j] == c);
    }
}

/// Counts the elements of class `c`.
fn count_occ(v: &Vec<u64>, c: u64) -> (n: usize)
    ensures
        n == occ(v@, c),
{
    let mut n: usize = 0;
    let mut i: usize = 0;
    while i < v.len()
        invariant
            i <= v@.len(),
            n == occ(v@.take(i as int), c),
            n <= i,
        decreases v@.len() - i,
    {
        assert(v@.take(i as int + 1).drop_last() =~= v@.take(i as int));
        if v[i] == c {
            n = n + 1;
        }
        i = i + 1;
    }
    assert(v@.take(v@.len() as int) =~= v@);
    n
}

/// Class `c` has more than one member on both sides: the refinement could
/// not tell its members apart.
pub open spec fn ambiguous_class(a: Seq<u64>, b: Seq<u64>, c: u64) -> bool {
    occ(a, c) > 1 && occ(b, c) > 1
}

/// Number of distinct ambiguous classes among `a[0..i]`, each counted at its
/// first occurrence.
pub open spec fn amb_count(a: Seq<u64>, b: Seq<u64>, i: int) -> nat
    decreases i,
{
    if i <= 0 {
        0
    } else {
        amb_count(a, b, i - 1) + (if !a.take(i - 1).contains(a[i - 1]) && ambiguous_class(a, b, a[i - 1]) { 1nat } else { 0nat })
    }
}

/// Classes with more than one member in both graphs, devices and nets counted apart.
pub open spec fn ambiguity(da: Seq<u64>, db: Seq<u64>, na: Seq<u64>, nb: Seq<u64>) -> nat {
    amb_count(da, db, da.len() as int) + amb_count(na, nb, na.len() as int)
}

fn contains_before(v: &Vec<u64>, i: usize, c: u64) -> (b: bool)
    requires
        i <= v@.len(),
    ensures
        b == v@.take(i as int).contains(c),
{
    let mut k: usize = 0;
    while k < i
        invariant
            i <= v@.len(),
            k <= i,
            forall|j: int| 0 <= j < k ==> v@[j] != c,
        decreases i - k,
    {
        if v[k] == c {
            assert(v@.take(i as int)[k as int] == c);
            return true;
        }
        k = k + 1;
    }
    assert forall|j: int| 0 <= j < i implies v@.take(i as int)[j] != c by {}
    false
}

fn count_ambiguous_side(a: &Vec<u64>, b: &Vec<u64>) -> (n: usize)
    ensures
        n == amb_count(a@, b@, a@.len() as int),
{
    let mut n: usize = 0;
    let mut i: usize = 0;
    while i < a.len()
        invariant
            i <= a@.len(),
            n == amb_count(a@, b@, i as int),
            n <= i,
        decreases a@.len() - i,
    {
        let c = a[i];
        let seen = contains_before(a, i, c);
        if !seen {
            let ca = count_occ(a, c);
            let cb = count_occ(b, c);
            if ca > 1 && cb > 1 {
                n = n + 1;
            }
        }
        i = i + 1;
    }
    n
}

/// Counts the ambiguous classes (more than one member in both graphs),
/// saturating at the largest `usize`.
fn count_ambiguous(da: &Vec<u64>, db: &Vec<u64>, na: &Vec<u64>, nb: &Vec<u64>) -> (n: usize)
    ensures
        n as int == if ambiguity(da@, db@, na@, nb@) > usize::MAX { usize::MAX as int } else { ambiguity(da@, db@, na@, nb@) as int },
{
    let x = count_ambiguous_side(da, db);
    let y = count_ambiguous_side(na, nb);
    x.saturating_add(y)
}


// --- automorphism breaking ---

/// No two elements share a class afterwards unless they shared one before.
pub open spec fn refines(old_cls: Seq<u64>, new_cls: Seq<u64>) -> bool {
    &&& new_cls.len() == old_cls.len()
    &&& forall|e1: int, e2: int| 0 <= e1 < new_cls.len() && 0 <= e2 < new_cls.len() && #[trigger] new_cls[e1] == #[trigger] new_cls[e2]
        ==> old_cls[e1] == old_cls[e2]
}

pub open spec fn some_ambiguous(a: Seq<u64>, b: Seq<u64>) -> bool {
    exists|i: int| 0 <= i < a.len() && ambiguous_class(a, b, #[trigger] a[i])
}

fn first_index(v: &Vec<u64>, c: u64) -> (i: usize)
    requires
        v@.contains(c),
    ensures
        i < v@.len(),
        v@[i as int] == c,
{
    let mut i: usize = 0;
    while i < v.len()
        invariant
            i <= v@.len(),
            v@.contains(c),
            forall|j: int| 0 <= j < i ==> v@[j] != c,
        decreases v@.len() - i,
    {
        if v[i] == c {
            return i;
        }
        i = i + 1;
    }
    assert(false);
    0
}

/// Smallest ambiguous class of one side, if any: `(size, class)`.
fn smallest_ambiguous(a: &Vec<u64>, b: &Vec<u64>) -> (r: Option<(u128, u64)>)
    ensures
        r is None <==> !some_ambiguous(a@, b@),
        r matches Some((size, c)) ==> ambiguous_class(a@, b@, c) && a@.contains(c)
            && size == occ(a@, c) + occ(b@, c),
{
    let mut best: Option<(u128, u64)> = None;
    let mut i: usize = 0;
    while i < a.len()
        invariant
            i <= a@.len(),
            best is None <==> !(exists|j: int| 0 <= j < i && ambiguous_class(a@, b@, #[trigger] a@[j])),
            best matches Some((size, c)) ==> ambiguous_class(a@, b@, c) && a@.contains(c)
                && size == occ(a@, c) + occ(b@, c),
        decreases a@.len() - i,
    {
        let c = a[i];
        let ca = count_occ(a, c);
        let cb = count_occ(b, c);
        if ca > 1 && cb > 1 {
            let size = ca as u128 + cb as u128;
            let better = match best {
                None => true,
                Some((s, _)) => size < s,
            };
            if better {
                assert(a@[i as int] == c);
                best = Some((size, c));
            }
        }
        proof {
            if best is None {
                assert forall|j: int| 0 <= j < i + 1 implies !ambiguous_class(a@, b@, #[trigger] a@[j]) by {}
            } else {
                if !(exists|j: int| 0 <= j < i && ambiguous_class(a@, b@, #[trigger] a@[j])) {
                    assert(ambiguous_class(a@, b@, a@[i as int]));
                }
            }
        }
        i = i + 1;
    }
    best
}

/// Breaks one symmetric class: the smallest class with more than one member
/// in both graphs (devices first, nets only when strictly smaller) loses one
/// member on each side to a fresh class. Returns whether such a class existed.
fn resolve_one_automorphism(
    da: &mut Vec<u64>, db: &mut Vec<u64>, na: &mut Vec<u64>, nb: &mut Vec<u64>,
    cm: &mut Vec<u64>, rng: &mut Rng,
) -> (broke: bool)
    requires
        classes_below(old(da)@ + old(db)@, old(cm)@.len()),
        classes_below(old(na)@ + old(nb)@, old(cm)@.len()),
    ensures
        broke == (some_ambiguous(old(da)@, old(db)@) || some_ambiguous(old(na)@, old(nb)@)),
        refines(old(da)@ + old(db)@, final(da)@ + final(db)@),
        refines(old(na)@ + old(nb)@, final(na)@ + final(nb)@),
        final(da)@.len() == old(da)@.len(),
        final(db)@.len() == old(db)@.len(),
        final(na)@.len() == old(na)@.len(),
        final(nb)@.len() == old(nb)@.len(),
        classes_below(final(da)@ + final(db)@, final(cm)@.len()),
        classes_below(final(na)@ + final(nb)@, final(cm)@.len()),
        old(cm)@.len() <= final(cm)@.len(),
        forall|i: int| 0 <= i < old(cm)@.len() ==> final(cm)@[i] == old(cm)@[i],
        drawn_after(old(cm)@, old(rng).state, final(cm)@, final(rng).state),
        !broke ==> final(da)@ == old(da)@ && final(db)@ == old(db)@ && final(na)@ == old(na)@ && final(nb)@ == old(nb)@
            && final(cm)@ == old(cm)@,
        broke ==> class_count(final(da)@ + final(db)@) + class_count(final(na)@ + final(nb)@)
            > class_count(old(da)@ + old(db)@) + class_count(old(na)@ + old(nb)@),
        broke ==> break_step((old(da)@, old(db)@, old(na)@, old(nb)@, old(cm)@),
            (final(da)@, final(db)@, final(na)@, final(nb)@, final(cm)@)),
{
    proof {
        lemma_drawn_refl(cm@, rng.state);
    }
    let dev_best = smallest_ambiguous(da, db);
    let net_best = smallest_ambiguous(na, nb);
    let use_dev = match (dev_best, net_best) {
        (Some(_), None) => true,
        (Some((ds, _)), Some((ns, _))) => !(ns < ds),
        _ => false,
    };
    let ghost old_da = da@;
    let ghost old_db = db@;
    let ghost old_na = na@;
    let ghost old_nb = nb@;
    let ghost ol = cm@.len();
    if use_dev {
        let c = match dev_best { Some((_, c)) => c, None => 0 };
        assert(ambiguous_class(da@, db@, c));
        proof {
            if !db@.contains(c) {
                assert(occ(db@, c) > 1);
                lemma_occ_zero_contra(db@, c);
            }
        }
        let i0 = first_index(da, c);
        let j0 = first_index(db, c);
        let fresh = cm.len() as u64;
        let magic = rng.next();
        cm.push(magic);
        da.set(i0, fresh);
        db.set(j0, fresh);
        proof {
            lemma_drawn_push(old(cm)@, old(rng).state);
            lemma_break_refines(old_da, old_db, da@, db@, i0 as int, j0 as int, c, fresh, ol);
            lemma_break_count(old_da, old_db, da@, db@, i0 as int, c, fresh, ol);
            assert(broken(old_da, old_db, da@, db@, i0 as int, j0 as int, ol));
            assert(na@ == old_na && nb@ == old_nb);
            assert(cm@.len() == ol + 1);
            let s0: ClassState = (old_da, old_db, old_na, old_nb, old(cm)@);
            let s1: ClassState = (da@, db@, na@, nb@, cm@);
            assert(magic_grows(s0, s1));
            assert(broken(s0.0, s0.1, s1.0, s1.1, i0 as int, j0 as int, s0.4.len()));
            assert(s1.2 == s0.2 && s1.3 == s0.3);
            assert(break_step(s0, s1));
        }
        true
    } else if net_best.is_some() {
        let c = match net_best { Some((_, c)) => c, None => 0 };
        assert(ambiguous_class(na@, nb@, c));
        proof {
            if !nb@.contains(c) {
                lemma_occ_zero_contra(nb@, c);
            }
        }
        let i0 = first_index(na, c);
        let j0 = first_index(nb, c);
        let fresh = cm.len() as u64;
        let magic = rng.next();
        cm.push(magic);
        na.set(i0, fresh);
        nb.set(j0, fresh);
        proof {
            lemma_drawn_push(old(cm)@, old(rng).state);
            lemma_break_refines(old_na, old_nb, na@, nb@, i0 as int, j0 as int, c, fresh, ol);
            lemma_break_count(old_na, old_nb, na@, nb@, i0 as int, c, fresh, ol);
            assert(broken(old_na, old_nb, na@, nb@, i0 as int, j0 as int, ol));
            assert(da@ == old_da && db@ == old_db);
            assert(cm@.len() == ol + 1);
            let s0: ClassState = (old_da, old_db, old_na, old_nb, old(cm)@);
            let s1: ClassState = (da@, db@, na@, nb@, cm@);
            assert(magic_grows(s0, s1));
            assert(broken(s0.2, s0.3, s1.2, s1.3, i0 as int, j0 as int, s0.4.len()));
            assert(s1.0 == s0.0 && s1.1 == s0.1);
            assert(break_step(s0, s1));
        }
        true
    } else {
        false
    }
}

proof fn lemma_occ_zero_contra(s: Seq<u64>, c: u64)
    requires
        occ(s, c) > 0,
    ensures
        s.contains(c),
    decreases s.len(),
{
    if s.len() > 0 {
        if s.last() == c {
            assert(s[s.len() - 1] == c);
        } else {
            lemma_occ_zero_contra(s.drop_last(), c);
            let i = choose|i: int| 0 <= i < s.drop_last().len() && s.drop_last()[i] == c;
            assert(s[i] == c);
        }
    }
}

/// Breaking an ambiguous class adds a class.
proof fn lemma_break_count(a: Seq<u64>, b: Seq<u64>, a2: Seq<u64>, b2: Seq<u64>, i0: int, c: u64, fresh: u64, ol: nat)
    requires
        0 <= i0 < a.len(),
        a[i0] == c,
        occ(a, c) > 1,
        fresh as int == ol,
        classes_below(a + b, ol),
        a2 == a.update(i0, fresh),
        a2.len() == a.len(),
        b2.len() == b.len(),
        refines(a + b, a2 + b2),
        forall|k: int| 0 <= k < a.len() && k != i0 ==> a2[k] == a[k],
    ensures
        class_count(a2 + b2) > class_count(a + b),
{
    lemma_occ_other(a, c, i0);
    let j = choose|j: int| 0 <= j < a.len() && j != i0 && a[j] == c;
    let o = a + b;
    let n = a2 + b2;
    assert(o[i0] == c && o[j] == c);
    assert(n[j] == c);
    assert((o[i0] as int) < ol);
    assert(n[i0] == fresh);
    lemma_refines_count(o, n);
}

proof fn lemma_break_refines(a: Seq<u64>, b: Seq<u64>, a2: Seq<u64>, b2: Seq<u64>, i0: int, j0: int, c: u64, fresh: u64, ol: nat)
    requires
        0 <= i0 < a.len(),
        0 <= j0 < b.len(),
        a[i0] == c,
        b[j0] == c,
        fresh as int == ol,
        classes_below(a + b, ol),
        a2 == a.update(i0, fresh),
        b2 == b.update(j0, fresh),
    ensures
        refines(a + b, a2 + b2),
        classes_below(a2 + b2, ol + 1),
{
    let o = a + b;
    let n = a2 + b2;
    assert(n =~= o.update(i0, fresh).update(a.len() + j0, fresh));
    assert forall|e1: int, e2: int| 0 <= e1 < n.len() && 0 <= e2 < n.len() && #[trigger] n[e1] == #[trigger] n[e2]
        implies o[e1] == o[e2] by {
        let f1 = e1 == i0 || e1 == a.len() + j0;
        let f2 = e2 == i0 || e2 == a.len() + j0;
        if !f1 {
            assert(n[e1] == o[e1]);
            assert((o[e1] as int) < ol);
        }
        if !f2 {
            assert(n[e2] == o[e2]);
            assert((o[e2] as int) < ol);
        }
    }
    assert forall|e: int| 0 <= e < n.len() implies (#[trigger] n[e] as int) < ol + 1 by {
        if e != i0 && e != a.len() + j0 {
            assert(n[e] == o[e]);
        }
    }
}


// --- refinement ---

pub open spec fn seeds_of(g: TopoGraph) -> Seq<u32> {
    g.devs@.map_values(|d: GraphDev| d.seed)
}

/// Devices sharing a class share their seed (kind and flavor).
pub open spec fn seed_consistent(cls: Seq<u64>, seeds: Seq<u32>) -> bool {
    forall|e1: int, e2: int| 0 <= e1 < cls.len() && 0 <= e2 < cls.len() && #[trigger] cls[e1] == #[trigger] cls[e2]
        ==> seeds[e1] == seeds[e2]
}

/// Well-formed refinement state of the two graphs.
pub open spec fn state_ok(ga: TopoGraph, gb: TopoGraph, da: Seq<u64>, db: Seq<u64>, na: Seq<u64>, nb: Seq<u64>, cm_len: nat) -> bool {
    &&& graph_wf(ga)
    &&& graph_wf(gb)
    &&& da.len() == ga.devs@.len()
    &&& db.len() == gb.devs@.len()
    &&& na.len() == ga.net_count
    &&& nb.len() == gb.net_count
    &&& classes_below(da + db, cm_len)
    &&& classes_below(na + nb, cm_len)
    &&& seed_consistent(da + db, seeds_of(ga) + seeds_of(gb))
}

proof fn lemma_below_split(a: Seq<u64>, b: Seq<u64>, n: nat)
    requires
        classes_below(a + b, n),
    ensures
        classes_below(a, n),
        classes_below(b, n),
{
    assert forall|i: int| 0 <= i < a.len() implies (#[trigger] a[i] as int) < n by {
        assert((a + b)[i] == a[i]);
    }
    assert forall|i: int| 0 <= i < b.len() implies (#[trigger] b[i] as int) < n by {
        assert((a + b)[a.len() + i] == b[i]);
    }
}

proof fn lemma_seed_refined(old_cls: Seq<u64>, new_cls: Seq<u64>, seeds: Seq<u32>)
    requires
        refines(old_cls, new_cls),
        seed_consistent(old_cls, seeds),
    ensures
        seed_consistent(new_cls, seeds),
{
    assert forall|e1: int, e2: int| 0 <= e1 < new_cls.len() && 0 <= e2 < new_cls.len() && #[trigger] new_cls[e1] == #[trigger] new_cls[e2]
        implies seeds[e1] == seeds[e2] by {
        assert(old_cls[e1] == old_cls[e2]);
    }
}

proof fn lemma_refines_by_refines(oa: Seq<u64>, h: Seq<u64>, na: Seq<u64>, ol: nat)
    requires
        refines_by(oa, h, na, ol),
    ensures
        refines(oa, na),
{
    assert forall|e1: int, e2: int| 0 <= e1 < na.len() && 0 <= e2 < na.len() && #[trigger] na[e1] == #[trigger] na[e2]
        implies oa[e1] == oa[e2] by {
    }
}

proof fn lemma_refines_trans(a: Seq<u64>, b: Seq<u64>, c: Seq<u64>)
    requires
        refines(a, b),
        refines(b, c),
    ensures
        refines(a, c),
{
    assert forall|e1: int, e2: int| 0 <= e1 < c.len() && 0 <= e2 < c.len() && #[trigger] c[e1] == #[trigger] c[e2]
        implies a[e1] == a[e2] by {
        assert(b[e1] == b[e2]);
    }
}

proof fn lemma_refines_refl(a: Seq<u64>)
    ensures
        refines(a, a),
{
}

/// Number of distinct classes.
pub open spec fn class_count(cls: Seq<u64>) -> nat {
    cls.to_set().len()
}

/// Refining never loses a class, and splitting a class gains one.
proof fn lemma_refines_count(a: Seq<u64>, b: Seq<u64>)
    requires
        refines(a, b),
    ensures
        class_count(a) <= class_count(b),
        (exists|e1: int, e2: int| 0 <= e1 < a.len() && 0 <= e2 < a.len() && #[trigger] a[e1] == #[trigger] a[e2] && b[e1] != b[e2])
            ==> class_count(a) < class_count(b),
{
    broadcast use vstd::seq_lib::seq_to_set_is_finite;
    let f = |v: u64| a[choose|i: int| 0 <= i < b.len() && b[i] == v];
    let sa = a.to_set();
    let sb = b.to_set();
    assert forall|x: u64| sb.map(f).contains(x) <==> sa.contains(x) by {
        if sb.map(f).contains(x) {
            let v = choose|v: u64| sb.contains(v) && f(v) == x;
            let i = choose|i: int| 0 <= i < b.len() && b[i] == v;
            assert(a.contains(a[i]));
        }
        if sa.contains(x) {
            let i = choose|i: int| 0 <= i < a.len() && a[i] == x;
            let v = b[i];
            assert(sb.contains(v));
            let j = choose|j: int| 0 <= j < b.len() && b[j] == v;
            assert(b[j] == b[i]);
            assert(a[j] == a[i]);
            assert(f(v) == x);
        }
    }
    assert(sb.map(f) =~= sa);
    vstd::set_lib::lemma_map_size_bound(sb, sa, f);
    if exists|e1: int, e2: int| 0 <= e1 < a.len() && 0 <= e2 < a.len() && #[trigger] a[e1] == #[trigger] a[e2] && b[e1] != b[e2] {
        let (e1, e2) = choose|e1: int, e2: int| 0 <= e1 < a.len() && 0 <= e2 < a.len() && #[trigger] a[e1] == #[trigger] a[e2] && b[e1] != b[e2];
        let v1 = b[e1];
        let v2 = b[e2];
        assert(sb.contains(v1) && sb.contains(v2));
        let i1 = choose|i: int| 0 <= i < b.len() && b[i] == v1;
        let i2 = choose|i: int| 0 <= i < b.len() && b[i] == v2;
        assert(a[i1] == a[e1] && a[i2] == a[e2]);
        let rest = sb.remove(v2);
        assert forall|x: u64| rest.map(f).contains(x) <==> sa.contains(x) by {
            if sa.contains(x) {
                assert(sb.map(f).contains(x));
                let v = choose|v: u64| sb.contains(v) && f(v) == x;
                if v == v2 {
                    assert(rest.contains(v1) && f(v1) == x);
                } else {
                    assert(rest.contains(v));
                }
            }
            if rest.map(f).contains(x) {
                let v = choose|v: u64| rest.contains(v) && f(v) == x;
                assert(sb.map(f).contains(x));
            }
        }
        assert(rest.map(f) =~= sa);
        vstd::set_lib::lemma_map_size_bound(rest, sa, f);
    }
}

/// Dividing the device classes by their hashes from the net classes, and
/// the net classes by their hashes from the device classes, splits nothing.
pub open spec fn settled(ga: TopoGraph, gb: TopoGraph, da: Seq<u64>, db: Seq<u64>, na: Seq<u64>, nb: Seq<u64>, pm: Seq<u64>, cm: Seq<u64>) -> bool {
    let dh = Seq::new(ga.devs@.len(), |i: int| dev_hash(ga.devs@[i], na, pm, cm))
        + Seq::new(gb.devs@.len(), |i: int| dev_hash(gb.devs@[i], nb, pm, cm));
    let nh = Seq::new(ga.net_count as nat, |n: int| net_hash(ga, da, pm, cm, n))
        + Seq::new(gb.net_count as nat, |n: int| net_hash(gb, db, pm, cm, n));
    &&& !split_seen(da + db, dh, (da.len() + db.len()) as int)
    &&& !split_seen(na + nb, nh, (na.len() + nb.len()) as int)
}

/// Classes of a refinement state: layout and reference device classes,
/// layout and reference net classes, and the class magic numbers drawn so far.
pub type ClassState = (Seq<u64>, Seq<u64>, Seq<u64>, Seq<u64>, Seq<u64>);

/// Device hashes of both graphs in state `s`.
pub open spec fn dev_hashes(ga: TopoGraph, gb: TopoGraph, s: ClassState, pm: Seq<u64>) -> Seq<u64> {
    Seq::new(ga.devs@.len(), |i: int| dev_hash(ga.devs@[i], s.2, pm, s.4))
        + Seq::new(gb.devs@.len(), |i: int| dev_hash(gb.devs@[i], s.3, pm, s.4))
}

/// Net hashes of both graphs in state `s`.
pub open spec fn net_hashes(ga: TopoGraph, gb: TopoGraph, s: ClassState, pm: Seq<u64>) -> Seq<u64> {
    Seq::new(ga.net_count as nat, |n: int| net_hash(ga, s.0, pm, s.4, n))
        + Seq::new(gb.net_count as nat, |n: int| net_hash(gb, s.1, pm, s.4, n))
}

/// The magic numbers of `t` extend those of `s`.
pub open spec fn magic_grows(s: ClassState, t: ClassState) -> bool {
    &&& s.4.len() <= t.4.len()
    &&& forall|i: int| 0 <= i < s.4.len() ==> #[trigger] t.4[i] == s.4[i]
}

/// `t` splits the device classes of `s` exactly by their hashes: two devices
/// share a class afterwards when and only when they shared one and hash alike.
pub open spec fn dev_split_step(ga: TopoGraph, gb: TopoGraph, pm: Seq<u64>, s: ClassState, t: ClassState) -> bool {
    &&& t.0.len() == s.0.len() && t.1.len() == s.1.len() && t.2 == s.2 && t.3 == s.3
    &&& magic_grows(s, t)
    &&& refines_by(s.0 + s.1, dev_hashes(ga, gb, s, pm), t.0 + t.1, s.4.len())
}

/// `t` splits the net classes of `s` exactly by their hashes.
pub open spec fn net_split_step(ga: TopoGraph, gb: TopoGraph, pm: Seq<u64>, s: ClassState, t: ClassState) -> bool {
    &&& t.2.len() == s.2.len() && t.3.len() == s.3.len() && t.0 == s.0 && t.1 == s.1
    &&& magic_grows(s, t)
    &&& refines_by(s.2 + s.3, net_hashes(ga, gb, s, pm), t.2 + t.3, s.4.len())
}

/// `t` moves member `i` of `a` and member `j` of `b`, both of a class with
/// more than one member on each side, into a fresh shared class.
pub open spec fn broken(a: Seq<u64>, b: Seq<u64>, a2: Seq<u64>, b2: Seq<u64>, i: int, j: int, fresh: nat) -> bool {
    &&& 0 <= i < a.len() && 0 <= j < b.len()
    &&& a[i] == b[j]
    &&& ambiguous_class(a, b, a[i])
    &&& a2 == a.update(i, fresh as u64)
    &&& b2 == b.update(j, fresh as u64)
}

/// `t` breaks one ambiguous device or net class of `s`.
pub open spec fn break_step(s: ClassState, t: ClassState) -> bool {
    &&& magic_grows(s, t)
    &&& t.4.len() == s.4.len() + 1
    &&& {
        ||| t.2 == s.2 && t.3 == s.3 && exists|i: int, j: int| #[trigger] broken(s.0, s.1, t.0, t.1, i, j, s.4.len())
        ||| t.0 == s.0 && t.1 == s.1 && exists|i: int, j: int| #[trigger] broken(s.2, s.3, t.2, t.3, i, j, s.4.len())
    }
}

/// Step `i` of the run `h` is a split or a break.
pub open spec fn step_at(ga: TopoGraph, gb: TopoGraph, pm: Seq<u64>, h: Seq<ClassState>, i: int) -> bool {
    ||| dev_split_step(ga, gb, pm, h[i], h[i + 1])
    ||| net_split_step(ga, gb, pm, h[i], h[i + 1])
    ||| break_step(h[i], h[i + 1])
}

pub open spec fn steps_ok(ga: TopoGraph, gb: TopoGraph, pm: Seq<u64>, h: Seq<ClassState>) -> bool {
    &&& h.len() >= 1
    &&& forall|i: int| 0 <= i < h.len() - 1 ==> #[trigger] step_at(ga, gb, pm, h, i)
}

/// The starting state: each device in the class of its seed (shared by both
/// graphs), every net in class 0.
pub open spec fn seed_state(ga: TopoGraph, gb: TopoGraph, s: ClassState) -> bool {
    &&& s.0 == Seq::new(ga.devs@.len(), |i: int| ga.devs@[i].seed as u64)
    &&& s.1 == Seq::new(gb.devs@.len(), |i: int| gb.devs@[i].seed as u64)
    &&& s.2 == Seq::new(ga.net_count as nat, |i: int| 0u64)
    &&& s.3 == Seq::new(gb.net_count as nat, |i: int| 0u64)
}

proof fn lemma_steps_push(ga: TopoGraph, gb: TopoGraph, pm: Seq<u64>, h: Seq<ClassState>, x: ClassState)
    requires
        steps_ok(ga, gb, pm, h),
        dev_split_step(ga, gb, pm, h.last(), x) || net_split_step(ga, gb, pm, h.last(), x) || break_step(h.last(), x),
    ensures
        steps_ok(ga, gb, pm, h.push(x)),
        h.push(x)[0] == h[0],
        h.push(x).last() == x,
{
    let h2 = h.push(x);
    assert forall|i: int| 0 <= i < h2.len() - 1 implies #[trigger] step_at(ga, gb, pm, h2, i) by {
        assert(h2[i] == h[i]);
        if i < h.len() - 1 {
            assert(step_at(ga, gb, pm, h, i));
            assert(h2[i + 1] == h[i + 1]);
        } else {
            assert(h2[i + 1] == x);
        }
    }
}

proof fn lemma_steps_concat(ga: TopoGraph, gb: TopoGraph, pm: Seq<u64>, h1: Seq<ClassState>, h2: Seq<ClassState>)
    requires
        steps_ok(ga, gb, pm, h1),
        steps_ok(ga, gb, pm, h2),
        h1.last() == h2[0],
    ensures
        steps_ok(ga, gb, pm, h1 + h2.drop_first()),
        (h1 + h2.drop_first())[0] == h1[0],
        (h1 + h2.drop_first()).last() == h2.last(),
    decreases h2.len(),
{
    if h2.len() == 1 {
        assert(h1 + h2.drop_first() =~= h1);
    } else {
        let h2p = h2.drop_last();
        assert forall|i: int| 0 <= i < h2p.len() - 1 implies #[trigger] step_at(ga, gb, pm, h2p, i) by {
            assert(step_at(ga, gb, pm, h2, i));
            assert(h2p[i] == h2[i] && h2p[i + 1] == h2[i + 1]);
        }
        lemma_steps_concat(ga, gb, pm, h1, h2p);
        let c = h1 + h2p.drop_first();
        assert(step_at(ga, gb, pm, h2, h2.len() - 2));
        assert(h2[h2.len() - 2] == h2p.last());
        lemma_steps_push(ga, gb, pm, c, h2.last());
        assert(c.push(h2.last()) =~= h1 + h2.drop_first());
    }
}

/// Alternates device and net splitting until neither splits (at most 1000 rounds).
fn iterate_to_fixpoint(
    ga: &TopoGraph, gb: &TopoGraph,
    da: &mut Vec<u64>, db: &mut Vec<u64>, na: &mut Vec<u64>, nb: &mut Vec<u64>,
    cm: &mut Vec<u64>, pm: &Vec<u64>, rng: &mut Rng,
) -> (hist: Ghost<Seq<ClassState>>)
    requires
        pm@.len() == NUM_ROLES,
        state_ok(*ga, *gb, old(da)@, old(db)@, old(na)@, old(nb)@, old(cm)@.len()),
    ensures
        steps_ok(*ga, *gb, pm@, hist@),
        hist@[0] == (old(da)@, old(db)@, old(na)@, old(nb)@, old(cm)@),
        hist@.last() == (final(da)@, final(db)@, final(na)@, final(nb)@, final(cm)@),
        state_ok(*ga, *gb, final(da)@, final(db)@, final(na)@, final(nb)@, final(cm)@.len()),
        refines(old(da)@ + old(db)@, final(da)@ + final(db)@),
        refines(old(na)@ + old(nb)@, final(na)@ + final(nb)@),
        old(cm)@.len() <= final(cm)@.len(),
        settled(*ga, *gb, final(da)@, final(db)@, final(na)@, final(nb)@, pm@, final(cm)@)
            || class_count(final(da)@ + final(db)@) + class_count(final(na)@ + final(nb)@)
                >= class_count(old(da)@ + old(db)@) + class_count(old(na)@ + old(nb)@) + 1000,
        drawn_after(old(cm)@, old(rng).state, final(cm)@, final(rng).state),
{
    let mut round: usize = 0;
    let mut done = false;
    let ghost mut hist: Seq<ClassState> = seq![(da@, db@, na@, nb@, cm@)];
    proof {
        lemma_refines_refl(da@ + db@);
        lemma_refines_refl(na@ + nb@);
        lemma_drawn_refl(cm@, rng.state);
    }
    while round < 1000 && !done
        invariant
            steps_ok(*ga, *gb, pm@, hist),
            hist[0] == (old(da)@, old(db)@, old(na)@, old(nb)@, old(cm)@),
            hist.last() == (da@, db@, na@, nb@, cm@),
            pm@.len() == NUM_ROLES,
            state_ok(*ga, *gb, da@, db@, na@, nb@, cm@.len()),
            refines(old(da)@ + old(db)@, da@ + db@),
            refines(old(na)@ + old(nb)@, na@ + nb@),
            old(cm)@.len() <= cm@.len(),
            round <= 1000,
            done ==> settled(*ga, *gb, da@, db@, na@, nb@, pm@, cm@),
            class_count(da@ + db@) + class_count(na@ + nb@) + (if done { 1int } else { 0int })
                >= class_count(old(da)@ + old(db)@) + class_count(old(na)@ + old(nb)@) + round,
            drawn_after(old(cm)@, old(rng).state, cm@, rng.state),
        decreases 1000 - round,
    {
        let ghost cm_r = cm@;
        let ghost st_r = rng.state;
        let ghost da0 = da@;
        let ghost db0 = db@;
        let ghost na0 = na@;
        let ghost nb0 = nb@;
        let ghost cm0 = cm@;
        proof {
            lemma_below_split(na@, nb@, cm@.len());
        }
        let dh_a = compute_dev_hashes(ga, na, pm, cm);
        let dh_b = compute_dev_hashes(gb, nb, pm, cm);
        let ghost d0 = da@ + db@;
        let ghost c0 = cm@.len();
        let ghost s0: ClassState = (da@, db@, na@, nb@, cm@);
        let d_changed = fracture(da, &dh_a, db, &dh_b, cm, rng);
        let ghost cm_d = cm@;
        let ghost st_d = rng.state;
        proof {
            let s1: ClassState = (da@, db@, na@, nb@, cm@);
            assert(dh_a@ + dh_b@ =~= dev_hashes(*ga, *gb, s0, pm@));
            assert(dev_split_step(*ga, *gb, pm@, s0, s1));
            lemma_steps_push(*ga, *gb, pm@, hist, s1);
            hist = hist.push(s1);
            lemma_refines_by_refines(d0, dh_a@ + dh_b@, da@ + db@, c0);
            lemma_refines_trans(old(da)@ + old(db)@, d0, da@ + db@);
            lemma_seed_refined(d0, da@ + db@, seeds_of(*ga) + seeds_of(*gb));
            assert forall|i: int| 0 <= i < (na@ + nb@).len() implies (#[trigger] (na@ + nb@)[i] as int) < cm@.len() by {}
            lemma_below_split(da@, db@, cm@.len());
        }
        let nh_a = compute_net_hashes(ga, da, pm, cm);
        let nh_b = compute_net_hashes(gb, db, pm, cm);
        let ghost n0 = na@ + nb@;
        let ghost c1 = cm@.len();
        let ghost s1: ClassState = (da@, db@, na@, nb@, cm@);
        let n_changed = fracture(na, &nh_a, nb, &nh_b, cm, rng);
        proof {
            let s2: ClassState = (da@, db@, na@, nb@, cm@);
            assert(nh_a@ + nh_b@ =~= net_hashes(*ga, *gb, s1, pm@));
            assert(net_split_step(*ga, *gb, pm@, s1, s2));
            lemma_steps_push(*ga, *gb, pm@, hist, s2);
            hist = hist.push(s2);
            lemma_drawn_trans(cm_r, st_r, cm_d, st_d, cm@, rng.state);
            lemma_drawn_trans(old(cm)@, old(rng).state, cm_r, st_r, cm@, rng.state);
            lemma_refines_by_refines(n0, nh_a@ + nh_b@, na@ + nb@, c1);
            lemma_refines_trans(old(na)@ + old(nb)@, n0, na@ + nb@);
            assert forall|i: int| 0 <= i < (da@ + db@).len() implies (#[trigger] (da@ + db@)[i] as int) < cm@.len() by {}
        }
        proof {
            lemma_refines_count(d0, da@ + db@);
            lemma_refines_count(n0, na@ + nb@);
            if d_changed {
                let (e1, e2) = choose|e1: int, e2: int| 0 <= e1 < d0.len() && 0 <= e2 < d0.len()
                    && #[trigger] d0[e1] == #[trigger] d0[e2] && (dh_a@ + dh_b@)[e1] != (dh_a@ + dh_b@)[e2];
                assert((da@ + db@)[e1] != (da@ + db@)[e2]);
            }
            if n_changed {
                let (e1, e2) = choose|e1: int, e2: int| 0 <= e1 < n0.len() && 0 <= e2 < n0.len()
                    && #[trigger] n0[e1] == #[trigger] n0[e2] && (nh_a@ + nh_b@)[e1] != (nh_a@ + nh_b@)[e2];
                assert((na@ + nb@)[e1] != (na@ + nb@)[e2]);
            }
            if !d_changed && !n_changed {
                assert(da@ == da0 && db@ == db0 && na@ == na0 && nb@ == nb0 && cm@ == cm0);
                assert(dh_a@ + dh_b@ =~= Seq::new(ga.devs@.len(), |i: int| dev_hash(ga.devs@[i], na@, pm@, cm@))
                    + Seq::new(gb.devs@.len(), |i: int| dev_hash(gb.devs@[i], nb@, pm@, cm@)));
                assert(nh_a@ + nh_b@ =~= Seq::new(ga.net_count as nat, |n: int| net_hash(*ga, da@, pm@, cm@, n))
                    + Seq::new(gb.net_count as nat, |n: int| net_hash(*gb, db@, pm@, cm@, n)));
            }
        }
        if !d_changed && !n_changed {
            done = true;
        }
        round = round + 1;
    }
    Ghost(hist)
}

/// Comparison options.
pub struct CompareOpts {
    /// Source and drain are distinct pins (otherwise they are interchangeable).
    pub strict: bool,
    pub w_tolerance: PropertyTolerance,
    pub l_tolerance: PropertyTolerance,
}

impl CompareOpts {
    /// Non-strict comparison with the default tolerances.
    pub fn new() -> (r: CompareOpts)
        ensures
            !r.strict,
            r.w_tolerance == PropertyTolerance::default_spec(),
            r.l_tolerance == PropertyTolerance::default_spec(),
    {
        CompareOpts { strict: false, w_tolerance: PropertyTolerance::new(), l_tolerance: PropertyTolerance::new() }
    }
}

/// Refined class state of a comparison.
pub struct Refined {
    pub ga: TopoGraph,
    pub gb: TopoGraph,
    /// Layout net id of each local layout net.
    pub ext_names: Vec<u32>,
    /// Reference net name of each local reference net.
    pub ref_names: Vec<String>,
    pub dev_cls_a: Vec<u64>,
    pub dev_cls_b: Vec<u64>,
    pub net_cls_a: Vec<u64>,
    pub net_cls_b: Vec<u64>,
    pub ambiguous: usize,
    /// Hash magic number of each pin role.
    pub role_magic: Vec<u64>,
    /// Hash magic number of each class id.
    pub class_magic: Vec<u64>,
    /// The states of the refinement that led to these classes.
    pub history: Ghost<Seq<ClassState>>,
}

/// Seed of the generator of hash magic numbers.
pub const MAGIC_SEED: u64 = 0xDEAD_BEEF_CAFE_1234u64;

/// Devices and nets of both graphs together.
pub open spec fn refined_size(r: Refined) -> nat {
    r.dev_cls_a@.len() + r.dev_cls_b@.len() + r.net_cls_a@.len() + r.net_cls_b@.len()
}

/// The refinement of `r` ran to its end. The role magic numbers are the
/// first draws of the generator from `MAGIC_SEED` and the class magic numbers
/// the draws after them, in turn. Unless the graphs hold 1000 or more devices
/// and nets together (where the round limits may stop it first), another
/// round of hashing splits no class and no class is ambiguous.
pub open spec fn refined_stable(r: Refined) -> bool {
    &&& r.role_magic@ == Seq::new(NUM_ROLES as nat, |k: int| draws(MAGIC_SEED, (k + 1) as nat))
    &&& forall|i: int| 0 <= i < r.class_magic@.len() ==>
            #[trigger] r.class_magic@[i] == draws(draws(MAGIC_SEED, NUM_ROLES as nat), (i + 1) as nat)
    &&& (refined_size(r) >= 1000 || {
            &&& settled(r.ga, r.gb, r.dev_cls_a@, r.dev_cls_b@, r.net_cls_a@, r.net_cls_b@, r.role_magic@, r.class_magic@)
            &&& !some_ambiguous(r.dev_cls_a@, r.dev_cls_b@)
            &&& !some_ambiguous(r.net_cls_a@, r.net_cls_b@)
        })
}

/// The classes of `r` are the end of a refinement run: starting from the
/// seed classes shared by both graphs, each step splits the device or the net
/// classes exactly by their hashes (under `r`'s magic numbers) or breaks one
/// ambiguous class.
pub open spec fn refined_history(r: Refined) -> bool {
    &&& steps_ok(r.ga, r.gb, r.role_magic@, r.history@)
    &&& seed_state(r.ga, r.gb, r.history@[0])
    &&& r.history@.last() == (r.dev_cls_a@, r.dev_cls_b@, r.net_cls_a@, r.net_cls_b@, r.class_magic@)
}

proof fn lemma_many_classes(da: Seq<u64>, db: Seq<u64>, na: Seq<u64>, nb: Seq<u64>, k: int)
    requires
        class_count(da + db) + class_count(na + nb) >= k,
    ensures
        da.len() + db.len() + na.len() + nb.len() >= k,
{
    (da + db).lemma_cardinality_of_set();
    (na + nb).lemma_cardinality_of_set();
}

/// `r` is a well-formed class state of the comparison of `ext` with
/// `reference`: both graphs are built from the netlists, classes never mix
/// seeds, and the ambiguity count is exact (saturating). That the classes are
/// the end of refinement is `refined_stable`.
pub open spec fn refined_ok(ext: ExtractedNetlist, reference: RefNetlist, strict: bool, r: Refined) -> bool {
    &&& ext_graph(ext, strict, r.ga, r.ext_names@)
    &&& ref_graph(reference, strict, r.gb, views(r.ref_names@))
    &&& r.dev_cls_a@.len() == r.ga.devs@.len()
    &&& r.dev_cls_b@.len() == r.gb.devs@.len()
    &&& r.net_cls_a@.len() == r.ga.net_count
    &&& r.net_cls_b@.len() == r.gb.net_count
    &&& seed_consistent(r.dev_cls_a@ + r.dev_cls_b@, seeds_of(r.ga) + seeds_of(r.gb))
    &&& r.ambiguous as int == if ambiguity(r.dev_cls_a@, r.dev_cls_b@, r.net_cls_a@, r.net_cls_b@) > usize::MAX {
            usize::MAX as int
        } else {
            ambiguity(r.dev_cls_a@, r.dev_cls_b@, r.net_cls_a@, r.net_cls_b@) as int
        }
}

fn seed_classes(g: &TopoGraph) -> (r: Vec<u64>)
    ensures
        r@.len() == g.devs@.len(),
        forall|i: int| 0 <= i < r@.len() ==> #[trigger] r@[i] == g.devs@[i].seed as u64,
{
    let mut r: Vec<u64> = Vec::new();
    let mut i: usize = 0;
    while i < g.devs.len()
        invariant
            i <= g.devs@.len(),
            r@.len() == i,
            forall|k: int| 0 <= k < i ==> #[trigger] r@[k] == g.devs@[k].seed as u64,
        decreases g.devs@.len() - i,
    {
        r.push(g.devs[i].seed as u64);
        i = i + 1;
    }
    r
}

fn max_seed(g: &TopoGraph, start: u32) -> (m: u32)
    ensures
        m >= start,
        forall|i: int| 0 <= i < g.devs@.len() ==> (#[trigger] g.devs@[i]).seed <= m,
{
    let mut m = start;
    let mut i: usize = 0;
    while i < g.devs.len()
        invariant
            i <= g.devs@.len(),
            m >= start,
            forall|k: int| 0 <= k < i ==> (#[trigger] g.devs@[k]).seed <= m,
        decreases g.devs@.len() - i,
    {
        if g.devs[i].seed > m {
            m = g.devs[i].seed;
        }
        i = i + 1;
    }
    m
}

/// Graph construction, iterative refinement and automorphism breaking.
pub fn refine(ext: &ExtractedNetlist, reference: &RefNetlist, opts: &CompareOpts) -> (r: Refined)
    ensures
        refined_ok(*ext, *reference, opts.strict, r),
        refined_stable(r),
        refined_history(r),
{
    let (ga, ext_names) = graph_from_extracted(ext, opts.strict);
    let (gb, ref_names) = graph_from_reference(reference, opts.strict);
    let mut rng = Rng::new(MAGIC_SEED);
    let mut pm: Vec<u64> = Vec::new();
    let mut k: usize = 0;
    while k < NUM_ROLES
        invariant
            k <= NUM_ROLES,
            pm@.len() == k,
            rng.state == draws(MAGIC_SEED, k as nat),
            forall|q: int| 0 <= q < k ==> #[trigger] pm@[q] == draws(MAGIC_SEED, (q + 1) as nat),
        decreases NUM_ROLES - k,
    {
        pm.push(rng.next());
        k = k + 1;
    }
    let ghost s1 = rng.state;
    proof {
        assert(pm@ =~= Seq::new(NUM_ROLES as nat, |q: int| draws(MAGIC_SEED, (q + 1) as nat)));
        lemma_drawn_refl(Seq::<u64>::empty(), s1);
    }
    let ms = max_seed(&ga, 0);
    let ms = max_seed(&gb, ms);
    let mut cm: Vec<u64> = Vec::new();
    let mut c: u64 = 0;
    while c <= ms as u64
        invariant
            c as int <= ms as int + 1,
            cm@.len() == c,
            drawn_after(Seq::<u64>::empty(), s1, cm@, rng.state),
        decreases ms as int + 1 - c as int,
    {
        let ghost c0 = cm@;
        let ghost st0 = rng.state;
        cm.push(rng.next());
        proof {
            lemma_drawn_push(c0, st0);
            lemma_drawn_trans(Seq::<u64>::empty(), s1, c0, st0, cm@, rng.state);
        }
        c = c + 1;
    }
    let mut da = seed_classes(&ga);
    let mut db = seed_classes(&gb);
    let mut na: Vec<u64> = vec![0u64; ga.net_count];
    let mut nb: Vec<u64> = vec![0u64; gb.net_count];
    proof {
        let s = seeds_of(ga) + seeds_of(gb);
        let d = da@ + db@;
        assert forall|i: int| 0 <= i < d.len() implies (#[trigger] d[i] as int) < cm@.len() by {
            if i < da@.len() {
                assert(d[i] == da@[i]);
            } else {
                assert(d[i] == db@[i - da@.len()]);
            }
        }
        assert forall|i: int| 0 <= i < (na@ + nb@).len() implies (#[trigger] (na@ + nb@)[i] as int) < cm@.len() by {
            if i < na@.len() {
                assert((na@ + nb@)[i] == na@[i]);
            } else {
                assert((na@ + nb@)[i] == nb@[i - na@.len()]);
            }
        }
        assert forall|e1: int, e2: int| 0 <= e1 < d.len() && 0 <= e2 < d.len() && #[trigger] d[e1] == #[trigger] d[e2]
            implies s[e1] == s[e2] by {
            if e1 < da@.len() {
                assert(d[e1] == da@[e1]);
                assert(s[e1] == ga.devs@[e1].seed);
            } else {
                assert(d[e1] == db@[e1 - da@.len()]);
                assert(s[e1] == gb.devs@[e1 - da@.len()].seed);
            }
            if e2 < da@.len() {
                assert(d[e2] == da@[e2]);
                assert(s[e2] == ga.devs@[e2].seed);
            } else {
                assert(d[e2] == db@[e2 - da@.len()]);
                assert(s[e2] == gb.devs@[e2 - da@.len()].seed);
            }
        }
    }
    let ghost cm_i = cm@;
    let ghost st_i = rng.state;
    let ghost start: ClassState = (da@, db@, na@, nb@, cm@);
    proof {
        assert(da@ =~= Seq::new(ga.devs@.len(), |i: int| ga.devs@[i].seed as u64));
        assert(db@ =~= Seq::new(gb.devs@.len(), |i: int| gb.devs@[i].seed as u64));
        assert(na@ =~= Seq::new(ga.net_count as nat, |i: int| 0u64));
        assert(nb@ =~= Seq::new(gb.net_count as nat, |i: int| 0u64));
        assert(seed_state(ga, gb, start));
    }
    let h1 = iterate_to_fixpoint(&ga, &gb, &mut da, &mut db, &mut na, &mut nb, &mut cm, &pm, &mut rng);
    let ghost mut hist: Seq<ClassState> = h1@;
    proof {
        lemma_drawn_trans(Seq::<u64>::empty(), s1, cm_i, st_i, cm@, rng.state);
        if !settled(ga, gb, da@, db@, na@, nb@, pm@, cm@) {
            lemma_many_classes(da@, db@, na@, nb@, 1000);
        }
    }
    let ghost size = da@.len() + db@.len() + na@.len() + nb@.len();
    let mut round: usize = 0;
    let mut done = false;
    while round < 1000 && !done
        invariant
            steps_ok(ga, gb, pm@, hist),
            seed_state(ga, gb, hist[0]),
            hist.last() == (da@, db@, na@, nb@, cm@),
            pm@.len() == NUM_ROLES,
            state_ok(ga, gb, da@, db@, na@, nb@, cm@.len()),
            drawn_after(Seq::<u64>::empty(), s1, cm@, rng.state),
            size == da@.len() + db@.len() + na@.len() + nb@.len(),
            size >= 1000 || settled(ga, gb, da@, db@, na@, nb@, pm@, cm@),
            done ==> !some_ambiguous(da@, db@) && !some_ambiguous(na@, nb@),
            class_count(da@ + db@) + class_count(na@ + nb@) + (if done { 1int } else { 0int }) >= round,
            round <= 1000,
        decreases 1000 - round,
    {
        let ghost d0 = da@ + db@;
        let ghost n0 = na@ + nb@;
        let ghost cm0 = cm@;
        let ghost st0 = rng.state;
        proof {
            assert(classes_below(da@ + db@, cm@.len()));
        }
        let broke = resolve_one_automorphism(&mut da, &mut db, &mut na, &mut nb, &mut cm, &mut rng);
        proof {
            if broke {
                lemma_steps_push(ga, gb, pm@, hist, (da@, db@, na@, nb@, cm@));
                hist = hist.push((da@, db@, na@, nb@, cm@));
            }
            lemma_seed_refined(d0, da@ + db@, seeds_of(ga) + seeds_of(gb));
            lemma_drawn_trans(Seq::<u64>::empty(), s1, cm0, st0, cm@, rng.state);
        }
        if !broke {
            done = true;
        } else {
            let ghost d1 = da@ + db@;
            let ghost n1 = na@ + nb@;
            let ghost cm1 = cm@;
            let ghost st1 = rng.state;
            let h2 = iterate_to_fixpoint(&ga, &gb, &mut da, &mut db, &mut na, &mut nb, &mut cm, &pm, &mut rng);
            proof {
                lemma_steps_concat(ga, gb, pm@, hist, h2@);
                hist = hist + h2@.drop_first();
                lemma_drawn_trans(Seq::<u64>::empty(), s1, cm1, st1, cm@, rng.state);
                lemma_refines_count(d1, da@ + db@);
                lemma_refines_count(n1, na@ + nb@);
                if !settled(ga, gb, da@, db@, na@, nb@, pm@, cm@) {
                    lemma_many_classes(da@, db@, na@, nb@, 1000);
                }
            }
        }
        round = round + 1;
    }
    proof {
        if !done {
            lemma_many_classes(da@, db@, na@, nb@, 1000);
        }
    }
    let ambiguous = count_ambiguous(&da, &db, &na, &nb);
    Refined {
        ga,
        gb,
        ext_names,
        ref_names,
        dev_cls_a: da,
        dev_cls_b: db,
        net_cls_a: na,
        net_cls_b: nb,
        ambiguous,
        role_magic: pm,
        class_magic: cm,
        history: Ghost(hist),
    }
}


// --- verdict ---

/// Every class has as many members in `a` as in `b`.
pub open spec fn balanced(a: Seq<u64>, b: Seq<u64>) -> bool {
    &&& forall|i: int| 0 <= i < a.len() ==> occ(a, #[trigger] a[i]) == occ(b, a[i])
    &&& forall|j: int| 0 <= j < b.len() ==> occ(a, #[trigger] b[j]) == occ(b, b[j])
}

/// First class (layout side first) whose member counts differ:
/// `(class, layout count, reference count)`.
fn first_unbalanced(a: &Vec<u64>, b: &Vec<u64>) -> (r: Option<(u64, usize, usize)>)
    ensures
        r is None <==> balanced(a@, b@),
        r matches Some((c, ca, cb)) ==> ca == occ(a@, c) && cb == occ(b@, c) && ca != cb,
{
    let mut i: usize = 0;
    while i < a.len()
        invariant
            i <= a@.len(),
            forall|k: int| 0 <= k < i ==> occ(a@, #[trigger] a@[k]) == occ(b@, a@[k]),
        decreases a@.len() - i,
    {
        let c = a[i];
        let ca = count_occ(a, c);
        let cb = count_occ(b, c);
        if ca != cb {
            return Some((c, ca, cb));
        }
        i = i + 1;
    }
    let mut j: usize = 0;
    while j < b.len()
        invariant
            j <= b@.len(),
            forall|k: int| 0 <= k < a@.len() ==> occ(a@, #[trigger] a@[k]) == occ(b@, a@[k]),
            forall|k: int| 0 <= k < j ==> occ(a@, #[trigger] b@[k]) == occ(b@, b@[k]),
        decreases b@.len() - j,
    {
        let c = b[j];
        let ca = count_occ(a, c);
        let cb = count_occ(b, c);
        if ca != cb {
            return Some((c, ca, cb));
        }
        j = j + 1;
    }
    None
}

/// Local id of reference net `name`, if the reference graph has that net.
pub open spec fn ref_local(names: Seq<Seq<char>>, name: Seq<char>) -> Option<int> {
    if names.contains(name) {
        Some(choose|k: int| 0 <= k < names.len() && names[k] == name)
    } else {
        None
    }
}

/// Two distinct seeded reference nets fell into one class.
pub open spec fn seed_conflict(seeds: Seq<String>, names: Seq<Seq<char>>, nb: Seq<u64>) -> bool {
    exists|i: int, j: int| 0 <= i < j < seeds.len() && {
        let a = ref_local(names, (#[trigger] seeds[i])@);
        let b = ref_local(names, (#[trigger] seeds[j])@);
        &&& seeds[i]@ != seeds[j]@
        &&& a is Some && b is Some
        &&& nb[a->0] == nb[b->0]
    }
}

fn find_ref_net(names: &Vec<String>, name: &String) -> (r: Option<usize>)
    requires
        views(names@).no_duplicates(),
    ensures
        r is None <==> ref_local(views(names@), name@) is None,
        r matches Some(k) ==> ref_local(views(names@), name@) == Some(k as int) && k < names@.len(),
{
    let ghost v = views(names@);
    let mut k: usize = 0;
    while k < names.len()
        invariant
            k <= names@.len(),
            v == views(names@),
            v.no_duplicates(),
            forall|j: int| 0 <= j < k ==> v[j] != name@,
        decreases names@.len() - k,
    {
        if names[k] == *name {
            proof {
                assert(v[k as int] == name@);
                assert(v.contains(name@));
                let c = choose|j: int| 0 <= j < v.len() && v[j] == name@;
                assert(c == k as int);
            }
            return Some(k);
        }
        k = k + 1;
    }
    assert(!v.contains(name@));
    None
}

/// First pair of distinct seeded reference nets that share a class.
fn first_seed_conflict(seeds: &Vec<String>, names: &Vec<String>, nb: &Vec<u64>) -> (r: Option<(usize, usize)>)
    requires
        views(names@).no_duplicates(),
        nb@.len() == names@.len(),
    ensures
        r is None <==> !seed_conflict(seeds@, views(names@), nb@),
        r matches Some((i, j)) ==> i < j < seeds@.len(),
{
    let ghost v = views(names@);
    let mut i: usize = 0;
    while i < seeds.len()
        invariant
            i <= seeds@.len(),
            v == views(names@),
            v.no_duplicates(),
            nb@.len() == names@.len(),
            forall|i2: int, j2: int| 0 <= i2 < i && i2 < j2 < seeds@.len() ==> !({
                let a = ref_local(v, (#[trigger] seeds@[i2])@);
                let b = ref_local(v, (#[trigger] seeds@[j2])@);
                &&& seeds@[i2]@ != seeds@[j2]@
                &&& a is Some && b is Some
                &&& nb@[a->0] == nb@[b->0]
            }),
        decreases seeds@.len() - i,
    {
        let a = find_ref_net(names, &seeds[i]);
        let mut j: usize = i + 1;
        while j < seeds.len()
            invariant
                i < seeds@.len(),
                i + 1 <= j <= seeds@.len(),
                v == views(names@),
                v.no_duplicates(),
                nb@.len() == names@.len(),
                a is None <==> ref_local(v, seeds@[i as int]@) is None,
                a matches Some(k) ==> ref_local(v, seeds@[i as int]@) == Some(k as int) && k < names@.len(),
                forall|j2: int| i < j2 < j ==> !({
                    let x = ref_local(v, (#[trigger] seeds@[i as int])@);
                    let y = ref_local(v, (#[trigger] seeds@[j2])@);
                    &&& seeds@[i as int]@ != seeds@[j2]@
                    &&& x is Some && y is Some
                    &&& nb@[x->0] == nb@[y->0]
                }),
            decreases seeds@.len() - j,
        {
            if !(seeds[i] == seeds[j]) {
                let b = find_ref_net(names, &seeds[j]);
                match (a, b) {
                    (Some(ka), Some(kb)) => {
                        if nb[ka] == nb[kb] {
                            assert(seed_conflict(seeds@, v, nb@)) by {
                                assert(0 <= i < j < seeds@.len());
                            }
                            return Some((i, j));
                        }
                    },
                    _ => {},
                }
            }
            j = j + 1;
        }
        i = i + 1;
    }
    None
}

/// `got` is within tolerance of `expect`.
pub open spec fn within(got: int, expect: int, tol: PropertyTolerance) -> bool {
    let d = if got >= expect { got - expect } else { expect - got };
    d <= tol.abs_nm || d * 1_000_000 <= tol.rel_ppm * expect
}

fn within_tolerance(got: i32, expect: i32, tol: PropertyTolerance) -> (b: bool)
    ensures
        b == within(got as int, expect as int, tol),
{
    let g = got as i128;
    let e = expect as i128;
    let d = if g >= e { g - e } else { e - g };
    let r = tol.rel_ppm as i128;
    assert(-0x8000_0000_0000_0000_0000_0000 <= r * e <= 0x8000_0000_0000_0000_0000_0000) by (nonlinear_arith)
        requires
            -0x8000_0000_0000_0000 <= r <= 0x8000_0000_0000_0000,
            -0x8000_0000 <= e <= 0x8000_0000,
    ;
    d <= tol.abs_nm as i128 || d * 1_000_000 <= r * e
}

pub open spec fn pair_le(a: (i32, i32), b: (i32, i32)) -> bool {
    a.0 < b.0 || (a.0 == b.0 && a.1 <= b.1)
}

/// Inserts `x` before the first element not below it.
pub open spec fn ins(s: Seq<(i32, i32)>, x: (i32, i32)) -> Seq<(i32, i32)>
    decreases s.len(),
{
    if s.len() == 0 {
        seq![x]
    } else if pair_le(x, s[0]) {
        seq![x] + s
    } else {
        seq![s[0]] + ins(s.drop_first(), x)
    }
}

/// Lexicographic insertion sort of `(w, l)` pairs.
pub open spec fn sort_pairs(s: Seq<(i32, i32)>) -> Seq<(i32, i32)>
    decreases s.len(),
{
    if s.len() == 0 {
        s
    } else {
        ins(sort_pairs(s.drop_last()), s.last())
    }
}

proof fn lemma_ins_at(s: Seq<(i32, i32)>, x: (i32, i32), p: int)
    requires
        0 <= p <= s.len(),
        forall|j: int| 0 <= j < p ==> !pair_le(x, #[trigger] s[j]),
        p < s.len() ==> pair_le(x, s[p]),
    ensures
        ins(s, x) == s.take(p) + seq![x] + s.skip(p),
    decreases s.len(),
{
    if s.len() == 0 {
        assert(ins(s, x) =~= s.take(p) + seq![x] + s.skip(p));
    } else if p == 0 {
        assert(ins(s, x) =~= s.take(p) + seq![x] + s.skip(p));
    } else {
        let t = s.drop_first();
        assert forall|j: int| 0 <= j < p - 1 implies !pair_le(x, #[trigger] t[j]) by {
            assert(t[j] == s[j + 1]);
        }
        assert(!pair_le(x, s[0]));
        lemma_ins_at(t, x, p - 1);
        assert(ins(s, x) =~= s.take(p) + seq![x] + s.skip(p));
    }
}

/// Sorts pairs lexicographically.
pub(crate) fn sort_pairs_exec(v: &Vec<(i32, i32)>) -> (r: Vec<(i32, i32)>)
    ensures
        r@ == sort_pairs(v@),
{
    let mut out: Vec<(i32, i32)> = Vec::new();
    let mut i: usize = 0;
    while i < v.len()
        invariant
            i <= v@.len(),
            out@ == sort_pairs(v@.take(i as int)),
        decreases v@.len() - i,
    {
        let x = v[i];
        let mut p: usize = 0;
        let mut found = false;
        while p < out.len() && !found
            invariant
                p <= out@.len(),
                forall|j: int| 0 <= j < p ==> !pair_le(x, #[trigger] out@[j]),
                found ==> p < out@.len() && pair_le(x, out@[p as int]),
            decreases out@.len() - p + (if found { 0int } else { 1int }),
        {
            let y = out[p];
            if x.0 < y.0 || (x.0 == y.0 && x.1 <= y.1) {
                found = true;
            } else {
                p = p + 1;
            }
        }
        proof {
            assert(p < out@.len() ==> pair_le(x, out@[p as int]));
            lemma_ins_at(out@, x, p as int);
            assert(v@.take(i as int + 1).drop_last() =~= v@.take(i as int));
            assert(v@.take(i as int + 1).last() == x);
        }
        out.insert(p, x);
        assert(out@ =~= sort_pairs(v@.take(i as int + 1)));
        i = i + 1;
    }
    assert(v@.take(v@.len() as int) =~= v@);
    out
}


/// `(w, l)` of the layout MOS devices among graph devices `0..n` in class `c`.
pub open spec fn ext_pairs(g: TopoGraph, cls: Seq<u64>, devs: Seq<Device>, c: u64, n: int) -> Seq<(i32, i32)>
    decreases n,
{
    if n <= 0 {
        Seq::empty()
    } else {
        let prev = ext_pairs(g, cls, devs, c, n - 1);
        let gd = g.devs@[n - 1];
        if gd.is_mos && cls[n - 1] == c {
            prev.push((devs[gd.orig_idx as int].w, devs[gd.orig_idx as int].l))
        } else {
            prev
        }
    }
}

/// `(w, l)` of the reference MOS devices among graph devices `0..n` in class `c`.
pub open spec fn ref_pairs(g: TopoGraph, cls: Seq<u64>, devs: Seq<RefDevice>, c: u64, n: int) -> Seq<(i32, i32)>
    decreases n,
{
    if n <= 0 {
        Seq::empty()
    } else {
        let prev = ref_pairs(g, cls, devs, c, n - 1);
        let gd = g.devs@[n - 1];
        if gd.is_mos && cls[n - 1] == c {
            prev.push((devs[gd.orig_idx as int].w, devs[gd.orig_idx as int].l))
        } else {
            prev
        }
    }
}

/// Paired sizes agree within tolerance.
pub open spec fn pairs_within(x: Seq<(i32, i32)>, y: Seq<(i32, i32)>, wt: PropertyTolerance, lt: PropertyTolerance) -> bool {
    forall|k: int| 0 <= k < x.len() && k < y.len() ==>
        within((#[trigger] x[k]).0 as int, y[k].0 as int, wt) && within(x[k].1 as int, y[k].1 as int, lt)
}

/// Parametric check is enforced only when every reference MOS device states its size.
pub open spec fn enforce_parametric(devs: Seq<RefDevice>) -> bool {
    forall|i: int| 0 <= i < devs.len() ==> (#[trigger] devs[i]).w > 0 && devs[i].l > 0
}

/// Within each class, the sorted layout sizes match the sorted reference sizes pairwise.
pub open spec fn parametric_ok(ext: ExtractedNetlist, reference: RefNetlist, opts: CompareOpts, r: Refined) -> bool {
    forall|i: int| 0 <= i < r.ga.devs@.len() && (#[trigger] r.ga.devs@[i]).is_mos ==> {
        let c = r.dev_cls_a@[i];
        pairs_within(
            sort_pairs(ext_pairs(r.ga, r.dev_cls_a@, ext.devices@, c, r.ga.devs@.len() as int)),
            sort_pairs(ref_pairs(r.gb, r.dev_cls_b@, reference.devices@, c, r.gb.devs@.len() as int)),
            opts.w_tolerance, opts.l_tolerance)
    }
}

pub open spec fn mos_index_ok(g: TopoGraph, len: nat) -> bool {
    forall|i: int| 0 <= i < g.devs@.len() && (#[trigger] g.devs@[i]).is_mos ==> (g.devs@[i].orig_idx as int) < len
}

fn collect_ext_pairs(g: &TopoGraph, cls: &Vec<u64>, devs: &Vec<Device>, c: u64) -> (r: Vec<(i32, i32)>)
    requires
        cls@.len() == g.devs@.len(),
        mos_index_ok(*g, devs@.len()),
    ensures
        r@ == ext_pairs(*g, cls@, devs@, c, g.devs@.len() as int),
{
    let mut r: Vec<(i32, i32)> = Vec::new();
    let mut i: usize = 0;
    while i < g.devs.len()
        invariant
            cls@.len() == g.devs@.len(),
            mos_index_ok(*g, devs@.len()),
            i <= g.devs@.len(),
            r@ == ext_pairs(*g, cls@, devs@, c, i as int),
        decreases g.devs@.len() - i,
    {
        let gd = &g.devs[i];
        if gd.is_mos && cls[i] == c {
            let d = &devs[gd.orig_idx];
            r.push((d.w, d.l));
        }
        i = i + 1;
    }
    r
}

fn collect_ref_pairs(g: &TopoGraph, cls: &Vec<u64>, devs: &Vec<RefDevice>, c: u64) -> (r: Vec<(i32, i32)>)
    requires
        cls@.len() == g.devs@.len(),
        mos_index_ok(*g, devs@.len()),
    ensures
        r@ == ref_pairs(*g, cls@, devs@, c, g.devs@.len() as int),
{
    let mut r: Vec<(i32, i32)> = Vec::new();
    let mut i: usize = 0;
    while i < g.devs.len()
        invariant
            cls@.len() == g.devs@.len(),
            mos_index_ok(*g, devs@.len()),
            i <= g.devs@.len(),
            r@ == ref_pairs(*g, cls@, devs@, c, i as int),
        decreases g.devs@.len() - i,
    {
        let gd = &g.devs[i];
        if gd.is_mos && cls[i] == c {
            let d = &devs[gd.orig_idx];
            r.push((d.w, d.l));
        }
        i = i + 1;
    }
    r
}

/// First pair of sorted sizes out of tolerance: `(expected, got)`.
fn first_pair_failure(x: &Vec<(i32, i32)>, y: &Vec<(i32, i32)>, wt: PropertyTolerance, lt: PropertyTolerance)
    -> (r: Option<((i32, i32), (i32, i32))>)
    ensures
        r is None <==> pairs_within(x@, y@, wt, lt),
        r matches Some((e, g)) ==> exists|k: int| 0 <= k < x@.len() && k < y@.len() && e == y@[k] && g == x@[k]
            && !(within(g.0 as int, e.0 as int, wt) && within(g.1 as int, e.1 as int, lt)),
{
    let mut k: usize = 0;
    while k < x.len() && k < y.len()
        invariant
            k <= x@.len(),
            forall|j: int| 0 <= j < k && j < y@.len() ==>
                within((#[trigger] x@[j]).0 as int, y@[j].0 as int, wt) && within(x@[j].1 as int, y@[j].1 as int, lt),
        decreases x@.len() - k,
    {
        let g = x[k];
        let e = y[k];
        if !(within_tolerance(g.0, e.0, wt) && within_tolerance(g.1, e.1, lt)) {
            return Some((e, g));
        }
        k = k + 1;
    }
    None
}

fn all_sizes_given(devs: &Vec<RefDevice>) -> (b: bool)
    ensures
        b == enforce_parametric(devs@),
{
    let mut i: usize = 0;
    while i < devs.len()
        invariant
            i <= devs@.len(),
            forall|k: int| 0 <= k < i ==> (#[trigger] devs@[k]).w > 0 && devs@[k].l > 0,
        decreases devs@.len() - i,
    {
        if !(devs[i].w > 0 && devs[i].l > 0) {
            return false;
        }
        i = i + 1;
    }
    true
}

/// First parametric failure `(expected, got)` over the refined classes.
fn first_parametric_failure(ext: &ExtractedNetlist, reference: &RefNetlist, opts: &CompareOpts, r: &Refined)
    -> (res: Option<((i32, i32), (i32, i32))>)
    requires
        refined_ok(*ext, *reference, opts.strict, *r),
    ensures
        res is None <==> parametric_ok(*ext, *reference, *opts, *r),
{
    proof {
        lemma_mos_index_ext(*ext, opts.strict, r.ga, r.ext_names@);
        lemma_mos_index_ref(*reference, opts.strict, r.gb, views(r.ref_names@));
    }
    let mut i: usize = 0;
    while i < r.ga.devs.len()
        invariant
            refined_ok(*ext, *reference, opts.strict, *r),
            mos_index_ok(r.ga, ext.devices@.len()),
            mos_index_ok(r.gb, reference.devices@.len()),
            i <= r.ga.devs@.len(),
            forall|k: int| 0 <= k < i && (#[trigger] r.ga.devs@[k]).is_mos ==> {
                let c = r.dev_cls_a@[k];
                pairs_within(
                    sort_pairs(ext_pairs(r.ga, r.dev_cls_a@, ext.devices@, c, r.ga.devs@.len() as int)),
                    sort_pairs(ref_pairs(r.gb, r.dev_cls_b@, reference.devices@, c, r.gb.devs@.len() as int)),
                    opts.w_tolerance, opts.l_tolerance)
            },
        decreases r.ga.devs@.len() - i,
    {
        if r.ga.devs[i].is_mos {
            let c = r.dev_cls_a[i];
            let xs = collect_ext_pairs(&r.ga, &r.dev_cls_a, &ext.devices, c);
            let ys = collect_ref_pairs(&r.gb, &r.dev_cls_b, &reference.devices, c);
            let xs = sort_pairs_exec(&xs);
            let ys = sort_pairs_exec(&ys);
            let f = first_pair_failure(&xs, &ys, opts.w_tolerance, opts.l_tolerance);
            if f.is_some() {
                return f;
            }
        }
        i = i + 1;
    }
    None
}

proof fn lemma_mos_index_ext(ext: ExtractedNetlist, strict: bool, g: TopoGraph, names: Seq<u32>)
    requires
        ext_graph(ext, strict, g, names),
    ensures
        mos_index_ok(g, ext.devices@.len()),
{
    let nd = ext.devices@.len();
    let nb = ext.bjt_devices@.len();
    assert forall|i: int| 0 <= i < g.devs@.len() && (#[trigger] g.devs@[i]).is_mos implies (g.devs@[i].orig_idx as int) < nd by {
        if i < nd {
            let d = ext.devices@[i];
            assert(g.devs@[i].orig_idx == i);
        } else if i < nd + nb {
            let j = i - nd;
            let d = ext.bjt_devices@[j];
            assert(nd + j == i);
            assert(!g.devs@[nd + j].is_mos);
        } else {
            let j = i - nd - nb;
            let d = ext.two_terminal@[j];
            assert(nd + nb + j == i);
            assert(!g.devs@[nd + nb + j].is_mos);
        }
    }
}

proof fn lemma_mos_index_ref(reference: RefNetlist, strict: bool, g: TopoGraph, names: Seq<Seq<char>>)
    requires
        ref_graph(reference, strict, g, names),
    ensures
        mos_index_ok(g, reference.devices@.len()),
{
    let nd = reference.devices@.len();
    let nb = reference.ref_bjt@.len();
    assert forall|i: int| 0 <= i < g.devs@.len() && (#[trigger] g.devs@[i]).is_mos implies (g.devs@[i].orig_idx as int) < nd by {
        if i < nd {
            let d = reference.devices@[i];
            assert(g.devs@[i].orig_idx == i);
        } else if i < nd + nb {
            let j = i - nd;
            let d = reference.ref_bjt@[j];
            assert(nd + j == i);
            assert(!g.devs@[nd + j].is_mos);
        } else {
            let j = i - nd - nb;
            let d = reference.ref_two_terminal@[j];
            assert(nd + nb + j == i);
            assert(!g.devs@[nd + nb + j].is_mos);
        }
    }
}


// --- comparison ---

pub open spec fn count_reason(en: nat, ep: nat, rn: nat, rp: nat) -> Seq<char> {
    "device count mismatch: layout has "@ + decimal(en) + " NMOS and "@ + decimal(ep)
        + " PMOS, reference has "@ + decimal(rn) + " NMOS and "@ + decimal(rp) + " PMOS"@
}

pub open spec fn bjt_reason(eb: nat, rb: nat) -> Seq<char> {
    "bipolar device count mismatch: layout has "@ + decimal(eb) + ", reference has "@ + decimal(rb)
}

pub open spec fn topology_reason(what: Seq<char>, c: nat, ca: nat, cb: nat) -> Seq<char> {
    "topology mismatch: "@ + what + " class "@ + decimal(c) + " has "@ + decimal(ca) + " in layout vs "@
        + decimal(cb) + " in reference"@
}

/// The MOS kind counts and the bipolar count of both netlists agree.
pub open spec fn counts_agree(ext: ExtractedNetlist, reference: RefNetlist) -> bool {
    &&& count_kind(ext.devices@, DeviceKind::Nmos) == count_ref_kind(reference.devices@, DeviceKind::Nmos)
    &&& count_kind(ext.devices@, DeviceKind::Pmos) == count_ref_kind(reference.devices@, DeviceKind::Pmos)
    &&& ext.bjt_devices@.len() == reference.ref_bjt@.len()
}

/// Verdict on a refined state: balanced device and net classes, distinct
/// seeded nets, and matching sizes where the reference gives them.
pub open spec fn refined_match(ext: ExtractedNetlist, reference: RefNetlist, opts: CompareOpts, r: Refined) -> bool {
    &&& balanced(r.dev_cls_a@, r.dev_cls_b@)
    &&& balanced(r.net_cls_a@, r.net_cls_b@)
    &&& !seed_conflict(reference.net_seeds@, views(r.ref_names@), r.net_cls_b@)
    &&& (enforce_parametric(reference.devices@) ==> parametric_ok(ext, reference, opts, r))
}

/// Reason text of a verdict on a refined state, by precedence: topology,
/// seeded nets, sizes.
pub open spec fn refined_reason_ok(ext: ExtractedNetlist, reference: RefNetlist, opts: CompareOpts, r: Refined, reason: Seq<char>) -> bool {
    if !balanced(r.dev_cls_a@, r.dev_cls_b@) || !balanced(r.net_cls_a@, r.net_cls_b@) {
        starts_with(reason, "topology mismatch: "@)
    } else if seed_conflict(reference.net_seeds@, views(r.ref_names@), r.net_cls_b@) {
        starts_with(reason, "net seed conflict: "@)
    } else if enforce_parametric(reference.devices@) && !parametric_ok(ext, reference, opts, r) {
        starts_with(reason, "parametric mismatch: expected W/L "@)
    } else {
        reason == "match"@
    }
}

fn copy_strings(v: &Vec<String>) -> (r: Vec<String>)
    ensures
        r@ == v@,
{
    let mut r: Vec<String> = Vec::new();
    let mut i: usize = 0;
    while i < v.len()
        invariant
            i <= v@.len(),
            r@ == v@.subrange(0, i as int),
        decreases v@.len() - i,
    {
        r.push(v[i].clone());
        assert(r@ =~= v@.subrange(0, i as int + 1));
        i = i + 1;
    }
    assert(r@ =~= v@);
    r
}

fn copy_floating_nets(v: &Vec<FloatingNet>) -> (r: Vec<FloatingNet>)
    ensures
        r@ == v@,
{
    let mut r: Vec<FloatingNet> = Vec::new();
    let mut i: usize = 0;
    while i < v.len()
        invariant
            i <= v@.len(),
            r@ == v@.subrange(0, i as int),
        decreases v@.len() - i,
    {
        let f = &v[i];
        let label = match &f.label {
            Some(s) => Some(s.clone()),
            None => None,
        };
        r.push(FloatingNet { net_id: f.net_id, label, polygon_count: f.polygon_count });
        assert(r@ =~= v@.subrange(0, i as int + 1));
        i = i + 1;
    }
    assert(r@ =~= v@);
    r
}

fn finish(ext: &ExtractedNetlist, matched: bool, reason: String, ambiguous: usize, mismatches: Vec<Mismatch>,
    nmos: usize, pmos: usize) -> (r: LvsResult)
    ensures
        r.matched == matched,
        r.reason@ == reason@,
        r.ambiguous_classes == ambiguous,
        r.mismatches@ == mismatches@,
        r.extracted_devices == ext.devices@.len(),
        r.nmos == nmos,
        r.pmos == pmos,
        r.label_conflicts@ == ext.label_conflicts@,
        r.floating_nets@ == ext.floating_nets@,
{
    LvsResult {
        matched,
        reason,
        mismatches,
        extracted_devices: ext.devices.len(),
        nmos,
        pmos,
        ambiguous_classes: ambiguous,
        label_conflicts: copy_strings(&ext.label_conflicts),
        floating_nets: copy_floating_nets(&ext.floating_nets),
    }
}

/// Floating nets and label conflicts, which never fail a comparison by themselves.
fn initial_findings(ext: &ExtractedNetlist) -> (m: Vec<Mismatch>)
    ensures
        m@.len() == ext.floating_nets@.len() + ext.label_conflicts@.len(),
{
    let mut m: Vec<Mismatch> = Vec::new();
    let mut i: usize = 0;
    while i < ext.floating_nets.len()
        invariant
            i <= ext.floating_nets@.len(),
            m@.len() == i,
        decreases ext.floating_nets@.len() - i,
    {
        let f = &ext.floating_nets[i];
        m.push(Mismatch::FloatingNet { net_id: f.net_id, label: f.label.clone() });
        i = i + 1;
    }
    let mut j: usize = 0;
    while j < ext.label_conflicts.len()
        invariant
            j <= ext.label_conflicts@.len(),
            m@.len() == ext.floating_nets@.len() + j,
        decreases ext.label_conflicts@.len() - j,
    {
        m.push(Mismatch::LabelConflict { net_id: 0, labels: vec![ext.label_conflicts[j].clone()] });
        j = j + 1;
    }
    m
}

fn topology_text(what: &str, c: u64, ca: usize, cb: usize) -> (s: String)
    ensures
        s@ == topology_reason(what@, c as nat, ca as nat, cb as nat),
{
    let mut s = text_of("topology mismatch: ");
    s.append(what);
    s.append(" class ");
    push_decimal(&mut s, c);
    s.append(" has ");
    push_decimal(&mut s, ca as u64);
    s.append(" in layout vs ");
    push_decimal(&mut s, cb as u64);
    s.append(" in reference");
    s
}

/// Verdict on a refined state (precedence: topology, seeded nets, sizes).
pub fn verdict(ext: &ExtractedNetlist, reference: &RefNetlist, opts: &CompareOpts, r: &Refined,
    mismatches: &mut Vec<Mismatch>) -> (res: (bool, String))
    requires
        refined_ok(*ext, *reference, opts.strict, *r),
    ensures
        res.0 == refined_match(*ext, *reference, *opts, *r),
        refined_reason_ok(*ext, *reference, *opts, *r, res.1@),
        final(mismatches)@.len() == old(mismatches)@.len() + (if res.0 { 0int } else { 1int }),
{
    match first_unbalanced(&r.dev_cls_a, &r.dev_cls_b) {
        Some((c, ca, cb)) => {
            let reason = topology_text("device", c, ca, cb);
            let mut d = text_of("device");
            d.append(" class ");
            push_decimal(&mut d, c);
            mismatches.push(Mismatch::TopologyMismatch { description: d });
            assert(reason@.subrange(0, "topology mismatch: "@.len() as int) =~= "topology mismatch: "@);
            return (false, reason);
        },
        None => {},
    }
    match first_unbalanced(&r.net_cls_a, &r.net_cls_b) {
        Some((c, ca, cb)) => {
            let reason = topology_text("net", c, ca, cb);
            let mut d = text_of("net");
            d.append(" class ");
            push_decimal(&mut d, c);
            mismatches.push(Mismatch::TopologyMismatch { description: d });
            assert(reason@.subrange(0, "topology mismatch: "@.len() as int) =~= "topology mismatch: "@);
            return (false, reason);
        },
        None => {},
    }
    match first_seed_conflict(&reference.net_seeds, &r.ref_names, &r.net_cls_b) {
        Some((i, j)) => {
            let mut reason = text_of("net seed conflict: ");
            reason.append(reference.net_seeds[i].as_str());
            reason.append(" and ");
            reason.append(reference.net_seeds[j].as_str());
            reason.append(" are isomorphic");
            mismatches.push(Mismatch::NetSeedConflict {
                nets: vec![reference.net_seeds[i].clone(), reference.net_seeds[j].clone()],
            });
            assert(reason@.subrange(0, "net seed conflict: "@.len() as int) =~= "net seed conflict: "@);
            return (false, reason);
        },
        None => {},
    }
    if all_sizes_given(&reference.devices) {
        match first_parametric_failure(ext, reference, opts, r) {
            Some((e, g)) => {
                let mut reason = text_of("parametric mismatch: expected W/L ");
                push_signed(&mut reason, e.0 as i64);
                reason.append("/");
                push_signed(&mut reason, e.1 as i64);
                reason.append(" got ");
                push_signed(&mut reason, g.0 as i64);
                reason.append("/");
                push_signed(&mut reason, g.1 as i64);
                mismatches.push(Mismatch::ParametricMismatch {
                    property: text_of("W/L"),
                    got: g.0 as i64,
                    expected: e.0 as i64,
                    tolerance: opts.w_tolerance.abs_nm,
                });
                assert(reason@.subrange(0, "parametric mismatch: expected W/L "@.len() as int)
                    =~= "parametric mismatch: expected W/L "@);
                return (false, reason);
            },
            None => {},
        }
    }
    (true, text_of("match"))
}

/// Compares an extracted netlist with a reference netlist. Device counts are
/// checked first (MOS per kind, then bipolar); otherwise the verdict is read
/// from the refined classes of the two graphs.
pub fn compare(ext: &ExtractedNetlist, reference: &RefNetlist, opts: &CompareOpts) -> (res: LvsResult)
    ensures
        res.extracted_devices == ext.devices@.len(),
        res.nmos == count_kind(ext.devices@, DeviceKind::Nmos),
        res.pmos == count_kind(ext.devices@, DeviceKind::Pmos),
        res.label_conflicts@ == ext.label_conflicts@,
        res.floating_nets@ == ext.floating_nets@,
        res.mismatches@.len() == ext.floating_nets@.len() + ext.label_conflicts@.len() + (if res.matched { 0int } else { 1int }),
        (count_kind(ext.devices@, DeviceKind::Nmos) != count_ref_kind(reference.devices@, DeviceKind::Nmos)
            || count_kind(ext.devices@, DeviceKind::Pmos) != count_ref_kind(reference.devices@, DeviceKind::Pmos)) ==> {
            &&& !res.matched
            &&& res.ambiguous_classes == 0
            &&& res.reason@ == count_reason(count_kind(ext.devices@, DeviceKind::Nmos), count_kind(ext.devices@, DeviceKind::Pmos),
                count_ref_kind(reference.devices@, DeviceKind::Nmos), count_ref_kind(reference.devices@, DeviceKind::Pmos))
        },
        (count_kind(ext.devices@, DeviceKind::Nmos) == count_ref_kind(reference.devices@, DeviceKind::Nmos)
            && count_kind(ext.devices@, DeviceKind::Pmos) == count_ref_kind(reference.devices@, DeviceKind::Pmos)
            && ext.bjt_devices@.len() != reference.ref_bjt@.len()) ==> {
            &&& !res.matched
            &&& res.ambiguous_classes == 0
            &&& res.reason@ == bjt_reason(ext.bjt_devices@.len(), reference.ref_bjt@.len())
        },
        counts_agree(*ext, *reference) ==> exists|r: Refined| {
            &&& refined_ok(*ext, *reference, opts.strict, r)
            &&& refined_stable(r)
            &&& refined_history(r)
            &&& res.ambiguous_classes == r.ambiguous
            &&& res.matched == refined_match(*ext, *reference, *opts, r)
            &&& refined_reason_ok(*ext, *reference, *opts, r, res.reason@)
        },
{
    let ext_n = count_devices_of_kind(&ext.devices, DeviceKind::Nmos);
    let ext_p = count_devices_of_kind(&ext.devices, DeviceKind::Pmos);
    let ref_n = count_ref_devices_of_kind(&reference.devices, DeviceKind::Nmos);
    let ref_p = count_ref_devices_of_kind(&reference.devices, DeviceKind::Pmos);
    let mut mismatches = initial_findings(ext);
    if ext_n != ref_n || ext_p != ref_p {
        let mut reason = text_of("device count mismatch: layout has ");
        push_decimal(&mut reason, ext_n as u64);
        reason.append(" NMOS and ");
        push_decimal(&mut reason, ext_p as u64);
        reason.append(" PMOS, reference has ");
        push_decimal(&mut reason, ref_n as u64);
        reason.append(" NMOS and ");
        push_decimal(&mut reason, ref_p as u64);
        reason.append(" PMOS");
        mismatches.push(Mismatch::DeviceCount { kind: text_of("MOS"), layout: ext_n, reference: ref_n });
        return finish(ext, false, reason, 0, mismatches, ext_n, ext_p);
    }
    if ext.bjt_devices.len() != reference.ref_bjt.len() {
        let mut reason = text_of("bipolar device count mismatch: layout has ");
        push_decimal(&mut reason, ext.bjt_devices.len() as u64);
        reason.append(", reference has ");
        push_decimal(&mut reason, reference.ref_bjt.len() as u64);
        mismatches.push(Mismatch::DeviceCount {
            kind: text_of("BJT"),
            layout: ext.bjt_devices.len(),
            reference: reference.ref_bjt.len(),
        });
        return finish(ext, false, reason, 0, mismatches, ext_n, ext_p);
    }
    let refined = refine(ext, reference, opts);
    let (matched, reason) = verdict(ext, reference, opts, &refined, &mut mismatches);
    let res = finish(ext, matched, reason, refined.ambiguous, mismatches, ext_n, ext_p);
    assert(refined_ok(*ext, *reference, opts.strict, refined));
    assert(refined_stable(refined));
    assert(refined_history(refined));
    res
}

/// Sizes decide a match: when every reference MOS device states its size,
/// a matching verdict means that in every MOS device class the `k`-th
/// smallest layout `(W, L)` has its W within the W tolerance of the `k`-th
/// smallest reference W and its L within the L tolerance of that reference
/// L. So a class whose layout lengths differ from the reference's beyond
/// the L tolerance never matches.
pub proof fn lemma_match_checks_sizes(ext: ExtractedNetlist, reference: RefNetlist, opts: CompareOpts, r: Refined, i: int, k: int)
    requires
        refined_match(ext, reference, opts, r),
        enforce_parametric(reference.devices@),
        0 <= i < r.ga.devs@.len(),
        r.ga.devs@[i].is_mos,
    ensures
        ({
            let c = r.dev_cls_a@[i];
            let x = sort_pairs(ext_pairs(r.ga, r.dev_cls_a@, ext.devices@, c, r.ga.devs@.len() as int));
            let y = sort_pairs(ref_pairs(r.gb, r.dev_cls_b@, reference.devices@, c, r.gb.devs@.len() as int));
            0 <= k < x.len() && k < y.len() ==> {
                let d_w = if x[k].0 >= y[k].0 { x[k].0 - y[k].0 } else { y[k].0 - x[k].0 };
                let d_l = if x[k].1 >= y[k].1 { x[k].1 - y[k].1 } else { y[k].1 - x[k].1 };
                &&& (d_w <= opts.w_tolerance.abs_nm || d_w * 1_000_000 <= opts.w_tolerance.rel_ppm * y[k].0)
                &&& (d_l <= opts.l_tolerance.abs_nm || d_l * 1_000_000 <= opts.l_tolerance.rel_ppm * y[k].1)
            }
        }),
{
    assert(parametric_ok(ext, reference, opts, r));
    let c = r.dev_cls_a@[i];
    let x = sort_pairs(ext_pairs(r.ga, r.dev_cls_a@, ext.devices@, c, r.ga.devs@.len() as int));
    let y = sort_pairs(ref_pairs(r.gb, r.dev_cls_b@, reference.devices@, c, r.gb.devs@.len() as int));
    assert(pairs_within(x, y, opts.w_tolerance, opts.l_tolerance));
    if 0 <= k < x.len() && k < y.len() {
        assert(within(x[k].0 as int, y[k].0 as int, opts.w_tolerance) && within(x[k].1 as int, y[k].1 as int, opts.l_tolerance));
    }
}

} // verus!
