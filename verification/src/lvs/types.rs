//! Netlist types shared by extraction, reduction and comparison.
use vstd::prelude::*;

verus! {

/// Kind of an active device.
#[derive(Clone, Copy, Debug, PartialEq, Eq, Structural)]
pub enum DeviceKind {
    Nmos,
    Pmos,
    Npn,
    Pnp,
}

/// Threshold-voltage flavor of a MOS device.
#[derive(Clone, Copy, Debug, PartialEq, Eq, Structural)]
pub enum DeviceFlavor {
    Standard,
    Lvt,
    Hvt,
}

/// Kind of a two-terminal passive device.
#[derive(Clone, Copy, Debug, PartialEq, Eq, Structural)]
pub enum TwoTerminalKind {
    Resistor,
    Diode,
    Capacitor,
}

/// An extracted MOS device. Net ids index the extracted net space; `body`
/// uses `u32::MAX` for an unresolved well terminal before the public adapter
/// rewrites it.
#[derive(Clone, Debug)]
pub struct Device {
    pub kind: DeviceKind,
    pub gate: u32,
    pub source: u32,
    pub drain: u32,
    pub body: u32,
    pub flavor: DeviceFlavor,
    pub w: i32,
    pub l: i32,
    pub device_class: Option<String>,
}

/// An extracted bipolar transistor.
#[derive(Clone, Debug)]
pub struct BjtDevice {
    pub kind: DeviceKind,
    pub collector: u32,
    pub base: u32,
    pub emitter: u32,
    pub name: String,
}

/// An extracted two-terminal device. `terminal_a` is the anode of a diode.
/// `value_bits` carries the device value (ohms or attofarads) as the raw bits
/// of an IEEE-754 double; matching never reads it.
#[derive(Clone, Debug)]
pub struct TwoTerminalDevice {
    pub kind: TwoTerminalKind,
    pub name: String,
    pub terminal_a: u32,
    pub terminal_b: u32,
    pub value_bits: u64,
}

/// A net that carries geometry but no device terminal.
#[derive(Clone, Debug)]
pub struct FloatingNet {
    pub net_id: u32,
    pub label: Option<String>,
    pub polygon_count: usize,
}

/// Which recognized polygons produced a MOS device.
#[derive(Clone, Debug)]
pub struct DeviceRecognitionSource {
    pub gate_polygon: u32,
    pub channel_polygon: u32,
    pub well_polygon: Option<u32>,
    pub rule_id: String,
}

/// Netlist extracted from layout geometry.
#[derive(Clone, Debug)]
pub struct ExtractedNetlist {
    pub devices: Vec<Device>,
    pub device_sources: Vec<DeviceRecognitionSource>,
    pub net_count: usize,
    pub used_nets: usize,
    pub net_of_poly: Vec<u32>,
    pub label_conflicts: Vec<String>,
    pub two_terminal: Vec<TwoTerminalDevice>,
    pub bjt_devices: Vec<BjtDevice>,
    pub floating_nets: Vec<FloatingNet>,
}

/// A MOS device of the reference (schematic) netlist; `w`/`l` of zero mean
/// "not specified".
#[derive(Clone, Debug)]
pub struct RefDevice {
    pub kind: DeviceKind,
    pub gate: String,
    pub source: String,
    pub drain: String,
    pub w: i32,
    pub l: i32,
    pub flavor: DeviceFlavor,
}

/// A reference bipolar transistor.
#[derive(Clone, Debug)]
pub struct RefBjt {
    pub kind: DeviceKind,
    pub collector: String,
    pub base: String,
    pub emitter: String,
    pub name: String,
}

/// A reference two-terminal device.
#[derive(Clone, Debug)]
pub struct RefTwoTerminal {
    pub kind: TwoTerminalKind,
    pub name: String,
    pub terminal_a: String,
    pub terminal_b: String,
}

/// Reference netlist. `net_seeds` names reference nets that must stay
/// distinguishable from each other after matching.
#[derive(Clone, Debug)]
pub struct RefNetlist {
    pub devices: Vec<RefDevice>,
    pub net_seeds: Vec<String>,
    pub ref_two_terminal: Vec<RefTwoTerminal>,
    pub ref_bjt: Vec<RefBjt>,
}

/// One finding of the comparison.
#[derive(Clone, Debug)]
pub enum Mismatch {
    FloatingNet { net_id: u32, label: Option<String> },
    LabelConflict { net_id: u32, labels: Vec<String> },
    DeviceCount { kind: String, layout: usize, reference: usize },
    TopologyMismatch { description: String },
    NetSeedConflict { nets: Vec<String> },
    ParametricMismatch { property: String, got: i64, expected: i64, tolerance: i64 },
}

/// Outcome of a layout-versus-schematic comparison.
#[derive(Clone, Debug)]
pub struct LvsResult {
    pub matched: bool,
    pub reason: String,
    pub mismatches: Vec<Mismatch>,
    pub extracted_devices: usize,
    pub nmos: usize,
    pub pmos: usize,
    pub ambiguous_classes: usize,
    pub label_conflicts: Vec<String>,
    pub floating_nets: Vec<FloatingNet>,
}

/// Extraction options.
#[derive(Clone, Copy, Debug)]
pub struct ExtractOpts {
    /// Layers connect only through explicit cut (via) shapes.
    pub cut_required: bool,
}

impl ExtractOpts {
    /// Options with every switch off.
    pub fn new() -> (r: ExtractOpts)
        ensures
            !r.cut_required,
    {
        ExtractOpts { cut_required: false }
    }
}

/// Width/length tolerance: a value within `abs_nm` of the expected one, or
/// within `rel_ppm` parts per million of it, is accepted.
#[derive(Clone, Copy, Debug)]
pub struct PropertyTolerance {
    pub abs_nm: i64,
    pub rel_ppm: i64,
}

impl PropertyTolerance {
    pub open spec fn default_spec() -> PropertyTolerance {
        PropertyTolerance { abs_nm: 0, rel_ppm: 20_000 }
    }

    /// The default tolerance: two percent of the expected value.
    pub fn new() -> (r: PropertyTolerance)
        ensures
            r == PropertyTolerance::default_spec(),
    {
        PropertyTolerance { abs_nm: 0, rel_ppm: 20_000 }
    }
}

/// Number of `Nmos` (or `Pmos`) devices in a device list.
pub open spec fn count_kind(devs: Seq<Device>, k: DeviceKind) -> nat
    decreases devs.len(),
{
    if devs.len() == 0 {
        0
    } else {
        count_kind(devs.drop_last(), k) + (if devs.last().kind == k { 1nat } else { 0nat })
    }
}

/// Number of reference MOS devices of kind `k`.
pub open spec fn count_ref_kind(devs: Seq<RefDevice>, k: DeviceKind) -> nat
    decreases devs.len(),
{
    if devs.len() == 0 {
        0
    } else {
        count_ref_kind(devs.drop_last(), k) + (if devs.last().kind == k { 1nat } else { 0nat })
    }
}

/// Counts the devices of kind `k`.
pub fn count_devices_of_kind(devs: &Vec<Device>, k: DeviceKind) -> (n: usize)
    ensures
        n == count_kind(devs@, k),
{
    let mut n: usize = 0;
    let mut i: usize = 0;
    while i < devs.len()
        invariant
            i <= devs.len(),
            n == count_kind(devs@.take(i as int), k),
            n <= i,
        decreases devs.len() - i,
    {
        assert(devs@.take(i as int + 1).drop_last() =~= devs@.take(i as int));
        if devs[i].kind == k {
            n = n + 1;
        }
        i = i + 1;
    }
    assert(devs@.take(devs.len() as int) =~= devs@);
    n
}

/// Counts the reference devices of kind `k`.
pub fn count_ref_devices_of_kind(devs: &Vec<RefDevice>, k: DeviceKind) -> (n: usize)
    ensures
        n == count_ref_kind(devs@, k),
{
    let mut n: usize = 0;
    let mut i: usize = 0;
    while i < devs.len()
        invariant
            i <= devs.len(),
            n == count_ref_kind(devs@.take(i as int), k),
            n <= i,
        decreases devs.len() - i,
    {
        assert(devs@.take(i as int + 1).drop_last() =~= devs@.take(i as int));
        if devs[i].kind == k {
            n = n + 1;
        }
        i = i + 1;
    }
    assert(devs@.take(devs.len() as int) =~= devs@);
    n
}


/// A path through the design hierarchy, outermost step first.
#[derive(Debug, Clone, PartialEq, Eq)]
pub struct HierarchyPath(pub Vec<String>);

/// The steps of a path as text.
pub open spec fn path_view(p: HierarchyPath) -> Seq<Seq<char>> {
    p.0@.map_values(|s: String| s@)
}

impl HierarchyPath {
    /// A copy of the path.
    pub fn duplicate(&self) -> (p: HierarchyPath)
        ensures
            path_view(p) == path_view(*self),
    {
        let mut steps: Vec<String> = Vec::new();
        let mut i: usize = 0;
        while i < self.0.len()
            invariant
                i <= self.0@.len(),
                steps@.len() == i,
                forall|q: int| 0 <= q < i ==> (#[trigger] steps@[q])@ == self.0@[q]@,
            decreases self.0@.len() - i,
        {
            steps.push(self.0[i].clone());
            i = i + 1;
        }
        let p = HierarchyPath(steps);
        assert(path_view(p) =~= path_view(*self));
        p
    }
}

} // verus!
