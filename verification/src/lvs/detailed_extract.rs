//! Detailed extraction: errors located by hierarchy path, named soft
//! connections, which deck layers a TEXT label may sit on, and which MOS
//! rule an extracted device belongs to.
use vstd::prelude::*;
use crate::io::params::{last_gds, LayerTable, MosRule};
use crate::lvs::gds_adapter::PortDirection;
use crate::lvs::types::{path_view, DeviceFlavor, DeviceKind, ExtractOpts, HierarchyPath};
use crate::text::{decimal, eq_ignore_ascii_case, push_decimal, same_ignoring_ascii_case};

verus! {

/// What went wrong during detailed extraction.
#[derive(Debug, Clone, Copy, PartialEq, Eq)]
pub enum DetailedExtractionErrorKind {
    InvalidGeometry,
    UnsupportedGeometry,
    Connectivity,
    AmbiguousText,
    UnattachedText,
    LabelConflict,
    MissingPort,
    DeviceRecognition,
    InvalidProperty,
    InvalidPolicy,
}

/// A detailed-extraction failure, naming the object and its hierarchy path.
#[derive(Debug, Clone, PartialEq, Eq)]
pub struct DetailedExtractionError {
    pub kind: DetailedExtractionErrorKind,
    pub object: String,
    pub hierarchy_path: HierarchyPath,
    pub message: String,
}

impl DetailedExtractionError {
    pub fn new(kind: DetailedExtractionErrorKind, object: String, hierarchy_path: HierarchyPath, message: String) -> (e: DetailedExtractionError)
        ensures
            e == (DetailedExtractionError { kind, object, hierarchy_path, message }),
    {
        DetailedExtractionError { kind, object, hierarchy_path, message }
    }
}

/// A declared soft connection between two named nets, under a policy.
#[derive(Debug, Clone, PartialEq, Eq)]
pub struct NamedSoftConnection {
    pub from_name: String,
    pub to_name: String,
    pub policy_id: String,
}

/// Options of a detailed extraction. `ports` holds one entry per port name
/// and `globals` no name twice.
#[derive(Debug, Clone)]
pub struct DetailedExtractionOptions {
    pub cell_name: String,
    pub extract: ExtractOpts,
    pub ports: Vec<(String, PortDirection)>,
    pub globals: Vec<String>,
    pub soft_connections: Vec<NamedSoftConnection>,
    pub require_all_text_attached: bool,
    pub allow_multiple_labels_per_net: bool,
    /// Explicit shared-substrate net for MOS rules without a well layer.
    pub default_substrate_net: Option<u32>,
}

impl DetailedExtractionOptions {
    /// Cell `TOP`, default extraction, no ports, globals or soft
    /// connections; every TEXT must attach and a net takes one label.
    pub fn new() -> (o: DetailedExtractionOptions)
        ensures
            o.cell_name@ == "TOP"@,
            !o.extract.cut_required,
            o.ports@.len() == 0,
            o.globals@.len() == 0,
            o.soft_connections@.len() == 0,
            o.require_all_text_attached,
            !o.allow_multiple_labels_per_net,
            o.default_substrate_net is None,
    {
        DetailedExtractionOptions {
            cell_name: String::from_str("TOP"),
            extract: ExtractOpts::new(),
            ports: Vec::new(),
            globals: Vec::new(),
            soft_connections: Vec::new(),
            require_all_text_attached: true,
            allow_multiple_labels_per_net: false,
            default_substrate_net: None,
        }
    }
}

/// Ids of the layers whose GDS layer number is `layer`, ascending.
pub open spec fn ids_on_gds_layer(gds: Seq<(i32, i32)>, layer: i32, n: int) -> Seq<u32>
    decreases n,
{
    if n <= 0 {
        Seq::empty()
    } else if gds[n - 1].0 == layer {
        ids_on_gds_layer(gds, layer, n - 1).push((n - 1) as u32)
    } else {
        ids_on_gds_layer(gds, layer, n - 1)
    }
}

/// The deck layers a TEXT on GDS `layer`/`datatype` may label: the layer
/// mapped to exactly that pair if there is one, else every layer with that
/// GDS layer number, whatever its datatype.
pub open spec fn text_layers(layers: LayerTable, layer: i32, datatype: i32) -> Seq<u32> {
    match last_gds(layers.id_to_gds@, layer, datatype, layers.id_to_gds@.len() as int) {
        Some(k) => seq![k as u32],
        None => ids_on_gds_layer(layers.id_to_gds@, layer, layers.id_to_gds@.len() as int),
    }
}

pub fn text_candidate_layers(layers: &LayerTable, layer: i32, datatype: i32) -> (r: Vec<u32>)
    requires
        layers.wf(),
    ensures
        r@ == text_layers(*layers, layer, datatype),
{
    if let Some(exact) = layers.from_gds(layer, datatype) {
        return vec![exact];
    }
    let mut out: Vec<u32> = Vec::new();
    let mut i: usize = 0;
    while i < layers.id_to_gds.len()
        invariant
            layers.wf(),
            i <= layers.id_to_gds@.len(),
            out@ == ids_on_gds_layer(layers.id_to_gds@, layer, i as int),
        decreases layers.id_to_gds@.len() - i,
    {
        if layers.id_to_gds[i].0 == layer {
            out.push(i as u32);
        }
        i = i + 1;
    }
    out
}

/// The device type a MOS rule names for `kind`.
pub open spec fn kind_word(kind: DeviceKind) -> Seq<char> {
    match kind {
        DeviceKind::Nmos => "nmos"@,
        DeviceKind::Pmos => "pmos"@,
        DeviceKind::Npn => "npn"@,
        DeviceKind::Pnp => "pnp"@,
    }
}

pub fn mos_kind_name(kind: &DeviceKind) -> (s: &'static str)
    ensures
        s@ == kind_word(*kind),
{
    match kind {
        DeviceKind::Nmos => "nmos",
        DeviceKind::Pmos => "pmos",
        DeviceKind::Npn => "npn",
        DeviceKind::Pnp => "pnp",
    }
}

/// The marker name of a flavor.
pub open spec fn flavor_word(flavor: DeviceFlavor) -> Seq<char> {
    match flavor {
        DeviceFlavor::Lvt => "lvt"@,
        DeviceFlavor::Hvt => "hvt"@,
        DeviceFlavor::Standard => "standard"@,
    }
}

fn flavor_name_of(flavor: DeviceFlavor) -> (s: &'static str)
    ensures
        s@ == flavor_word(flavor),
{
    match flavor {
        DeviceFlavor::Lvt => "lvt",
        DeviceFlavor::Hvt => "hvt",
        DeviceFlavor::Standard => "standard",
    }
}

pub open spec fn class_view(c: Option<String>) -> Option<Seq<char>> {
    match c {
        Some(s) => Some(s@),
        None => None,
    }
}

pub open spec fn str_class_view(c: Option<&str>) -> Option<Seq<char>> {
    match c {
        Some(s) => Some(s@),
        None => None,
    }
}

/// A rule describes a device of `kind`, `flavor` and `class`: its device
/// type names the kind (ignoring ASCII case), its class is the class, and a
/// non-standard flavor is among its markers' names (ignoring ASCII case).
pub open spec fn rule_fits(rule: MosRule, kind: DeviceKind, flavor: DeviceFlavor, class: Option<Seq<char>>) -> bool {
    &&& eq_ignore_ascii_case(rule.device_type@, kind_word(kind))
    &&& class_view(rule.device_class) == class
    &&& (flavor == DeviceFlavor::Standard || exists|j: int|
        0 <= j < rule.flavor_markers@.len() && eq_ignore_ascii_case((#[trigger] rule.flavor_markers@[j]).1@, flavor_word(flavor)))
}

/// Indices of the fitting rules among the first `k`, ascending.
pub open spec fn fitting_rules(rules: Seq<MosRule>, kind: DeviceKind, flavor: DeviceFlavor, class: Option<Seq<char>>, k: int) -> Seq<int>
    decreases k,
{
    if k <= 0 {
        Seq::empty()
    } else if rule_fits(rules[k - 1], kind, flavor, class) {
        fitting_rules(rules, kind, flavor, class, k - 1).push(k - 1)
    } else {
        fitting_rules(rules, kind, flavor, class, k - 1)
    }
}

/// The names of the rules at `idx`, as a bracketed list of quoted names.
pub open spec fn quoted_rule_names(rules: Seq<MosRule>, idx: Seq<int>) -> Seq<char>
    decreases idx.len(),
{
    if idx.len() == 0 {
        Seq::empty()
    } else {
        let prev = quoted_rule_names(rules, idx.drop_last());
        (if idx.len() > 1 { prev + ", "@ } else { prev }) + "\""@ + rules[idx.last()].name@ + "\""@
    }
}

fn fits_exec(rule: &MosRule, kind: &DeviceKind, flavor: DeviceFlavor, class: Option<&str>) -> (b: bool)
    ensures
        b == rule_fits(*rule, *kind, flavor, str_class_view(class)),
{
    if !same_ignoring_ascii_case(rule.device_type.as_str(), mos_kind_name(kind)) {
        return false;
    }
    let same_class = match (&rule.device_class, class) {
        (Some(a), Some(b)) => *a == String::from_str(b),
        (None, None) => true,
        _ => false,
    };
    if !same_class {
        return false;
    }
    if flavor == DeviceFlavor::Standard {
        return true;
    }
    let word = flavor_name_of(flavor);
    let mut j: usize = 0;
    while j < rule.flavor_markers.len()
        invariant
            j <= rule.flavor_markers@.len(),
            word@ == flavor_word(flavor),
            flavor != DeviceFlavor::Standard,
            eq_ignore_ascii_case(rule.device_type@, kind_word(*kind)),
            class_view(rule.device_class) == str_class_view(class),
            forall|q: int| 0 <= q < j ==> !eq_ignore_ascii_case((#[trigger] rule.flavor_markers@[q]).1@, flavor_word(flavor)),
        decreases rule.flavor_markers@.len() - j,
    {
        if same_ignoring_ascii_case(rule.flavor_markers[j].1.as_str(), word) {
            assert(eq_ignore_ascii_case(rule.flavor_markers@[j as int].1@, flavor_word(flavor)));
            return true;
        }
        j = j + 1;
    }
    false
}

/// The configured MOS rule an extracted device of `kind`, `flavor` and
/// `class` belongs to; exactly one rule must fit (see `rule_fits`).
pub fn match_mos_rule<'a>(
    rules: &'a Vec<MosRule>,
    kind: &DeviceKind,
    flavor: DeviceFlavor,
    class: Option<&str>,
    device_index: usize,
    path: &HierarchyPath,
) -> (r: Result<&'a MosRule, DetailedExtractionError>)
    ensures
        ({
            let fit = fitting_rules(rules@, *kind, flavor, str_class_view(class), rules@.len() as int);
            if fit.len() == 1 {
                r matches Ok(rule) && *rule == rules@[fit[0]]
            } else {
                &&& r matches Err(e)
                &&& e.kind == DetailedExtractionErrorKind::DeviceRecognition
                &&& e.object@ == "MOS "@ + decimal(device_index as nat)
                &&& path_view(e.hierarchy_path) == path_view(*path)
                &&& e.message@ == if fit.len() == 0 {
                    "extracted MOS cannot be associated with a configured recognition rule"@
                } else {
                    "extracted MOS identity is ambiguous across rules "@ + "["@ + quoted_rule_names(rules@, fit) + "]"@
                }
            }
        }),
{
    let ghost cv = str_class_view(class);
    let mut fit: Vec<usize> = Vec::new();
    let mut i: usize = 0;
    while i < rules.len()
        invariant
            i <= rules@.len(),
            cv == str_class_view(class),
            fit@.len() == fitting_rules(rules@, *kind, flavor, cv, i as int).len(),
            forall|q: int| 0 <= q < fit@.len() ==> fit@[q] as int == #[trigger] fitting_rules(rules@, *kind, flavor, cv, i as int)[q],
            forall|q: int| 0 <= q < fit@.len() ==> (#[trigger] fit@[q]) < i,
        decreases rules@.len() - i,
    {
        if fits_exec(&rules[i], kind, flavor, class) {
            fit.push(i);
        }
        i = i + 1;
    }
    let ghost spec_fit = fitting_rules(rules@, *kind, flavor, cv, rules@.len() as int);
    if fit.len() == 1 {
        return Ok(&rules[fit[0]]);
    }
    let mut object = String::from_str("MOS ");
    push_decimal(&mut object, device_index as u64);
    if fit.len() == 0 {
        return Err(DetailedExtractionError::new(
            DetailedExtractionErrorKind::DeviceRecognition,
            object,
            path.duplicate(),
            String::from_str("extracted MOS cannot be associated with a configured recognition rule"),
        ));
    }
    let mut m = String::from_str("extracted MOS identity is ambiguous across rules ");
    m.append("[");
    let ghost head = m@;
    let mut k: usize = 0;
    while k < fit.len()
        invariant
            k <= fit@.len(),
            fit@.len() == spec_fit.len(),
            forall|q: int| 0 <= q < fit@.len() ==> fit@[q] as int == #[trigger] spec_fit[q],
            forall|q: int| 0 <= q < fit@.len() ==> (#[trigger] fit@[q]) < rules@.len(),
            m@ == head + quoted_rule_names(rules@, spec_fit.take(k as int)),
        decreases fit@.len() - k,
    {
        assert(spec_fit.take(k as int + 1).drop_last() =~= spec_fit.take(k as int));
        if k > 0 {
            m.append(", ");
        }
        m.append("\"");
        m.append(rules[fit[k]].name.as_str());
        m.append("\"");
        k = k + 1;
    }
    assert(spec_fit.take(k as int) =~= spec_fit);
    m.append("]");
    Err(DetailedExtractionError::new(DetailedExtractionErrorKind::DeviceRecognition, object, path.duplicate(), m))
}

} // verus!
