//! Vocabulary of the adapter from a GDS hierarchy to hierarchical LVS:
//! errors located by hierarchy path, stable ids of GDS objects, TEXT
//! evidence rules, black boxes, object kinds, and AREF arrays.
use vstd::prelude::*;
use std::collections::BTreeSet;
use crate::io::read::flatten::exact_pitch;
use crate::io::read::gds::{GdsArrayReference, GdsLibrary, GdsProperty, GdsStructure};
use crate::lvs::hier_transform::HierArray;
use crate::lvs::types::{path_view, ExtractOpts, HierarchyPath};
use crate::text::{
    blank, decimal, eq_ignore_ascii_case, is_blank, is_unpadded, push_decimal, push_signed, same_ignoring_ascii_case,
    signed_decimal, unpadded,
};

verus! {

/// What went wrong while adapting a GDS hierarchy.
#[derive(Debug, Clone, Copy, PartialEq, Eq)]
pub enum GdsHierarchyAdapterErrorKind {
    InvalidOptions,
    Unsupported,
    UnknownLayer,
    Extraction,
    MissingEvidence,
    AmbiguousEvidence,
    ConflictingEvidence,
    UndefinedCell,
    HierarchyCycle,
    CapacityExceeded,
}

/// Which TEXT elements name nets: those on `layer`/`datatype`, by their string
/// when `use_string` holds, and by the values of the listed property attributes.
#[derive(Debug, Clone, PartialEq, Eq)]
pub struct GdsTextEvidenceRule {
    pub layer: i16,
    pub datatype: i16,
    pub use_string: bool,
    pub label_property_attributes: BTreeSet<i16>,
}

/// Complete, ordered port declaration of a black-box cell.
#[derive(Debug, Clone, PartialEq, Eq)]
pub struct GdsBlackBoxAdapterSpec {
    pub ports: Vec<String>,
}

/// Kind of a GDS element that an adapted object came from.
#[derive(Debug, Clone, Copy, PartialEq, Eq, PartialOrd, Ord)]
pub enum GdsAdapterObjectKind {
    Boundary,
    Box,
    Path,
    Text,
    Sref,
    Aref,
}

/// Where an adapted object came from. Raw GDS properties are kept verbatim
/// and carry no electrical meaning unless an option accepts their attribute
/// as evidence.
#[derive(Debug, Clone, PartialEq, Eq)]
pub struct GdsObjectProvenance {
    pub stable_id: String,
    pub hierarchy_path: HierarchyPath,
    pub structure: String,
    pub element_index: usize,
    pub kind: GdsAdapterObjectKind,
    pub properties: Vec<GdsProperty>,
    pub element_flags: Option<u16>,
    pub plex: Option<i32>,
    pub text: Option<String>,
    pub local_net: Option<String>,
}

/// Provenance of the adapted objects, keyed by stable id in ascending order
/// (see `wf`).
#[derive(Debug, Clone, PartialEq, Eq)]
pub struct GdsHierarchyProvenance {
    pub objects: Vec<(String, GdsObjectProvenance)>,
}

impl GdsHierarchyProvenance {
    /// Keys ascend strictly.
    pub open spec fn wf(&self) -> bool {
        forall|i: int, j: int| 0 <= i < j < self.objects@.len() ==> text_lt(#[trigger] self.objects@[i].0@, #[trigger] self.objects@[j].0@)
    }

    /// No objects.
    pub fn new() -> (p: GdsHierarchyProvenance)
        ensures
            p.objects@.len() == 0,
            p.wf(),
    {
        GdsHierarchyProvenance { objects: Vec::new() }
    }
}

/// Hierarchy context handed to a DRC consumer: the stable paths of the
/// adapted objects.
#[derive(Debug, Clone, PartialEq, Eq)]
pub struct GdsDrcHierarchyContext {
    pub stable_paths: Vec<HierarchyPath>,
}

/// Message of `export_w3_drc_hierarchy_context` for `n` stable paths.
pub open spec fn drc_context_absent_message(n: nat) -> Seq<char> {
    "W3 DRC hierarchy/context consumer is absent in this integration base; "@ + decimal(n)
        + " stable GDS paths remain available in provenance"@
}

/// No DRC hierarchy consumer exists here: the export always fails on the
/// top cell as unsupported, saying how many stable paths the provenance keeps.
pub fn export_w3_drc_hierarchy_context(top_cell: &str, provenance: &GdsHierarchyProvenance)
    -> (r: Result<GdsDrcHierarchyContext, GdsHierarchyAdapterError>)
    ensures
        r matches Err(e) && e.kind == GdsHierarchyAdapterErrorKind::Unsupported && e.structure@ == top_cell@
            && e.element_index is None && path_view(e.hierarchy_path) == cell_path_view(top_cell@)
            && e.message@ == drc_context_absent_message(provenance.objects@.len()),
{
    let mut m = String::from_str("W3 DRC hierarchy/context consumer is absent in this integration base; ");
    push_decimal(&mut m, provenance.objects.len() as u64);
    m.append(" stable GDS paths remain available in provenance");
    Err(GdsHierarchyAdapterError::cell(GdsHierarchyAdapterErrorKind::Unsupported, top_cell, m))
}

/// The path of GDS structure `cell`.
pub open spec fn cell_path_view(cell: Seq<char>) -> Seq<Seq<char>> {
    seq!["gds:"@ + cell]
}

/// The path of element `element` of structure `cell`.
pub open spec fn element_path_view(cell: Seq<char>, element: nat) -> Seq<Seq<char>> {
    seq!["gds:"@ + cell, "E"@ + decimal(element)]
}

/// The path of part `part` of an element; part 0 is the element itself.
pub open spec fn source_path_view(cell: Seq<char>, element: nat, part: nat) -> Seq<Seq<char>> {
    if part == 0 {
        element_path_view(cell, element)
    } else {
        element_path_view(cell, element).push("P"@ + decimal(part))
    }
}

/// The stable id of part `part` of an element.
pub open spec fn source_id_text(cell: Seq<char>, element: nat, part: nat) -> Seq<char> {
    if part == 0 {
        "gds:"@ + cell + ":E"@ + decimal(element)
    } else {
        "gds:"@ + cell + ":E"@ + decimal(element) + ":P"@ + decimal(part)
    }
}

fn gds_step(cell: &str) -> (s: String)
    ensures
        s@ == "gds:"@ + cell@,
{
    let mut s = String::from_str("gds:");
    s.append(cell);
    s
}

fn numbered(prefix: &str, n: usize) -> (s: String)
    ensures
        s@ == prefix@ + decimal(n as nat),
{
    let mut s = String::from_str(prefix);
    push_decimal(&mut s, n as u64);
    s
}

pub fn cell_path(cell: &str) -> (p: HierarchyPath)
    ensures
        path_view(p) == cell_path_view(cell@),
{
    let steps = vec![gds_step(cell)];
    let p = HierarchyPath(steps);
    assert(path_view(p) =~= cell_path_view(cell@));
    p
}

pub fn element_path(cell: &str, element: usize) -> (p: HierarchyPath)
    ensures
        path_view(p) == element_path_view(cell@, element as nat),
{
    let steps = vec![gds_step(cell), numbered("E", element)];
    let p = HierarchyPath(steps);
    assert(path_view(p) =~= element_path_view(cell@, element as nat));
    p
}

pub fn source_path(cell: &str, element: usize, part: usize) -> (p: HierarchyPath)
    ensures
        path_view(p) == source_path_view(cell@, element as nat, part as nat),
{
    let mut steps = vec![gds_step(cell), numbered("E", element)];
    if part != 0 {
        steps.push(numbered("P", part));
    }
    let p = HierarchyPath(steps);
    assert(path_view(p) =~= source_path_view(cell@, element as nat, part as nat));
    p
}

pub fn source_id(cell: &str, element: usize, part: usize) -> (s: String)
    ensures
        s@ == source_id_text(cell@, element as nat, part as nat),
{
    let mut s = gds_step(cell);
    s.append(":E");
    push_decimal(&mut s, element as u64);
    if part != 0 {
        s.append(":P");
        push_decimal(&mut s, part as u64);
    }
    s
}

/// An adapter failure, located by structure, element and hierarchy path.
#[derive(Debug, Clone, PartialEq, Eq)]
pub struct GdsHierarchyAdapterError {
    pub kind: GdsHierarchyAdapterErrorKind,
    pub structure: String,
    pub element_index: Option<usize>,
    pub hierarchy_path: HierarchyPath,
    pub message: String,
}

impl GdsHierarchyAdapterError {
    pub fn new(
        kind: GdsHierarchyAdapterErrorKind,
        structure: String,
        element_index: Option<usize>,
        hierarchy_path: HierarchyPath,
        message: String,
    ) -> (e: GdsHierarchyAdapterError)
        ensures
            e == (GdsHierarchyAdapterError { kind, structure, element_index, hierarchy_path, message }),
    {
        GdsHierarchyAdapterError { kind, structure, element_index, hierarchy_path, message }
    }

    /// An error about structure `cell` as a whole.
    pub fn cell(kind: GdsHierarchyAdapterErrorKind, cell: &str, message: String) -> (e: GdsHierarchyAdapterError)
        ensures
            e.kind == kind,
            e.structure@ == cell@,
            e.element_index is None,
            path_view(e.hierarchy_path) == cell_path_view(cell@),
            e.message == message,
    {
        Self::new(kind, String::from_str(cell), None, cell_path(cell), message)
    }

    /// An error about element `element` of structure `cell`.
    pub fn element(kind: GdsHierarchyAdapterErrorKind, cell: &str, element: usize, message: String) -> (e: GdsHierarchyAdapterError)
        ensures
            e.kind == kind,
            e.structure@ == cell@,
            e.element_index == Some(element),
            path_view(e.hierarchy_path) == element_path_view(cell@, element as nat),
            e.message == message,
    {
        Self::new(kind, String::from_str(cell), Some(element), element_path(cell, element), message)
    }
}

/// The first rule for TEXT on `layer`/`datatype`, if any.
pub fn evidence_rule(rules: &Vec<GdsTextEvidenceRule>, layer: i16, datatype: i16) -> (r: Option<&GdsTextEvidenceRule>)
    ensures
        match r {
            None => forall|i: int| 0 <= i < rules@.len() ==> !((#[trigger] rules@[i]).layer == layer && rules@[i].datatype == datatype),
            Some(rule) => exists|i: int|
                0 <= i < rules@.len() && *rule == rules@[i] && rules@[i].layer == layer && rules@[i].datatype == datatype
                    && forall|j: int| 0 <= j < i ==> !((#[trigger] rules@[j]).layer == layer && rules@[j].datatype == datatype),
        },
{
    let mut i: usize = 0;
    while i < rules.len()
        invariant
            i <= rules@.len(),
            forall|j: int| 0 <= j < i ==> !((#[trigger] rules@[j]).layer == layer && rules@[j].datatype == datatype),
        decreases rules@.len() - i,
    {
        if rules[i].layer == layer && rules[i].datatype == datatype {
            return Some(&rules[i]);
        }
        i = i + 1;
    }
    None
}

/// The pitch of an AREF along one axis, or the text of the flattening error
/// that refuses it (see `exact_pitch`).
pub open spec fn pitch_outcome(endpoint: i32, origin: i32, count: u16, axis: Seq<char>) -> Result<i64, Seq<char>> {
    let delta = endpoint - origin;
    if delta % (count as int) != 0 {
        Err("GDS: "@ + ("AREF "@ + axis + " pitch "@ + signed_decimal(delta) + "/"@ + decimal(count as nat) + " is non-integral"@))
    } else if !(i32::MIN <= delta / (count as int) <= i32::MAX) {
        Err("GDS: "@ + "AREF pitch outside i32"@)
    } else {
        Ok((delta / (count as int)) as i64)
    }
}

/// What `array_for` gives for `reference`: its array, or the error's kind
/// and message.
pub open spec fn array_outcome(reference: GdsArrayReference) -> Result<HierArray, (GdsHierarchyAdapterErrorKind, Seq<char>)> {
    if reference.columns == 0 || reference.rows == 0 {
        Err((
            GdsHierarchyAdapterErrorKind::ConflictingEvidence,
            "AREF dimensions must be positive, got "@ + decimal(reference.columns as nat) + " columns x "@
                + decimal(reference.rows as nat) + " rows"@,
        ))
    } else {
        let cx = pitch_outcome(reference.column_endpoint.x, reference.origin.x, reference.columns, "column x"@);
        let cy = pitch_outcome(reference.column_endpoint.y, reference.origin.y, reference.columns, "column y"@);
        let rx = pitch_outcome(reference.row_endpoint.x, reference.origin.x, reference.rows, "row x"@);
        let ry = pitch_outcome(reference.row_endpoint.y, reference.origin.y, reference.rows, "row y"@);
        match (cx, cy, rx, ry) {
            (Err(m), _, _, _) => Err((GdsHierarchyAdapterErrorKind::Unsupported, m)),
            (Ok(_), Err(m), _, _) => Err((GdsHierarchyAdapterErrorKind::Unsupported, m)),
            (Ok(_), Ok(_), Err(m), _) => Err((GdsHierarchyAdapterErrorKind::Unsupported, m)),
            (Ok(_), Ok(_), Ok(_), Err(m)) => Err((GdsHierarchyAdapterErrorKind::Unsupported, m)),
            (Ok(a), Ok(b), Ok(c), Ok(d)) => Ok(
                HierArray { columns: reference.columns as u32, rows: reference.rows as u32, column_step: (a, b), row_step: (c, d) },
            ),
        }
    }
}

fn pitch_for(cell: &str, element: usize, endpoint: i32, origin: i32, count: u16, axis: &str) -> (r: Result<i64, GdsHierarchyAdapterError>)
    requires
        count > 0,
    ensures
        match pitch_outcome(endpoint, origin, count, axis@) {
            Ok(p) => r == Ok::<i64, GdsHierarchyAdapterError>(p),
            Err(m) => r matches Err(e) && e.kind == GdsHierarchyAdapterErrorKind::Unsupported && e.structure@ == cell@
                && e.element_index == Some(element) && path_view(e.hierarchy_path) == element_path_view(cell@, element as nat)
                && e.message@ == m,
        },
{
    match exact_pitch(endpoint, origin, count, axis) {
        Ok(p) => {
            proof {
                let delta = endpoint - origin;
                assert(delta / (count as int) == p) by (nonlinear_arith)
                    requires
                        p * count == delta,
                        count > 0,
                ;
            }
            Ok(p as i64)
        },
        Err(error) => {
            proof {
                reveal_strlit("GDS: ");
            }
            Err(GdsHierarchyAdapterError::element(GdsHierarchyAdapterErrorKind::Unsupported, cell, element, error.to_text()))
        },
    }
}

/// The array of an AREF: its copy counts and the exact steps between
/// neighbouring copies, which must divide the endpoint spans.
pub fn array_for(cell: &str, element: usize, reference: &GdsArrayReference) -> (r: Result<HierArray, GdsHierarchyAdapterError>)
    ensures
        match array_outcome(*reference) {
            Ok(a) => r == Ok::<HierArray, GdsHierarchyAdapterError>(a),
            Err((kind, m)) => r matches Err(e) && e.kind == kind && e.structure@ == cell@ && e.element_index == Some(element)
                && path_view(e.hierarchy_path) == element_path_view(cell@, element as nat) && e.message@ == m,
        },
{
    if reference.columns == 0 || reference.rows == 0 {
        let mut m = String::from_str("AREF dimensions must be positive, got ");
        push_decimal(&mut m, reference.columns as u64);
        m.append(" columns x ");
        push_decimal(&mut m, reference.rows as u64);
        m.append(" rows");
        return Err(GdsHierarchyAdapterError::element(GdsHierarchyAdapterErrorKind::ConflictingEvidence, cell, element, m));
    }
    let cx = pitch_for(cell, element, reference.column_endpoint.x, reference.origin.x, reference.columns, "column x")?;
    let cy = pitch_for(cell, element, reference.column_endpoint.y, reference.origin.y, reference.columns, "column y")?;
    let rx = pitch_for(cell, element, reference.row_endpoint.x, reference.origin.x, reference.rows, "row x")?;
    let ry = pitch_for(cell, element, reference.row_endpoint.y, reference.origin.y, reference.rows, "row y")?;
    Ok(HierArray { columns: reference.columns as u32, rows: reference.rows as u32, column_step: (cx, cy), row_step: (rx, ry) })
}

/// Direction of a configured cell port.
#[derive(Debug, Clone, Copy, PartialEq, Eq)]
pub enum PortDirection {
    Input,
    Output,
    Inout,
    Unknown,
}

/// How a GDS hierarchy is adapted. The keyed tables (`cell_ports`,
/// `black_boxes`, `equated_cells`, `default_substrate_nets`) and
/// `global_names` are kept in ascending key order without repeated keys
/// (see `wf`), which is the order in which they are checked.
#[derive(Debug, Clone)]
pub struct GdsHierarchyAdapterOptions {
    pub top_cell: String,
    pub text_evidence: Vec<GdsTextEvidenceRule>,
    /// Per cell, its required ports and their directions.
    pub cell_ports: Vec<(String, Vec<(String, PortDirection)>)>,
    pub global_names: Vec<String>,
    /// Property attributes whose values are `child_port=parent_net_name`.
    pub instance_binding_property_attributes: BTreeSet<i16>,
    pub black_boxes: Vec<(String, GdsBlackBoxAdapterSpec)>,
    /// Layout cell to reference cell.
    pub equated_cells: Vec<(String, String)>,
    pub extract: ExtractOpts,
    pub default_substrate_nets: Vec<(String, u32)>,
    pub reject_unconfigured_text: bool,
    pub allow_boundary_port_contact: bool,
    pub max_array_copies: usize,
    pub max_hierarchy_expanded_instances: usize,
    pub max_hierarchy_depth: usize,
}

/// `a` sorts strictly before `b` (by character, then by length).
pub open spec fn text_lt(a: Seq<char>, b: Seq<char>) -> bool
    decreases a.len(),
{
    if b.len() == 0 {
        false
    } else if a.len() == 0 {
        true
    } else if a[0] != b[0] {
        (a[0] as u32) < (b[0] as u32)
    } else {
        text_lt(a.drop_first(), b.drop_first())
    }
}

/// Keys in strictly ascending order.
pub open spec fn ascending_keys(keys: Seq<Seq<char>>) -> bool {
    forall|i: int, j: int| 0 <= i < j < keys.len() ==> text_lt(#[trigger] keys[i], #[trigger] keys[j])
}

pub open spec fn keys_of<V>(entries: Seq<(String, V)>) -> Seq<Seq<char>> {
    entries.map_values(|e: (String, V)| e.0@)
}

pub open spec fn texts_of(v: Seq<String>) -> Seq<Seq<char>> {
    v.map_values(|s: String| s@)
}

impl GdsHierarchyAdapterOptions {
    /// The keyed tables are in ascending key order.
    pub open spec fn wf(&self) -> bool {
        &&& ascending_keys(keys_of(self.cell_ports@))
        &&& forall|i: int| 0 <= i < self.cell_ports@.len() ==> ascending_keys(keys_of((#[trigger] self.cell_ports@[i]).1@))
        &&& ascending_keys(texts_of(self.global_names@))
        &&& ascending_keys(keys_of(self.black_boxes@))
        &&& ascending_keys(keys_of(self.equated_cells@))
        &&& ascending_keys(keys_of(self.default_substrate_nets@))
    }

    /// Options for top cell `top_cell` with nothing configured: TEXT must be
    /// attached, only area contact binds ports, and each capacity is a
    /// million (array copies, expanded instances) or 4096 (nesting depth).
    pub fn new(top_cell: String) -> (o: GdsHierarchyAdapterOptions)
        ensures
            o.wf(),
            o.top_cell == top_cell,
            o.text_evidence@.len() == 0,
            o.cell_ports@.len() == 0,
            o.global_names@.len() == 0,
            o.instance_binding_property_attributes@.is_empty(),
            o.black_boxes@.len() == 0,
            o.equated_cells@.len() == 0,
            !o.extract.cut_required,
            o.default_substrate_nets@.len() == 0,
            o.reject_unconfigured_text,
            !o.allow_boundary_port_contact,
            o.max_array_copies == 1_000_000,
            o.max_hierarchy_expanded_instances == 1_000_000,
            o.max_hierarchy_depth == 4096,
    {
        let o = GdsHierarchyAdapterOptions {
            top_cell,
            text_evidence: Vec::new(),
            cell_ports: Vec::new(),
            global_names: Vec::new(),
            instance_binding_property_attributes: BTreeSet::new(),
            black_boxes: Vec::new(),
            equated_cells: Vec::new(),
            extract: ExtractOpts::new(),
            default_substrate_nets: Vec::new(),
            reject_unconfigured_text: true,
            allow_boundary_port_contact: false,
            max_array_copies: 1_000_000,
            max_hierarchy_expanded_instances: 1_000_000,
            max_hierarchy_depth: 4096,
        };
        assert(keys_of(o.cell_ports@) =~= Seq::<Seq<char>>::empty());
        assert(texts_of(o.global_names@) =~= Seq::<Seq<char>>::empty());
        assert(keys_of(o.black_boxes@) =~= Seq::<Seq<char>>::empty());
        assert(keys_of(o.equated_cells@) =~= Seq::<Seq<char>>::empty());
        assert(keys_of(o.default_substrate_nets@) =~= Seq::<Seq<char>>::empty());
        o
    }
}

/// A refusal of the options: error kind, the structure it names, message.
pub type AdapterFault = (GdsHierarchyAdapterErrorKind, Seq<char>, Seq<char>);

/// `r` is what the first fault `f` (or none) calls for: an error about the
/// named structure as a whole, or success.
pub open spec fn reports(r: Result<(), GdsHierarchyAdapterError>, f: Option<AdapterFault>) -> bool {
    match f {
        None => r is Ok,
        Some((kind, s, m)) => r matches Err(e) && e.kind == kind && e.structure@ == s && e.element_index is None
            && path_view(e.hierarchy_path) == cell_path_view(s) && e.message@ == m,
    }
}

/// The latest of the first `k` names equal to name `i` up to ASCII case.
pub open spec fn earlier_fold(names: Seq<Seq<char>>, i: int, k: int) -> Option<int>
    decreases k,
{
    if k <= 0 {
        None
    } else if eq_ignore_ascii_case(names[k - 1], names[i]) {
        Some(k - 1)
    } else {
        earlier_fold(names, i, k - 1)
    }
}

pub open spec fn structure_names(library: GdsLibrary) -> Seq<Seq<char>> {
    library.structures@.map_values(|s: GdsStructure| s.name@)
}

/// The first of the first `k` structures that keeps unhandled records.
pub open spec fn unhandled_structure(library: GdsLibrary, k: int) -> Option<AdapterFault>
    decreases k,
{
    if k <= 0 {
        None
    } else {
        match unhandled_structure(library, k - 1) {
            Some(f) => Some(f),
            None => if library.structures@[k - 1].unhandled_records@.len() > 0 {
                Some((
                    GdsHierarchyAdapterErrorKind::Unsupported,
                    library.structures@[k - 1].name@,
                    "structure contains unhandled GDS records with no electrical semantics"@,
                ))
            } else {
                None
            },
        }
    }
}

/// The first of the first `k` structures whose name equals an earlier one's
/// up to ASCII case.
pub open spec fn structure_collision(names: Seq<Seq<char>>, k: int) -> Option<AdapterFault>
    decreases k,
{
    if k <= 0 {
        None
    } else {
        match structure_collision(names, k - 1) {
            Some(f) => Some(f),
            None => match earlier_fold(names, k - 1, k - 1) {
                Some(j) => Some((
                    GdsHierarchyAdapterErrorKind::ConflictingEvidence,
                    names[k - 1],
                    "GDS structure names `"@ + names[j] + "` and `"@ + names[k - 1] + "` collide case-insensitively"@,
                )),
                None => None,
            },
        }
    }
}

/// A name that is empty, padded with white space, or equal up to ASCII case
/// to an earlier one.
pub open spec fn bad_name(names: Seq<Seq<char>>, i: int) -> bool {
    names[i].len() == 0 || !unpadded(names[i]) || earlier_fold(names, i, i) is Some
}

/// The first bad one of the first `k` port names of `cell`.
pub open spec fn port_fault(cell: Seq<char>, ports: Seq<Seq<char>>, k: int) -> Option<AdapterFault>
    decreases k,
{
    if k <= 0 {
        None
    } else {
        match port_fault(cell, ports, k - 1) {
            Some(f) => Some(f),
            None => if bad_name(ports, k - 1) {
                Some((
                    GdsHierarchyAdapterErrorKind::InvalidOptions,
                    cell,
                    "port `"@ + ports[k - 1] + "` is empty, whitespace-padded, or case-duplicate"@,
                ))
            } else {
                None
            },
        }
    }
}

/// The first fault among the first `k` port tables: a cell that is not a
/// structure, or a bad port name.
pub open spec fn cell_ports_fault(names: Seq<Seq<char>>, tables: Seq<(String, Vec<(String, PortDirection)>)>, k: int) -> Option<AdapterFault>
    decreases k,
{
    if k <= 0 {
        None
    } else {
        match cell_ports_fault(names, tables, k - 1) {
            Some(f) => Some(f),
            None => {
                let cell = tables[k - 1].0@;
                if !names.contains(cell) {
                    Some((
                        GdsHierarchyAdapterErrorKind::InvalidOptions,
                        cell,
                        "port configuration names an undefined or non-canonical GDS structure"@,
                    ))
                } else {
                    let ports = keys_of(tables[k - 1].1@);
                    port_fault(cell, ports, ports.len() as int)
                }
            },
        }
    }
}

/// The first bad one of the first `k` global names.
pub open spec fn global_fault(top: Seq<char>, globals: Seq<Seq<char>>, k: int) -> Option<AdapterFault>
    decreases k,
{
    if k <= 0 {
        None
    } else {
        match global_fault(top, globals, k - 1) {
            Some(f) => Some(f),
            None => if bad_name(globals, k - 1) {
                Some((
                    GdsHierarchyAdapterErrorKind::InvalidOptions,
                    top,
                    "global `"@ + globals[k - 1] + "` is empty, whitespace-padded, or case-duplicate"@,
                ))
            } else {
                None
            },
        }
    }
}

/// The first fault among the first `k` TEXT evidence rules: a layer pair
/// already configured, or a rule that accepts neither string nor property.
pub open spec fn text_rule_fault(top: Seq<char>, rules: Seq<GdsTextEvidenceRule>, k: int) -> Option<AdapterFault>
    decreases k,
{
    if k <= 0 {
        None
    } else {
        match text_rule_fault(top, rules, k - 1) {
            Some(f) => Some(f),
            None => {
                let r = rules[k - 1];
                if exists|j: int| 0 <= j < k - 1 && (#[trigger] rules[j]).layer == r.layer && rules[j].datatype == r.datatype {
                    Some((
                        GdsHierarchyAdapterErrorKind::InvalidOptions,
                        top,
                        "duplicate TEXT evidence rule ("@ + signed_decimal(r.layer as int) + ", "@ + signed_decimal(r.datatype as int) + ")"@,
                    ))
                } else if !r.use_string && r.label_property_attributes@.is_empty() {
                    Some((GdsHierarchyAdapterErrorKind::InvalidOptions, top, "TEXT evidence rule accepts neither string nor property"@))
                } else {
                    None
                }
            },
        }
    }
}

/// A black box's ports include an empty, padded or case-duplicate name.
pub open spec fn bad_ports(ports: Seq<Seq<char>>) -> bool {
    exists|i: int| 0 <= i < ports.len() && #[trigger] bad_name(ports, i)
}

/// The first fault among the first `k` black boxes.
pub open spec fn black_box_fault(top: Seq<char>, boxes: Seq<(String, GdsBlackBoxAdapterSpec)>, k: int) -> Option<AdapterFault>
    decreases k,
{
    if k <= 0 {
        None
    } else {
        match black_box_fault(top, boxes, k - 1) {
            Some(f) => Some(f),
            None => {
                let name = boxes[k - 1].0@;
                let ports = texts_of(boxes[k - 1].1.ports@);
                if blank(name) || ports.len() == 0 {
                    Some((
                        GdsHierarchyAdapterErrorKind::InvalidOptions,
                        top,
                        "black box `"@ + name + "` requires a nonempty complete port map"@,
                    ))
                } else if !unpadded(name) || earlier_fold(keys_of(boxes), k - 1, k - 1) is Some {
                    Some((
                        GdsHierarchyAdapterErrorKind::InvalidOptions,
                        top,
                        "black box `"@ + name + "` is whitespace-padded or case-duplicate"@,
                    ))
                } else if bad_ports(ports) {
                    Some((GdsHierarchyAdapterErrorKind::InvalidOptions, top, "black box `"@ + name + "` has empty/duplicate ports"@))
                } else {
                    None
                }
            },
        }
    }
}

/// The first of the first `k` equated-cell entries whose layout cell is not
/// a structure or whose reference cell is blank.
pub open spec fn equated_fault(names: Seq<Seq<char>>, equated: Seq<(String, String)>, k: int) -> Option<AdapterFault>
    decreases k,
{
    if k <= 0 {
        None
    } else {
        match equated_fault(names, equated, k - 1) {
            Some(f) => Some(f),
            None => if !names.contains(equated[k - 1].0@) || blank(equated[k - 1].1@) {
                Some((
                    GdsHierarchyAdapterErrorKind::InvalidOptions,
                    equated[k - 1].0@,
                    "equated-cell declaration has undefined layout cell or empty reference cell"@,
                ))
            } else {
                None
            },
        }
    }
}

/// The first reason to refuse adapting `library` under `options`, checked in
/// this order: an incomplete envelope, the database-unit conflict
/// `dbu_conflict` (its message), unhandled records in the library and then
/// in a structure, a blank top cell, a zero capacity, an undefined top cell,
/// structure names equal up to ASCII case, the port tables, the global
/// names, the TEXT evidence rules, the black boxes, the equated cells.
pub open spec fn options_fault(library: GdsLibrary, dbu_conflict: Option<Seq<char>>, options: GdsHierarchyAdapterOptions) -> Option<AdapterFault> {
    let top = options.top_cell@;
    let names = structure_names(library);
    let env = library.envelope;
    if !(env.header && env.bgnlib && env.libname && env.units && env.endlib) {
        Some((
            GdsHierarchyAdapterErrorKind::Unsupported,
            top,
            "production hierarchy adaptation requires a complete strict GDS envelope including UNITS"@,
        ))
    } else if dbu_conflict is Some {
        Some((GdsHierarchyAdapterErrorKind::ConflictingEvidence, top, dbu_conflict->0))
    } else if library.unhandled_records@.len() > 0 {
        Some((GdsHierarchyAdapterErrorKind::Unsupported, top, "library contains unhandled GDS records with no electrical semantics"@))
    } else if unhandled_structure(library, library.structures@.len() as int) is Some {
        unhandled_structure(library, library.structures@.len() as int)
    } else if blank(top) {
        Some((GdsHierarchyAdapterErrorKind::InvalidOptions, "<options>"@, "top_cell must not be empty"@))
    } else if options.max_array_copies == 0 || options.max_hierarchy_expanded_instances == 0 || options.max_hierarchy_depth == 0 {
        Some((
            GdsHierarchyAdapterErrorKind::InvalidOptions,
            top,
            "array, expanded-hierarchy, and hierarchy-depth limits must be positive"@,
        ))
    } else if !names.contains(top) {
        Some((GdsHierarchyAdapterErrorKind::UndefinedCell, top, "configured top cell is undefined"@))
    } else if structure_collision(names, names.len() as int) is Some {
        structure_collision(names, names.len() as int)
    } else if cell_ports_fault(names, options.cell_ports@, options.cell_ports@.len() as int) is Some {
        cell_ports_fault(names, options.cell_ports@, options.cell_ports@.len() as int)
    } else if global_fault(top, texts_of(options.global_names@), options.global_names@.len() as int) is Some {
        global_fault(top, texts_of(options.global_names@), options.global_names@.len() as int)
    } else if text_rule_fault(top, options.text_evidence@, options.text_evidence@.len() as int) is Some {
        text_rule_fault(top, options.text_evidence@, options.text_evidence@.len() as int)
    } else if black_box_fault(top, options.black_boxes@, options.black_boxes@.len() as int) is Some {
        black_box_fault(top, options.black_boxes@, options.black_boxes@.len() as int)
    } else {
        equated_fault(names, options.equated_cells@, options.equated_cells@.len() as int)
    }
}

fn refuse(kind: GdsHierarchyAdapterErrorKind, structure: &str, message: String) -> (r: Result<(), GdsHierarchyAdapterError>)
    ensures
        reports(r, Some((kind, structure@, message@))),
{
    Err(GdsHierarchyAdapterError::cell(kind, structure, message))
}

fn earlier_fold_exec(names: &Vec<&str>, i: usize) -> (r: Option<usize>)
    requires
        i < names@.len(),
    ensures
        match r {
            Some(j) => j < i && earlier_fold(names@.map_values(|s: &str| s@), i as int, i as int) == Some(j as int),
            None => earlier_fold(names@.map_values(|s: &str| s@), i as int, i as int) is None,
        },
{
    let ghost ns = names@.map_values(|s: &str| s@);
    let mut k: usize = i;
    while k > 0
        invariant
            k <= i < names@.len(),
            ns == names@.map_values(|s: &str| s@),
            earlier_fold(ns, i as int, i as int) == earlier_fold(ns, i as int, k as int),
        decreases k,
    {
        if same_ignoring_ascii_case(names[k - 1], names[i]) {
            return Some(k - 1);
        }
        k = k - 1;
    }
    None
}

fn contains_text(names: &Vec<&str>, s: &str) -> (b: bool)
    ensures
        b == names@.map_values(|t: &str| t@).contains(s@),
{
    let ghost ns = names@.map_values(|t: &str| t@);
    let mut i: usize = 0;
    while i < names.len()
        invariant
            i <= names@.len(),
            ns == names@.map_values(|t: &str| t@),
            forall|j: int| 0 <= j < i ==> ns[j] != s@,
        decreases names@.len() - i,
    {
        if String::from_str(names[i]) == String::from_str(s) {
            assert(ns[i as int] == s@);
            return true;
        }
        i = i + 1;
    }
    false
}

/// The first bad name of `names` (see `bad_name`), if any.
fn first_bad_name(names: &Vec<&str>) -> (r: Option<usize>)
    ensures
        ({
            let ns = names@.map_values(|s: &str| s@);
            match r {
                Some(i) => i < ns.len() && bad_name(ns, i as int) && forall|j: int| 0 <= j < i ==> !#[trigger] bad_name(ns, j),
                None => forall|j: int| 0 <= j < ns.len() ==> !#[trigger] bad_name(ns, j),
            }
        }),
{
    let ghost ns = names@.map_values(|s: &str| s@);
    let mut i: usize = 0;
    while i < names.len()
        invariant
            i <= names@.len(),
            ns == names@.map_values(|s: &str| s@),
            forall|j: int| 0 <= j < i ==> !#[trigger] bad_name(ns, j),
        decreases names@.len() - i,
    {
        if names[i].is_empty() || !is_unpadded(names[i]) || earlier_fold_exec(names, i).is_some() {
            assert(bad_name(ns, i as int));
            return Some(i);
        }
        i = i + 1;
    }
    None
}

fn key_strs<'a, V>(entries: &'a Vec<(String, V)>) -> (r: Vec<&'a str>)
    ensures
        r@.len() == entries@.len(),
        r@.map_values(|s: &str| s@) == keys_of(entries@),
{
    let mut r: Vec<&'a str> = Vec::new();
    let mut i: usize = 0;
    while i < entries.len()
        invariant
            i <= entries@.len(),
            r@.len() == i,
            forall|j: int| 0 <= j < i ==> (#[trigger] r@[j])@ == entries@[j].0@,
        decreases entries@.len() - i,
    {
        r.push(entries[i].0.as_str());
        i = i + 1;
    }
    assert(r@.map_values(|s: &str| s@) =~= keys_of(entries@));
    r
}

fn text_strs<'a>(v: &'a Vec<String>) -> (r: Vec<&'a str>)
    ensures
        r@.len() == v@.len(),
        r@.map_values(|s: &str| s@) == texts_of(v@),
{
    let mut r: Vec<&'a str> = Vec::new();
    let mut i: usize = 0;
    while i < v.len()
        invariant
            i <= v@.len(),
            r@.len() == i,
            forall|j: int| 0 <= j < i ==> (#[trigger] r@[j])@ == v@[j]@,
        decreases v@.len() - i,
    {
        r.push(v[i].as_str());
        i = i + 1;
    }
    assert(r@.map_values(|s: &str| s@) =~= texts_of(v@));
    r
}

fn structure_strs<'a>(library: &'a GdsLibrary) -> (r: Vec<&'a str>)
    ensures
        r@.len() == library.structures@.len(),
        r@.map_values(|s: &str| s@) == structure_names(*library),
{
    let mut r: Vec<&'a str> = Vec::new();
    let mut i: usize = 0;
    while i < library.structures.len()
        invariant
            i <= library.structures@.len(),
            r@.len() == i,
            forall|j: int| 0 <= j < i ==> (#[trigger] r@[j])@ == library.structures@[j].name@,
        decreases library.structures@.len() - i,
    {
        r.push(library.structures[i].name.as_str());
        i = i + 1;
    }
    assert(r@.map_values(|s: &str| s@) =~= structure_names(*library));
    r
}

proof fn lemma_port_fault_first(cell: Seq<char>, ports: Seq<Seq<char>>, k: int)
    requires
        0 <= k <= ports.len(),
    ensures
        (forall|j: int| 0 <= j < k ==> !#[trigger] bad_name(ports, j)) ==> port_fault(cell, ports, k) is None,
        forall|i: int| 0 <= i < k && bad_name(ports, i) && (forall|j: int| 0 <= j < i ==> !#[trigger] bad_name(ports, j))
            ==> port_fault(cell, ports, k) == Some((
                GdsHierarchyAdapterErrorKind::InvalidOptions,
                cell,
                "port `"@ + ports[i] + "` is empty, whitespace-padded, or case-duplicate"@,
            )),
    decreases k,
{
    if k > 0 {
        lemma_port_fault_first(cell, ports, k - 1);
    }
}

proof fn lemma_global_fault_first(top: Seq<char>, globals: Seq<Seq<char>>, k: int)
    requires
        0 <= k <= globals.len(),
    ensures
        (forall|j: int| 0 <= j < k ==> !#[trigger] bad_name(globals, j)) ==> global_fault(top, globals, k) is None,
        forall|i: int| 0 <= i < k && bad_name(globals, i) && (forall|j: int| 0 <= j < i ==> !#[trigger] bad_name(globals, j))
            ==> global_fault(top, globals, k) == Some((
                GdsHierarchyAdapterErrorKind::InvalidOptions,
                top,
                "global `"@ + globals[i] + "` is empty, whitespace-padded, or case-duplicate"@,
            )),
    decreases k,
{
    if k > 0 {
        lemma_global_fault_first(top, globals, k - 1);
    }
}

fn check_structures(library: &GdsLibrary, top: &str) -> (r: Result<(), GdsHierarchyAdapterError>)
    ensures
        reports(r, unhandled_structure(*library, library.structures@.len() as int)),
{
    let mut i: usize = 0;
    while i < library.structures.len()
        invariant
            i <= library.structures@.len(),
            unhandled_structure(*library, i as int) is None,
        decreases library.structures@.len() - i,
    {
        if library.structures[i].unhandled_records.len() > 0 {
            proof {
                lemma_unhandled_stays(*library, i as int + 1, library.structures@.len() as int);
            }
            return refuse(
                GdsHierarchyAdapterErrorKind::Unsupported,
                library.structures[i].name.as_str(),
                String::from_str("structure contains unhandled GDS records with no electrical semantics"),
            );
        }
        i = i + 1;
    }
    Ok(())
}

proof fn lemma_unhandled_stays(library: GdsLibrary, k: int, n: int)
    requires
        0 < k <= n,
        unhandled_structure(library, k) is Some,
    ensures
        unhandled_structure(library, n) == unhandled_structure(library, k),
    decreases n - k,
{
    if n > k {
        lemma_unhandled_stays(library, k, n - 1);
    }
}

proof fn lemma_collision_stays(names: Seq<Seq<char>>, k: int, n: int)
    requires
        0 < k <= n,
        structure_collision(names, k) is Some,
    ensures
        structure_collision(names, n) == structure_collision(names, k),
    decreases n - k,
{
    if n > k {
        lemma_collision_stays(names, k, n - 1);
    }
}

fn check_collisions(names: &Vec<&str>) -> (r: Result<(), GdsHierarchyAdapterError>)
    ensures
        reports(r, structure_collision(names@.map_values(|s: &str| s@), names@.len() as int)),
{
    let ghost ns = names@.map_values(|s: &str| s@);
    let mut i: usize = 0;
    while i < names.len()
        invariant
            i <= names@.len(),
            ns == names@.map_values(|s: &str| s@),
            structure_collision(ns, i as int) is None,
        decreases names@.len() - i,
    {
        match earlier_fold_exec(names, i) {
            Some(j) => {
                proof {
                    assert(ns[j as int] == names@[j as int]@ && ns[i as int] == names@[i as int]@);
                    assert(earlier_fold(ns, i as int, i as int) == Some(j as int));
                    assert(structure_collision(ns, i as int + 1) is Some);
                    lemma_collision_stays(ns, i as int + 1, names@.len() as int);
                }
                let mut m = String::from_str("GDS structure names `");
                m.append(names[j]);
                m.append("` and `");
                m.append(names[i]);
                m.append("` collide case-insensitively");
                return refuse(GdsHierarchyAdapterErrorKind::ConflictingEvidence, names[i], m);
            },
            None => {},
        }
        i = i + 1;
    }
    Ok(())
}

proof fn lemma_cell_ports_stays(names: Seq<Seq<char>>, tables: Seq<(String, Vec<(String, PortDirection)>)>, k: int, n: int)
    requires
        0 < k <= n,
        cell_ports_fault(names, tables, k) is Some,
    ensures
        cell_ports_fault(names, tables, n) == cell_ports_fault(names, tables, k),
    decreases n - k,
{
    if n > k {
        lemma_cell_ports_stays(names, tables, k, n - 1);
    }
}

fn check_cell_ports(names: &Vec<&str>, tables: &Vec<(String, Vec<(String, PortDirection)>)>) -> (r: Result<(), GdsHierarchyAdapterError>)
    ensures
        reports(r, cell_ports_fault(names@.map_values(|s: &str| s@), tables@, tables@.len() as int)),
{
    let ghost ns = names@.map_values(|s: &str| s@);
    let mut i: usize = 0;
    while i < tables.len()
        invariant
            i <= tables@.len(),
            ns == names@.map_values(|s: &str| s@),
            cell_ports_fault(ns, tables@, i as int) is None,
        decreases tables@.len() - i,
    {
        let cell = tables[i].0.as_str();
        if !contains_text(names, cell) {
            proof {
                lemma_cell_ports_stays(ns, tables@, i as int + 1, tables@.len() as int);
            }
            return refuse(
                GdsHierarchyAdapterErrorKind::InvalidOptions,
                cell,
                String::from_str("port configuration names an undefined or non-canonical GDS structure"),
            );
        }
        let ports = key_strs(&tables[i].1);
        let ghost ps = keys_of(tables@[i as int].1@);
        proof {
            lemma_port_fault_first(cell@, ps, ps.len() as int);
        }
        match first_bad_name(&ports) {
            Some(b) => {
                proof {
                    lemma_cell_ports_stays(ns, tables@, i as int + 1, tables@.len() as int);
                }
                let mut m = String::from_str("port `");
                m.append(ports[b]);
                m.append("` is empty, whitespace-padded, or case-duplicate");
                return refuse(GdsHierarchyAdapterErrorKind::InvalidOptions, cell, m);
            },
            None => {},
        }
        i = i + 1;
    }
    Ok(())
}

fn check_globals(top: &str, globals: &Vec<String>) -> (r: Result<(), GdsHierarchyAdapterError>)
    ensures
        reports(r, global_fault(top@, texts_of(globals@), globals@.len() as int)),
{
    let names = text_strs(globals);
    proof {
        lemma_global_fault_first(top@, texts_of(globals@), globals@.len() as int);
    }
    match first_bad_name(&names) {
        Some(b) => {
            let mut m = String::from_str("global `");
            m.append(names[b]);
            m.append("` is empty, whitespace-padded, or case-duplicate");
            refuse(GdsHierarchyAdapterErrorKind::InvalidOptions, top, m)
        },
        None => Ok(()),
    }
}

proof fn lemma_text_rule_stays(top: Seq<char>, rules: Seq<GdsTextEvidenceRule>, k: int, n: int)
    requires
        0 < k <= n,
        text_rule_fault(top, rules, k) is Some,
    ensures
        text_rule_fault(top, rules, n) == text_rule_fault(top, rules, k),
    decreases n - k,
{
    if n > k {
        lemma_text_rule_stays(top, rules, k, n - 1);
    }
}

fn duplicate_before(rules: &Vec<GdsTextEvidenceRule>, i: usize) -> (b: bool)
    requires
        i < rules@.len(),
    ensures
        b == exists|j: int| 0 <= j < i && (#[trigger] rules@[j]).layer == rules@[i as int].layer && rules@[j].datatype == rules@[i as int].datatype,
{
    let mut j: usize = 0;
    while j < i
        invariant
            j <= i < rules@.len(),
            forall|q: int| 0 <= q < j ==> !((#[trigger] rules@[q]).layer == rules@[i as int].layer && rules@[q].datatype == rules@[i as int].datatype),
        decreases i - j,
    {
        if rules[j].layer == rules[i].layer && rules[j].datatype == rules[i].datatype {
            return true;
        }
        j = j + 1;
    }
    false
}

fn check_text_rules(top: &str, rules: &Vec<GdsTextEvidenceRule>) -> (r: Result<(), GdsHierarchyAdapterError>)
    ensures
        reports(r, text_rule_fault(top@, rules@, rules@.len() as int)),
{
    let mut i: usize = 0;
    while i < rules.len()
        invariant
            i <= rules@.len(),
            text_rule_fault(top@, rules@, i as int) is None,
        decreases rules@.len() - i,
    {
        let seen = duplicate_before(rules, i);
        if seen {
            proof {
                lemma_text_rule_stays(top@, rules@, i as int + 1, rules@.len() as int);
            }
            let mut m = String::from_str("duplicate TEXT evidence rule (");
            push_signed(&mut m, rules[i].layer as i64);
            m.append(", ");
            push_signed(&mut m, rules[i].datatype as i64);
            m.append(")");
            return refuse(GdsHierarchyAdapterErrorKind::InvalidOptions, top, m);
        }
        if !rules[i].use_string && rules[i].label_property_attributes.is_empty() {
            proof {
                assert(text_rule_fault(top@, rules@, i as int + 1) is Some);
                lemma_text_rule_stays(top@, rules@, i as int + 1, rules@.len() as int);
            }
            return refuse(
                GdsHierarchyAdapterErrorKind::InvalidOptions,
                top,
                String::from_str("TEXT evidence rule accepts neither string nor property"),
            );
        }
        i = i + 1;
    }
    Ok(())
}

proof fn lemma_black_box_stays(top: Seq<char>, boxes: Seq<(String, GdsBlackBoxAdapterSpec)>, k: int, n: int)
    requires
        0 < k <= n,
        black_box_fault(top, boxes, k) is Some,
    ensures
        black_box_fault(top, boxes, n) == black_box_fault(top, boxes, k),
    decreases n - k,
{
    if n > k {
        lemma_black_box_stays(top, boxes, k, n - 1);
    }
}

fn check_black_boxes(top: &str, boxes: &Vec<(String, GdsBlackBoxAdapterSpec)>) -> (r: Result<(), GdsHierarchyAdapterError>)
    ensures
        reports(r, black_box_fault(top@, boxes@, boxes@.len() as int)),
{
    let names = key_strs(boxes);
    let mut i: usize = 0;
    while i < boxes.len()
        invariant
            i <= boxes@.len(),
            names@.len() == boxes@.len(),
            names@.map_values(|s: &str| s@) == keys_of(boxes@),
            black_box_fault(top@, boxes@, i as int) is None,
        decreases boxes@.len() - i,
    {
        let name = boxes[i].0.as_str();
        if is_blank(name) || boxes[i].1.ports.len() == 0 {
            proof {
                lemma_black_box_stays(top@, boxes@, i as int + 1, boxes@.len() as int);
            }
            let mut m = String::from_str("black box `");
            m.append(name);
            m.append("` requires a nonempty complete port map");
            return refuse(GdsHierarchyAdapterErrorKind::InvalidOptions, top, m);
        }
        if !is_unpadded(name) || earlier_fold_exec(&names, i).is_some() {
            proof {
                lemma_black_box_stays(top@, boxes@, i as int + 1, boxes@.len() as int);
            }
            let mut m = String::from_str("black box `");
            m.append(name);
            m.append("` is whitespace-padded or case-duplicate");
            return refuse(GdsHierarchyAdapterErrorKind::InvalidOptions, top, m);
        }
        let ports = text_strs(&boxes[i].1.ports);
        if first_bad_name(&ports).is_some() {
            proof {
                lemma_black_box_stays(top@, boxes@, i as int + 1, boxes@.len() as int);
            }
            let mut m = String::from_str("black box `");
            m.append(name);
            m.append("` has empty/duplicate ports");
            return refuse(GdsHierarchyAdapterErrorKind::InvalidOptions, top, m);
        }
        i = i + 1;
    }
    Ok(())
}

proof fn lemma_equated_stays(names: Seq<Seq<char>>, equated: Seq<(String, String)>, k: int, n: int)
    requires
        0 < k <= n,
        equated_fault(names, equated, k) is Some,
    ensures
        equated_fault(names, equated, n) == equated_fault(names, equated, k),
    decreases n - k,
{
    if n > k {
        lemma_equated_stays(names, equated, k, n - 1);
    }
}

fn check_equated(names: &Vec<&str>, equated: &Vec<(String, String)>) -> (r: Result<(), GdsHierarchyAdapterError>)
    ensures
        reports(r, equated_fault(names@.map_values(|s: &str| s@), equated@, equated@.len() as int)),
{
    let ghost ns = names@.map_values(|s: &str| s@);
    let mut i: usize = 0;
    while i < equated.len()
        invariant
            i <= equated@.len(),
            ns == names@.map_values(|s: &str| s@),
            equated_fault(ns, equated@, i as int) is None,
        decreases equated@.len() - i,
    {
        let layout = equated[i].0.as_str();
        if !contains_text(names, layout) || is_blank(equated[i].1.as_str()) {
            proof {
                lemma_equated_stays(ns, equated@, i as int + 1, equated@.len() as int);
            }
            return refuse(
                GdsHierarchyAdapterErrorKind::InvalidOptions,
                layout,
                String::from_str("equated-cell declaration has undefined layout cell or empty reference cell"),
            );
        }
        i = i + 1;
    }
    Ok(())
}

/// Checks that `library` and `options` can be adapted, reporting the first
/// problem found (see `options_fault` for the checks and their order).
/// `dbu_conflict` is the message of a database-unit conflict between the
/// library and the deck, if there is one.
pub fn validate_options(library: &GdsLibrary, dbu_conflict: Option<String>, options: &GdsHierarchyAdapterOptions) -> (r: Result<(), GdsHierarchyAdapterError>)
    ensures
        reports(r, options_fault(*library, match dbu_conflict { Some(m) => Some(m@), None => None }, *options)),
{
    let top = options.top_cell.as_str();
    let env = library.envelope;
    if !(env.header && env.bgnlib && env.libname && env.units && env.endlib) {
        return refuse(
            GdsHierarchyAdapterErrorKind::Unsupported,
            top,
            String::from_str("production hierarchy adaptation requires a complete strict GDS envelope including UNITS"),
        );
    }
    if let Some(m) = dbu_conflict {
        return refuse(GdsHierarchyAdapterErrorKind::ConflictingEvidence, top, m);
    }
    if library.unhandled_records.len() > 0 {
        return refuse(
            GdsHierarchyAdapterErrorKind::Unsupported,
            top,
            String::from_str("library contains unhandled GDS records with no electrical semantics"),
        );
    }
    check_structures(library, top)?;
    if is_blank(top) {
        return refuse(GdsHierarchyAdapterErrorKind::InvalidOptions, "<options>", String::from_str("top_cell must not be empty"));
    }
    if options.max_array_copies == 0 || options.max_hierarchy_expanded_instances == 0 || options.max_hierarchy_depth == 0 {
        return refuse(
            GdsHierarchyAdapterErrorKind::InvalidOptions,
            top,
            String::from_str("array, expanded-hierarchy, and hierarchy-depth limits must be positive"),
        );
    }
    let names = structure_strs(library);
    if !contains_text(&names, top) {
        return refuse(GdsHierarchyAdapterErrorKind::UndefinedCell, top, String::from_str("configured top cell is undefined"));
    }
    check_collisions(&names)?;
    check_cell_ports(&names, &options.cell_ports)?;
    check_globals(top, &options.global_names)?;
    check_text_rules(top, &options.text_evidence)?;
    check_black_boxes(top, &options.black_boxes)?;
    check_equated(&names, &options.equated_cells)
}

} // verus!
