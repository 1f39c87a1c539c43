use std::collections::BTreeSet;

use gdsverify::io::read::gds::{GdsEnvelope, GdsLibrary, GdsRawRecord, GdsStructure, GdsUnits, DT_NONE};
use gdsverify::lvs::gds_adapter::{
    validate_options, GdsBlackBoxAdapterSpec, GdsHierarchyAdapterErrorKind, GdsHierarchyAdapterOptions, GdsTextEvidenceRule,
    PortDirection,
};
use gdsverify::lvs::types::HierarchyPath;

fn library(names: &[&str]) -> GdsLibrary {
    GdsLibrary {
        version: 600,
        timestamps: [0; 12],
        name: "lib".to_string(),
        units: GdsUnits { user_units_per_database_unit: 0x3e41_8937_4bc6_a7f0, meters_per_database_unit: 0x3944_b82f_a09b_5a54 },
        structures: names
            .iter()
            .map(|n| GdsStructure { timestamps: [0; 12], name: n.to_string(), elements: Vec::new(), unhandled_records: Vec::new() })
            .collect(),
        unhandled_records: Vec::new(),
        envelope: GdsEnvelope::complete(),
    }
}

fn options(top: &str) -> GdsHierarchyAdapterOptions {
    GdsHierarchyAdapterOptions::new(top.to_string())
}

fn refusal(lib: &GdsLibrary, dbu: Option<&str>, o: &GdsHierarchyAdapterOptions) -> (GdsHierarchyAdapterErrorKind, String, String) {
    let e = validate_options(lib, dbu.map(|m| m.to_string()), o).unwrap_err();
    assert_eq!(e.element_index, None);
    assert_eq!(e.hierarchy_path, HierarchyPath(vec![format!("gds:{}", e.structure)]));
    (e.kind, e.structure, e.message)
}

#[test]
fn defaults_are_strict_with_generous_capacity() {
    let o = options("top");
    assert!(o.reject_unconfigured_text);
    assert!(!o.allow_boundary_port_contact);
    assert_eq!((o.max_array_copies, o.max_hierarchy_expanded_instances, o.max_hierarchy_depth), (1_000_000, 1_000_000, 4096));
}

#[test]
fn plain_library_and_default_options_pass() {
    assert!(validate_options(&library(&["top", "leaf"]), None, &options("top")).is_ok());
}

#[test]
fn incomplete_envelope_comes_first() {
    let mut lib = library(&["top"]);
    lib.envelope.units = false;
    let (kind, structure, message) = refusal(&lib, Some("ignored"), &options("top"));
    assert_eq!(kind, GdsHierarchyAdapterErrorKind::Unsupported);
    assert_eq!(structure, "top");
    assert_eq!(message, "production hierarchy adaptation requires a complete strict GDS envelope including UNITS");
}

#[test]
fn database_unit_conflict_is_reported_with_its_message() {
    let (kind, _, message) = refusal(&library(&["top"]), Some("units disagree"), &options("top"));
    assert_eq!(kind, GdsHierarchyAdapterErrorKind::ConflictingEvidence);
    assert_eq!(message, "units disagree");
}

#[test]
fn unhandled_records_are_unsupported() {
    let mut lib = library(&["top", "leaf"]);
    lib.structures[1].unhandled_records.push(GdsRawRecord { record_type: 0x7f, data_type: DT_NONE, payload: vec![], source_offset: 0 });
    let (kind, structure, message) = refusal(&lib, None, &options("top"));
    assert_eq!(kind, GdsHierarchyAdapterErrorKind::Unsupported);
    assert_eq!(structure, "leaf");
    assert_eq!(message, "structure contains unhandled GDS records with no electrical semantics");
}

#[test]
fn blank_top_cell_and_zero_limits_are_invalid() {
    let (kind, structure, message) = refusal(&library(&["top"]), None, &options(" \t"));
    assert_eq!((kind, structure.as_str(), message.as_str()), (GdsHierarchyAdapterErrorKind::InvalidOptions, "<options>", "top_cell must not be empty"));
    let mut o = options("top");
    o.max_hierarchy_depth = 0;
    let (_, _, message) = refusal(&library(&["top"]), None, &o);
    assert_eq!(message, "array, expanded-hierarchy, and hierarchy-depth limits must be positive");
}

#[test]
fn undefined_top_and_case_colliding_structures_are_refused() {
    let (kind, _, message) = refusal(&library(&["Top"]), None, &options("top"));
    assert_eq!((kind, message.as_str()), (GdsHierarchyAdapterErrorKind::UndefinedCell, "configured top cell is undefined"));
    let (kind, structure, message) = refusal(&library(&["top", "inv", "INV"]), None, &options("top"));
    assert_eq!(kind, GdsHierarchyAdapterErrorKind::ConflictingEvidence);
    assert_eq!(structure, "INV");
    assert_eq!(message, "GDS structure names `inv` and `INV` collide case-insensitively");
}

#[test]
fn port_tables_need_defined_cells_and_clean_distinct_ports() {
    let lib = library(&["inv", "top"]);
    let mut o = options("top");
    o.cell_ports = vec![("nand".to_string(), vec![])];
    let (_, structure, message) = refusal(&lib, None, &o);
    assert_eq!(structure, "nand");
    assert_eq!(message, "port configuration names an undefined or non-canonical GDS structure");
    o.cell_ports = vec![("inv".to_string(), vec![("A".to_string(), PortDirection::Input), ("a".to_string(), PortDirection::Input)])];
    let (kind, structure, message) = refusal(&lib, None, &o);
    assert_eq!(kind, GdsHierarchyAdapterErrorKind::InvalidOptions);
    assert_eq!(structure, "inv");
    assert_eq!(message, "port `a` is empty, whitespace-padded, or case-duplicate");
    o.cell_ports = vec![("inv".to_string(), vec![(" Y".to_string(), PortDirection::Output)])];
    let (_, _, message) = refusal(&lib, None, &o);
    assert_eq!(message, "port ` Y` is empty, whitespace-padded, or case-duplicate");
}

#[test]
fn globals_must_be_clean_and_distinct() {
    let mut o = options("top");
    o.global_names = vec!["VDD".to_string(), "vdd".to_string()];
    let (_, structure, message) = refusal(&library(&["top"]), None, &o);
    assert_eq!(structure, "top");
    assert_eq!(message, "global `vdd` is empty, whitespace-padded, or case-duplicate");
}

fn text_rule(layer: i16, datatype: i16, use_string: bool, attributes: &[i16]) -> GdsTextEvidenceRule {
    GdsTextEvidenceRule { layer, datatype, use_string, label_property_attributes: attributes.iter().copied().collect::<BTreeSet<i16>>() }
}

#[test]
fn text_rules_must_be_distinct_and_accept_something() {
    let mut o = options("top");
    o.text_evidence = vec![text_rule(68, 5, true, &[]), text_rule(68, 5, false, &[1])];
    let (_, _, message) = refusal(&library(&["top"]), None, &o);
    assert_eq!(message, "duplicate TEXT evidence rule (68, 5)");
    o.text_evidence = vec![text_rule(-1, 5, false, &[])];
    let (_, _, message) = refusal(&library(&["top"]), None, &o);
    assert_eq!(message, "TEXT evidence rule accepts neither string nor property");
    o.text_evidence = vec![text_rule(68, 5, false, &[1]), text_rule(-1, 5, true, &[])];
    assert!(validate_options(&library(&["top"]), None, &o).is_ok());
}

fn black_box(ports: &[&str]) -> GdsBlackBoxAdapterSpec {
    GdsBlackBoxAdapterSpec { ports: ports.iter().map(|p| p.to_string()).collect() }
}

#[test]
fn black_boxes_need_clean_names_and_complete_port_lists() {
    let lib = library(&["top"]);
    let mut o = options("top");
    o.black_boxes = vec![("sram".to_string(), black_box(&[]))];
    assert_eq!(refusal(&lib, None, &o).2, "black box `sram` requires a nonempty complete port map");
    o.black_boxes = vec![("SRAM".to_string(), black_box(&["a"])), ("sram".to_string(), black_box(&["a"]))];
    assert_eq!(refusal(&lib, None, &o).2, "black box `sram` is whitespace-padded or case-duplicate");
    o.black_boxes = vec![("sram".to_string(), black_box(&["clk", "CLK"]))];
    assert_eq!(refusal(&lib, None, &o).2, "black box `sram` has empty/duplicate ports");
    o.black_boxes = vec![("sram".to_string(), black_box(&["clk", "d"]))];
    assert!(validate_options(&lib, None, &o).is_ok());
}

#[test]
fn equated_cells_need_a_layout_cell_and_a_reference() {
    let lib = library(&["top", "inv"]);
    let mut o = options("top");
    o.equated_cells = vec![("inv".to_string(), "  ".to_string())];
    let (_, structure, message) = refusal(&lib, None, &o);
    assert_eq!(structure, "inv");
    assert_eq!(message, "equated-cell declaration has undefined layout cell or empty reference cell");
    o.equated_cells = vec![("inv".to_string(), "INVX1".to_string())];
    assert!(validate_options(&lib, None, &o).is_ok());
}
