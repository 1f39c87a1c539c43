//! GDS elements: from the records between an element's start record and its
//! ENDEL to a typed element.
use vstd::prelude::*;
use crate::geometry::{check_ring, lemma_ring_defect, ring_defect, ring_valid, Point};
use super::gds::{
    all_ascii, ascii, ascii_bytes, be16, i16_at, i32_at, u16_at, u64_at, points, shape_ok, records_view, decode_records, timestamps, timestamps_of, decode_from, HEADER, BGNLIB, LIBNAME, UNITS, ENDLIB, BGNSTR, STRNAME, ENDSTR, be_i16, be_i32, be_u64, chars_of, points_of, GdsArrayReference, GdsBoundary, GdsBoxElement,
    GdsElement, GdsElementMeta, GdsNode, GdsPath, GdsProperty, GdsRawRecord, GdsReference, GdsText, GdsTransform,
    GdsUnsupportedElement, LayoutError, LayoutErrorKind, Record, RecordSpec, AREF, BGNEXTN, BOUNDARY, BOX, BOXTYPE,
    COLROW, DATATYPE, ELFLAGS, ENDEL, ENDEXTN, LAYER, MAG, ANGLE, NODE, NODETYPE, PATH, PATHTYPE, PLEX, PRESENTATION,
    PROPATTR, PROPVALUE, SNAME, SREF, STRANS, STRING, TEXT, TEXTNODE, TEXTTYPE, WIDTH, XY,
};

verus! {

// --- values ---

#[verifier::ext_equal]
pub struct PropertyV {
    pub attribute: i16,
    pub value: Seq<char>,
}

#[verifier::ext_equal]
pub struct MetaV {
    pub properties: Seq<PropertyV>,
    pub element_flags: Option<u16>,
    pub plex: Option<i32>,
    pub unhandled: Seq<RecordSpec>,
}

#[verifier::ext_equal]
pub enum ElementV {
    Boundary { layer: i16, datatype: i16, ring: Seq<Point>, meta: MetaV },
    Path {
        layer: i16,
        datatype: i16,
        centerline: Seq<Point>,
        width: Option<i32>,
        path_type: Option<i16>,
        begin_extension: Option<i32>,
        end_extension: Option<i32>,
        meta: MetaV,
    },
    Box { layer: i16, box_type: i16, ring: Seq<Point>, meta: MetaV },
    Text {
        layer: i16,
        text_type: i16,
        origin: Point,
        string: Seq<char>,
        presentation: Option<u16>,
        path_type: Option<i16>,
        width: Option<i32>,
        transform: GdsTransform,
        meta: MetaV,
    },
    Node { layer: i16, node_type: i16, points: Seq<Point>, meta: MetaV },
    Sref { structure: Seq<char>, origin: Point, transform: GdsTransform, meta: MetaV },
    Aref {
        structure: Seq<char>,
        columns: u16,
        rows: u16,
        origin: Point,
        column_endpoint: Point,
        row_endpoint: Point,
        transform: GdsTransform,
        meta: MetaV,
    },
    Unsupported { start: RecordSpec, records: Seq<RecordSpec> },
}

impl GdsRawRecord {
    pub open spec fn view(&self) -> RecordSpec {
        RecordSpec { ty: self.record_type, dt: self.data_type, payload: self.payload@, offset: self.source_offset as int }
    }
}

pub open spec fn raws_view(v: Seq<GdsRawRecord>) -> Seq<RecordSpec> {
    v.map_values(|r: GdsRawRecord| r.view())
}

impl GdsProperty {
    pub open spec fn view(&self) -> PropertyV {
        PropertyV { attribute: self.attribute, value: self.value@ }
    }
}

impl GdsElementMeta {
    pub open spec fn view(&self) -> MetaV {
        MetaV {
            properties: self.properties@.map_values(|p: GdsProperty| p.view()),
            element_flags: self.element_flags,
            plex: self.plex,
            unhandled: raws_view(self.unhandled_records@),
        }
    }
}

impl GdsElement {
    pub open spec fn view(&self) -> ElementV {
        match self {
            GdsElement::Boundary(v) => ElementV::Boundary { layer: v.layer, datatype: v.datatype, ring: v.ring@, meta: v.meta.view() },
            GdsElement::Path(v) => ElementV::Path {
                layer: v.layer,
                datatype: v.datatype,
                centerline: v.centerline@,
                width: v.width,
                path_type: v.path_type,
                begin_extension: v.begin_extension,
                end_extension: v.end_extension,
                meta: v.meta.view(),
            },
            GdsElement::Box(v) => ElementV::Box { layer: v.layer, box_type: v.box_type, ring: v.ring@, meta: v.meta.view() },
            GdsElement::Text(v) => ElementV::Text {
                layer: v.layer,
                text_type: v.text_type,
                origin: v.origin,
                string: v.string@,
                presentation: v.presentation,
                path_type: v.path_type,
                width: v.width,
                transform: v.transform,
                meta: v.meta.view(),
            },
            GdsElement::Node(v) => ElementV::Node { layer: v.layer, node_type: v.node_type, points: v.points@, meta: v.meta.view() },
            GdsElement::Sref(v) => ElementV::Sref { structure: v.structure@, origin: v.origin, transform: v.transform, meta: v.meta.view() },
            GdsElement::Aref(v) => ElementV::Aref {
                structure: v.structure@,
                columns: v.columns,
                rows: v.rows,
                origin: v.origin,
                column_endpoint: v.column_endpoint,
                row_endpoint: v.row_endpoint,
                transform: v.transform,
                meta: v.meta.view(),
            },
            GdsElement::Unsupported(v) => ElementV::Unsupported { start: v.start_record.view(), records: raws_view(v.records@) },
        }
    }
}

/// Kind, offset and, where it is stated, message of a failure.
pub type Fault = (LayoutErrorKind, Option<int>, Option<Seq<char>>);

/// `e` is the failure `f`: its kind and offset, and its message where `f`
/// states one.
#[verifier::opaque]
pub open spec fn fault_matches(e: LayoutError, f: Fault) -> bool {
    &&& e.kind == f.0
    &&& (match e.offset { Some(o) => Some(o as int), None => None }) == f.1
    &&& (f.2 matches Some(m) ==> e.message@ == m)
}

/// What `fault_matches` says: the error has the fault's kind and offset,
/// and its message where the fault states one.
pub proof fn lemma_fault_matches(e: LayoutError, f: Fault)
    ensures
        fault_matches(e, f) <==> {
            &&& e.kind == f.0
            &&& (match e.offset { Some(o) => Some(o as int), None => None }) == f.1
            &&& (f.2 matches Some(m) ==> e.message@ == m)
        },
{
    reveal(fault_matches);
}

/// Text of an ASCII payload, or a malformed-record fault at the record.
pub open spec fn ascii_of(r: RecordSpec) -> Result<Seq<char>, Fault> {
    if all_ascii(ascii_bytes(r.payload)) {
        Ok(chars_of(ascii_bytes(r.payload)))
    } else {
        Err((LayoutErrorKind::Malformed, Some(r.offset), Some("ASCII record contains a non-ASCII byte"@)))
    }
}

/// A REAL8 value is positive: sign bit clear and a non-zero mantissa
/// (REAL8 values are always finite).
pub open spec fn real8_positive(bits: int) -> bool {
    bits < 0x8000_0000_0000_0000 && bits % 0x0100_0000_0000_0000 != 0
}

pub open spec fn is_element_start(ty: u8) -> bool {
    ty == BOUNDARY || ty == PATH || ty == BOX || ty == TEXT || ty == NODE || ty == SREF || ty == AREF || ty == TEXTNODE
}

pub open spec fn is_element_attribute(ty: u8) -> bool {
    ty == LAYER || ty == DATATYPE || ty == WIDTH || ty == XY || ty == ENDEL || ty == SNAME || ty == COLROW
        || ty == TEXTTYPE || ty == PRESENTATION || ty == STRING || ty == STRANS || ty == MAG || ty == ANGLE
        || ty == PATHTYPE || ty == ELFLAGS || ty == NODETYPE || ty == PROPATTR || ty == PROPVALUE || ty == BOXTYPE
        || ty == PLEX || ty == BGNEXTN || ty == ENDEXTN
}

pub fn element_start(ty: u8) -> (b: bool)
    ensures
        b == is_element_start(ty),
{
    ty == BOUNDARY || ty == PATH || ty == BOX || ty == TEXT || ty == NODE || ty == SREF || ty == AREF || ty == TEXTNODE
}

pub fn element_attribute(ty: u8) -> (b: bool)
    ensures
        b == is_element_attribute(ty),
{
    ty == LAYER || ty == DATATYPE || ty == WIDTH || ty == XY || ty == ENDEL || ty == SNAME || ty == COLROW
        || ty == TEXTTYPE || ty == PRESENTATION || ty == STRING || ty == STRANS || ty == MAG || ty == ANGLE
        || ty == PATHTYPE || ty == ELFLAGS || ty == NODETYPE || ty == PROPATTR || ty == PROPVALUE || ty == BOXTYPE
        || ty == PLEX || ty == BGNEXTN || ty == ENDEXTN
}

// --- element attributes ---

/// Attributes gathered from an element's records.
#[verifier::ext_equal]
pub struct FieldsV {
    pub layer: Option<(i16, int)>,
    pub datatype: Option<(i16, int)>,
    pub width: Option<i32>,
    pub xy: Option<(Seq<Point>, int)>,
    pub sname: Option<Seq<char>>,
    pub colrow: Option<(u16, u16)>,
    pub presentation: Option<u16>,
    pub string: Option<Seq<char>>,
    pub transform: GdsTransform,
    pub strans_seen: bool,
    pub path_type: Option<i16>,
    pub begin_extension: Option<i32>,
    pub end_extension: Option<i32>,
    pub meta: MetaV,
    pub pending: Option<(i16, int)>,
}

pub open spec fn empty_fields() -> FieldsV {
    FieldsV {
        layer: None,
        datatype: None,
        width: None,
        xy: None,
        sname: None,
        colrow: None,
        presentation: None,
        string: None,
        transform: GdsTransform {
            reflected: false,
            absolute_magnification: false,
            absolute_angle: false,
            magnification: None,
            angle_degrees: None,
            reserved_bits: 0,
        },
        strans_seen: false,
        path_type: None,
        begin_extension: None,
        end_extension: None,
        meta: MetaV { properties: Seq::empty(), element_flags: None, plex: None, unhandled: Seq::empty() },
        pending: None,
    }
}

pub open spec fn dup(r: RecordSpec, text: Seq<char>) -> Fault {
    (LayoutErrorKind::Duplicate, Some(r.offset), Some(text))
}

/// The attributes after one more record: each attribute may appear once
/// (else a duplicate fault at the record); COLROW values must be positive
/// and MAG positive (else malformed); text must be ASCII; a PROPVALUE needs
/// a pending PROPATTR and a PROPATTR none (else invalid order); records of
/// other types are kept.
pub open spec fn apply_record(f: FieldsV, r: RecordSpec) -> Result<FieldsV, Fault> {
    let p = r.payload;
    if r.ty == LAYER {
        if f.layer is Some { Err(dup(r, "duplicate LAYER"@)) } else { Ok(FieldsV { layer: Some((be_i16(p, 0) as i16, r.offset)), ..f }) }
    } else if r.ty == DATATYPE || r.ty == TEXTTYPE || r.ty == NODETYPE || r.ty == BOXTYPE {
        if f.datatype is Some { Err(dup(r, "duplicate element type"@)) } else { Ok(FieldsV { datatype: Some((be_i16(p, 0) as i16, r.offset)), ..f }) }
    } else if r.ty == WIDTH {
        if f.width is Some { Err(dup(r, "duplicate WIDTH"@)) } else { Ok(FieldsV { width: Some(be_i32(p, 0) as i32), ..f }) }
    } else if r.ty == XY {
        if f.xy is Some { Err(dup(r, "duplicate XY"@)) } else { Ok(FieldsV { xy: Some((points_of(p), r.offset)), ..f }) }
    } else if r.ty == SNAME {
        match ascii_of(r) {
            Err(e) => Err(e),
            Ok(s) => if f.sname is Some { Err(dup(r, "duplicate SNAME"@)) } else { Ok(FieldsV { sname: Some(s), ..f }) },
        }
    } else if r.ty == COLROW {
        let a = be_i16(p, 0);
        let b = be_i16(p, 2);
        if a <= 0 || b <= 0 {
            Err((LayoutErrorKind::Malformed, Some(r.offset), Some("COLROW values must be positive"@)))
        } else if f.colrow is Some {
            Err(dup(r, "duplicate COLROW"@))
        } else {
            Ok(FieldsV { colrow: Some((a as u16, b as u16)), ..f })
        }
    } else if r.ty == PRESENTATION {
        if f.presentation is Some { Err(dup(r, "duplicate PRESENTATION"@)) } else { Ok(FieldsV { presentation: Some(be16(p, 0) as u16), ..f }) }
    } else if r.ty == STRING {
        match ascii_of(r) {
            Err(e) => Err(e),
            Ok(s) => if f.string is Some { Err(dup(r, "duplicate STRING"@)) } else { Ok(FieldsV { string: Some(s), ..f }) },
        }
    } else if r.ty == STRANS {
        let bits = be16(p, 0) as u16;
        if f.strans_seen {
            Err(dup(r, "duplicate STRANS"@))
        } else {
            Ok(FieldsV {
                strans_seen: true,
                transform: GdsTransform {
                    reflected: bits & 0x8000 != 0,
                    absolute_magnification: bits & 4 != 0,
                    absolute_angle: bits & 2 != 0,
                    reserved_bits: bits & 0x7ff9,
                    ..f.transform
                },
                ..f
            })
        }
    } else if r.ty == MAG {
        if f.transform.magnification is Some {
            Err(dup(r, "duplicate MAG"@))
        } else if !real8_positive(be_u64(p, 0)) {
            Err((LayoutErrorKind::Malformed, Some(r.offset), Some("MAG must be finite and positive"@)))
        } else {
            Ok(FieldsV { transform: GdsTransform { magnification: Some(be_u64(p, 0) as u64), ..f.transform }, ..f })
        }
    } else if r.ty == ANGLE {
        if f.transform.angle_degrees is Some {
            Err(dup(r, "duplicate ANGLE"@))
        } else {
            Ok(FieldsV { transform: GdsTransform { angle_degrees: Some(be_u64(p, 0) as u64), ..f.transform }, ..f })
        }
    } else if r.ty == PATHTYPE {
        if f.path_type is Some { Err(dup(r, "duplicate PATHTYPE"@)) } else { Ok(FieldsV { path_type: Some(be_i16(p, 0) as i16), ..f }) }
    } else if r.ty == BGNEXTN {
        if f.begin_extension is Some { Err(dup(r, "duplicate BGNEXTN"@)) } else { Ok(FieldsV { begin_extension: Some(be_i32(p, 0) as i32), ..f }) }
    } else if r.ty == ENDEXTN {
        if f.end_extension is Some { Err(dup(r, "duplicate ENDEXTN"@)) } else { Ok(FieldsV { end_extension: Some(be_i32(p, 0) as i32), ..f }) }
    } else if r.ty == ELFLAGS {
        if f.meta.element_flags is Some {
            Err(dup(r, "duplicate ELFLAGS"@))
        } else {
            Ok(FieldsV { meta: MetaV { element_flags: Some(be16(p, 0) as u16), ..f.meta }, ..f })
        }
    } else if r.ty == PLEX {
        if f.meta.plex is Some { Err(dup(r, "duplicate PLEX"@)) } else { Ok(FieldsV { meta: MetaV { plex: Some(be_i32(p, 0) as i32), ..f.meta }, ..f }) }
    } else if r.ty == PROPATTR {
        if f.pending is Some {
            Err((LayoutErrorKind::InvalidOrder, Some(r.offset), Some("PROPATTR before prior PROPVALUE"@)))
        } else {
            Ok(FieldsV { pending: Some((be_i16(p, 0) as i16, r.offset)), ..f })
        }
    } else if r.ty == PROPVALUE {
        match f.pending {
            None => Err((LayoutErrorKind::InvalidOrder, Some(r.offset), Some("PROPVALUE without PROPATTR"@))),
            Some((attribute, _)) => match ascii_of(r) {
                Err(e) => Err(e),
                Ok(s) => Ok(FieldsV {
                    pending: None,
                    meta: MetaV { properties: f.meta.properties.push(PropertyV { attribute, value: s }), ..f.meta },
                    ..f
                }),
            },
        }
    } else {
        Ok(FieldsV { meta: MetaV { unhandled: f.meta.unhandled.push(r), ..f.meta }, ..f })
    }
}

/// Attributes of the records from `i` up to the first ENDEL, and the index
/// after it; an element without ENDEL is out of order at `start`.
pub open spec fn collect_fields(rs: Seq<RecordSpec>, i: int, f: FieldsV, start: int) -> Result<(FieldsV, int), Fault>
    decreases rs.len() - i,
{
    if i < 0 || i >= rs.len() {
        Err((LayoutErrorKind::InvalidOrder, Some(start), Some("element is missing ENDEL"@)))
    } else if rs[i].ty == ENDEL {
        Ok((f, i + 1))
    } else {
        match apply_record(f, rs[i]) {
            Err(e) => Err(e),
            Ok(g) => collect_fields(rs, i + 1, g, start),
        }
    }
}

/// Records of a TEXTNODE from `i` up to its ENDEL, and the index after it.
pub open spec fn collect_raw(rs: Seq<RecordSpec>, i: int, acc: Seq<RecordSpec>, start: int) -> Result<(Seq<RecordSpec>, int), Fault>
    decreases rs.len() - i,
{
    if i < 0 || i >= rs.len() {
        Err((LayoutErrorKind::InvalidOrder, Some(start), Some("TEXTNODE is missing ENDEL"@)))
    } else if rs[i].ty == ENDEL {
        Ok((acc, i + 1))
    } else {
        collect_raw(rs, i + 1, acc.push(rs[i]), start)
    }
}

/// Attributes that an element of type `ty` must not carry.
pub open spec fn invalid_fields(ty: u8, f: FieldsV) -> bool {
    if ty == BOUNDARY || ty == BOX || ty == NODE {
        f.width is Some || f.sname is Some || f.colrow is Some || f.presentation is Some || f.string is Some
            || f.strans_seen || f.path_type is Some || f.begin_extension is Some || f.end_extension is Some
    } else if ty == PATH {
        f.sname is Some || f.colrow is Some || f.presentation is Some || f.string is Some || f.strans_seen
    } else if ty == TEXT {
        f.sname is Some || f.colrow is Some || f.begin_extension is Some || f.end_extension is Some
    } else if ty == SREF {
        f.layer is Some || f.datatype is Some || f.width is Some || f.colrow is Some || f.presentation is Some
            || f.string is Some || f.path_type is Some || f.begin_extension is Some || f.end_extension is Some
    } else if ty == AREF {
        f.layer is Some || f.datatype is Some || f.width is Some || f.presentation is Some || f.string is Some
            || f.path_type is Some || f.begin_extension is Some || f.end_extension is Some
    } else {
        false
    }
}

/// The points take exactly two distinct x values.
pub open spec fn two_xs(r: Seq<Point>) -> bool {
    exists|j: int| #![trigger r[j]] 0 <= j < r.len() && r[j].x != r[0].x
        && forall|i: int| 0 <= i < r.len() ==> (#[trigger] r[i]).x == r[0].x || r[i].x == r[j].x
}

/// The points take exactly two distinct y values.
pub open spec fn two_ys(r: Seq<Point>) -> bool {
    exists|j: int| #![trigger r[j]] 0 <= j < r.len() && r[j].y != r[0].y
        && forall|i: int| 0 <= i < r.len() ==> (#[trigger] r[i]).y == r[0].y || r[i].y == r[j].y
}

/// Four points with two distinct x and two distinct y values, each edge
/// (cyclically) axis-parallel.
#[verifier::opaque]
pub open spec fn axis_rect(r: Seq<Point>) -> bool {
    &&& r.len() == 4
    &&& two_xs(r)
    &&& two_ys(r)
    &&& forall|i: int| 0 <= i < 4 ==> (#[trigger] r[i]).x == r[(i + 1) % 4].x || r[i].y == r[(i + 1) % 4].y
}

/// The ring of a closed XY list (first point repeated last, four points at
/// least) without its closing point; in strict mode it must be a valid ring.
pub open spec fn closed_ring_of(pts: Seq<Point>, off: int, strict: bool, kind: Seq<char>) -> Result<Seq<Point>, Fault> {
    if pts.len() < 4 || pts[0] != pts.last() {
        Err((LayoutErrorKind::Malformed, Some(off), Some(kind + " XY must be a closed ring with at least four points"@)))
    } else if strict && !ring_valid(pts.drop_last()) {
        Err((LayoutErrorKind::Malformed, Some(off), Some("invalid "@ + kind + " ring: "@ + defect_text(pts.drop_last()))))
    } else {
        Ok(pts.drop_last())
    }
}

/// The defect of an invalid ring (see `ring_defect`).
pub open spec fn defect_text(r: Seq<Point>) -> Seq<char> {
    match ring_defect(r) {
        Some(m) => m,
        None => Seq::empty(),
    }
}

/// Name of a ring element type in messages.
pub open spec fn ring_kind_name(ty: u8) -> Seq<char> {
    if ty == BOX { "BOX"@ } else { "BOUNDARY"@ }
}

pub open spec fn missing(start: RecordSpec, text: Seq<char>) -> Fault {
    (LayoutErrorKind::Malformed, Some(start.offset), Some(text))
}

/// A BOUNDARY or BOX from its attributes.
#[verifier::opaque]
pub open spec fn ring_element_spec(start: RecordSpec, f: FieldsV, strict: bool) -> Result<ElementV, Fault> {
    let ty = start.ty;
    if f.xy is None {
        Err(missing(start, "element is missing XY"@))
    } else {
        match closed_ring_of(f.xy.unwrap().0, f.xy.unwrap().1, strict, ring_kind_name(ty)) {
            Err(e) => Err(e),
            Ok(ring) => if ty == BOX && strict && ring.len() != 4 {
                Err(missing(start, "BOX must contain exactly four non-closing vertices"@))
            } else if ty == BOX && strict && !axis_rect(ring) {
                Err(missing(start, "BOX must be an axis-aligned rectangle"@))
            } else if f.layer is None || f.datatype is None {
                Err(missing(start, "element is missing LAYER or its type"@))
            } else if ty == BOUNDARY {
                Ok(ElementV::Boundary { layer: f.layer.unwrap().0, datatype: f.datatype.unwrap().0, ring, meta: f.meta })
            } else {
                Ok(ElementV::Box { layer: f.layer.unwrap().0, box_type: f.datatype.unwrap().0, ring, meta: f.meta })
            },
        }
    }
}

/// A PATH from its attributes.
#[verifier::opaque]
pub open spec fn path_element_spec(start: RecordSpec, f: FieldsV) -> Result<ElementV, Fault> {
    if f.xy is None || f.layer is None || f.datatype is None {
        Err(missing(start, "PATH is missing XY, LAYER or DATATYPE"@))
    } else if f.xy.unwrap().0.len() < 2 {
        Err(missing(start, "PATH needs at least two points"@))
    } else {
        Ok(ElementV::Path {
            layer: f.layer.unwrap().0,
            datatype: f.datatype.unwrap().0,
            centerline: f.xy.unwrap().0,
            width: f.width,
            path_type: f.path_type,
            begin_extension: f.begin_extension,
            end_extension: f.end_extension,
            meta: f.meta,
        })
    }
}

/// A TEXT from its attributes.
#[verifier::opaque]
pub open spec fn text_element_spec(start: RecordSpec, f: FieldsV) -> Result<ElementV, Fault> {
    if f.xy is None || f.layer is None || f.datatype is None || f.string is None {
        Err(missing(start, "TEXT is missing XY, LAYER, TEXTTYPE or STRING"@))
    } else if f.xy.unwrap().0.len() != 1 {
        Err(missing(start, "TEXT needs exactly one point"@))
    } else {
        Ok(ElementV::Text {
            layer: f.layer.unwrap().0,
            text_type: f.datatype.unwrap().0,
            origin: f.xy.unwrap().0[0],
            string: f.string->0,
            presentation: f.presentation,
            path_type: f.path_type,
            width: f.width,
            transform: f.transform,
            meta: f.meta,
        })
    }
}

/// A NODE from its attributes.
#[verifier::opaque]
pub open spec fn node_element_spec(start: RecordSpec, f: FieldsV) -> Result<ElementV, Fault> {
    if f.xy is None || f.layer is None || f.datatype is None {
        Err(missing(start, "NODE is missing XY, LAYER or NODETYPE"@))
    } else if f.xy.unwrap().0.len() == 0 {
        Err(missing(start, "NODE needs at least one point"@))
    } else {
        Ok(ElementV::Node { layer: f.layer.unwrap().0, node_type: f.datatype.unwrap().0, points: f.xy.unwrap().0, meta: f.meta })
    }
}

/// An SREF from its attributes.
#[verifier::opaque]
pub open spec fn sref_element_spec(start: RecordSpec, f: FieldsV) -> Result<ElementV, Fault> {
    if f.xy is None || f.sname is None {
        Err(missing(start, "SREF is missing XY or SNAME"@))
    } else if f.xy.unwrap().0.len() != 1 {
        Err(missing(start, "SREF needs exactly one point"@))
    } else {
        Ok(ElementV::Sref { structure: f.sname->0, origin: f.xy.unwrap().0[0], transform: f.transform, meta: f.meta })
    }
}

/// An AREF from its attributes.
#[verifier::opaque]
pub open spec fn aref_element_spec(start: RecordSpec, f: FieldsV) -> Result<ElementV, Fault> {
    if f.xy is None || f.colrow is None || f.sname is None {
        Err(missing(start, "AREF is missing XY, COLROW or SNAME"@))
    } else if f.xy.unwrap().0.len() != 3 {
        Err(missing(start, "AREF needs exactly three points"@))
    } else {
        Ok(ElementV::Aref {
            structure: f.sname->0,
            columns: f.colrow.unwrap().0,
            rows: f.colrow.unwrap().1,
            origin: f.xy.unwrap().0[0],
            column_endpoint: f.xy.unwrap().0[1],
            row_endpoint: f.xy.unwrap().0[2],
            transform: f.transform,
            meta: f.meta,
        })
    }
}

/// The element an element start record and its attributes make: attributes
/// foreign to the element type are out of order; a missing XY, LAYER, type,
/// STRING, SNAME or COLROW, or a wrong number of points, is malformed at the
/// start record; BOUNDARY and BOX need a closed ring (see `closed_ring_of`),
/// and in strict mode a BOX must be an axis-aligned rectangle.
pub open spec fn build_spec(start: RecordSpec, f: FieldsV, strict: bool) -> Result<ElementV, Fault> {
    let ty = start.ty;
    if invalid_fields(ty, f) {
        Err((LayoutErrorKind::InvalidOrder, Some(start.offset), Some("record set contains attributes invalid for the element"@)))
    } else if f.xy is None {
        Err(missing(start, "element is missing XY"@))
    } else if ty == BOUNDARY || ty == BOX {
        ring_element_spec(start, f, strict)
    } else if ty == PATH {
        path_element_spec(start, f)
    } else if ty == TEXT {
        text_element_spec(start, f)
    } else if ty == NODE {
        node_element_spec(start, f)
    } else if ty == SREF {
        sref_element_spec(start, f)
    } else {
        aref_element_spec(start, f)
    }
}

/// The element starting at record `i`, and the index after its ENDEL.
pub open spec fn element_spec(rs: Seq<RecordSpec>, i: int, strict: bool) -> Result<(ElementV, int), Fault> {
    let start = rs[i];
    if start.ty == TEXTNODE {
        match collect_raw(rs, i + 1, Seq::empty(), start.offset) {
            Err(e) => Err(e),
            Ok((records, next)) => Ok((ElementV::Unsupported { start, records }, next)),
        }
    } else {
        match collect_fields(rs, i + 1, empty_fields(), start.offset) {
            Err(e) => Err(e),
            Ok((f, next)) => match f.pending {
                Some((_, off)) => Err((LayoutErrorKind::InvalidOrder, Some(off), Some("PROPATTR without PROPVALUE"@))),
                None => match build_spec(start, f, strict) {
                    Err(e) => Err(e),
                    Ok(el) => Ok((el, next)),
                },
            },
        }
    }
}


// --- executable parsing ---

fn copy_bytes(v: &Vec<u8>) -> (c: Vec<u8>)
    ensures
        c@ == v@,
{
    let mut c: Vec<u8> = Vec::new();
    let mut i: usize = 0;
    while i < v.len()
        invariant
            i <= v@.len(),
            c@ == v@.take(i as int),
        decreases v@.len() - i,
    {
        c.push(v[i]);
        assert(c@ =~= v@.take(i as int + 1));
        i = i + 1;
    }
    assert(v@.take(v@.len() as int) =~= v@);
    c
}

/// The record kept verbatim.
pub fn raw_of(r: &Record) -> (raw: GdsRawRecord)
    ensures
        raw.view() == r.view(),
{
    GdsRawRecord { record_type: r.ty, data_type: r.dt, payload: copy_bytes(&r.payload), source_offset: r.offset }
}

fn fault(kind: LayoutErrorKind, offset: usize, text: &str) -> (e: LayoutError)
    ensures
        e.kind == kind,
        e.offset == Some(offset),
        e.message@ == text@,
        fault_matches(e, (kind, Some(offset as int), None)),
        fault_matches(e, (kind, Some(offset as int), Some(text@))),
{
    proof {
        reveal(fault_matches);
    }
    LayoutError::at(kind, offset, String::from_str(text))
}

/// Text of an ASCII record.
pub fn ascii_record(r: &Record) -> (s: Result<String, LayoutError>)
    ensures
        match ascii_of(r.view()) {
            Ok(t) => s matches Ok(x) && x@ == t,
            Err(e) => s matches Err(x) && fault_matches(x, e),
        },
{
    match ascii(&r.payload) {
        Some(t) => Ok(t),
        None => Err(fault(LayoutErrorKind::Malformed, r.offset, "ASCII record contains a non-ASCII byte")),
    }
}

/// Attributes gathered while reading an element.
pub struct ElementFields {
    pub layer: Option<(i16, usize)>,
    pub datatype: Option<(i16, usize)>,
    pub width: Option<i32>,
    pub xy: Option<(Vec<Point>, usize)>,
    pub sname: Option<String>,
    pub colrow: Option<(u16, u16)>,
    pub presentation: Option<u16>,
    pub string: Option<String>,
    pub transform: GdsTransform,
    pub strans_seen: bool,
    pub path_type: Option<i16>,
    pub begin_extension: Option<i32>,
    pub end_extension: Option<i32>,
    pub meta: GdsElementMeta,
    pub pending: Option<(i16, usize)>,
}

pub open spec fn off_view<T>(o: Option<(T, usize)>) -> Option<(T, int)> {
    match o {
        Some((v, k)) => Some((v, k as int)),
        None => None,
    }
}

pub open spec fn str_view(o: Option<String>) -> Option<Seq<char>> {
    match o {
        Some(s) => Some(s@),
        None => None,
    }
}

impl ElementFields {
    pub open spec fn view(&self) -> FieldsV {
        FieldsV {
            layer: off_view(self.layer),
            datatype: off_view(self.datatype),
            width: self.width,
            xy: match self.xy {
                Some((v, k)) => Some((v@, k as int)),
                None => None,
            },
            sname: str_view(self.sname),
            colrow: self.colrow,
            presentation: self.presentation,
            string: str_view(self.string),
            transform: self.transform,
            strans_seen: self.strans_seen,
            path_type: self.path_type,
            begin_extension: self.begin_extension,
            end_extension: self.end_extension,
            meta: self.meta.view(),
            pending: off_view(self.pending),
        }
    }

    pub fn new() -> (f: ElementFields)
        ensures
            f.view() == empty_fields(),
    {
        let f = ElementFields {
            layer: None,
            datatype: None,
            width: None,
            xy: None,
            sname: None,
            colrow: None,
            presentation: None,
            string: None,
            transform: GdsTransform::identity(),
            strans_seen: false,
            path_type: None,
            begin_extension: None,
            end_extension: None,
            meta: GdsElementMeta::new(),
            pending: None,
        };
        assert(f.view().meta.properties =~= Seq::<PropertyV>::empty());
        assert(f.view().meta.unhandled =~= Seq::<RecordSpec>::empty());
        f
    }
}

fn dup_fault(r: &Record, what: &str) -> (e: LayoutError)
    ensures
        fault_matches(e, dup(r.view(), what@)),
{
    fault(LayoutErrorKind::Duplicate, r.offset, what)
}

#[verifier::rlimit(100)]
#[verifier::spinoff_prover]
/// Adds one record to the attributes (see `apply_record`).
pub fn apply_record_exec(f: &mut ElementFields, r: &Record) -> (res: Result<(), LayoutError>)
    requires
        shape_ok(r.ty, r.dt, r.payload@.len()),
    ensures
        match apply_record(old(f).view(), r.view()) {
            Ok(g) => res is Ok && final(f).view() == g,
            Err(e) => res matches Err(x) && fault_matches(x, e),
        },
{
    let ghost g0 = f.view();
    let ty = r.ty;
    let p = &r.payload;
    if ty == LAYER {
        if f.layer.is_some() { return Err(dup_fault(r, "duplicate LAYER")); }
        f.layer = Some((i16_at(p, 0), r.offset));
    } else if ty == DATATYPE || ty == TEXTTYPE || ty == NODETYPE || ty == BOXTYPE {
        if f.datatype.is_some() { return Err(dup_fault(r, "duplicate element type")); }
        f.datatype = Some((i16_at(p, 0), r.offset));
    } else if ty == WIDTH {
        if f.width.is_some() { return Err(dup_fault(r, "duplicate WIDTH")); }
        f.width = Some(i32_at(p, 0));
    } else if ty == XY {
        if f.xy.is_some() { return Err(dup_fault(r, "duplicate XY")); }
        f.xy = Some((points(p), r.offset));
    } else if ty == SNAME {
        let s = match ascii_record(r) { Ok(s) => s, Err(e) => { return Err(e); } };
        if f.sname.is_some() { return Err(dup_fault(r, "duplicate SNAME")); }
        f.sname = Some(s);
    } else if ty == COLROW {
        let a = i16_at(p, 0);
        let b = i16_at(p, 2);
        if a <= 0 || b <= 0 {
            return Err(fault(LayoutErrorKind::Malformed, r.offset, "COLROW values must be positive"));
        }
        if f.colrow.is_some() { return Err(dup_fault(r, "duplicate COLROW")); }
        f.colrow = Some((a as u16, b as u16));
    } else if ty == PRESENTATION {
        if f.presentation.is_some() { return Err(dup_fault(r, "duplicate PRESENTATION")); }
        f.presentation = Some(u16_at(p, 0));
    } else if ty == STRING {
        let s = match ascii_record(r) { Ok(s) => s, Err(e) => { return Err(e); } };
        if f.string.is_some() { return Err(dup_fault(r, "duplicate STRING")); }
        f.string = Some(s);
    } else if ty == STRANS {
        let bits = u16_at(p, 0);
        if f.strans_seen { return Err(dup_fault(r, "duplicate STRANS")); }
        f.strans_seen = true;
        f.transform.reflected = bits & 0x8000 != 0;
        f.transform.absolute_magnification = bits & 4 != 0;
        f.transform.absolute_angle = bits & 2 != 0;
        f.transform.reserved_bits = bits & 0x7ff9;
    } else if ty == MAG {
        if f.transform.magnification.is_some() { return Err(dup_fault(r, "duplicate MAG")); }
        let v = u64_at(p, 0);
        if !(v < 0x8000_0000_0000_0000 && v % 0x0100_0000_0000_0000 != 0) {
            return Err(fault(LayoutErrorKind::Malformed, r.offset, "MAG must be finite and positive"));
        }
        f.transform.magnification = Some(v);
    } else if ty == ANGLE {
        if f.transform.angle_degrees.is_some() { return Err(dup_fault(r, "duplicate ANGLE")); }
        f.transform.angle_degrees = Some(u64_at(p, 0));
    } else if ty == PATHTYPE {
        if f.path_type.is_some() { return Err(dup_fault(r, "duplicate PATHTYPE")); }
        f.path_type = Some(i16_at(p, 0));
    } else if ty == BGNEXTN {
        if f.begin_extension.is_some() { return Err(dup_fault(r, "duplicate BGNEXTN")); }
        f.begin_extension = Some(i32_at(p, 0));
    } else if ty == ENDEXTN {
        if f.end_extension.is_some() { return Err(dup_fault(r, "duplicate ENDEXTN")); }
        f.end_extension = Some(i32_at(p, 0));
    } else if ty == ELFLAGS {
        if f.meta.element_flags.is_some() { return Err(dup_fault(r, "duplicate ELFLAGS")); }
        f.meta.element_flags = Some(u16_at(p, 0));
    } else if ty == PLEX {
        if f.meta.plex.is_some() { return Err(dup_fault(r, "duplicate PLEX")); }
        f.meta.plex = Some(i32_at(p, 0));
    } else if ty == PROPATTR {
        if f.pending.is_some() {
            return Err(fault(LayoutErrorKind::InvalidOrder, r.offset, "PROPATTR before prior PROPVALUE"));
        }
        f.pending = Some((i16_at(p, 0), r.offset));
    } else if ty == PROPVALUE {
        let attribute = match f.pending {
            Some((a, _)) => a,
            None => {
                return Err(fault(LayoutErrorKind::InvalidOrder, r.offset, "PROPVALUE without PROPATTR"));
            },
        };
        let value = match ascii_record(r) { Ok(s) => s, Err(e) => { return Err(e); } };
        f.pending = None;
        let ghost props = f.meta.properties@;
        f.meta.properties.push(GdsProperty { attribute, value });
        proof {
            assert(f.meta.properties@.map_values(|q: GdsProperty| q.view())
                =~= props.map_values(|q: GdsProperty| q.view()).push(PropertyV { attribute, value: ascii_of(r.view())->Ok_0 }));
        }
    } else {
        let ghost un = f.meta.unhandled_records@;
        f.meta.unhandled_records.push(raw_of(r));
        proof {
            assert(raws_view(f.meta.unhandled_records@) =~= raws_view(un).push(r.view()));
        }
    }
    proof {
        assert(f.view() =~= apply_record(g0, r.view())->Ok_0);
    }
    Ok(())
}


/// Records are decoded: each has the shape of its type.
pub open spec fn shaped(rs: Seq<Record>) -> bool {
    forall|k: int| 0 <= k < rs.len() ==> shape_ok((#[trigger] rs[k]).ty, rs[k].dt, rs[k].payload@.len())
}

/// Attributes of the records from `i` to the next ENDEL (see `collect_fields`).
fn collect_exec(records: &Vec<Record>, i: usize, start: usize) -> (res: Result<(ElementFields, usize), LayoutError>)
    requires
        shaped(records@),
    ensures
        match collect_fields(records_view(records@), i as int, empty_fields(), start as int) {
            Ok((g, next)) => res matches Ok((f, n)) && f.view() == g && n == next,
            Err(e) => res matches Err(x) && fault_matches(x, e),
        },
{
    let ghost rs = records_view(records@);
    let mut f = ElementFields::new();
    let mut j = i;
    while j < records.len()
        invariant
            shaped(records@),
            rs == records_view(records@),
            i <= j,
            collect_fields(rs, i as int, empty_fields(), start as int) == collect_fields(rs, j as int, f.view(), start as int),
        decreases records@.len() - j,
    {
        let r = &records[j];
        assert(rs[j as int] == r.view());
        if r.ty == ENDEL {
            return Ok((f, j + 1));
        }
        match apply_record_exec(&mut f, r) {
            Ok(()) => {},
            Err(e) => {
                return Err(e);
            },
        }
        j = j + 1;
    }
    Err(fault(LayoutErrorKind::InvalidOrder, start, "element is missing ENDEL"))
}

/// Records of a TEXTNODE from `i` to the next ENDEL (see `collect_raw`).
fn collect_raw_exec(records: &Vec<Record>, i: usize, start: usize) -> (res: Result<(Vec<GdsRawRecord>, usize), LayoutError>)
    ensures
        match collect_raw(records_view(records@), i as int, Seq::empty(), start as int) {
            Ok((g, next)) => res matches Ok((v, n)) && raws_view(v@) == g && n == next,
            Err(e) => res matches Err(x) && fault_matches(x, e),
        },
{
    let ghost rs = records_view(records@);
    let mut out: Vec<GdsRawRecord> = Vec::new();
    let mut j = i;
    assert(raws_view(out@) =~= Seq::<RecordSpec>::empty());
    while j < records.len()
        invariant
            rs == records_view(records@),
            i <= j,
            collect_raw(rs, i as int, Seq::empty(), start as int) == collect_raw(rs, j as int, raws_view(out@), start as int),
        decreases records@.len() - j,
    {
        let r = &records[j];
        assert(rs[j as int] == r.view());
        if r.ty == ENDEL {
            return Ok((out, j + 1));
        }
        let ghost o = out@;
        out.push(raw_of(r));
        assert(raws_view(out@) =~= raws_view(o).push(r.view()));
        j = j + 1;
    }
    Err(fault(LayoutErrorKind::InvalidOrder, start, "TEXTNODE is missing ENDEL"))
}

fn invalid_fields_exec(ty: u8, f: &ElementFields) -> (b: bool)
    ensures
        b == invalid_fields(ty, f.view()),
{
    if ty == BOUNDARY || ty == BOX || ty == NODE {
        f.width.is_some() || f.sname.is_some() || f.colrow.is_some() || f.presentation.is_some() || f.string.is_some()
            || f.strans_seen || f.path_type.is_some() || f.begin_extension.is_some() || f.end_extension.is_some()
    } else if ty == PATH {
        f.sname.is_some() || f.colrow.is_some() || f.presentation.is_some() || f.string.is_some() || f.strans_seen
    } else if ty == TEXT {
        f.sname.is_some() || f.colrow.is_some() || f.begin_extension.is_some() || f.end_extension.is_some()
    } else if ty == SREF {
        f.layer.is_some() || f.datatype.is_some() || f.width.is_some() || f.colrow.is_some() || f.presentation.is_some()
            || f.string.is_some() || f.path_type.is_some() || f.begin_extension.is_some() || f.end_extension.is_some()
    } else if ty == AREF {
        f.layer.is_some() || f.datatype.is_some() || f.width.is_some() || f.presentation.is_some() || f.string.is_some()
            || f.path_type.is_some() || f.begin_extension.is_some() || f.end_extension.is_some()
    } else {
        false
    }
}

/// Four points with exactly two distinct x and two distinct y values and
/// axis-parallel edges.
pub fn is_axis_aligned_rectangle(ring: &Vec<Point>) -> (b: bool)
    ensures
        b == axis_rect(ring@),
{
    proof {
        reveal(axis_rect);
    }
    if ring.len() != 4 {
        return false;
    }
    let ghost r = ring@;
    let x0 = ring[0].x;
    let y0 = ring[0].y;
    let mut jx: usize = 0;
    let mut k: usize = 1;
    while k < 4
        invariant
            ring@ == r,
            r.len() == 4,
            x0 == r[0].x,
            1 <= k <= 4,
            jx < 4,
            jx == 0 ==> forall|q: int| 0 <= q < k ==> r[q].x == x0,
            jx != 0 ==> r[jx as int].x != x0 && jx < k && forall|q: int| 0 <= q < jx ==> r[q].x == x0,
        decreases 4 - k,
    {
        if jx == 0 && ring[k].x != x0 {
            jx = k;
        }
        k = k + 1;
    }
    let mut jy: usize = 0;
    k = 1;
    while k < 4
        invariant
            ring@ == r,
            r.len() == 4,
            y0 == r[0].y,
            1 <= k <= 4,
            jy < 4,
            jy == 0 ==> forall|q: int| 0 <= q < k ==> r[q].y == y0,
            jy != 0 ==> r[jy as int].y != y0 && jy < k && forall|q: int| 0 <= q < jy ==> r[q].y == y0,
        decreases 4 - k,
    {
        if jy == 0 && ring[k].y != y0 {
            jy = k;
        }
        k = k + 1;
    }
    if jx == 0 || jy == 0 {
        proof {
            if two_xs(r) {
                let j = choose|j: int| #![trigger r[j]] 0 <= j < r.len() && r[j].x != r[0].x
                    && forall|i: int| 0 <= i < r.len() ==> (#[trigger] r[i]).x == r[0].x || r[i].x == r[j].x;
                if jx == 0 {
                    assert(r[j].x == x0);
                }
            }
            if two_ys(r) {
                let j = choose|j: int| #![trigger r[j]] 0 <= j < r.len() && r[j].y != r[0].y
                    && forall|i: int| 0 <= i < r.len() ==> (#[trigger] r[i]).y == r[0].y || r[i].y == r[j].y;
                if jy == 0 {
                    assert(r[j].y == y0);
                }
            }
        }
        return false;
    }
    let x1 = ring[jx].x;
    let y1 = ring[jy].y;
    let mut ok = true;
    k = 0;
    while k < 4
        invariant
            ring@ == r,
            r.len() == 4,
            k <= 4,
            ok == forall|q: int| 0 <= q < k ==> ((#[trigger] r[q]).x == x0 || r[q].x == x1) && (r[q].y == y0 || r[q].y == y1)
                && (r[q].x == r[(q + 1) % 4].x || r[q].y == r[(q + 1) % 4].y),
        decreases 4 - k,
    {
        let p = ring[k];
        let q = if k == 3 { ring[0] } else { ring[k + 1] };
        assert(q == r[(k as int + 1) % 4]);
        let good = (p.x == x0 || p.x == x1) && (p.y == y0 || p.y == y1) && (p.x == q.x || p.y == q.y);
        ok = ok && good;
        k = k + 1;
    }
    proof {
        if ok {
            assert(two_xs(r)) by {
                assert(r[jx as int].x != r[0].x);
                assert forall|i: int| 0 <= i < r.len() implies (#[trigger] r[i]).x == r[0].x || r[i].x == r[jx as int].x by {
                    assert((r[i].x == x0 || r[i].x == x1) && (r[i].y == y0 || r[i].y == y1)
                        && (r[i].x == r[(i + 1) % 4].x || r[i].y == r[(i + 1) % 4].y));
                }
            }
            assert(two_ys(r)) by {
                assert(r[jy as int].y != r[0].y);
                assert forall|i: int| 0 <= i < r.len() implies (#[trigger] r[i]).y == r[0].y || r[i].y == r[jy as int].y by {
                    assert((r[i].x == x0 || r[i].x == x1) && (r[i].y == y0 || r[i].y == y1)
                        && (r[i].x == r[(i + 1) % 4].x || r[i].y == r[(i + 1) % 4].y));
                }
            }
            assert forall|i: int| 0 <= i < 4 implies (#[trigger] r[i]).x == r[(i + 1) % 4].x || r[i].y == r[(i + 1) % 4].y by {
                assert((r[i].x == x0 || r[i].x == x1) && (r[i].y == y0 || r[i].y == y1)
                    && (r[i].x == r[(i + 1) % 4].x || r[i].y == r[(i + 1) % 4].y));
            }
        } else {
            let q = choose|q: int| 0 <= q < 4 && !(((#[trigger] r[q]).x == x0 || r[q].x == x1) && (r[q].y == y0 || r[q].y == y1)
                && (r[q].x == r[(q + 1) % 4].x || r[q].y == r[(q + 1) % 4].y));
            if axis_rect(r) {
                let j = choose|j: int| #![trigger r[j]] 0 <= j < r.len() && r[j].x != r[0].x
                    && forall|i: int| 0 <= i < r.len() ==> (#[trigger] r[i]).x == r[0].x || r[i].x == r[j].x;
                let j2 = choose|j: int| #![trigger r[j]] 0 <= j < r.len() && r[j].y != r[0].y
                    && forall|i: int| 0 <= i < r.len() ==> (#[trigger] r[i]).y == r[0].y || r[i].y == r[j].y;
                assert(r[jx as int].x == r[0].x || r[jx as int].x == r[j].x);
                assert(r[jy as int].y == r[0].y || r[jy as int].y == r[j2].y);
                assert(r[q].x == r[0].x || r[q].x == r[j].x);
                assert(r[q].y == r[0].y || r[q].y == r[j2].y);
                assert(r[q].x == r[(q + 1) % 4].x || r[q].y == r[(q + 1) % 4].y);
            }
        }
    }
    ok
}


/// The ring of a closed XY list (see `closed_ring_of`).
fn closed_ring(points: Vec<Point>, offset: usize, strict: bool, kind: &str) -> (res: Result<Vec<Point>, LayoutError>)
    ensures
        match closed_ring_of(points@, offset as int, strict, kind@) {
            Ok(ring) => res matches Ok(v) && v@ == ring,
            Err(e) => res matches Err(x) && fault_matches(x, e),
        },
{
    let mut points = points;
    let n = points.len();
    if n < 4 || points[0] != points[n - 1] {
        let mut m = String::from_str(kind);
        m.append(" XY must be a closed ring with at least four points");
        let e = LayoutError::at(LayoutErrorKind::Malformed, offset, m);
        proof {
            reveal(fault_matches);
        }
        return Err(e);
    }
    let ghost all = points@;
    points.pop();
    assert(points@ =~= all.drop_last());
    if strict {
        match check_ring(&points) {
            Ok(()) => {},
            Err(defect) => {
                let mut m = String::from_str("invalid ");
                m.append(kind);
                m.append(" ring: ");
                m.append(defect.as_str());
                let e = LayoutError::at(LayoutErrorKind::Malformed, offset, m);
                proof {
                    reveal(fault_matches);
                    lemma_ring_defect(points@);
                }
                return Err(e);
            },
        }
    }
    Ok(points)
}

fn missing_fault(start: &Record, text: &str) -> (e: LayoutError)
    ensures
        fault_matches(e, missing(start.view(), text@)),
{
    fault(LayoutErrorKind::Malformed, start.offset, text)
}

fn build_ring_element(start: &Record, f: ElementFields, strict: bool) -> (res: Result<GdsElement, LayoutError>)
    requires
        start.ty == BOUNDARY || start.ty == BOX,
    ensures
        match ring_element_spec(start.view(), f.view(), strict) {
            Ok(e) => res matches Ok(x) && x.view() == e,
            Err(e) => res matches Err(x) && fault_matches(x, e),
        },
{
    proof {
        reveal(ring_element_spec);
    }
    let ty = start.ty;
    let ElementFields { layer, datatype, xy, meta, .. } = f;
    let (pts, xy_off) = match xy {
        Some(v) => v,
        None => {
            return Err(missing_fault(start, "element is missing XY"));
        },
    };
    let kind = if ty == BOX { "BOX" } else { "BOUNDARY" };
    proof {
        reveal_strlit("BOX");
        reveal_strlit("BOUNDARY");
    }
    let ring = match closed_ring(pts, xy_off, strict, kind) {
        Ok(r) => r,
        Err(e) => {
            return Err(e);
        },
    };
    if ty == BOX && strict && ring.len() != 4 {
        return Err(missing_fault(start, "BOX must contain exactly four non-closing vertices"));
    }
    if ty == BOX && strict && !is_axis_aligned_rectangle(&ring) {
        return Err(missing_fault(start, "BOX must be an axis-aligned rectangle"));
    }
    let (l, d) = match (layer, datatype) {
        (Some((l, _)), Some((d, _))) => (l, d),
        _ => {
            return Err(missing_fault(start, "element is missing LAYER or its type"));
        },
    };
    if ty == BOUNDARY {
        Ok(GdsElement::Boundary(GdsBoundary { layer: l, datatype: d, ring, meta }))
    } else {
        Ok(GdsElement::Box(GdsBoxElement { layer: l, box_type: d, ring, meta }))
    }
}

fn build_path_element(start: &Record, f: ElementFields) -> (res: Result<GdsElement, LayoutError>)
    ensures
        match path_element_spec(start.view(), f.view()) {
            Ok(e) => res matches Ok(x) && x.view() == e,
            Err(e) => res matches Err(x) && fault_matches(x, e),
        },
{
    proof {
        reveal(path_element_spec);
    }
    let ElementFields { layer, datatype, xy, width, path_type, begin_extension, end_extension, meta, .. } = f;
    match (xy, layer, datatype) {
        (Some((pts, _)), Some((l, _)), Some((d, _))) => {
            if pts.len() < 2 {
                return Err(missing_fault(start, "PATH needs at least two points"));
            }
            Ok(GdsElement::Path(GdsPath { layer: l, datatype: d, centerline: pts, width, path_type, begin_extension, end_extension, meta }))
        },
        _ => Err(missing_fault(start, "PATH is missing XY, LAYER or DATATYPE")),
    }
}

fn build_text_element(start: &Record, f: ElementFields) -> (res: Result<GdsElement, LayoutError>)
    ensures
        match text_element_spec(start.view(), f.view()) {
            Ok(e) => res matches Ok(x) && x.view() == e,
            Err(e) => res matches Err(x) && fault_matches(x, e),
        },
{
    proof {
        reveal(text_element_spec);
    }
    let ElementFields { layer, datatype, xy, string, presentation, path_type, width, transform, meta, .. } = f;
    match (xy, layer, datatype, string) {
        (Some((pts, _)), Some((l, _)), Some((d, _)), Some(text)) => {
            if pts.len() != 1 {
                return Err(missing_fault(start, "TEXT needs exactly one point"));
            }
            Ok(GdsElement::Text(GdsText {
                layer: l,
                text_type: d,
                origin: pts[0],
                string: text,
                presentation,
                path_type,
                width,
                transform,
                meta,
            }))
        },
        _ => Err(missing_fault(start, "TEXT is missing XY, LAYER, TEXTTYPE or STRING")),
    }
}

fn build_node_element(start: &Record, f: ElementFields) -> (res: Result<GdsElement, LayoutError>)
    ensures
        match node_element_spec(start.view(), f.view()) {
            Ok(e) => res matches Ok(x) && x.view() == e,
            Err(e) => res matches Err(x) && fault_matches(x, e),
        },
{
    proof {
        reveal(node_element_spec);
    }
    let ElementFields { layer, datatype, xy, meta, .. } = f;
    match (xy, layer, datatype) {
        (Some((pts, _)), Some((l, _)), Some((d, _))) => {
            if pts.len() == 0 {
                return Err(missing_fault(start, "NODE needs at least one point"));
            }
            Ok(GdsElement::Node(GdsNode { layer: l, node_type: d, points: pts, meta }))
        },
        _ => Err(missing_fault(start, "NODE is missing XY, LAYER or NODETYPE")),
    }
}

fn build_sref_element(start: &Record, f: ElementFields) -> (res: Result<GdsElement, LayoutError>)
    ensures
        match sref_element_spec(start.view(), f.view()) {
            Ok(e) => res matches Ok(x) && x.view() == e,
            Err(e) => res matches Err(x) && fault_matches(x, e),
        },
{
    proof {
        reveal(sref_element_spec);
    }
    let ElementFields { xy, sname, transform, meta, .. } = f;
    match (xy, sname) {
        (Some((pts, _)), Some(name)) => {
            if pts.len() != 1 {
                return Err(missing_fault(start, "SREF needs exactly one point"));
            }
            Ok(GdsElement::Sref(GdsReference { structure: name, origin: pts[0], transform, meta }))
        },
        _ => Err(missing_fault(start, "SREF is missing XY or SNAME")),
    }
}

fn build_aref_element(start: &Record, f: ElementFields) -> (res: Result<GdsElement, LayoutError>)
    ensures
        match aref_element_spec(start.view(), f.view()) {
            Ok(e) => res matches Ok(x) && x.view() == e,
            Err(e) => res matches Err(x) && fault_matches(x, e),
        },
{
    proof {
        reveal(aref_element_spec);
    }
    let ElementFields { xy, sname, colrow, transform, meta, .. } = f;
    match (xy, colrow, sname) {
        (Some((pts, _)), Some((columns, rows)), Some(name)) => {
            if pts.len() != 3 {
                return Err(missing_fault(start, "AREF needs exactly three points"));
            }
            Ok(GdsElement::Aref(GdsArrayReference {
                structure: name,
                columns,
                rows,
                origin: pts[0],
                column_endpoint: pts[1],
                row_endpoint: pts[2],
                transform,
                meta,
            }))
        },
        _ => Err(missing_fault(start, "AREF is missing XY, COLROW or SNAME")),
    }
}

/// The element made of a start record and its attributes (see `build_spec`).
pub fn build_element(start: &Record, f: ElementFields, strict: bool) -> (res: Result<GdsElement, LayoutError>)
    ensures
        match build_spec(start.view(), f.view(), strict) {
            Ok(e) => res matches Ok(x) && x.view() == e,
            Err(e) => res matches Err(x) && fault_matches(x, e),
        },
{
    let ty = start.ty;
    if invalid_fields_exec(ty, &f) {
        return Err(fault(LayoutErrorKind::InvalidOrder, start.offset, "record set contains attributes invalid for the element"));
    }
    if f.xy.is_none() {
        return Err(missing_fault(start, "element is missing XY"));
    }
    if ty == BOUNDARY || ty == BOX {
        build_ring_element(start, f, strict)
    } else if ty == PATH {
        build_path_element(start, f)
    } else if ty == TEXT {
        build_text_element(start, f)
    } else if ty == NODE {
        build_node_element(start, f)
    } else if ty == SREF {
        build_sref_element(start, f)
    } else {
        build_aref_element(start, f)
    }
}

/// The element starting at record `i` (an element start), and the index
/// after its ENDEL (see `element_spec`).
pub fn parse_element(records: &Vec<Record>, i: usize, strict: bool) -> (res: Result<(GdsElement, usize), LayoutError>)
    requires
        i < records@.len(),
        shaped(records@),
    ensures
        match element_spec(records_view(records@), i as int, strict) {
            Ok((e, next)) => res matches Ok((x, n)) && x.view() == e && n == next,
            Err(e) => res matches Err(x) && fault_matches(x, e),
        },
{
    let n = records.len();
    let start = &records[i];
    assert(records_view(records@)[i as int] == start.view());
    if start.ty == TEXTNODE {
        match collect_raw_exec(records, i + 1, start.offset) {
            Ok((recs, next)) => {
                let el = GdsElement::Unsupported(GdsUnsupportedElement { start_record: raw_of(start), records: recs });
                Ok((el, next))
            },
            Err(e) => Err(e),
        }
    } else {
        match collect_exec(records, i + 1, start.offset) {
            Ok((f, next)) => {
                match f.pending {
                    Some((_, off)) => {
                        return Err(fault(LayoutErrorKind::InvalidOrder, off, "PROPATTR without PROPVALUE"));
                    },
                    None => {},
                }
                match build_element(start, f, strict) {
                    Ok(el) => Ok((el, next)),
                    Err(e) => Err(e),
                }
            },
            Err(e) => Err(e),
        }
    }
}

} // verus!
