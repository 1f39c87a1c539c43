//! GDSII stream records and the lossless library model.
//!
//! A stream is a sequence of big-endian records `[u16 length][u8 record
//! type][u8 data type][payload]`. REAL8 values (units, magnification, angle)
//! are kept as their eight raw bytes, read as a big-endian `u64`, so that no
//! value is rounded.
use vstd::prelude::*;
use crate::geometry::Point;

verus! {

pub const HEADER: u8 = 0x00;
pub const BGNLIB: u8 = 0x01;
pub const LIBNAME: u8 = 0x02;
pub const UNITS: u8 = 0x03;
pub const ENDLIB: u8 = 0x04;
pub const BGNSTR: u8 = 0x05;
pub const STRNAME: u8 = 0x06;
pub const ENDSTR: u8 = 0x07;
pub const BOUNDARY: u8 = 0x08;
pub const PATH: u8 = 0x09;
pub const SREF: u8 = 0x0a;
pub const AREF: u8 = 0x0b;
pub const TEXT: u8 = 0x0c;
pub const LAYER: u8 = 0x0d;
pub const DATATYPE: u8 = 0x0e;
pub const WIDTH: u8 = 0x0f;
pub const XY: u8 = 0x10;
pub const ENDEL: u8 = 0x11;
pub const SNAME: u8 = 0x12;
pub const COLROW: u8 = 0x13;
pub const TEXTNODE: u8 = 0x14;
pub const NODE: u8 = 0x15;
pub const TEXTTYPE: u8 = 0x16;
pub const PRESENTATION: u8 = 0x17;
pub const STRING: u8 = 0x19;
pub const STRANS: u8 = 0x1a;
pub const MAG: u8 = 0x1b;
pub const ANGLE: u8 = 0x1c;
pub const PATHTYPE: u8 = 0x21;
pub const ELFLAGS: u8 = 0x26;
pub const NODETYPE: u8 = 0x2a;
pub const PROPATTR: u8 = 0x2b;
pub const PROPVALUE: u8 = 0x2c;
pub const BOX: u8 = 0x2d;
pub const BOXTYPE: u8 = 0x2e;
pub const PLEX: u8 = 0x2f;
pub const BGNEXTN: u8 = 0x30;
pub const ENDEXTN: u8 = 0x31;

pub const DT_NONE: u8 = 0;
pub const DT_BIT_ARRAY: u8 = 1;
pub const DT_I16: u8 = 2;
pub const DT_I32: u8 = 3;
pub const DT_REAL8: u8 = 5;
pub const DT_ASCII: u8 = 6;

/// Strict mode requires the complete HEADER/BGNLIB/LIBNAME/UNITS/ENDLIB
/// envelope; compatibility mode accepts structure-only streams.
#[derive(Clone, Copy, Debug, PartialEq, Eq, Structural)]
pub enum GdsReadMode {
    Strict,
    Compatibility,
}

#[derive(Clone, Copy, Debug, PartialEq, Eq, Structural)]
pub enum LayoutErrorKind {
    Malformed,
    InvalidOrder,
    Duplicate,
    Unsupported,
    UndefinedReference,
    HierarchyCycle,
    NonIntegralTransform,
    ArithmeticOverflow,
    CapacityExceeded,
}

/// Typed stream/layout failure; `offset` is the byte offset of the input
/// record at fault, when there is one.
#[derive(Clone, Debug, PartialEq, Eq)]
pub struct LayoutError {
    pub kind: LayoutErrorKind,
    pub offset: Option<usize>,
    pub message: String,
}

impl LayoutError {
    pub fn at(kind: LayoutErrorKind, offset: usize, message: String) -> (e: LayoutError)
        ensures
            e.kind == kind,
            e.offset == Some(offset),
            e.message@ == message@,
    {
        LayoutError { kind, offset: Some(offset), message }
    }

    pub fn layout(kind: LayoutErrorKind, message: String) -> (e: LayoutError)
        ensures
            e.kind == kind,
            e.offset.is_none(),
            e.message@ == message@,
    {
        LayoutError { kind, offset: None, message }
    }

    /// The display text: the offset (when there is one) and the message.
    pub fn to_text(&self) -> (s: String)
        ensures
            self.offset is None ==> s@ == seq!['G', 'D', 'S', ':', ' '] + self.message@,
    {
        let mut s = String::new();
        match self.offset {
            Some(o) => {
                s.append("GDS at byte offset ");
                crate::text::push_decimal(&mut s, o as u64);
                s.append(": ");
            },
            None => {
                proof {
                    reveal_strlit("GDS: ");
                }
                s.append("GDS: ");
            },
        }
        s.append(self.message.as_str());
        s
    }
}

/// A record kept verbatim.
#[derive(Clone, Debug, PartialEq, Eq)]
pub struct GdsRawRecord {
    pub record_type: u8,
    pub data_type: u8,
    pub payload: Vec<u8>,
    pub source_offset: usize,
}

#[derive(Clone, Debug, PartialEq, Eq)]
pub struct GdsProperty {
    pub attribute: i16,
    /// Padding NUL is removed; spaces and all other ASCII bytes are kept.
    pub value: String,
}

/// STRANS flags with the MAG and ANGLE values as raw REAL8 bits.
#[derive(Clone, Copy, Debug, PartialEq, Eq, Structural)]
pub struct GdsTransform {
    pub reflected: bool,
    pub absolute_magnification: bool,
    pub absolute_angle: bool,
    pub magnification: Option<u64>,
    pub angle_degrees: Option<u64>,
    /// Bits not assigned by the GDSII transform definition.
    pub reserved_bits: u16,
}

/// The STRANS word: flags at bits 15, 2 and 1 combined with the reserved bits.
pub open spec fn strans_bits(t: GdsTransform) -> u16 {
    (if t.reflected { 0x8000u16 } else { 0u16 }) | (if t.absolute_magnification { 4u16 } else { 0u16 })
        | (if t.absolute_angle { 2u16 } else { 0u16 }) | t.reserved_bits
}

impl GdsTransform {
    pub fn identity() -> (t: GdsTransform)
        ensures
            !t.reflected && !t.absolute_magnification && !t.absolute_angle,
            t.magnification.is_none() && t.angle_degrees.is_none() && t.reserved_bits == 0,
    {
        GdsTransform {
            reflected: false,
            absolute_magnification: false,
            absolute_angle: false,
            magnification: None,
            angle_degrees: None,
            reserved_bits: 0,
        }
    }

    /// The STRANS word (see `strans_bits`).
    pub fn raw_bits(&self) -> (b: u16)
        ensures
            b == strans_bits(*self),
    {
        (if self.reflected { 0x8000u16 } else { 0u16 }) | (if self.absolute_magnification { 4u16 } else { 0u16 })
            | (if self.absolute_angle { 2u16 } else { 0u16 }) | self.reserved_bits
    }
}

#[derive(Clone, Debug, PartialEq, Eq)]
pub struct GdsElementMeta {
    pub properties: Vec<GdsProperty>,
    pub element_flags: Option<u16>,
    pub plex: Option<i32>,
    pub unhandled_records: Vec<GdsRawRecord>,
}

impl GdsElementMeta {
    pub fn new() -> (m: GdsElementMeta)
        ensures
            m.properties@.len() == 0,
            m.element_flags.is_none(),
            m.plex.is_none(),
            m.unhandled_records@.len() == 0,
    {
        GdsElementMeta { properties: Vec::new(), element_flags: None, plex: None, unhandled_records: Vec::new() }
    }
}

#[derive(Clone, Debug, PartialEq, Eq)]
pub struct GdsBoundary {
    pub layer: i16,
    pub datatype: i16,
    /// Closed-ring coordinates without the repeated closing vertex.
    pub ring: Vec<Point>,
    pub meta: GdsElementMeta,
}

#[derive(Clone, Debug, PartialEq, Eq)]
pub struct GdsPath {
    pub layer: i16,
    pub datatype: i16,
    pub centerline: Vec<Point>,
    pub width: Option<i32>,
    pub path_type: Option<i16>,
    pub begin_extension: Option<i32>,
    pub end_extension: Option<i32>,
    pub meta: GdsElementMeta,
}

#[derive(Clone, Debug, PartialEq, Eq)]
pub struct GdsBoxElement {
    pub layer: i16,
    pub box_type: i16,
    pub ring: Vec<Point>,
    pub meta: GdsElementMeta,
}

#[derive(Clone, Debug, PartialEq, Eq)]
pub struct GdsText {
    pub layer: i16,
    pub text_type: i16,
    pub origin: Point,
    pub string: String,
    pub presentation: Option<u16>,
    pub path_type: Option<i16>,
    pub width: Option<i32>,
    pub transform: GdsTransform,
    pub meta: GdsElementMeta,
}

#[derive(Clone, Debug, PartialEq, Eq)]
pub struct GdsNode {
    pub layer: i16,
    pub node_type: i16,
    pub points: Vec<Point>,
    pub meta: GdsElementMeta,
}

#[derive(Clone, Debug, PartialEq, Eq)]
pub struct GdsReference {
    pub structure: String,
    pub origin: Point,
    pub transform: GdsTransform,
    pub meta: GdsElementMeta,
}

#[derive(Clone, Debug, PartialEq, Eq)]
pub struct GdsArrayReference {
    pub structure: String,
    pub columns: u16,
    pub rows: u16,
    pub origin: Point,
    /// GDS array endpoint, not a pre-divided pitch vector.
    pub column_endpoint: Point,
    /// GDS array endpoint, not a pre-divided pitch vector.
    pub row_endpoint: Point,
    pub transform: GdsTransform,
    pub meta: GdsElementMeta,
}

/// An element kept as its records (TEXTNODE).
#[derive(Clone, Debug, PartialEq, Eq)]
pub struct GdsUnsupportedElement {
    pub start_record: GdsRawRecord,
    pub records: Vec<GdsRawRecord>,
}

#[derive(Clone, Debug, PartialEq, Eq)]
pub enum GdsElement {
    Boundary(GdsBoundary),
    Path(GdsPath),
    Box(GdsBoxElement),
    Text(GdsText),
    Node(GdsNode),
    Sref(GdsReference),
    Aref(GdsArrayReference),
    Unsupported(GdsUnsupportedElement),
}

/// The metadata an element keeps; an unsupported element keeps none.
pub open spec fn element_meta(e: GdsElement) -> Option<GdsElementMeta> {
    match e {
        GdsElement::Boundary(v) => Some(v.meta),
        GdsElement::Path(v) => Some(v.meta),
        GdsElement::Box(v) => Some(v.meta),
        GdsElement::Text(v) => Some(v.meta),
        GdsElement::Node(v) => Some(v.meta),
        GdsElement::Sref(v) => Some(v.meta),
        GdsElement::Aref(v) => Some(v.meta),
        GdsElement::Unsupported(_) => None,
    }
}

impl GdsElement {
    /// The element's metadata, `None` for an unsupported element.
    pub fn meta(&self) -> (m: Option<&GdsElementMeta>)
        ensures
            match m {
                Some(x) => element_meta(*self) == Some(*x),
                None => element_meta(*self) is None,
            },
    {
        match self {
            GdsElement::Boundary(v) => Some(&v.meta),
            GdsElement::Path(v) => Some(&v.meta),
            GdsElement::Box(v) => Some(&v.meta),
            GdsElement::Text(v) => Some(&v.meta),
            GdsElement::Node(v) => Some(&v.meta),
            GdsElement::Sref(v) => Some(&v.meta),
            GdsElement::Aref(v) => Some(&v.meta),
            GdsElement::Unsupported(_) => None,
        }
    }
}

#[derive(Clone, Debug, PartialEq, Eq)]
pub struct GdsStructure {
    pub timestamps: [i16; 12],
    pub name: String,
    pub elements: Vec<GdsElement>,
    pub unhandled_records: Vec<GdsRawRecord>,
}

/// UNITS as raw REAL8 bits: user units per database unit, then meters per
/// database unit.
#[derive(Clone, Copy, Debug, PartialEq, Eq, Structural)]
pub struct GdsUnits {
    pub user_units_per_database_unit: u64,
    pub meters_per_database_unit: u64,
}

/// Which envelope records were present on input.
#[derive(Clone, Copy, Debug, PartialEq, Eq, Structural)]
pub struct GdsEnvelope {
    pub header: bool,
    pub bgnlib: bool,
    pub libname: bool,
    pub units: bool,
    pub endlib: bool,
}

impl GdsEnvelope {
    /// Every envelope record present.
    pub fn complete() -> (e: GdsEnvelope)
        ensures
            e.header && e.bgnlib && e.libname && e.units && e.endlib,
    {
        GdsEnvelope { header: true, bgnlib: true, libname: true, units: true, endlib: true }
    }
}

#[derive(Clone, Debug, PartialEq, Eq)]
pub struct GdsLibrary {
    pub version: i16,
    pub timestamps: [i16; 12],
    pub name: String,
    pub units: GdsUnits,
    /// File order is preserved.
    pub structures: Vec<GdsStructure>,
    pub unhandled_records: Vec<GdsRawRecord>,
    pub envelope: GdsEnvelope,
}

/// Geometry records on a `(layer, datatype)` pair absent from the layer table.
#[derive(Clone, Copy, Debug, PartialEq, Eq, Structural)]
pub struct GdsUnmappedLayer {
    pub layer: i32,
    pub datatype: i32,
    pub element_count: usize,
}

#[derive(Clone, Copy, Debug, PartialEq, Eq, Structural)]
pub enum GdsGeometryPolicy {
    /// Every polygon must be simple and of non-zero area.
    Strict,
    /// Keep a closed but invalid ring so that a polygon-validity check can
    /// report it.
    PreserveInvalidForPolygonValidity,
}

pub struct GdsFlattenOptions {
    /// Maximum expanded element/instance visits across one flattened cell.
    pub expansion_limit: usize,
    /// If set, only this root cell is flattened and returned.
    pub selected_top: Option<String>,
    pub geometry_policy: GdsGeometryPolicy,
}

impl GdsFlattenOptions {
    /// Strict geometry, no selected top, and a limit of ten million visits.
    pub fn new() -> (o: GdsFlattenOptions)
        ensures
            o.expansion_limit == 10_000_000,
            o.selected_top.is_none(),
            o.geometry_policy == GdsGeometryPolicy::Strict,
    {
        GdsFlattenOptions { expansion_limit: 10_000_000, selected_top: None, geometry_policy: GdsGeometryPolicy::Strict }
    }
}

// --- records ---

/// One decoded record.
pub struct Record {
    pub ty: u8,
    pub dt: u8,
    pub payload: Vec<u8>,
    pub offset: usize,
}

/// A record as a value: type, data type, payload bytes and source offset.
pub struct RecordSpec {
    pub ty: u8,
    pub dt: u8,
    pub payload: Seq<u8>,
    pub offset: int,
}

impl Record {
    pub open spec fn view(&self) -> RecordSpec {
        RecordSpec { ty: self.ty, dt: self.dt, payload: self.payload@, offset: self.offset as int }
    }
}

pub open spec fn records_view(rs: Seq<Record>) -> Seq<RecordSpec> {
    rs.map_values(|r: Record| r.view())
}

/// Payload shape demanded by each known record type, as
/// `(data type, size, exact)`: exactly `size` bytes when `exact`, else a
/// multiple of `size`. Unknown types accept anything.
pub open spec fn shape_of(ty: u8) -> Option<(u8, nat, bool)> {
    if ty == HEADER { Some((DT_I16, 2, true)) }
    else if ty == BGNLIB || ty == BGNSTR { Some((DT_I16, 24, true)) }
    else if ty == LIBNAME || ty == STRNAME || ty == SNAME || ty == STRING || ty == PROPVALUE { Some((DT_ASCII, 2, false)) }
    else if ty == UNITS { Some((DT_REAL8, 16, true)) }
    else if ty == ENDLIB || ty == ENDSTR || ty == BOUNDARY || ty == PATH || ty == SREF || ty == AREF || ty == TEXT
        || ty == TEXTNODE || ty == NODE || ty == BOX || ty == ENDEL { Some((DT_NONE, 0, true)) }
    else if ty == LAYER || ty == DATATYPE || ty == TEXTTYPE || ty == PATHTYPE || ty == NODETYPE || ty == PROPATTR
        || ty == BOXTYPE { Some((DT_I16, 2, true)) }
    else if ty == WIDTH || ty == PLEX || ty == BGNEXTN || ty == ENDEXTN { Some((DT_I32, 4, true)) }
    else if ty == XY { Some((DT_I32, 8, false)) }
    else if ty == COLROW { Some((DT_I16, 4, true)) }
    else if ty == PRESENTATION || ty == STRANS || ty == ELFLAGS { Some((DT_BIT_ARRAY, 2, true)) }
    else if ty == MAG || ty == ANGLE { Some((DT_REAL8, 8, true)) }
    else { None }
}

/// The record's data type and payload size fit its record type.
pub open spec fn shape_ok(ty: u8, dt: u8, len: nat) -> bool {
    match shape_of(ty) {
        None => true,
        Some((d, n, exact)) => dt == d && (if exact { len == n } else { len % n == 0 }),
    }
}

pub open spec fn be16(b: Seq<u8>, i: int) -> int {
    b[i] * 256 + b[i + 1]
}

/// Kind, offset and message of a failure to decode records.
pub type DecodeFault = (LayoutErrorKind, int, Seq<char>);

/// Records decoded from position `pos` on, or the kind, offset and message of the
/// first failure: fewer than four header bytes, a length below four or odd,
/// a length overflowing the address space, a record running past the end, or
/// a payload of the wrong shape.
pub open spec fn decode_from(b: Seq<u8>, pos: int) -> Result<Seq<RecordSpec>, DecodeFault>
    decreases b.len() - pos,
{
    if pos < 0 || pos >= b.len() {
        Ok(Seq::empty())
    } else if b.len() - pos < 4 {
        Err((LayoutErrorKind::Malformed, pos, "truncated record header"@))
    } else {
        let len = be16(b, pos);
        if len < 4 || len % 2 != 0 {
            Err((LayoutErrorKind::Malformed, pos, "invalid record length; it must be even and at least four"@))
        } else if pos + len > usize::MAX {
            Err((LayoutErrorKind::ArithmeticOverflow, pos, "record length overflow"@))
        } else if pos + len > b.len() {
            Err((LayoutErrorKind::Malformed, pos, "truncated record runs past the end of the stream"@))
        } else if !shape_ok(b[pos + 2], b[pos + 3], (len - 4) as nat) {
            Err((LayoutErrorKind::Malformed, pos, "record has the wrong data type or payload size"@))
        } else {
            let r = RecordSpec { ty: b[pos + 2], dt: b[pos + 3], payload: b.subrange(pos + 4, pos + len), offset: pos };
            match decode_from(b, pos + len) {
                Ok(rest) => Ok(seq![r] + rest),
                Err(e) => Err(e),
            }
        }
    }
}

/// Bytes of one record.
pub open spec fn encode_record(ty: u8, dt: u8, payload: Seq<u8>) -> Seq<u8> {
    let len = payload.len() + 4;
    seq![(len / 256) as u8, (len % 256) as u8, ty, dt] + payload
}

/// Bytes of a record sequence.
pub open spec fn encode_records(rs: Seq<RecordSpec>) -> Seq<u8>
    decreases rs.len(),
{
    if rs.len() == 0 {
        Seq::empty()
    } else {
        encode_record(rs[0].ty, rs[0].dt, rs[0].payload) + encode_records(rs.drop_first())
    }
}

/// A record the encoder writes and the decoder accepts.
pub open spec fn encodable(r: RecordSpec) -> bool {
    &&& r.payload.len() + 4 <= 65535
    &&& r.payload.len() % 2 == 0
    &&& shape_ok(r.ty, r.dt, r.payload.len())
}

/// `rs` with offsets laid out consecutively from `start`.
pub open spec fn placed(rs: Seq<RecordSpec>, start: int) -> bool
    decreases rs.len(),
{
    rs.len() == 0 || (rs[0].offset == start && placed(rs.drop_first(), start + rs[0].payload.len() + 4))
}

proof fn lemma_decode_suffix(prefix: Seq<u8>, rs: Seq<RecordSpec>, start: int)
    requires
        start == prefix.len(),
        forall|i: int| 0 <= i < rs.len() ==> encodable(#[trigger] rs[i]),
        placed(rs, start),
        prefix.len() + encode_records(rs).len() <= usize::MAX,
    ensures
        decode_from(prefix + encode_records(rs), start) == Ok::<Seq<RecordSpec>, DecodeFault>(rs),
    decreases rs.len(),
{
    let b = prefix + encode_records(rs);
    if rs.len() == 0 {
        assert(b.len() == start);
        assert(rs =~= Seq::<RecordSpec>::empty());
    } else {
        let r = rs[0];
        let rest = rs.drop_first();
        assert(rs[0].offset == start && placed(rest, start + rs[0].payload.len() + 4));
        assert forall|i: int| 0 <= i < rest.len() implies encodable(#[trigger] rest[i]) by {
            assert(rest[i] == rs[i + 1]);
        }
        let e = encode_record(r.ty, r.dt, r.payload);
        assert(encode_records(rs) == e + encode_records(rest));
        let len = r.payload.len() + 4;
        assert(b[start] == (len / 256) as u8);
        assert(b[start + 1] == (len % 256) as u8);
        assert(be16(b, start) == len);
        assert(b[start + 2] == r.ty);
        assert(b[start + 3] == r.dt);
        assert(b.subrange(start + 4, start + len) =~= r.payload);
        let p2 = prefix + e;
        assert(b =~= p2 + encode_records(rest));
        lemma_decode_suffix(p2, rest, start + len);
        assert(r == RecordSpec { ty: b[start + 2], dt: b[start + 3], payload: b.subrange(start + 4, start + len), offset: start });
        assert(seq![r] + rest =~= rs);
        assert(shape_ok(b[start + 2], b[start + 3], (len - 4) as nat));
        assert(start + len <= b.len());
        assert(decode_from(b, start + len) == Ok::<Seq<RecordSpec>, DecodeFault>(rest));
    }
}

/// Decoding what the encoder wrote gives back the records, for records that
/// fit in a record (at most 65531 payload bytes, an even count, and the shape
/// of their type) with offsets laid out from zero.
pub proof fn lemma_record_round_trip(rs: Seq<RecordSpec>)
    requires
        forall|i: int| 0 <= i < rs.len() ==> encodable(#[trigger] rs[i]),
        placed(rs, 0),
        encode_records(rs).len() <= usize::MAX,
    ensures
        decode_from(encode_records(rs), 0) == Ok::<Seq<RecordSpec>, DecodeFault>(rs),
{
    lemma_decode_suffix(Seq::empty(), rs, 0);
    assert(Seq::<u8>::empty() + encode_records(rs) =~= encode_records(rs));
}

fn shape_exec(ty: u8, dt: u8, len: usize) -> (ok: bool)
    ensures
        ok == shape_ok(ty, dt, len as nat),
{
    if ty == HEADER { dt == DT_I16 && len == 2 }
    else if ty == BGNLIB || ty == BGNSTR { dt == DT_I16 && len == 24 }
    else if ty == LIBNAME || ty == STRNAME || ty == SNAME || ty == STRING || ty == PROPVALUE { dt == DT_ASCII && len % 2 == 0 }
    else if ty == UNITS { dt == DT_REAL8 && len == 16 }
    else if ty == ENDLIB || ty == ENDSTR || ty == BOUNDARY || ty == PATH || ty == SREF || ty == AREF || ty == TEXT
        || ty == TEXTNODE || ty == NODE || ty == BOX || ty == ENDEL { dt == DT_NONE && len == 0 }
    else if ty == LAYER || ty == DATATYPE || ty == TEXTTYPE || ty == PATHTYPE || ty == NODETYPE || ty == PROPATTR
        || ty == BOXTYPE { dt == DT_I16 && len == 2 }
    else if ty == WIDTH || ty == PLEX || ty == BGNEXTN || ty == ENDEXTN { dt == DT_I32 && len == 4 }
    else if ty == XY { dt == DT_I32 && len % 8 == 0 }
    else if ty == COLROW { dt == DT_I16 && len == 4 }
    else if ty == PRESENTATION || ty == STRANS || ty == ELFLAGS { dt == DT_BIT_ARRAY && len == 2 }
    else if ty == MAG || ty == ANGLE { dt == DT_REAL8 && len == 8 }
    else { true }
}

fn slice_vec(bytes: &[u8], from: usize, to: usize) -> (v: Vec<u8>)
    requires
        from <= to <= bytes@.len(),
    ensures
        v@ == bytes@.subrange(from as int, to as int),
{
    let mut v: Vec<u8> = Vec::new();
    let mut i = from;
    while i < to
        invariant
            from <= i <= to <= bytes@.len(),
            v@ == bytes@.subrange(from as int, i as int),
        decreases to - i,
    {
        v.push(bytes[i]);
        assert(v@ =~= bytes@.subrange(from as int, i as int + 1));
        i = i + 1;
    }
    v
}

fn message(text: &str) -> (s: String)
    ensures
        s@ == text@,
{
    String::from_str(text)
}

/// Splits a stream into records, checking each record's length and shape.
pub fn decode_records(bytes: &[u8]) -> (r: Result<Vec<Record>, LayoutError>)
    ensures
        match decode_from(bytes@, 0) {
            Ok(rs) => r matches Ok(v) && records_view(v@) == rs,
            Err((kind, off, m)) => r matches Err(e) && e.kind == kind && e.offset == Some(off as usize) && e.message@ == m,
        },
{
    let mut records: Vec<Record> = Vec::new();
    let mut pos: usize = 0;
    while pos < bytes.len()
        invariant
            pos <= bytes@.len(),
            match decode_from(bytes@, 0) {
                Ok(all) => decode_from(bytes@, pos as int) matches Ok(rest) && all == records_view(records@) + rest,
                Err(e) => decode_from(bytes@, pos as int) == Err::<Seq<RecordSpec>, DecodeFault>(e),
            },
        decreases bytes@.len() - pos,
    {
        if bytes.len() - pos < 4 {
            return Err(LayoutError::at(LayoutErrorKind::Malformed, pos, message("truncated record header")));
        }
        let len: usize = (bytes[pos] as usize) * 256 + (bytes[pos + 1] as usize);
        if len < 4 || len % 2 != 0 {
            return Err(LayoutError::at(LayoutErrorKind::Malformed, pos, message("invalid record length; it must be even and at least four")));
        }
        let end = match pos.checked_add(len) {
            Some(e) => e,
            None => {
                return Err(LayoutError::at(LayoutErrorKind::ArithmeticOverflow, pos, message("record length overflow")));
            },
        };
        if end > bytes.len() {
            return Err(LayoutError::at(LayoutErrorKind::Malformed, pos, message("truncated record runs past the end of the stream")));
        }
        let ty = bytes[pos + 2];
        let dt = bytes[pos + 3];
        if !shape_exec(ty, dt, len - 4) {
            return Err(LayoutError::at(LayoutErrorKind::Malformed, pos, message("record has the wrong data type or payload size")));
        }
        let payload = slice_vec(bytes, pos + 4, end);
        let ghost before = records@;
        records.push(Record { ty, dt, payload, offset: pos });
        proof {
            assert(records_view(records@) =~= records_view(before).push(records@.last().view()));
            match decode_from(bytes@, 0) {
                Ok(all) => {
                    let rest = decode_from(bytes@, end as int)->Ok_0;
                    assert(decode_from(bytes@, pos as int) == Ok::<Seq<RecordSpec>, DecodeFault>(seq![records@.last().view()] + rest));
                    assert(all =~= records_view(records@) + rest);
                },
                Err(e) => {},
            }
        }
        pos = end;
    }
    proof {
        match decode_from(bytes@, 0) {
            Ok(all) => {
                assert(all =~= records_view(records@));
            },
            Err(e) => {},
        }
    }
    Ok(records)
}

// --- payload values ---

/// Signed 16-bit big-endian value at `i`.
pub open spec fn be_i16(b: Seq<u8>, i: int) -> int {
    let u = b[i] * 256 + b[i + 1];
    if u >= 0x8000 { u - 0x10000 } else { u }
}

/// Unsigned 32-bit big-endian value at `i`.
pub open spec fn be_u32(b: Seq<u8>, i: int) -> int {
    b[i] * 0x1000000 + b[i + 1] * 0x10000 + b[i + 2] * 0x100 + b[i + 3]
}

/// Signed 32-bit big-endian value at `i`.
pub open spec fn be_i32(b: Seq<u8>, i: int) -> int {
    let u = be_u32(b, i);
    if u >= 0x8000_0000 { u - 0x1_0000_0000 } else { u }
}

/// Unsigned 64-bit big-endian value at `i`.
pub open spec fn be_u64(b: Seq<u8>, i: int) -> int {
    be_u32(b, i) * 0x1_0000_0000 + be_u32(b, i + 4)
}

pub fn i16_at(b: &Vec<u8>, i: usize) -> (v: i16)
    requires
        i + 2 <= b@.len(),
    ensures
        v == be_i16(b@, i as int),
{
    let n = b.len();
    assert(n == b@.len());
    let u: i32 = (b[i] as i32) * 256 + (b[i + 1] as i32);
    if u >= 0x8000 { (u - 0x10000) as i16 } else { u as i16 }
}

pub fn u16_at(b: &Vec<u8>, i: usize) -> (v: u16)
    requires
        i + 2 <= b@.len(),
    ensures
        v == be16(b@, i as int),
{
    let n = b.len();
    assert(n == b@.len());
    (b[i] as u16) * 256 + (b[i + 1] as u16)
}

pub fn i32_at(b: &Vec<u8>, i: usize) -> (v: i32)
    requires
        i + 4 <= b@.len(),
    ensures
        v == be_i32(b@, i as int),
{
    let n = b.len();
    assert(n == b@.len());
    let u: i64 = (b[i] as i64) * 0x1000000 + (b[i + 1] as i64) * 0x10000 + (b[i + 2] as i64) * 0x100 + (b[i + 3] as i64);
    if u >= 0x8000_0000 { (u - 0x1_0000_0000) as i32 } else { u as i32 }
}

pub fn u64_at(b: &Vec<u8>, i: usize) -> (v: u64)
    requires
        i + 8 <= b@.len(),
    ensures
        v == be_u64(b@, i as int),
{
    let n = b.len();
    assert(n == b@.len());
    let hi: u64 = (b[i] as u64) * 0x1000000 + (b[i + 1] as u64) * 0x10000 + (b[i + 2] as u64) * 0x100 + (b[i + 3] as u64);
    let lo: u64 = (b[i + 4] as u64) * 0x1000000 + (b[i + 5] as u64) * 0x10000 + (b[i + 6] as u64) * 0x100 + (b[i + 7] as u64);
    assert(hi * 0x1_0000_0000 + lo <= u64::MAX) by (nonlinear_arith)
        requires
            hi <= 0xffff_ffff,
            lo <= 0xffff_ffff,
    ;
    hi * 0x1_0000_0000 + lo
}

/// The twelve timestamp words of a BGNLIB or BGNSTR payload.
pub open spec fn timestamps_of(p: Seq<u8>) -> Seq<i16> {
    Seq::new(12, |k: int| be_i16(p, 2 * k) as i16)
}

pub fn timestamps(p: &Vec<u8>) -> (t: [i16; 12])
    requires
        p@.len() == 24,
    ensures
        t@ == timestamps_of(p@),
{
    let mut out: [i16; 12] = [0; 12];
    let mut k: usize = 0;
    while k < 12
        invariant
            k <= 12,
            p@.len() == 24,
            forall|j: int| 0 <= j < k ==> out@[j] == be_i16(p@, 2 * j),
        decreases 12 - k,
    {
        let v = i16_at(p, 2 * k);
        out.set(k, v);
        k = k + 1;
    }
    assert(out@ =~= timestamps_of(p@));
    out
}

/// The points of an XY payload, eight bytes each.
pub open spec fn points_of(p: Seq<u8>) -> Seq<Point> {
    Seq::new(p.len() / 8, |k: int| Point { x: be_i32(p, 8 * k) as i32, y: be_i32(p, 8 * k + 4) as i32 })
}

/// The signed 32-bit value of the big-endian bytes `b0 b1 b2 b3`.
pub open spec fn word_value(b0: u8, b1: u8, b2: u8, b3: u8) -> int {
    let u = b0 as int * 16777216 + b1 as int * 65536 + b2 as int * 256 + b3 as int;
    if u >= 2147483648 { u - 4294967296 } else { u }
}

/// An XY payload holds its points as eight-byte entries: the `k`-th point
/// has as x the big-endian signed word at byte `8k` and as y the one at byte
/// `8k + 4`.
pub proof fn lemma_xy_points(p: Seq<u8>, k: int)
    requires
        0 <= k < p.len() / 8,
    ensures
        points_of(p).len() == p.len() / 8,
        8 * k + 8 <= p.len(),
        points_of(p)[k].x as int == word_value(p[8 * k], p[8 * k + 1], p[8 * k + 2], p[8 * k + 3]),
        points_of(p)[k].y as int == word_value(p[8 * k + 4], p[8 * k + 5], p[8 * k + 6], p[8 * k + 7]),
{
    assert(8 * k + 8 <= p.len()) by (nonlinear_arith)
        requires
            0 <= k < p.len() / 8,
    ;
    let w0 = be_u32(p, 8 * k);
    let w1 = be_u32(p, 8 * k + 4);
    assert(0 <= w0 < 0x1_0000_0000) by {
        assert(p[8 * k] < 256 && p[8 * k + 1] < 256 && p[8 * k + 2] < 256 && p[8 * k + 3] < 256);
    }
    assert(0 <= w1 < 0x1_0000_0000) by {
        assert(p[8 * k + 4] < 256 && p[8 * k + 5] < 256 && p[8 * k + 6] < 256 && p[8 * k + 7] < 256);
    }
}

pub fn points(p: &Vec<u8>) -> (pts: Vec<Point>)
    requires
        p@.len() % 8 == 0,
    ensures
        pts@ == points_of(p@),
{
    let total = p.len();
    let n = total / 8;
    let mut out: Vec<Point> = Vec::new();
    let mut k: usize = 0;
    while k < n
        invariant
            total == p@.len(),
            n == p@.len() / 8,
            p@.len() % 8 == 0,
            k <= n,
            out@ == points_of(p@).take(k as int),
        decreases n - k,
    {
        assert(8 * k + 8 <= p@.len()) by (nonlinear_arith)
            requires
                k < n,
                n == p@.len() / 8,
                p@.len() % 8 == 0,
        ;
        let x = i32_at(p, 8 * k);
        let y = i32_at(p, 8 * k + 4);
        out.push(Point { x, y });
        assert(out@ =~= points_of(p@).take(k as int + 1));
        k = k + 1;
    }
    assert(points_of(p@).take(n as int) =~= points_of(p@));
    out
}

/// ASCII text of a payload: one trailing NUL pad removed.
pub open spec fn ascii_bytes(p: Seq<u8>) -> Seq<u8> {
    if p.len() > 0 && p.last() == 0 { p.drop_last() } else { p }
}

pub open spec fn chars_of(b: Seq<u8>) -> Seq<char> {
    b.map_values(|c: u8| c as char)
}

pub open spec fn all_ascii(b: Seq<u8>) -> bool {
    forall|i: int| 0 <= i < b.len() ==> #[trigger] b[i] < 128
}

/// `String::from_utf8` on ASCII bytes; each byte below 0x80 decodes to the
/// char of that code point.
#[verifier::external_body]
fn string_from_ascii(bytes: Vec<u8>) -> (s: String)
    requires
        all_ascii(bytes@),
    ensures
        s@ == chars_of(bytes@),
{
    String::from_utf8(bytes).unwrap()
}

/// Text of an ASCII record, or `None` when a byte is not ASCII.
pub fn ascii(p: &Vec<u8>) -> (s: Option<String>)
    ensures
        all_ascii(ascii_bytes(p@)) ==> (s matches Some(t) && t@ == chars_of(ascii_bytes(p@))),
        !all_ascii(ascii_bytes(p@)) ==> s is None,
{
    let mut end = p.len();
    if end > 0 && p[end - 1] == 0 {
        end = end - 1;
    }
    let mut bytes: Vec<u8> = Vec::new();
    let mut i: usize = 0;
    while i < end
        invariant
            end <= p@.len(),
            ascii_bytes(p@) == p@.take(end as int),
            i <= end,
            bytes@ == p@.take(i as int),
            all_ascii(bytes@),
        decreases end - i,
    {
        if p[i] >= 128 {
            assert(ascii_bytes(p@)[i as int] >= 128);
            return None;
        }
        bytes.push(p[i]);
        assert(bytes@ =~= p@.take(i as int + 1));
        i = i + 1;
    }
    Some(string_from_ascii(bytes))
}

// --- writing records ---

/// Appends one record; fails when the payload cannot fit a record or its
/// length is odd.
pub fn put_record(out: &mut Vec<u8>, ty: u8, dt: u8, payload: &[u8]) -> (r: Result<(), LayoutError>)
    ensures
        payload@.len() + 4 <= 65535 && payload@.len() % 2 == 0 ==> r is Ok && final(out)@ == old(out)@ + encode_record(ty, dt, payload@),
        payload@.len() + 4 > 65535 ==> (r matches Err(e) && e.kind == LayoutErrorKind::CapacityExceeded && final(out)@ == old(out)@),
        payload@.len() + 4 <= 65535 && payload@.len() % 2 != 0 ==> (r matches Err(e) && e.kind == LayoutErrorKind::Malformed && final(out)@ == old(out)@),
{
    if payload.len() > 65531 {
        return Err(LayoutError::layout(LayoutErrorKind::CapacityExceeded, message("record exceeds 65535 bytes")));
    }
    let len: usize = payload.len() + 4;
    if len % 2 != 0 {
        return Err(LayoutError::layout(LayoutErrorKind::Malformed, message("record has odd encoded length")));
    }
    let ghost o = out@;
    out.push((len / 256) as u8);
    out.push((len % 256) as u8);
    out.push(ty);
    out.push(dt);
    let mut i: usize = 0;
    while i < payload.len()
        invariant
            i <= payload@.len(),
            len == payload@.len() + 4,
            out@ == o + seq![(len / 256) as u8, (len % 256) as u8, ty, dt] + payload@.take(i as int),
        decreases payload@.len() - i,
    {
        out.push(payload[i]);
        assert(out@ =~= o + seq![(len / 256) as u8, (len % 256) as u8, ty, dt] + payload@.take(i as int + 1));
        i = i + 1;
    }
    assert(payload@.take(payload@.len() as int) =~= payload@);
    assert(out@ =~= o + encode_record(ty, dt, payload@));
    Ok(())
}

} // verus!
