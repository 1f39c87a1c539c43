//! GDS structures and libraries: the record grammar above elements.
//!
//! A library is the envelope (HEADER, BGNLIB, LIBNAME, UNITS; all required in
//! strict mode), then structures (BGNSTR, STRNAME, elements and other records,
//! ENDSTR) and other records, then ENDLIB (required in strict mode) and
//! nothing after it.
use vstd::prelude::*;
use super::element::{
    ascii_of, ascii_record, element_attribute, element_spec, element_start, fault_matches, is_element_attribute,
    is_element_start, parse_element, raw_of, raws_view, shaped, ElementV, Fault, FieldsV, apply_record,
    collect_fields, collect_raw, build_spec, empty_fields,
};
use super::gds::{
    be_i16, be_u64, decode_from, DecodeFault, decode_records, i16_at, records_view, shape_ok, timestamps, timestamps_of, u64_at,
    GdsElement, GdsEnvelope, GdsLibrary, GdsRawRecord, GdsReadMode, GdsStructure, GdsUnits, LayoutError,
    LayoutErrorKind, Record, RecordSpec, BGNLIB, BGNSTR, ENDEL, ENDLIB, ENDSTR, HEADER, LIBNAME, STRNAME, TEXTNODE, UNITS,
};
use super::element::real8_positive;

verus! {

#[verifier::ext_equal]
pub struct StructureV {
    pub timestamps: Seq<i16>,
    pub name: Seq<char>,
    pub elements: Seq<ElementV>,
    pub unhandled: Seq<RecordSpec>,
}

#[verifier::ext_equal]
pub struct LibraryV {
    pub version: i16,
    pub timestamps: Seq<i16>,
    pub name: Seq<char>,
    pub units: GdsUnits,
    pub structures: Seq<StructureV>,
    pub unhandled: Seq<RecordSpec>,
    pub envelope: GdsEnvelope,
}

pub open spec fn elements_view(v: Seq<GdsElement>) -> Seq<ElementV> {
    v.map_values(|e: GdsElement| e.view())
}

impl GdsStructure {
    pub open spec fn view(&self) -> StructureV {
        StructureV {
            timestamps: self.timestamps@,
            name: self.name@,
            elements: elements_view(self.elements@),
            unhandled: raws_view(self.unhandled_records@),
        }
    }
}

pub open spec fn structures_view(v: Seq<GdsStructure>) -> Seq<StructureV> {
    v.map_values(|s: GdsStructure| s.view())
}

impl GdsLibrary {
    pub open spec fn view(&self) -> LibraryV {
        LibraryV {
            version: self.version,
            timestamps: self.timestamps@,
            name: self.name@,
            units: self.units,
            structures: structures_view(self.structures@),
            unhandled: raws_view(self.unhandled_records@),
            envelope: self.envelope,
        }
    }
}

proof fn lemma_collect_fields_next(rs: Seq<RecordSpec>, i: int, f: FieldsV, start: int)
    ensures
        collect_fields(rs, i, f, start) matches Ok((_, next)) ==> i < next <= rs.len(),
    decreases rs.len() - i,
{
    if 0 <= i < rs.len() && rs[i].ty != ENDEL {
        match apply_record(f, rs[i]) {
            Ok(g) => lemma_collect_fields_next(rs, i + 1, g, start),
            Err(_) => {},
        }
    }
}

proof fn lemma_collect_raw_next(rs: Seq<RecordSpec>, i: int, acc: Seq<RecordSpec>, start: int)
    ensures
        collect_raw(rs, i, acc, start) matches Ok((_, next)) ==> i < next <= rs.len(),
    decreases rs.len() - i,
{
    if 0 <= i < rs.len() && rs[i].ty != ENDEL {
        lemma_collect_raw_next(rs, i + 1, acc.push(rs[i]), start);
    }
}

proof fn lemma_element_next(rs: Seq<RecordSpec>, i: int, strict: bool)
    requires
        0 <= i < rs.len(),
    ensures
        element_spec(rs, i, strict) matches Ok((_, next)) ==> i < next <= rs.len(),
{
    if rs[i].ty == TEXTNODE {
        lemma_collect_raw_next(rs, i + 1, Seq::empty(), rs[i].offset);
    } else {
        lemma_collect_fields_next(rs, i + 1, empty_fields(), rs[i].offset);
    }
}

/// Elements and other records of a structure body from `i` up to its
/// ENDSTR, and the index after it. ENDLIB or the end of the records first is
/// out of order; so is, in strict mode, an element attribute outside an
/// element.
pub open spec fn structure_items(rs: Seq<RecordSpec>, i: int, strict: bool, elems: Seq<ElementV>, unh: Seq<RecordSpec>)
    -> Result<(Seq<ElementV>, Seq<RecordSpec>, int), Fault>
    decreases rs.len() - i,
{
    if i < 0 || i >= rs.len() {
        Err((LayoutErrorKind::InvalidOrder, None, Some("structure is missing ENDSTR"@)))
    } else {
        let r = rs[i];
        if r.ty == ENDSTR {
            Ok((elems, unh, i + 1))
        } else if r.ty == ENDLIB {
            Err((LayoutErrorKind::InvalidOrder, Some(r.offset), Some("ENDLIB before ENDSTR"@)))
        } else if is_element_start(r.ty) {
            match element_spec(rs, i, strict) {
                Err(e) => Err(e),
                Ok((el, next)) => if i < next <= rs.len() {
                    structure_items(rs, next, strict, elems.push(el), unh)
                } else {
                    Err((LayoutErrorKind::InvalidOrder, None, None))
                },
            }
        } else if strict && is_element_attribute(r.ty) {
            Err((LayoutErrorKind::InvalidOrder, Some(r.offset), Some("element attribute outside an element"@)))
        } else {
            structure_items(rs, i + 1, strict, elems, unh.push(r))
        }
    }
}

/// The structure starting at the BGNSTR record `i`, and the index after its
/// ENDSTR: a STRNAME must follow (out of order otherwise) holding a
/// non-empty name.
pub open spec fn structure_spec(rs: Seq<RecordSpec>, i: int, strict: bool) -> Result<(StructureV, int), Fault> {
    let ts = timestamps_of(rs[i].payload);
    if i + 1 >= rs.len() {
        Err((LayoutErrorKind::InvalidOrder, None, Some("missing STRNAME"@)))
    } else if rs[i + 1].ty != STRNAME {
        Err((LayoutErrorKind::InvalidOrder, Some(rs[i + 1].offset), Some("expected STRNAME"@)))
    } else {
        match ascii_of(rs[i + 1]) {
            Err(e) => Err(e),
            Ok(name) => if name.len() == 0 {
                Err((LayoutErrorKind::Malformed, Some(rs[i + 1].offset), Some("empty STRNAME"@)))
            } else {
                match structure_items(rs, i + 2, strict, Seq::empty(), Seq::empty()) {
                    Err(e) => Err(e),
                    Ok((elements, unhandled, next)) => Ok((StructureV { timestamps: ts, name, elements, unhandled }, next)),
                }
            },
        }
    }
}

proof fn lemma_structure_items_next(rs: Seq<RecordSpec>, i: int, strict: bool, elems: Seq<ElementV>, unh: Seq<RecordSpec>)
    ensures
        structure_items(rs, i, strict, elems, unh) matches Ok((_, _, next)) ==> i < next <= rs.len(),
    decreases rs.len() - i,
{
    if 0 <= i < rs.len() {
        let r = rs[i];
        if r.ty == ENDSTR || r.ty == ENDLIB {
        } else if is_element_start(r.ty) {
            match element_spec(rs, i, strict) {
                Err(_) => {},
                Ok((el, next)) => if i < next <= rs.len() {
                    lemma_structure_items_next(rs, next, strict, elems.push(el), unh);
                },
            }
        } else if !(strict && is_element_attribute(r.ty)) {
            lemma_structure_items_next(rs, i + 1, strict, elems, unh.push(r));
        }
    }
}

pub open spec fn names_of_structures(s: Seq<StructureV>) -> Seq<Seq<char>> {
    s.map_values(|x: StructureV| x.name)
}

/// Structures and other records from `i` up to ENDLIB: the structures, the
/// other records, whether ENDLIB was seen, and the index after it (or the
/// end). A structure name used twice is a duplicate.
pub open spec fn library_items(rs: Seq<RecordSpec>, i: int, strict: bool, sts: Seq<StructureV>, unh: Seq<RecordSpec>)
    -> Result<(Seq<StructureV>, Seq<RecordSpec>, bool, int), Fault>
    decreases rs.len() - i,
{
    if i < 0 || i >= rs.len() {
        Ok((sts, unh, false, i))
    } else {
        let r = rs[i];
        if r.ty == BGNSTR {
            match structure_spec(rs, i, strict) {
                Err(e) => Err(e),
                Ok((st, next)) => if names_of_structures(sts).contains(st.name) {
                    Err((LayoutErrorKind::Duplicate, None, Some("duplicate structure name `"@ + st.name + "`"@)))
                } else if i < next <= rs.len() {
                    library_items(rs, next, strict, sts.push(st), unh)
                } else {
                    Err((LayoutErrorKind::InvalidOrder, None, None))
                },
            }
        } else if r.ty == ENDLIB {
            Ok((sts, unh, true, i + 1))
        } else {
            library_items(rs, i + 1, strict, sts, unh.push(r))
        }
    }
}

/// UNITS as written by this reader when compatibility input omits it:
/// 1e-3 user units and 1e-9 meters per database unit.
pub open spec fn default_units() -> GdsUnits {
    GdsUnits { user_units_per_database_unit: 0x3e41_8937_4bc6_a7f0, meters_per_database_unit: 0x3944_b82f_a09b_5a54 }
}

/// The envelope records at the head of a library.
#[verifier::ext_equal]
pub struct EnvelopeV {
    pub version: i16,
    pub timestamps: Seq<i16>,
    pub name: Seq<char>,
    pub units: GdsUnits,
    pub header: bool,
    pub bgnlib: bool,
    pub libname: bool,
    pub has_units: bool,
}

/// The envelope and the index of the first record after it. Envelope
/// records missing in strict mode are out of order (with no offset); in
/// compatibility mode they default to version 600, zero timestamps, an
/// empty name and `default_units`. UNITS values must be positive (else
/// malformed).
pub open spec fn envelope_spec(rs: Seq<RecordSpec>, strict: bool) -> Result<(EnvelopeV, int), Fault> {
    let had_header = rs.len() > 0 && rs[0].ty == HEADER;
    let i1: int = if had_header { 1 } else { 0 };
    let had_bgnlib = i1 < rs.len() && rs[i1].ty == BGNLIB;
    let i2: int = if had_bgnlib { i1 + 1 } else { i1 };
    let had_libname = i2 < rs.len() && rs[i2].ty == LIBNAME;
    let i3: int = if had_libname { i2 + 1 } else { i2 };
    let had_units = i3 < rs.len() && rs[i3].ty == UNITS;
    let i4: int = if had_units { i3 + 1 } else { i3 };
    if strict && !had_header {
        Err((LayoutErrorKind::InvalidOrder, None, Some("strict input is missing HEADER"@)))
    } else if strict && !had_bgnlib {
        Err((LayoutErrorKind::InvalidOrder, None, Some("strict input is missing BGNLIB"@)))
    } else if had_libname && ascii_of(rs[i2]) is Err {
        Err(ascii_of(rs[i2])->Err_0)
    } else if strict && !had_libname {
        Err((LayoutErrorKind::InvalidOrder, None, Some("strict input is missing LIBNAME"@)))
    } else if had_units && !(real8_positive(be_u64(rs[i3].payload, 0)) && real8_positive(be_u64(rs[i3].payload, 8))) {
        Err((LayoutErrorKind::Malformed, Some(rs[i3].offset), Some("UNITS values must be finite and positive"@)))
    } else if strict && !had_units {
        Err((LayoutErrorKind::InvalidOrder, None, Some("strict input is missing UNITS"@)))
    } else {
        Ok((EnvelopeV {
            version: if had_header { be_i16(rs[0].payload, 0) as i16 } else { 600 },
            timestamps: if had_bgnlib { timestamps_of(rs[i1].payload) } else { Seq::new(12, |k: int| 0i16) },
            name: if had_libname { ascii_of(rs[i2])->Ok_0 } else { Seq::empty() },
            units: if had_units {
                GdsUnits {
                    user_units_per_database_unit: be_u64(rs[i3].payload, 0) as u64,
                    meters_per_database_unit: be_u64(rs[i3].payload, 8) as u64,
                }
            } else {
                default_units()
            },
            header: had_header,
            bgnlib: had_bgnlib,
            libname: had_libname,
            has_units: had_units,
        }, i4))
    }
}

/// The library the records make: the envelope, then the structures (see
/// `library_items`). Strict input must end with ENDLIB and hold a structure
/// (else malformed); no record may follow ENDLIB.
pub open spec fn library_spec(rs: Seq<RecordSpec>, strict: bool) -> Result<LibraryV, Fault> {
    match envelope_spec(rs, strict) {
        Err(e) => Err(e),
        Ok((env, i4)) => match library_items(rs, i4, strict, Seq::empty(), Seq::empty()) {
            Err(e) => Err(e),
            Ok((sts, unh, saw_endlib, next)) => if strict && !saw_endlib {
                Err((LayoutErrorKind::InvalidOrder, None, Some("strict input is missing ENDLIB"@)))
            } else if 0 <= next < rs.len() {
                Err((LayoutErrorKind::InvalidOrder, Some(rs[next].offset), Some("data follows ENDLIB"@)))
            } else if strict && sts.len() == 0 {
                Err((LayoutErrorKind::Malformed, None, Some("library has no structures"@)))
            } else {
                Ok(LibraryV {
                    version: env.version,
                    timestamps: env.timestamps,
                    name: env.name,
                    units: env.units,
                    structures: sts,
                    unhandled: unh,
                    envelope: GdsEnvelope {
                        header: env.header,
                        bgnlib: env.bgnlib,
                        libname: env.libname,
                        units: env.has_units,
                        endlib: saw_endlib,
                    },
                })
            },
        },
    }
}

/// What reading a stream gives: the record faults of `decode_from` (at
/// their offsets), else `library_spec` of the records.
pub open spec fn read_spec(bytes: Seq<u8>, strict: bool) -> Result<LibraryV, Fault> {
    match decode_from(bytes, 0) {
        Err((kind, off, m)) => Err((kind, Some(off), Some(m))),
        Ok(rs) => library_spec(rs, strict),
    }
}


fn fault(kind: LayoutErrorKind, offset: usize, text: &str) -> (e: LayoutError)
    ensures
        e.kind == kind,
        e.offset == Some(offset),
        fault_matches(e, (kind, Some(offset as int), None)),
        fault_matches(e, (kind, Some(offset as int), Some(text@))),
{
    let e = LayoutError::at(kind, offset, String::from_str(text));
    proof {
        reveal(fault_matches);
    }
    e
}

fn fault_here(kind: LayoutErrorKind, text: &str) -> (e: LayoutError)
    ensures
        e.kind == kind,
        e.offset.is_none(),
        fault_matches(e, (kind, None, None)),
        fault_matches(e, (kind, None, Some(text@))),
{
    let e = LayoutError::layout(kind, String::from_str(text));
    proof {
        reveal(fault_matches);
    }
    e
}

/// The structure at the BGNSTR record `i` (see `structure_spec`).
fn parse_structure(records: &Vec<Record>, i: usize, strict: bool) -> (res: Result<(GdsStructure, usize), LayoutError>)
    requires
        i < records@.len(),
        records@[i as int].ty == BGNSTR,
        shaped(records@),
    ensures
        match structure_spec(records_view(records@), i as int, strict) {
            Ok((st, next)) => res matches Ok((x, n)) && x.view() == st && n == next,
            Err(e) => res matches Err(x) && fault_matches(x, e),
        },
{
    let ghost rs = records_view(records@);
    let n = records.len();
    assert(rs[i as int] == records@[i as int].view());
    assert(shape_ok(records@[i as int].ty, records@[i as int].dt, records@[i as int].payload@.len()));
    let ts = timestamps(&records[i].payload);
    if i + 1 >= n {
        return Err(fault_here(LayoutErrorKind::InvalidOrder, "missing STRNAME"));
    }
    let name_record = &records[i + 1];
    assert(rs[i as int + 1] == name_record.view());
    if name_record.ty != STRNAME {
        return Err(fault(LayoutErrorKind::InvalidOrder, name_record.offset, "expected STRNAME"));
    }
    let name = match ascii_record(name_record) {
        Ok(t) => t,
        Err(e) => {
            return Err(e);
        },
    };
    let plen = name_record.payload.len();
    proof {
        let ab = super::gds::ascii_bytes(name_record.payload@);
        assert(super::gds::chars_of(ab).len() == ab.len());
        assert(name@.len() == ab.len());
    }
    if plen == 0 || (plen == 1 && name_record.payload[0] == 0) {
        return Err(fault(LayoutErrorKind::Malformed, name_record.offset, "empty STRNAME"));
    }
    let mut elements: Vec<GdsElement> = Vec::new();
    let mut unhandled: Vec<GdsRawRecord> = Vec::new();
    let mut j = i + 2;
    assert(elements_view(elements@) =~= Seq::<ElementV>::empty());
    assert(raws_view(unhandled@) =~= Seq::<RecordSpec>::empty());
    while j < n
        invariant
            n == records@.len(),
            shaped(records@),
            rs == records_view(records@),
            structure_items(rs, i + 2, strict, Seq::empty(), Seq::empty())
                == structure_items(rs, j as int, strict, elements_view(elements@), raws_view(unhandled@)),
            i + 1 < n,
            rs[i as int + 1].ty == STRNAME,
            ascii_of(rs[i as int + 1]) == Ok::<Seq<char>, Fault>(name@),
            name@.len() != 0,
            ts@ == timestamps_of(rs[i as int].payload),
        decreases n - j,
    {
        let r = &records[j];
        assert(rs[j as int] == r.view());
        if r.ty == ENDSTR {
            proof {
                assert(structure_items(rs, j as int, strict, elements_view(elements@), raws_view(unhandled@))
                    == Ok::<(Seq<ElementV>, Seq<RecordSpec>, int), Fault>((elements_view(elements@), raws_view(unhandled@), j as int + 1)));
                assert(ascii_of(rs[i as int + 1]) == Ok::<Seq<char>, Fault>(name@));
                assert(name@.len() != 0);
            }
            let st = GdsStructure { timestamps: ts, name, elements, unhandled_records: unhandled };
            assert(st.view() == StructureV { timestamps: timestamps_of(rs[i as int].payload), name: st.name@, elements: elements_view(st.elements@), unhandled: raws_view(st.unhandled_records@) });
            return Ok((st, j + 1));
        }
        if r.ty == ENDLIB {
            return Err(fault(LayoutErrorKind::InvalidOrder, r.offset, "ENDLIB before ENDSTR"));
        }
        if element_start(r.ty) {
            proof {
                lemma_element_next(rs, j as int, strict);
            }
            match parse_element(records, j, strict) {
                Ok((el, next)) => {
                    let ghost ev = elements@;
                    elements.push(el);
                    assert(elements_view(elements@) =~= elements_view(ev).push(elements@.last().view()));
                    j = next;
                },
                Err(e) => {
                    return Err(e);
                },
            }
        } else if strict && element_attribute(r.ty) {
            return Err(fault(LayoutErrorKind::InvalidOrder, r.offset, "element attribute outside an element"));
        } else {
            let ghost uv = unhandled@;
            unhandled.push(raw_of(r));
            assert(raws_view(unhandled@) =~= raws_view(uv).push(r.view()));
            j = j + 1;
        }
    }
    Err(fault_here(LayoutErrorKind::InvalidOrder, "structure is missing ENDSTR"))
}


fn name_taken(sts: &Vec<GdsStructure>, name: &String) -> (b: bool)
    ensures
        b == names_of_structures(structures_view(sts@)).contains(name@),
{
    let ghost names = names_of_structures(structures_view(sts@));
    let mut k: usize = 0;
    while k < sts.len()
        invariant
            k <= sts@.len(),
            names == names_of_structures(structures_view(sts@)),
            forall|q: int| 0 <= q < k ==> names[q] != name@,
        decreases sts@.len() - k,
    {
        if sts[k].name == *name {
            assert(names[k as int] == name@);
            return true;
        }
        k = k + 1;
    }
    false
}

fn real8_is_positive(v: u64) -> (b: bool)
    ensures
        b == real8_positive(v as int),
{
    v < 0x8000_0000_0000_0000 && v % 0x0100_0000_0000_0000 != 0
}

/// The envelope (see `envelope_spec`).
fn parse_envelope(records: &Vec<Record>, strict: bool)
    -> (res: Result<(i16, [i16; 12], String, GdsUnits, GdsEnvelope, usize), LayoutError>)
    requires
        shaped(records@),
    ensures
        match envelope_spec(records_view(records@), strict) {
            Ok((env, next)) => res matches Ok((version, ts, name, units, e, n))
                && version == env.version && ts@ == env.timestamps && name@ == env.name && units == env.units
                && e.header == env.header && e.bgnlib == env.bgnlib && e.libname == env.libname && e.units == env.has_units
                && n == next,
            Err(e) => res matches Err(x) && fault_matches(x, e),
        },
{
    let ghost rs = records_view(records@);
    let n = records.len();
    let mut i: usize = 0;
    let had_header = n > 0 && records[0].ty == HEADER;
    let version: i16 = if had_header {
        assert(rs[0] == records@[0].view());
        assert(shape_ok(records@[0].ty, records@[0].dt, records@[0].payload@.len()));
        i = 1;
        i16_at(&records[0].payload, 0)
    } else if strict {
        return Err(fault_here(LayoutErrorKind::InvalidOrder, "strict input is missing HEADER"));
    } else {
        600
    };
    let i1 = i;
    let had_bgnlib = i < n && records[i].ty == BGNLIB;
    let ts: [i16; 12] = if had_bgnlib {
        assert(rs[i as int] == records@[i as int].view());
        assert(shape_ok(records@[i as int].ty, records@[i as int].dt, records@[i as int].payload@.len()));
        let t = timestamps(&records[i].payload);
        i = i + 1;
        t
    } else if strict {
        return Err(fault_here(LayoutErrorKind::InvalidOrder, "strict input is missing BGNLIB"));
    } else {
        [0; 12]
    };
    let i2 = i;
    let had_libname = i < n && records[i].ty == LIBNAME;
    let name: String = if had_libname {
        assert(rs[i as int] == records@[i as int].view());
        let t = match ascii_record(&records[i]) {
            Ok(t) => t,
            Err(e) => {
                return Err(e);
            },
        };
        i = i + 1;
        t
    } else if strict {
        return Err(fault_here(LayoutErrorKind::InvalidOrder, "strict input is missing LIBNAME"));
    } else {
        String::new()
    };
    let had_units = i < n && records[i].ty == UNITS;
    let units: GdsUnits = if had_units {
        assert(rs[i as int] == records@[i as int].view());
        assert(shape_ok(records@[i as int].ty, records@[i as int].dt, records@[i as int].payload@.len()));
        let p = &records[i].payload;
        let user = u64_at(p, 0);
        let meters = u64_at(p, 8);
        if !(real8_is_positive(user) && real8_is_positive(meters)) {
            return Err(fault(LayoutErrorKind::Malformed, records[i].offset, "UNITS values must be finite and positive"));
        }
        i = i + 1;
        GdsUnits { user_units_per_database_unit: user, meters_per_database_unit: meters }
    } else if strict {
        return Err(fault_here(LayoutErrorKind::InvalidOrder, "strict input is missing UNITS"));
    } else {
        GdsUnits { user_units_per_database_unit: 0x3e41_8937_4bc6_a7f0, meters_per_database_unit: 0x3944_b82f_a09b_5a54 }
    };
    proof {
        assert(ts@ =~= (if had_bgnlib { timestamps_of(rs[i1 as int].payload) } else { Seq::new(12, |k: int| 0i16) }));
        assert(!had_libname ==> name@ =~= Seq::<char>::empty());
    }
    let env = GdsEnvelope { header: had_header, bgnlib: had_bgnlib, libname: had_libname, units: had_units, endlib: false };
    Ok((version, ts, name, units, env, i))
}

/// Structures and other records from `i` up to ENDLIB (see `library_items`).
fn parse_library_items(records: &Vec<Record>, start: usize, strict: bool)
    -> (res: Result<(Vec<GdsStructure>, Vec<GdsRawRecord>, bool, usize), LayoutError>)
    requires
        shaped(records@),
        start <= records@.len(),
    ensures
        match library_items(records_view(records@), start as int, strict, Seq::empty(), Seq::empty()) {
            Ok((sts, unh, saw, next)) => res matches Ok((s, u, b, n))
                && structures_view(s@) == sts && raws_view(u@) == unh && b == saw && n == next,
            Err(e) => res matches Err(x) && fault_matches(x, e),
        },
{
    let ghost rs = records_view(records@);
    let n = records.len();
    let mut i = start;
    let mut structures: Vec<GdsStructure> = Vec::new();
    let mut unhandled: Vec<GdsRawRecord> = Vec::new();
    assert(structures_view(structures@) =~= Seq::<StructureV>::empty());
    assert(raws_view(unhandled@) =~= Seq::<RecordSpec>::empty());
    while i < n
        invariant
            n == records@.len(),
            shaped(records@),
            rs == records_view(records@),
            start <= i <= n,
            library_items(rs, start as int, strict, Seq::empty(), Seq::empty())
                == library_items(rs, i as int, strict, structures_view(structures@), raws_view(unhandled@)),
        decreases n - i,
    {
        let r = &records[i];
        assert(rs[i as int] == r.view());
        if r.ty == BGNSTR {
            proof {
                lemma_structure_next(rs, i as int, strict);
            }
            match parse_structure(records, i, strict) {
                Ok((st, next)) => {
                    if name_taken(&structures, &st.name) {
                        let mut m = String::from_str("duplicate structure name `");
                        m.append(st.name.as_str());
                        m.append("`");
                        let e = LayoutError::layout(LayoutErrorKind::Duplicate, m);
                        proof {
                            reveal(fault_matches);
                        }
                        return Err(e);
                    }
                    let ghost sv = structures@;
                    structures.push(st);
                    assert(structures_view(structures@) =~= structures_view(sv).push(structures@.last().view()));
                    i = next;
                },
                Err(e) => {
                    return Err(e);
                },
            }
        } else if r.ty == ENDLIB {
            return Ok((structures, unhandled, true, i + 1));
        } else {
            let ghost uv = unhandled@;
            unhandled.push(raw_of(r));
            assert(raws_view(unhandled@) =~= raws_view(uv).push(r.view()));
            i = i + 1;
        }
    }
    Ok((structures, unhandled, false, i))
}

/// The library the decoded records make (see `library_spec`).
fn library_from_records(records: &Vec<Record>, strict: bool) -> (res: Result<GdsLibrary, LayoutError>)
    requires
        shaped(records@),
    ensures
        match library_spec(records_view(records@), strict) {
            Ok(l) => res matches Ok(x) && x.view() == l,
            Err(e) => res matches Err(x) && fault_matches(x, e),
        },
{
    let ghost rs = records_view(records@);
    let (version, ts, name, units, env, i4) = match parse_envelope(records, strict) {
        Ok(v) => v,
        Err(e) => {
            return Err(e);
        },
    };
    proof {
        lemma_envelope_next(rs, strict);
    }
    let (structures, unhandled, saw_endlib, next) = match parse_library_items(records, i4, strict) {
        Ok(v) => v,
        Err(e) => {
            return Err(e);
        },
    };
    if strict && !saw_endlib {
        return Err(fault_here(LayoutErrorKind::InvalidOrder, "strict input is missing ENDLIB"));
    }
    if next < records.len() {
        assert(rs[next as int] == records@[next as int].view());
        return Err(fault(LayoutErrorKind::InvalidOrder, records[next].offset, "data follows ENDLIB"));
    }
    if strict && structures.len() == 0 {
        return Err(fault_here(LayoutErrorKind::Malformed, "library has no structures"));
    }
    Ok(GdsLibrary {
        version,
        timestamps: ts,
        name,
        units,
        structures,
        unhandled_records: unhandled,
        envelope: GdsEnvelope { endlib: saw_endlib, ..env },
    })
}

/// Reads a GDSII stream into the library model (see `read_spec`).
pub fn read_gds_library(bytes: &[u8], mode: GdsReadMode) -> (res: Result<GdsLibrary, LayoutError>)
    ensures
        match read_spec(bytes@, mode == GdsReadMode::Strict) {
            Ok(l) => res matches Ok(x) && x.view() == l,
            Err(e) => res matches Err(x) && fault_matches(x, e),
        },
        mode == GdsReadMode::Strict && res is Ok ==> super::strict::strict_library_ok(res->Ok_0.view()),
{
    proof {
        if read_spec(bytes@, true) is Ok {
            super::strict::lemma_strict_read(bytes@);
        }
    }
    let blen = bytes.len();
    assert(blen == bytes@.len());
    proof {
        lemma_decode_err_offset(bytes@, 0);
    }
    let records = match decode_records(bytes) {
        Ok(r) => r,
        Err(e) => {
            proof {
                reveal(fault_matches);
            }
            return Err(e);
        },
    };
    proof {
        lemma_decoded_shaped(bytes@, 0, records@);
    }
    library_from_records(&records, mode == GdsReadMode::Strict)
}

proof fn lemma_decode_err_offset(b: Seq<u8>, pos: int)
    requires
        0 <= pos,
        b.len() <= usize::MAX,
    ensures
        decode_from(b, pos) matches Err((_, off, _)) ==> pos <= off < b.len(),
    decreases b.len() - pos,
{
    if 0 <= pos < b.len() && b.len() - pos >= 4 {
        let len = super::gds::be16(b, pos);
        if len >= 4 && pos + len <= b.len() {
            lemma_decode_err_offset(b, pos + len);
        }
    }
}

proof fn lemma_envelope_next(rs: Seq<RecordSpec>, strict: bool)
    ensures
        envelope_spec(rs, strict) matches Ok((_, next)) ==> 0 <= next <= rs.len(),
{
}

proof fn lemma_structure_next(rs: Seq<RecordSpec>, i: int, strict: bool)
    requires
        0 <= i < rs.len(),
    ensures
        structure_spec(rs, i, strict) matches Ok((_, next)) ==> i < next <= rs.len(),
{
    if i + 1 < rs.len() && rs[i + 1].ty == STRNAME {
        lemma_structure_items_next(rs, i + 2, strict, Seq::empty(), Seq::empty());
    }
}

proof fn lemma_decoded_shaped(b: Seq<u8>, pos: int, recs: Seq<Record>)
    requires
        decode_from(b, pos) == Ok::<Seq<RecordSpec>, DecodeFault>(records_view(recs)),
    ensures
        shaped(recs),
    decreases b.len() - pos,
{
    if pos < 0 || pos >= b.len() {
        assert(records_view(recs).len() == 0);
        assert(recs.len() == 0);
    }
    if 0 <= pos < b.len() && recs.len() > 0 {
        let len = super::gds::be16(b, pos);
        assert(b.len() - pos >= 4);
        assert(4 <= len && len % 2 == 0 && pos + len <= usize::MAX && pos + len <= b.len());
        let r = RecordSpec { ty: b[pos + 2], dt: b[pos + 3], payload: b.subrange(pos + 4, pos + len), offset: pos };
        let rest = match decode_from(b, pos + len) {
            Ok(rest) => rest,
            Err(_) => {
                assert(false);
                Seq::empty()
            },
        };
        assert(decode_from(b, pos) == Ok::<Seq<RecordSpec>, DecodeFault>(seq![r] + rest));
        assert(records_view(recs) == seq![records_view(recs)[0]] + rest);
        assert(records_view(recs).drop_first() =~= rest);
        assert(records_view(recs.drop_first()) =~= records_view(recs).drop_first());
        lemma_decoded_shaped(b, pos + len, recs.drop_first());
        assert forall|k: int| 0 <= k < recs.len() implies shape_ok((#[trigger] recs[k]).ty, recs[k].dt, recs[k].payload@.len()) by {
            if k > 0 {
                assert(recs[k] == recs.drop_first()[k - 1]);
            } else {
                assert(records_view(recs)[0] == recs[0].view());
            }
        }
    }
}

} // verus!
