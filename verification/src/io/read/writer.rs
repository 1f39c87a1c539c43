//! Deterministic GDSII writer for the library model.
//!
//! The writer always emits the complete envelope, then per structure BGNSTR,
//! STRNAME, the kept records, the elements and ENDSTR, then ENDLIB. It fails
//! on text that is not ASCII and on a record whose payload does not fit.
use vstd::prelude::*;
use crate::geometry::Point;
use super::element::{ElementV, MetaV, PropertyV, raws_view};
use super::gds::{
    encode_record, put_record, GdsArrayReference, GdsElement, GdsElementMeta, GdsLibrary, GdsRawRecord, GdsStructure,
    GdsTransform, LayoutError, LayoutErrorKind, RecordSpec, strans_bits, AREF, BGNEXTN, BGNLIB, BGNSTR, BOUNDARY, BOX,
    BOXTYPE, COLROW, DATATYPE, DT_ASCII, DT_BIT_ARRAY, DT_I16, DT_I32, DT_NONE, DT_REAL8, ELFLAGS, ENDEL, ENDEXTN,
    ENDLIB, ENDSTR, HEADER, LAYER, LIBNAME, MAG, ANGLE, NODE, NODETYPE, PATH, PATHTYPE, PLEX, PRESENTATION, PROPATTR,
    PROPVALUE, SNAME, SREF, STRANS, STRING, STRNAME, TEXT, TEXTTYPE, UNITS, WIDTH, XY,
};
use super::library::{LibraryV, StructureV, elements_view, structures_view};

verus! {

/// Output so far, or the kind of the first failure.
pub type Out = Result<Seq<u8>, LayoutErrorKind>;

pub open spec fn cat(a: Out, b: Out) -> Out {
    match a {
        Err(e) => Err(e),
        Ok(x) => match b {
            Err(e) => Err(e),
            Ok(y) => Ok(x + y),
        },
    }
}

/// One record: a payload longer than 65531 bytes does not fit, an odd one
/// is malformed.
pub open spec fn rec(ty: u8, dt: u8, payload: Seq<u8>) -> Out {
    if payload.len() + 4 > 65535 {
        Err(LayoutErrorKind::CapacityExceeded)
    } else if payload.len() % 2 != 0 {
        Err(LayoutErrorKind::Malformed)
    } else {
        Ok(encode_record(ty, dt, payload))
    }
}

pub open spec fn u16_bytes(u: int) -> Seq<u8> {
    seq![(u / 0x100) as u8, (u % 0x100) as u8]
}

pub open spec fn i16_bytes(v: int) -> Seq<u8> {
    u16_bytes(if v < 0 { v + 0x10000 } else { v })
}

pub open spec fn u32_bytes(u: int) -> Seq<u8> {
    seq![(u / 0x100_0000) as u8, (u / 0x1_0000 % 0x100) as u8, (u / 0x100 % 0x100) as u8, (u % 0x100) as u8]
}

pub open spec fn i32_bytes(v: int) -> Seq<u8> {
    u32_bytes(if v < 0 { v + 0x1_0000_0000 } else { v })
}

pub open spec fn u64_bytes(u: int) -> Seq<u8> {
    u32_bytes(u / 0x1_0000_0000) + u32_bytes(u % 0x1_0000_0000)
}

pub open spec fn i16s_bytes(vs: Seq<i16>) -> Seq<u8>
    decreases vs.len(),
{
    if vs.len() == 0 { Seq::empty() } else { i16s_bytes(vs.drop_last()) + i16_bytes(vs.last() as int) }
}

pub open spec fn points_bytes(ps: Seq<Point>) -> Seq<u8>
    decreases ps.len(),
{
    if ps.len() == 0 { Seq::empty() } else { points_bytes(ps.drop_last()) + i32_bytes(ps.last().x as int) + i32_bytes(ps.last().y as int) }
}

pub open spec fn ascii_chars(s: Seq<char>) -> bool {
    vstd::utf8::is_ascii_chars(s)
}

/// Bytes of ASCII text, NUL-padded to even length.
pub open spec fn text_bytes(s: Seq<char>) -> Seq<u8> {
    let b = s.map_values(|c: char| c as u8);
    if b.len() % 2 != 0 { b.push(0) } else { b }
}

/// An ASCII record; other text is malformed.
pub open spec fn ascii_rec(ty: u8, s: Seq<char>) -> Out {
    if !ascii_chars(s) { Err(LayoutErrorKind::Malformed) } else { rec(ty, DT_ASCII, text_bytes(s)) }
}

pub open spec fn raw_recs(rs: Seq<RecordSpec>) -> Out
    decreases rs.len(),
{
    if rs.len() == 0 { Ok(Seq::empty()) } else { cat(raw_recs(rs.drop_last()), rec(rs.last().ty, rs.last().dt, rs.last().payload)) }
}

pub open spec fn props_recs(ps: Seq<PropertyV>) -> Out
    decreases ps.len(),
{
    if ps.len() == 0 {
        Ok(Seq::empty())
    } else {
        cat(props_recs(ps.drop_last()), cat(rec(PROPATTR, DT_I16, i16_bytes(ps.last().attribute as int)), ascii_rec(PROPVALUE, ps.last().value)))
    }
}

pub open spec fn opt_rec<T>(o: Option<T>, r: Out) -> Out {
    if o is Some { r } else { Ok(Seq::empty()) }
}

/// ELFLAGS, PLEX, the properties, then the kept records.
#[verifier::opaque]
pub open spec fn meta_recs(m: MetaV) -> Out {
    cat(opt_rec(m.element_flags, rec(ELFLAGS, DT_BIT_ARRAY, u16_bytes(m.element_flags->0 as int))),
    cat(opt_rec(m.plex, rec(PLEX, DT_I32, i32_bytes(m.plex->0 as int))),
    cat(props_recs(m.properties), raw_recs(m.unhandled))))
}

/// STRANS when any bit is set, then MAG and ANGLE when present.
#[verifier::opaque]
pub open spec fn transform_recs(t: GdsTransform) -> Out {
    cat(if strans_bits(t) != 0 { rec(STRANS, DT_BIT_ARRAY, u16_bytes(strans_bits(t) as int)) } else { Ok(Seq::empty()) },
    cat(opt_rec(t.magnification, rec(MAG, DT_REAL8, u64_bytes(t.magnification->0 as int))),
        opt_rec(t.angle_degrees, rec(ANGLE, DT_REAL8, u64_bytes(t.angle_degrees->0 as int)))))
}

pub open spec fn xy_rec(ps: Seq<Point>, close: bool) -> Out {
    rec(XY, DT_I32, points_bytes(if close && ps.len() > 0 { ps.push(ps[0]) } else { ps }))
}

pub open spec fn i16_rec(ty: u8, v: i16) -> Out {
    rec(ty, DT_I16, i16_bytes(v as int))
}

pub open spec fn i32_rec(ty: u8, v: i32) -> Out {
    rec(ty, DT_I32, i32_bytes(v as int))
}

pub open spec fn none_rec(ty: u8) -> Out {
    rec(ty, DT_NONE, Seq::empty())
}

#[verifier::opaque]
pub open spec fn boundary_body(ty: u8, tty: u8, layer: i16, datatype: i16, ring: Seq<Point>, meta: MetaV) -> Out {
    cat(head3(ty, layer, tty, datatype), cat(xy_rec(ring, true), meta_recs(meta)))
}

/// The start record, LAYER and the type record of an element.
pub open spec fn head3(ty: u8, layer: i16, tty: u8, t: i16) -> Out {
    cat(none_rec(ty), cat(i16_rec(LAYER, layer), i16_rec(tty, t)))
}

pub open spec fn path_opts(path_type: Option<i16>, width: Option<i32>, begin_extension: Option<i32>, end_extension: Option<i32>) -> Out {
    cat(opt_rec(path_type, i16_rec(PATHTYPE, path_type->0)),
    cat(opt_rec(width, i32_rec(WIDTH, width->0)),
    cat(opt_rec(begin_extension, i32_rec(BGNEXTN, begin_extension->0)),
        opt_rec(end_extension, i32_rec(ENDEXTN, end_extension->0)))))
}

#[verifier::opaque]
pub open spec fn path_body(layer: i16, datatype: i16, centerline: Seq<Point>, width: Option<i32>, path_type: Option<i16>,
    begin_extension: Option<i32>, end_extension: Option<i32>, meta: MetaV) -> Out {
    cat(head3(PATH, layer, DATATYPE, datatype), cat(path_opts(path_type, width, begin_extension, end_extension),
    cat(xy_rec(centerline, false), meta_recs(meta))))
}

pub open spec fn text_opts(presentation: Option<u16>, path_type: Option<i16>, width: Option<i32>) -> Out {
    cat(opt_rec(presentation, rec(PRESENTATION, DT_BIT_ARRAY, u16_bytes(presentation->0 as int))),
    cat(opt_rec(path_type, i16_rec(PATHTYPE, path_type->0)),
        opt_rec(width, i32_rec(WIDTH, width->0))))
}

#[verifier::opaque]
pub open spec fn text_body(layer: i16, text_type: i16, origin: Point, string: Seq<char>, presentation: Option<u16>,
    path_type: Option<i16>, width: Option<i32>, transform: GdsTransform, meta: MetaV) -> Out {
    cat(head3(TEXT, layer, TEXTTYPE, text_type), cat(text_opts(presentation, path_type, width),
    cat(transform_recs(transform), cat(xy_rec(seq![origin], false), cat(ascii_rec(STRING, string), meta_recs(meta))))))
}

#[verifier::opaque]
pub open spec fn sref_body(structure: Seq<char>, origin: Point, transform: GdsTransform, meta: MetaV) -> Out {
    cat(none_rec(SREF), cat(ascii_rec(SNAME, structure), cat(transform_recs(transform), cat(xy_rec(seq![origin], false), meta_recs(meta)))))
}

#[verifier::opaque]
pub open spec fn aref_body(structure: Seq<char>, columns: u16, rows: u16, origin: Point, column_endpoint: Point,
    row_endpoint: Point, transform: GdsTransform, meta: MetaV) -> Out {
    cat(none_rec(AREF), cat(ascii_rec(SNAME, structure), cat(transform_recs(transform),
    cat(rec(COLROW, DT_I16, i16_bytes(columns as i16 as int) + i16_bytes(rows as i16 as int)),
    cat(xy_rec(seq![origin, column_endpoint, row_endpoint], false), meta_recs(meta))))))
}

/// The records of one element before its ENDEL.
#[verifier::opaque]
pub open spec fn element_body(e: ElementV) -> Out {
    match e {
        ElementV::Boundary { layer, datatype, ring, meta } => boundary_body(BOUNDARY, DATATYPE, layer, datatype, ring, meta),
        ElementV::Path { layer, datatype, centerline, width, path_type, begin_extension, end_extension, meta } =>
            path_body(layer, datatype, centerline, width, path_type, begin_extension, end_extension, meta),
        ElementV::Box { layer, box_type, ring, meta } => boundary_body(BOX, BOXTYPE, layer, box_type, ring, meta),
        ElementV::Text { layer, text_type, origin, string, presentation, path_type, width, transform, meta } =>
            text_body(layer, text_type, origin, string, presentation, path_type, width, transform, meta),
        ElementV::Node { layer, node_type, points, meta } =>
            cat(head3(NODE, layer, NODETYPE, node_type), cat(xy_rec(points, false), meta_recs(meta))),
        ElementV::Sref { structure, origin, transform, meta } => sref_body(structure, origin, transform, meta),
        ElementV::Aref { structure, columns, rows, origin, column_endpoint, row_endpoint, transform, meta } =>
            aref_body(structure, columns, rows, origin, column_endpoint, row_endpoint, transform, meta),
        ElementV::Unsupported { start, records } => cat(rec(start.ty, start.dt, start.payload), raw_recs(records)),
    }
}

/// The records of one element, ending with ENDEL.
pub open spec fn element_recs(e: ElementV) -> Out {
    cat(element_body(e), none_rec(ENDEL))
}

pub open spec fn elements_recs(es: Seq<ElementV>) -> Out
    decreases es.len(),
{
    if es.len() == 0 { Ok(Seq::empty()) } else { cat(elements_recs(es.drop_last()), element_recs(es.last())) }
}

#[verifier::opaque]
pub open spec fn structure_recs(s: StructureV) -> Out {
    cat(rec(BGNSTR, DT_I16, i16s_bytes(s.timestamps)), cat(ascii_rec(STRNAME, s.name), cat(raw_recs(s.unhandled),
    cat(elements_recs(s.elements), none_rec(ENDSTR)))))
}

pub open spec fn structures_recs(ss: Seq<StructureV>) -> Out
    decreases ss.len(),
{
    if ss.len() == 0 { Ok(Seq::empty()) } else { cat(structures_recs(ss.drop_last()), structure_recs(ss.last())) }
}

/// The bytes of a library, or the kind of the first failure.
pub open spec fn library_recs(l: LibraryV) -> Out {
    cat(i16_rec(HEADER, l.version), cat(rec(BGNLIB, DT_I16, i16s_bytes(l.timestamps)), cat(ascii_rec(LIBNAME, l.name),
    cat(rec(UNITS, DT_REAL8, u64_bytes(l.units.user_units_per_database_unit as int) + u64_bytes(l.units.meters_per_database_unit as int)),
    cat(raw_recs(l.unhandled), cat(structures_recs(l.structures), none_rec(ENDLIB)))))))
}

proof fn lemma_raw_recs_err(rs: Seq<RecordSpec>, k: int, m: int)
    requires
        0 <= k <= m <= rs.len(),
        raw_recs(rs.take(k)) is Err,
    ensures
        raw_recs(rs.take(m)) == raw_recs(rs.take(k)),
    decreases m - k,
{
    if m > k {
        lemma_raw_recs_err(rs, k, m - 1);
        assert(rs.take(m).drop_last() =~= rs.take(m - 1));
    }
}

proof fn lemma_props_recs_err(ps: Seq<PropertyV>, k: int, m: int)
    requires
        0 <= k <= m <= ps.len(),
        props_recs(ps.take(k)) is Err,
    ensures
        props_recs(ps.take(m)) == props_recs(ps.take(k)),
    decreases m - k,
{
    if m > k {
        lemma_props_recs_err(ps, k, m - 1);
        assert(ps.take(m).drop_last() =~= ps.take(m - 1));
    }
}

proof fn lemma_elements_recs_err(es: Seq<ElementV>, k: int, m: int)
    requires
        0 <= k <= m <= es.len(),
        elements_recs(es.take(k)) is Err,
    ensures
        elements_recs(es.take(m)) == elements_recs(es.take(k)),
    decreases m - k,
{
    if m > k {
        lemma_elements_recs_err(es, k, m - 1);
        assert(es.take(m).drop_last() =~= es.take(m - 1));
    }
}

proof fn lemma_structures_recs_err(ss: Seq<StructureV>, k: int, m: int)
    requires
        0 <= k <= m <= ss.len(),
        structures_recs(ss.take(k)) is Err,
    ensures
        structures_recs(ss.take(m)) == structures_recs(ss.take(k)),
    decreases m - k,
{
    if m > k {
        lemma_structures_recs_err(ss, k, m - 1);
        assert(ss.take(m).drop_last() =~= ss.take(m - 1));
    }
}

// --- executable writer ---

/// Appended bytes match `o`, or the error has its kind.
pub open spec fn wrote(old_out: Seq<u8>, new_out: Seq<u8>, res: Result<(), LayoutError>, o: Out) -> bool {
    match o {
        Ok(b) => res is Ok && new_out == old_out + b,
        Err(k) => res matches Err(e) && e.kind == k,
    }
}

fn put(out: &mut Vec<u8>, ty: u8, dt: u8, payload: &Vec<u8>) -> (r: Result<(), LayoutError>)
    ensures
        wrote(old(out)@, final(out)@, r, rec(ty, dt, payload@)),
{
    put_record(out, ty, dt, payload.as_slice())
}

fn push_u16(b: &mut Vec<u8>, u: u16)
    ensures
        final(b)@ == old(b)@ + u16_bytes(u as int),
{
    b.push((u / 0x100) as u8);
    b.push((u % 0x100) as u8);
    assert(b@ =~= old(b)@ + u16_bytes(u as int));
}

fn push_i16(b: &mut Vec<u8>, v: i16)
    ensures
        final(b)@ == old(b)@ + i16_bytes(v as int),
{
    let u: u16 = if v < 0 { (v as i32 + 0x10000) as u16 } else { v as u16 };
    push_u16(b, u);
}

fn push_u32(b: &mut Vec<u8>, u: u32)
    ensures
        final(b)@ == old(b)@ + u32_bytes(u as int),
{
    b.push((u / 0x100_0000) as u8);
    b.push((u / 0x1_0000 % 0x100) as u8);
    b.push((u / 0x100 % 0x100) as u8);
    b.push((u % 0x100) as u8);
    assert(b@ =~= old(b)@ + u32_bytes(u as int));
}

fn push_i32(b: &mut Vec<u8>, v: i32)
    ensures
        final(b)@ == old(b)@ + i32_bytes(v as int),
{
    let u: u32 = if v < 0 { (v as i64 + 0x1_0000_0000) as u32 } else { v as u32 };
    push_u32(b, u);
}

fn push_u64(b: &mut Vec<u8>, u: u64)
    ensures
        final(b)@ == old(b)@ + u64_bytes(u as int),
{
    push_u32(b, (u / 0x1_0000_0000) as u32);
    push_u32(b, (u % 0x1_0000_0000) as u32);
    assert(b@ =~= old(b)@ + u64_bytes(u as int));
}

fn put_i16(out: &mut Vec<u8>, ty: u8, v: i16) -> (r: Result<(), LayoutError>)
    ensures
        wrote(old(out)@, final(out)@, r, i16_rec(ty, v)),
{
    let mut p: Vec<u8> = Vec::new();
    push_i16(&mut p, v);
    assert(p@ =~= i16_bytes(v as int));
    put(out, ty, DT_I16, &p)
}

fn put_i32(out: &mut Vec<u8>, ty: u8, v: i32) -> (r: Result<(), LayoutError>)
    ensures
        wrote(old(out)@, final(out)@, r, i32_rec(ty, v)),
{
    let mut p: Vec<u8> = Vec::new();
    push_i32(&mut p, v);
    assert(p@ =~= i32_bytes(v as int));
    put(out, ty, DT_I32, &p)
}

fn put_u16(out: &mut Vec<u8>, ty: u8, u: u16) -> (r: Result<(), LayoutError>)
    ensures
        wrote(old(out)@, final(out)@, r, rec(ty, DT_BIT_ARRAY, u16_bytes(u as int))),
{
    let mut p: Vec<u8> = Vec::new();
    push_u16(&mut p, u);
    assert(p@ =~= u16_bytes(u as int));
    put(out, ty, DT_BIT_ARRAY, &p)
}

fn put_real8(out: &mut Vec<u8>, ty: u8, u: u64) -> (r: Result<(), LayoutError>)
    ensures
        wrote(old(out)@, final(out)@, r, rec(ty, DT_REAL8, u64_bytes(u as int))),
{
    let mut p: Vec<u8> = Vec::new();
    push_u64(&mut p, u);
    assert(p@ =~= u64_bytes(u as int));
    put(out, ty, DT_REAL8, &p)
}

fn put_none(out: &mut Vec<u8>, ty: u8) -> (r: Result<(), LayoutError>)
    ensures
        wrote(old(out)@, final(out)@, r, none_rec(ty)),
{
    let p: Vec<u8> = Vec::new();
    put(out, ty, DT_NONE, &p)
}

fn put_timestamps(out: &mut Vec<u8>, ty: u8, ts: &[i16; 12]) -> (r: Result<(), LayoutError>)
    ensures
        wrote(old(out)@, final(out)@, r, rec(ty, DT_I16, i16s_bytes(ts@))),
{
    let mut p: Vec<u8> = Vec::new();
    let mut k: usize = 0;
    while k < 12
        invariant
            k <= 12,
            ts@.len() == 12,
            p@ == i16s_bytes(ts@.take(k as int)),
        decreases 12 - k,
    {
        push_i16(&mut p, ts[k]);
        assert(ts@.take(k as int + 1).drop_last() =~= ts@.take(k as int));
        k = k + 1;
    }
    assert(ts@.take(12) =~= ts@);
    put(out, ty, DT_I16, &p)
}

fn put_ascii(out: &mut Vec<u8>, ty: u8, s: &String) -> (r: Result<(), LayoutError>)
    ensures
        wrote(old(out)@, final(out)@, r, ascii_rec(ty, s@)),
{
    let t = s.as_str();
    if !t.is_ascii() {
        return Err(LayoutError::layout(LayoutErrorKind::Malformed, String::from_str("record contains non-ASCII text")));
    }
    let bytes = t.as_bytes();
    proof {
        vstd::string::is_ascii_spec_bytes(t);
    }
    let mut p: Vec<u8> = Vec::new();
    let mut i: usize = 0;
    while i < bytes.len()
        invariant
            i <= bytes@.len(),
            bytes@ == Seq::new(s@.len(), |k: int| s@[k] as u8),
            p@ == bytes@.take(i as int),
        decreases bytes@.len() - i,
    {
        p.push(bytes[i]);
        assert(p@ =~= bytes@.take(i as int + 1));
        i = i + 1;
    }
    if p.len() % 2 != 0 {
        p.push(0);
    }
    assert(p@ =~= text_bytes(s@));
    put(out, ty, DT_ASCII, &p)
}

fn put_raw(out: &mut Vec<u8>, records: &Vec<GdsRawRecord>) -> (r: Result<(), LayoutError>)
    ensures
        wrote(old(out)@, final(out)@, r, raw_recs(raws_view(records@))),
{
    let ghost rs = raws_view(records@);
    let ghost mut acc: Seq<u8> = Seq::empty();
    let mut k: usize = 0;
    while k < records.len()
        invariant
            k <= records@.len(),
            rs == raws_view(records@),
            out@ == old(out)@ + acc,
            raw_recs(rs.take(k as int)) == Ok::<Seq<u8>, LayoutErrorKind>(acc),
        decreases records@.len() - k,
    {
        proof {
            assert(rs.take(k as int + 1).drop_last() =~= rs.take(k as int));
            assert(rs.take(k as int + 1).last() == records@[k as int].view());
        }
        let rr = &records[k];
        let ghost before = out@;
        match put(out, rr.record_type, rr.data_type, &rr.payload) {
            Ok(()) => {},
            Err(e) => {
                proof {
                    lemma_raw_recs_err(rs, k as int + 1, rs.len() as int);
                    assert(rs.take(rs.len() as int) =~= rs);
                }
                return Err(e);
            },
        }
        proof {
            let b = rec(rr.record_type, rr.data_type, rr.payload@)->Ok_0;
            acc = acc + b;
            assert(out@ =~= old(out)@ + acc);
        }
        k = k + 1;
    }
    assert(rs.take(records@.len() as int) =~= rs);
    assert(out@ =~= old(out)@ + acc);
    Ok(())
}

/// Appends `b` to the ghost record of what was written.
pub open spec fn step(acc: Seq<u8>, o: Out) -> Seq<u8> {
    acc + o->Ok_0
}

fn put_points(out: &mut Vec<u8>, ps: &Vec<Point>, close: bool) -> (r: Result<(), LayoutError>)
    ensures
        wrote(old(out)@, final(out)@, r, xy_rec(ps@, close)),
{
    let ghost all = if close && ps@.len() > 0 { ps@.push(ps@[0]) } else { ps@ };
    let mut p: Vec<u8> = Vec::new();
    let mut k: usize = 0;
    while k < ps.len()
        invariant
            k <= ps@.len(),
            all == (if close && ps@.len() > 0 { ps@.push(ps@[0]) } else { ps@ }),
            p@ == points_bytes(all.take(k as int)),
        decreases ps@.len() - k,
    {
        let q = ps[k];
        push_i32(&mut p, q.x);
        push_i32(&mut p, q.y);
        assert(all.take(k as int + 1).drop_last() =~= all.take(k as int));
        assert(all.take(k as int + 1).last() == q);
        k = k + 1;
    }
    if close && ps.len() > 0 {
        let q = ps[0];
        push_i32(&mut p, q.x);
        push_i32(&mut p, q.y);
        assert(all.take(ps@.len() as int + 1).drop_last() =~= all.take(ps@.len() as int));
        assert(all.take(ps@.len() as int + 1) =~= all);
    } else {
        assert(all.take(ps@.len() as int) =~= all);
    }
    put(out, XY, DT_I32, &p)
}

fn write_props(out: &mut Vec<u8>, props: &Vec<super::gds::GdsProperty>) -> (r: Result<(), LayoutError>)
    ensures
        wrote(old(out)@, final(out)@, r, props_recs(props@.map_values(|q: super::gds::GdsProperty| q.view()))),
{
    let ghost ps = props@.map_values(|q: super::gds::GdsProperty| q.view());
    let ghost mut acc: Seq<u8> = Seq::empty();
    let mut k: usize = 0;
    while k < props.len()
        invariant
            k <= props@.len(),
            ps == props@.map_values(|q: super::gds::GdsProperty| q.view()),
            out@ == old(out)@ + acc,
            props_recs(ps.take(k as int)) == Ok::<Seq<u8>, LayoutErrorKind>(acc),
        decreases props@.len() - k,
    {
        proof {
            assert(ps.take(k as int + 1).drop_last() =~= ps.take(k as int));
            assert(ps.take(k as int + 1).last() == props@[k as int].view());
        }
        let pr = &props[k];
        match put_i16(out, PROPATTR, pr.attribute) {
            Ok(()) => {},
            Err(e) => {
                proof { lemma_props_recs_err(ps, k as int + 1, ps.len() as int); assert(ps.take(ps.len() as int) =~= ps); }
                return Err(e);
            },
        }
        let ghost mid = i16_rec(PROPATTR, pr.attribute)->Ok_0;
        match put_ascii(out, PROPVALUE, &pr.value) {
            Ok(()) => {},
            Err(e) => {
                proof { lemma_props_recs_err(ps, k as int + 1, ps.len() as int); assert(ps.take(ps.len() as int) =~= ps); }
                return Err(e);
            },
        }
        proof {
            acc = acc + (mid + ascii_rec(PROPVALUE, pr.value@)->Ok_0);
            assert(out@ =~= old(out)@ + acc);
        }
        k = k + 1;
    }
    assert(ps.take(props@.len() as int) =~= ps);
    Ok(())
}

fn write_meta(out: &mut Vec<u8>, meta: &GdsElementMeta) -> (r: Result<(), LayoutError>)
    ensures
        wrote(old(out)@, final(out)@, r, meta_recs(meta.view())),
{
    proof {
        reveal(meta_recs);
    }
    let ghost o0 = out@;
    let ghost a = opt_rec(meta.element_flags, rec(ELFLAGS, DT_BIT_ARRAY, u16_bytes(meta.element_flags->0 as int)));
    match meta.element_flags {
        Some(flags) => {
            match put_u16(out, ELFLAGS, flags) { Ok(()) => {}, Err(e) => { return Err(e); } }
        },
        None => {},
    }
    let ghost o1 = out@;
    let ghost b = opt_rec(meta.plex, rec(PLEX, DT_I32, i32_bytes(meta.plex->0 as int)));
    match meta.plex {
        Some(plex) => {
            match put_i32(out, PLEX, plex) { Ok(()) => {}, Err(e) => { return Err(e); } }
        },
        None => {},
    }
    let ghost o2 = out@;
    match write_props(out, &meta.properties) { Ok(()) => {}, Err(e) => { return Err(e); } }
    let ghost o3 = out@;
    match put_raw(out, &meta.unhandled_records) { Ok(()) => {}, Err(e) => { return Err(e); } }
    assert(out@ =~= o0 + meta_recs(meta.view())->Ok_0);
    Ok(())
}

fn write_transform(out: &mut Vec<u8>, t: GdsTransform) -> (r: Result<(), LayoutError>)
    ensures
        wrote(old(out)@, final(out)@, r, transform_recs(t)),
{
    proof {
        reveal(transform_recs);
    }
    let ghost o0 = out@;
    let bits = t.raw_bits();
    if bits != 0 {
        match put_u16(out, STRANS, bits) { Ok(()) => {}, Err(e) => { return Err(e); } }
    }
    match t.magnification {
        Some(m) => {
            match put_real8(out, MAG, m) { Ok(()) => {}, Err(e) => { return Err(e); } }
        },
        None => {},
    }
    match t.angle_degrees {
        Some(a) => {
            match put_real8(out, ANGLE, a) { Ok(()) => {}, Err(e) => { return Err(e); } }
        },
        None => {},
    }
    assert(out@ =~= o0 + transform_recs(t)->Ok_0);
    Ok(())
}

fn write_boundary_like(out: &mut Vec<u8>, ty: u8, tty: u8, layer: i16, datatype: i16, ring: &Vec<Point>, meta: &GdsElementMeta)
    -> (r: Result<(), LayoutError>)
    ensures
        wrote(old(out)@, final(out)@, r, boundary_body(ty, tty, layer, datatype, ring@, meta.view())),
{
    proof {
        reveal(boundary_body);
    }
    let ghost o0 = out@;
    match write_head3(out, ty, layer, tty, datatype) { Ok(()) => {}, Err(e) => { return Err(e); } }
    match put_points(out, ring, true) { Ok(()) => {}, Err(e) => { return Err(e); } }
    match write_meta(out, meta) { Ok(()) => {}, Err(e) => { return Err(e); } }
    assert(out@ =~= o0 + boundary_body(ty, tty, layer, datatype, ring@, meta.view())->Ok_0);
    Ok(())
}

fn write_head3(out: &mut Vec<u8>, ty: u8, layer: i16, tty: u8, t: i16) -> (r: Result<(), LayoutError>)
    ensures
        wrote(old(out)@, final(out)@, r, head3(ty, layer, tty, t)),
{
    let ghost o0 = out@;
    match put_none(out, ty) { Ok(()) => {}, Err(e) => { return Err(e); } }
    match put_i16(out, LAYER, layer) { Ok(()) => {}, Err(e) => { return Err(e); } }
    match put_i16(out, tty, t) { Ok(()) => {}, Err(e) => { return Err(e); } }
    assert(out@ =~= o0 + head3(ty, layer, tty, t)->Ok_0);
    Ok(())
}

fn write_path_opts(out: &mut Vec<u8>, v: &super::gds::GdsPath) -> (r: Result<(), LayoutError>)
    ensures
        wrote(old(out)@, final(out)@, r, path_opts(v.path_type, v.width, v.begin_extension, v.end_extension)),
{
    let ghost o0 = out@;
    match v.path_type { Some(t) => { match put_i16(out, PATHTYPE, t) { Ok(()) => {}, Err(e) => { return Err(e); } } }, None => {} }
    match v.width { Some(w) => { match put_i32(out, WIDTH, w) { Ok(()) => {}, Err(e) => { return Err(e); } } }, None => {} }
    match v.begin_extension { Some(x) => { match put_i32(out, BGNEXTN, x) { Ok(()) => {}, Err(e) => { return Err(e); } } }, None => {} }
    match v.end_extension { Some(x) => { match put_i32(out, ENDEXTN, x) { Ok(()) => {}, Err(e) => { return Err(e); } } }, None => {} }
    assert(out@ =~= o0 + path_opts(v.path_type, v.width, v.begin_extension, v.end_extension)->Ok_0);
    Ok(())
}

fn write_path(out: &mut Vec<u8>, v: &super::gds::GdsPath) -> (r: Result<(), LayoutError>)
    ensures
        wrote(old(out)@, final(out)@, r, path_body(v.layer, v.datatype, v.centerline@, v.width, v.path_type,
            v.begin_extension, v.end_extension, v.meta.view())),
{
    proof {
        reveal(path_body);
    }
    let ghost o0 = out@;
    match write_head3(out, PATH, v.layer, DATATYPE, v.datatype) { Ok(()) => {}, Err(e) => { return Err(e); } }
    match write_path_opts(out, v) { Ok(()) => {}, Err(e) => { return Err(e); } }
    match put_points(out, &v.centerline, false) { Ok(()) => {}, Err(e) => { return Err(e); } }
    match write_meta(out, &v.meta) { Ok(()) => {}, Err(e) => { return Err(e); } }
    assert(out@ =~= o0 + path_body(v.layer, v.datatype, v.centerline@, v.width, v.path_type,
        v.begin_extension, v.end_extension, v.meta.view())->Ok_0);
    Ok(())
}

fn write_text_opts(out: &mut Vec<u8>, v: &super::gds::GdsText) -> (r: Result<(), LayoutError>)
    ensures
        wrote(old(out)@, final(out)@, r, text_opts(v.presentation, v.path_type, v.width)),
{
    let ghost o0 = out@;
    match v.presentation { Some(p) => { match put_u16(out, PRESENTATION, p) { Ok(()) => {}, Err(e) => { return Err(e); } } }, None => {} }
    match v.path_type { Some(t) => { match put_i16(out, PATHTYPE, t) { Ok(()) => {}, Err(e) => { return Err(e); } } }, None => {} }
    match v.width { Some(w) => { match put_i32(out, WIDTH, w) { Ok(()) => {}, Err(e) => { return Err(e); } } }, None => {} }
    assert(out@ =~= o0 + text_opts(v.presentation, v.path_type, v.width)->Ok_0);
    Ok(())
}

fn write_text_tail(out: &mut Vec<u8>, v: &super::gds::GdsText) -> (r: Result<(), LayoutError>)
    ensures
        wrote(old(out)@, final(out)@, r, cat(xy_rec(seq![v.origin], false), cat(ascii_rec(STRING, v.string@), meta_recs(v.meta.view())))),
{
    let ghost o0 = out@;
    let origin = vec![v.origin];
    assert(origin@ =~= seq![v.origin]);
    match put_points(out, &origin, false) { Ok(()) => {}, Err(e) => { return Err(e); } }
    match put_ascii(out, STRING, &v.string) { Ok(()) => {}, Err(e) => { return Err(e); } }
    match write_meta(out, &v.meta) { Ok(()) => {}, Err(e) => { return Err(e); } }
    assert(out@ =~= o0 + cat(xy_rec(seq![v.origin], false), cat(ascii_rec(STRING, v.string@), meta_recs(v.meta.view())))->Ok_0);
    Ok(())
}

fn write_text(out: &mut Vec<u8>, v: &super::gds::GdsText) -> (r: Result<(), LayoutError>)
    ensures
        wrote(old(out)@, final(out)@, r, text_body(v.layer, v.text_type, v.origin, v.string@, v.presentation, v.path_type,
            v.width, v.transform, v.meta.view())),
{
    proof {
        reveal(text_body);
    }
    let ghost o0 = out@;
    match write_head3(out, TEXT, v.layer, TEXTTYPE, v.text_type) { Ok(()) => {}, Err(e) => { return Err(e); } }
    match write_text_opts(out, v) { Ok(()) => {}, Err(e) => { return Err(e); } }
    match write_transform(out, v.transform) { Ok(()) => {}, Err(e) => { return Err(e); } }
    match write_text_tail(out, v) { Ok(()) => {}, Err(e) => { return Err(e); } }
    assert(out@ =~= o0 + text_body(v.layer, v.text_type, v.origin, v.string@, v.presentation, v.path_type,
        v.width, v.transform, v.meta.view())->Ok_0);
    Ok(())
}

fn write_sref(out: &mut Vec<u8>, v: &super::gds::GdsReference) -> (r: Result<(), LayoutError>)
    ensures
        wrote(old(out)@, final(out)@, r, sref_body(v.structure@, v.origin, v.transform, v.meta.view())),
{
    proof {
        reveal(sref_body);
    }
    let ghost o0 = out@;
    match put_none(out, SREF) { Ok(()) => {}, Err(e) => { return Err(e); } }
    match put_ascii(out, SNAME, &v.structure) { Ok(()) => {}, Err(e) => { return Err(e); } }
    match write_transform(out, v.transform) { Ok(()) => {}, Err(e) => { return Err(e); } }
    let origin = vec![v.origin];
    assert(origin@ =~= seq![v.origin]);
    match put_points(out, &origin, false) { Ok(()) => {}, Err(e) => { return Err(e); } }
    match write_meta(out, &v.meta) { Ok(()) => {}, Err(e) => { return Err(e); } }
    assert(out@ =~= o0 + sref_body(v.structure@, v.origin, v.transform, v.meta.view())->Ok_0);
    Ok(())
}

fn write_aref(out: &mut Vec<u8>, v: &GdsArrayReference) -> (r: Result<(), LayoutError>)
    ensures
        wrote(old(out)@, final(out)@, r, aref_body(v.structure@, v.columns, v.rows, v.origin, v.column_endpoint,
            v.row_endpoint, v.transform, v.meta.view())),
{
    proof {
        reveal(aref_body);
    }
    let ghost o0 = out@;
    match put_none(out, AREF) { Ok(()) => {}, Err(e) => { return Err(e); } }
    match put_ascii(out, SNAME, &v.structure) { Ok(()) => {}, Err(e) => { return Err(e); } }
    match write_transform(out, v.transform) { Ok(()) => {}, Err(e) => { return Err(e); } }
    let mut cr: Vec<u8> = Vec::new();
    push_i16(&mut cr, v.columns as i16);
    push_i16(&mut cr, v.rows as i16);
    assert(cr@ =~= i16_bytes(v.columns as i16 as int) + i16_bytes(v.rows as i16 as int));
    match put(out, COLROW, DT_I16, &cr) { Ok(()) => {}, Err(e) => { return Err(e); } }
    let pts = vec![v.origin, v.column_endpoint, v.row_endpoint];
    assert(pts@ =~= seq![v.origin, v.column_endpoint, v.row_endpoint]);
    match put_points(out, &pts, false) { Ok(()) => {}, Err(e) => { return Err(e); } }
    match write_meta(out, &v.meta) { Ok(()) => {}, Err(e) => { return Err(e); } }
    assert(out@ =~= o0 + aref_body(v.structure@, v.columns, v.rows, v.origin, v.column_endpoint,
        v.row_endpoint, v.transform, v.meta.view())->Ok_0);
    Ok(())
}

/// Writes one element and its ENDEL.
pub fn write_element(out: &mut Vec<u8>, element: &GdsElement) -> (r: Result<(), LayoutError>)
    ensures
        wrote(old(out)@, final(out)@, r, element_recs(element.view())),
{
    proof {
        reveal(element_body);
    }
    let ghost o0 = out@;
    let res = match element {
        GdsElement::Boundary(v) => write_boundary_like(out, BOUNDARY, DATATYPE, v.layer, v.datatype, &v.ring, &v.meta),
        GdsElement::Path(v) => write_path(out, v),
        GdsElement::Box(v) => write_boundary_like(out, BOX, BOXTYPE, v.layer, v.box_type, &v.ring, &v.meta),
        GdsElement::Text(v) => write_text(out, v),
        GdsElement::Node(v) => write_boundary_like_node(out, v),
        GdsElement::Sref(v) => write_sref(out, v),
        GdsElement::Aref(v) => write_aref(out, v),
        GdsElement::Unsupported(v) => {
            let ghost s0 = out@;
            match put(out, v.start_record.record_type, v.start_record.data_type, &v.start_record.payload) {
                Ok(()) => {
                    match put_raw(out, &v.records) {
                        Ok(()) => {
                            assert(out@ =~= s0 + element_body(element.view())->Ok_0);
                            Ok(())
                        },
                        Err(e) => Err(e),
                    }
                },
                Err(e) => Err(e),
            }
        },
    };
    match res {
        Ok(()) => {},
        Err(e) => {
            return Err(e);
        },
    }
    let ghost o1 = out@;
    match put_none(out, ENDEL) { Ok(()) => {}, Err(e) => { return Err(e); } }
    assert(out@ =~= o0 + element_recs(element.view())->Ok_0);
    Ok(())
}

fn write_boundary_like_node(out: &mut Vec<u8>, v: &super::gds::GdsNode) -> (r: Result<(), LayoutError>)
    ensures
        wrote(old(out)@, final(out)@, r, cat(head3(NODE, v.layer, NODETYPE, v.node_type),
            cat(xy_rec(v.points@, false), meta_recs(v.meta.view())))),
{
    let ghost o0 = out@;
    match write_head3(out, NODE, v.layer, NODETYPE, v.node_type) { Ok(()) => {}, Err(e) => { return Err(e); } }
    match put_points(out, &v.points, false) { Ok(()) => {}, Err(e) => { return Err(e); } }
    match write_meta(out, &v.meta) { Ok(()) => {}, Err(e) => { return Err(e); } }
    assert(out@ =~= o0 + cat(head3(NODE, v.layer, NODETYPE, v.node_type),
        cat(xy_rec(v.points@, false), meta_recs(v.meta.view())))->Ok_0);
    Ok(())
}

fn write_elements(out: &mut Vec<u8>, elements: &Vec<GdsElement>) -> (r: Result<(), LayoutError>)
    ensures
        wrote(old(out)@, final(out)@, r, elements_recs(elements_view(elements@))),
{
    let ghost es = elements_view(elements@);
    let ghost mut acc: Seq<u8> = Seq::empty();
    let mut k: usize = 0;
    while k < elements.len()
        invariant
            k <= elements@.len(),
            es == elements_view(elements@),
            out@ == old(out)@ + acc,
            elements_recs(es.take(k as int)) == Ok::<Seq<u8>, LayoutErrorKind>(acc),
        decreases elements@.len() - k,
    {
        proof {
            assert(es.take(k as int + 1).drop_last() =~= es.take(k as int));
            assert(es.take(k as int + 1).last() == elements@[k as int].view());
        }
        match write_element(out, &elements[k]) {
            Ok(()) => {},
            Err(e) => {
                proof { lemma_elements_recs_err(es, k as int + 1, es.len() as int); assert(es.take(es.len() as int) =~= es); }
                return Err(e);
            },
        }
        proof {
            acc = acc + element_recs(elements@[k as int].view())->Ok_0;
            assert(out@ =~= old(out)@ + acc);
        }
        k = k + 1;
    }
    assert(es.take(elements@.len() as int) =~= es);
    Ok(())
}

fn write_structure(out: &mut Vec<u8>, st: &GdsStructure) -> (r: Result<(), LayoutError>)
    ensures
        wrote(old(out)@, final(out)@, r, structure_recs(st.view())),
{
    proof {
        reveal(structure_recs);
    }
    let ghost o0 = out@;
    match put_timestamps(out, BGNSTR, &st.timestamps) { Ok(()) => {}, Err(e) => { return Err(e); } }
    match put_ascii(out, STRNAME, &st.name) { Ok(()) => {}, Err(e) => { return Err(e); } }
    match put_raw(out, &st.unhandled_records) { Ok(()) => {}, Err(e) => { return Err(e); } }
    match write_elements(out, &st.elements) { Ok(()) => {}, Err(e) => { return Err(e); } }
    match put_none(out, ENDSTR) { Ok(()) => {}, Err(e) => { return Err(e); } }
    assert(out@ =~= o0 + structure_recs(st.view())->Ok_0);
    Ok(())
}

fn write_structures(out: &mut Vec<u8>, sts: &Vec<GdsStructure>) -> (r: Result<(), LayoutError>)
    ensures
        wrote(old(out)@, final(out)@, r, structures_recs(structures_view(sts@))),
{
    let ghost ss = structures_view(sts@);
    let ghost mut acc: Seq<u8> = Seq::empty();
    let mut k: usize = 0;
    while k < sts.len()
        invariant
            k <= sts@.len(),
            ss == structures_view(sts@),
            out@ == old(out)@ + acc,
            structures_recs(ss.take(k as int)) == Ok::<Seq<u8>, LayoutErrorKind>(acc),
        decreases sts@.len() - k,
    {
        proof {
            assert(ss.take(k as int + 1).drop_last() =~= ss.take(k as int));
            assert(ss.take(k as int + 1).last() == sts@[k as int].view());
        }
        match write_structure(out, &sts[k]) {
            Ok(()) => {},
            Err(e) => {
                proof { lemma_structures_recs_err(ss, k as int + 1, ss.len() as int); assert(ss.take(ss.len() as int) =~= ss); }
                return Err(e);
            },
        }
        proof {
            acc = acc + structure_recs(sts@[k as int].view())->Ok_0;
            assert(out@ =~= old(out)@ + acc);
        }
        k = k + 1;
    }
    assert(ss.take(sts@.len() as int) =~= ss);
    Ok(())
}

/// Serialises a library (see `library_recs`): always the complete
/// envelope, whatever the library read on input had.
pub fn write_gds_library(library: &GdsLibrary) -> (r: Result<Vec<u8>, LayoutError>)
    ensures
        match library_recs(library.view()) {
            Ok(b) => r matches Ok(v) && v@ == b,
            Err(k) => r matches Err(e) && e.kind == k,
        },
{
    let mut out: Vec<u8> = Vec::new();
    let ghost o0 = out@;
    match put_i16(&mut out, HEADER, library.version) { Ok(()) => {}, Err(e) => { return Err(e); } }
    match put_timestamps(&mut out, BGNLIB, &library.timestamps) { Ok(()) => {}, Err(e) => { return Err(e); } }
    match put_ascii(&mut out, LIBNAME, &library.name) { Ok(()) => {}, Err(e) => { return Err(e); } }
    let mut units: Vec<u8> = Vec::new();
    push_u64(&mut units, library.units.user_units_per_database_unit);
    push_u64(&mut units, library.units.meters_per_database_unit);
    assert(units@ =~= u64_bytes(library.units.user_units_per_database_unit as int) + u64_bytes(library.units.meters_per_database_unit as int));
    match put(&mut out, UNITS, DT_REAL8, &units) { Ok(()) => {}, Err(e) => { return Err(e); } }
    match put_raw(&mut out, &library.unhandled_records) { Ok(()) => {}, Err(e) => { return Err(e); } }
    match write_structures(&mut out, &library.structures) { Ok(()) => {}, Err(e) => { return Err(e); } }
    match put_none(&mut out, ENDLIB) { Ok(()) => {}, Err(e) => { return Err(e); } }
    assert(out@ =~= o0 + library_recs(library.view())->Ok_0);
    Ok(out)
}

} // verus!
