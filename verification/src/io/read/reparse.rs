//! The reader's view of the writer's records: element by element, structure
//! by structure, the parse gives back the value that was written.
use vstd::prelude::*;
use crate::geometry::{ring_valid, Point};
use super::element::{closed_ring_of, ring_kind_name};
use super::gds::{
    be16, be_i16, be_i32, be_u64, points_of, RecordSpec, GdsTransform, strans_bits, LayoutErrorKind, AREF, BGNEXTN,
    BOUNDARY, BOX, BOXTYPE, COLROW, DATATYPE, DT_ASCII, DT_BIT_ARRAY, DT_I16, DT_I32, DT_NONE, DT_REAL8, ELFLAGS, ENDEL,
    ENDEXTN, LAYER, MAG, ANGLE, NODE, NODETYPE, PATH, PATHTYPE, PLEX, PRESENTATION, PROPATTR, PROPVALUE, SNAME, SREF,
    STRANS, STRING, TEXT, TEXTNODE, TEXTTYPE, WIDTH, XY,
};
use super::element::{
    apply_record, ascii_of, build_spec, collect_fields, element_spec, empty_fields, axis_rect, ElementV, Fault, FieldsV,
    MetaV, PropertyV, real8_positive,
};
use super::writer::{i16_bytes, i32_bytes, points_bytes, text_bytes, u16_bytes, u64_bytes};
use super::round_trip::{
    lemma_i16_bytes, lemma_i32_bytes, lemma_u16_bytes, lemma_u64_bytes, lemma_points_bytes,
    lemma_text_bytes, text_ok, Rec3, props_list, meta_list, opt_list, closed, xy_list, head3_list, boundary_list,
    body_list, element_list, typed, meta_of, path_opts_list, text_opts_list, transform_list, path_list, text_list,
    sref_list, aref_list, colrow_bytes, elements_list, structure_list, structures_list, library_list, envelope_list,
    units_bytes, lemma_timestamps, lemma_gives_library, lemma_shaped_structures, lemma_place, lemma_shaped_cat,
    lemma_decode_list, lemma_text_len, shaped3, typed_library, typed_structure, place, enc_list, sized,
};
use super::library::read_spec;
use super::writer::library_recs;
use super::library::{
    structure_items, structure_spec, library_items, envelope_spec, library_spec, names_of_structures, StructureV,
    LibraryV, EnvelopeV,
};
use super::gds::{BGNSTR, STRNAME, ENDSTR, ENDLIB, HEADER, BGNLIB, LIBNAME, UNITS, timestamps_of, GdsEnvelope, GdsUnits};

verus! {

/// The records `rs` from `i` on have the types, data types and payloads of `l`.
pub open spec fn at(rs: Seq<RecordSpec>, i: int, l: Seq<Rec3>) -> bool {
    &&& 0 <= i
    &&& i + l.len() <= rs.len()
    &&& forall|k: int| 0 <= k < l.len() ==> (#[trigger] rs[i + k]).ty == l[k].0 && rs[i + k].dt == l[k].1 && rs[i + k].payload == l[k].2
}

proof fn lemma_at_split(rs: Seq<RecordSpec>, i: int, a: Seq<Rec3>, b: Seq<Rec3>)
    requires
        at(rs, i, a + b),
    ensures
        at(rs, i, a),
        at(rs, i + a.len(), b),
{
    assert forall|k: int| 0 <= k < a.len() implies (#[trigger] rs[i + k]).ty == a[k].0 && rs[i + k].dt == a[k].1 && rs[i + k].payload == a[k].2 by {
        assert((a + b)[k] == a[k]);
    }
    assert forall|k: int| 0 <= k < b.len() implies (#[trigger] rs[i + a.len() + k]).ty == b[k].0 && rs[i + a.len() + k].dt == b[k].1
        && rs[i + a.len() + k].payload == b[k].2 by {
        assert((a + b)[a.len() + k] == b[k]);
        assert(rs[i + (a.len() + k)] == rs[i + a.len() + k]);
    }
}

/// No ENDEL among the records from `j` up to `k`.
pub open spec fn no_endel(rs: Seq<RecordSpec>, j: int, k: int) -> bool {
    forall|q: int| j <= q < k ==> (#[trigger] rs[q]).ty != ENDEL
}

/// The attributes after applying the records from `j` up to `k`.
pub open spec fn apply_range(f: FieldsV, rs: Seq<RecordSpec>, j: int, k: int) -> Result<FieldsV, Fault>
    decreases k - j,
{
    if j >= k {
        Ok(f)
    } else {
        match apply_record(f, rs[j]) {
            Err(e) => Err(e),
            Ok(g) => apply_range(g, rs, j + 1, k),
        }
    }
}

proof fn lemma_collect_range(rs: Seq<RecordSpec>, j: int, k: int, f: FieldsV, s: int)
    requires
        0 <= j <= k <= rs.len(),
        forall|m: int| j <= m < k ==> (#[trigger] rs[m]).ty != ENDEL,
    ensures
        collect_fields(rs, j, f, s) == (match apply_range(f, rs, j, k) {
            Ok(g) => collect_fields(rs, k, g, s),
            Err(e) => Err(e),
        }),
    decreases k - j,
{
    if j < k {
        match apply_record(f, rs[j]) {
            Ok(g) => lemma_collect_range(rs, j + 1, k, g, s),
            Err(_) => {},
        }
    }
}

proof fn lemma_apply_range_split(f: FieldsV, rs: Seq<RecordSpec>, j: int, m: int, k: int)
    requires
        j <= m <= k,
    ensures
        apply_range(f, rs, j, k) == (match apply_range(f, rs, j, m) {
            Ok(g) => apply_range(g, rs, m, k),
            Err(e) => Err(e),
        }),
    decreases m - j,
{
    if j < m {
        match apply_record(f, rs[j]) {
            Ok(g) => lemma_apply_range_split(g, rs, j + 1, m, k),
            Err(_) => {},
        }
    }
}

proof fn lemma_props_len(ps: Seq<PropertyV>)
    ensures
        props_list(ps).len() == 2 * ps.len(),
    decreases ps.len(),
{
    if ps.len() > 0 {
        lemma_props_len(ps.drop_last());
    }
}

/// Property values that read back as written.
pub open spec fn props_ok(ps: Seq<PropertyV>) -> bool {
    forall|i: int| 0 <= i < ps.len() ==> text_ok(#[trigger] ps[i].value)
}

proof fn lemma_apply_props(f: FieldsV, rs: Seq<RecordSpec>, j: int, ps: Seq<PropertyV>)
    requires
        at(rs, j, props_list(ps)),
        f.pending is None,
        props_ok(ps),
    ensures
        apply_range(f, rs, j, j + 2 * ps.len())
            == Ok::<FieldsV, Fault>(FieldsV { meta: MetaV { properties: f.meta.properties + ps, ..f.meta }, ..f }),
        no_endel(rs, j, j + 2 * ps.len()),
    decreases ps.len(),
{
    lemma_props_len(ps);
    if ps.len() == 0 {
        assert(f.meta.properties + ps =~= f.meta.properties);
        assert(FieldsV { meta: MetaV { properties: f.meta.properties + ps, ..f.meta }, ..f } == f);
    } else {
        let q = ps.drop_last();
        let last = ps.last();
        lemma_props_len(q);
        let pair = seq![(PROPATTR, DT_I16, i16_bytes(last.attribute as int)), (PROPVALUE, DT_ASCII, text_bytes(last.value))];
        lemma_at_split(rs, j, props_list(q), pair);
        assert forall|i: int| 0 <= i < q.len() implies text_ok(#[trigger] q[i].value) by {
            assert(q[i] == ps[i]);
        }
        lemma_apply_props(f, rs, j, q);
        let m = j + 2 * q.len();
        lemma_apply_range_split(f, rs, j, m, j + 2 * ps.len());
        let g = FieldsV { meta: MetaV { properties: f.meta.properties + q, ..f.meta }, ..f };
        let ra = rs[m];
        let rv = rs[m + 1];
        assert(rs[m + 0] == ra);
        assert(ra.ty == PROPATTR && ra.payload == i16_bytes(last.attribute as int));
        assert(rv.ty == PROPVALUE && rv.payload == text_bytes(last.value));
        lemma_i16_bytes(last.attribute as int);
        assert(text_ok(last.value));
        lemma_text_bytes(last.value);
        let g1 = FieldsV { pending: Some((last.attribute, ra.offset)), ..g };
        assert(apply_record(g, ra) == Ok::<FieldsV, Fault>(g1));
        assert(ascii_of(rv) == Ok::<Seq<char>, Fault>(last.value));
        let g2 = FieldsV { pending: None, meta: MetaV { properties: g.meta.properties.push(PropertyV { attribute: last.attribute, value: last.value }), ..g.meta }, ..g };
        assert(apply_record(g1, rv) == Ok::<FieldsV, Fault>(g2));
        assert(apply_range(g2, rs, m + 2, m + 2) == Ok::<FieldsV, Fault>(g2));
        assert(apply_range(g1, rs, m + 1, m + 2) == Ok::<FieldsV, Fault>(g2));
        assert(apply_range(g, rs, m, m + 2) == Ok::<FieldsV, Fault>(g2));
        assert(PropertyV { attribute: last.attribute, value: last.value } == last);
        assert(f.meta.properties + q + seq![last] =~= f.meta.properties + ps) by {
            assert(q.push(last) =~= ps);
        }
        assert(g2 == FieldsV { meta: MetaV { properties: f.meta.properties + ps, ..f.meta }, ..f });
        assert forall|q: int| j <= q < j + 2 * ps.len() implies (#[trigger] rs[q]).ty != ENDEL by {
            if q >= m {
                assert(q == m || q == m + 1);
            }
        }
    }
}

pub open spec fn meta_len(m: MetaV) -> int {
    (if m.element_flags is Some { 1int } else { 0 }) + (if m.plex is Some { 1int } else { 0 }) + 2 * m.properties.len()
}

/// Attributes before any metadata record.
pub open spec fn bare_meta(f: FieldsV) -> bool {
    &&& f.meta.properties.len() == 0
    &&& f.meta.element_flags is None
    &&& f.meta.plex is None
    &&& f.meta.unhandled.len() == 0
    &&& f.pending is None
}

proof fn lemma_apply_meta(f: FieldsV, rs: Seq<RecordSpec>, j: int, m: MetaV)
    requires
        at(rs, j, meta_list(m)),
        bare_meta(f),
        props_ok(m.properties),
        m.unhandled.len() == 0,
    ensures
        meta_list(m).len() == meta_len(m),
        apply_range(f, rs, j, j + meta_len(m)) == Ok::<FieldsV, Fault>(FieldsV { meta: m, ..f }),
        no_endel(rs, j, j + meta_len(m)),
{
    lemma_props_len(m.properties);
    let a = opt_list(m.element_flags, seq![(ELFLAGS, DT_BIT_ARRAY, u16_bytes(m.element_flags->0 as int))]);
    let b = opt_list(m.plex, seq![(PLEX, DT_I32, i32_bytes(m.plex->0 as int))]);
    let c = props_list(m.properties);
    lemma_at_split(rs, j, a, b + c);
    lemma_at_split(rs, j + a.len(), b, c);
    let j1 = j + a.len();
    let j2 = j1 + b.len();
    lemma_apply_range_split(f, rs, j, j1, j + meta_len(m));
    let f1 = FieldsV { meta: MetaV { element_flags: m.element_flags, ..f.meta }, ..f };
    if m.element_flags is Some {
        lemma_u16_bytes(m.element_flags->0 as int);
        assert(rs[j + 0].ty == ELFLAGS && rs[j + 0].payload == u16_bytes(m.element_flags->0 as int));
        assert(apply_record(f, rs[j]) == Ok::<FieldsV, Fault>(f1));
        assert(apply_range(f1, rs, j + 1, j1) == Ok::<FieldsV, Fault>(f1));
    } else {
        assert(f1 == f);
    }
    assert(apply_range(f, rs, j, j1) == Ok::<FieldsV, Fault>(f1));
    lemma_apply_range_split(f1, rs, j1, j2, j + meta_len(m));
    let f2 = FieldsV { meta: MetaV { plex: m.plex, ..f1.meta }, ..f1 };
    if m.plex is Some {
        lemma_i32_bytes(m.plex->0 as int);
        assert(rs[j1 + 0].ty == PLEX && rs[j1 + 0].payload == i32_bytes(m.plex->0 as int));
        assert(apply_record(f1, rs[j1]) == Ok::<FieldsV, Fault>(f2));
        assert(apply_range(f2, rs, j1 + 1, j2) == Ok::<FieldsV, Fault>(f2));
    } else {
        assert(f2 == f1);
    }
    assert(apply_range(f1, rs, j1, j2) == Ok::<FieldsV, Fault>(f2));
    lemma_apply_props(f2, rs, j2, m.properties);
    assert(f2.meta.properties + m.properties =~= m.properties);
    assert(MetaV { properties: f2.meta.properties + m.properties, ..f2.meta } == m);
    assert forall|q: int| j <= q < j + meta_len(m) implies (#[trigger] rs[q]).ty != ENDEL by {
        if q < j1 {
            assert(rs[j + 0].ty == ELFLAGS);
        } else if q < j2 {
            assert(rs[j1 + 0].ty == PLEX);
        }
    }
}

pub open spec fn meta_ok(m: MetaV) -> bool {
    props_ok(m.properties) && m.unhandled.len() == 0
}

/// Collecting from `j` with the records up to `k` free of ENDEL and an
/// ENDEL at `k` gives the attributes applied over the range.
proof fn lemma_collect_to_endel(rs: Seq<RecordSpec>, j: int, k: int, f: FieldsV, g: FieldsV, s: int)
    requires
        0 <= j <= k < rs.len(),
        no_endel(rs, j, k),
        rs[k].ty == ENDEL,
        apply_range(f, rs, j, k) == Ok::<FieldsV, Fault>(g),
    ensures
        collect_fields(rs, j, f, s) == Ok::<(FieldsV, int), Fault>((g, k + 1)),
{
    lemma_collect_range(rs, j, k, f, s);
}

/// The XY record of `ps` (closed or not) read into empty attributes after
/// LAYER and the type record.
proof fn lemma_head_xy(rs: Seq<RecordSpec>, i: int, ty: u8, layer: i16, tty: u8, t: i16, ps: Seq<Point>, close: bool)
    requires
        at(rs, i, head3_list(ty, layer, tty, t) + xy_list(ps, close)),
        tty == DATATYPE || tty == BOXTYPE || tty == TEXTTYPE || tty == NODETYPE,
    ensures
        no_endel(rs, i + 1, i + 4),
        apply_range(empty_fields(), rs, i + 1, i + 4) == Ok::<FieldsV, Fault>(FieldsV {
            layer: Some((layer, rs[i + 1].offset)),
            datatype: Some((t, rs[i + 2].offset)),
            xy: Some((closed(ps, close), rs[i + 3].offset)),
            ..empty_fields()
        }),
{
    let h = head3_list(ty, layer, tty, t);
    assert(rs[i + 1] == rs[i + 1]);
    assert(rs[i + 1].ty == h[1].0 && rs[i + 1].payload == h[1].2);
    assert(rs[i + 2].ty == h[2].0 && rs[i + 2].payload == h[2].2);
    assert((h + xy_list(ps, close))[3] == xy_list(ps, close)[0]);
    assert(rs[i + 3].ty == XY && rs[i + 3].payload == points_bytes(closed(ps, close)));
    lemma_i16_bytes(layer as int);
    lemma_i16_bytes(t as int);
    lemma_points_bytes(closed(ps, close));
    let f1 = FieldsV { layer: Some((layer, rs[i + 1].offset)), ..empty_fields() };
    let f2 = FieldsV { datatype: Some((t, rs[i + 2].offset)), ..f1 };
    let f3 = FieldsV { xy: Some((closed(ps, close), rs[i + 3].offset)), ..f2 };
    assert(apply_record(empty_fields(), rs[i + 1]) == Ok::<FieldsV, Fault>(f1));
    assert(apply_record(f1, rs[i + 2]) == Ok::<FieldsV, Fault>(f2));
    assert(apply_record(f2, rs[i + 3]) == Ok::<FieldsV, Fault>(f3));
    assert(apply_range(f3, rs, i + 4, i + 4) == Ok::<FieldsV, Fault>(f3));
    assert(apply_range(f2, rs, i + 3, i + 4) == Ok::<FieldsV, Fault>(f3));
    assert(apply_range(f1, rs, i + 2, i + 4) == Ok::<FieldsV, Fault>(f3));
    assert(f3 == FieldsV {
        layer: Some((layer, rs[i + 1].offset)),
        datatype: Some((t, rs[i + 2].offset)),
        xy: Some((closed(ps, close), rs[i + 3].offset)),
        ..empty_fields()
    });
}

proof fn lemma_build_boundary(start: RecordSpec, f: FieldsV, ty: u8, layer: i16, datatype: i16, ring: Seq<Point>, meta: MetaV, o1: int, o2: int, o3: int)
    requires
        start.ty == ty,
        ty == BOUNDARY || ty == BOX,
        f == (FieldsV {
            layer: Some((layer, o1)),
            datatype: Some((datatype, o2)),
            xy: Some((closed(ring, true), o3)),
            meta: meta,
            ..empty_fields()
        }),
        ring_valid(ring),
        ty == BOX ==> axis_rect(ring),
    ensures
        build_spec(start, f, true) == Ok::<ElementV, Fault>(
            if ty == BOUNDARY { ElementV::Boundary { layer, datatype, ring, meta } } else { ElementV::Box { layer, box_type: datatype, ring, meta } }),
{
    let pts = closed(ring, true);
    assert(ring.len() >= 3) by {
        reveal(ring_valid);
    }
    assert(ty == BOX ==> ring.len() == 4) by {
        reveal(axis_rect);
    }
    assert(pts.drop_last() =~= ring);
    assert(pts[0] == pts.last());
    assert(closed_ring_of(pts, o3, true, ring_kind_name(ty)) == Ok::<Seq<Point>, Fault>(ring));
    let e = if ty == BOUNDARY { ElementV::Boundary { layer, datatype, ring, meta } } else { ElementV::Box { layer, box_type: datatype, ring, meta } };
    assert(super::element::ring_element_spec(start, f, true) == Ok::<ElementV, Fault>(e)) by {
        reveal(super::element::ring_element_spec);
    }
    assert(!super::element::invalid_fields(ty, f));
}

/// The element at `i` reads as `e` and ends before `next`, given the
/// attributes gathered up to its ENDEL.
proof fn lemma_element_from_fields(rs: Seq<RecordSpec>, i: int, end: int, f: FieldsV, e: ElementV)
    requires
        0 <= i < end < rs.len(),
        rs[i].ty != TEXTNODE,
        collect_fields(rs, i + 1, empty_fields(), rs[i].offset) == Ok::<(FieldsV, int), Fault>((f, end + 1)),
        f.pending is None,
        build_spec(rs[i], f, true) == Ok::<ElementV, Fault>(e),
    ensures
        element_spec(rs, i, true) == Ok::<(ElementV, int), Fault>((e, end + 1)),
{
}

/// A BOUNDARY or BOX written by the writer reads back (strict mode).
proof fn lemma_reparse_boundary(rs: Seq<RecordSpec>, i: int, ty: u8, tty: u8, layer: i16, datatype: i16, ring: Seq<Point>, meta: MetaV)
    requires
        (ty == BOUNDARY && tty == DATATYPE) || (ty == BOX && tty == BOXTYPE),
        at(rs, i, boundary_list(ty, tty, layer, datatype, ring, meta) + seq![(ENDEL, DT_NONE, Seq::<u8>::empty())]),
        ring_valid(ring),
        ty == BOX ==> axis_rect(ring),
        meta_ok(meta),
    ensures
        element_spec(rs, i, true) == Ok::<(ElementV, int), Fault>((
            if ty == BOUNDARY { ElementV::Boundary { layer, datatype, ring, meta } } else { ElementV::Box { layer, box_type: datatype, ring, meta } },
            i + boundary_list(ty, tty, layer, datatype, ring, meta).len() + 1)),
{
    let h = head3_list(ty, layer, tty, datatype);
    let x = xy_list(ring, true);
    let ml = meta_list(meta);
    let body = boundary_list(ty, tty, layer, datatype, ring, meta);
    let endel = seq![(ENDEL, DT_NONE, Seq::<u8>::empty())];
    lemma_at_split(rs, i, body, endel);
    assert(body == (h + x) + ml);
    lemma_at_split(rs, i, h + x, ml);
    lemma_head_xy(rs, i, ty, layer, tty, datatype, ring, true);
    let f3 = FieldsV {
        layer: Some((layer, rs[i + 1].offset)),
        datatype: Some((datatype, rs[i + 2].offset)),
        xy: Some((closed(ring, true), rs[i + 3].offset)),
        ..empty_fields()
    };
    lemma_apply_meta(f3, rs, i + 4, meta);
    let end = i + 4 + meta_len(meta);
    lemma_apply_range_split(empty_fields(), rs, i + 1, i + 4, end);
    let f4 = FieldsV { meta: meta, ..f3 };
    assert(rs[i + body.len() + 0].ty == ENDEL);
    assert(body.len() == 4 + meta_len(meta));
    assert forall|q: int| i + 1 <= q < end implies (#[trigger] rs[q]).ty != ENDEL by {
        if q < i + 4 {
            assert(no_endel(rs, i + 1, i + 4));
        } else {
            assert(no_endel(rs, i + 4, end));
        }
    }
    lemma_collect_to_endel(rs, i + 1, end, empty_fields(), f4, rs[i].offset);
    assert(rs[i].ty == ty) by {
        assert(rs[i + 0].ty == body[0].0);
    }
    lemma_build_boundary(rs[i], f4, ty, layer, datatype, ring, meta, rs[i + 1].offset, rs[i + 2].offset, rs[i + 3].offset);
    lemma_element_from_fields(rs, i, end, f4,
        if ty == BOUNDARY { ElementV::Boundary { layer, datatype, ring, meta } } else { ElementV::Box { layer, box_type: datatype, ring, meta } });
}

proof fn lemma_chain(f: FieldsV, rs: Seq<RecordSpec>, j: int, m: int, k: int, g: FieldsV, h: FieldsV)
    requires
        j <= m <= k,
        apply_range(f, rs, j, m) == Ok::<FieldsV, Fault>(g),
        apply_range(g, rs, m, k) == Ok::<FieldsV, Fault>(h),
        no_endel(rs, j, m),
        no_endel(rs, m, k),
    ensures
        apply_range(f, rs, j, k) == Ok::<FieldsV, Fault>(h),
        no_endel(rs, j, k),
{
    lemma_apply_range_split(f, rs, j, m, k);
    assert forall|q: int| j <= q < k implies (#[trigger] rs[q]).ty != ENDEL by {
        if q < m {
            assert(no_endel(rs, j, m));
        } else {
            assert(no_endel(rs, m, k));
        }
    }
}

proof fn lemma_one(f: FieldsV, rs: Seq<RecordSpec>, j: int, g: FieldsV)
    requires
        0 <= j < rs.len(),
        rs[j].ty != ENDEL,
        apply_record(f, rs[j]) == Ok::<FieldsV, Fault>(g),
    ensures
        apply_range(f, rs, j, j + 1) == Ok::<FieldsV, Fault>(g),
        no_endel(rs, j, j + 1),
{
    assert(apply_range(g, rs, j + 1, j + 1) == Ok::<FieldsV, Fault>(g));
}

proof fn lemma_none(f: FieldsV, rs: Seq<RecordSpec>, j: int)
    ensures
        apply_range(f, rs, j, j) == Ok::<FieldsV, Fault>(f),
        no_endel(rs, j, j),
{
}

proof fn lemma_head(rs: Seq<RecordSpec>, i: int, ty: u8, layer: i16, tty: u8, t: i16)
    requires
        at(rs, i, head3_list(ty, layer, tty, t)),
        tty == DATATYPE || tty == BOXTYPE || tty == TEXTTYPE || tty == NODETYPE,
    ensures
        no_endel(rs, i + 1, i + 3),
        apply_range(empty_fields(), rs, i + 1, i + 3) == Ok::<FieldsV, Fault>(FieldsV {
            layer: Some((layer, rs[i + 1].offset)),
            datatype: Some((t, rs[i + 2].offset)),
            ..empty_fields()
        }),
{
    let h = head3_list(ty, layer, tty, t);
    assert(rs[i + 1].ty == h[1].0 && rs[i + 1].payload == h[1].2);
    assert(rs[i + 2].ty == h[2].0 && rs[i + 2].payload == h[2].2);
    lemma_i16_bytes(layer as int);
    lemma_i16_bytes(t as int);
    let f1 = FieldsV { layer: Some((layer, rs[i + 1].offset)), ..empty_fields() };
    let f2 = FieldsV { datatype: Some((t, rs[i + 2].offset)), ..f1 };
    lemma_one(empty_fields(), rs, i + 1, f1);
    lemma_one(f1, rs, i + 2, f2);
    lemma_chain(empty_fields(), rs, i + 1, i + 2, i + 3, f1, f2);
}

proof fn lemma_xy(f: FieldsV, rs: Seq<RecordSpec>, j: int, ps: Seq<Point>, close: bool)
    requires
        at(rs, j, xy_list(ps, close)),
        f.xy is None,
    ensures
        no_endel(rs, j, j + 1),
        apply_range(f, rs, j, j + 1) == Ok::<FieldsV, Fault>(FieldsV { xy: Some((closed(ps, close), rs[j].offset)), ..f }),
{
    assert(rs[j + 0].ty == XY && rs[j + 0].payload == points_bytes(closed(ps, close)));
    lemma_points_bytes(closed(ps, close));
    lemma_one(f, rs, j, FieldsV { xy: Some((closed(ps, close), rs[j].offset)), ..f });
}

pub open spec fn opt_count<T>(o: Option<T>) -> int {
    if o is Some { 1 } else { 0 }
}

proof fn lemma_opt_pathtype(f: FieldsV, rs: Seq<RecordSpec>, j: int, o: Option<i16>)
    requires
        at(rs, j, opt_list(o, seq![(PATHTYPE, DT_I16, i16_bytes(o->0 as int))])),
        f.path_type is None,
    ensures
        no_endel(rs, j, j + opt_count(o)),
        apply_range(f, rs, j, j + opt_count(o)) == Ok::<FieldsV, Fault>(FieldsV { path_type: o, ..f }),
{
    if o is Some {
        lemma_i16_bytes(o->0 as int);
        assert(rs[j + 0].ty == PATHTYPE && rs[j + 0].payload == i16_bytes(o->0 as int));
        lemma_one(f, rs, j, FieldsV { path_type: o, ..f });
    } else {
        lemma_none(f, rs, j);
    }
}

proof fn lemma_opt_width(f: FieldsV, rs: Seq<RecordSpec>, j: int, o: Option<i32>)
    requires
        at(rs, j, opt_list(o, seq![(WIDTH, DT_I32, i32_bytes(o->0 as int))])),
        f.width is None,
    ensures
        no_endel(rs, j, j + opt_count(o)),
        apply_range(f, rs, j, j + opt_count(o)) == Ok::<FieldsV, Fault>(FieldsV { width: o, ..f }),
{
    if o is Some {
        lemma_i32_bytes(o->0 as int);
        assert(rs[j + 0].ty == WIDTH && rs[j + 0].payload == i32_bytes(o->0 as int));
        lemma_one(f, rs, j, FieldsV { width: o, ..f });
    } else {
        lemma_none(f, rs, j);
    }
}

proof fn lemma_opt_begin(f: FieldsV, rs: Seq<RecordSpec>, j: int, o: Option<i32>)
    requires
        at(rs, j, opt_list(o, seq![(BGNEXTN, DT_I32, i32_bytes(o->0 as int))])),
        f.begin_extension is None,
    ensures
        no_endel(rs, j, j + opt_count(o)),
        apply_range(f, rs, j, j + opt_count(o)) == Ok::<FieldsV, Fault>(FieldsV { begin_extension: o, ..f }),
{
    if o is Some {
        lemma_i32_bytes(o->0 as int);
        assert(rs[j + 0].ty == BGNEXTN && rs[j + 0].payload == i32_bytes(o->0 as int));
        lemma_one(f, rs, j, FieldsV { begin_extension: o, ..f });
    } else {
        lemma_none(f, rs, j);
    }
}

proof fn lemma_opt_end(f: FieldsV, rs: Seq<RecordSpec>, j: int, o: Option<i32>)
    requires
        at(rs, j, opt_list(o, seq![(ENDEXTN, DT_I32, i32_bytes(o->0 as int))])),
        f.end_extension is None,
    ensures
        no_endel(rs, j, j + opt_count(o)),
        apply_range(f, rs, j, j + opt_count(o)) == Ok::<FieldsV, Fault>(FieldsV { end_extension: o, ..f }),
{
    if o is Some {
        lemma_i32_bytes(o->0 as int);
        assert(rs[j + 0].ty == ENDEXTN && rs[j + 0].payload == i32_bytes(o->0 as int));
        lemma_one(f, rs, j, FieldsV { end_extension: o, ..f });
    } else {
        lemma_none(f, rs, j);
    }
}

proof fn lemma_opt_presentation(f: FieldsV, rs: Seq<RecordSpec>, j: int, o: Option<u16>)
    requires
        at(rs, j, opt_list(o, seq![(PRESENTATION, DT_BIT_ARRAY, u16_bytes(o->0 as int))])),
        f.presentation is None,
    ensures
        no_endel(rs, j, j + opt_count(o)),
        apply_range(f, rs, j, j + opt_count(o)) == Ok::<FieldsV, Fault>(FieldsV { presentation: o, ..f }),
{
    if o is Some {
        lemma_u16_bytes(o->0 as int);
        assert(rs[j + 0].ty == PRESENTATION && rs[j + 0].payload == u16_bytes(o->0 as int));
        lemma_one(f, rs, j, FieldsV { presentation: o, ..f });
    } else {
        lemma_none(f, rs, j);
    }
}

proof fn lemma_path_opts(f: FieldsV, rs: Seq<RecordSpec>, j: int, path_type: Option<i16>, width: Option<i32>,
    begin_extension: Option<i32>, end_extension: Option<i32>)
    requires
        at(rs, j, path_opts_list(path_type, width, begin_extension, end_extension)),
        f.path_type is None && f.width is None && f.begin_extension is None && f.end_extension is None,
    ensures
        path_opts_list(path_type, width, begin_extension, end_extension).len()
            == opt_count(path_type) + opt_count(width) + opt_count(begin_extension) + opt_count(end_extension),
        no_endel(rs, j, j + path_opts_list(path_type, width, begin_extension, end_extension).len()),
        apply_range(f, rs, j, j + path_opts_list(path_type, width, begin_extension, end_extension).len())
            == Ok::<FieldsV, Fault>(FieldsV { path_type, width, begin_extension, end_extension, ..f }),
{
    let a = opt_list(path_type, seq![(PATHTYPE, DT_I16, i16_bytes(path_type->0 as int))]);
    let b = opt_list(width, seq![(WIDTH, DT_I32, i32_bytes(width->0 as int))]);
    let c = opt_list(begin_extension, seq![(BGNEXTN, DT_I32, i32_bytes(begin_extension->0 as int))]);
    let d = opt_list(end_extension, seq![(ENDEXTN, DT_I32, i32_bytes(end_extension->0 as int))]);
    lemma_at_split(rs, j, a, b + (c + d));
    lemma_at_split(rs, j + a.len(), b, c + d);
    lemma_at_split(rs, j + a.len() + b.len(), c, d);
    let j1 = j + a.len();
    let j2 = j1 + b.len();
    let j3 = j2 + c.len();
    let j4 = j3 + d.len();
    let f1 = FieldsV { path_type, ..f };
    let f2 = FieldsV { width, ..f1 };
    let f3 = FieldsV { begin_extension, ..f2 };
    let f4 = FieldsV { end_extension, ..f3 };
    lemma_opt_pathtype(f, rs, j, path_type);
    lemma_opt_width(f1, rs, j1, width);
    lemma_opt_begin(f2, rs, j2, begin_extension);
    lemma_opt_end(f3, rs, j3, end_extension);
    lemma_chain(f, rs, j, j1, j2, f1, f2);
    lemma_chain(f, rs, j, j2, j3, f2, f3);
    lemma_chain(f, rs, j, j3, j4, f3, f4);
}

proof fn lemma_text_opts(f: FieldsV, rs: Seq<RecordSpec>, j: int, presentation: Option<u16>, path_type: Option<i16>, width: Option<i32>)
    requires
        at(rs, j, text_opts_list(presentation, path_type, width)),
        f.presentation is None && f.path_type is None && f.width is None,
    ensures
        text_opts_list(presentation, path_type, width).len() == opt_count(presentation) + opt_count(path_type) + opt_count(width),
        no_endel(rs, j, j + text_opts_list(presentation, path_type, width).len()),
        apply_range(f, rs, j, j + text_opts_list(presentation, path_type, width).len())
            == Ok::<FieldsV, Fault>(FieldsV { presentation, path_type, width, ..f }),
{
    let a = opt_list(presentation, seq![(PRESENTATION, DT_BIT_ARRAY, u16_bytes(presentation->0 as int))]);
    let b = opt_list(path_type, seq![(PATHTYPE, DT_I16, i16_bytes(path_type->0 as int))]);
    let c = opt_list(width, seq![(WIDTH, DT_I32, i32_bytes(width->0 as int))]);
    lemma_at_split(rs, j, a, b + c);
    lemma_at_split(rs, j + a.len(), b, c);
    let j1 = j + a.len();
    let j2 = j1 + b.len();
    let j3 = j2 + c.len();
    let f1 = FieldsV { presentation, ..f };
    let f2 = FieldsV { path_type, ..f1 };
    let f3 = FieldsV { width, ..f2 };
    lemma_opt_presentation(f, rs, j, presentation);
    lemma_opt_pathtype(f1, rs, j1, path_type);
    lemma_opt_width(f2, rs, j2, width);
    lemma_chain(f, rs, j, j1, j2, f1, f2);
    lemma_chain(f, rs, j, j2, j3, f2, f3);
}

/// A transform that reads back as written: no reserved bit on a flag, a
/// positive magnification.
pub open spec fn transform_ok(t: GdsTransform) -> bool {
    &&& t.reserved_bits & 0x8006 == 0
    &&& t.magnification matches Some(m) ==> real8_positive(m as int)
}

proof fn lemma_strans_bits(t: GdsTransform)
    requires
        t.reserved_bits & 0x8006 == 0,
    ensures
        (strans_bits(t) & 0x8000 != 0) == t.reflected,
        (strans_bits(t) & 4 != 0) == t.absolute_magnification,
        (strans_bits(t) & 2 != 0) == t.absolute_angle,
        strans_bits(t) & 0x7ff9 == t.reserved_bits,
        strans_bits(t) == 0 ==> !t.reflected && !t.absolute_magnification && !t.absolute_angle && t.reserved_bits == 0,
{
    let r = t.reserved_bits;
    let a: u16 = if t.reflected { 0x8000 } else { 0 };
    let b: u16 = if t.absolute_magnification { 4 } else { 0 };
    let c: u16 = if t.absolute_angle { 2 } else { 0 };
    assert(strans_bits(t) == a | b | c | r);
    assert(((a | b | c | r) & 0x8000 != 0) == (a != 0) && ((a | b | c | r) & 4 != 0) == (b != 0)
        && ((a | b | c | r) & 2 != 0) == (c != 0) && (a | b | c | r) & 0x7ff9 == r
        && ((a | b | c | r) == 0 ==> a == 0 && b == 0 && c == 0 && r == 0)) by (bit_vector)
        requires
            r & 0x8006 == 0,
            a == 0 || a == 0x8000,
            b == 0 || b == 4,
            c == 0 || c == 2,
    ;
}

proof fn lemma_transform(f: FieldsV, rs: Seq<RecordSpec>, j: int, t: GdsTransform)
    requires
        at(rs, j, transform_list(t)),
        transform_ok(t),
        !f.strans_seen,
        f.transform == (GdsTransform {
            reflected: false,
            absolute_magnification: false,
            absolute_angle: false,
            magnification: None,
            angle_degrees: None,
            reserved_bits: 0,
        }),
    ensures
        no_endel(rs, j, j + transform_list(t).len()),
        apply_range(f, rs, j, j + transform_list(t).len())
            == Ok::<FieldsV, Fault>(FieldsV { transform: t, strans_seen: strans_bits(t) != 0, ..f }),
{
    let a = if strans_bits(t) != 0 { seq![(STRANS, DT_BIT_ARRAY, u16_bytes(strans_bits(t) as int))] } else { Seq::<Rec3>::empty() };
    let b = opt_list(t.magnification, seq![(MAG, DT_REAL8, u64_bytes(t.magnification->0 as int))]);
    let c = opt_list(t.angle_degrees, seq![(ANGLE, DT_REAL8, u64_bytes(t.angle_degrees->0 as int))]);
    lemma_at_split(rs, j, a, b + c);
    lemma_at_split(rs, j + a.len(), b, c);
    let j1 = j + a.len();
    let j2 = j1 + b.len();
    let j3 = j2 + c.len();
    lemma_strans_bits(t);
    let t1 = GdsTransform { magnification: None, angle_degrees: None, ..t };
    let f1 = FieldsV { transform: t1, strans_seen: strans_bits(t) != 0, ..f };
    if strans_bits(t) != 0 {
        lemma_u16_bytes(strans_bits(t) as int);
        assert(rs[j + 0].ty == STRANS && rs[j + 0].payload == u16_bytes(strans_bits(t) as int));
        assert(be16(rs[j].payload, 0) as u16 == strans_bits(t));
        lemma_one(f, rs, j, f1);
    } else {
        assert(f1 == f);
        lemma_none(f, rs, j);
    }
    let t2 = GdsTransform { magnification: t.magnification, ..t1 };
    let f2 = FieldsV { transform: t2, ..f1 };
    if t.magnification is Some {
        lemma_u64_bytes(t.magnification->0 as int);
        assert(rs[j1 + 0].ty == MAG && rs[j1 + 0].payload == u64_bytes(t.magnification->0 as int));
        lemma_one(f1, rs, j1, f2);
    } else {
        assert(f2 == f1);
        lemma_none(f1, rs, j1);
    }
    let f3 = FieldsV { transform: t, ..f2 };
    if t.angle_degrees is Some {
        lemma_u64_bytes(t.angle_degrees->0 as int);
        assert(rs[j2 + 0].ty == ANGLE && rs[j2 + 0].payload == u64_bytes(t.angle_degrees->0 as int));
        lemma_one(f2, rs, j2, f3);
    } else {
        assert(f3 == f2);
        lemma_none(f2, rs, j2);
    }
    lemma_chain(f, rs, j, j1, j2, f1, f2);
    lemma_chain(f, rs, j, j2, j3, f2, f3);
}

proof fn lemma_ascii_field(f: FieldsV, rs: Seq<RecordSpec>, j: int, ty: u8, text: Seq<char>)
    requires
        ty == STRING || ty == SNAME,
        at(rs, j, seq![(ty, DT_ASCII, text_bytes(text))]),
        text_ok(text),
        ty == STRING ==> f.string is None,
        ty == SNAME ==> f.sname is None,
    ensures
        no_endel(rs, j, j + 1),
        ty == STRING ==> apply_range(f, rs, j, j + 1) == Ok::<FieldsV, Fault>(FieldsV { string: Some(text), ..f }),
        ty == SNAME ==> apply_range(f, rs, j, j + 1) == Ok::<FieldsV, Fault>(FieldsV { sname: Some(text), ..f }),
{
    assert(rs[j + 0].ty == ty && rs[j + 0].payload == text_bytes(text));
    lemma_text_bytes(text);
    assert(ascii_of(rs[j]) == Ok::<Seq<char>, Fault>(text));
    if ty == STRING {
        lemma_one(f, rs, j, FieldsV { string: Some(text), ..f });
    } else {
        lemma_one(f, rs, j, FieldsV { sname: Some(text), ..f });
    }
}

proof fn lemma_colrow(f: FieldsV, rs: Seq<RecordSpec>, j: int, columns: u16, rows: u16)
    requires
        at(rs, j, seq![(COLROW, DT_I16, colrow_bytes(columns, rows))]),
        1 <= columns <= 0x7fff,
        1 <= rows <= 0x7fff,
        f.colrow is None,
    ensures
        no_endel(rs, j, j + 1),
        apply_range(f, rs, j, j + 1) == Ok::<FieldsV, Fault>(FieldsV { colrow: Some((columns, rows)), ..f }),
{
    assert(rs[j + 0].ty == COLROW && rs[j + 0].payload == colrow_bytes(columns, rows));
    let a = i16_bytes(columns as i16 as int);
    let b = i16_bytes(rows as i16 as int);
    lemma_i16_bytes(columns as i16 as int);
    lemma_i16_bytes(rows as i16 as int);
    let p = a + b;
    assert(p[0] == a[0] && p[1] == a[1] && p[2] == b[0] && p[3] == b[1]);
    assert(be_i16(p, 0) == be_i16(a, 0));
    assert(be_i16(p, 2) == be_i16(b, 0));
    assert(columns as i16 as int == columns as int);
    assert(rows as i16 as int == rows as int);
    lemma_one(f, rs, j, FieldsV { colrow: Some((columns, rows)), ..f });
}

proof fn lemma_reparse_path(rs: Seq<RecordSpec>, i: int, layer: i16, datatype: i16, centerline: Seq<Point>, width: Option<i32>,
    path_type: Option<i16>, begin_extension: Option<i32>, end_extension: Option<i32>, meta: MetaV)
    requires
        at(rs, i, path_list(layer, datatype, centerline, width, path_type, begin_extension, end_extension, meta)
            + seq![(ENDEL, DT_NONE, Seq::<u8>::empty())]),
        centerline.len() >= 2,
        meta_ok(meta),
    ensures
        element_spec(rs, i, true) == Ok::<(ElementV, int), Fault>((
            ElementV::Path { layer, datatype, centerline, width, path_type, begin_extension, end_extension, meta },
            i + path_list(layer, datatype, centerline, width, path_type, begin_extension, end_extension, meta).len() + 1)),
{
    let h = head3_list(PATH, layer, DATATYPE, datatype);
    let o = path_opts_list(path_type, width, begin_extension, end_extension);
    let x = xy_list(centerline, false);
    let ml = meta_list(meta);
    let body = path_list(layer, datatype, centerline, width, path_type, begin_extension, end_extension, meta);
    lemma_at_split(rs, i, body, seq![(ENDEL, DT_NONE, Seq::<u8>::empty())]);
    lemma_at_split(rs, i, h, o + (x + ml));
    lemma_at_split(rs, i + 3, o, x + ml);
    lemma_at_split(rs, i + 3 + o.len(), x, ml);
    let j1 = i + 3;
    let j2 = j1 + o.len();
    let j3 = j2 + 1;
    let end = j3 + meta_len(meta);
    lemma_head(rs, i, PATH, layer, DATATYPE, datatype);
    let f1 = FieldsV { layer: Some((layer, rs[i + 1].offset)), datatype: Some((datatype, rs[i + 2].offset)), ..empty_fields() };
    lemma_path_opts(f1, rs, j1, path_type, width, begin_extension, end_extension);
    let f2 = FieldsV { path_type, width, begin_extension, end_extension, ..f1 };
    lemma_xy(f2, rs, j2, centerline, false);
    let f3 = FieldsV { xy: Some((closed(centerline, false), rs[j2].offset)), ..f2 };
    lemma_apply_meta(f3, rs, j3, meta);
    let f4 = FieldsV { meta, ..f3 };
    lemma_chain(empty_fields(), rs, i + 1, j1, j2, f1, f2);
    lemma_chain(empty_fields(), rs, i + 1, j2, j3, f2, f3);
    lemma_chain(empty_fields(), rs, i + 1, j3, end, f3, f4);
    assert(body.len() == end - i);
    assert(rs[i + body.len() + 0].ty == ENDEL);
    lemma_collect_to_endel(rs, i + 1, end, empty_fields(), f4, rs[i].offset);
    assert(rs[i].ty == PATH) by {
        assert(rs[i + 0].ty == h[0].0);
    }
    let e = ElementV::Path { layer, datatype, centerline, width, path_type, begin_extension, end_extension, meta };
    assert(build_spec(rs[i], f4, true) == Ok::<ElementV, Fault>(e)) by {
        reveal(super::element::path_element_spec);
        assert(closed(centerline, false) == centerline);
    }
    lemma_element_from_fields(rs, i, end, f4, e);
}

proof fn lemma_reparse_node(rs: Seq<RecordSpec>, i: int, layer: i16, node_type: i16, points: Seq<Point>, meta: MetaV)
    requires
        at(rs, i, head3_list(NODE, layer, NODETYPE, node_type) + (xy_list(points, false) + meta_list(meta))
            + seq![(ENDEL, DT_NONE, Seq::<u8>::empty())]),
        points.len() >= 1,
        meta_ok(meta),
    ensures
        element_spec(rs, i, true) == Ok::<(ElementV, int), Fault>((ElementV::Node { layer, node_type, points, meta },
            i + (head3_list(NODE, layer, NODETYPE, node_type) + (xy_list(points, false) + meta_list(meta))).len() + 1)),
{
    let h = head3_list(NODE, layer, NODETYPE, node_type);
    let x = xy_list(points, false);
    let ml = meta_list(meta);
    let body = h + (x + ml);
    lemma_at_split(rs, i, body, seq![(ENDEL, DT_NONE, Seq::<u8>::empty())]);
    lemma_at_split(rs, i, h, x + ml);
    lemma_at_split(rs, i + 3, x, ml);
    let end = i + 4 + meta_len(meta);
    lemma_head(rs, i, NODE, layer, NODETYPE, node_type);
    let f1 = FieldsV { layer: Some((layer, rs[i + 1].offset)), datatype: Some((node_type, rs[i + 2].offset)), ..empty_fields() };
    lemma_xy(f1, rs, i + 3, points, false);
    let f2 = FieldsV { xy: Some((closed(points, false), rs[i + 3].offset)), ..f1 };
    lemma_apply_meta(f2, rs, i + 4, meta);
    let f3 = FieldsV { meta, ..f2 };
    lemma_chain(empty_fields(), rs, i + 1, i + 3, i + 4, f1, f2);
    lemma_chain(empty_fields(), rs, i + 1, i + 4, end, f2, f3);
    assert(rs[i + body.len() + 0].ty == ENDEL);
    lemma_collect_to_endel(rs, i + 1, end, empty_fields(), f3, rs[i].offset);
    assert(rs[i].ty == NODE) by {
        assert(rs[i + 0].ty == h[0].0);
    }
    let e = ElementV::Node { layer, node_type, points, meta };
    assert(build_spec(rs[i], f3, true) == Ok::<ElementV, Fault>(e)) by {
        reveal(super::element::node_element_spec);
    }
    lemma_element_from_fields(rs, i, end, f3, e);
}

pub open spec fn identity_transform() -> GdsTransform {
    GdsTransform {
        reflected: false,
        absolute_magnification: false,
        absolute_angle: false,
        magnification: None,
        angle_degrees: None,
        reserved_bits: 0,
    }
}

proof fn lemma_reparse_text(rs: Seq<RecordSpec>, i: int, layer: i16, text_type: i16, origin: Point, string: Seq<char>,
    presentation: Option<u16>, path_type: Option<i16>, width: Option<i32>, transform: GdsTransform, meta: MetaV)
    requires
        at(rs, i, text_list(layer, text_type, origin, string, presentation, path_type, width, transform, meta)
            + seq![(ENDEL, DT_NONE, Seq::<u8>::empty())]),
        text_ok(string),
        transform_ok(transform),
        meta_ok(meta),
    ensures
        element_spec(rs, i, true) == Ok::<(ElementV, int), Fault>((
            ElementV::Text { layer, text_type, origin, string, presentation, path_type, width, transform, meta },
            i + text_list(layer, text_type, origin, string, presentation, path_type, width, transform, meta).len() + 1)),
{
    let h = head3_list(TEXT, layer, TEXTTYPE, text_type);
    let o = text_opts_list(presentation, path_type, width);
    let t = transform_list(transform);
    let x = xy_list(seq![origin], false);
    let st = seq![(STRING, DT_ASCII, text_bytes(string))];
    let ml = meta_list(meta);
    let body = text_list(layer, text_type, origin, string, presentation, path_type, width, transform, meta);
    lemma_at_split(rs, i, body, seq![(ENDEL, DT_NONE, Seq::<u8>::empty())]);
    lemma_at_split(rs, i, h, o + (t + (x + (st + ml))));
    lemma_at_split(rs, i + 3, o, t + (x + (st + ml)));
    let j1 = i + 3;
    let j2 = j1 + o.len();
    lemma_at_split(rs, j2, t, x + (st + ml));
    let j3 = j2 + t.len();
    lemma_at_split(rs, j3, x, st + ml);
    let j4 = j3 + 1;
    lemma_at_split(rs, j4, st, ml);
    let j5 = j4 + 1;
    let end = j5 + meta_len(meta);
    lemma_head(rs, i, TEXT, layer, TEXTTYPE, text_type);
    let f1 = FieldsV { layer: Some((layer, rs[i + 1].offset)), datatype: Some((text_type, rs[i + 2].offset)), ..empty_fields() };
    lemma_text_opts(f1, rs, j1, presentation, path_type, width);
    let f2 = FieldsV { presentation, path_type, width, ..f1 };
    assert(f2.transform == identity_transform());
    lemma_transform(f2, rs, j2, transform);
    let f3 = FieldsV { transform, strans_seen: strans_bits(transform) != 0, ..f2 };
    lemma_xy(f3, rs, j3, seq![origin], false);
    let f4 = FieldsV { xy: Some((closed(seq![origin], false), rs[j3].offset)), ..f3 };
    lemma_ascii_field(f4, rs, j4, STRING, string);
    let f5 = FieldsV { string: Some(string), ..f4 };
    lemma_apply_meta(f5, rs, j5, meta);
    let f6 = FieldsV { meta, ..f5 };
    lemma_chain(empty_fields(), rs, i + 1, j1, j2, f1, f2);
    lemma_chain(empty_fields(), rs, i + 1, j2, j3, f2, f3);
    lemma_chain(empty_fields(), rs, i + 1, j3, j4, f3, f4);
    lemma_chain(empty_fields(), rs, i + 1, j4, j5, f4, f5);
    lemma_chain(empty_fields(), rs, i + 1, j5, end, f5, f6);
    assert(body.len() == end - i);
    assert(rs[i + body.len() + 0].ty == ENDEL);
    lemma_collect_to_endel(rs, i + 1, end, empty_fields(), f6, rs[i].offset);
    assert(rs[i].ty == TEXT) by {
        assert(rs[i + 0].ty == h[0].0);
    }
    let e = ElementV::Text { layer, text_type, origin, string, presentation, path_type, width, transform, meta };
    assert(build_spec(rs[i], f6, true) == Ok::<ElementV, Fault>(e)) by {
        reveal(super::element::text_element_spec);
        assert(closed(seq![origin], false) == seq![origin]);
    }
    lemma_element_from_fields(rs, i, end, f6, e);
}

proof fn lemma_reparse_sref(rs: Seq<RecordSpec>, i: int, structure: Seq<char>, origin: Point, transform: GdsTransform, meta: MetaV)
    requires
        at(rs, i, sref_list(structure, origin, transform, meta) + seq![(ENDEL, DT_NONE, Seq::<u8>::empty())]),
        text_ok(structure),
        transform_ok(transform),
        meta_ok(meta),
    ensures
        element_spec(rs, i, true) == Ok::<(ElementV, int), Fault>((ElementV::Sref { structure, origin, transform, meta },
            i + sref_list(structure, origin, transform, meta).len() + 1)),
{
    let h = seq![(SREF, DT_NONE, Seq::<u8>::empty()), (SNAME, DT_ASCII, text_bytes(structure))];
    let t = transform_list(transform);
    let x = xy_list(seq![origin], false);
    let ml = meta_list(meta);
    let body = sref_list(structure, origin, transform, meta);
    lemma_at_split(rs, i, body, seq![(ENDEL, DT_NONE, Seq::<u8>::empty())]);
    lemma_at_split(rs, i, h, t + (x + ml));
    lemma_at_split(rs, i + 2, t, x + ml);
    let j2 = i + 2;
    let j3 = j2 + t.len();
    lemma_at_split(rs, j3, x, ml);
    let j4 = j3 + 1;
    let end = j4 + meta_len(meta);
    lemma_at_split(rs, i, seq![(SREF, DT_NONE, Seq::<u8>::empty())], seq![(SNAME, DT_ASCII, text_bytes(structure))]);
    lemma_ascii_field(empty_fields(), rs, i + 1, SNAME, structure);
    let f1 = FieldsV { sname: Some(structure), ..empty_fields() };
    assert(f1.transform == identity_transform());
    lemma_transform(f1, rs, j2, transform);
    let f2 = FieldsV { transform, strans_seen: strans_bits(transform) != 0, ..f1 };
    lemma_xy(f2, rs, j3, seq![origin], false);
    let f3 = FieldsV { xy: Some((closed(seq![origin], false), rs[j3].offset)), ..f2 };
    lemma_apply_meta(f3, rs, j4, meta);
    let f4 = FieldsV { meta, ..f3 };
    lemma_chain(empty_fields(), rs, i + 1, j2, j3, f1, f2);
    lemma_chain(empty_fields(), rs, i + 1, j3, j4, f2, f3);
    lemma_chain(empty_fields(), rs, i + 1, j4, end, f3, f4);
    assert(body.len() == end - i);
    assert(rs[i + body.len() + 0].ty == ENDEL);
    lemma_collect_to_endel(rs, i + 1, end, empty_fields(), f4, rs[i].offset);
    assert(rs[i].ty == SREF) by {
        assert(rs[i + 0].ty == h[0].0);
    }
    let e = ElementV::Sref { structure, origin, transform, meta };
    assert(build_spec(rs[i], f4, true) == Ok::<ElementV, Fault>(e)) by {
        reveal(super::element::sref_element_spec);
        assert(closed(seq![origin], false) == seq![origin]);
    }
    lemma_element_from_fields(rs, i, end, f4, e);
}

proof fn lemma_reparse_aref(rs: Seq<RecordSpec>, i: int, structure: Seq<char>, columns: u16, rows: u16, origin: Point,
    column_endpoint: Point, row_endpoint: Point, transform: GdsTransform, meta: MetaV)
    requires
        at(rs, i, aref_list(structure, columns, rows, origin, column_endpoint, row_endpoint, transform, meta)
            + seq![(ENDEL, DT_NONE, Seq::<u8>::empty())]),
        text_ok(structure),
        transform_ok(transform),
        meta_ok(meta),
        1 <= columns <= 0x7fff,
        1 <= rows <= 0x7fff,
    ensures
        element_spec(rs, i, true) == Ok::<(ElementV, int), Fault>((
            ElementV::Aref { structure, columns, rows, origin, column_endpoint, row_endpoint, transform, meta },
            i + aref_list(structure, columns, rows, origin, column_endpoint, row_endpoint, transform, meta).len() + 1)),
{
    let pts = seq![origin, column_endpoint, row_endpoint];
    let h = seq![(AREF, DT_NONE, Seq::<u8>::empty()), (SNAME, DT_ASCII, text_bytes(structure))];
    let t = transform_list(transform);
    let cr = seq![(COLROW, DT_I16, colrow_bytes(columns, rows))];
    let x = xy_list(pts, false);
    let ml = meta_list(meta);
    let body = aref_list(structure, columns, rows, origin, column_endpoint, row_endpoint, transform, meta);
    lemma_at_split(rs, i, body, seq![(ENDEL, DT_NONE, Seq::<u8>::empty())]);
    lemma_at_split(rs, i, h, t + (cr + (x + ml)));
    let j2 = i + 2;
    lemma_at_split(rs, j2, t, cr + (x + ml));
    let j3 = j2 + t.len();
    lemma_at_split(rs, j3, cr, x + ml);
    let j4 = j3 + 1;
    lemma_at_split(rs, j4, x, ml);
    let j5 = j4 + 1;
    let end = j5 + meta_len(meta);
    lemma_at_split(rs, i, seq![(AREF, DT_NONE, Seq::<u8>::empty())], seq![(SNAME, DT_ASCII, text_bytes(structure))]);
    lemma_ascii_field(empty_fields(), rs, i + 1, SNAME, structure);
    let f1 = FieldsV { sname: Some(structure), ..empty_fields() };
    assert(f1.transform == identity_transform());
    lemma_transform(f1, rs, j2, transform);
    let f2 = FieldsV { transform, strans_seen: strans_bits(transform) != 0, ..f1 };
    lemma_colrow(f2, rs, j3, columns, rows);
    let f3 = FieldsV { colrow: Some((columns, rows)), ..f2 };
    lemma_xy(f3, rs, j4, pts, false);
    let f4 = FieldsV { xy: Some((closed(pts, false), rs[j4].offset)), ..f3 };
    lemma_apply_meta(f4, rs, j5, meta);
    let f5 = FieldsV { meta, ..f4 };
    lemma_chain(empty_fields(), rs, i + 1, j2, j3, f1, f2);
    lemma_chain(empty_fields(), rs, i + 1, j3, j4, f2, f3);
    lemma_chain(empty_fields(), rs, i + 1, j4, j5, f3, f4);
    lemma_chain(empty_fields(), rs, i + 1, j5, end, f4, f5);
    assert(body.len() == end - i);
    assert(rs[i + body.len() + 0].ty == ENDEL);
    lemma_collect_to_endel(rs, i + 1, end, empty_fields(), f5, rs[i].offset);
    assert(rs[i].ty == AREF) by {
        assert(rs[i + 0].ty == h[0].0);
    }
    let e = ElementV::Aref { structure, columns, rows, origin, column_endpoint, row_endpoint, transform, meta };
    assert(build_spec(rs[i], f5, true) == Ok::<ElementV, Fault>(e)) by {
        reveal(super::element::aref_element_spec);
        assert(closed(pts, false) == pts);
    }
    lemma_element_from_fields(rs, i, end, f5, e);
}

/// An element that reads back exactly as written in strict mode.
pub open spec fn canon_element(e: ElementV) -> bool {
    match e {
        ElementV::Boundary { ring, meta, .. } => ring_valid(ring) && meta_ok(meta),
        ElementV::Box { ring, meta, .. } => ring_valid(ring) && axis_rect(ring) && meta_ok(meta),
        ElementV::Path { centerline, meta, .. } => centerline.len() >= 2 && meta_ok(meta),
        ElementV::Text { string, transform, meta, .. } => text_ok(string) && transform_ok(transform) && meta_ok(meta),
        ElementV::Node { points, meta, .. } => points.len() >= 1 && meta_ok(meta),
        ElementV::Sref { structure, transform, meta, .. } => text_ok(structure) && transform_ok(transform) && meta_ok(meta),
        ElementV::Aref { structure, columns, rows, transform, meta, .. } =>
            text_ok(structure) && transform_ok(transform) && meta_ok(meta) && 1 <= columns <= 0x7fff && 1 <= rows <= 0x7fff,
        ElementV::Unsupported { .. } => false,
    }
}

#[verifier::rlimit(100)]
#[verifier::spinoff_prover]
proof fn lemma_reparse_element(rs: Seq<RecordSpec>, i: int, e: ElementV)
    requires
        at(rs, i, element_list(e)),
        canon_element(e),
    ensures
        element_spec(rs, i, true) == Ok::<(ElementV, int), Fault>((e, i + element_list(e).len())),
        rs[i].ty == BOUNDARY || rs[i].ty == BOX || rs[i].ty == PATH || rs[i].ty == TEXT || rs[i].ty == NODE
            || rs[i].ty == SREF || rs[i].ty == AREF,
{
    let endel = seq![(ENDEL, DT_NONE, Seq::<u8>::empty())];
    match e {
        ElementV::Boundary { layer, datatype, ring, meta } => {
            assert(body_list(e) == boundary_list(BOUNDARY, DATATYPE, layer, datatype, ring, meta)) by { reveal(body_list); }
            lemma_reparse_boundary(rs, i, BOUNDARY, DATATYPE, layer, datatype, ring, meta);
            assert(rs[i + 0].ty == element_list(e)[0].0);
        },
        ElementV::Box { layer, box_type, ring, meta } => {
            assert(body_list(e) == boundary_list(BOX, BOXTYPE, layer, box_type, ring, meta)) by { reveal(body_list); }
            lemma_reparse_boundary(rs, i, BOX, BOXTYPE, layer, box_type, ring, meta);
            assert(rs[i + 0].ty == element_list(e)[0].0);
        },
        ElementV::Path { layer, datatype, centerline, width, path_type, begin_extension, end_extension, meta } => {
            assert(body_list(e) == path_list(layer, datatype, centerline, width, path_type, begin_extension, end_extension, meta))
                by { reveal(body_list); }
            lemma_reparse_path(rs, i, layer, datatype, centerline, width, path_type, begin_extension, end_extension, meta);
            assert(rs[i + 0].ty == element_list(e)[0].0);
        },
        ElementV::Text { layer, text_type, origin, string, presentation, path_type, width, transform, meta } => {
            assert(body_list(e) == text_list(layer, text_type, origin, string, presentation, path_type, width, transform, meta))
                by { reveal(body_list); }
            lemma_reparse_text(rs, i, layer, text_type, origin, string, presentation, path_type, width, transform, meta);
            assert(rs[i + 0].ty == element_list(e)[0].0);
        },
        ElementV::Node { layer, node_type, points, meta } => {
            assert(body_list(e) == head3_list(NODE, layer, NODETYPE, node_type) + (xy_list(points, false) + meta_list(meta)))
                by { reveal(body_list); }
            lemma_reparse_node(rs, i, layer, node_type, points, meta);
            assert(rs[i + 0].ty == element_list(e)[0].0);
        },
        ElementV::Sref { structure, origin, transform, meta } => {
            assert(body_list(e) == sref_list(structure, origin, transform, meta)) by { reveal(body_list); }
            lemma_reparse_sref(rs, i, structure, origin, transform, meta);
            assert(rs[i + 0].ty == element_list(e)[0].0);
        },
        ElementV::Aref { structure, columns, rows, origin, column_endpoint, row_endpoint, transform, meta } => {
            assert(body_list(e) == aref_list(structure, columns, rows, origin, column_endpoint, row_endpoint, transform, meta))
                by { reveal(body_list); }
            lemma_reparse_aref(rs, i, structure, columns, rows, origin, column_endpoint, row_endpoint, transform, meta);
            assert(rs[i + 0].ty == element_list(e)[0].0);
        },
        ElementV::Unsupported { .. } => {},
    }
}

proof fn lemma_elements_front(es: Seq<ElementV>)
    requires
        es.len() > 0,
    ensures
        elements_list(es) == element_list(es[0]) + elements_list(es.drop_first()),
    decreases es.len(),
{
    if es.len() == 1 {
        assert(es.drop_last().len() == 0);
        assert(elements_list(es.drop_last()) == Seq::<Rec3>::empty());
        assert(es.drop_first().len() == 0);
        assert(elements_list(es.drop_first()) == Seq::<Rec3>::empty());
        assert(elements_list(es) =~= element_list(es[0]) + elements_list(es.drop_first()));
    } else {
        let q = es.drop_last();
        lemma_elements_front(q);
        assert(q[0] == es[0]);
        assert(q.drop_first() =~= es.drop_first().drop_last());
        assert(es.drop_first().last() == es.last());
        assert(elements_list(es) =~= element_list(es[0]) + elements_list(es.drop_first()));
    }
}

proof fn lemma_structure_items_reparse(rs: Seq<RecordSpec>, j: int, es: Seq<ElementV>, acc: Seq<ElementV>)
    requires
        at(rs, j, elements_list(es) + seq![(ENDSTR, DT_NONE, Seq::<u8>::empty())]),
        forall|k: int| 0 <= k < es.len() ==> canon_element(#[trigger] es[k]),
    ensures
        structure_items(rs, j, true, acc, Seq::empty())
            == Ok::<(Seq<ElementV>, Seq<RecordSpec>, int), Fault>((acc + es, Seq::empty(), j + elements_list(es).len() + 1)),
    decreases es.len(),
{
    if es.len() == 0 {
        assert(elements_list(es) == Seq::<Rec3>::empty());
        assert(rs[j + 0].ty == ENDSTR);
        assert(acc + es =~= acc);
    } else {
        lemma_elements_front(es);
        let e0 = es[0];
        let rest = es.drop_first();
        assert(elements_list(es) + seq![(ENDSTR, DT_NONE, Seq::<u8>::empty())]
            =~= element_list(e0) + (elements_list(rest) + seq![(ENDSTR, DT_NONE, Seq::<u8>::empty())]));
        lemma_at_split(rs, j, element_list(e0), elements_list(rest) + seq![(ENDSTR, DT_NONE, Seq::<u8>::empty())]);
        lemma_reparse_element(rs, j, e0);
        let next = j + element_list(e0).len();
        assert forall|k: int| 0 <= k < rest.len() implies canon_element(#[trigger] rest[k]) by {
            assert(rest[k] == es[k + 1]);
        }
        lemma_structure_items_reparse(rs, next, rest, acc.push(e0));
        assert(acc.push(e0) + rest =~= acc + es);
        assert(element_list(e0).len() > 0);
    }
}

/// A structure that reads back exactly as written in strict mode.
pub open spec fn canon_structure(st: StructureV) -> bool {
    &&& st.timestamps.len() == 12
    &&& text_ok(st.name)
    &&& st.name.len() > 0
    &&& st.unhandled.len() == 0
    &&& forall|k: int| 0 <= k < st.elements.len() ==> canon_element(#[trigger] st.elements[k])
}

proof fn lemma_reparse_structure(rs: Seq<RecordSpec>, i: int, st: StructureV)
    requires
        at(rs, i, structure_list(st)),
        canon_structure(st),
    ensures
        structure_spec(rs, i, true) == Ok::<(StructureV, int), Fault>((st, i + structure_list(st).len())),
{
    let head = seq![(BGNSTR, DT_I16, super::writer::i16s_bytes(st.timestamps)), (STRNAME, DT_ASCII, text_bytes(st.name))];
    let tail = elements_list(st.elements) + seq![(ENDSTR, DT_NONE, Seq::<u8>::empty())];
    lemma_at_split(rs, i, head, tail);
    assert(rs[i + 0].payload == super::writer::i16s_bytes(st.timestamps));
    lemma_timestamps(st.timestamps);
    assert(rs[i + 1].ty == STRNAME && rs[i + 1].payload == text_bytes(st.name));
    lemma_text_bytes(st.name);
    assert(ascii_of(rs[i + 1]) == Ok::<Seq<char>, Fault>(st.name));
    lemma_structure_items_reparse(rs, i + 2, st.elements, Seq::empty());
    assert(Seq::<ElementV>::empty() + st.elements =~= st.elements);
    assert(st.unhandled =~= Seq::<RecordSpec>::empty());
}

proof fn lemma_structures_front(ss: Seq<StructureV>)
    requires
        ss.len() > 0,
    ensures
        structures_list(ss) == structure_list(ss[0]) + structures_list(ss.drop_first()),
    decreases ss.len(),
{
    if ss.len() == 1 {
        assert(structures_list(ss.drop_last()) == Seq::<Rec3>::empty());
        assert(structures_list(ss.drop_first()) == Seq::<Rec3>::empty());
        assert(structures_list(ss) =~= structure_list(ss[0]) + structures_list(ss.drop_first()));
    } else {
        let q = ss.drop_last();
        lemma_structures_front(q);
        assert(q[0] == ss[0]);
        assert(q.drop_first() =~= ss.drop_first().drop_last());
        assert(ss.drop_first().last() == ss.last());
        assert(structures_list(ss) =~= structure_list(ss[0]) + structures_list(ss.drop_first()));
    }
}

/// Structure names are pairwise distinct.
pub open spec fn distinct_names(ss: Seq<StructureV>) -> bool {
    names_of_structures(ss).no_duplicates()
}

proof fn lemma_library_items_reparse(rs: Seq<RecordSpec>, j: int, ss: Seq<StructureV>, acc: Seq<StructureV>)
    requires
        at(rs, j, structures_list(ss) + seq![(ENDLIB, DT_NONE, Seq::<u8>::empty())]),
        forall|k: int| 0 <= k < ss.len() ==> canon_structure(#[trigger] ss[k]),
        distinct_names(acc + ss),
    ensures
        library_items(rs, j, true, acc, Seq::empty())
            == Ok::<(Seq<StructureV>, Seq<RecordSpec>, bool, int), Fault>((acc + ss, Seq::empty(), true, j + structures_list(ss).len() + 1)),
    decreases ss.len(),
{
    if ss.len() == 0 {
        assert(structures_list(ss) == Seq::<Rec3>::empty());
        assert(rs[j + 0].ty == ENDLIB);
        assert(acc + ss =~= acc);
    } else {
        lemma_structures_front(ss);
        let s0 = ss[0];
        let rest = ss.drop_first();
        assert(structures_list(ss) + seq![(ENDLIB, DT_NONE, Seq::<u8>::empty())]
            =~= structure_list(s0) + (structures_list(rest) + seq![(ENDLIB, DT_NONE, Seq::<u8>::empty())]));
        lemma_at_split(rs, j, structure_list(s0), structures_list(rest) + seq![(ENDLIB, DT_NONE, Seq::<u8>::empty())]);
        assert(rs[j + 0].ty == structure_list(s0)[0].0);
        lemma_reparse_structure(rs, j, s0);
        let next = j + structure_list(s0).len();
        assert(!names_of_structures(acc).contains(s0.name)) by {
            let all = names_of_structures(acc + ss);
            if names_of_structures(acc).contains(s0.name) {
                let k = choose|k: int| 0 <= k < names_of_structures(acc).len() && names_of_structures(acc)[k] == s0.name;
                assert(all[k] == s0.name);
                assert(all[acc.len() as int] == s0.name);
            }
        }
        assert forall|k: int| 0 <= k < rest.len() implies canon_structure(#[trigger] rest[k]) by {
            assert(rest[k] == ss[k + 1]);
        }
        assert(acc.push(s0) + rest =~= acc + ss);
        lemma_library_items_reparse(rs, next, rest, acc.push(s0));
    }
}

/// A library that reads back exactly as written in strict mode: complete
/// envelope, positive units, ASCII name not ending in NUL, at least one
/// structure, distinct structure names, and no records kept verbatim.
pub open spec fn canon_library(l: LibraryV) -> bool {
    &&& l.timestamps.len() == 12
    &&& text_ok(l.name)
    &&& real8_positive(l.units.user_units_per_database_unit as int)
    &&& real8_positive(l.units.meters_per_database_unit as int)
    &&& l.structures.len() > 0
    &&& distinct_names(l.structures)
    &&& l.unhandled.len() == 0
    &&& l.envelope == (GdsEnvelope { header: true, bgnlib: true, libname: true, units: true, endlib: true })
    &&& forall|k: int| 0 <= k < l.structures.len() ==> canon_structure(#[trigger] l.structures[k])
}

proof fn lemma_units(l: LibraryV)
    ensures
        units_bytes(l).len() == 16,
        be_u64(units_bytes(l), 0) == l.units.user_units_per_database_unit,
        be_u64(units_bytes(l), 8) == l.units.meters_per_database_unit,
{
    let a = u64_bytes(l.units.user_units_per_database_unit as int);
    let b = u64_bytes(l.units.meters_per_database_unit as int);
    lemma_u64_bytes(l.units.user_units_per_database_unit as int);
    lemma_u64_bytes(l.units.meters_per_database_unit as int);
    let p = a + b;
    assert forall|k: int| 0 <= k < 8 implies p[k] == a[k] && p[8 + k] == b[k] by {}
    assert(be_u64(p, 0) == be_u64(a, 0));
    assert(be_u64(p, 8) == be_u64(b, 0));
}

proof fn lemma_reparse_library(rs: Seq<RecordSpec>, l: LibraryV)
    requires
        at(rs, 0, library_list(l)),
        rs.len() == library_list(l).len(),
        canon_library(l),
    ensures
        library_spec(rs, true) == Ok::<LibraryV, Fault>(l),
{
    let env = envelope_list(l);
    let tail = structures_list(l.structures) + seq![(ENDLIB, DT_NONE, Seq::<u8>::empty())];
    lemma_at_split(rs, 0, env, tail);
    assert(rs[0int + 0].ty == HEADER && rs[0int + 0].payload == i16_bytes(l.version as int));
    assert(rs[0int + 1].ty == BGNLIB && rs[0int + 1].payload == super::writer::i16s_bytes(l.timestamps));
    assert(rs[0int + 2].ty == LIBNAME && rs[0int + 2].payload == text_bytes(l.name));
    assert(rs[0int + 3].ty == UNITS && rs[0int + 3].payload == units_bytes(l));
    lemma_i16_bytes(l.version as int);
    lemma_timestamps(l.timestamps);
    lemma_text_bytes(l.name);
    lemma_units(l);
    assert(ascii_of(rs[2]) == Ok::<Seq<char>, Fault>(l.name));
    let ev = EnvelopeV {
        version: l.version,
        timestamps: l.timestamps,
        name: l.name,
        units: l.units,
        header: true,
        bgnlib: true,
        libname: true,
        has_units: true,
    };
    assert(envelope_spec(rs, true) == Ok::<(EnvelopeV, int), Fault>((ev, 4)));
    assert(Seq::<StructureV>::empty() + l.structures =~= l.structures);
    lemma_library_items_reparse(rs, 4, l.structures, Seq::empty());
    assert(l.unhandled =~= Seq::<RecordSpec>::empty());
}

proof fn lemma_canon_typed_library(l: LibraryV)
    requires
        canon_library(l),
    ensures
        typed_library(l),
        forall|k: int| 0 <= k < l.structures.len() ==> typed_structure(#[trigger] l.structures[k]) && l.structures[k].timestamps.len() == 12,
{
    assert forall|k: int| 0 <= k < l.structures.len() implies typed_structure(#[trigger] l.structures[k]) && l.structures[k].timestamps.len() == 12 by {
        let st = l.structures[k];
        assert(canon_structure(st));
        assert forall|q: int| 0 <= q < st.elements.len() implies typed(#[trigger] st.elements[q]) by {
            assert(canon_element(st.elements[q]));
        }
    }
}

proof fn lemma_shaped_library(l: LibraryV)
    requires
        canon_library(l),
    ensures
        shaped3(library_list(l)),
{
    lemma_canon_typed_library(l);
    lemma_shaped_structures(l.structures);
    lemma_i16_bytes(l.version as int);
    lemma_timestamps(l.timestamps);
    lemma_text_len(l.name);
    lemma_units(l);
    let tail = structures_list(l.structures) + seq![(ENDLIB, DT_NONE, Seq::<u8>::empty())];
    lemma_shaped_cat(structures_list(l.structures), seq![(ENDLIB, DT_NONE, Seq::<u8>::empty())]);
    assert(shaped3(envelope_list(l)));
    lemma_shaped_cat(envelope_list(l), tail);
}

/// Reading what the writer wrote gives the library back: for a library
/// whose text is ASCII and does not end in NUL, whose units and
/// magnifications are positive, whose rings are valid and boxes rectangles,
/// whose arrays have 1 to 32767 columns and rows, whose structure names are
/// distinct and non-empty, and which keeps no record verbatim (so that no
/// source offset is involved), a successful write reads back, in strict
/// mode, as the same library.
pub proof fn lemma_write_read_round_trip(l: LibraryV)
    requires
        canon_library(l),
        library_recs(l) is Ok,
        library_recs(l)->Ok_0.len() <= usize::MAX,
    ensures
        read_spec(library_recs(l)->Ok_0, true) == Ok::<LibraryV, Fault>(l),
{
    lemma_canon_typed_library(l);
    lemma_gives_library(l);
    let list = library_list(l);
    lemma_shaped_library(l);
    lemma_decode_list(list);
    lemma_place(list, 0);
    let rs = place(list, 0);
    assert(at(rs, 0, list));
    lemma_reparse_library(rs, l);
}

/// Writing again what was read back from a written library gives the same
/// bytes, for the libraries of `lemma_write_read_round_trip`.
pub proof fn lemma_write_read_write(l: LibraryV)
    requires
        canon_library(l),
        library_recs(l) is Ok,
        library_recs(l)->Ok_0.len() <= usize::MAX,
    ensures
        read_spec(library_recs(l)->Ok_0, true) is Ok,
        library_recs(read_spec(library_recs(l)->Ok_0, true)->Ok_0) == library_recs(l),
{
    lemma_write_read_round_trip(l);
}

} // verus!
