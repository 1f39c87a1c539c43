//! Reading gives back what the writer wrote.
use vstd::prelude::*;
use crate::geometry::Point;
use super::gds::{be16, be_i16, be_i32, be_u32, be_u64, points_of, timestamps_of, ascii_bytes, all_ascii, chars_of};
use super::writer::{
    i16_bytes, i16s_bytes, i32_bytes, points_bytes, text_bytes, u16_bytes, u32_bytes, u64_bytes, Out, cat, rec, opt_rec,
    ascii_rec, ascii_chars, none_rec, i16_rec, i32_rec, xy_rec, props_recs, meta_recs, transform_recs, head3, path_opts,
    path_body, text_opts, text_body, sref_body, aref_body, boundary_body, element_body, element_recs, elements_recs,
    structure_recs, structures_recs, library_recs, raw_recs,
};
use super::gds::{
    encode_record, GdsTransform, strans_bits, AREF, BGNEXTN, BGNLIB, BGNSTR, BOUNDARY, BOX, BOXTYPE, COLROW, DATATYPE,
    DT_ASCII, DT_BIT_ARRAY, DT_I16, DT_I32, DT_NONE, DT_REAL8, ELFLAGS, ENDEL, ENDEXTN, ENDLIB, ENDSTR, HEADER, LAYER,
    LIBNAME, MAG, ANGLE, NODE, NODETYPE, PATH, PATHTYPE, PLEX, PRESENTATION, PROPATTR, PROPVALUE, SNAME, SREF, STRANS,
    STRING, STRNAME, TEXT, TEXTTYPE, UNITS, WIDTH, XY, RecordSpec, shape_ok, encode_records, encodable, placed,
    decode_from, DecodeFault, lemma_record_round_trip, LayoutErrorKind,
};
use super::element::{ElementV, MetaV, PropertyV};
use super::library::{LibraryV, StructureV};

verus! {

pub proof fn lemma_u16_bytes(u: int)
    requires
        0 <= u < 0x10000,
    ensures
        u16_bytes(u).len() == 2,
        be16(u16_bytes(u), 0) == u,
{
    let b = u16_bytes(u);
    assert(b[0] == u / 0x100);
    assert(b[1] == u % 0x100);
}

pub proof fn lemma_i16_bytes(v: int)
    requires
        -0x8000 <= v < 0x8000,
    ensures
        i16_bytes(v).len() == 2,
        be_i16(i16_bytes(v), 0) == v,
{
    lemma_u16_bytes(if v < 0 { v + 0x10000 } else { v });
}

pub proof fn lemma_u32_bytes(u: int)
    requires
        0 <= u < 0x1_0000_0000,
    ensures
        u32_bytes(u).len() == 4,
        be_u32(u32_bytes(u), 0) == u,
{
    let b = u32_bytes(u);
    assert(b[0] == u / 0x100_0000);
    assert(b[1] == u / 0x1_0000 % 0x100);
    assert(b[2] == u / 0x100 % 0x100);
    assert(b[3] == u % 0x100);
    assert(b[0] * 0x1000000 + b[1] * 0x10000 + b[2] * 0x100 + b[3] == u) by (nonlinear_arith)
        requires
            0 <= u < 0x1_0000_0000,
            b[0] == u / 0x100_0000,
            b[1] == u / 0x1_0000 % 0x100,
            b[2] == u / 0x100 % 0x100,
            b[3] == u % 0x100,
    ;
}

pub proof fn lemma_i32_bytes(v: int)
    requires
        -0x8000_0000 <= v < 0x8000_0000,
    ensures
        i32_bytes(v).len() == 4,
        be_i32(i32_bytes(v), 0) == v,
{
    lemma_u32_bytes(if v < 0 { v + 0x1_0000_0000 } else { v });
}

pub proof fn lemma_u64_bytes(u: int)
    requires
        0 <= u < 0x1_0000_0000_0000_0000,
    ensures
        u64_bytes(u).len() == 8,
        be_u64(u64_bytes(u), 0) == u,
{
    let hi = u / 0x1_0000_0000;
    let lo = u % 0x1_0000_0000;
    assert(0 <= hi < 0x1_0000_0000) by (nonlinear_arith)
        requires
            0 <= u < 0x1_0000_0000_0000_0000,
            hi == u / 0x1_0000_0000,
    ;
    lemma_u32_bytes(hi);
    lemma_u32_bytes(lo);
    let b = u64_bytes(u);
    assert(b.subrange(0, 4) =~= u32_bytes(hi));
    assert(b.subrange(4, 8) =~= u32_bytes(lo));
    assert(be_u32(b, 0) == be_u32(u32_bytes(hi), 0));
    assert(be_u32(b, 4) == be_u32(u32_bytes(lo), 0));
    assert(hi * 0x1_0000_0000 + lo == u) by (nonlinear_arith)
        requires
            hi == u / 0x1_0000_0000,
            lo == u % 0x1_0000_0000,
    ;
}

proof fn lemma_be_i32_concat(a: Seq<u8>, b: Seq<u8>, i: int)
    requires
        0 <= i,
    ensures
        i + 4 <= a.len() ==> be_i32(a + b, i) == be_i32(a, i),
        a.len() <= i && i + 4 <= a.len() + b.len() ==> be_i32(a + b, i) == be_i32(b, i - a.len()),
{
    if i + 4 <= a.len() {
        assert((a + b)[i] == a[i] && (a + b)[i + 1] == a[i + 1] && (a + b)[i + 2] == a[i + 2] && (a + b)[i + 3] == a[i + 3]);
    }
    if a.len() <= i && i + 4 <= a.len() + b.len() {
        let j = i - a.len();
        assert((a + b)[i] == b[j] && (a + b)[i + 1] == b[j + 1] && (a + b)[i + 2] == b[j + 2] && (a + b)[i + 3] == b[j + 3]);
    }
}

proof fn lemma_be_i16_concat(a: Seq<u8>, b: Seq<u8>, i: int)
    requires
        0 <= i,
    ensures
        i + 2 <= a.len() ==> be_i16(a + b, i) == be_i16(a, i),
        a.len() <= i && i + 2 <= a.len() + b.len() ==> be_i16(a + b, i) == be_i16(b, i - a.len()),
{
    if i + 2 <= a.len() {
        assert((a + b)[i] == a[i] && (a + b)[i + 1] == a[i + 1]);
    }
    if a.len() <= i && i + 2 <= a.len() + b.len() {
        let j = i - a.len();
        assert((a + b)[i] == b[j] && (a + b)[i + 1] == b[j + 1]);
    }
}

pub proof fn lemma_points_bytes(ps: Seq<Point>)
    ensures
        points_bytes(ps).len() == 8 * ps.len(),
        points_of(points_bytes(ps)) == ps,
    decreases ps.len(),
{
    if ps.len() > 0 {
        let q = ps.drop_last();
        lemma_points_bytes(q);
        let a = points_bytes(q);
        let x = i32_bytes(ps.last().x as int);
        let y = i32_bytes(ps.last().y as int);
        lemma_i32_bytes(ps.last().x as int);
        lemma_i32_bytes(ps.last().y as int);
        let b = points_bytes(ps);
        assert(b == a + x + y);
        assert(b == a + (x + y));
        assert forall|k: int| 0 <= k < ps.len() implies (#[trigger] points_of(b)[k]) == ps[k] by {
            assert((8 * k + 8 <= b.len())) by (nonlinear_arith)
                requires
                    0 <= k < ps.len(),
                    b.len() == 8 * ps.len(),
            ;
            lemma_be_i32_concat(a, x + y, 8 * k);
            lemma_be_i32_concat(a, x + y, 8 * k + 4);
            if k < ps.len() - 1 {
                assert(8 * k + 8 <= a.len()) by (nonlinear_arith)
                    requires
                        0 <= k < ps.len() - 1,
                        a.len() == 8 * (ps.len() - 1),
                ;
                assert(points_of(a)[k] == q[k]);
            } else {
                assert(8 * k == a.len());
                lemma_be_i32_concat(x, y, 0);
                lemma_be_i32_concat(x, y, 4);
            }
        }
        assert(points_of(b) =~= ps);
    } else {
        assert(points_of(points_bytes(ps)) =~= ps);
    }
}

pub proof fn lemma_i16s_bytes(ts: Seq<i16>)
    ensures
        i16s_bytes(ts).len() == 2 * ts.len(),
        forall|k: int| 0 <= k < ts.len() ==> be_i16(i16s_bytes(ts), 2 * k) == ts[k],
    decreases ts.len(),
{
    if ts.len() > 0 {
        let q = ts.drop_last();
        lemma_i16s_bytes(q);
        let a = i16s_bytes(q);
        let c = i16_bytes(ts.last() as int);
        lemma_i16_bytes(ts.last() as int);
        assert forall|k: int| 0 <= k < ts.len() implies be_i16(i16s_bytes(ts), 2 * k) == ts[k] by {
            lemma_be_i16_concat(a, c, 2 * k);
            if k < ts.len() - 1 {
                assert(q[k] == ts[k]);
            }
        }
    }
}

pub proof fn lemma_timestamps(ts: Seq<i16>)
    requires
        ts.len() == 12,
    ensures
        i16s_bytes(ts).len() == 24,
        timestamps_of(i16s_bytes(ts)) == ts,
{
    lemma_i16s_bytes(ts);
    assert(timestamps_of(i16s_bytes(ts)) =~= ts);
}

/// Text that reads back as written: ASCII, not ending in NUL.
pub open spec fn text_ok(s: Seq<char>) -> bool {
    vstd::utf8::is_ascii_chars(s) && (s.len() == 0 || s.last() != '\0')
}

pub proof fn lemma_text_bytes(s: Seq<char>)
    requires
        text_ok(s),
    ensures
        all_ascii(ascii_bytes(text_bytes(s))),
        chars_of(ascii_bytes(text_bytes(s))) == s,
        text_bytes(s).len() % 2 == 0,
        text_bytes(s).len() <= s.len() + 1,
{
    vstd::utf8::is_ascii_chars_nat_bound(s);
    let b = s.map_values(|c: char| c as u8);
    assert(ascii_bytes(text_bytes(s)) =~= b) by {
        if b.len() % 2 == 0 && b.len() > 0 {
            assert(b.last() == s.last() as u8);
            assert((s.last() as int) < 128);
            assert(b.last() != 0) by {
                if b.last() == 0 {
                    assert(s.last() as int == 0);
                    assert(s.last() == '\0');
                }
            }
        }
    }
    assert forall|i: int| 0 <= i < b.len() implies #[trigger] b[i] < 128 by {
        assert((s[i] as int) < 128);
    }
    assert(chars_of(b) =~= s) by {
        assert forall|i: int| 0 <= i < s.len() implies chars_of(b)[i] == s[i] by {
            assert((s[i] as int) < 128);
            assert(((s[i] as u8) as char) == s[i]);
        }
    }
}

// --- the writer's records ---

/// A record as type, data type and payload.
pub type Rec3 = (u8, u8, Seq<u8>);

pub open spec fn enc_list(l: Seq<Rec3>) -> Seq<u8>
    decreases l.len(),
{
    if l.len() == 0 { Seq::empty() } else { enc_list(l.drop_last()) + encode_record(l.last().0, l.last().1, l.last().2) }
}

/// Every payload fits a record and has even length.
pub open spec fn sized(l: Seq<Rec3>) -> bool {
    forall|i: int| 0 <= i < l.len() ==> (#[trigger] l[i]).2.len() + 4 <= 65535 && l[i].2.len() % 2 == 0
}

/// A successful write of `o` produced the records `l`.
pub open spec fn gives(o: Out, l: Seq<Rec3>) -> bool {
    o matches Ok(b) ==> b == enc_list(l) && sized(l)
}

proof fn lemma_enc_append(a: Seq<Rec3>, b: Seq<Rec3>)
    ensures
        enc_list(a + b) == enc_list(a) + enc_list(b),
    decreases b.len(),
{
    if b.len() == 0 {
        assert(a + b =~= a);
        assert(enc_list(b) =~= Seq::<u8>::empty());
        assert(enc_list(a) + enc_list(b) =~= enc_list(a));
    } else {
        lemma_enc_append(a, b.drop_last());
        assert((a + b).drop_last() =~= a + b.drop_last());
        assert((a + b).last() == b.last());
        assert(enc_list(a + b) =~= enc_list(a) + enc_list(b));
    }
}

proof fn lemma_gives_rec(ty: u8, dt: u8, p: Seq<u8>)
    ensures
        gives(rec(ty, dt, p), seq![(ty, dt, p)]),
{
    let l = seq![(ty, dt, p)];
    assert(l.drop_last() =~= Seq::<Rec3>::empty());
    assert(enc_list(l.drop_last()) == Seq::<u8>::empty());
    assert(l.last() == (ty, dt, p));
    assert(enc_list(l) =~= encode_record(ty, dt, p));
}

proof fn lemma_gives_cat(a: Out, la: Seq<Rec3>, b: Out, lb: Seq<Rec3>)
    requires
        gives(a, la),
        gives(b, lb),
    ensures
        gives(cat(a, b), la + lb),
{
    if cat(a, b) is Ok {
        lemma_enc_append(la, lb);
        assert forall|i: int| 0 <= i < (la + lb).len() implies (#[trigger] (la + lb)[i]).2.len() + 4 <= 65535 && (la + lb)[i].2.len() % 2 == 0 by {
            if i < la.len() {
                assert((la + lb)[i] == la[i]);
            } else {
                assert((la + lb)[i] == lb[i - la.len()]);
            }
        }
    }
}

proof fn lemma_gives_empty()
    ensures
        gives(Ok::<Seq<u8>, super::gds::LayoutErrorKind>(Seq::empty()), Seq::empty()),
{
    assert(enc_list(Seq::<Rec3>::empty()) =~= Seq::<u8>::empty());
}

proof fn lemma_gives_opt<T>(o: Option<T>, r: Out, l: Seq<Rec3>)
    requires
        gives(r, l),
    ensures
        gives(opt_rec(o, r), if o is Some { l } else { Seq::empty() }),
{
    lemma_gives_empty();
}

proof fn lemma_gives_ascii(ty: u8, s: Seq<char>)
    ensures
        gives(ascii_rec(ty, s), seq![(ty, DT_ASCII, text_bytes(s))]),
{
    lemma_gives_rec(ty, DT_ASCII, text_bytes(s));
}

pub open spec fn props_list(ps: Seq<PropertyV>) -> Seq<Rec3>
    decreases ps.len(),
{
    if ps.len() == 0 {
        Seq::empty()
    } else {
        props_list(ps.drop_last()) + seq![(PROPATTR, DT_I16, i16_bytes(ps.last().attribute as int)),
            (PROPVALUE, DT_ASCII, text_bytes(ps.last().value))]
    }
}

proof fn lemma_gives_props(ps: Seq<PropertyV>)
    ensures
        gives(props_recs(ps), props_list(ps)),
    decreases ps.len(),
{
    if ps.len() == 0 {
        lemma_gives_empty();
    } else {
        lemma_gives_props(ps.drop_last());
        lemma_gives_rec(PROPATTR, DT_I16, i16_bytes(ps.last().attribute as int));
        lemma_gives_ascii(PROPVALUE, ps.last().value);
        lemma_gives_cat(rec(PROPATTR, DT_I16, i16_bytes(ps.last().attribute as int)), seq![(PROPATTR, DT_I16, i16_bytes(ps.last().attribute as int))],
            ascii_rec(PROPVALUE, ps.last().value), seq![(PROPVALUE, DT_ASCII, text_bytes(ps.last().value))]);
        assert(seq![(PROPATTR, DT_I16, i16_bytes(ps.last().attribute as int))] + seq![(PROPVALUE, DT_ASCII, text_bytes(ps.last().value))]
            =~= seq![(PROPATTR, DT_I16, i16_bytes(ps.last().attribute as int)), (PROPVALUE, DT_ASCII, text_bytes(ps.last().value))]);
        lemma_gives_cat(props_recs(ps.drop_last()), props_list(ps.drop_last()),
            cat(rec(PROPATTR, DT_I16, i16_bytes(ps.last().attribute as int)), ascii_rec(PROPVALUE, ps.last().value)),
            seq![(PROPATTR, DT_I16, i16_bytes(ps.last().attribute as int)), (PROPVALUE, DT_ASCII, text_bytes(ps.last().value))]);
    }
}

pub open spec fn opt_list<T>(o: Option<T>, l: Seq<Rec3>) -> Seq<Rec3> {
    if o is Some { l } else { Seq::empty() }
}

/// The records of element metadata without kept records.
pub open spec fn meta_list(m: MetaV) -> Seq<Rec3> {
    opt_list(m.element_flags, seq![(ELFLAGS, DT_BIT_ARRAY, u16_bytes(m.element_flags->0 as int))])
        + (opt_list(m.plex, seq![(PLEX, DT_I32, i32_bytes(m.plex->0 as int))]) + props_list(m.properties))
}

proof fn lemma_gives_meta(m: MetaV)
    requires
        m.unhandled.len() == 0,
    ensures
        gives(meta_recs(m), meta_list(m)),
{
    reveal(meta_recs);
    let a = rec(ELFLAGS, DT_BIT_ARRAY, u16_bytes(m.element_flags->0 as int));
    lemma_gives_rec(ELFLAGS, DT_BIT_ARRAY, u16_bytes(m.element_flags->0 as int));
    lemma_gives_opt(m.element_flags, a, seq![(ELFLAGS, DT_BIT_ARRAY, u16_bytes(m.element_flags->0 as int))]);
    let b = rec(PLEX, DT_I32, i32_bytes(m.plex->0 as int));
    lemma_gives_rec(PLEX, DT_I32, i32_bytes(m.plex->0 as int));
    lemma_gives_opt(m.plex, b, seq![(PLEX, DT_I32, i32_bytes(m.plex->0 as int))]);
    lemma_gives_props(m.properties);
    assert(raw_recs(m.unhandled) == Ok::<Seq<u8>, super::gds::LayoutErrorKind>(Seq::empty()));
    lemma_gives_empty();
    lemma_gives_cat(props_recs(m.properties), props_list(m.properties), raw_recs(m.unhandled), Seq::empty());
    assert(props_list(m.properties) + Seq::<Rec3>::empty() =~= props_list(m.properties));
    lemma_gives_cat(opt_rec(m.plex, b), opt_list(m.plex, seq![(PLEX, DT_I32, i32_bytes(m.plex->0 as int))]),
        cat(props_recs(m.properties), raw_recs(m.unhandled)), props_list(m.properties));
    lemma_gives_cat(opt_rec(m.element_flags, a), opt_list(m.element_flags, seq![(ELFLAGS, DT_BIT_ARRAY, u16_bytes(m.element_flags->0 as int))]),
        cat(opt_rec(m.plex, b), cat(props_recs(m.properties), raw_recs(m.unhandled))),
        opt_list(m.plex, seq![(PLEX, DT_I32, i32_bytes(m.plex->0 as int))]) + props_list(m.properties));
}

pub open spec fn transform_list(t: GdsTransform) -> Seq<Rec3> {
    (if strans_bits(t) != 0 { seq![(STRANS, DT_BIT_ARRAY, u16_bytes(strans_bits(t) as int))] } else { Seq::empty() })
        + (opt_list(t.magnification, seq![(MAG, DT_REAL8, u64_bytes(t.magnification->0 as int))])
        + opt_list(t.angle_degrees, seq![(ANGLE, DT_REAL8, u64_bytes(t.angle_degrees->0 as int))]))
}

proof fn lemma_gives_transform(t: GdsTransform)
    ensures
        gives(transform_recs(t), transform_list(t)),
{
    reveal(transform_recs);
    lemma_gives_empty();
    lemma_gives_rec(STRANS, DT_BIT_ARRAY, u16_bytes(strans_bits(t) as int));
    let a = if strans_bits(t) != 0 { rec(STRANS, DT_BIT_ARRAY, u16_bytes(strans_bits(t) as int)) } else { Ok(Seq::empty()) };
    let la = if strans_bits(t) != 0 { seq![(STRANS, DT_BIT_ARRAY, u16_bytes(strans_bits(t) as int))] } else { Seq::<Rec3>::empty() };
    lemma_gives_rec(MAG, DT_REAL8, u64_bytes(t.magnification->0 as int));
    lemma_gives_opt(t.magnification, rec(MAG, DT_REAL8, u64_bytes(t.magnification->0 as int)), seq![(MAG, DT_REAL8, u64_bytes(t.magnification->0 as int))]);
    lemma_gives_rec(ANGLE, DT_REAL8, u64_bytes(t.angle_degrees->0 as int));
    lemma_gives_opt(t.angle_degrees, rec(ANGLE, DT_REAL8, u64_bytes(t.angle_degrees->0 as int)), seq![(ANGLE, DT_REAL8, u64_bytes(t.angle_degrees->0 as int))]);
    lemma_gives_cat(opt_rec(t.magnification, rec(MAG, DT_REAL8, u64_bytes(t.magnification->0 as int))),
        opt_list(t.magnification, seq![(MAG, DT_REAL8, u64_bytes(t.magnification->0 as int))]),
        opt_rec(t.angle_degrees, rec(ANGLE, DT_REAL8, u64_bytes(t.angle_degrees->0 as int))),
        opt_list(t.angle_degrees, seq![(ANGLE, DT_REAL8, u64_bytes(t.angle_degrees->0 as int))]));
    lemma_gives_cat(a, la,
        cat(opt_rec(t.magnification, rec(MAG, DT_REAL8, u64_bytes(t.magnification->0 as int))),
            opt_rec(t.angle_degrees, rec(ANGLE, DT_REAL8, u64_bytes(t.angle_degrees->0 as int)))),
        opt_list(t.magnification, seq![(MAG, DT_REAL8, u64_bytes(t.magnification->0 as int))])
            + opt_list(t.angle_degrees, seq![(ANGLE, DT_REAL8, u64_bytes(t.angle_degrees->0 as int))]));
}

pub open spec fn closed(ps: Seq<Point>, close: bool) -> Seq<Point> {
    if close && ps.len() > 0 { ps.push(ps[0]) } else { ps }
}

pub open spec fn xy_list(ps: Seq<Point>, close: bool) -> Seq<Rec3> {
    seq![(XY, DT_I32, points_bytes(closed(ps, close)))]
}

pub open spec fn head3_list(ty: u8, layer: i16, tty: u8, t: i16) -> Seq<Rec3> {
    seq![(ty, DT_NONE, Seq::<u8>::empty()), (LAYER, DT_I16, i16_bytes(layer as int)), (tty, DT_I16, i16_bytes(t as int))]
}

proof fn lemma_gives_head3(ty: u8, layer: i16, tty: u8, t: i16)
    ensures
        gives(head3(ty, layer, tty, t), head3_list(ty, layer, tty, t)),
{
    lemma_gives_rec(ty, DT_NONE, Seq::empty());
    lemma_gives_rec(LAYER, DT_I16, i16_bytes(layer as int));
    lemma_gives_rec(tty, DT_I16, i16_bytes(t as int));
    lemma_gives_cat(i16_rec(LAYER, layer), seq![(LAYER, DT_I16, i16_bytes(layer as int))], i16_rec(tty, t), seq![(tty, DT_I16, i16_bytes(t as int))]);
    lemma_gives_cat(none_rec(ty), seq![(ty, DT_NONE, Seq::<u8>::empty())], cat(i16_rec(LAYER, layer), i16_rec(tty, t)),
        seq![(LAYER, DT_I16, i16_bytes(layer as int))] + seq![(tty, DT_I16, i16_bytes(t as int))]);
    assert(seq![(ty, DT_NONE, Seq::<u8>::empty())] + (seq![(LAYER, DT_I16, i16_bytes(layer as int))] + seq![(tty, DT_I16, i16_bytes(t as int))])
        =~= head3_list(ty, layer, tty, t));
}

pub open spec fn boundary_list(ty: u8, tty: u8, layer: i16, datatype: i16, ring: Seq<Point>, meta: MetaV) -> Seq<Rec3> {
    head3_list(ty, layer, tty, datatype) + (xy_list(ring, true) + meta_list(meta))
}

proof fn lemma_gives_boundary(ty: u8, tty: u8, layer: i16, datatype: i16, ring: Seq<Point>, meta: MetaV)
    requires
        meta.unhandled.len() == 0,
    ensures
        gives(boundary_body(ty, tty, layer, datatype, ring, meta), boundary_list(ty, tty, layer, datatype, ring, meta)),
{
    reveal(boundary_body);
    lemma_gives_head3(ty, layer, tty, datatype);
    lemma_gives_rec(XY, DT_I32, points_bytes(closed(ring, true)));
    lemma_gives_meta(meta);
    lemma_gives_cat(xy_rec(ring, true), xy_list(ring, true), meta_recs(meta), meta_list(meta));
    lemma_gives_cat(head3(ty, layer, tty, datatype), head3_list(ty, layer, tty, datatype), cat(xy_rec(ring, true), meta_recs(meta)),
        xy_list(ring, true) + meta_list(meta));
}

pub open spec fn path_opts_list(path_type: Option<i16>, width: Option<i32>, begin_extension: Option<i32>, end_extension: Option<i32>) -> Seq<Rec3> {
    opt_list(path_type, seq![(PATHTYPE, DT_I16, i16_bytes(path_type->0 as int))])
        + (opt_list(width, seq![(WIDTH, DT_I32, i32_bytes(width->0 as int))])
        + (opt_list(begin_extension, seq![(BGNEXTN, DT_I32, i32_bytes(begin_extension->0 as int))])
        + opt_list(end_extension, seq![(ENDEXTN, DT_I32, i32_bytes(end_extension->0 as int))])))
}

proof fn lemma_gives_i16_opt(o: Option<i16>, ty: u8)
    ensures
        gives(opt_rec(o, i16_rec(ty, o->0)), opt_list(o, seq![(ty, DT_I16, i16_bytes(o->0 as int))])),
{
    lemma_gives_rec(ty, DT_I16, i16_bytes(o->0 as int));
    lemma_gives_opt(o, i16_rec(ty, o->0), seq![(ty, DT_I16, i16_bytes(o->0 as int))]);
}

proof fn lemma_gives_i32_opt(o: Option<i32>, ty: u8)
    ensures
        gives(opt_rec(o, i32_rec(ty, o->0)), opt_list(o, seq![(ty, DT_I32, i32_bytes(o->0 as int))])),
{
    lemma_gives_rec(ty, DT_I32, i32_bytes(o->0 as int));
    lemma_gives_opt(o, i32_rec(ty, o->0), seq![(ty, DT_I32, i32_bytes(o->0 as int))]);
}

proof fn lemma_gives_path_opts(path_type: Option<i16>, width: Option<i32>, begin_extension: Option<i32>, end_extension: Option<i32>)
    ensures
        gives(path_opts(path_type, width, begin_extension, end_extension), path_opts_list(path_type, width, begin_extension, end_extension)),
{
    lemma_gives_i16_opt(path_type, PATHTYPE);
    lemma_gives_i32_opt(width, WIDTH);
    lemma_gives_i32_opt(begin_extension, BGNEXTN);
    lemma_gives_i32_opt(end_extension, ENDEXTN);
    lemma_gives_cat(opt_rec(begin_extension, i32_rec(BGNEXTN, begin_extension->0)), opt_list(begin_extension, seq![(BGNEXTN, DT_I32, i32_bytes(begin_extension->0 as int))]),
        opt_rec(end_extension, i32_rec(ENDEXTN, end_extension->0)), opt_list(end_extension, seq![(ENDEXTN, DT_I32, i32_bytes(end_extension->0 as int))]));
    lemma_gives_cat(opt_rec(width, i32_rec(WIDTH, width->0)), opt_list(width, seq![(WIDTH, DT_I32, i32_bytes(width->0 as int))]),
        cat(opt_rec(begin_extension, i32_rec(BGNEXTN, begin_extension->0)), opt_rec(end_extension, i32_rec(ENDEXTN, end_extension->0))),
        opt_list(begin_extension, seq![(BGNEXTN, DT_I32, i32_bytes(begin_extension->0 as int))])
            + opt_list(end_extension, seq![(ENDEXTN, DT_I32, i32_bytes(end_extension->0 as int))]));
    lemma_gives_cat(opt_rec(path_type, i16_rec(PATHTYPE, path_type->0)), opt_list(path_type, seq![(PATHTYPE, DT_I16, i16_bytes(path_type->0 as int))]),
        cat(opt_rec(width, i32_rec(WIDTH, width->0)), cat(opt_rec(begin_extension, i32_rec(BGNEXTN, begin_extension->0)), opt_rec(end_extension, i32_rec(ENDEXTN, end_extension->0)))),
        opt_list(width, seq![(WIDTH, DT_I32, i32_bytes(width->0 as int))])
            + (opt_list(begin_extension, seq![(BGNEXTN, DT_I32, i32_bytes(begin_extension->0 as int))])
            + opt_list(end_extension, seq![(ENDEXTN, DT_I32, i32_bytes(end_extension->0 as int))])));
}

pub open spec fn path_list(layer: i16, datatype: i16, centerline: Seq<Point>, width: Option<i32>, path_type: Option<i16>,
    begin_extension: Option<i32>, end_extension: Option<i32>, meta: MetaV) -> Seq<Rec3> {
    head3_list(PATH, layer, DATATYPE, datatype) + (path_opts_list(path_type, width, begin_extension, end_extension)
        + (xy_list(centerline, false) + meta_list(meta)))
}

proof fn lemma_gives_path(layer: i16, datatype: i16, centerline: Seq<Point>, width: Option<i32>, path_type: Option<i16>,
    begin_extension: Option<i32>, end_extension: Option<i32>, meta: MetaV)
    requires
        meta.unhandled.len() == 0,
    ensures
        gives(path_body(layer, datatype, centerline, width, path_type, begin_extension, end_extension, meta),
            path_list(layer, datatype, centerline, width, path_type, begin_extension, end_extension, meta)),
{
    reveal(path_body);
    lemma_gives_head3(PATH, layer, DATATYPE, datatype);
    lemma_gives_path_opts(path_type, width, begin_extension, end_extension);
    lemma_gives_rec(XY, DT_I32, points_bytes(closed(centerline, false)));
    lemma_gives_meta(meta);
    lemma_gives_cat(xy_rec(centerline, false), xy_list(centerline, false), meta_recs(meta), meta_list(meta));
    lemma_gives_cat(path_opts(path_type, width, begin_extension, end_extension), path_opts_list(path_type, width, begin_extension, end_extension),
        cat(xy_rec(centerline, false), meta_recs(meta)), xy_list(centerline, false) + meta_list(meta));
    lemma_gives_cat(head3(PATH, layer, DATATYPE, datatype), head3_list(PATH, layer, DATATYPE, datatype),
        cat(path_opts(path_type, width, begin_extension, end_extension), cat(xy_rec(centerline, false), meta_recs(meta))),
        path_opts_list(path_type, width, begin_extension, end_extension) + (xy_list(centerline, false) + meta_list(meta)));
}

pub open spec fn text_opts_list(presentation: Option<u16>, path_type: Option<i16>, width: Option<i32>) -> Seq<Rec3> {
    opt_list(presentation, seq![(PRESENTATION, DT_BIT_ARRAY, u16_bytes(presentation->0 as int))])
        + (opt_list(path_type, seq![(PATHTYPE, DT_I16, i16_bytes(path_type->0 as int))])
        + opt_list(width, seq![(WIDTH, DT_I32, i32_bytes(width->0 as int))]))
}

pub open spec fn text_list(layer: i16, text_type: i16, origin: Point, string: Seq<char>, presentation: Option<u16>,
    path_type: Option<i16>, width: Option<i32>, transform: GdsTransform, meta: MetaV) -> Seq<Rec3> {
    head3_list(TEXT, layer, TEXTTYPE, text_type) + (text_opts_list(presentation, path_type, width)
        + (transform_list(transform) + (xy_list(seq![origin], false) + (seq![(STRING, DT_ASCII, text_bytes(string))] + meta_list(meta)))))
}

proof fn lemma_gives_text(layer: i16, text_type: i16, origin: Point, string: Seq<char>, presentation: Option<u16>,
    path_type: Option<i16>, width: Option<i32>, transform: GdsTransform, meta: MetaV)
    requires
        meta.unhandled.len() == 0,
    ensures
        gives(text_body(layer, text_type, origin, string, presentation, path_type, width, transform, meta),
            text_list(layer, text_type, origin, string, presentation, path_type, width, transform, meta)),
{
    reveal(text_body);
    lemma_gives_head3(TEXT, layer, TEXTTYPE, text_type);
    lemma_gives_rec(PRESENTATION, DT_BIT_ARRAY, u16_bytes(presentation->0 as int));
    lemma_gives_opt(presentation, rec(PRESENTATION, DT_BIT_ARRAY, u16_bytes(presentation->0 as int)), seq![(PRESENTATION, DT_BIT_ARRAY, u16_bytes(presentation->0 as int))]);
    lemma_gives_i16_opt(path_type, PATHTYPE);
    lemma_gives_i32_opt(width, WIDTH);
    lemma_gives_cat(opt_rec(path_type, i16_rec(PATHTYPE, path_type->0)), opt_list(path_type, seq![(PATHTYPE, DT_I16, i16_bytes(path_type->0 as int))]),
        opt_rec(width, i32_rec(WIDTH, width->0)), opt_list(width, seq![(WIDTH, DT_I32, i32_bytes(width->0 as int))]));
    lemma_gives_cat(opt_rec(presentation, rec(PRESENTATION, DT_BIT_ARRAY, u16_bytes(presentation->0 as int))),
        opt_list(presentation, seq![(PRESENTATION, DT_BIT_ARRAY, u16_bytes(presentation->0 as int))]),
        cat(opt_rec(path_type, i16_rec(PATHTYPE, path_type->0)), opt_rec(width, i32_rec(WIDTH, width->0))),
        opt_list(path_type, seq![(PATHTYPE, DT_I16, i16_bytes(path_type->0 as int))]) + opt_list(width, seq![(WIDTH, DT_I32, i32_bytes(width->0 as int))]));
    lemma_gives_transform(transform);
    lemma_gives_rec(XY, DT_I32, points_bytes(closed(seq![origin], false)));
    lemma_gives_ascii(STRING, string);
    lemma_gives_meta(meta);
    lemma_gives_cat(ascii_rec(STRING, string), seq![(STRING, DT_ASCII, text_bytes(string))], meta_recs(meta), meta_list(meta));
    lemma_gives_cat(xy_rec(seq![origin], false), xy_list(seq![origin], false), cat(ascii_rec(STRING, string), meta_recs(meta)),
        seq![(STRING, DT_ASCII, text_bytes(string))] + meta_list(meta));
    lemma_gives_cat(transform_recs(transform), transform_list(transform), cat(xy_rec(seq![origin], false), cat(ascii_rec(STRING, string), meta_recs(meta))),
        xy_list(seq![origin], false) + (seq![(STRING, DT_ASCII, text_bytes(string))] + meta_list(meta)));
    lemma_gives_cat(text_opts(presentation, path_type, width), text_opts_list(presentation, path_type, width),
        cat(transform_recs(transform), cat(xy_rec(seq![origin], false), cat(ascii_rec(STRING, string), meta_recs(meta)))),
        transform_list(transform) + (xy_list(seq![origin], false) + (seq![(STRING, DT_ASCII, text_bytes(string))] + meta_list(meta))));
    lemma_gives_cat(head3(TEXT, layer, TEXTTYPE, text_type), head3_list(TEXT, layer, TEXTTYPE, text_type),
        cat(text_opts(presentation, path_type, width), cat(transform_recs(transform), cat(xy_rec(seq![origin], false), cat(ascii_rec(STRING, string), meta_recs(meta))))),
        text_opts_list(presentation, path_type, width) + (transform_list(transform) + (xy_list(seq![origin], false) + (seq![(STRING, DT_ASCII, text_bytes(string))] + meta_list(meta)))));
}

pub open spec fn sref_list(structure: Seq<char>, origin: Point, transform: GdsTransform, meta: MetaV) -> Seq<Rec3> {
    seq![(SREF, DT_NONE, Seq::<u8>::empty()), (SNAME, DT_ASCII, text_bytes(structure))]
        + (transform_list(transform) + (xy_list(seq![origin], false) + meta_list(meta)))
}

proof fn lemma_gives_sref(structure: Seq<char>, origin: Point, transform: GdsTransform, meta: MetaV)
    requires
        meta.unhandled.len() == 0,
    ensures
        gives(sref_body(structure, origin, transform, meta), sref_list(structure, origin, transform, meta)),
{
    reveal(sref_body);
    lemma_gives_rec(SREF, DT_NONE, Seq::empty());
    lemma_gives_ascii(SNAME, structure);
    lemma_gives_transform(transform);
    lemma_gives_rec(XY, DT_I32, points_bytes(closed(seq![origin], false)));
    lemma_gives_meta(meta);
    lemma_gives_cat(xy_rec(seq![origin], false), xy_list(seq![origin], false), meta_recs(meta), meta_list(meta));
    lemma_gives_cat(transform_recs(transform), transform_list(transform), cat(xy_rec(seq![origin], false), meta_recs(meta)),
        xy_list(seq![origin], false) + meta_list(meta));
    lemma_gives_cat(ascii_rec(SNAME, structure), seq![(SNAME, DT_ASCII, text_bytes(structure))],
        cat(transform_recs(transform), cat(xy_rec(seq![origin], false), meta_recs(meta))),
        transform_list(transform) + (xy_list(seq![origin], false) + meta_list(meta)));
    lemma_gives_cat(none_rec(SREF), seq![(SREF, DT_NONE, Seq::<u8>::empty())],
        cat(ascii_rec(SNAME, structure), cat(transform_recs(transform), cat(xy_rec(seq![origin], false), meta_recs(meta)))),
        seq![(SNAME, DT_ASCII, text_bytes(structure))] + (transform_list(transform) + (xy_list(seq![origin], false) + meta_list(meta))));
    assert(seq![(SREF, DT_NONE, Seq::<u8>::empty())] + (seq![(SNAME, DT_ASCII, text_bytes(structure))]
        + (transform_list(transform) + (xy_list(seq![origin], false) + meta_list(meta)))) =~= sref_list(structure, origin, transform, meta));
}

pub open spec fn colrow_bytes(columns: u16, rows: u16) -> Seq<u8> {
    i16_bytes(columns as i16 as int) + i16_bytes(rows as i16 as int)
}

pub open spec fn aref_list(structure: Seq<char>, columns: u16, rows: u16, origin: Point, column_endpoint: Point,
    row_endpoint: Point, transform: GdsTransform, meta: MetaV) -> Seq<Rec3> {
    seq![(AREF, DT_NONE, Seq::<u8>::empty()), (SNAME, DT_ASCII, text_bytes(structure))]
        + (transform_list(transform) + (seq![(COLROW, DT_I16, colrow_bytes(columns, rows))]
        + (xy_list(seq![origin, column_endpoint, row_endpoint], false) + meta_list(meta))))
}

proof fn lemma_gives_aref(structure: Seq<char>, columns: u16, rows: u16, origin: Point, column_endpoint: Point,
    row_endpoint: Point, transform: GdsTransform, meta: MetaV)
    requires
        meta.unhandled.len() == 0,
    ensures
        gives(aref_body(structure, columns, rows, origin, column_endpoint, row_endpoint, transform, meta),
            aref_list(structure, columns, rows, origin, column_endpoint, row_endpoint, transform, meta)),
{
    reveal(aref_body);
    let pts = seq![origin, column_endpoint, row_endpoint];
    lemma_gives_rec(AREF, DT_NONE, Seq::empty());
    lemma_gives_ascii(SNAME, structure);
    lemma_gives_transform(transform);
    lemma_gives_rec(COLROW, DT_I16, colrow_bytes(columns, rows));
    lemma_gives_rec(XY, DT_I32, points_bytes(closed(pts, false)));
    lemma_gives_meta(meta);
    lemma_gives_cat(xy_rec(pts, false), xy_list(pts, false), meta_recs(meta), meta_list(meta));
    lemma_gives_cat(rec(COLROW, DT_I16, colrow_bytes(columns, rows)), seq![(COLROW, DT_I16, colrow_bytes(columns, rows))],
        cat(xy_rec(pts, false), meta_recs(meta)), xy_list(pts, false) + meta_list(meta));
    lemma_gives_cat(transform_recs(transform), transform_list(transform),
        cat(rec(COLROW, DT_I16, colrow_bytes(columns, rows)), cat(xy_rec(pts, false), meta_recs(meta))),
        seq![(COLROW, DT_I16, colrow_bytes(columns, rows))] + (xy_list(pts, false) + meta_list(meta)));
    lemma_gives_cat(ascii_rec(SNAME, structure), seq![(SNAME, DT_ASCII, text_bytes(structure))],
        cat(transform_recs(transform), cat(rec(COLROW, DT_I16, colrow_bytes(columns, rows)), cat(xy_rec(pts, false), meta_recs(meta)))),
        transform_list(transform) + (seq![(COLROW, DT_I16, colrow_bytes(columns, rows))] + (xy_list(pts, false) + meta_list(meta))));
    lemma_gives_cat(none_rec(AREF), seq![(AREF, DT_NONE, Seq::<u8>::empty())],
        cat(ascii_rec(SNAME, structure), cat(transform_recs(transform), cat(rec(COLROW, DT_I16, colrow_bytes(columns, rows)), cat(xy_rec(pts, false), meta_recs(meta))))),
        seq![(SNAME, DT_ASCII, text_bytes(structure))] + (transform_list(transform) + (seq![(COLROW, DT_I16, colrow_bytes(columns, rows))] + (xy_list(pts, false) + meta_list(meta)))));
    assert(seq![(AREF, DT_NONE, Seq::<u8>::empty())] + (seq![(SNAME, DT_ASCII, text_bytes(structure))] + (transform_list(transform)
        + (seq![(COLROW, DT_I16, colrow_bytes(columns, rows))] + (xy_list(pts, false) + meta_list(meta)))))
        =~= aref_list(structure, columns, rows, origin, column_endpoint, row_endpoint, transform, meta));
}

#[verifier::opaque]
pub open spec fn body_list(e: ElementV) -> Seq<Rec3> {
    match e {
        ElementV::Boundary { layer, datatype, ring, meta } => boundary_list(BOUNDARY, DATATYPE, layer, datatype, ring, meta),
        ElementV::Path { layer, datatype, centerline, width, path_type, begin_extension, end_extension, meta } =>
            path_list(layer, datatype, centerline, width, path_type, begin_extension, end_extension, meta),
        ElementV::Box { layer, box_type, ring, meta } => boundary_list(BOX, BOXTYPE, layer, box_type, ring, meta),
        ElementV::Text { layer, text_type, origin, string, presentation, path_type, width, transform, meta } =>
            text_list(layer, text_type, origin, string, presentation, path_type, width, transform, meta),
        ElementV::Node { layer, node_type, points, meta } =>
            head3_list(NODE, layer, NODETYPE, node_type) + (xy_list(points, false) + meta_list(meta)),
        ElementV::Sref { structure, origin, transform, meta } => sref_list(structure, origin, transform, meta),
        ElementV::Aref { structure, columns, rows, origin, column_endpoint, row_endpoint, transform, meta } =>
            aref_list(structure, columns, rows, origin, column_endpoint, row_endpoint, transform, meta),
        ElementV::Unsupported { start, records } => Seq::empty(),
    }
}

pub open spec fn element_list(e: ElementV) -> Seq<Rec3> {
    body_list(e) + seq![(ENDEL, DT_NONE, Seq::<u8>::empty())]
}

pub open spec fn meta_of(e: ElementV) -> MetaV {
    match e {
        ElementV::Boundary { meta, .. } => meta,
        ElementV::Path { meta, .. } => meta,
        ElementV::Box { meta, .. } => meta,
        ElementV::Text { meta, .. } => meta,
        ElementV::Node { meta, .. } => meta,
        ElementV::Sref { meta, .. } => meta,
        ElementV::Aref { meta, .. } => meta,
        ElementV::Unsupported { .. } => MetaV { properties: Seq::empty(), element_flags: None, plex: None, unhandled: Seq::empty() },
    }
}

/// Elements that the writer emits as typed records: not kept raw, with no
/// kept records in their metadata.
pub open spec fn typed(e: ElementV) -> bool {
    !(e is Unsupported) && meta_of(e).unhandled.len() == 0
}

proof fn lemma_gives_element(e: ElementV)
    requires
        typed(e),
    ensures
        gives(element_recs(e), element_list(e)),
{
    reveal(element_body);
    reveal(body_list);
    match e {
        ElementV::Boundary { layer, datatype, ring, meta } => lemma_gives_boundary(BOUNDARY, DATATYPE, layer, datatype, ring, meta),
        ElementV::Path { layer, datatype, centerline, width, path_type, begin_extension, end_extension, meta } =>
            lemma_gives_path(layer, datatype, centerline, width, path_type, begin_extension, end_extension, meta),
        ElementV::Box { layer, box_type, ring, meta } => lemma_gives_boundary(BOX, BOXTYPE, layer, box_type, ring, meta),
        ElementV::Text { layer, text_type, origin, string, presentation, path_type, width, transform, meta } =>
            lemma_gives_text(layer, text_type, origin, string, presentation, path_type, width, transform, meta),
        ElementV::Node { layer, node_type, points, meta } => {
            lemma_gives_head3(NODE, layer, NODETYPE, node_type);
            lemma_gives_rec(XY, DT_I32, points_bytes(closed(points, false)));
            lemma_gives_meta(meta);
            lemma_gives_cat(xy_rec(points, false), xy_list(points, false), meta_recs(meta), meta_list(meta));
            lemma_gives_cat(head3(NODE, layer, NODETYPE, node_type), head3_list(NODE, layer, NODETYPE, node_type),
                cat(xy_rec(points, false), meta_recs(meta)), xy_list(points, false) + meta_list(meta));
        },
        ElementV::Sref { structure, origin, transform, meta } => lemma_gives_sref(structure, origin, transform, meta),
        ElementV::Aref { structure, columns, rows, origin, column_endpoint, row_endpoint, transform, meta } =>
            lemma_gives_aref(structure, columns, rows, origin, column_endpoint, row_endpoint, transform, meta),
        ElementV::Unsupported { .. } => {},
    }
    lemma_gives_rec(ENDEL, DT_NONE, Seq::empty());
    lemma_gives_cat(element_body(e), body_list(e), none_rec(ENDEL), seq![(ENDEL, DT_NONE, Seq::<u8>::empty())]);
}

pub open spec fn elements_list(es: Seq<ElementV>) -> Seq<Rec3>
    decreases es.len(),
{
    if es.len() == 0 { Seq::empty() } else { elements_list(es.drop_last()) + element_list(es.last()) }
}

proof fn lemma_gives_elements(es: Seq<ElementV>)
    requires
        forall|i: int| 0 <= i < es.len() ==> typed(#[trigger] es[i]),
    ensures
        gives(elements_recs(es), elements_list(es)),
    decreases es.len(),
{
    if es.len() == 0 {
        lemma_gives_empty();
    } else {
        lemma_gives_elements(es.drop_last());
        lemma_gives_element(es.last());
        lemma_gives_cat(elements_recs(es.drop_last()), elements_list(es.drop_last()), element_recs(es.last()), element_list(es.last()));
    }
}

pub open spec fn structure_list(st: StructureV) -> Seq<Rec3> {
    seq![(BGNSTR, DT_I16, i16s_bytes(st.timestamps)), (STRNAME, DT_ASCII, text_bytes(st.name))]
        + (elements_list(st.elements) + seq![(ENDSTR, DT_NONE, Seq::<u8>::empty())])
}

pub open spec fn typed_structure(st: StructureV) -> bool {
    &&& st.unhandled.len() == 0
    &&& forall|i: int| 0 <= i < st.elements.len() ==> typed(#[trigger] st.elements[i])
}

proof fn lemma_gives_structure(st: StructureV)
    requires
        typed_structure(st),
    ensures
        gives(structure_recs(st), structure_list(st)),
{
    reveal(structure_recs);
    lemma_gives_rec(BGNSTR, DT_I16, i16s_bytes(st.timestamps));
    lemma_gives_ascii(STRNAME, st.name);
    assert(raw_recs(st.unhandled) == Ok::<Seq<u8>, super::gds::LayoutErrorKind>(Seq::empty()));
    lemma_gives_empty();
    lemma_gives_elements(st.elements);
    lemma_gives_rec(ENDSTR, DT_NONE, Seq::empty());
    lemma_gives_cat(elements_recs(st.elements), elements_list(st.elements), none_rec(ENDSTR), seq![(ENDSTR, DT_NONE, Seq::<u8>::empty())]);
    lemma_gives_cat(raw_recs(st.unhandled), Seq::empty(), cat(elements_recs(st.elements), none_rec(ENDSTR)),
        elements_list(st.elements) + seq![(ENDSTR, DT_NONE, Seq::<u8>::empty())]);
    assert(Seq::<Rec3>::empty() + (elements_list(st.elements) + seq![(ENDSTR, DT_NONE, Seq::<u8>::empty())])
        =~= elements_list(st.elements) + seq![(ENDSTR, DT_NONE, Seq::<u8>::empty())]);
    lemma_gives_cat(ascii_rec(STRNAME, st.name), seq![(STRNAME, DT_ASCII, text_bytes(st.name))],
        cat(raw_recs(st.unhandled), cat(elements_recs(st.elements), none_rec(ENDSTR))),
        elements_list(st.elements) + seq![(ENDSTR, DT_NONE, Seq::<u8>::empty())]);
    lemma_gives_cat(rec(BGNSTR, DT_I16, i16s_bytes(st.timestamps)), seq![(BGNSTR, DT_I16, i16s_bytes(st.timestamps))],
        cat(ascii_rec(STRNAME, st.name), cat(raw_recs(st.unhandled), cat(elements_recs(st.elements), none_rec(ENDSTR)))),
        seq![(STRNAME, DT_ASCII, text_bytes(st.name))] + (elements_list(st.elements) + seq![(ENDSTR, DT_NONE, Seq::<u8>::empty())]));
    assert(seq![(BGNSTR, DT_I16, i16s_bytes(st.timestamps))] + (seq![(STRNAME, DT_ASCII, text_bytes(st.name))]
        + (elements_list(st.elements) + seq![(ENDSTR, DT_NONE, Seq::<u8>::empty())])) =~= structure_list(st));
}

pub open spec fn structures_list(ss: Seq<StructureV>) -> Seq<Rec3>
    decreases ss.len(),
{
    if ss.len() == 0 { Seq::empty() } else { structures_list(ss.drop_last()) + structure_list(ss.last()) }
}

proof fn lemma_gives_structures(ss: Seq<StructureV>)
    requires
        forall|i: int| 0 <= i < ss.len() ==> typed_structure(#[trigger] ss[i]),
    ensures
        gives(structures_recs(ss), structures_list(ss)),
    decreases ss.len(),
{
    if ss.len() == 0 {
        lemma_gives_empty();
    } else {
        lemma_gives_structures(ss.drop_last());
        lemma_gives_structure(ss.last());
        lemma_gives_cat(structures_recs(ss.drop_last()), structures_list(ss.drop_last()), structure_recs(ss.last()), structure_list(ss.last()));
    }
}

pub open spec fn units_bytes(l: LibraryV) -> Seq<u8> {
    u64_bytes(l.units.user_units_per_database_unit as int) + u64_bytes(l.units.meters_per_database_unit as int)
}

pub open spec fn envelope_list(l: LibraryV) -> Seq<Rec3> {
    seq![(HEADER, DT_I16, i16_bytes(l.version as int)), (BGNLIB, DT_I16, i16s_bytes(l.timestamps)),
        (LIBNAME, DT_ASCII, text_bytes(l.name)), (UNITS, DT_REAL8, units_bytes(l))]
}

pub open spec fn library_list(l: LibraryV) -> Seq<Rec3> {
    envelope_list(l) + (structures_list(l.structures) + seq![(ENDLIB, DT_NONE, Seq::<u8>::empty())])
}

pub open spec fn typed_library(l: LibraryV) -> bool {
    &&& l.unhandled.len() == 0
    &&& forall|i: int| 0 <= i < l.structures.len() ==> typed_structure(#[trigger] l.structures[i])
}

pub proof fn lemma_gives_library(l: LibraryV)
    requires
        typed_library(l),
    ensures
        gives(library_recs(l), library_list(l)),
{
    lemma_gives_rec(HEADER, DT_I16, i16_bytes(l.version as int));
    lemma_gives_rec(BGNLIB, DT_I16, i16s_bytes(l.timestamps));
    lemma_gives_ascii(LIBNAME, l.name);
    lemma_gives_rec(UNITS, DT_REAL8, units_bytes(l));
    assert(raw_recs(l.unhandled) == Ok::<Seq<u8>, super::gds::LayoutErrorKind>(Seq::empty()));
    lemma_gives_empty();
    lemma_gives_structures(l.structures);
    lemma_gives_rec(ENDLIB, DT_NONE, Seq::empty());
    let tail = seq![(ENDLIB, DT_NONE, Seq::<u8>::empty())];
    lemma_gives_cat(structures_recs(l.structures), structures_list(l.structures), none_rec(ENDLIB), tail);
    lemma_gives_cat(raw_recs(l.unhandled), Seq::empty(), cat(structures_recs(l.structures), none_rec(ENDLIB)), structures_list(l.structures) + tail);
    assert(Seq::<Rec3>::empty() + (structures_list(l.structures) + tail) =~= structures_list(l.structures) + tail);
    let r4 = cat(raw_recs(l.unhandled), cat(structures_recs(l.structures), none_rec(ENDLIB)));
    lemma_gives_cat(rec(UNITS, DT_REAL8, units_bytes(l)), seq![(UNITS, DT_REAL8, units_bytes(l))], r4, structures_list(l.structures) + tail);
    let r3 = cat(rec(UNITS, DT_REAL8, units_bytes(l)), r4);
    lemma_gives_cat(ascii_rec(LIBNAME, l.name), seq![(LIBNAME, DT_ASCII, text_bytes(l.name))], r3,
        seq![(UNITS, DT_REAL8, units_bytes(l))] + (structures_list(l.structures) + tail));
    let r2 = cat(ascii_rec(LIBNAME, l.name), r3);
    lemma_gives_cat(rec(BGNLIB, DT_I16, i16s_bytes(l.timestamps)), seq![(BGNLIB, DT_I16, i16s_bytes(l.timestamps))], r2,
        seq![(LIBNAME, DT_ASCII, text_bytes(l.name))] + (seq![(UNITS, DT_REAL8, units_bytes(l))] + (structures_list(l.structures) + tail)));
    let r1 = cat(rec(BGNLIB, DT_I16, i16s_bytes(l.timestamps)), r2);
    lemma_gives_cat(i16_rec(HEADER, l.version), seq![(HEADER, DT_I16, i16_bytes(l.version as int))], r1,
        seq![(BGNLIB, DT_I16, i16s_bytes(l.timestamps))] + (seq![(LIBNAME, DT_ASCII, text_bytes(l.name))]
        + (seq![(UNITS, DT_REAL8, units_bytes(l))] + (structures_list(l.structures) + tail))));
    assert(seq![(HEADER, DT_I16, i16_bytes(l.version as int))] + (seq![(BGNLIB, DT_I16, i16s_bytes(l.timestamps))]
        + (seq![(LIBNAME, DT_ASCII, text_bytes(l.name))] + (seq![(UNITS, DT_REAL8, units_bytes(l))]
        + (structures_list(l.structures) + tail)))) =~= library_list(l));
}

// --- decoding the writer's records ---

/// Records with the type, data type and payload of `l`, at consecutive
/// offsets from `start`.
pub open spec fn place(l: Seq<Rec3>, start: int) -> Seq<RecordSpec>
    decreases l.len(),
{
    if l.len() == 0 {
        Seq::empty()
    } else {
        seq![RecordSpec { ty: l[0].0, dt: l[0].1, payload: l[0].2, offset: start }] + place(l.drop_first(), start + l[0].2.len() + 4)
    }
}

pub open spec fn shaped3(l: Seq<Rec3>) -> bool {
    forall|i: int| 0 <= i < l.len() ==> shape_ok((#[trigger] l[i]).0, l[i].1, l[i].2.len())
}

pub proof fn lemma_place(l: Seq<Rec3>, start: int)
    ensures
        place(l, start).len() == l.len(),
        encode_records(place(l, start)) == enc_list(l),
        placed(place(l, start), start),
        forall|i: int| 0 <= i < l.len() ==> (#[trigger] place(l, start)[i]).ty == l[i].0 && place(l, start)[i].dt == l[i].1
            && place(l, start)[i].payload == l[i].2,
    decreases l.len(),
{
    if l.len() == 0 {
        assert(enc_list(l) == Seq::<u8>::empty());
    } else {
        let rest = l.drop_first();
        let s2 = start + l[0].2.len() + 4;
        lemma_place(rest, s2);
        let r = RecordSpec { ty: l[0].0, dt: l[0].1, payload: l[0].2, offset: start };
        let pl = place(l, start);
        assert(pl == seq![r] + place(rest, s2));
        assert(pl[0] == r);
        assert(pl.drop_first() =~= place(rest, s2));
        lemma_enc_append(seq![l[0]], rest);
        assert(seq![l[0]] + rest =~= l);
        let one = seq![l[0]];
        assert(one.drop_last() =~= Seq::<Rec3>::empty());
        assert(enc_list(one.drop_last()) == Seq::<u8>::empty());
        assert(enc_list(one) =~= encode_record(l[0].0, l[0].1, l[0].2));
        assert forall|i: int| 0 <= i < l.len() implies (#[trigger] place(l, start)[i]).ty == l[i].0 && place(l, start)[i].dt == l[i].1
            && place(l, start)[i].payload == l[i].2 by {
            if i > 0 {
                assert(pl[i] == place(rest, s2)[i - 1]);
                assert(rest[i - 1] == l[i]);
            }
        }
    }
}

/// Decoding the bytes of a record list gives the list back, at consecutive
/// offsets.
pub proof fn lemma_decode_list(l: Seq<Rec3>)
    requires
        sized(l),
        shaped3(l),
        enc_list(l).len() <= usize::MAX,
    ensures
        decode_from(enc_list(l), 0) == Ok::<Seq<RecordSpec>, DecodeFault>(place(l, 0)),
{
    lemma_place(l, 0);
    let rs = place(l, 0);
    assert forall|i: int| 0 <= i < rs.len() implies encodable(#[trigger] rs[i]) by {
        assert(rs[i].ty == l[i].0 && rs[i].dt == l[i].1 && rs[i].payload == l[i].2);
        assert(l[i].2.len() + 4 <= 65535 && l[i].2.len() % 2 == 0);
        assert(shape_ok(l[i].0, l[i].1, l[i].2.len()));
    }
    lemma_record_round_trip(rs);
}

pub proof fn lemma_shaped_cat(a: Seq<Rec3>, b: Seq<Rec3>)
    requires
        shaped3(a),
        shaped3(b),
    ensures
        shaped3(a + b),
{
    assert forall|i: int| 0 <= i < (a + b).len() implies shape_ok((#[trigger] (a + b)[i]).0, (a + b)[i].1, (a + b)[i].2.len()) by {
        if i < a.len() {
            assert((a + b)[i] == a[i]);
        } else {
            assert((a + b)[i] == b[i - a.len()]);
        }
    }
}

pub proof fn lemma_text_len(s: Seq<char>)
    ensures
        text_bytes(s).len() % 2 == 0,
{
}

proof fn lemma_shaped_props(ps: Seq<PropertyV>)
    ensures
        shaped3(props_list(ps)),
    decreases ps.len(),
{
    if ps.len() > 0 {
        lemma_shaped_props(ps.drop_last());
        lemma_i16_bytes(ps.last().attribute as int);
        lemma_text_len(ps.last().value);
        lemma_shaped_cat(props_list(ps.drop_last()), seq![(PROPATTR, DT_I16, i16_bytes(ps.last().attribute as int)),
            (PROPVALUE, DT_ASCII, text_bytes(ps.last().value))]);
    }
}

proof fn lemma_shaped_meta(m: MetaV)
    ensures
        shaped3(meta_list(m)),
{
    lemma_u16_bytes(m.element_flags->0 as int);
    lemma_i32_bytes(m.plex->0 as int);
    lemma_shaped_props(m.properties);
    let a = opt_list(m.element_flags, seq![(ELFLAGS, DT_BIT_ARRAY, u16_bytes(m.element_flags->0 as int))]);
    let b = opt_list(m.plex, seq![(PLEX, DT_I32, i32_bytes(m.plex->0 as int))]);
    lemma_shaped_cat(b, props_list(m.properties));
    lemma_shaped_cat(a, b + props_list(m.properties));
}

proof fn lemma_shaped_transform(t: GdsTransform)
    ensures
        shaped3(transform_list(t)),
{
    lemma_u16_bytes(strans_bits(t) as int);
    lemma_u64_bytes(t.magnification->0 as int);
    lemma_u64_bytes(t.angle_degrees->0 as int);
    let a = if strans_bits(t) != 0 { seq![(STRANS, DT_BIT_ARRAY, u16_bytes(strans_bits(t) as int))] } else { Seq::<Rec3>::empty() };
    let b = opt_list(t.magnification, seq![(MAG, DT_REAL8, u64_bytes(t.magnification->0 as int))]);
    let c = opt_list(t.angle_degrees, seq![(ANGLE, DT_REAL8, u64_bytes(t.angle_degrees->0 as int))]);
    lemma_shaped_cat(b, c);
    lemma_shaped_cat(a, b + c);
}

proof fn lemma_shaped_xy(ps: Seq<Point>, close: bool)
    ensures
        shaped3(xy_list(ps, close)),
{
    lemma_points_bytes(closed(ps, close));
    let n = closed(ps, close).len();
    assert((8 * n) % 8 == 0) by (nonlinear_arith);
}

proof fn lemma_shaped_head3(ty: u8, layer: i16, tty: u8, t: i16)
    requires
        ty == BOUNDARY || ty == BOX || ty == PATH || ty == TEXT || ty == NODE,
        tty == DATATYPE || tty == BOXTYPE || tty == TEXTTYPE || tty == NODETYPE,
    ensures
        shaped3(head3_list(ty, layer, tty, t)),
{
    lemma_i16_bytes(layer as int);
    lemma_i16_bytes(t as int);
}

proof fn lemma_shaped_boundary(ty: u8, tty: u8, layer: i16, t: i16, ring: Seq<Point>, closed: bool, meta: MetaV)
    requires
        ty == BOUNDARY || ty == BOX || ty == NODE,
        tty == DATATYPE || tty == BOXTYPE || tty == NODETYPE,
        meta.unhandled.len() == 0,
    ensures
        shaped3(head3_list(ty, layer, tty, t) + (xy_list(ring, closed) + meta_list(meta))),
{
    lemma_shaped_head3(ty, layer, tty, t);
    lemma_shaped_xy(ring, closed);
    lemma_shaped_meta(meta);
    lemma_shaped_cat(xy_list(ring, closed), meta_list(meta));
    lemma_shaped_cat(head3_list(ty, layer, tty, t), xy_list(ring, closed) + meta_list(meta));
}

proof fn lemma_shaped_path(layer: i16, datatype: i16, centerline: Seq<Point>, width: Option<i32>, path_type: Option<i16>,
    begin_extension: Option<i32>, end_extension: Option<i32>, meta: MetaV)
    requires
        meta.unhandled.len() == 0,
    ensures
        shaped3(path_list(layer, datatype, centerline, width, path_type, begin_extension, end_extension, meta)),
{
    lemma_shaped_head3(PATH, layer, DATATYPE, datatype);
    lemma_i16_bytes(path_type->0 as int);
    lemma_i32_bytes(width->0 as int);
    lemma_i32_bytes(begin_extension->0 as int);
    lemma_i32_bytes(end_extension->0 as int);
    let a = opt_list(path_type, seq![(PATHTYPE, DT_I16, i16_bytes(path_type->0 as int))]);
    let b = opt_list(width, seq![(WIDTH, DT_I32, i32_bytes(width->0 as int))]);
    let c = opt_list(begin_extension, seq![(BGNEXTN, DT_I32, i32_bytes(begin_extension->0 as int))]);
    let d = opt_list(end_extension, seq![(ENDEXTN, DT_I32, i32_bytes(end_extension->0 as int))]);
    lemma_shaped_cat(c, d);
    lemma_shaped_cat(b, c + d);
    lemma_shaped_cat(a, b + (c + d));
    lemma_shaped_xy(centerline, false);
    lemma_shaped_meta(meta);
    lemma_shaped_cat(xy_list(centerline, false), meta_list(meta));
    lemma_shaped_cat(path_opts_list(path_type, width, begin_extension, end_extension), xy_list(centerline, false) + meta_list(meta));
    lemma_shaped_cat(head3_list(PATH, layer, DATATYPE, datatype),
        path_opts_list(path_type, width, begin_extension, end_extension) + (xy_list(centerline, false) + meta_list(meta)));
}

proof fn lemma_shaped_text(layer: i16, text_type: i16, origin: Point, string: Seq<char>, presentation: Option<u16>,
    path_type: Option<i16>, width: Option<i32>, transform: GdsTransform, meta: MetaV)
    requires
        meta.unhandled.len() == 0,
    ensures
        shaped3(text_list(layer, text_type, origin, string, presentation, path_type, width, transform, meta)),
{
    lemma_shaped_head3(TEXT, layer, TEXTTYPE, text_type);
    lemma_u16_bytes(presentation->0 as int);
    lemma_i16_bytes(path_type->0 as int);
    lemma_i32_bytes(width->0 as int);
    let a = opt_list(presentation, seq![(PRESENTATION, DT_BIT_ARRAY, u16_bytes(presentation->0 as int))]);
    let b = opt_list(path_type, seq![(PATHTYPE, DT_I16, i16_bytes(path_type->0 as int))]);
    let c = opt_list(width, seq![(WIDTH, DT_I32, i32_bytes(width->0 as int))]);
    lemma_shaped_cat(b, c);
    lemma_shaped_cat(a, b + c);
    lemma_shaped_transform(transform);
    lemma_shaped_xy(seq![origin], false);
    lemma_text_len(string);
    lemma_shaped_meta(meta);
    let st = seq![(STRING, DT_ASCII, text_bytes(string))];
    lemma_shaped_cat(st, meta_list(meta));
    lemma_shaped_cat(xy_list(seq![origin], false), st + meta_list(meta));
    lemma_shaped_cat(transform_list(transform), xy_list(seq![origin], false) + (st + meta_list(meta)));
    lemma_shaped_cat(text_opts_list(presentation, path_type, width), transform_list(transform) + (xy_list(seq![origin], false) + (st + meta_list(meta))));
    lemma_shaped_cat(head3_list(TEXT, layer, TEXTTYPE, text_type), text_opts_list(presentation, path_type, width)
        + (transform_list(transform) + (xy_list(seq![origin], false) + (st + meta_list(meta)))));
}

proof fn lemma_shaped_sref(structure: Seq<char>, origin: Point, transform: GdsTransform, meta: MetaV)
    requires
        meta.unhandled.len() == 0,
    ensures
        shaped3(sref_list(structure, origin, transform, meta)),
{
    lemma_text_len(structure);
    lemma_shaped_transform(transform);
    lemma_shaped_xy(seq![origin], false);
    lemma_shaped_meta(meta);
    lemma_shaped_cat(xy_list(seq![origin], false), meta_list(meta));
    lemma_shaped_cat(transform_list(transform), xy_list(seq![origin], false) + meta_list(meta));
    lemma_shaped_cat(seq![(SREF, DT_NONE, Seq::<u8>::empty()), (SNAME, DT_ASCII, text_bytes(structure))],
        transform_list(transform) + (xy_list(seq![origin], false) + meta_list(meta)));
}

proof fn lemma_shaped_aref(structure: Seq<char>, columns: u16, rows: u16, origin: Point, column_endpoint: Point,
    row_endpoint: Point, transform: GdsTransform, meta: MetaV)
    requires
        meta.unhandled.len() == 0,
    ensures
        shaped3(aref_list(structure, columns, rows, origin, column_endpoint, row_endpoint, transform, meta)),
{
    let pts = seq![origin, column_endpoint, row_endpoint];
    lemma_text_len(structure);
    lemma_shaped_transform(transform);
    lemma_i16_bytes(columns as i16 as int);
    lemma_i16_bytes(rows as i16 as int);
    lemma_shaped_xy(pts, false);
    lemma_shaped_meta(meta);
    let cr = seq![(COLROW, DT_I16, colrow_bytes(columns, rows))];
    lemma_shaped_cat(xy_list(pts, false), meta_list(meta));
    lemma_shaped_cat(cr, xy_list(pts, false) + meta_list(meta));
    lemma_shaped_cat(transform_list(transform), cr + (xy_list(pts, false) + meta_list(meta)));
    lemma_shaped_cat(seq![(AREF, DT_NONE, Seq::<u8>::empty()), (SNAME, DT_ASCII, text_bytes(structure))],
        transform_list(transform) + (cr + (xy_list(pts, false) + meta_list(meta))));
}

pub proof fn lemma_shaped_element(e: ElementV)
    requires
        typed(e),
    ensures
        shaped3(element_list(e)),
{
    assert(shaped3(body_list(e))) by {
        reveal(body_list);
        match e {
            ElementV::Boundary { layer, datatype, ring, meta } =>
                lemma_shaped_boundary(BOUNDARY, DATATYPE, layer, datatype, ring, true, meta),
            ElementV::Box { layer, box_type, ring, meta } =>
                lemma_shaped_boundary(BOX, BOXTYPE, layer, box_type, ring, true, meta),
            ElementV::Node { layer, node_type, points, meta } =>
                lemma_shaped_boundary(NODE, NODETYPE, layer, node_type, points, false, meta),
            ElementV::Path { layer, datatype, centerline, width, path_type, begin_extension, end_extension, meta } =>
                lemma_shaped_path(layer, datatype, centerline, width, path_type, begin_extension, end_extension, meta),
            ElementV::Text { layer, text_type, origin, string, presentation, path_type, width, transform, meta } =>
                lemma_shaped_text(layer, text_type, origin, string, presentation, path_type, width, transform, meta),
            ElementV::Sref { structure, origin, transform, meta } => lemma_shaped_sref(structure, origin, transform, meta),
            ElementV::Aref { structure, columns, rows, origin, column_endpoint, row_endpoint, transform, meta } =>
                lemma_shaped_aref(structure, columns, rows, origin, column_endpoint, row_endpoint, transform, meta),
            ElementV::Unsupported { .. } => {},
        }
    }
    lemma_shaped_cat(body_list(e), seq![(ENDEL, DT_NONE, Seq::<u8>::empty())]);
}

proof fn lemma_shaped_elements(es: Seq<ElementV>)
    requires
        forall|i: int| 0 <= i < es.len() ==> typed(#[trigger] es[i]),
    ensures
        shaped3(elements_list(es)),
    decreases es.len(),
{
    if es.len() > 0 {
        lemma_shaped_elements(es.drop_last());
        lemma_shaped_element(es.last());
        lemma_shaped_cat(elements_list(es.drop_last()), element_list(es.last()));
    }
}

pub proof fn lemma_shaped_structures(ss: Seq<StructureV>)
    requires
        forall|i: int| 0 <= i < ss.len() ==> typed_structure(#[trigger] ss[i]) && ss[i].timestamps.len() == 12,
    ensures
        shaped3(structures_list(ss)),
    decreases ss.len(),
{
    if ss.len() > 0 {
        lemma_shaped_structures(ss.drop_last());
        let st = ss.last();
        lemma_i16s_bytes(st.timestamps);
        lemma_text_len(st.name);
        lemma_shaped_elements(st.elements);
        lemma_shaped_cat(elements_list(st.elements), seq![(ENDSTR, DT_NONE, Seq::<u8>::empty())]);
        lemma_shaped_cat(seq![(BGNSTR, DT_I16, i16s_bytes(st.timestamps)), (STRNAME, DT_ASCII, text_bytes(st.name))],
            elements_list(st.elements) + seq![(ENDSTR, DT_NONE, Seq::<u8>::empty())]);
        lemma_shaped_cat(structures_list(ss.drop_last()), structure_list(st));
    }
}

/// The writer lays out the `k`-th point of an XY record as x, then y: the
/// big-endian signed word at byte `8k` is the point's x and the one at byte
/// `8k + 4` its y.
pub proof fn lemma_points_bytes_layout(ps: Seq<Point>, k: int)
    requires
        0 <= k < ps.len(),
    ensures
        points_bytes(ps).len() == 8 * ps.len(),
        ({
            let b = points_bytes(ps);
            &&& ps[k].x as int == super::gds::word_value(b[8 * k], b[8 * k + 1], b[8 * k + 2], b[8 * k + 3])
            &&& ps[k].y as int == super::gds::word_value(b[8 * k + 4], b[8 * k + 5], b[8 * k + 6], b[8 * k + 7])
        }),
{
    lemma_points_bytes(ps);
    let b = points_bytes(ps);
    assert(b.len() / 8 == ps.len()) by (nonlinear_arith)
        requires
            b.len() == 8 * ps.len(),
    ;
    super::gds::lemma_xy_points(b, k);
}

} // verus!
