//! What every library that the strict reader accepts satisfies.
use vstd::prelude::*;
use crate::geometry::ring_valid;
use super::element::{
    aref_element_spec, axis_rect, build_spec, element_spec, node_element_spec, path_element_spec, real8_positive,
    ring_element_spec, sref_element_spec, text_element_spec, ElementV, FieldsV,
};
use super::gds::{GdsEnvelope, RecordSpec, BOUNDARY, BOX, TEXTNODE};
use super::library::{
    library_items, library_spec, names_of_structures, read_spec, structure_items, structure_spec, LibraryV,
    StructureV,
};

verus! {

/// A BOUNDARY ring is valid; a BOX ring is an axis-parallel rectangle of four
/// vertices.
pub open spec fn strict_element_ok(e: ElementV) -> bool {
    match e {
        ElementV::Boundary { ring, .. } => ring_valid(ring),
        ElementV::Box { ring, .. } => ring.len() == 4 && axis_rect(ring),
        _ => true,
    }
}

pub open spec fn strict_elements_ok(es: Seq<ElementV>) -> bool {
    forall|k: int| 0 <= k < es.len() ==> strict_element_ok(#[trigger] es[k])
}

/// A named structure whose elements pass the strict checks.
pub open spec fn strict_structure_ok(s: StructureV) -> bool {
    s.name.len() > 0 && strict_elements_ok(s.elements)
}

pub open spec fn strict_structures_ok(ss: Seq<StructureV>) -> bool {
    &&& names_of_structures(ss).no_duplicates()
    &&& forall|k: int| 0 <= k < ss.len() ==> strict_structure_ok(#[trigger] ss[k])
}

/// Complete envelope, positive units, at least one structure, structure
/// names non-empty and distinct, valid BOUNDARY rings and rectangular BOXes.
pub open spec fn strict_library_ok(l: LibraryV) -> bool {
    &&& l.envelope == (GdsEnvelope { header: true, bgnlib: true, libname: true, units: true, endlib: true })
    &&& real8_positive(l.units.user_units_per_database_unit as int)
    &&& real8_positive(l.units.meters_per_database_unit as int)
    &&& l.structures.len() > 0
    &&& strict_structures_ok(l.structures)
}

proof fn lemma_build_strict(start: RecordSpec, f: FieldsV)
    ensures
        build_spec(start, f, true) matches Ok(e) ==> strict_element_ok(e),
{
    reveal(ring_element_spec);
    reveal(path_element_spec);
    reveal(text_element_spec);
    reveal(node_element_spec);
    reveal(sref_element_spec);
    reveal(aref_element_spec);
}

proof fn lemma_element_strict(rs: Seq<RecordSpec>, i: int)
    ensures
        element_spec(rs, i, true) matches Ok((e, _)) ==> strict_element_ok(e),
{
    if rs[i].ty != TEXTNODE {
        match super::element::collect_fields(rs, i + 1, super::element::empty_fields(), rs[i].offset) {
            Ok((f, _)) => lemma_build_strict(rs[i], f),
            Err(_) => {},
        }
    }
}

proof fn lemma_items_strict(rs: Seq<RecordSpec>, i: int, elems: Seq<ElementV>, unh: Seq<RecordSpec>)
    requires
        strict_elements_ok(elems),
    ensures
        structure_items(rs, i, true, elems, unh) matches Ok((es, _, _)) ==> strict_elements_ok(es),
    decreases rs.len() - i,
{
    if 0 <= i < rs.len() {
        let r = rs[i];
        if r.ty == super::gds::ENDSTR || r.ty == super::gds::ENDLIB {
        } else if super::element::is_element_start(r.ty) {
            lemma_element_strict(rs, i);
            match element_spec(rs, i, true) {
                Err(_) => {},
                Ok((el, next)) => if i < next <= rs.len() {
                    let e2 = elems.push(el);
                    assert forall|k: int| 0 <= k < e2.len() implies strict_element_ok(#[trigger] e2[k]) by {
                        if k < elems.len() {
                            assert(e2[k] == elems[k]);
                        }
                    }
                    lemma_items_strict(rs, next, e2, unh);
                },
            }
        } else if !super::element::is_element_attribute(r.ty) {
            lemma_items_strict(rs, i + 1, elems, unh.push(r));
        }
    }
}

proof fn lemma_structure_strict(rs: Seq<RecordSpec>, i: int)
    ensures
        structure_spec(rs, i, true) matches Ok((st, _)) ==> strict_structure_ok(st),
{
    lemma_items_strict(rs, i + 2, Seq::empty(), Seq::empty());
}

proof fn lemma_library_items_strict(rs: Seq<RecordSpec>, i: int, sts: Seq<StructureV>, unh: Seq<RecordSpec>)
    requires
        strict_structures_ok(sts),
    ensures
        library_items(rs, i, true, sts, unh) matches Ok((s2, _, _, _)) ==> strict_structures_ok(s2),
    decreases rs.len() - i,
{
    if 0 <= i < rs.len() {
        let r = rs[i];
        if r.ty == super::gds::BGNSTR {
            lemma_structure_strict(rs, i);
            match structure_spec(rs, i, true) {
                Err(_) => {},
                Ok((st, next)) => if !names_of_structures(sts).contains(st.name) && i < next <= rs.len() {
                    let s2 = sts.push(st);
                    assert(names_of_structures(s2) =~= names_of_structures(sts).push(st.name));
                    assert forall|k: int| 0 <= k < s2.len() implies strict_structure_ok(#[trigger] s2[k]) by {
                        if k < sts.len() {
                            assert(s2[k] == sts[k]);
                        }
                    }
                    assert(names_of_structures(s2).no_duplicates()) by {
                        let n = names_of_structures(s2);
                        let n0 = names_of_structures(sts);
                        assert forall|a: int, b: int| 0 <= a < n.len() && 0 <= b < n.len() && a != b implies n[a] != n[b] by {
                            if a < n0.len() && b < n0.len() {
                                assert(n[a] == n0[a] && n[b] == n0[b]);
                            } else if a < n0.len() {
                                assert(n[a] == n0[a]);
                            } else if b < n0.len() {
                                assert(n[b] == n0[b]);
                            }
                        }
                    }
                    lemma_library_items_strict(rs, next, s2, unh);
                },
            }
        } else if r.ty != super::gds::ENDLIB {
            lemma_library_items_strict(rs, i + 1, sts, unh.push(r));
        }
    }
}

/// Every library that the strict reader accepts has the complete envelope,
/// positive units, at least one structure, non-empty distinct structure
/// names, valid BOUNDARY rings and BOXes that are axis-parallel rectangles of
/// four vertices.
pub proof fn lemma_strict_read(bytes: Seq<u8>)
    requires
        read_spec(bytes, true) is Ok,
    ensures
        strict_library_ok(read_spec(bytes, true)->Ok_0),
{
    match super::gds::decode_from(bytes, 0) {
        Err(_) => {},
        Ok(rs) => {
            match super::library::envelope_spec(rs, true) {
                Err(_) => {},
                Ok((env, i4)) => {
                    assert(names_of_structures(Seq::<StructureV>::empty()) =~= Seq::<Seq<char>>::empty());
                    lemma_library_items_strict(rs, i4, Seq::empty(), Seq::empty());
                },
            }
        },
    }
}

} // verus!
