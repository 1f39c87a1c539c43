//! Checks that a GDS library can be flattened: no structure keeps unhandled
//! records, every SREF/AREF names a defined structure, and no structure
//! places itself through a chain of references.
use vstd::prelude::*;
use crate::graph::{dfs_from, finished_topologically, graph_wf, idx_cycle, idx_step, lemma_finished_not_on_cycle, on_cycle};
use super::element::ElementV;
use super::gds::{GdsElement, GdsLibrary, GdsStructure, LayoutError, LayoutErrorKind};
use super::library::{elements_view, structures_view, StructureV};

verus! {

/// The structure name that `e` places: SREF and AREF elements only.
pub open spec fn ref_target(e: ElementV) -> Option<Seq<char>> {
    match e {
        ElementV::Sref { structure, .. } => Some(structure),
        ElementV::Aref { structure, .. } => Some(structure),
        _ => None,
    }
}

pub open spec fn defines(structures: Seq<StructureV>, name: Seq<char>) -> bool {
    exists|i: int| 0 <= i < structures.len() && #[trigger] structures[i].name == name
}

/// The first name placed by `elements` that no structure defines.
pub open spec fn first_undefined(structures: Seq<StructureV>, elements: Seq<ElementV>) -> Option<Seq<char>>
    decreases elements.len(),
{
    if elements.len() == 0 {
        None
    } else if ref_target(elements[0]) is Some && !defines(structures, ref_target(elements[0])->0) {
        ref_target(elements[0])
    } else {
        first_undefined(structures, elements.drop_first())
    }
}

/// The fault reported for structure `s`, as kind and message: unhandled
/// records first, then the first undefined reference.
pub open spec fn structure_fault(structures: Seq<StructureV>, s: StructureV) -> Option<(LayoutErrorKind, Seq<char>)> {
    if s.unhandled.len() > 0 {
        Some((LayoutErrorKind::Unsupported, "structure `"@ + s.name + "` contains unhandled records"@))
    } else {
        match first_undefined(structures, s.elements) {
            Some(n) => Some((LayoutErrorKind::UndefinedReference, "`"@ + s.name + "` references undefined `"@ + n + "`"@)),
            None => None,
        }
    }
}

/// The fault of the first faulty structure from index `k` on, in file order.
pub open spec fn first_fault(structures: Seq<StructureV>, k: int) -> Option<(LayoutErrorKind, Seq<char>)>
    decreases structures.len() - k,
{
    if k < 0 || k >= structures.len() {
        None
    } else if structure_fault(structures, structures[k]) is Some {
        structure_fault(structures, structures[k])
    } else {
        first_fault(structures, k + 1)
    }
}

/// Structure `i` is the last one named `name` (the one a lookup by name finds).
pub open spec fn last_named(structures: Seq<StructureV>, i: int, name: Seq<char>) -> bool {
    &&& 0 <= i < structures.len()
    &&& structures[i].name == name
    &&& forall|k: int| i < k < structures.len() ==> #[trigger] structures[k].name != name
}

/// The structure found under the name `a` places the structure named `b`.
pub open spec fn refers(structures: Seq<StructureV>, a: Seq<char>, b: Seq<char>) -> bool {
    exists|i: int, j: int|
        #![trigger structures[i].elements[j]]
        last_named(structures, i, a) && 0 <= j < structures[i].elements.len()
            && ref_target(structures[i].elements[j]) == Some(b)
}

pub open spec fn ref_step(structures: Seq<StructureV>, p: Seq<Seq<char>>, t: int) -> bool {
    refers(structures, p[t], p[t + 1])
}

/// A closed chain of references: each name refers to the next, and the chain
/// ends where it starts.
pub open spec fn ref_cycle(structures: Seq<StructureV>, p: Seq<Seq<char>>) -> bool {
    &&& p.len() >= 2
    &&& p[0] == p.last()
    &&& forall|t: int| 0 <= t < p.len() - 1 ==> #[trigger] ref_step(structures, p, t)
}

proof fn lemma_first_undefined_none(structures: Seq<StructureV>, elements: Seq<ElementV>, j: int)
    requires
        first_undefined(structures, elements) is None,
        0 <= j < elements.len(),
        ref_target(elements[j]) is Some,
    ensures
        defines(structures, ref_target(elements[j])->0),
    decreases elements.len(),
{
    if j > 0 {
        lemma_first_undefined_none(structures, elements.drop_first(), j - 1);
        assert(elements.drop_first()[j - 1] == elements[j]);
    }
}

proof fn lemma_first_fault_none(structures: Seq<StructureV>, k: int, i: int)
    requires
        first_fault(structures, k) is None,
        0 <= k <= i < structures.len(),
    ensures
        structure_fault(structures, structures[i]) is None,
    decreases i - k,
{
    if k < i {
        lemma_first_fault_none(structures, k + 1, i);
    }
}

proof fn lemma_last_named_unique(structures: Seq<StructureV>, i: int, k: int, name: Seq<char>)
    requires
        last_named(structures, i, name),
        last_named(structures, k, name),
    ensures
        i == k,
{
    if i < k {
        assert(structures[k].name != name);
    } else if k < i {
        assert(structures[i].name != name);
    }
}

/// The index of the last structure named `name`.
fn last_index(structures: &Vec<GdsStructure>, name: &String) -> (r: Option<usize>)
    ensures
        r matches Some(i) ==> last_named(structures_view(structures@), i as int, name@),
        r is None ==> !defines(structures_view(structures@), name@),
{
    let ghost sv = structures_view(structures@);
    let mut found: Option<usize> = None;
    let mut k: usize = 0;
    while k < structures.len()
        invariant
            sv == structures_view(structures@),
            k <= structures@.len(),
            found matches Some(i) ==> i < k && sv[i as int].name == name@
                && forall|q: int| i < q < k ==> #[trigger] sv[q].name != name@,
            found is None ==> forall|q: int| 0 <= q < k ==> #[trigger] sv[q].name != name@,
        decreases structures@.len() - k,
    {
        assert(sv[k as int].name == structures@[k as int].name@);
        if structures[k].name == *name {
            found = Some(k);
        }
        k = k + 1;
    }
    found
}

/// The structure name an element places, for SREF and AREF.
fn target_of(e: &GdsElement) -> (r: Option<&String>)
    ensures
        r matches Some(t) ==> ref_target(e.view()) == Some(t@),
        r is None ==> ref_target(e.view()) is None,
{
    match e {
        GdsElement::Sref(v) => Some(&v.structure),
        GdsElement::Aref(v) => Some(&v.structure),
        _ => None,
    }
}

fn quoted_message(head: &str, name: &String, tail: &str) -> (m: String)
    ensures
        m@ == head@ + name@ + tail@,
{
    let mut m = String::from_str(head);
    m.append(name.as_str());
    m.append(tail);
    m
}

/// Checks the structures of `library` in file order for unhandled records and
/// references to undefined structures, reporting the first fault; then checks
/// that no structure places itself through a chain of references.
pub fn validate_hierarchy(library: &GdsLibrary) -> (r: Result<(), LayoutError>)
    ensures
        match first_fault(library@.structures, 0) {
            Some((kind, msg)) => r matches Err(e) && e.kind == kind && e.offset is None && e.message@ == msg,
            None => {
                &&& r is Ok ==> forall|p: Seq<Seq<char>>| !ref_cycle(library@.structures, p)
                &&& r matches Err(e) ==> {
                    &&& e.kind == LayoutErrorKind::HierarchyCycle
                    &&& e.offset is None
                    &&& exists|p: Seq<Seq<char>>| #[trigger] ref_cycle(library@.structures, p)
                        && e.message@ == "cycle through `"@ + p[0] + "`"@
                }
            },
        },
{
    let structures = &library.structures;
    let ghost sv = structures_view(structures@);
    assert(library@.structures == sv);
    let n = structures.len();
    let mut i: usize = 0;
    while i < n
        invariant
            sv == structures_view(structures@),
            n == structures@.len(),
            i <= n,
            first_fault(sv, 0) == first_fault(sv, i as int),
            library@.structures == sv,
            structures == &library.structures,
        decreases n - i,
    {
        let st = &structures[i];
        assert(sv[i as int] == st.view());
        if st.unhandled_records.len() > 0 {
            let m = quoted_message("structure `", &st.name, "` contains unhandled records");
            return Err(LayoutError::layout(LayoutErrorKind::Unsupported, m));
        }
        let ne = st.elements.len();
        let ghost ev = elements_view(st.elements@);
        assert(ev == sv[i as int].elements);
        assert(ev.skip(0) =~= ev);
        let mut j: usize = 0;
        while j < ne
            invariant
                sv == structures_view(structures@),
                n == structures@.len(),
                i < n,
                st == &structures@[i as int],
                ev == elements_view(st.elements@),
                ne == ev.len(),
                j <= ne,
                first_undefined(sv, ev) == first_undefined(sv, ev.skip(j as int)),
                first_fault(sv, 0) == first_fault(sv, i as int),
                ev == sv[i as int].elements,
                sv[i as int].unhandled.len() == 0,
                library@.structures == sv,
                structures == &library.structures,
            decreases ne - j,
        {
            assert(ev[j as int] == st.elements@[j as int].view());
            assert(ev.skip(j as int)[0] == ev[j as int]);
            assert(ev.skip(j as int).drop_first() =~= ev.skip(j as int + 1));
            match target_of(&st.elements[j]) {
                Some(t) => {
                    if last_index(structures, t).is_none() {
                        let mut m = quoted_message("`", &st.name, "` references undefined `");
                        m.append(t.as_str());
                        m.append("`");
                        return Err(LayoutError::layout(LayoutErrorKind::UndefinedReference, m));
                    }
                },
                None => {},
            }
            j = j + 1;
        }
        assert(ev.skip(ne as int).len() == 0);
        i = i + 1;
    }
    assert(first_fault(sv, n as int) is None);
    validate_references_acyclic(structures)
}

/// Successor lists of the reference graph on structure indices: node `u`
/// stands for the structure found under the name of structure `u`
/// (`lasts[u]`), and its successors are the structures it places.
spec fn reference_graph(sv: Seq<StructureV>, adj: Seq<Vec<usize>>, lasts: Seq<int>) -> bool {
    &&& adj.len() == sv.len()
    &&& lasts.len() == sv.len()
    &&& forall|u: int| 0 <= u < sv.len() ==> last_named(sv, #[trigger] lasts[u], sv[u].name)
    &&& forall|u: int, k: int|
        0 <= u < sv.len() && 0 <= k < adj[u]@.len()
            ==> #[trigger] adj[u]@[k] < sv.len() && refers(sv, sv[u].name, sv[adj[u]@[k] as int].name)
    &&& forall|u: int, j: int|
        0 <= u < sv.len() && 0 <= j < sv[lasts[u]].elements.len() && ref_target(#[trigger] sv[lasts[u]].elements[j]) is Some
            ==> exists|k: int| 0 <= k < adj[u]@.len() && last_named(sv, #[trigger] adj[u]@[k] as int, ref_target(sv[lasts[u]].elements[j])->0)
}

proof fn lemma_name_cycle_is_index_cycle(sv: Seq<StructureV>, adj: Seq<Vec<usize>>, lasts: Seq<int>, p: Seq<Seq<char>>)
    -> (q: Seq<usize>)
    requires
        reference_graph(sv, adj, lasts),
        ref_cycle(sv, p),
        sv.len() <= usize::MAX,
    ensures
        q.len() >= 1,
        q[0] < sv.len(),
        idx_cycle(adj, q, q[0]),
{
    assert forall|t: int| 0 <= t < p.len() implies exists|i: int| last_named(sv, i, #[trigger] p[t]) by {
        let t0 = if t < p.len() - 1 { t } else { 0 };
        assert(ref_step(sv, p, t0));
        assert(p[t0] == p[t]);
    }
    let q = Seq::new(p.len(), |t: int| (choose|i: int| last_named(sv, i, p[t])) as usize);
    assert forall|t: int| 0 <= t < q.len() implies last_named(sv, #[trigger] q[t] as int, p[t]) by {
        let i = choose|i: int| last_named(sv, i, p[t]);
        assert(last_named(sv, i, p[t]));
        assert(q[t] == i as usize);
    }
    assert forall|t: int| 0 <= t < q.len() - 1 implies #[trigger] idx_step(adj, q, t) by {
        assert(ref_step(sv, p, t));
        let (i, j) = choose|i: int, j: int|
            #![trigger sv[i].elements[j]]
            last_named(sv, i, p[t]) && 0 <= j < sv[i].elements.len() && ref_target(sv[i].elements[j]) == Some(p[t + 1]);
        assert(last_named(sv, q[t] as int, p[t]));
        lemma_last_named_unique(sv, i, q[t] as int, p[t]);
        let u = q[t] as int;
        assert(last_named(sv, lasts[u], sv[u].name));
        lemma_last_named_unique(sv, lasts[u], u, p[t]);
        assert(ref_target(sv[lasts[u]].elements[j]) is Some);
        let k = choose|k: int| 0 <= k < adj[u]@.len() && last_named(sv, #[trigger] adj[u]@[k] as int, ref_target(sv[lasts[u]].elements[j])->0);
        assert(last_named(sv, q[t + 1] as int, p[t + 1]));
        lemma_last_named_unique(sv, adj[u]@[k] as int, q[t + 1] as int, p[t + 1]);
        assert(adj[u]@.contains(q[t + 1]));
    }
    assert(q[0] == q.last()) by {
        assert(last_named(sv, q[0] as int, p[0]));
        assert(last_named(sv, q.last() as int, p.last()));
        lemma_last_named_unique(sv, q[0] as int, q.last() as int, p[0]);
    }
    q
}

/// Checks that no structure places itself through a chain of references,
/// once every reference is known to name a defined structure.
fn validate_references_acyclic(structures: &Vec<GdsStructure>) -> (r: Result<(), LayoutError>)
    requires
        first_fault(structures_view(structures@), 0) is None,
    ensures
        r is Ok ==> forall|p: Seq<Seq<char>>| !ref_cycle(structures_view(structures@), p),
        r matches Err(e) ==> {
            &&& e.kind == LayoutErrorKind::HierarchyCycle
            &&& e.offset is None
            &&& exists|p: Seq<Seq<char>>| #[trigger] ref_cycle(structures_view(structures@), p)
                && e.message@ == "cycle through `"@ + p[0] + "`"@
        },
{
    let ghost sv = structures_view(structures@);
    let n = structures.len();
    let mut adj: Vec<Vec<usize>> = Vec::new();
    let ghost mut lasts: Seq<int> = Seq::empty();
    let mut i: usize = 0;
    while i < n
        invariant
            sv == structures_view(structures@),
            n == sv.len(),
            i <= n,
            first_fault(sv, 0) is None,
            adj@.len() == i,
            lasts.len() == i,
            forall|u: int| 0 <= u < i ==> last_named(sv, #[trigger] lasts[u], sv[u].name),
            forall|u: int, k: int|
                0 <= u < i && 0 <= k < adj@[u]@.len()
                    ==> #[trigger] adj@[u]@[k] < n && refers(sv, sv[u].name, sv[adj@[u]@[k] as int].name),
            forall|u: int, j: int|
                0 <= u < i && 0 <= j < sv[lasts[u]].elements.len() && ref_target(#[trigger] sv[lasts[u]].elements[j]) is Some
                    ==> exists|k: int| 0 <= k < adj@[u]@.len() && last_named(sv, #[trigger] adj@[u]@[k] as int, ref_target(sv[lasts[u]].elements[j])->0),
        decreases n - i,
    {
        assert(sv[i as int].name == structures@[i as int].name@);
        let li = match last_index(structures, &structures[i].name) {
            Some(k) => k,
            None => {
                proof {
                    assert(defines(sv, sv[i as int].name));
                }
                0
            },
        };
        assert(last_named(sv, li as int, sv[i as int].name));
        let st = &structures[li];
        let ghost ev = elements_view(st.elements@);
        assert(ev == sv[li as int].elements);
        proof {
            lemma_first_fault_none(sv, 0, li as int);
        }
        let ne = st.elements.len();
        let mut row: Vec<usize> = Vec::new();
        let mut j: usize = 0;
        while j < ne
            invariant
                sv == structures_view(structures@),
                n == sv.len(),
                i < n,
                li < n,
                st == &structures@[li as int],
                ev == elements_view(st.elements@),
                ev == sv[li as int].elements,
                ne == ev.len(),
                j <= ne,
                first_undefined(sv, ev) is None,
                last_named(sv, li as int, sv[i as int].name),
                forall|k: int| 0 <= k < row@.len() ==> #[trigger] row@[k] < n && refers(sv, sv[i as int].name, sv[row@[k] as int].name),
                forall|jj: int| 0 <= jj < j && ref_target(#[trigger] ev[jj]) is Some
                    ==> exists|k: int| 0 <= k < row@.len() && last_named(sv, #[trigger] row@[k] as int, ref_target(ev[jj])->0),
            decreases ne - j,
        {
            assert(ev[j as int] == st.elements@[j as int].view());
            match target_of(&st.elements[j]) {
                Some(t) => {
                    proof {
                        lemma_first_undefined_none(sv, ev, j as int);
                    }
                    let v = match last_index(structures, t) {
                        Some(v) => v,
                        None => {
                            proof {
                                assert(false);
                            }
                            0
                        },
                    };
                    let ghost before = row@;
                    row.push(v);
                    proof {
                        assert(refers(sv, sv[i as int].name, sv[v as int].name)) by {
                            assert(sv[li as int].elements[j as int] == ev[j as int]);
                        }
                        assert forall|jj: int| 0 <= jj < j + 1 && ref_target(#[trigger] ev[jj]) is Some
                            implies exists|k: int| 0 <= k < row@.len() && last_named(sv, #[trigger] row@[k] as int, ref_target(ev[jj])->0) by {
                            if jj < j {
                                let k = choose|k: int| 0 <= k < before.len() && last_named(sv, #[trigger] before[k] as int, ref_target(ev[jj])->0);
                                assert(row@[k] == before[k]);
                            } else {
                                assert(row@[before.len() as int] == v);
                            }
                        }
                    }
                },
                None => {},
            }
            j = j + 1;
        }
        let ghost adj0 = adj@;
        let ghost rowv = row@;
        adj.push(row);
        proof {
            lasts = lasts.push(li as int);
            assert forall|u: int, k: int|
                0 <= u < i + 1 && 0 <= k < adj@[u]@.len()
                    implies #[trigger] adj@[u]@[k] < n && refers(sv, sv[u].name, sv[adj@[u]@[k] as int].name) by {
                if u < i {
                    assert(adj@[u] == adj0[u]);
                }
            }
            assert forall|u: int, jj: int|
                0 <= u < i + 1 && 0 <= jj < sv[lasts[u]].elements.len() && ref_target(#[trigger] sv[lasts[u]].elements[jj]) is Some
                    implies exists|k: int| 0 <= k < adj@[u]@.len() && last_named(sv, #[trigger] adj@[u]@[k] as int, ref_target(sv[lasts[u]].elements[jj])->0) by {
                if u < i {
                    assert(adj@[u] == adj0[u]);
                } else {
                    assert(lasts[u] == li as int);
                    assert(ev[jj] == sv[lasts[u]].elements[jj]);
                    assert(adj@[u]@ == rowv);
                    let k = choose|k: int| 0 <= k < rowv.len() && last_named(sv, #[trigger] rowv[k] as int, ref_target(ev[jj])->0);
                    assert(adj@[u]@[k] == rowv[k]);
                }
            }
        }
        i = i + 1;
    }
    proof {
        assert(reference_graph(sv, adj@, lasts));
    }
    match dfs_from(&adj, n) {
        Ok(order) => {
            proof {
                assert forall|p: Seq<Seq<char>>| !ref_cycle(sv, p) by {
                    if ref_cycle(sv, p) {
                        let q = lemma_name_cycle_is_index_cycle(sv, adj@, lasts, p);
                        assert(order@.contains(q[0]));
                        lemma_finished_not_on_cycle(adj@, order@, n as int, q, q[0]);
                    }
                }
            }
            Ok(())
        },
        Err(w) => {
            proof {
                let q = choose|q: Seq<usize>| #[trigger] idx_cycle(adj@, q, w);
                let p = q.map_values(|x: usize| sv[x as int].name);
                assert forall|t: int| 0 <= t < p.len() - 1 implies #[trigger] ref_step(sv, p, t) by {
                    assert(idx_step(adj@, q, t));
                    let k = adj@[q[t] as int]@.index_of(q[t + 1]);
                    assert(adj@[q[t] as int]@[k] == q[t + 1]);
                }
                assert(ref_cycle(sv, p));
                assert(sv[w as int].name == structures@[w as int].name@);
            }
            let m = quoted_message("cycle through `", &structures[w].name, "`");
            Err(LayoutError::layout(LayoutErrorKind::HierarchyCycle, m))
        },
    }
}

} // verus!
