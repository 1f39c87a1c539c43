//! Layer table and resolved device-recognition rules of a verification deck.
use vstd::prelude::*;
use crate::text::{blank, is_blank, push_signed, signed_decimal};
use crate::lvs::types::PropertyTolerance;

verus! {

/// A symbolic layer's GDS `(layer, datatype)` pair.
#[derive(Clone, Copy, Debug, PartialEq, Eq, Structural)]
pub struct LayerDef {
    pub layer: i32,
    pub datatype: i32,
}

/// Symbolic layer names and their GDS pairs, indexed by layer id. Ids are
/// positions: layer `i` is named `id_to_name[i]` and drawn on `id_to_gds[i]`.
pub struct LayerTable {
    pub id_to_name: Vec<String>,
    pub id_to_gds: Vec<(i32, i32)>,
}

pub open spec fn names_of(v: Seq<String>) -> Seq<Seq<char>> {
    v.map_values(|s: String| s@)
}

/// Index of the first of the first `k` names equal to `name`.
pub open spec fn first_named_upto(names: Seq<Seq<char>>, name: Seq<char>, k: int) -> Option<int>
    decreases k,
{
    if k <= 0 {
        None
    } else {
        match first_named_upto(names, name, k - 1) {
            Some(j) => Some(j),
            None => if names[k - 1] == name {
                Some(k - 1)
            } else {
                None
            },
        }
    }
}

/// The id of the first layer named `name`.
pub open spec fn first_named(names: Seq<Seq<char>>, name: Seq<char>) -> Option<u32> {
    match first_named_upto(names, name, names.len() as int) {
        Some(j) => Some(j as u32),
        None => None,
    }
}

proof fn lemma_first_named(names: Seq<Seq<char>>, name: Seq<char>, k: int, n: int)
    requires
        0 <= k < n <= names.len(),
        n <= u32::MAX,
        names[k] == name,
        forall|j: int| 0 <= j < k ==> names[j] != name,
    ensures
        first_named_upto(names, name, n) == Some(k),
    decreases n - k,
{
    if n > k + 1 {
        lemma_first_named(names, name, k, n - 1);
    } else {
        lemma_first_named_none(names, name, k);
    }
}

proof fn lemma_first_named_none(names: Seq<Seq<char>>, name: Seq<char>, k: int)
    requires
        0 <= k <= names.len(),
        forall|j: int| 0 <= j < k ==> names[j] != name,
    ensures
        first_named_upto(names, name, k) is None,
    decreases k,
{
    if k > 0 {
        lemma_first_named_none(names, name, k - 1);
    }
}

pub open spec fn def_names(defs: Seq<(String, LayerDef)>) -> Seq<Seq<char>> {
    defs.map_values(|e: (String, LayerDef)| e.0@)
}

pub open spec fn key_lt(a: (i32, i32), b: (i32, i32)) -> bool {
    a.0 < b.0 || (a.0 == b.0 && a.1 < b.1)
}

/// Inserts `x` after every entry whose key is not greater than its own.
pub open spec fn ins_entry(s: Seq<(Seq<char>, (i32, i32))>, x: (Seq<char>, (i32, i32))) -> Seq<(Seq<char>, (i32, i32))>
    decreases s.len(),
{
    if s.len() == 0 {
        seq![x]
    } else if key_lt(x.1, s[0].1) {
        seq![x] + s
    } else {
        seq![s[0]] + ins_entry(s.drop_first(), x)
    }
}

/// Stable sort of `(name, gds pair)` entries by gds pair.
pub open spec fn sort_entries(s: Seq<(Seq<char>, (i32, i32))>) -> Seq<(Seq<char>, (i32, i32))>
    decreases s.len(),
{
    if s.len() == 0 {
        s
    } else {
        ins_entry(sort_entries(s.drop_last()), s.last())
    }
}

pub open spec fn entries_of(defs: Seq<(String, LayerDef)>) -> Seq<(Seq<char>, (i32, i32))> {
    defs.map_values(|e: (String, LayerDef)| (e.0@, (e.1.layer, e.1.datatype)))
}

/// Last id whose gds pair is `(layer, datatype)`.
pub open spec fn last_gds(gds: Seq<(i32, i32)>, layer: i32, datatype: i32, n: int) -> Option<int>
    decreases n,
{
    if n <= 0 {
        None
    } else if gds[n - 1] == (layer, datatype) {
        Some(n - 1)
    } else {
        last_gds(gds, layer, datatype, n - 1)
    }
}

impl LayerTable {
    pub open spec fn wf(&self) -> bool {
        &&& self.id_to_name@.len() == self.id_to_gds@.len()
        &&& self.id_to_name@.len() <= u32::MAX
        &&& names_of(self.id_to_name@).no_duplicates()
    }

    /// The table as `(name, gds pair)` entries in id order.
    pub open spec fn entries(&self) -> Seq<(Seq<char>, (i32, i32))> {
        Seq::new(self.id_to_name@.len(), |i: int| (self.id_to_name@[i]@, self.id_to_gds@[i]))
    }

    pub fn empty() -> (t: LayerTable)
        ensures
            t.wf(),
            t.id_to_name@.len() == 0,
    {
        LayerTable { id_to_name: Vec::new(), id_to_gds: Vec::new() }
    }

    /// Builds the table from named definitions (names distinct, as in a map).
    /// Ids follow ascending `(layer, datatype)`; definitions with equal pairs
    /// keep their input order.
    pub fn from_defs(defs: &Vec<(String, LayerDef)>) -> (t: LayerTable)
        requires
            def_names(defs@).no_duplicates(),
            defs@.len() <= u32::MAX,
        ensures
            t.wf(),
            t.entries() == sort_entries(entries_of(defs@)),
            sorted_by_gds(t.entries()),
            t.entries().to_multiset() == entries_of(defs@).to_multiset(),
    {
        let mut names: Vec<String> = Vec::new();
        let mut gds: Vec<(i32, i32)> = Vec::new();
        let mut i: usize = 0;
        while i < defs.len()
            invariant
                i <= defs@.len(),
                names@.len() == gds@.len() == i,
                Seq::new(names@.len(), |k: int| (names@[k]@, gds@[k])) == sort_entries(entries_of(defs@).take(i as int)),
                def_names(defs@).no_duplicates(),
                names_of(names@).no_duplicates(),
                forall|j: int| 0 <= j < names@.len() ==> exists|k: int| 0 <= k < i && #[trigger] names@[j]@ == def_names(defs@)[k],
            decreases defs@.len() - i,
        {
            let x_name = defs[i].0.clone();
            let x_key = (defs[i].1.layer, defs[i].1.datatype);
            let ghost prev = Seq::new(names@.len(), |k: int| (names@[k]@, gds@[k]));
            let ghost x = (x_name@, x_key);
            let mut p: usize = 0;
            let mut found = false;
            while p < gds.len() && !found
                invariant
                    p <= gds@.len() == names@.len(),
                    forall|j: int| 0 <= j < p ==> !key_lt(x_key, #[trigger] gds@[j]),
                    found ==> p < gds@.len() && key_lt(x_key, gds@[p as int]),
                decreases gds@.len() - p + (if found { 0int } else { 1int }),
            {
                let y = gds[p];
                if x_key.0 < y.0 || (x_key.0 == y.0 && x_key.1 < y.1) {
                    found = true;
                } else {
                    p = p + 1;
                }
            }
            proof {
                lemma_ins_entry_at(prev, x, p as int);
                assert(entries_of(defs@).take(i as int + 1).drop_last() =~= entries_of(defs@).take(i as int));
                assert(entries_of(defs@).take(i as int + 1).last() == x);
            }
            let ghost old_names = names@;
            names.insert(p, x_name);
            gds.insert(p, x_key);
            proof {
                assert(Seq::new(names@.len(), |k: int| (names@[k]@, gds@[k])) =~= prev.take(p as int) + seq![x] + prev.skip(p as int));
                assert(x.0 == def_names(defs@)[i as int]);
                assert forall|j: int| 0 <= j < old_names.len() implies old_names[j]@ != x.0 by {
                    let k = choose|k: int| 0 <= k < i && #[trigger] old_names[j]@ == def_names(defs@)[k];
                }
                assert forall|j: int| 0 <= j < names@.len() implies exists|k: int| 0 <= k < i + 1 && #[trigger] names@[j]@ == def_names(defs@)[k] by {
                    if j < p {
                        assert(names@[j] == old_names[j]);
                    } else if j == p {
                        assert(names@[j]@ == def_names(defs@)[i as int]);
                    } else {
                        assert(names@[j] == old_names[j - 1]);
                    }
                }
                assert forall|a: int, b: int| 0 <= a < names@.len() && 0 <= b < names@.len() && a != b
                    implies names_of(names@)[a] != names_of(names@)[b] by {
                    let oa = if a < p { a } else { a - 1 };
                    let ob = if b < p { b } else { b - 1 };
                    if a != p as int && b != p as int {
                        assert(names@[a] == old_names[oa]);
                        assert(names@[b] == old_names[ob]);
                        assert(names_of(old_names)[oa] != names_of(old_names)[ob]);
                    } else if a == p as int {
                        assert(names@[b] == old_names[ob]);
                    } else {
                        assert(names@[a] == old_names[oa]);
                    }
                }
            }
            i = i + 1;
        }
        proof {
            assert(defs@.take(defs@.len() as int) =~= defs@);
            assert(entries_of(defs@).take(defs@.len() as int) =~= entries_of(defs@));
        }
        let t = LayerTable { id_to_name: names, id_to_gds: gds };
        assert(t.entries() =~= sort_entries(entries_of(defs@)));
        proof {
            lemma_sort_entries(entries_of(defs@));
        }
        t
    }

    /// Id of the layer named `name`.
    pub fn id(&self, name: &String) -> (r: Option<u32>)
        requires
            self.id_to_name@.len() <= u32::MAX,
        ensures
            r matches Some(k) ==> k < self.id_to_name@.len() && self.id_to_name@[k as int]@ == name@,
            r is None ==> !names_of(self.id_to_name@).contains(name@),
            r == first_named(names_of(self.id_to_name@), name@),
    {
        let mut k: usize = 0;
        while k < self.id_to_name.len()
            invariant
                self.id_to_name@.len() <= u32::MAX,
                k <= self.id_to_name@.len(),
                forall|j: int| 0 <= j < k ==> self.id_to_name@[j]@ != name@,
            decreases self.id_to_name@.len() - k,
        {
            if self.id_to_name[k] == *name {
                proof {
                    lemma_first_named(names_of(self.id_to_name@), name@, k as int, self.id_to_name@.len() as int);
                }
                return Some(k as u32);
            }
            k = k + 1;
        }
        proof {
            if names_of(self.id_to_name@).contains(name@) {
                let j = choose|j: int| 0 <= j < names_of(self.id_to_name@).len() && names_of(self.id_to_name@)[j] == name@;
                assert(self.id_to_name@[j]@ == name@);
            }
            lemma_first_named_none(names_of(self.id_to_name@), name@, self.id_to_name@.len() as int);
        }
        None
    }

    /// Name of layer `id`.
    pub fn name(&self, id: u32) -> (r: &String)
        requires
            id < self.id_to_name@.len(),
        ensures
            *r == self.id_to_name@[id as int],
    {
        &self.id_to_name[id as usize]
    }

    /// Id of the layer drawn on `(layer, datatype)`; the last such id when
    /// several names share the pair.
    pub fn from_gds(&self, layer: i32, datatype: i32) -> (r: Option<u32>)
        requires
            self.id_to_gds@.len() <= u32::MAX,
        ensures
            r matches Some(k) ==> last_gds(self.id_to_gds@, layer, datatype, self.id_to_gds@.len() as int) == Some(k as int),
            r is None ==> last_gds(self.id_to_gds@, layer, datatype, self.id_to_gds@.len() as int) is None,
            r is None <==> forall|j: int| 0 <= j < self.id_to_gds@.len() ==> self.id_to_gds@[j] != (layer, datatype),
    {
        let mut n = self.id_to_gds.len();
        while n > 0
            invariant
                self.id_to_gds@.len() <= u32::MAX,
                n <= self.id_to_gds@.len(),
                last_gds(self.id_to_gds@, layer, datatype, self.id_to_gds@.len() as int)
                    == last_gds(self.id_to_gds@, layer, datatype, n as int),
                forall|j: int| n <= j < self.id_to_gds@.len() ==> self.id_to_gds@[j] != (layer, datatype),
            decreases n,
        {
            let g = self.id_to_gds[n - 1];
            if g.0 == layer && g.1 == datatype {
                return Some((n - 1) as u32);
            }
            n = n - 1;
        }
        None
    }
}

proof fn lemma_ins_entry_at(s: Seq<(Seq<char>, (i32, i32))>, x: (Seq<char>, (i32, i32)), p: int)
    requires
        0 <= p <= s.len(),
        forall|j: int| 0 <= j < p ==> !key_lt(x.1, #[trigger] s[j].1),
        p < s.len() ==> key_lt(x.1, s[p].1),
    ensures
        ins_entry(s, x) == s.take(p) + seq![x] + s.skip(p),
    decreases s.len(),
{
    if s.len() == 0 {
        assert(ins_entry(s, x) =~= s.take(p) + seq![x] + s.skip(p));
    } else if p == 0 {
        assert(ins_entry(s, x) =~= s.take(p) + seq![x] + s.skip(p));
    } else {
        let t = s.drop_first();
        assert forall|j: int| 0 <= j < p - 1 implies !key_lt(x.1, #[trigger] t[j].1) by {
            assert(t[j] == s[j + 1]);
        }
        assert(!key_lt(x.1, s[0].1));
        lemma_ins_entry_at(t, x, p - 1);
        assert(ins_entry(s, x) =~= s.take(p) + seq![x] + s.skip(p));
    }
}

/// Entries in ascending `(layer, datatype)` order.
pub open spec fn sorted_by_gds(s: Seq<(Seq<char>, (i32, i32))>) -> bool {
    forall|i: int, j: int| 0 <= i < j < s.len() ==> !key_lt(#[trigger] s[j].1, #[trigger] s[i].1)
}

proof fn lemma_ins_entry(s: Seq<(Seq<char>, (i32, i32))>, x: (Seq<char>, (i32, i32)))
    ensures
        ins_entry(s, x).to_multiset() == s.to_multiset().insert(x),
        sorted_by_gds(s) ==> sorted_by_gds(ins_entry(s, x)),
    decreases s.len(),
{
    broadcast use vstd::multiset::group_multiset_axioms, vstd::seq_lib::group_to_multiset_ensures;
    if s.len() == 0 {
        assert(ins_entry(s, x) =~= seq![x]);
        assert(seq![x] =~= Seq::<(Seq<char>, (i32, i32))>::empty().push(x));
    } else if key_lt(x.1, s[0].1) {
        let r = seq![x] + s;
        assert(r.drop_first() =~= s);
        vstd::seq_lib::lemma_multiset_commutative(seq![x], s);
        assert(seq![x] =~= Seq::<(Seq<char>, (i32, i32))>::empty().push(x));
        assert(s.to_multiset().insert(x) =~= seq![x].to_multiset().add(s.to_multiset()));
    } else {
        let t = s.drop_first();
        lemma_ins_entry(t, x);
        let r = seq![s[0]] + ins_entry(t, x);
        assert(ins_entry(s, x) == r);
        vstd::seq_lib::lemma_multiset_commutative(seq![s[0]], ins_entry(t, x));
        vstd::seq_lib::lemma_multiset_commutative(seq![s[0]], t);
        assert(seq![s[0]] + t =~= s);
        assert(seq![s[0]] =~= Seq::<(Seq<char>, (i32, i32))>::empty().push(s[0]));
        assert(r.to_multiset() =~= s.to_multiset().insert(x));
        if sorted_by_gds(s) {
            assert forall|i: int, j: int| 0 <= i < j < t.len() implies !key_lt(#[trigger] t[j].1, #[trigger] t[i].1) by {
                assert(t[i] == s[i + 1] && t[j] == s[j + 1]);
            }
            let it = ins_entry(t, x);
            assert forall|k: int| 0 <= k < it.len() implies !key_lt(#[trigger] it[k].1, s[0].1) by {
                assert(it.to_multiset().contains(it[k]));
                assert(t.to_multiset().insert(x).contains(it[k]));
                if it[k] != x {
                    assert(t.to_multiset().contains(it[k]));
                    assert(t.contains(it[k]));
                    let m = choose|m: int| 0 <= m < t.len() && t[m] == it[k];
                    assert(s[m + 1] == t[m]);
                }
            }
            assert forall|i: int, j: int| 0 <= i < j < r.len() implies !key_lt(#[trigger] r[j].1, #[trigger] r[i].1) by {
                if i == 0 {
                    assert(r[j] == it[j - 1]);
                } else {
                    assert(r[i] == it[i - 1] && r[j] == it[j - 1]);
                }
            }
        }
    }
}

/// Sorting the layer entries orders them by `(layer, datatype)` and keeps
/// every entry, each as often as it occurs.
pub proof fn lemma_sort_entries(s: Seq<(Seq<char>, (i32, i32))>)
    ensures
        sorted_by_gds(sort_entries(s)),
        sort_entries(s).to_multiset() == s.to_multiset(),
    decreases s.len(),
{
    broadcast use vstd::multiset::group_multiset_axioms, vstd::seq_lib::group_to_multiset_ensures;
    if s.len() == 0 {
        assert(s.to_multiset() =~= vstd::multiset::Multiset::empty());
    } else {
        lemma_sort_entries(s.drop_last());
        lemma_ins_entry(sort_entries(s.drop_last()), s.last());
        assert(s.drop_last().push(s.last()) =~= s);
    }
}

/// Every definition appears in the sorted entries, under its own name and
/// GDS pair, and nothing else does.
pub proof fn lemma_sorted_entries_hold_defs(defs: Seq<(String, LayerDef)>)
    ensures
        sort_entries(entries_of(defs)).len() == defs.len(),
        forall|k: int| 0 <= k < defs.len() ==> sort_entries(entries_of(defs)).contains(#[trigger] entries_of(defs)[k]),
        forall|e: (Seq<char>, (i32, i32))| sort_entries(entries_of(defs)).contains(e) ==> entries_of(defs).contains(e),
{
    broadcast use vstd::seq_lib::group_to_multiset_ensures;
    let s = entries_of(defs);
    lemma_sort_entries(s);
    let t = sort_entries(s);
    assert(t.len() == t.to_multiset().len());
    assert(s.len() == s.to_multiset().len());
    assert forall|k: int| 0 <= k < defs.len() implies t.contains(#[trigger] s[k]) by {
        assert(s.contains(s[k]));
        assert(s.to_multiset().contains(s[k]));
    }
    assert forall|e: (Seq<char>, (i32, i32))| t.contains(e) implies s.contains(e) by {
        assert(t.to_multiset().contains(e));
    }
}

// --- checking a deck's layer definitions ---

/// The first of the `i` definitions before definition `i` drawn on the same
/// GDS pair.
pub open spec fn earlier_pair(defs: Seq<(String, LayerDef)>, i: int, k: int) -> Option<int>
    decreases k,
{
    if k <= 0 {
        None
    } else {
        match earlier_pair(defs, i, k - 1) {
            Some(j) => Some(j),
            None => if defs[k - 1].1 == defs[i].1 {
                Some(k - 1)
            } else {
                None
            },
        }
    }
}

pub open spec fn gds_pair_text(d: LayerDef) -> Seq<char> {
    "("@ + signed_decimal(d.layer as int) + ", "@ + signed_decimal(d.datatype as int) + ")"@
}

/// What is wrong with definition `i`, the ones before it being sound: a
/// blank name, a GDS pair outside the non-negative `i16` range, or the
/// pair of an earlier definition.
pub open spec fn def_fault(defs: Seq<(String, LayerDef)>, i: int) -> Option<Seq<char>> {
    let (name, d) = defs[i];
    if blank(name@) {
        Some("layer name must not be empty"@)
    } else if d.layer < 0 || d.layer > 32767 || d.datatype < 0 || d.datatype > 32767 {
        Some("layer `"@ + name@ + "` has GDS pair "@ + gds_pair_text(d) + " outside the supported non-negative i16 range"@)
    } else {
        match earlier_pair(defs, i, i) {
            Some(j) => Some("layers `"@ + defs[j].0@ + "` and `"@ + name@ + "` share duplicate GDS pair "@ + gds_pair_text(d)),
            None => None,
        }
    }
}

/// The fault of the first of the first `k` definitions that has one.
pub open spec fn first_def_fault(defs: Seq<(String, LayerDef)>, k: int) -> Option<Seq<char>>
    decreases k,
{
    if k <= 0 {
        None
    } else {
        match first_def_fault(defs, k - 1) {
            Some(m) => Some(m),
            None => def_fault(defs, k - 1),
        }
    }
}

fn earlier_pair_exec(defs: &Vec<(String, LayerDef)>, i: usize) -> (r: Option<usize>)
    requires
        i < defs@.len(),
    ensures
        match earlier_pair(defs@, i as int, i as int) {
            Some(j) => r == Some(j as usize),
            None => r is None,
        },
        r matches Some(j) ==> j < i && earlier_pair(defs@, i as int, i as int) == Some(j as int),
{
    let mut k: usize = 0;
    while k < i
        invariant
            i < defs@.len(),
            k <= i,
            earlier_pair(defs@, i as int, k as int) is None,
        decreases i - k,
    {
        if defs[k].1.layer == defs[i].1.layer && defs[k].1.datatype == defs[i].1.datatype {
            proof {
                lemma_earlier_pair_stays(defs@, i as int, k as int + 1, i as int);
            }
            return Some(k);
        }
        k = k + 1;
    }
    None
}

proof fn lemma_earlier_pair_stays(defs: Seq<(String, LayerDef)>, i: int, k: int, n: int)
    requires
        0 < k <= n,
        earlier_pair(defs, i, k) is Some,
    ensures
        earlier_pair(defs, i, n) == earlier_pair(defs, i, k),
    decreases n - k,
{
    if n > k {
        lemma_earlier_pair_stays(defs, i, k, n - 1);
    }
}

proof fn lemma_first_def_fault_stays(defs: Seq<(String, LayerDef)>, k: int, n: int)
    requires
        0 < k <= n,
        first_def_fault(defs, k) is Some,
    ensures
        first_def_fault(defs, n) == first_def_fault(defs, k),
    decreases n - k,
{
    if n > k {
        lemma_first_def_fault_stays(defs, k, n - 1);
    }
}

fn push_gds_pair(m: &mut String, d: LayerDef)
    ensures
        final(m)@ == old(m)@ + gds_pair_text(d),
{
    proof {
        reveal_strlit("(");
        reveal_strlit(", ");
        reveal_strlit(")");
    }
    m.append("(");
    push_signed(m, d.layer as i64);
    m.append(", ");
    push_signed(m, d.datatype as i64);
    m.append(")");
}

/// Checks a deck's layer definitions in order, reporting the first blank
/// name, GDS pair outside the non-negative `i16` range, or pair drawn twice
/// (see `def_fault`).
pub fn check_layer_defs(defs: &Vec<(String, LayerDef)>) -> (r: Result<(), String>)
    ensures
        match first_def_fault(defs@, defs@.len() as int) {
            None => r is Ok,
            Some(m) => r matches Err(e) && e@ == m,
        },
{
    proof {
        reveal_strlit("layer name must not be empty");
        reveal_strlit("layer `");
        reveal_strlit("` has GDS pair ");
        reveal_strlit(" outside the supported non-negative i16 range");
        reveal_strlit("layers `");
        reveal_strlit("` and `");
        reveal_strlit("` share duplicate GDS pair ");
    }
    let mut i: usize = 0;
    while i < defs.len()
        invariant
            i <= defs@.len(),
            first_def_fault(defs@, i as int) is None,
        decreases defs@.len() - i,
    {
        let name = &defs[i].0;
        let d = defs[i].1;
        let fault: Option<String> = if is_blank(name.as_str()) {
            let m = String::from_str("layer name must not be empty");
            assert(def_fault(defs@, i as int) == Some(m@));
            Some(m)
        } else if d.layer < 0 || d.layer > 32767 || d.datatype < 0 || d.datatype > 32767 {
            let mut m = String::from_str("layer `");
            m.append(name.as_str());
            m.append("` has GDS pair ");
            push_gds_pair(&mut m, d);
            m.append(" outside the supported non-negative i16 range");
            assert(def_fault(defs@, i as int) == Some(m@));
            Some(m)
        } else {
            match earlier_pair_exec(defs, i) {
                Some(j) => {
                    let mut m = String::from_str("layers `");
                    m.append(defs[j].0.as_str());
                    m.append("` and `");
                    m.append(name.as_str());
                    m.append("` share duplicate GDS pair ");
                    push_gds_pair(&mut m, d);
                    assert(earlier_pair(defs@, i as int, i as int) == Some(j as int));
                    assert(m@ =~= "layers `"@ + defs@[j as int].0@ + "` and `"@ + defs@[i as int].0@ + "` share duplicate GDS pair "@
                        + gds_pair_text(defs@[i as int].1));
                    assert(def_fault(defs@, i as int) == Some(m@));
                    Some(m)
                },
                None => {
                    assert(def_fault(defs@, i as int) is None);
                    None
                },
            }
        };
        proof {
            reveal_strlit("layer name must not be empty");
            reveal_strlit("layer `");
            reveal_strlit("` has GDS pair ");
            reveal_strlit(" outside the supported non-negative i16 range");
            reveal_strlit("layers `");
            reveal_strlit("` and `");
            reveal_strlit("` share duplicate GDS pair ");
        }
        match fault {
            Some(m) => {
                proof {
                    lemma_first_def_fault_stays(defs@, i as int + 1, defs@.len() as int);
                }
                assert(def_fault(defs@, i as int) == Some(m@));
                return Err(m);
            },
            None => {},
        }
        i = i + 1;
    }
    Ok(())
}

/// Resolved connectivity: conductor layers, and for each via layer the
/// conductor layers it joins.
pub struct ConnectivityConfig {
    pub conductors: Vec<u32>,
    pub vias: Vec<(u32, Vec<u32>)>,
}

/// A via as a deck declares it: its cut layer and the conductor layers it
/// joins, by name.
pub struct ViaSchema {
    pub layer: String,
    pub connects: Vec<String>,
}

/// Connectivity as a deck declares it, by layer name.
pub struct ConnectivitySchema {
    pub conductors: Vec<String>,
    pub vias: Vec<ViaSchema>,
}

/// Some of the first `k` names equals `name`.
pub open spec fn named_before(names: Seq<String>, name: Seq<char>, k: int) -> bool {
    exists|j: int| 0 <= j < k && (#[trigger] names[j])@ == name
}

/// The ids of the first `k` conductor names, or the first duplicate or
/// unknown name.
pub open spec fn conductor_ids(table: Seq<Seq<char>>, conductors: Seq<String>, k: int) -> Result<Seq<u32>, Seq<char>>
    decreases k,
{
    if k <= 0 {
        Ok(Seq::empty())
    } else {
        match conductor_ids(table, conductors, k - 1) {
            Err(m) => Err(m),
            Ok(ids) => {
                let c = conductors[k - 1]@;
                if named_before(conductors, c, k - 1) {
                    Err("connectivity conductor layer `"@ + c + "` is duplicated"@)
                } else {
                    match first_named(table, c) {
                        None => Err("connectivity conductor references unknown layer `"@ + c + "`"@),
                        Some(i) => Ok(ids.push(i)),
                    }
                }
            },
        }
    }
}

/// The ids of the first `k` layers one via connects, or the first repeated,
/// undeclared or unknown one.
pub open spec fn connect_ids(table: Seq<Seq<char>>, conductors: Seq<String>, via: Seq<char>, connects: Seq<String>, k: int) -> Result<
    Seq<u32>,
    Seq<char>,
>
    decreases k,
{
    if k <= 0 {
        Ok(Seq::empty())
    } else {
        match connect_ids(table, conductors, via, connects, k - 1) {
            Err(m) => Err(m),
            Ok(ids) => {
                let c = connects[k - 1]@;
                if named_before(connects, c, k - 1) {
                    Err("connectivity via `"@ + via + "` repeats conductor layer `"@ + c + "`"@)
                } else if !named_before(conductors, c, conductors.len() as int) {
                    Err("connectivity via `"@ + via + "` references layer `"@ + c + "` that is not declared as a conductor"@)
                } else {
                    match first_named(table, c) {
                        None => Err("connectivity via `"@ + via + "` references unknown conductor layer `"@ + c + "`"@),
                        Some(i) => Ok(ids.push(i)),
                    }
                }
            },
        }
    }
}

/// The first `k` vias resolved, or the first fault: a cut layer declared
/// twice or unknown, a via joining nothing, or a fault of its layers.
pub open spec fn via_ids(table: Seq<Seq<char>>, conductors: Seq<String>, vias: Seq<ViaSchema>, k: int) -> Result<
    Seq<(u32, Seq<u32>)>,
    Seq<char>,
>
    decreases k,
{
    if k <= 0 {
        Ok(Seq::empty())
    } else {
        match via_ids(table, conductors, vias, k - 1) {
            Err(m) => Err(m),
            Ok(vs) => {
                let v = vias[k - 1];
                let cut = v.layer@;
                if exists|j: int| 0 <= j < k - 1 && (#[trigger] vias[j]).layer@ == cut {
                    Err("connectivity cut layer `"@ + cut + "` has duplicate via declarations"@)
                } else {
                    match first_named(table, cut) {
                        None => Err("connectivity via references unknown cut layer `"@ + cut + "`"@),
                        Some(id) => if v.connects@.len() == 0 {
                            Err("connectivity via `"@ + cut + "` must connect at least one conductor layer"@)
                        } else {
                            match connect_ids(table, conductors, cut, v.connects@, v.connects@.len() as int) {
                                Err(m) => Err(m),
                                Ok(cs) => Ok(vs.push((id, cs))),
                            }
                        },
                    }
                }
            },
        }
    }
}

/// What a declared connectivity resolves to against a layer table: none
/// when it declares nothing; else the conductors' ids and each via's cut
/// and joined ids, or the first fault.
pub open spec fn connectivity_spec(table: Seq<Seq<char>>, schema: ConnectivitySchema) -> Result<(Seq<u32>, Seq<(u32, Seq<u32>)>), Seq<char>> {
    let cs = schema.conductors@;
    let vs = schema.vias@;
    if cs.len() == 0 && vs.len() == 0 {
        Ok((Seq::empty(), Seq::empty()))
    } else if cs.len() == 0 {
        Err("connectivity schema declares vias but contains no conductors"@)
    } else {
        match conductor_ids(table, cs, cs.len() as int) {
            Err(m) => Err(m),
            Ok(ids) => match via_ids(table, cs, vs, vs.len() as int) {
                Err(m) => Err(m),
                Ok(v) => Ok((ids, v)),
            },
        }
    }
}

/// The view of a resolved connectivity.
pub open spec fn connectivity_view(c: ConnectivityConfig) -> (Seq<u32>, Seq<(u32, Seq<u32>)>) {
    (c.conductors@, c.vias@.map_values(|v: (u32, Vec<u32>)| (v.0, v.1@)))
}

fn quoted(head: &str, name: &String, tail: &str) -> (m: String)
    ensures
        m@ == head@ + name@ + tail@,
{
    let mut m = String::from_str(head);
    m.append(name.as_str());
    m.append(tail);
    m
}

fn named_before_exec(names: &Vec<String>, name: &String, k: usize) -> (b: bool)
    requires
        k <= names@.len(),
    ensures
        b == named_before(names@, name@, k as int),
{
    let mut j: usize = 0;
    while j < k
        invariant
            k <= names@.len(),
            j <= k,
            forall|q: int| 0 <= q < j ==> names@[q]@ != name@,
        decreases k - j,
    {
        if names[j] == *name {
            return true;
        }
        j = j + 1;
    }
    false
}

/// Resolves a declared connectivity against the layer table (see
/// `connectivity_spec`).
pub fn resolve_connectivity_schema(layers: &LayerTable, schema: &ConnectivitySchema) -> (r: Result<ConnectivityConfig, String>)
    requires
        layers.id_to_name@.len() <= u32::MAX,
    ensures
        match connectivity_spec(names_of(layers.id_to_name@), *schema) {
            Ok(v) => r matches Ok(c) && connectivity_view(c) == v,
            Err(m) => r matches Err(e) && e@ == m,
        },
{
    let ghost table = names_of(layers.id_to_name@);
    proof {
        reveal_strlit("connectivity schema declares vias but contains no conductors");
        reveal_strlit("connectivity conductor layer `");
        reveal_strlit("` is duplicated");
        reveal_strlit("connectivity conductor references unknown layer `");
        reveal_strlit("`");
        reveal_strlit("connectivity cut layer `");
        reveal_strlit("` has duplicate via declarations");
        reveal_strlit("connectivity via references unknown cut layer `");
        reveal_strlit("connectivity via `");
        reveal_strlit("` must connect at least one conductor layer");
        reveal_strlit("` repeats conductor layer `");
        reveal_strlit("` references layer `");
        reveal_strlit("` that is not declared as a conductor");
        reveal_strlit("` references unknown conductor layer `");
    }
    let cs = &schema.conductors;
    let vs = &schema.vias;
    if cs.len() == 0 && vs.len() == 0 {
        let c = ConnectivityConfig { conductors: Vec::new(), vias: Vec::new() };
        assert(connectivity_view(c).1 =~= Seq::<(u32, Seq<u32>)>::empty());
        return Ok(c);
    }
    if cs.len() == 0 {
        return Err(String::from_str("connectivity schema declares vias but contains no conductors"));
    }
    let mut conductors: Vec<u32> = Vec::new();
    let mut k: usize = 0;
    while k < cs.len()
        invariant
            layers.id_to_name@.len() <= u32::MAX,
            table == names_of(layers.id_to_name@),
            cs@ == schema.conductors@,
            vs@ == schema.vias@,
            cs@.len() > 0,
            k <= cs@.len(),
            conductor_ids(table, cs@, k as int) == Ok::<Seq<u32>, Seq<char>>(conductors@),
        decreases cs@.len() - k,
    {
        proof {
            reveal_strlit("connectivity schema declares vias but contains no conductors");
            reveal_strlit("connectivity conductor layer `");
            reveal_strlit("` is duplicated");
            reveal_strlit("connectivity conductor references unknown layer `");
            reveal_strlit("`");
            reveal_strlit("connectivity cut layer `");
            reveal_strlit("` has duplicate via declarations");
            reveal_strlit("connectivity via references unknown cut layer `");
            reveal_strlit("connectivity via `");
            reveal_strlit("` must connect at least one conductor layer");
            reveal_strlit("` repeats conductor layer `");
            reveal_strlit("` references layer `");
            reveal_strlit("` that is not declared as a conductor");
            reveal_strlit("` references unknown conductor layer `");
        }
        if named_before_exec(cs, &cs[k], k) {
            proof {
                lemma_conductor_ids_err(table, cs@, k as int + 1, cs@.len() as int);
            }
            return Err(quoted("connectivity conductor layer `", &cs[k], "` is duplicated"));
        }
        match layers.id(&cs[k]) {
            None => {
                proof {
                    lemma_conductor_ids_err(table, cs@, k as int + 1, cs@.len() as int);
                }
                return Err(quoted("connectivity conductor references unknown layer `", &cs[k], "`"));
            },
            Some(i) => {
                conductors.push(i);
            },
        }
        k = k + 1;
    }
    let mut vias: Vec<(u32, Vec<u32>)> = Vec::new();
    assert(vias@.map_values(|v: (u32, Vec<u32>)| (v.0, v.1@)) =~= Seq::<(u32, Seq<u32>)>::empty());
    let mut k: usize = 0;
    while k < vs.len()
        invariant
            layers.id_to_name@.len() <= u32::MAX,
            table == names_of(layers.id_to_name@),
            cs@ == schema.conductors@,
            vs@ == schema.vias@,
            cs@.len() > 0,
            k <= vs@.len(),
            conductor_ids(table, cs@, cs@.len() as int) == Ok::<Seq<u32>, Seq<char>>(conductors@),
            via_ids(table, cs@, vs@, k as int) == Ok::<Seq<(u32, Seq<u32>)>, Seq<char>>(
                vias@.map_values(|v: (u32, Vec<u32>)| (v.0, v.1@)),
            ),
        decreases vs@.len() - k,
    {
        proof {
            reveal_strlit("connectivity schema declares vias but contains no conductors");
            reveal_strlit("connectivity conductor layer `");
            reveal_strlit("` is duplicated");
            reveal_strlit("connectivity conductor references unknown layer `");
            reveal_strlit("`");
            reveal_strlit("connectivity cut layer `");
            reveal_strlit("` has duplicate via declarations");
            reveal_strlit("connectivity via references unknown cut layer `");
            reveal_strlit("connectivity via `");
            reveal_strlit("` must connect at least one conductor layer");
            reveal_strlit("` repeats conductor layer `");
            reveal_strlit("` references layer `");
            reveal_strlit("` that is not declared as a conductor");
            reveal_strlit("` references unknown conductor layer `");
        }
        let v = &vs[k];
        let mut dup = false;
        let mut j: usize = 0;
        while j < k
            invariant
                k < vs@.len(),
                j <= k,
                v == &vs@[k as int],
                dup <==> exists|q: int| 0 <= q < j && (#[trigger] vs@[q]).layer@ == v.layer@,
                layers.id_to_name@.len() <= u32::MAX,
                table == names_of(layers.id_to_name@),
                cs@ == schema.conductors@,
                vs@ == schema.vias@,
                cs@.len() > 0,
                conductor_ids(table, cs@, cs@.len() as int) == Ok::<Seq<u32>, Seq<char>>(conductors@),
                via_ids(table, cs@, vs@, k as int) == Ok::<Seq<(u32, Seq<u32>)>, Seq<char>>(
                    vias@.map_values(|v: (u32, Vec<u32>)| (v.0, v.1@)),
                ),
            decreases k - j,
        {
            if vs[j].layer == v.layer {
                dup = true;
            }
            j = j + 1;
        }
        if dup {
            proof {
                lemma_via_ids_err(table, cs@, vs@, k as int + 1, vs@.len() as int);
            }
            return Err(quoted("connectivity cut layer `", &v.layer, "` has duplicate via declarations"));
        }
        let id = match layers.id(&v.layer) {
            None => {
                proof {
                    lemma_via_ids_err(table, cs@, vs@, k as int + 1, vs@.len() as int);
                }
                return Err(quoted("connectivity via references unknown cut layer `", &v.layer, "`"));
            },
            Some(i) => i,
        };
        if v.connects.len() == 0 {
            proof {
                lemma_via_ids_err(table, cs@, vs@, k as int + 1, vs@.len() as int);
            }
            return Err(quoted("connectivity via `", &v.layer, "` must connect at least one conductor layer"));
        }
        let mut connects: Vec<u32> = Vec::new();
        let mut q: usize = 0;
        while q < v.connects.len()
            invariant
                layers.id_to_name@.len() <= u32::MAX,
                table == names_of(layers.id_to_name@),
                cs@ == schema.conductors@,
                vs@ == schema.vias@,
                cs@.len() > 0,
                q <= v.connects@.len(),
                connect_ids(table, cs@, v.layer@, v.connects@, q as int) == Ok::<Seq<u32>, Seq<char>>(connects@),
                k < vs@.len(),
                v == &vs@[k as int],
                v.connects@.len() > 0,
                !(exists|q: int| 0 <= q < k && (#[trigger] vs@[q]).layer@ == v.layer@),
                first_named(table, v.layer@) == Some(id),
                conductor_ids(table, cs@, cs@.len() as int) == Ok::<Seq<u32>, Seq<char>>(conductors@),
                via_ids(table, cs@, vs@, k as int) == Ok::<Seq<(u32, Seq<u32>)>, Seq<char>>(
                    vias@.map_values(|v: (u32, Vec<u32>)| (v.0, v.1@)),
                ),
            decreases v.connects@.len() - q,
        {
            proof {
                reveal_strlit("connectivity schema declares vias but contains no conductors");
                reveal_strlit("connectivity conductor layer `");
                reveal_strlit("` is duplicated");
                reveal_strlit("connectivity conductor references unknown layer `");
                reveal_strlit("`");
                reveal_strlit("connectivity cut layer `");
                reveal_strlit("` has duplicate via declarations");
                reveal_strlit("connectivity via references unknown cut layer `");
                reveal_strlit("connectivity via `");
                reveal_strlit("` must connect at least one conductor layer");
                reveal_strlit("` repeats conductor layer `");
                reveal_strlit("` references layer `");
                reveal_strlit("` that is not declared as a conductor");
                reveal_strlit("` references unknown conductor layer `");
            }
            let c = &v.connects[q];
            let fault: Option<String> = if named_before_exec(&v.connects, c, q) {
                let mut m = quoted("connectivity via `", &v.layer, "` repeats conductor layer `");
                m.append(c.as_str());
                m.append("`");
                Some(m)
            } else if !named_before_exec(cs, c, cs.len()) {
                let mut m = quoted("connectivity via `", &v.layer, "` references layer `");
                m.append(c.as_str());
                m.append("` that is not declared as a conductor");
                Some(m)
            } else {
                match layers.id(c) {
                    None => {
                        let mut m = quoted("connectivity via `", &v.layer, "` references unknown conductor layer `");
                        m.append(c.as_str());
                        m.append("`");
                        Some(m)
                    },
                    Some(i) => {
                        connects.push(i);
                        None
                    },
                }
            };
            match fault {
                Some(m) => {
                    proof {
                        lemma_connect_ids_err(table, cs@, v.layer@, v.connects@, q as int + 1, v.connects@.len() as int);
                        assert(connect_ids(table, cs@, v.layer@, v.connects@, q as int + 1) == Err::<Seq<u32>, Seq<char>>(m@));
                        lemma_via_ids_err(table, cs@, vs@, k as int + 1, vs@.len() as int);
                    }
                    return Err(m);
                },
                None => {},
            }
            q = q + 1;
        }
        let ghost before = vias@.map_values(|v: (u32, Vec<u32>)| (v.0, v.1@));
        vias.push((id, connects));
        assert(vias@.map_values(|v: (u32, Vec<u32>)| (v.0, v.1@)) =~= before.push((id, connects@)));
        k = k + 1;
    }
    Ok(ConnectivityConfig { conductors, vias })
}

proof fn lemma_conductor_ids_err(table: Seq<Seq<char>>, cs: Seq<String>, k: int, n: int)
    requires
        0 < k <= n,
        conductor_ids(table, cs, k) is Err,
    ensures
        conductor_ids(table, cs, n) == conductor_ids(table, cs, k),
    decreases n - k,
{
    if n > k {
        lemma_conductor_ids_err(table, cs, k, n - 1);
    }
}

proof fn lemma_connect_ids_err(table: Seq<Seq<char>>, cs: Seq<String>, via: Seq<char>, connects: Seq<String>, k: int, n: int)
    requires
        0 < k <= n,
        connect_ids(table, cs, via, connects, k) is Err,
    ensures
        connect_ids(table, cs, via, connects, n) == connect_ids(table, cs, via, connects, k),
    decreases n - k,
{
    if n > k {
        lemma_connect_ids_err(table, cs, via, connects, k, n - 1);
    }
}

proof fn lemma_via_ids_err(table: Seq<Seq<char>>, cs: Seq<String>, vias: Seq<ViaSchema>, k: int, n: int)
    requires
        0 < k <= n,
        via_ids(table, cs, vias, k) is Err,
    ensures
        via_ids(table, cs, vias, n) == via_ids(table, cs, vias, k),
    decreases n - k,
{
    if n > k {
        lemma_via_ids_err(table, cs, vias, k, n - 1);
    }
}

/// Resolved MOS recognition rule.
pub struct MosRule {
    pub name: String,
    pub gate_layer: u32,
    pub channel_layer: u32,
    pub type_implant: u32,
    pub device_type: String,
    pub flavor_markers: Vec<(u32, String)>,
    pub well_layer: Option<u32>,
    pub device_class: Option<String>,
}

/// A MOS recognition rule as a deck declares it, layers by name; flavor
/// markers pair a layer name with a flavor.
pub struct MosRuleSchema {
    pub name: String,
    pub gate_layer: String,
    pub channel_layer: String,
    pub type_implant: String,
    pub device_type: String,
    pub flavor_markers: Vec<(String, String)>,
    pub well_layer: Option<String>,
    pub device_class: Option<String>,
}

/// The flavors a marker may name.
pub open spec fn known_flavor(f: Seq<char>) -> bool {
    f == "lvt"@ || f == "Lvt"@ || f == "LVT"@ || f == "hvt"@ || f == "Hvt"@ || f == "HVT"@
}

/// A MOS rule as the contracts see it.
pub open spec fn mos_rule_view(r: MosRule) -> (Seq<char>, u32, u32, u32, Seq<char>, Seq<(u32, Seq<char>)>, Option<u32>, Option<Seq<char>>) {
    (
        r.name@,
        r.gate_layer,
        r.channel_layer,
        r.type_implant,
        r.device_type@,
        r.flavor_markers@.map_values(|m: (u32, String)| (m.0, m.1@)),
        r.well_layer,
        match r.device_class { Some(c) => Some(c@), None => None },
    )
}

pub open spec fn unknown_layer_text(rule: Seq<char>, role: Seq<char>, layer: Seq<char>) -> Seq<char> {
    "device-recognition MOS rule `"@ + rule + "` references unknown "@ + role + " layer `"@ + layer + "`"@
}

/// The first of the first `k` flavor markers with an unknown flavor or a
/// layer named before.
pub open spec fn marker_fault(rule: Seq<char>, markers: Seq<(String, String)>, k: int) -> Option<Seq<char>>
    decreases k,
{
    if k <= 0 {
        None
    } else {
        match marker_fault(rule, markers, k - 1) {
            Some(m) => Some(m),
            None => {
                let (layer, flavor) = markers[k - 1];
                if !known_flavor(flavor@) {
                    Some("device-recognition MOS rule `"@ + rule + "` has unsupported flavor `"@ + flavor@ + "`"@)
                } else if exists|j: int| 0 <= j < k - 1 && (#[trigger] markers[j]).0@ == layer@ {
                    Some("device-recognition MOS rule `"@ + rule + "` repeats flavor-marker layer `"@ + layer@ + "`"@)
                } else {
                    None
                }
            },
        }
    }
}

/// The ids of the first `k` marker layers, or the first unknown one.
pub open spec fn marker_ids(table: Seq<Seq<char>>, rule: Seq<char>, markers: Seq<(String, String)>, k: int) -> Result<Seq<(u32, Seq<char>)>, Seq<char>>
    decreases k,
{
    if k <= 0 {
        Ok(Seq::empty())
    } else {
        match marker_ids(table, rule, markers, k - 1) {
            Err(m) => Err(m),
            Ok(v) => match first_named(table, markers[k - 1].0@) {
                None => Err(unknown_layer_text(rule, "flavor marker"@, markers[k - 1].0@)),
                Some(i) => Ok(v.push((i, markers[k - 1].1@))),
            },
        }
    }
}

/// Rule `i` resolved, the rules before it being sound: a non-blank name no
/// rule before it has, type `nmos` or `pmos`, no blank class, sound flavor
/// markers, then its marker, well, gate, channel and implant layers known.
pub open spec fn mos_rule_spec(table: Seq<Seq<char>>, rules: Seq<MosRuleSchema>, i: int) -> Result<
    (Seq<char>, u32, u32, u32, Seq<char>, Seq<(u32, Seq<char>)>, Option<u32>, Option<Seq<char>>),
    Seq<char>,
> {
    let r = rules[i];
    let name = r.name@;
    if blank(name) || exists|j: int| 0 <= j < i && (#[trigger] rules[j]).name@ == name {
        Err("device-recognition MOS rule has an empty or duplicate name `"@ + name + "`"@)
    } else if r.device_type@ != "nmos"@ && r.device_type@ != "pmos"@ {
        Err("device-recognition MOS rule `"@ + name + "` has unsupported device type `"@ + r.device_type@ + "`"@)
    } else if r.device_class matches Some(c) && blank(c@) {
        Err("device-recognition MOS rule `"@ + name + "` has an empty device class"@)
    } else if marker_fault(name, r.flavor_markers@, r.flavor_markers@.len() as int) is Some {
        Err(marker_fault(name, r.flavor_markers@, r.flavor_markers@.len() as int)->0)
    } else {
        match marker_ids(table, name, r.flavor_markers@, r.flavor_markers@.len() as int) {
            Err(m) => Err(m),
            Ok(markers) => {
                let well: Result<Option<u32>, Seq<char>> = match r.well_layer {
                    None => Ok(None),
                    Some(w) => match first_named(table, w@) {
                        None => Err(unknown_layer_text(name, "well"@, w@)),
                        Some(id) => Ok(Some(id)),
                    },
                };
                match well {
                    Err(m) => Err(m),
                    Ok(wl) => match first_named(table, r.gate_layer@) {
                        None => Err(unknown_layer_text(name, "gate"@, r.gate_layer@)),
                        Some(g) => match first_named(table, r.channel_layer@) {
                            None => Err(unknown_layer_text(name, "channel"@, r.channel_layer@)),
                            Some(c) => match first_named(table, r.type_implant@) {
                                None => Err(unknown_layer_text(name, "type implant"@, r.type_implant@)),
                                Some(t) => Ok((name, g, c, t, r.device_type@, markers, wl, match r.device_class {
                                    Some(x) => Some(x@),
                                    None => None,
                                })),
                            },
                        },
                    },
                }
            },
        }
    }
}

/// The first `k` rules resolved, or the first fault.
pub open spec fn mos_rules_spec(table: Seq<Seq<char>>, rules: Seq<MosRuleSchema>, k: int) -> Result<
    Seq<(Seq<char>, u32, u32, u32, Seq<char>, Seq<(u32, Seq<char>)>, Option<u32>, Option<Seq<char>>)>,
    Seq<char>,
>
    decreases k,
{
    if k <= 0 {
        Ok(Seq::empty())
    } else {
        match mos_rules_spec(table, rules, k - 1) {
            Err(m) => Err(m),
            Ok(v) => match mos_rule_spec(table, rules, k - 1) {
                Err(m) => Err(m),
                Ok(x) => Ok(v.push(x)),
            },
        }
    }
}

fn text_is(s: &String, lit: &str) -> (b: bool)
    ensures
        b == (s@ == lit@),
{
    let t = String::from_str(lit);
    *s == t
}

fn copy_text(s: &String) -> (r: String)
    ensures
        r@ == s@,
{
    s.clone()
}

fn unknown_layer_message(rule: &String, role: &str, layer: &String) -> (m: String)
    ensures
        m@ == unknown_layer_text(rule@, role@, layer@),
{
    proof {
        reveal_strlit("device-recognition MOS rule `");
        reveal_strlit("` references unknown ");
        reveal_strlit(" layer `");
        reveal_strlit("`");
    }
    let mut m = String::from_str("device-recognition MOS rule `");
    m.append(rule.as_str());
    m.append("` references unknown ");
    m.append(role);
    m.append(" layer `");
    m.append(layer.as_str());
    m.append("`");
    m
}

fn check_markers(rule: &String, markers: &Vec<(String, String)>) -> (r: Result<(), String>)
    ensures
        match marker_fault(rule@, markers@, markers@.len() as int) {
            None => r is Ok,
            Some(m) => r matches Err(e) && e@ == m,
        },
{
    let mut k: usize = 0;
    while k < markers.len()
        invariant
            k <= markers@.len(),
            marker_fault(rule@, markers@, k as int) is None,
        decreases markers@.len() - k,
    {
        proof {
            reveal_strlit("device-recognition MOS rule `");
            reveal_strlit("` has unsupported flavor `");
            reveal_strlit("` repeats flavor-marker layer `");
            reveal_strlit("`");
            reveal_strlit("lvt");
            reveal_strlit("Lvt");
            reveal_strlit("LVT");
            reveal_strlit("hvt");
            reveal_strlit("Hvt");
            reveal_strlit("HVT");
        }
        let (layer, flavor) = (&markers[k].0, &markers[k].1);
        let known = text_is(flavor, "lvt") || text_is(flavor, "Lvt") || text_is(flavor, "LVT") || text_is(flavor, "hvt")
            || text_is(flavor, "Hvt") || text_is(flavor, "HVT");
        if !known {
            let mut m = String::from_str("device-recognition MOS rule `");
            m.append(rule.as_str());
            m.append("` has unsupported flavor `");
            m.append(flavor.as_str());
            m.append("`");
            proof {
                lemma_marker_fault_stays(rule@, markers@, k as int + 1, markers@.len() as int);
            }
            return Err(m);
        }
        let mut seen = false;
        let mut j: usize = 0;
        while j < k
            invariant
                k < markers@.len(),
                j <= k,
                layer == &markers@[k as int].0,
                seen <==> exists|q: int| 0 <= q < j && (#[trigger] markers@[q]).0@ == layer@,
            decreases k - j,
        {
            if markers[j].0 == *layer {
                seen = true;
            }
            j = j + 1;
        }
        if seen {
            let mut m = String::from_str("device-recognition MOS rule `");
            m.append(rule.as_str());
            m.append("` repeats flavor-marker layer `");
            m.append(layer.as_str());
            m.append("`");
            proof {
                lemma_marker_fault_stays(rule@, markers@, k as int + 1, markers@.len() as int);
            }
            return Err(m);
        }
        k = k + 1;
    }
    Ok(())
}

proof fn lemma_marker_fault_stays(rule: Seq<char>, markers: Seq<(String, String)>, k: int, n: int)
    requires
        0 < k <= n,
        marker_fault(rule, markers, k) is Some,
    ensures
        marker_fault(rule, markers, n) == marker_fault(rule, markers, k),
    decreases n - k,
{
    if n > k {
        lemma_marker_fault_stays(rule, markers, k, n - 1);
    }
}

fn resolve_markers(layers: &LayerTable, rule: &String, markers: &Vec<(String, String)>) -> (r: Result<Vec<(u32, String)>, String>)
    requires
        layers.id_to_name@.len() <= u32::MAX,
    ensures
        match marker_ids(names_of(layers.id_to_name@), rule@, markers@, markers@.len() as int) {
            Ok(v) => r matches Ok(x) && x@.map_values(|m: (u32, String)| (m.0, m.1@)) == v,
            Err(m) => r matches Err(e) && e@ == m,
        },
{
    let ghost table = names_of(layers.id_to_name@);
    let mut out: Vec<(u32, String)> = Vec::new();
    assert(out@.map_values(|m: (u32, String)| (m.0, m.1@)) =~= Seq::<(u32, Seq<char>)>::empty());
    let mut k: usize = 0;
    while k < markers.len()
        invariant
            layers.id_to_name@.len() <= u32::MAX,
            table == names_of(layers.id_to_name@),
            k <= markers@.len(),
            marker_ids(table, rule@, markers@, k as int) == Ok::<Seq<(u32, Seq<char>)>, Seq<char>>(
                out@.map_values(|m: (u32, String)| (m.0, m.1@)),
            ),
        decreases markers@.len() - k,
    {
        match layers.id(&markers[k].0) {
            None => {
                proof {
                    lemma_marker_ids_err(table, rule@, markers@, k as int + 1, markers@.len() as int);
                }
                return Err(unknown_layer_message(rule, "flavor marker", &markers[k].0));
            },
            Some(i) => {
                let ghost before = out@.map_values(|m: (u32, String)| (m.0, m.1@));
                out.push((i, copy_text(&markers[k].1)));
                assert(out@.map_values(|m: (u32, String)| (m.0, m.1@)) =~= before.push((i, markers@[k as int].1@)));
            },
        }
        k = k + 1;
    }
    Ok(out)
}

proof fn lemma_marker_ids_err(table: Seq<Seq<char>>, rule: Seq<char>, markers: Seq<(String, String)>, k: int, n: int)
    requires
        0 < k <= n,
        marker_ids(table, rule, markers, k) is Err,
    ensures
        marker_ids(table, rule, markers, n) == marker_ids(table, rule, markers, k),
    decreases n - k,
{
    if n > k {
        lemma_marker_ids_err(table, rule, markers, k, n - 1);
    }
}

fn resolve_mos_rule(layers: &LayerTable, rules: &Vec<MosRuleSchema>, i: usize) -> (r: Result<MosRule, String>)
    requires
        layers.id_to_name@.len() <= u32::MAX,
        i < rules@.len(),
    ensures
        match mos_rule_spec(names_of(layers.id_to_name@), rules@, i as int) {
            Ok(v) => r matches Ok(x) && mos_rule_view(x) == v,
            Err(m) => r matches Err(e) && e@ == m,
        },
{
    proof {
        reveal_strlit("device-recognition MOS rule has an empty or duplicate name `");
        reveal_strlit("`");
        reveal_strlit("device-recognition MOS rule `");
        reveal_strlit("` has unsupported device type `");
        reveal_strlit("` has an empty device class");
        reveal_strlit("nmos");
        reveal_strlit("pmos");
    }
    let r = &rules[i];
    let mut dup = false;
    let mut j: usize = 0;
    while j < i
        invariant
            i < rules@.len(),
            j <= i,
            r == &rules@[i as int],
            dup <==> exists|q: int| 0 <= q < j && (#[trigger] rules@[q]).name@ == r.name@,
        decreases i - j,
    {
        if rules[j].name == r.name {
            dup = true;
        }
        j = j + 1;
    }
    if is_blank(r.name.as_str()) || dup {
        let mut m = String::from_str("device-recognition MOS rule has an empty or duplicate name `");
        m.append(r.name.as_str());
        m.append("`");
        return Err(m);
    }
    if !text_is(&r.device_type, "nmos") && !text_is(&r.device_type, "pmos") {
        let mut m = String::from_str("device-recognition MOS rule `");
        m.append(r.name.as_str());
        m.append("` has unsupported device type `");
        m.append(r.device_type.as_str());
        m.append("`");
        return Err(m);
    }
    match &r.device_class {
        Some(c) => {
            if is_blank(c.as_str()) {
                let mut m = String::from_str("device-recognition MOS rule `");
                m.append(r.name.as_str());
                m.append("` has an empty device class");
                return Err(m);
            }
        },
        None => {},
    }
    match check_markers(&r.name, &r.flavor_markers) {
        Err(e) => {
            return Err(e);
        },
        Ok(()) => {},
    }
    let flavor_markers = match resolve_markers(layers, &r.name, &r.flavor_markers) {
        Err(e) => {
            return Err(e);
        },
        Ok(v) => v,
    };
    let well_layer = match &r.well_layer {
        None => None,
        Some(w) => match layers.id(w) {
            None => {
                return Err(unknown_layer_message(&r.name, "well", w));
            },
            Some(id) => Some(id),
        },
    };
    let gate_layer = match layers.id(&r.gate_layer) {
        None => {
            return Err(unknown_layer_message(&r.name, "gate", &r.gate_layer));
        },
        Some(id) => id,
    };
    let channel_layer = match layers.id(&r.channel_layer) {
        None => {
            return Err(unknown_layer_message(&r.name, "channel", &r.channel_layer));
        },
        Some(id) => id,
    };
    let type_implant = match layers.id(&r.type_implant) {
        None => {
            return Err(unknown_layer_message(&r.name, "type implant", &r.type_implant));
        },
        Some(id) => id,
    };
    let device_class = match &r.device_class {
        None => None,
        Some(c) => Some(copy_text(c)),
    };
    Ok(MosRule {
        name: copy_text(&r.name),
        gate_layer,
        channel_layer,
        type_implant,
        device_type: copy_text(&r.device_type),
        flavor_markers,
        well_layer,
        device_class,
    })
}

/// Resolves declared MOS rules against the layer table, in order (see
/// `mos_rule_spec`).
pub fn resolve_mos_rules(layers: &LayerTable, rules: &Vec<MosRuleSchema>) -> (r: Result<Vec<MosRule>, String>)
    requires
        layers.id_to_name@.len() <= u32::MAX,
    ensures
        match mos_rules_spec(names_of(layers.id_to_name@), rules@, rules@.len() as int) {
            Ok(v) => r matches Ok(x) && x@.map_values(|m: MosRule| mos_rule_view(m)) == v,
            Err(m) => r matches Err(e) && e@ == m,
        },
{
    let ghost table = names_of(layers.id_to_name@);
    let mut out: Vec<MosRule> = Vec::new();
    assert(out@.map_values(|m: MosRule| mos_rule_view(m)) =~= Seq::<
        (Seq<char>, u32, u32, u32, Seq<char>, Seq<(u32, Seq<char>)>, Option<u32>, Option<Seq<char>>),
    >::empty());
    let mut k: usize = 0;
    while k < rules.len()
        invariant
            layers.id_to_name@.len() <= u32::MAX,
            table == names_of(layers.id_to_name@),
            k <= rules@.len(),
            mos_rules_spec(table, rules@, k as int) == Ok::<
                Seq<(Seq<char>, u32, u32, u32, Seq<char>, Seq<(u32, Seq<char>)>, Option<u32>, Option<Seq<char>>)>,
                Seq<char>,
            >(out@.map_values(|m: MosRule| mos_rule_view(m))),
        decreases rules@.len() - k,
    {
        match resolve_mos_rule(layers, rules, k) {
            Err(e) => {
                proof {
                    lemma_mos_rules_err(table, rules@, k as int + 1, rules@.len() as int);
                }
                return Err(e);
            },
            Ok(x) => {
                let ghost before = out@.map_values(|m: MosRule| mos_rule_view(m));
                out.push(x);
                assert(out@.map_values(|m: MosRule| mos_rule_view(m)) =~= before.push(mos_rule_view(x)));
            },
        }
        k = k + 1;
    }
    Ok(out)
}

proof fn lemma_mos_rules_err(table: Seq<Seq<char>>, rules: Seq<MosRuleSchema>, k: int, n: int)
    requires
        0 < k <= n,
        mos_rules_spec(table, rules, k) is Err,
    ensures
        mos_rules_spec(table, rules, n) == mos_rules_spec(table, rules, k),
    decreases n - k,
{
    if n > k {
        lemma_mos_rules_err(table, rules, k, n - 1);
    }
}

/// Resolved bipolar recognition rule.
pub struct BjtRule {
    pub name: String,
    pub collector_layer: u32,
    pub base_layer: u32,
    pub emitter_layer: u32,
    pub type_marker: u32,
    pub device_type: String,
}

/// Resolved resistor recognition rule.
pub struct ResistorRule {
    pub name: String,
    pub body_layer: u32,
    pub marker_layer: u32,
    pub terminal_layer: u32,
}

/// Resolved diode recognition rule.
pub struct DiodeRule {
    pub name: String,
    pub anode_layer: u32,
    pub cathode_layer: u32,
    pub implant_layer: u32,
}

/// Resolved capacitor recognition rule.
pub struct CapRule {
    pub name: String,
    pub top_layer: u32,
    pub bottom_layer: u32,
    pub marker_layer: Option<u32>,
}

/// All resolved device-recognition rules of a deck.
pub struct DeviceConfig {
    pub mos_rules: Vec<MosRule>,
    pub bjt_rules: Vec<BjtRule>,
    pub resistor_rules: Vec<ResistorRule>,
    pub diode_rules: Vec<DiodeRule>,
    pub cap_rules: Vec<CapRule>,
}

impl DeviceConfig {
    pub fn new() -> (c: DeviceConfig)
        ensures
            c.mos_rules@.len() == 0,
            c.bjt_rules@.len() == 0,
            c.resistor_rules@.len() == 0,
            c.diode_rules@.len() == 0,
            c.cap_rules@.len() == 0,
    {
        DeviceConfig {
            mos_rules: Vec::new(),
            bjt_rules: Vec::new(),
            resistor_rules: Vec::new(),
            diode_rules: Vec::new(),
            cap_rules: Vec::new(),
        }
    }
}

/// The resolved deck that extraction and comparison read: the layer table,
/// connectivity, device rules, global net names and the LVS switches.
/// Electrical parameters (resistances, capacitances, units) are held by the
/// caller.
pub struct Deck {
    pub layers: LayerTable,
    /// Layers connect only through explicit cut (via) shapes.
    pub lvs_cut_required: bool,
    /// Off-grid and acute-angle geometry are hard errors.
    pub strict: bool,
    pub connectivity: ConnectivityConfig,
    pub devices: DeviceConfig,
    pub w_tolerance: PropertyTolerance,
    pub l_tolerance: PropertyTolerance,
    pub fail_on_floating: bool,
    /// Shapes on one layer join when their boundaries touch.
    pub intra_layer_touch: bool,
    /// Names whose labelled polygons all belong to one net.
    pub global_nets: Vec<String>,
}

// --- declared bipolar and passive rules ---

/// A bipolar rule as a deck declares it, layers by name.
pub struct BjtRuleSchema {
    pub name: String,
    pub collector_layer: String,
    pub base_layer: String,
    pub emitter_layer: String,
    pub type_marker: String,
    pub device_type: String,
}

/// A resistor rule as a deck declares it, layers by name.
pub struct ResistorRuleSchema {
    pub name: String,
    pub body_layer: String,
    pub marker_layer: String,
    pub terminal_layer: String,
}

/// A diode rule as a deck declares it, layers by name.
pub struct DiodeRuleSchema {
    pub name: String,
    pub anode_layer: String,
    pub cathode_layer: String,
    pub implant_layer: String,
}

/// A capacitor rule as a deck declares it, layers by name.
pub struct CapRuleSchema {
    pub name: String,
    pub top_layer: String,
    pub bottom_layer: String,
    pub marker_layer: Option<String>,
}

pub open spec fn device_layer_text(kind: Seq<char>, rule: Seq<char>, role: Seq<char>, layer: Seq<char>) -> Seq<char> {
    "device-recognition "@ + kind + " rule `"@ + rule + "` references unknown "@ + role + " layer `"@ + layer + "`"@
}

pub open spec fn bad_name_text(kind: Seq<char>, rule: Seq<char>) -> Seq<char> {
    "device-recognition "@ + kind + " rule has an empty or duplicate name `"@ + rule + "`"@
}

/// The ids of the first `k` (role, layer name) pairs of a rule, or the
/// first unknown layer.
pub open spec fn role_ids(table: Seq<Seq<char>>, kind: Seq<char>, rule: Seq<char>, roles: Seq<(Seq<char>, Seq<char>)>, k: int) -> Result<Seq<u32>, Seq<char>>
    decreases k,
{
    if k <= 0 {
        Ok(Seq::empty())
    } else {
        match role_ids(table, kind, rule, roles, k - 1) {
            Err(m) => Err(m),
            Ok(v) => match first_named(table, roles[k - 1].1) {
                None => Err(device_layer_text(kind, rule, roles[k - 1].0, roles[k - 1].1)),
                Some(i) => Ok(v.push(i)),
            },
        }
    }
}

fn role_ids_exec(layers: &LayerTable, kind: &str, rule: &String, roles: &Vec<(&str, &String)>) -> (r: Result<Vec<u32>, String>)
    requires
        layers.id_to_name@.len() <= u32::MAX,
    ensures
        match role_ids(
            names_of(layers.id_to_name@),
            kind@,
            rule@,
            roles@.map_values(|e: (&str, &String)| (e.0@, e.1@)),
            roles@.len() as int,
        ) {
            Ok(v) => r matches Ok(x) && x@ == v,
            Err(m) => r matches Err(e) && e@ == m,
        },
{
    let ghost table = names_of(layers.id_to_name@);
    let ghost rs = roles@.map_values(|e: (&str, &String)| (e.0@, e.1@));
    let mut out: Vec<u32> = Vec::new();
    let mut k: usize = 0;
    while k < roles.len()
        invariant
            layers.id_to_name@.len() <= u32::MAX,
            table == names_of(layers.id_to_name@),
            rs == roles@.map_values(|e: (&str, &String)| (e.0@, e.1@)),
            k <= roles@.len(),
            role_ids(table, kind@, rule@, rs, k as int) == Ok::<Seq<u32>, Seq<char>>(out@),
        decreases roles@.len() - k,
    {
        let (role, name) = roles[k];
        match layers.id(name) {
            None => {
                proof {
                    reveal_strlit("device-recognition ");
                    reveal_strlit(" rule `");
                    reveal_strlit("` references unknown ");
                    reveal_strlit(" layer `");
                    reveal_strlit("`");
                    lemma_role_ids_err(table, kind@, rule@, rs, k as int + 1, roles@.len() as int);
                }
                let mut m = String::from_str("device-recognition ");
                m.append(kind);
                m.append(" rule `");
                m.append(rule.as_str());
                m.append("` references unknown ");
                m.append(role);
                m.append(" layer `");
                m.append(name.as_str());
                m.append("`");
                return Err(m);
            },
            Some(i) => {
                out.push(i);
            },
        }
        k = k + 1;
    }
    Ok(out)
}

proof fn lemma_role_ids_err(table: Seq<Seq<char>>, kind: Seq<char>, rule: Seq<char>, roles: Seq<(Seq<char>, Seq<char>)>, k: int, n: int)
    requires
        0 < k <= n,
        role_ids(table, kind, rule, roles, k) is Err,
    ensures
        role_ids(table, kind, rule, roles, n) == role_ids(table, kind, rule, roles, k),
    decreases n - k,
{
    if n > k {
        lemma_role_ids_err(table, kind, rule, roles, k, n - 1);
    }
}

/// Rule names: the name of rule `i` is blank or one of the rules before it
/// has it.
pub open spec fn bad_name(names: Seq<Seq<char>>, i: int) -> bool {
    blank(names[i]) || exists|j: int| 0 <= j < i && #[trigger] names[j] == names[i]
}

fn bad_name_exec(names: &Vec<&String>, i: usize) -> (b: bool)
    requires
        i < names@.len(),
    ensures
        b == bad_name(names@.map_values(|s: &String| s@), i as int),
{
    let ghost ns = names@.map_values(|s: &String| s@);
    let mut dup = false;
    let mut j: usize = 0;
    while j < i
        invariant
            i < names@.len(),
            ns == names@.map_values(|s: &String| s@),
            j <= i,
            dup <==> exists|q: int| 0 <= q < j && #[trigger] ns[q] == ns[i as int],
        decreases i - j,
    {
        assert(ns[j as int] == names@[j as int]@);
        assert(ns[i as int] == names@[i as int]@);
        if *names[j] == *names[i] {
            dup = true;
        }
        j = j + 1;
    }
    is_blank(names[i].as_str()) || dup
}

/// A bipolar rule as the contracts see it.
pub open spec fn bjt_rule_view(r: BjtRule) -> (Seq<char>, u32, u32, u32, u32, Seq<char>) {
    (r.name@, r.collector_layer, r.base_layer, r.emitter_layer, r.type_marker, r.device_type@)
}

pub open spec fn bjt_roles(r: BjtRuleSchema) -> Seq<(Seq<char>, Seq<char>)> {
    seq![("collector"@, r.collector_layer@), ("base"@, r.base_layer@), ("emitter"@, r.emitter_layer@), ("type marker"@, r.type_marker@)]
}

/// The first `k` declared bipolar rules resolved, or the first fault: a
/// blank or repeated name, a type other than `npn` or `pnp`, an unknown
/// collector, base, emitter or type-marker layer.
pub open spec fn bjt_rules_spec(table: Seq<Seq<char>>, rules: Seq<BjtRuleSchema>, k: int) -> Result<Seq<(Seq<char>, u32, u32, u32, u32, Seq<char>)>, Seq<char>>
    decreases k,
{
    if k <= 0 {
        Ok(Seq::empty())
    } else {
        match bjt_rules_spec(table, rules, k - 1) {
            Err(m) => Err(m),
            Ok(v) => {
                let r = rules[k - 1];
                if bad_name(rules.map_values(|x: BjtRuleSchema| x.name@), k - 1) {
                    Err(bad_name_text("BJT"@, r.name@))
                } else if r.device_type@ != "npn"@ && r.device_type@ != "pnp"@ {
                    Err("device-recognition BJT rule `"@ + r.name@ + "` has unsupported device type `"@ + r.device_type@ + "`"@)
                } else {
                    match role_ids(table, "BJT"@, r.name@, bjt_roles(r), 4) {
                        Err(m) => Err(m),
                        Ok(ids) => Ok(v.push((r.name@, ids[0], ids[1], ids[2], ids[3], r.device_type@))),
                    }
                }
            },
        }
    }
}

/// Resolves declared bipolar rules against the layer table, in order (see
/// `bjt_rules_spec`).
pub fn resolve_bjt_rules(layers: &LayerTable, rules: &Vec<BjtRuleSchema>) -> (r: Result<Vec<BjtRule>, String>)
    requires
        layers.id_to_name@.len() <= u32::MAX,
    ensures
        match bjt_rules_spec(names_of(layers.id_to_name@), rules@, rules@.len() as int) {
            Ok(v) => r matches Ok(x) && x@.map_values(|b: BjtRule| bjt_rule_view(b)) == v,
            Err(m) => r matches Err(e) && e@ == m,
        },
{
    let ghost table = names_of(layers.id_to_name@);
    let mut names: Vec<&String> = Vec::new();
    let mut i: usize = 0;
    while i < rules.len()
        invariant
            i <= rules@.len(),
            names@.len() == i,
            forall|q: int| 0 <= q < i ==> (#[trigger] names@[q])@ == rules@[q].name@,
        decreases rules@.len() - i,
    {
        names.push(&rules[i].name);
        i = i + 1;
    }
    assert(names@.map_values(|s: &String| s@) =~= rules@.map_values(|x: BjtRuleSchema| x.name@));
    let mut out: Vec<BjtRule> = Vec::new();
    assert(out@.map_values(|b: BjtRule| bjt_rule_view(b)) =~= Seq::<(Seq<char>, u32, u32, u32, u32, Seq<char>)>::empty());
    let mut k: usize = 0;
    while k < rules.len()
        invariant
            layers.id_to_name@.len() <= u32::MAX,
            table == names_of(layers.id_to_name@),
            k <= rules@.len(),
            names@.len() == rules@.len(),
            names@.map_values(|s: &String| s@) == rules@.map_values(|x: BjtRuleSchema| x.name@),
            bjt_rules_spec(table, rules@, k as int) == Ok::<Seq<(Seq<char>, u32, u32, u32, u32, Seq<char>)>, Seq<char>>(
                out@.map_values(|b: BjtRule| bjt_rule_view(b)),
            ),
        decreases rules@.len() - k,
    {
        proof {
            reveal_strlit("device-recognition ");
            reveal_strlit(" rule has an empty or duplicate name `");
            reveal_strlit("`");
            reveal_strlit("BJT");
            reveal_strlit("device-recognition BJT rule `");
            reveal_strlit("` has unsupported device type `");
            reveal_strlit("npn");
            reveal_strlit("pnp");
            reveal_strlit("collector");
            reveal_strlit("base");
            reveal_strlit("emitter");
            reveal_strlit("type marker");
        }
        let r = &rules[k];
        if bad_name_exec(&names, k) {
            let mut m = String::from_str("device-recognition ");
            m.append("BJT");
            m.append(" rule has an empty or duplicate name `");
            m.append(r.name.as_str());
            m.append("`");
            proof {
                lemma_bjt_rules_err(table, rules@, k as int + 1, rules@.len() as int);
            }
            return Err(m);
        }
        if !text_is(&r.device_type, "npn") && !text_is(&r.device_type, "pnp") {
            let mut m = String::from_str("device-recognition BJT rule `");
            m.append(r.name.as_str());
            m.append("` has unsupported device type `");
            m.append(r.device_type.as_str());
            m.append("`");
            proof {
                lemma_bjt_rules_err(table, rules@, k as int + 1, rules@.len() as int);
            }
            return Err(m);
        }
        let roles: Vec<(&str, &String)> = vec![
            ("collector", &r.collector_layer),
            ("base", &r.base_layer),
            ("emitter", &r.emitter_layer),
            ("type marker", &r.type_marker),
        ];
        assert(roles@.map_values(|e: (&str, &String)| (e.0@, e.1@)) =~= bjt_roles(*r));
        match role_ids_exec(layers, "BJT", &r.name, &roles) {
            Err(e) => {
                proof {
                    lemma_bjt_rules_err(table, rules@, k as int + 1, rules@.len() as int);
                }
                return Err(e);
            },
            Ok(ids) => {
                proof {
                    lemma_role_ids_len(table, "BJT"@, r.name@, bjt_roles(*r), 4);
                }
                let b = BjtRule {
                    name: copy_text(&r.name),
                    collector_layer: ids[0],
                    base_layer: ids[1],
                    emitter_layer: ids[2],
                    type_marker: ids[3],
                    device_type: copy_text(&r.device_type),
                };
                let ghost before = out@.map_values(|b: BjtRule| bjt_rule_view(b));
                out.push(b);
                assert(out@.map_values(|b: BjtRule| bjt_rule_view(b)) =~= before.push(bjt_rule_view(b)));
            },
        }
        k = k + 1;
    }
    Ok(out)
}

proof fn lemma_role_ids_len(table: Seq<Seq<char>>, kind: Seq<char>, rule: Seq<char>, roles: Seq<(Seq<char>, Seq<char>)>, k: int)
    requires
        0 <= k,
        role_ids(table, kind, rule, roles, k) is Ok,
    ensures
        role_ids(table, kind, rule, roles, k)->Ok_0.len() == k,
    decreases k,
{
    if k > 0 {
        lemma_role_ids_len(table, kind, rule, roles, k - 1);
    }
}

proof fn lemma_bjt_rules_err(table: Seq<Seq<char>>, rules: Seq<BjtRuleSchema>, k: int, n: int)
    requires
        0 < k <= n,
        bjt_rules_spec(table, rules, k) is Err,
    ensures
        bjt_rules_spec(table, rules, n) == bjt_rules_spec(table, rules, k),
    decreases n - k,
{
    if n > k {
        lemma_bjt_rules_err(table, rules, k, n - 1);
    }
}

/// A resistor rule as the contracts see it.
pub open spec fn resistor_rule_view(r: ResistorRule) -> (Seq<char>, u32, u32, u32) {
    (r.name@, r.body_layer, r.marker_layer, r.terminal_layer)
}

pub open spec fn resistor_roles(r: ResistorRuleSchema) -> Seq<(Seq<char>, Seq<char>)> {
    seq![("body"@, r.body_layer@), ("marker"@, r.marker_layer@), ("terminal"@, r.terminal_layer@)]
}

/// The first `k` declared resistor rules resolved, or the first fault: a
/// blank or repeated name, or an unknown layer (body, marker, terminal).
pub open spec fn resistor_rules_spec(table: Seq<Seq<char>>, rules: Seq<ResistorRuleSchema>, k: int) -> Result<Seq<(Seq<char>, u32, u32, u32)>, Seq<char>>
    decreases k,
{
    if k <= 0 {
        Ok(Seq::empty())
    } else {
        match resistor_rules_spec(table, rules, k - 1) {
            Err(m) => Err(m),
            Ok(v) => {
                let r = rules[k - 1];
                if bad_name(rules.map_values(|x: ResistorRuleSchema| x.name@), k - 1) {
                    Err(bad_name_text("resistor"@, r.name@))
                } else {
                    match role_ids(table, "resistor"@, r.name@, resistor_roles(r), 3) {
                        Err(m) => Err(m),
                        Ok(ids) => Ok(v.push((r.name@, ids[0], ids[1], ids[2]))),
                    }
                }
            },
        }
    }
}

/// Resolves declared resistor rules against the layer table, in order
/// (see `resistor_rules_spec`).
pub fn resolve_resistor_rules(layers: &LayerTable, rules: &Vec<ResistorRuleSchema>) -> (r: Result<Vec<ResistorRule>, String>)
    requires
        layers.id_to_name@.len() <= u32::MAX,
    ensures
        match resistor_rules_spec(names_of(layers.id_to_name@), rules@, rules@.len() as int) {
            Ok(v) => r matches Ok(x) && x@.map_values(|b: ResistorRule| resistor_rule_view(b)) == v,
            Err(m) => r matches Err(e) && e@ == m,
        },
{
    let ghost table = names_of(layers.id_to_name@);
    let mut names: Vec<&String> = Vec::new();
    let mut i: usize = 0;
    while i < rules.len()
        invariant
            i <= rules@.len(),
            names@.len() == i,
            forall|q: int| 0 <= q < i ==> (#[trigger] names@[q])@ == rules@[q].name@,
        decreases rules@.len() - i,
    {
        names.push(&rules[i].name);
        i = i + 1;
    }
    assert(names@.map_values(|s: &String| s@) =~= rules@.map_values(|x: ResistorRuleSchema| x.name@));
    let mut out: Vec<ResistorRule> = Vec::new();
    assert(out@.map_values(|b: ResistorRule| resistor_rule_view(b)) =~= Seq::<(Seq<char>, u32, u32, u32)>::empty());
    let mut k: usize = 0;
    while k < rules.len()
        invariant
            layers.id_to_name@.len() <= u32::MAX,
            table == names_of(layers.id_to_name@),
            k <= rules@.len(),
            names@.len() == rules@.len(),
            names@.map_values(|s: &String| s@) == rules@.map_values(|x: ResistorRuleSchema| x.name@),
            resistor_rules_spec(table, rules@, k as int) == Ok::<Seq<(Seq<char>, u32, u32, u32)>, Seq<char>>(
                out@.map_values(|b: ResistorRule| resistor_rule_view(b)),
            ),
        decreases rules@.len() - k,
    {
        proof {
            reveal_strlit("device-recognition ");
            reveal_strlit(" rule has an empty or duplicate name `");
            reveal_strlit("`");
            reveal_strlit("resistor");
            reveal_strlit("body");
            reveal_strlit("marker");
            reveal_strlit("terminal");
        }
        let r = &rules[k];
        if bad_name_exec(&names, k) {
            let mut m = String::from_str("device-recognition ");
            m.append("resistor");
            m.append(" rule has an empty or duplicate name `");
            m.append(r.name.as_str());
            m.append("`");
            proof {
                lemma_resistor_rules_err(table, rules@, k as int + 1, rules@.len() as int);
            }
            return Err(m);
        }
        let roles: Vec<(&str, &String)> = vec![
            ("body", &r.body_layer),
            ("marker", &r.marker_layer),
            ("terminal", &r.terminal_layer),
        ];
        assert(roles@.map_values(|e: (&str, &String)| (e.0@, e.1@)) =~= resistor_roles(*r));
        match role_ids_exec(layers, "resistor", &r.name, &roles) {
            Err(e) => {
                proof {
                    lemma_resistor_rules_err(table, rules@, k as int + 1, rules@.len() as int);
                }
                return Err(e);
            },
            Ok(ids) => {
                proof {
                    lemma_role_ids_len(table, "resistor"@, r.name@, resistor_roles(*r), 3);
                }
                let b = ResistorRule {
                    name: copy_text(&r.name),
                    body_layer: ids[0],
                    marker_layer: ids[1],
                    terminal_layer: ids[2],
                };
                let ghost before = out@.map_values(|b: ResistorRule| resistor_rule_view(b));
                out.push(b);
                assert(out@.map_values(|b: ResistorRule| resistor_rule_view(b)) =~= before.push(resistor_rule_view(b)));
            },
        }
        k = k + 1;
    }
    Ok(out)
}

proof fn lemma_resistor_rules_err(table: Seq<Seq<char>>, rules: Seq<ResistorRuleSchema>, k: int, n: int)
    requires
        0 < k <= n,
        resistor_rules_spec(table, rules, k) is Err,
    ensures
        resistor_rules_spec(table, rules, n) == resistor_rules_spec(table, rules, k),
    decreases n - k,
{
    if n > k {
        lemma_resistor_rules_err(table, rules, k, n - 1);
    }
}

/// A diode rule as the contracts see it.
pub open spec fn diode_rule_view(r: DiodeRule) -> (Seq<char>, u32, u32, u32) {
    (r.name@, r.anode_layer, r.cathode_layer, r.implant_layer)
}

pub open spec fn diode_roles(r: DiodeRuleSchema) -> Seq<(Seq<char>, Seq<char>)> {
    seq![("anode"@, r.anode_layer@), ("cathode"@, r.cathode_layer@), ("implant"@, r.implant_layer@)]
}

/// The first `k` declared diode rules resolved, or the first fault: a
/// blank or repeated name, or an unknown layer (anode, cathode, implant).
pub open spec fn diode_rules_spec(table: Seq<Seq<char>>, rules: Seq<DiodeRuleSchema>, k: int) -> Result<Seq<(Seq<char>, u32, u32, u32)>, Seq<char>>
    decreases k,
{
    if k <= 0 {
        Ok(Seq::empty())
    } else {
        match diode_rules_spec(table, rules, k - 1) {
            Err(m) => Err(m),
            Ok(v) => {
                let r = rules[k - 1];
                if bad_name(rules.map_values(|x: DiodeRuleSchema| x.name@), k - 1) {
                    Err(bad_name_text("diode"@, r.name@))
                } else {
                    match role_ids(table, "diode"@, r.name@, diode_roles(r), 3) {
                        Err(m) => Err(m),
                        Ok(ids) => Ok(v.push((r.name@, ids[0], ids[1], ids[2]))),
                    }
                }
            },
        }
    }
}

/// Resolves declared diode rules against the layer table, in order
/// (see `diode_rules_spec`).
pub fn resolve_diode_rules(layers: &LayerTable, rules: &Vec<DiodeRuleSchema>) -> (r: Result<Vec<DiodeRule>, String>)
    requires
        layers.id_to_name@.len() <= u32::MAX,
    ensures
        match diode_rules_spec(names_of(layers.id_to_name@), rules@, rules@.len() as int) {
            Ok(v) => r matches Ok(x) && x@.map_values(|b: DiodeRule| diode_rule_view(b)) == v,
            Err(m) => r matches Err(e) && e@ == m,
        },
{
    let ghost table = names_of(layers.id_to_name@);
    let mut names: Vec<&String> = Vec::new();
    let mut i: usize = 0;
    while i < rules.len()
        invariant
            i <= rules@.len(),
            names@.len() == i,
            forall|q: int| 0 <= q < i ==> (#[trigger] names@[q])@ == rules@[q].name@,
        decreases rules@.len() - i,
    {
        names.push(&rules[i].name);
        i = i + 1;
    }
    assert(names@.map_values(|s: &String| s@) =~= rules@.map_values(|x: DiodeRuleSchema| x.name@));
    let mut out: Vec<DiodeRule> = Vec::new();
    assert(out@.map_values(|b: DiodeRule| diode_rule_view(b)) =~= Seq::<(Seq<char>, u32, u32, u32)>::empty());
    let mut k: usize = 0;
    while k < rules.len()
        invariant
            layers.id_to_name@.len() <= u32::MAX,
            table == names_of(layers.id_to_name@),
            k <= rules@.len(),
            names@.len() == rules@.len(),
            names@.map_values(|s: &String| s@) == rules@.map_values(|x: DiodeRuleSchema| x.name@),
            diode_rules_spec(table, rules@, k as int) == Ok::<Seq<(Seq<char>, u32, u32, u32)>, Seq<char>>(
                out@.map_values(|b: DiodeRule| diode_rule_view(b)),
            ),
        decreases rules@.len() - k,
    {
        proof {
            reveal_strlit("device-recognition ");
            reveal_strlit(" rule has an empty or duplicate name `");
            reveal_strlit("`");
            reveal_strlit("diode");
            reveal_strlit("anode");
            reveal_strlit("cathode");
            reveal_strlit("implant");
        }
        let r = &rules[k];
        if bad_name_exec(&names, k) {
            let mut m = String::from_str("device-recognition ");
            m.append("diode");
            m.append(" rule has an empty or duplicate name `");
            m.append(r.name.as_str());
            m.append("`");
            proof {
                lemma_diode_rules_err(table, rules@, k as int + 1, rules@.len() as int);
            }
            return Err(m);
        }
        let roles: Vec<(&str, &String)> = vec![
            ("anode", &r.anode_layer),
            ("cathode", &r.cathode_layer),
            ("implant", &r.implant_layer),
        ];
        assert(roles@.map_values(|e: (&str, &String)| (e.0@, e.1@)) =~= diode_roles(*r));
        match role_ids_exec(layers, "diode", &r.name, &roles) {
            Err(e) => {
                proof {
                    lemma_diode_rules_err(table, rules@, k as int + 1, rules@.len() as int);
                }
                return Err(e);
            },
            Ok(ids) => {
                proof {
                    lemma_role_ids_len(table, "diode"@, r.name@, diode_roles(*r), 3);
                }
                let b = DiodeRule {
                    name: copy_text(&r.name),
                    anode_layer: ids[0],
                    cathode_layer: ids[1],
                    implant_layer: ids[2],
                };
                let ghost before = out@.map_values(|b: DiodeRule| diode_rule_view(b));
                out.push(b);
                assert(out@.map_values(|b: DiodeRule| diode_rule_view(b)) =~= before.push(diode_rule_view(b)));
            },
        }
        k = k + 1;
    }
    Ok(out)
}

proof fn lemma_diode_rules_err(table: Seq<Seq<char>>, rules: Seq<DiodeRuleSchema>, k: int, n: int)
    requires
        0 < k <= n,
        diode_rules_spec(table, rules, k) is Err,
    ensures
        diode_rules_spec(table, rules, n) == diode_rules_spec(table, rules, k),
    decreases n - k,
{
    if n > k {
        lemma_diode_rules_err(table, rules, k, n - 1);
    }
}

/// A capacitor rule as the contracts see it.
pub open spec fn cap_rule_view(r: CapRule) -> (Seq<char>, u32, u32, Option<u32>) {
    (r.name@, r.top_layer, r.bottom_layer, r.marker_layer)
}

/// The layers a capacitor rule names, in the order they are looked up: its
/// marker (when it has one), then its top and bottom plates.
pub open spec fn cap_roles(r: CapRuleSchema) -> Seq<(Seq<char>, Seq<char>)> {
    (match r.marker_layer {
        Some(m) => seq![("marker"@, m@)],
        None => Seq::empty(),
    }) + seq![("top plate"@, r.top_layer@), ("bottom plate"@, r.bottom_layer@)]
}

/// The first `k` declared capacitor rules resolved, or the first fault: a
/// blank or repeated name, or an unknown marker, top-plate or bottom-plate
/// layer.
pub open spec fn cap_rules_spec(table: Seq<Seq<char>>, rules: Seq<CapRuleSchema>, k: int) -> Result<Seq<(Seq<char>, u32, u32, Option<u32>)>, Seq<char>>
    decreases k,
{
    if k <= 0 {
        Ok(Seq::empty())
    } else {
        match cap_rules_spec(table, rules, k - 1) {
            Err(m) => Err(m),
            Ok(v) => {
                let r = rules[k - 1];
                if bad_name(rules.map_values(|x: CapRuleSchema| x.name@), k - 1) {
                    Err(bad_name_text("capacitor"@, r.name@))
                } else {
                    match role_ids(table, "capacitor"@, r.name@, cap_roles(r), cap_roles(r).len() as int) {
                        Err(m) => Err(m),
                        Ok(ids) => if r.marker_layer is Some {
                            Ok(v.push((r.name@, ids[1], ids[2], Some(ids[0]))))
                        } else {
                            Ok(v.push((r.name@, ids[0], ids[1], None)))
                        },
                    }
                }
            },
        }
    }
}

/// Resolves declared capacitor rules against the layer table, in order
/// (see `cap_rules_spec`).
pub fn resolve_cap_rules(layers: &LayerTable, rules: &Vec<CapRuleSchema>) -> (r: Result<Vec<CapRule>, String>)
    requires
        layers.id_to_name@.len() <= u32::MAX,
    ensures
        match cap_rules_spec(names_of(layers.id_to_name@), rules@, rules@.len() as int) {
            Ok(v) => r matches Ok(x) && x@.map_values(|b: CapRule| cap_rule_view(b)) == v,
            Err(m) => r matches Err(e) && e@ == m,
        },
{
    let ghost table = names_of(layers.id_to_name@);
    let mut names: Vec<&String> = Vec::new();
    let mut i: usize = 0;
    while i < rules.len()
        invariant
            i <= rules@.len(),
            names@.len() == i,
            forall|q: int| 0 <= q < i ==> (#[trigger] names@[q])@ == rules@[q].name@,
        decreases rules@.len() - i,
    {
        names.push(&rules[i].name);
        i = i + 1;
    }
    assert(names@.map_values(|s: &String| s@) =~= rules@.map_values(|x: CapRuleSchema| x.name@));
    let mut out: Vec<CapRule> = Vec::new();
    assert(out@.map_values(|b: CapRule| cap_rule_view(b)) =~= Seq::<(Seq<char>, u32, u32, Option<u32>)>::empty());
    let mut k: usize = 0;
    while k < rules.len()
        invariant
            layers.id_to_name@.len() <= u32::MAX,
            table == names_of(layers.id_to_name@),
            k <= rules@.len(),
            names@.len() == rules@.len(),
            names@.map_values(|s: &String| s@) == rules@.map_values(|x: CapRuleSchema| x.name@),
            cap_rules_spec(table, rules@, k as int) == Ok::<Seq<(Seq<char>, u32, u32, Option<u32>)>, Seq<char>>(
                out@.map_values(|b: CapRule| cap_rule_view(b)),
            ),
        decreases rules@.len() - k,
    {
        proof {
            reveal_strlit("device-recognition ");
            reveal_strlit(" rule has an empty or duplicate name `");
            reveal_strlit("`");
            reveal_strlit("capacitor");
            reveal_strlit("marker");
            reveal_strlit("top plate");
            reveal_strlit("bottom plate");
        }
        let r = &rules[k];
        if bad_name_exec(&names, k) {
            let mut m = String::from_str("device-recognition ");
            m.append("capacitor");
            m.append(" rule has an empty or duplicate name `");
            m.append(r.name.as_str());
            m.append("`");
            proof {
                lemma_cap_rules_err(table, rules@, k as int + 1, rules@.len() as int);
            }
            return Err(m);
        }
        let mut roles: Vec<(&str, &String)> = Vec::new();
        match &r.marker_layer {
            Some(m) => {
                roles.push(("marker", m));
            },
            None => {},
        }
        roles.push(("top plate", &r.top_layer));
        roles.push(("bottom plate", &r.bottom_layer));
        assert(roles@.map_values(|e: (&str, &String)| (e.0@, e.1@)) =~= cap_roles(*r));
        match role_ids_exec(layers, "capacitor", &r.name, &roles) {
            Err(e) => {
                proof {
                    lemma_cap_rules_err(table, rules@, k as int + 1, rules@.len() as int);
                }
                return Err(e);
            },
            Ok(ids) => {
                proof {
                    lemma_role_ids_len(table, "capacitor"@, r.name@, cap_roles(*r), cap_roles(*r).len() as int);
                }
                let b = match &r.marker_layer {
                    Some(_) => CapRule { name: copy_text(&r.name), top_layer: ids[1], bottom_layer: ids[2], marker_layer: Some(ids[0]) },
                    None => CapRule { name: copy_text(&r.name), top_layer: ids[0], bottom_layer: ids[1], marker_layer: None },
                };
                let ghost before = out@.map_values(|b: CapRule| cap_rule_view(b));
                out.push(b);
                assert(out@.map_values(|b: CapRule| cap_rule_view(b)) =~= before.push(cap_rule_view(b)));
            },
        }
        k = k + 1;
    }
    Ok(out)
}

proof fn lemma_cap_rules_err(table: Seq<Seq<char>>, rules: Seq<CapRuleSchema>, k: int, n: int)
    requires
        0 < k <= n,
        cap_rules_spec(table, rules, k) is Err,
    ensures
        cap_rules_spec(table, rules, n) == cap_rules_spec(table, rules, k),
    decreases n - k,
{
    if n > k {
        lemma_cap_rules_err(table, rules, k, n - 1);
    }
}

// --- a deck from its declaration ---

/// The parts of a deck's declaration that layers, connectivity and device
/// recognition come from: layer definitions (distinct names, as in a map),
/// connectivity by layer name, device rules by layer name, global net
/// names and the LVS switches.
pub struct DeckSchema {
    pub layers: Vec<(String, LayerDef)>,
    pub connectivity: ConnectivitySchema,
    pub intra_layer_touch: bool,
    pub global_nets: Vec<String>,
    pub mos_rules: Vec<MosRuleSchema>,
    pub bjt_rules: Vec<BjtRuleSchema>,
    pub resistor_rules: Vec<ResistorRuleSchema>,
    pub diode_rules: Vec<DiodeRuleSchema>,
    pub cap_rules: Vec<CapRuleSchema>,
    pub lvs_cut_required: bool,
    pub fail_on_floating: bool,
    pub w_tolerance: PropertyTolerance,
    pub l_tolerance: PropertyTolerance,
}

/// The names of the layer table built from `defs`, by id.
pub open spec fn table_names(defs: Seq<(String, LayerDef)>) -> Seq<Seq<char>> {
    sort_entries(entries_of(defs)).map_values(|e: (Seq<char>, (i32, i32))| e.0)
}

/// The first fault of a deck's declaration, checked in order: its layer
/// definitions, its connectivity, then its MOS, bipolar, resistor, diode
/// and capacitor rules.
pub open spec fn deck_fault(schema: DeckSchema) -> Option<Seq<char>> {
    let t = table_names(schema.layers@);
    if first_def_fault(schema.layers@, schema.layers@.len() as int) is Some {
        first_def_fault(schema.layers@, schema.layers@.len() as int)
    } else if connectivity_spec(t, schema.connectivity) is Err {
        Some(connectivity_spec(t, schema.connectivity)->Err_0)
    } else if mos_rules_spec(t, schema.mos_rules@, schema.mos_rules@.len() as int) is Err {
        Some(mos_rules_spec(t, schema.mos_rules@, schema.mos_rules@.len() as int)->Err_0)
    } else if bjt_rules_spec(t, schema.bjt_rules@, schema.bjt_rules@.len() as int) is Err {
        Some(bjt_rules_spec(t, schema.bjt_rules@, schema.bjt_rules@.len() as int)->Err_0)
    } else if resistor_rules_spec(t, schema.resistor_rules@, schema.resistor_rules@.len() as int) is Err {
        Some(resistor_rules_spec(t, schema.resistor_rules@, schema.resistor_rules@.len() as int)->Err_0)
    } else if diode_rules_spec(t, schema.diode_rules@, schema.diode_rules@.len() as int) is Err {
        Some(diode_rules_spec(t, schema.diode_rules@, schema.diode_rules@.len() as int)->Err_0)
    } else if cap_rules_spec(t, schema.cap_rules@, schema.cap_rules@.len() as int) is Err {
        Some(cap_rules_spec(t, schema.cap_rules@, schema.cap_rules@.len() as int)->Err_0)
    } else {
        None
    }
}

/// `d` is the deck `schema` declares: its layer table, connectivity and
/// rules resolved, its global nets and switches as declared.
pub open spec fn deck_of(schema: DeckSchema, d: Deck) -> bool {
    let t = table_names(schema.layers@);
    &&& d.layers.wf()
    &&& d.layers.entries() == sort_entries(entries_of(schema.layers@))
    &&& names_of(d.layers.id_to_name@) == t
    &&& connectivity_spec(t, schema.connectivity) == Ok::<(Seq<u32>, Seq<(u32, Seq<u32>)>), Seq<char>>(connectivity_view(d.connectivity))
    &&& mos_rules_spec(t, schema.mos_rules@, schema.mos_rules@.len() as int) == Ok::<
        Seq<(Seq<char>, u32, u32, u32, Seq<char>, Seq<(u32, Seq<char>)>, Option<u32>, Option<Seq<char>>)>,
        Seq<char>,
    >(d.devices.mos_rules@.map_values(|m: MosRule| mos_rule_view(m)))
    &&& bjt_rules_spec(t, schema.bjt_rules@, schema.bjt_rules@.len() as int) == Ok::<Seq<(Seq<char>, u32, u32, u32, u32, Seq<char>)>, Seq<char>>(
        d.devices.bjt_rules@.map_values(|m: BjtRule| bjt_rule_view(m)),
    )
    &&& resistor_rules_spec(t, schema.resistor_rules@, schema.resistor_rules@.len() as int) == Ok::<Seq<(Seq<char>, u32, u32, u32)>, Seq<char>>(
        d.devices.resistor_rules@.map_values(|m: ResistorRule| resistor_rule_view(m)),
    )
    &&& diode_rules_spec(t, schema.diode_rules@, schema.diode_rules@.len() as int) == Ok::<Seq<(Seq<char>, u32, u32, u32)>, Seq<char>>(
        d.devices.diode_rules@.map_values(|m: DiodeRule| diode_rule_view(m)),
    )
    &&& cap_rules_spec(t, schema.cap_rules@, schema.cap_rules@.len() as int) == Ok::<Seq<(Seq<char>, u32, u32, Option<u32>)>, Seq<char>>(
        d.devices.cap_rules@.map_values(|m: CapRule| cap_rule_view(m)),
    )
    &&& d.global_nets@ == schema.global_nets@
    &&& d.intra_layer_touch == schema.intra_layer_touch
    &&& d.lvs_cut_required == schema.lvs_cut_required
    &&& d.fail_on_floating == schema.fail_on_floating
    &&& d.w_tolerance == schema.w_tolerance
    &&& d.l_tolerance == schema.l_tolerance
    &&& !d.strict
}

fn copy_names(v: &Vec<String>) -> (r: Vec<String>)
    ensures
        r@ == v@,
{
    let mut r: Vec<String> = Vec::new();
    let mut i: usize = 0;
    while i < v.len()
        invariant
            i <= v@.len(),
            r@ == v@.subrange(0, i as int),
        decreases v@.len() - i,
    {
        r.push(v[i].clone());
        assert(r@ =~= v@.subrange(0, i as int + 1));
        i = i + 1;
    }
    assert(r@ =~= v@);
    r
}

/// Builds the deck a declaration describes: checks its layer definitions,
/// builds the layer table, resolves connectivity and device rules by layer
/// name, and reports the first fault (see `deck_fault`). The declaration's
/// DRC rules, electrical parameters and ERC thresholds are checked by the
/// caller.
pub fn deck_from_schema(schema: &DeckSchema) -> (r: Result<Deck, String>)
    requires
        def_names(schema.layers@).no_duplicates(),
        schema.layers@.len() <= u32::MAX,
    ensures
        match deck_fault(*schema) {
            Some(m) => r matches Err(e) && e@ == m,
            None => r matches Ok(d) && deck_of(*schema, d),
        },
{
    match check_layer_defs(&schema.layers) {
        Err(e) => {
            return Err(e);
        },
        Ok(()) => {},
    }
    let layers = LayerTable::from_defs(&schema.layers);
    proof {
        let t = table_names(schema.layers@);
        assert(names_of(layers.id_to_name@) =~= t) by {
            assert(layers.entries().map_values(|e: (Seq<char>, (i32, i32))| e.0) =~= names_of(layers.id_to_name@));
        }
        assert(layers.entries().len() == sort_entries(entries_of(schema.layers@)).len());
    }
    let connectivity = match resolve_connectivity_schema(&layers, &schema.connectivity) {
        Err(e) => {
            return Err(e);
        },
        Ok(c) => c,
    };
    let mos_rules = match resolve_mos_rules(&layers, &schema.mos_rules) {
        Err(e) => {
            return Err(e);
        },
        Ok(v) => v,
    };
    let bjt_rules = match resolve_bjt_rules(&layers, &schema.bjt_rules) {
        Err(e) => {
            return Err(e);
        },
        Ok(v) => v,
    };
    let resistor_rules = match resolve_resistor_rules(&layers, &schema.resistor_rules) {
        Err(e) => {
            return Err(e);
        },
        Ok(v) => v,
    };
    let diode_rules = match resolve_diode_rules(&layers, &schema.diode_rules) {
        Err(e) => {
            return Err(e);
        },
        Ok(v) => v,
    };
    let cap_rules = match resolve_cap_rules(&layers, &schema.cap_rules) {
        Err(e) => {
            return Err(e);
        },
        Ok(v) => v,
    };
    Ok(Deck {
        layers,
        lvs_cut_required: schema.lvs_cut_required,
        strict: false,
        connectivity,
        devices: DeviceConfig { mos_rules, bjt_rules, resistor_rules, diode_rules, cap_rules },
        w_tolerance: schema.w_tolerance,
        l_tolerance: schema.l_tolerance,
        fail_on_floating: schema.fail_on_floating,
        intra_layer_touch: schema.intra_layer_touch,
        global_nets: copy_names(&schema.global_nets),
    })
}

// --- what resolved connectivity holds ---

/// Each resolved conductor is the id of the layer its declaration names.
pub proof fn lemma_conductor_ids_fields(table: Seq<Seq<char>>, cs: Seq<String>, k: int) -> (v: Seq<u32>)
    requires
        0 <= k <= cs.len(),
        conductor_ids(table, cs, k) is Ok,
    ensures
        conductor_ids(table, cs, k) == Ok::<Seq<u32>, Seq<char>>(v),
        v.len() == k,
        forall|i: int| 0 <= i < k ==> first_named(table, cs[i]@) == Some(#[trigger] v[i]),
    decreases k,
{
    if k > 0 {
        let prev = lemma_conductor_ids_fields(table, cs, k - 1);
        let cur = prev.push(first_named(table, cs[k - 1]@)->0);
        assert(conductor_ids(table, cs, k) == Ok::<Seq<u32>, Seq<char>>(cur));
        assert forall|i: int| 0 <= i < k implies first_named(table, cs[i]@) == Some(#[trigger] cur[i]) by {
            if i < k - 1 {
                assert(cur[i] == prev[i]);
            }
        }
        cur
    } else {
        Seq::empty()
    }
}

/// Each layer a resolved via joins is the id of the layer its declaration
/// names.
pub proof fn lemma_connect_ids_fields(table: Seq<Seq<char>>, cs: Seq<String>, via: Seq<char>, connects: Seq<String>, k: int) -> (v: Seq<u32>)
    requires
        0 <= k <= connects.len(),
        connect_ids(table, cs, via, connects, k) is Ok,
    ensures
        connect_ids(table, cs, via, connects, k) == Ok::<Seq<u32>, Seq<char>>(v),
        v.len() == k,
        forall|i: int| 0 <= i < k ==> first_named(table, connects[i]@) == Some(#[trigger] v[i]),
    decreases k,
{
    if k > 0 {
        let prev = lemma_connect_ids_fields(table, cs, via, connects, k - 1);
        let cur = prev.push(first_named(table, connects[k - 1]@)->0);
        assert(connect_ids(table, cs, via, connects, k) == Ok::<Seq<u32>, Seq<char>>(cur));
        assert forall|i: int| 0 <= i < k implies first_named(table, connects[i]@) == Some(#[trigger] cur[i]) by {
            if i < k - 1 {
                assert(cur[i] == prev[i]);
            }
        }
        cur
    } else {
        Seq::empty()
    }
}

/// A via's resolution `v` holds the id of its cut layer and, in order, the
/// ids of the layers it joins.
pub open spec fn via_fields(table: Seq<Seq<char>>, d: ViaSchema, v: (u32, Seq<u32>)) -> bool {
    &&& first_named(table, d.layer@) == Some(v.0)
    &&& v.1.len() == d.connects@.len()
    &&& forall|j: int| 0 <= j < v.1.len() ==> first_named(table, d.connects@[j]@) == Some(#[trigger] v.1[j])
}

/// Each resolved via takes as cut layer, and as the layers it joins, the
/// ids of the layers its declaration names.
pub proof fn lemma_via_ids_fields(table: Seq<Seq<char>>, cs: Seq<String>, vias: Seq<ViaSchema>, k: int) -> (v: Seq<(u32, Seq<u32>)>)
    requires
        0 <= k <= vias.len(),
        via_ids(table, cs, vias, k) is Ok,
    ensures
        via_ids(table, cs, vias, k) == Ok::<Seq<(u32, Seq<u32>)>, Seq<char>>(v),
        v.len() == k,
        forall|i: int| 0 <= i < k ==> via_fields(table, vias[i], #[trigger] v[i]),
    decreases k,
{
    if k > 0 {
        let prev = lemma_via_ids_fields(table, cs, vias, k - 1);
        let d = vias[k - 1];
        let cs_ids = lemma_connect_ids_fields(table, cs, d.layer@, d.connects@, d.connects@.len() as int);
        let x = (first_named(table, d.layer@)->0, cs_ids);
        let cur = prev.push(x);
        assert(via_ids(table, cs, vias, k) == Ok::<Seq<(u32, Seq<u32>)>, Seq<char>>(cur));
        assert(via_fields(table, d, x));
        assert forall|i: int| 0 <= i < k implies via_fields(table, vias[i], #[trigger] cur[i]) by {
            if i < k - 1 {
                assert(cur[i] == prev[i]);
            }
        }
        cur
    } else {
        Seq::empty()
    }
}

// --- what resolved rules hold ---

proof fn lemma_role_ids_values(table: Seq<Seq<char>>, kind: Seq<char>, rule: Seq<char>, roles: Seq<(Seq<char>, Seq<char>)>, k: int)
    -> (ids: Seq<u32>)
    requires
        0 <= k,
        role_ids(table, kind, rule, roles, k) is Ok,
    ensures
        role_ids(table, kind, rule, roles, k) == Ok::<Seq<u32>, Seq<char>>(ids),
        ids.len() == k,
        forall|j: int| 0 <= j < k ==> first_named(table, roles[j].1) == Some(#[trigger] ids[j]),
    decreases k,
{
    if k > 0 {
        let prev = lemma_role_ids_values(table, kind, rule, roles, k - 1);
        let cur = prev.push(first_named(table, roles[k - 1].1)->0);
        assert forall|j: int| 0 <= j < k implies first_named(table, roles[j].1) == Some(#[trigger] cur[j]) by {
            if j < k - 1 {
                assert(cur[j] == prev[j]);
            }
        }
        cur
    } else {
        Seq::empty()
    }
}

/// A diode rule's resolution `v` holds its declaration's name and the ids
/// of the layers it names.
pub open spec fn diode_fields(table: Seq<Seq<char>>, r: DiodeRuleSchema, v: (Seq<char>, u32, u32, u32)) -> bool {
    &&& v.0 == r.name@
    &&& first_named(table, r.anode_layer@) == Some(v.1)
    &&& first_named(table, r.cathode_layer@) == Some(v.2)
    &&& first_named(table, r.implant_layer@) == Some(v.3)
}

/// Each resolved diode rule keeps its name and takes as anode, cathode and
/// implant layer the ids of the layers its declaration names for them.
pub proof fn lemma_diode_rules_fields(table: Seq<Seq<char>>, rules: Seq<DiodeRuleSchema>, k: int) -> (v: Seq<(Seq<char>, u32, u32, u32)>)
    requires
        0 <= k <= rules.len(),
        diode_rules_spec(table, rules, k) is Ok,
    ensures
        diode_rules_spec(table, rules, k) == Ok::<Seq<(Seq<char>, u32, u32, u32)>, Seq<char>>(v),
        v.len() == k,
        forall|i: int| 0 <= i < k ==> diode_fields(table, rules[i], #[trigger] v[i]),
    decreases k,
{
    if k > 0 {
        let prev = lemma_diode_rules_fields(table, rules, k - 1);
        let r = rules[k - 1];
        let ids = lemma_role_ids_values(table, "diode"@, r.name@, diode_roles(r), 3);
        let x = (r.name@, ids[0], ids[1], ids[2]);
        let cur = prev.push(x);
        assert(diode_rules_spec(table, rules, k) == Ok::<Seq<(Seq<char>, u32, u32, u32)>, Seq<char>>(cur));
        assert(diode_fields(table, r, x));
        assert forall|i: int| 0 <= i < k implies diode_fields(table, rules[i], #[trigger] cur[i]) by {
            if i < k - 1 {
                assert(cur[i] == prev[i]);
            }
        }
        cur
    } else {
        Seq::empty()
    }
}

/// A resistor rule's resolution `v` holds its declaration's name and the ids
/// of the layers it names.
pub open spec fn resistor_fields(table: Seq<Seq<char>>, r: ResistorRuleSchema, v: (Seq<char>, u32, u32, u32)) -> bool {
    &&& v.0 == r.name@
    &&& first_named(table, r.body_layer@) == Some(v.1)
    &&& first_named(table, r.marker_layer@) == Some(v.2)
    &&& first_named(table, r.terminal_layer@) == Some(v.3)
}

/// Each resolved resistor rule keeps its name and takes as body, marker and
/// terminal layer the ids of the layers its declaration names for them.
pub proof fn lemma_resistor_rules_fields(table: Seq<Seq<char>>, rules: Seq<ResistorRuleSchema>, k: int) -> (v: Seq<(Seq<char>, u32, u32, u32)>)
    requires
        0 <= k <= rules.len(),
        resistor_rules_spec(table, rules, k) is Ok,
    ensures
        resistor_rules_spec(table, rules, k) == Ok::<Seq<(Seq<char>, u32, u32, u32)>, Seq<char>>(v),
        v.len() == k,
        forall|i: int| 0 <= i < k ==> resistor_fields(table, rules[i], #[trigger] v[i]),
    decreases k,
{
    if k > 0 {
        let prev = lemma_resistor_rules_fields(table, rules, k - 1);
        let r = rules[k - 1];
        let ids = lemma_role_ids_values(table, "resistor"@, r.name@, resistor_roles(r), 3);
        let x = (r.name@, ids[0], ids[1], ids[2]);
        let cur = prev.push(x);
        assert(resistor_rules_spec(table, rules, k) == Ok::<Seq<(Seq<char>, u32, u32, u32)>, Seq<char>>(cur));
        assert(resistor_fields(table, r, x));
        assert forall|i: int| 0 <= i < k implies resistor_fields(table, rules[i], #[trigger] cur[i]) by {
            if i < k - 1 {
                assert(cur[i] == prev[i]);
            }
        }
        cur
    } else {
        Seq::empty()
    }
}

/// A bjt rule's resolution `v` holds its declaration's name and the ids
/// of the layers it names.
pub open spec fn bjt_fields(table: Seq<Seq<char>>, r: BjtRuleSchema, v: (Seq<char>, u32, u32, u32, u32, Seq<char>)) -> bool {
    &&& v.0 == r.name@
    &&& first_named(table, r.collector_layer@) == Some(v.1)
    &&& first_named(table, r.base_layer@) == Some(v.2)
    &&& first_named(table, r.emitter_layer@) == Some(v.3)
    &&& first_named(table, r.type_marker@) == Some(v.4)
    &&& v.5 == r.device_type@
}

/// Each resolved bipolar rule keeps its name and type and takes as
/// collector, base, emitter and type-marker layer the ids of the layers its
/// declaration names for them.
pub proof fn lemma_bjt_rules_fields(table: Seq<Seq<char>>, rules: Seq<BjtRuleSchema>, k: int) -> (v: Seq<(Seq<char>, u32, u32, u32, u32, Seq<char>)>)
    requires
        0 <= k <= rules.len(),
        bjt_rules_spec(table, rules, k) is Ok,
    ensures
        bjt_rules_spec(table, rules, k) == Ok::<Seq<(Seq<char>, u32, u32, u32, u32, Seq<char>)>, Seq<char>>(v),
        v.len() == k,
        forall|i: int| 0 <= i < k ==> bjt_fields(table, rules[i], #[trigger] v[i]),
    decreases k,
{
    if k > 0 {
        let prev = lemma_bjt_rules_fields(table, rules, k - 1);
        let r = rules[k - 1];
        let ids = lemma_role_ids_values(table, "BJT"@, r.name@, bjt_roles(r), 4);
        let x = (r.name@, ids[0], ids[1], ids[2], ids[3], r.device_type@);
        let cur = prev.push(x);
        assert(bjt_rules_spec(table, rules, k) == Ok::<Seq<(Seq<char>, u32, u32, u32, u32, Seq<char>)>, Seq<char>>(cur));
        assert(bjt_fields(table, r, x));
        assert forall|i: int| 0 <= i < k implies bjt_fields(table, rules[i], #[trigger] cur[i]) by {
            if i < k - 1 {
                assert(cur[i] == prev[i]);
            }
        }
        cur
    } else {
        Seq::empty()
    }
}

/// A cap rule's resolution `v` holds its declaration's name and the ids
/// of the layers it names.
pub open spec fn cap_fields(table: Seq<Seq<char>>, r: CapRuleSchema, v: (Seq<char>, u32, u32, Option<u32>)) -> bool {
    &&& v.0 == r.name@
    &&& first_named(table, r.top_layer@) == Some(v.1)
    &&& first_named(table, r.bottom_layer@) == Some(v.2)
    &&& v.3 == match r.marker_layer { Some(m) => first_named(table, m@), None => None }
    &&& (r.marker_layer is Some ==> v.3 is Some)
}

/// Each resolved capacitor rule keeps its name and takes as top and bottom
/// plate and marker layer the ids of the layers its declaration names for
/// them (no marker when it names none).
pub proof fn lemma_cap_rules_fields(table: Seq<Seq<char>>, rules: Seq<CapRuleSchema>, k: int) -> (v: Seq<(Seq<char>, u32, u32, Option<u32>)>)
    requires
        0 <= k <= rules.len(),
        cap_rules_spec(table, rules, k) is Ok,
    ensures
        cap_rules_spec(table, rules, k) == Ok::<Seq<(Seq<char>, u32, u32, Option<u32>)>, Seq<char>>(v),
        v.len() == k,
        forall|i: int| 0 <= i < k ==> cap_fields(table, rules[i], #[trigger] v[i]),
    decreases k,
{
    if k > 0 {
        let prev = lemma_cap_rules_fields(table, rules, k - 1);
        let r = rules[k - 1];
        let ids = lemma_role_ids_values(table, "capacitor"@, r.name@, cap_roles(r), cap_roles(r).len() as int);
        let x = if r.marker_layer is Some { (r.name@, ids[1], ids[2], Some(ids[0])) } else { (r.name@, ids[0], ids[1], None) };
        let cur = prev.push(x);
        assert(cap_rules_spec(table, rules, k) == Ok::<Seq<(Seq<char>, u32, u32, Option<u32>)>, Seq<char>>(cur));
        assert(cap_fields(table, r, x));
        assert forall|i: int| 0 <= i < k implies cap_fields(table, rules[i], #[trigger] cur[i]) by {
            if i < k - 1 {
                assert(cur[i] == prev[i]);
            }
        }
        cur
    } else {
        Seq::empty()
    }
}

/// A MOS rule's resolution `v` holds its declaration's name, type and
/// class and the ids of the layers it names.
pub open spec fn mos_fields(table: Seq<Seq<char>>, r: MosRuleSchema,
    v: (Seq<char>, u32, u32, u32, Seq<char>, Seq<(u32, Seq<char>)>, Option<u32>, Option<Seq<char>>)) -> bool {
    &&& v.0 == r.name@
    &&& first_named(table, r.gate_layer@) == Some(v.1)
    &&& first_named(table, r.channel_layer@) == Some(v.2)
    &&& first_named(table, r.type_implant@) == Some(v.3)
    &&& v.4 == r.device_type@
    &&& v.5.len() == r.flavor_markers@.len()
    &&& v.6 == match r.well_layer { Some(w) => first_named(table, w@), None => None }
    &&& (r.well_layer is Some ==> v.6 is Some)
}

/// Each resolved MOS rule keeps its name, type and class and takes as gate,
/// channel, implant and well layer the ids of the layers its declaration
/// names for them.
pub proof fn lemma_mos_rules_fields(table: Seq<Seq<char>>, rules: Seq<MosRuleSchema>, k: int)
    -> (v: Seq<(Seq<char>, u32, u32, u32, Seq<char>, Seq<(u32, Seq<char>)>, Option<u32>, Option<Seq<char>>)>)
    requires
        0 <= k <= rules.len(),
        mos_rules_spec(table, rules, k) is Ok,
    ensures
        mos_rules_spec(table, rules, k) == Ok::<Seq<(Seq<char>, u32, u32, u32, Seq<char>, Seq<(u32, Seq<char>)>, Option<u32>, Option<Seq<char>>)>, Seq<char>>(v),
        v.len() == k,
        forall|i: int| 0 <= i < k ==> mos_fields(table, rules[i], #[trigger] v[i]),
    decreases k,
{
    if k > 0 {
        let prev = lemma_mos_rules_fields(table, rules, k - 1);
        let r = rules[k - 1];
        lemma_marker_ids_len(table, r.name@, r.flavor_markers@, r.flavor_markers@.len() as int);
        let x = mos_rule_spec(table, rules, k - 1)->Ok_0;
        let cur = prev.push(x);
        assert(mos_rules_spec(table, rules, k) == Ok::<Seq<(Seq<char>, u32, u32, u32, Seq<char>, Seq<(u32, Seq<char>)>, Option<u32>, Option<Seq<char>>)>, Seq<char>>(cur));
        assert(mos_fields(table, r, x));
        assert forall|i: int| 0 <= i < k implies mos_fields(table, rules[i], #[trigger] cur[i]) by {
            if i < k - 1 {
                assert(cur[i] == prev[i]);
            }
        }
        cur
    } else {
        Seq::empty()
    }
}

proof fn lemma_marker_ids_len(table: Seq<Seq<char>>, rule: Seq<char>, markers: Seq<(String, String)>, k: int)
    requires
        0 <= k,
    ensures
        marker_ids(table, rule, markers, k) is Ok ==> marker_ids(table, rule, markers, k)->Ok_0.len() == k,
    decreases k,
{
    if k > 0 {
        lemma_marker_ids_len(table, rule, markers, k - 1);
    }
}

/// The text of a DRC rule error: the rule's id and kind, then `message`.
pub open spec fn rule_error_text(id: Seq<char>, kind: Seq<char>, message: Seq<char>) -> Seq<char> {
    "DRC rule `"@ + id + "` ("@ + kind + "): "@ + message
}

pub open spec fn missing_text(field: Seq<char>) -> Seq<char> {
    "missing required `"@ + field + "` parameter"@
}

pub open spec fn not_positive_text(field: Seq<char>, v: int) -> Seq<char> {
    "`"@ + field + "` must be positive, got "@ + signed_decimal(v)
}

pub open spec fn outside_i32_text(field: Seq<char>, v: int) -> Seq<char> {
    "`"@ + field + "` value "@ + signed_decimal(v) + " is outside the i32 range"@
}

/// The error text of DRC rule `id` of kind `kind`.
pub fn drc_rule_error(id: &str, kind: &str, message: &str) -> (s: String)
    ensures
        s@ == rule_error_text(id@, kind@, message@),
{
    let mut s = String::from_str("DRC rule `");
    s.append(id);
    s.append("` (");
    s.append(kind);
    s.append("): ");
    s.append(message);
    s
}

fn missing_parameter(id: &str, kind: &str, field: &str) -> (s: String)
    ensures
        s@ == rule_error_text(id@, kind@, missing_text(field@)),
{
    let mut m = String::from_str("missing required `");
    m.append(field);
    m.append("` parameter");
    drc_rule_error(id, kind, m.as_str())
}

fn not_positive(id: &str, kind: &str, field: &str, v: i64) -> (s: String)
    ensures
        s@ == rule_error_text(id@, kind@, not_positive_text(field@, v as int)),
{
    let mut m = String::from_str("`");
    m.append(field);
    m.append("` must be positive, got ");
    push_signed(&mut m, v);
    drc_rule_error(id, kind, m.as_str())
}

/// A required positive parameter given as `i64` that must fit `i32`.
pub fn required_positive_i32_from_i64(id: &str, kind: &str, field: &str, value: Option<i64>) -> (r: Result<i32, String>)
    ensures
        match value {
            None => r matches Err(s) && s@ == rule_error_text(id@, kind@, missing_text(field@)),
            Some(v) => if v <= 0 {
                r matches Err(s) && s@ == rule_error_text(id@, kind@, not_positive_text(field@, v as int))
            } else if v > i32::MAX {
                r matches Err(s) && s@ == rule_error_text(id@, kind@, outside_i32_text(field@, v as int))
            } else {
                r == Ok::<i32, String>(v as i32)
            },
        },
{
    match value {
        None => Err(missing_parameter(id, kind, field)),
        Some(v) => {
            if v <= 0 {
                return Err(not_positive(id, kind, field, v));
            }
            if v > i32::MAX as i64 {
                let mut m = String::from_str("`");
                m.append(field);
                m.append("` value ");
                push_signed(&mut m, v);
                m.append(" is outside the i32 range");
                return Err(drc_rule_error(id, kind, m.as_str()));
            }
            Ok(v as i32)
        },
    }
}

/// A required positive `i32` parameter.
pub fn required_positive_i32(id: &str, kind: &str, field: &str, value: Option<i32>) -> (r: Result<i32, String>)
    ensures
        match value {
            None => r matches Err(s) && s@ == rule_error_text(id@, kind@, missing_text(field@)),
            Some(v) => if v <= 0 {
                r matches Err(s) && s@ == rule_error_text(id@, kind@, not_positive_text(field@, v as int))
            } else {
                r == Ok::<i32, String>(v)
            },
        },
{
    match value {
        None => Err(missing_parameter(id, kind, field)),
        Some(v) => {
            if v <= 0 {
                return Err(not_positive(id, kind, field, v as i64));
            }
            Ok(v)
        },
    }
}

/// A required positive `i64` parameter.
pub fn required_positive_i64(id: &str, kind: &str, field: &str, value: Option<i64>) -> (r: Result<i64, String>)
    ensures
        match value {
            None => r matches Err(s) && s@ == rule_error_text(id@, kind@, missing_text(field@)),
            Some(v) => if v <= 0 {
                r matches Err(s) && s@ == rule_error_text(id@, kind@, not_positive_text(field@, v as int))
            } else {
                r == Ok::<i64, String>(v)
            },
        },
{
    match value {
        None => Err(missing_parameter(id, kind, field)),
        Some(v) => {
            if v <= 0 {
                return Err(not_positive(id, kind, field, v));
            }
            Ok(v)
        },
    }
}

} // verus!
