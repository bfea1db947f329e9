//! Execution environment for a single handler invocation.
//!
//! Two layers:
//!   - `RoleState` (also named `FacetState`): the persistent state fields
//!     of a facet instance. Survives across handler invocations.
//!   - `Env`: transient local bindings made by `name = expr` inside a
//!     handler body; gone when the handler returns.
//!
//! Both keep their entries in the order names were first set; setting a
//! name that is already there replaces its value in place.
use vstd::prelude::*;

use crate::runtime::value::{copy_pairs, pairs_view, SpecValue, Value};

verus! {

/// The model of a layer: `(name, value)` entries, in the order the names
/// were first set.
pub type Bindings = Seq<(Seq<char>, SpecValue)>;

/// Position of the first entry named `k`.
pub open spec fn find_key<V>(m: Seq<(Seq<char>, V)>, k: Seq<char>) -> Option<int>
    decreases m.len(),
{
    if m.len() == 0 {
        None
    } else if m[0].0 == k {
        Some(0)
    } else {
        match find_key(m.drop_first(), k) {
            Some(i) => Some(i + 1),
            None => None,
        }
    }
}

/// The value bound to `k`.
pub open spec fn lookup(m: Bindings, k: Seq<char>) -> Option<SpecValue> {
    match find_key(m, k) {
        Some(i) => Some(m[i].1),
        None => None,
    }
}

/// `m` with `k` bound to `v`: replaced in place, or added at the end.
pub open spec fn bind(m: Bindings, k: Seq<char>, v: SpecValue) -> Bindings {
    match find_key(m, k) {
        Some(i) => m.update(i, (k, v)),
        None => m.push((k, v)),
    }
}

/// The names of `m` are pairwise distinct.
pub open spec fn distinct_keys(m: Bindings) -> bool {
    forall|i: int, j: int| 0 <= i < j < m.len() ==> m[i].0 != m[j].0
}

/// `find_key` is the first position holding `k`.
pub proof fn lemma_find_key_at<V>(m: Seq<(Seq<char>, V)>, k: Seq<char>, i: int)
    requires
        0 <= i <= m.len(),
        forall|j: int| 0 <= j < i ==> (#[trigger] m[j]).0 != k,
        i < m.len() ==> m[i].0 == k,
    ensures
        find_key(m, k) == if i < m.len() {
            Some(i)
        } else {
            None::<int>
        },
    decreases m.len(),
{
    if m.len() > 0 && i > 0 {
        let t = m.drop_first();
        assert forall|j: int| 0 <= j < i - 1 implies (#[trigger] t[j]).0 != k by {
            assert(t[j] == m[j + 1]);
        }
        lemma_find_key_at(t, k, i - 1);
    }
}

/// `find_key` finds only entries named `k`, and finds one if any exists.
pub proof fn lemma_find_key(m: Bindings, k: Seq<char>)
    ensures
        match find_key(m, k) {
            Some(i) => 0 <= i < m.len() && m[i].0 == k && forall|j: int|
                0 <= j < i ==> (#[trigger] m[j]).0 != k,
            None => forall|j: int| 0 <= j < m.len() ==> (#[trigger] m[j]).0 != k,
        },
    decreases m.len(),
{
    if m.len() > 0 && m[0].0 != k {
        let t = m.drop_first();
        lemma_find_key(t, k);
        match find_key(t, k) {
            Some(i) => {
                assert forall|j: int| 0 <= j < i + 1 implies (#[trigger] m[j]).0 != k by {
                    if j > 0 {
                        assert(m[j] == t[j - 1]);
                    }
                }
            },
            None => {
                assert forall|j: int| 0 <= j < m.len() implies (#[trigger] m[j]).0 != k by {
                    if j > 0 {
                        assert(m[j] == t[j - 1]);
                    }
                }
            },
        }
    }
}

/// Binding keeps the names distinct.
pub proof fn law_bind_keeps_keys_distinct(m: Bindings, k: Seq<char>, v: SpecValue)
    requires
        distinct_keys(m),
    ensures
        distinct_keys(bind(m, k, v)),
{
    lemma_find_key(m, k);
}

/// Position of the entry named `name` in `v`.
pub(crate) fn key_index(v: &Vec<(String, Value)>, name: &str) -> (r: Option<usize>)
    ensures
        match r {
            Some(i) => i < v@.len() && find_key(pairs_view(v), name@) == Some(i as int),
            None => find_key(pairs_view(v), name@) is None,
        },
{
    let key = name.to_owned();
    let ghost m = pairs_view(v);
    let mut i: usize = 0;
    while i < v.len()
        invariant
            i <= v.len(),
            key@ == name@,
            m == pairs_view(v),
            forall|j: int| 0 <= j < i ==> (#[trigger] m[j]).0 != name@,
        decreases v.len() - i,
    {
        if v[i].0 == key {
            proof {
                lemma_find_key_at(m, name@, i as int);
            }
            return Some(i);
        }
        i = i + 1;
    }
    proof {
        lemma_find_key_at(m, name@, i as int);
    }
    None
}

/// Binds `name` to `value` in the entries `v`.
pub(crate) fn bind_entry(v: &mut Vec<(String, Value)>, name: &str, value: Value)
    ensures
        pairs_view(final(v)) == bind(pairs_view(old(v)), name@, value@),
{
    let ghost m = pairs_view(v);
    let ghost val = value@;
    match key_index(v, name) {
        Some(i) => {
            let ghost old_v = v@;
            v.set(i, (name.to_owned(), value));
            assert(pairs_view(v) =~= m.update(i as int, (name@, val)));
        },
        None => {
            v.push((name.to_owned(), value));
            assert(pairs_view(v) =~= m.push((name@, val)));
        },
    }
}

/// The persistent state fields of a facet instance.
#[derive(Debug)]
pub struct RoleState {
    fields: Vec<(String, Value)>,
}

/// The state of a facet instance.
pub type FacetState = RoleState;

impl View for RoleState {
    type V = Bindings;

    closed spec fn view(&self) -> Bindings {
        pairs_view(&self.fields)
    }
}

impl RoleState {
    pub fn new() -> (r: Self)
        ensures
            r@ == Seq::<(Seq<char>, SpecValue)>::empty(),
    {
        let r = RoleState { fields: Vec::new() };
        assert(r@ =~= Seq::<(Seq<char>, SpecValue)>::empty());
        r
    }

    pub fn set(&mut self, name: &str, value: Value)
        ensures
            final(self)@ == bind(old(self)@, name@, value@),
    {
        bind_entry(&mut self.fields, name, value);
    }

    pub fn get(&self, name: &str) -> (r: Option<&Value>)
        ensures
            match r {
                Some(v) => lookup(self@, name@) == Some(v@),
                None => lookup(self@, name@) is None,
            },
    {
        match key_index(&self.fields, name) {
            Some(i) => Some(&self.fields[i].1),
            None => None,
        }
    }

    pub fn contains(&self, name: &str) -> (r: bool)
        ensures
            r == lookup(self@, name@) is Some,
    {
        key_index(&self.fields, name).is_some()
    }

    /// The fields, in the order their names were first set.
    pub fn fields(&self) -> (r: &Vec<(String, Value)>)
        ensures
            pairs_view(r) == self@,
    {
        &self.fields
    }

    /// A copy of the fields, in the order their names were first set.
    pub fn field_pairs(&self) -> (r: Vec<(String, Value)>)
        ensures
            pairs_view(&r) == self@,
    {
        copy_pairs(&self.fields)
    }
}

/// Transient local bindings of one handler invocation.
#[derive(Debug)]
pub struct Env {
    bindings: Vec<(String, Value)>,
}

impl View for Env {
    type V = Bindings;

    closed spec fn view(&self) -> Bindings {
        pairs_view(&self.bindings)
    }
}

impl Env {
    pub fn new() -> (r: Self)
        ensures
            r@ == Seq::<(Seq<char>, SpecValue)>::empty(),
    {
        let r = Env { bindings: Vec::new() };
        assert(r@ =~= Seq::<(Seq<char>, SpecValue)>::empty());
        r
    }

    pub fn set(&mut self, name: &str, value: Value)
        ensures
            final(self)@ == bind(old(self)@, name@, value@),
    {
        bind_entry(&mut self.bindings, name, value);
    }

    pub fn get(&self, name: &str) -> (r: Option<&Value>)
        ensures
            match r {
                Some(v) => lookup(self@, name@) == Some(v@),
                None => lookup(self@, name@) is None,
            },
    {
        match key_index(&self.bindings, name) {
            Some(i) => Some(&self.bindings[i].1),
            None => None,
        }
    }
}

/// `find_key` depends only on the names of the entries.
proof fn lemma_find_key_same_names<V, W>(m1: Seq<(Seq<char>, V)>, m2: Seq<(Seq<char>, W)>, k: Seq<char>)
    requires
        m1.len() == m2.len(),
        forall|i: int| 0 <= i < m1.len() ==> (#[trigger] m1[i]).0 == m2[i].0,
    ensures
        find_key(m1, k) == find_key(m2, k),
    decreases m1.len(),
{
    if m1.len() > 0 {
        let t1 = m1.drop_first();
        let t2 = m2.drop_first();
        assert forall|i: int| 0 <= i < t1.len() implies (#[trigger] t1[i]).0 == t2[i].0 by {
            assert(t1[i] == m1[i + 1]);
            assert(t2[i] == m2[i + 1]);
        }
        lemma_find_key_same_names(t1, t2, k);
        assert(m1[0].0 == m2[0].0);
    }
}

/// Reading a name right after binding it gives the bound value.
pub proof fn law_lookup_after_bind(m: Bindings, k: Seq<char>, v: SpecValue)
    ensures
        lookup(bind(m, k, v), k) == Some(v),
{
    lemma_find_key(m, k);
    let m2 = bind(m, k, v);
    match find_key(m, k) {
        Some(i) => {
            lemma_find_key_same_names(m2, m, k);
        },
        None => {
            assert forall|j: int| 0 <= j < m.len() implies (#[trigger] m2[j]).0 != k by {
                assert(m2[j] == m[j]);
            }
            lemma_find_key_at(m2, k, m.len() as int);
        },
    }
}

/// Binding a name leaves the value of every other name as it was.
pub proof fn law_lookup_other_after_bind(m: Bindings, k: Seq<char>, v: SpecValue, other: Seq<char>)
    requires
        other != k,
    ensures
        lookup(bind(m, k, v), other) == lookup(m, other),
{
    lemma_find_key(m, k);
    lemma_find_key(m, other);
    let m2 = bind(m, k, v);
    match find_key(m, k) {
        Some(i) => {
            lemma_find_key_same_names(m2, m, other);
        },
        None => {
            lemma_find_key(m2, other);
            match find_key(m, other) {
                Some(j) => {
                    assert forall|q: int| 0 <= q < j implies (#[trigger] m2[q]).0 != other by {
                        assert(m2[q] == m[q]);
                    }
                    assert(m2[j] == m[j]);
                    lemma_find_key_at(m2, other, j);
                },
                None => {
                    assert forall|q: int| 0 <= q < m2.len() implies (#[trigger] m2[q]).0 != other by {
                        if q < m.len() {
                            assert(m2[q] == m[q]);
                        }
                    }
                    lemma_find_key_at(m2, other, m2.len() as int);
                },
            }
        },
    }
}

/// Binding keeps every name that was there, and adds `k`.
pub proof fn law_bind_keeps_names(m: Bindings, k: Seq<char>, v: SpecValue, other: Seq<char>)
    ensures
        (lookup(bind(m, k, v), other) is Some) == (other == k || lookup(m, other) is Some),
{
    if other == k {
        law_lookup_after_bind(m, k, v);
    } else {
        law_lookup_other_after_bind(m, k, v, other);
    }
}

} // verus!
