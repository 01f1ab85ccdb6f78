//! One lexical level: a mapping from names to slots.

use crate::names::{lemma_name_lt_irreflexive, lemma_name_lt_transitive, name_lt, place, Place};
use crate::slot::Slot;
use crate::value::{Class, Construct, Func, Settable, Value};
use std::sync::Arc;
use vstd::prelude::*;

verus! {

/// The mapping from names to slots that a scope stands for.
pub type Frame<F> = Map<Seq<char>, Slot<F>>;

/// A name and the slot it is bound to.
#[verifier::reject_recursive_types(F)]
struct Binding<F> {
    name: String,
    slot: Slot<F>,
}

/// The names of `s` come in strictly increasing order.
spec fn sorted<F>(s: Seq<Binding<F>>) -> bool {
    forall|i: int, j: int|
        0 <= i < j < s.len() ==> name_lt(#[trigger] s[i].name@, #[trigger] s[j].name@)
}

/// Some binding of `s` has the name `n`.
spec fn binds<F>(s: Seq<Binding<F>>, n: Seq<char>) -> bool {
    exists|i: int| 0 <= i < s.len() && #[trigger] s[i].name@ == n
}

/// The place in `s` of a binding with the name `n`.
spec fn index_of<F>(s: Seq<Binding<F>>, n: Seq<char>) -> int {
    choose|i: int| 0 <= i < s.len() && #[trigger] s[i].name@ == n
}

/// The mapping that the bindings `s` stand for.
spec fn mapping<F>(s: Seq<Binding<F>>) -> Frame<F> {
    Map::new(|n: Seq<char>| binds(s, n), |n: Seq<char>| s[index_of(s, n)].slot)
}

/// In a sorted sequence every binding is what the mapping gives for its name.
proof fn lemma_mapping_at<F>(s: Seq<Binding<F>>, i: int)
    requires
        sorted(s),
        0 <= i < s.len(),
    ensures
        mapping(s).contains_key(s[i].name@),
        mapping(s)[s[i].name@] == s[i].slot,
{
    let n = s[i].name@;
    let j = index_of(s, n);
    lemma_name_lt_irreflexive(n);
    if j < i {
        assert(name_lt(s[j].name@, s[i].name@));
    } else if i < j {
        assert(name_lt(s[i].name@, s[j].name@));
    }
}

/// A name that sorts strictly between the bindings before `k` and those from
/// `k` on is not bound.
proof fn lemma_gap_unbound<F>(s: Seq<Binding<F>>, k: int, n: Seq<char>)
    requires
        0 <= k <= s.len(),
        forall|i: int| 0 <= i < k ==> name_lt(#[trigger] s[i].name@, n),
        forall|i: int| k <= i < s.len() ==> name_lt(n, #[trigger] s[i].name@),
    ensures
        !binds(s, n),
{
    lemma_name_lt_irreflexive(n);
}

/// Putting a new name in at its place in the order keeps the order and adds
/// one entry to the mapping.
proof fn lemma_insert<F>(s: Seq<Binding<F>>, k: int, b: Binding<F>)
    requires
        sorted(s),
        0 <= k <= s.len(),
        forall|i: int| 0 <= i < k ==> name_lt(#[trigger] s[i].name@, b.name@),
        forall|i: int| k <= i < s.len() ==> name_lt(b.name@, #[trigger] s[i].name@),
    ensures
        sorted(s.insert(k, b)),
        mapping(s.insert(k, b)) == mapping(s).insert(b.name@, b.slot),
{
    let t = s.insert(k, b);
    assert forall|i: int, j: int| 0 <= i < j < t.len() implies name_lt(
        #[trigger] t[i].name@,
        #[trigger] t[j].name@,
    ) by {
        if j < k {
            assert(name_lt(s[i].name@, s[j].name@));
        } else if j == k {
            assert(name_lt(s[i].name@, b.name@));
        } else if i < k {
            assert(name_lt(s[i].name@, s[j - 1].name@));
        } else if i == k {
            assert(name_lt(b.name@, s[j - 1].name@));
        } else {
            assert(name_lt(s[i - 1].name@, s[j - 1].name@));
        }
    }
    let after = mapping(s).insert(b.name@, b.slot);
    assert forall|n: Seq<char>| mapping(t).contains_key(n) <==> after.contains_key(n) by {
        if binds(t, n) {
            let i = index_of(t, n);
            if i < k {
                assert(s[i].name@ == n);
            } else if i > k {
                assert(s[i - 1].name@ == n);
            }
        }
        if binds(s, n) {
            let i = index_of(s, n);
            if i < k {
                assert(t[i].name@ == n);
            } else {
                assert(t[i + 1].name@ == n);
            }
        }
        if n == b.name@ {
            assert(t[k].name@ == n);
        }
    }
    assert forall|n: Seq<char>| mapping(t).contains_key(n) implies mapping(t)[n] == after[n] by {
        let i = index_of(t, n);
        lemma_mapping_at(t, i);
        if i < k {
            lemma_mapping_at(s, i);
        } else if i > k {
            lemma_mapping_at(s, i - 1);
        }
        if n == b.name@ {
            lemma_mapping_at(t, k);
        }
    }
    assert(mapping(t) =~= after);
}

/// Putting a binding in the place of one with the same name keeps the order
/// and changes that one entry of the mapping.
proof fn lemma_update<F>(s: Seq<Binding<F>>, k: int, b: Binding<F>)
    requires
        sorted(s),
        0 <= k < s.len(),
        s[k].name@ == b.name@,
    ensures
        sorted(s.update(k, b)),
        mapping(s.update(k, b)) == mapping(s).insert(b.name@, b.slot),
{
    let t = s.update(k, b);
    assert forall|i: int, j: int| 0 <= i < j < t.len() implies name_lt(
        #[trigger] t[i].name@,
        #[trigger] t[j].name@,
    ) by {
        assert(name_lt(s[i].name@, s[j].name@));
    }
    let after = mapping(s).insert(b.name@, b.slot);
    assert forall|n: Seq<char>| mapping(t).contains_key(n) <==> after.contains_key(n) by {
        if binds(t, n) {
            let i = index_of(t, n);
            assert(s[i].name@ == n);
        }
        if binds(s, n) {
            let i = index_of(s, n);
            assert(t[i].name@ == n);
        }
        if n == b.name@ {
            assert(t[k].name@ == n);
        }
    }
    assert forall|n: Seq<char>| mapping(t).contains_key(n) implies mapping(t)[n] == after[n] by {
        let i = index_of(t, n);
        lemma_mapping_at(t, i);
        if i != k {
            lemma_mapping_at(s, i);
        }
        lemma_mapping_at(t, k);
    }
    assert(mapping(t) =~= after);
}

/// Sequences that bind the same names to the same slots, place by place,
/// are sorted together and stand for the same mapping.
proof fn lemma_same_bindings<F>(s: Seq<Binding<F>>, t: Seq<Binding<F>>)
    requires
        sorted(s),
        s.len() == t.len(),
        forall|k: int|
            0 <= k < s.len() ==> (#[trigger] t[k]).name@ == s[k].name@ && t[k].slot == s[k].slot,
    ensures
        sorted(t),
        mapping(t) == mapping(s),
{
    assert forall|i: int, j: int| 0 <= i < j < t.len() implies name_lt(
        #[trigger] t[i].name@,
        #[trigger] t[j].name@,
    ) by {
        assert(name_lt(s[i].name@, s[j].name@));
    }
    assert forall|n: Seq<char>| mapping(t).contains_key(n) <==> mapping(s).contains_key(n) by {
        if binds(t, n) {
            let i = index_of(t, n);
            assert(s[i].name@ == n);
        }
        if binds(s, n) {
            let i = index_of(s, n);
            assert(t[i].name@ == n);
        }
    }
    assert forall|n: Seq<char>| mapping(t).contains_key(n) implies mapping(t)[n] == mapping(
        s,
    )[n] by {
        let i = index_of(t, n);
        lemma_mapping_at(t, i);
        lemma_mapping_at(s, i);
    }
    assert(mapping(t) =~= mapping(s));
}

/// Where `name` stands among sorted bindings: `Ok` with the place of the
/// binding that has this name, or `Err` with the place where a binding of
/// this name would have to go.
fn locate<F>(values: &Vec<Binding<F>>, name: &str) -> (r: Result<usize, usize>)
    requires
        sorted(values@),
    ensures
        match r {
            Ok(k) => k < values.len() && values[k as int].name@ == name@,
            Err(k) => {
                &&& k <= values.len()
                &&& forall|i: int| 0 <= i < k ==> name_lt(#[trigger] values[i].name@, name@)
                &&& forall|i: int|
                    k <= i < values.len() ==> name_lt(name@, #[trigger] values[i].name@)
            },
        },
{
    let mut lo: usize = 0;
    let mut hi: usize = values.len();
    while lo < hi
        invariant
            sorted(values@),
            lo <= hi <= values.len(),
            forall|i: int| 0 <= i < lo ==> name_lt(#[trigger] values[i].name@, name@),
            forall|i: int| hi <= i < values.len() ==> name_lt(name@, #[trigger] values[i].name@),
        decreases hi - lo,
    {
        let mid: usize = lo + (hi - lo) / 2;
        match place(values[mid].name.as_str(), name) {
            Place::Same => {
                return Ok(mid);
            },
            Place::Before => {
                assert forall|i: int| 0 <= i < mid + 1 implies name_lt(
                    #[trigger] values[i].name@,
                    name@,
                ) by {
                    if i < mid {
                        assert(name_lt(values[i].name@, values[mid as int].name@));
                        lemma_name_lt_transitive(values[i].name@, values[mid as int].name@, name@);
                    }
                }
                lo = mid + 1;
            },
            Place::After => {
                assert forall|i: int| mid <= i < values.len() implies name_lt(
                    name@,
                    #[trigger] values[i].name@,
                ) by {
                    if mid < i {
                        assert(name_lt(values[mid as int].name@, values[i].name@));
                        lemma_name_lt_transitive(name@, values[mid as int].name@, values[i].name@);
                    }
                }
                hi = mid;
            },
        }
    }
    Err(lo)
}

/// A mapping from names to slots.
#[verifier::reject_recursive_types(F)]
pub struct Scope<F> {
    /// The bindings, sorted by name.
    values: Vec<Binding<F>>,
}

/// What looking `name` up in the mapping `m` gives.
pub open spec fn lookup<F>(m: Frame<F>, name: Seq<char>) -> Option<Slot<F>> {
    if m.contains_key(name) {
        Some(m[name])
    } else {
        None
    }
}

/// `l` lists the mapping `m`: every binding of `m` once, in increasing order
/// of the names.
pub open spec fn is_listing<F>(m: Frame<F>, l: Seq<(Seq<char>, Slot<F>)>) -> bool {
    &&& forall|i: int, j: int|
        0 <= i < j < l.len() ==> name_lt(#[trigger] l[i].0, #[trigger] l[j].0)
    &&& forall|i: int| 0 <= i < l.len() ==> m.contains_pair(#[trigger] l[i].0, l[i].1)
    &&& forall|n: Seq<char>|
        m.contains_key(n) ==> exists|i: int| 0 <= i < l.len() && #[trigger] l[i].0 == n
}

/// The names and slots that a sequence of borrowed bindings stands for.
pub open spec fn listed<F>(l: Seq<(&str, &Slot<F>)>) -> Seq<(Seq<char>, Slot<F>)> {
    Seq::new(l.len(), |i: int| (l[i].0@, *l[i].1))
}

/// `c` shows the mapping `m`: every name of `m` once, in increasing order,
/// each with a value. Beside a name that is bound to a constant stands the
/// value that the constant holds.
pub open spec fn is_contents<F>(m: Frame<F>, c: Seq<(Seq<char>, Value<F>)>) -> bool {
    &&& forall|i: int, j: int|
        0 <= i < j < c.len() ==> name_lt(#[trigger] c[i].0, #[trigger] c[j].0)
    &&& forall|i: int|
        0 <= i < c.len() ==> m.contains_key(#[trigger] c[i].0) && (m[c[i].0].is_const()
            ==> c[i].1 == m[c[i].0].value())
    &&& forall|n: Seq<char>|
        m.contains_key(n) ==> exists|i: int| 0 <= i < c.len() && #[trigger] c[i].0 == n
}

/// The names and values that a sequence of borrowed names and values stands
/// for.
pub open spec fn shown<F>(c: Seq<(&str, Value<F>)>) -> Seq<(Seq<char>, Value<F>)> {
    Seq::new(c.len(), |i: int| (c[i].0@, c[i].1))
}

impl<F> View for Scope<F> {
    type V = Frame<F>;

    /// The mapping from names to slots that the scope holds.
    closed spec fn view(&self) -> Frame<F> {
        mapping(self.values@)
    }
}

impl<F> Binding<F> {
    /// The same name bound to the same slot.
    fn share(&self) -> (r: Self)
        ensures
            r.name@ == self.name@,
            r.slot == self.slot,
    {
        Binding { name: self.name.clone(), slot: self.slot.clone() }
    }
}

impl<F> Clone for Scope<F> {
    /// A scope with the same bindings. The slots are shared with the scope
    /// that was cloned, not copied.
    fn clone(&self) -> (r: Self)
        ensures
            r@ == self@,
    {
        proof {
            use_type_invariant(self);
        }
        let mut values: Vec<Binding<F>> = Vec::new();
        let mut i: usize = 0;
        while i < self.values.len()
            invariant
                i <= self.values.len(),
                values.len() == i,
                forall|k: int|
                    0 <= k < i ==> (#[trigger] values[k]).name@ == self.values[k].name@
                        && values[k].slot == self.values[k].slot,
            decreases self.values.len() - i,
        {
            values.push(self.values[i].share());
            i += 1;
        }
        proof {
            lemma_same_bindings(self.values@, values@);
        }
        Scope { values }
    }
}

impl<F> Default for Scope<F> {
    /// The empty scope.
    fn default() -> (scope: Self)
        ensures
            scope@ == Map::<Seq<char>, Slot<F>>::empty(),
    {
        Scope::new()
    }
}

impl<F> Scope<F> {
    #[verifier::type_invariant]
    spec fn well_formed(&self) -> bool {
        sorted(self.values@)
    }

    /// Create a new empty scope.
    pub fn new() -> (scope: Self)
        ensures
            scope@ == Map::<Seq<char>, Slot<F>>::empty(),
    {
        let scope = Scope { values: Vec::new() };
        assert(scope@ =~= Map::<Seq<char>, Slot<F>>::empty());
        scope
    }

    /// Define a constant variable with a value. A binding that the name had
    /// in this scope is replaced.
    pub fn def_const(&mut self, var: &str, value: Value<F>)
        ensures
            final(self)@ == old(self)@.insert(var@, Slot::constant(value)),
    {
        self.def_slot(var, Slot::new_const(value));
    }

    /// Define a mutable variable with a value. A binding that the name had in
    /// this scope is replaced.
    pub fn def_mut(&mut self, var: &str, value: Value<F>)
        ensures
            final(self)@ == old(self)@.insert(var@, final(self)@[var@]),
            !final(self)@[var@].is_const(),
    {
        self.def_slot(var, Slot::new_mut(value));
    }

    /// Define a variable with a slot. A binding that the name had in this
    /// scope is replaced; the slot it was bound to is left as it is.
    pub fn def_slot(&mut self, var: &str, slot: Slot<F>)
        ensures
            final(self)@ == old(self)@.insert(var@, slot),
    {
        proof {
            use_type_invariant(&*self);
        }
        let mut values: Vec<Binding<F>> = Vec::new();
        std::mem::swap(&mut values, &mut self.values);
        let binding = Binding { name: var.to_owned(), slot };
        match locate(&values, var) {
            Ok(k) => {
                proof {
                    lemma_update(values@, k as int, binding);
                }
                values.set(k, binding);
            },
            Err(k) => {
                proof {
                    lemma_insert(values@, k as int, binding);
                }
                values.insert(k, binding);
            },
        }
        self.values = values;
    }

    /// Define a constant native function.
    pub fn def_func(&mut self, name: &'static str, func: F)
        ensures
            final(self)@ == old(self)@.insert(
                name@,
                Slot::constant(Value::Func((Func { name, native: Arc::new(func) }))),
            ),
    {
        self.def_const(name, Value::Func(Func::native(name, func)));
    }

    /// Define a constant class. The class carries the name and the entry
    /// points that `T` hands out.
    pub fn def_class<T: Construct<F> + Settable<F>>(&mut self, name: &'static str)
        ensures
            final(self)@ == old(self)@.insert(name@, final(self)@[name@]),
            final(self)@[name@].is_const(),
            final(self)@[name@].value() is Class,
            final(self)@[name@].value()->Class_0.name == name,
    {
        let class = Class::new::<T>(name);
        proof {
            Slot::lemma_constant_holds(Value::Class(class));
        }
        self.def_const(name, Value::Class(class));
    }

    /// Look up the slot of a variable in this scope.
    pub fn get(&self, var: &str) -> (r: Option<&Slot<F>>)
        ensures
            match r {
                Some(slot) => lookup(self@, var@) == Some(*slot),
                None => lookup(self@, var@) is None,
            },
    {
        proof {
            use_type_invariant(self);
        }
        match locate(&self.values, var) {
            Ok(k) => {
                proof {
                    lemma_mapping_at(self.values@, k as int);
                }
                Some(&self.values[k].slot)
            },
            Err(k) => {
                proof {
                    lemma_gap_unbound(self.values@, k as int, var@);
                }
                None
            },
        }
    }

    /// All definitions, in increasing order of the names.
    pub fn iter(&self) -> (r: Vec<(&str, &Slot<F>)>)
        ensures
            is_listing(self@, listed(r@)),
    {
        proof {
            use_type_invariant(self);
        }
        let mut out: Vec<(&str, &Slot<F>)> = Vec::new();
        let mut i: usize = 0;
        while i < self.values.len()
            invariant
                i <= self.values.len(),
                out.len() == i,
                forall|k: int|
                    0 <= k < i ==> (#[trigger] out[k]).0@ == self.values[k].name@ && *out[k].1
                        == self.values[k].slot,
            decreases self.values.len() - i,
        {
            out.push((self.values[i].name.as_str(), &self.values[i].slot));
            i += 1;
        }
        proof {
            let l = listed(out@);
            let s = self.values@;
            assert forall|a: int, b: int| 0 <= a < b < l.len() implies name_lt(
                #[trigger] l[a].0,
                #[trigger] l[b].0,
            ) by {
                assert(name_lt(s[a].name@, s[b].name@));
            }
            assert forall|a: int| 0 <= a < l.len() implies self@.contains_pair(
                #[trigger] l[a].0,
                l[a].1,
            ) by {
                lemma_mapping_at(s, a);
            }
            assert forall|n: Seq<char>| self@.contains_key(n) implies exists|a: int|
                0 <= a < l.len() && #[trigger] l[a].0 == n by {
                let a = index_of(s, n);
                assert(l[a].0 == n);
            }
        }
        out
    }

    /// The names with the values that their slots hold now, in increasing
    /// order of the names: what a scope is hashed and printed by.
    pub fn contents(&self) -> (r: Vec<(&str, Value<F>)>)
        ensures
            is_contents(self@, shown(r@)),
    {
        proof {
            use_type_invariant(self);
        }
        let mut out: Vec<(&str, Value<F>)> = Vec::new();
        let mut i: usize = 0;
        while i < self.values.len()
            invariant
                i <= self.values.len(),
                out.len() == i,
                forall|k: int|
                    0 <= k < i ==> (#[trigger] out[k]).0@ == self.values[k].name@ && (
                    self.values[k].slot.is_const() ==> out[k].1 == self.values[k].slot.value()),
            decreases self.values.len() - i,
        {
            out.push((self.values[i].name.as_str(), self.values[i].slot.get()));
            i += 1;
        }
        proof {
            let c = shown(out@);
            let s = self.values@;
            assert forall|a: int, b: int| 0 <= a < b < c.len() implies name_lt(
                #[trigger] c[a].0,
                #[trigger] c[b].0,
            ) by {
                assert(name_lt(s[a].name@, s[b].name@));
            }
            assert forall|a: int| 0 <= a < c.len() implies self@.contains_key(#[trigger] c[a].0)
                && (self@[c[a].0].is_const() ==> c[a].1 == self@[c[a].0].value()) by {
                lemma_mapping_at(s, a);
            }
            assert forall|n: Seq<char>| self@.contains_key(n) implies exists|a: int|
                0 <= a < c.len() && #[trigger] c[a].0 == n by {
                let a = index_of(s, n);
                assert(c[a].0 == n);
            }
        }
        out
    }
}

} // verus!
