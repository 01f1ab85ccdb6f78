//! What holds of scopes and scope stacks whatever they hold, stated over
//! their views.

use crate::names::{
    lemma_name_lt_asymmetric, lemma_name_lt_irreflexive, lemma_name_lt_total, name_lt,
};
use crate::scope::{is_listing, lookup, Frame};
use crate::scopes::ScopesView;
use crate::slot::Slot;
use crate::value::Value;
use vstd::prelude::*;

verus! {

/// A name that a scope does not define is absent from it, and present right
/// after it was defined, bound to the slot it was defined with.
pub proof fn lemma_defined_name_is_found<F>(m: Frame<F>, name: Seq<char>, slot: Slot<F>)
    requires
        !m.contains_key(name),
    ensures
        lookup(m, name) is None,
        lookup(m.insert(name, slot), name) == Some(slot),
{
}

/// A new scope defines no name.
pub proof fn lemma_empty_scope_finds_nothing<F>(name: Seq<char>)
    ensures
        lookup(Map::<Seq<char>, Slot<F>>::empty(), name) is None,
{
}

/// Defining a name leaves every other name of the scope as it was.
pub proof fn lemma_define_keeps_other_names<F>(
    m: Frame<F>,
    name: Seq<char>,
    slot: Slot<F>,
    other: Seq<char>,
)
    requires
        other != name,
    ensures
        lookup(m.insert(name, slot), other) == lookup(m, other),
{
}

/// Defining a name again in the same scope replaces its binding: the name
/// then gives the second slot, and the scope is what it would be had the
/// first definition never been made.
pub proof fn lemma_redefinition_replaces<F>(
    m: Frame<F>,
    name: Seq<char>,
    first: Slot<F>,
    second: Slot<F>,
)
    ensures
        lookup(m.insert(name, first).insert(name, second), name) == Some(second),
        m.insert(name, first).insert(name, second) == m.insert(name, second),
{
    assert(m.insert(name, first).insert(name, second) =~= m.insert(name, second));
}

/// Defining a name again adds no name: the scope binds the same names as
/// before.
pub proof fn lemma_redefinition_keeps_the_names<F>(m: Frame<F>, name: Seq<char>, slot: Slot<F>)
    requires
        m.contains_key(name),
    ensures
        m.insert(name, slot).dom() == m.dom(),
{
    assert(m.insert(name, slot).dom() =~= m.dom());
}

/// A handle taken to a constant before its name was defined again still
/// gives the value of the first definition.
pub proof fn lemma_captured_constant_keeps_value<F>(
    m: Frame<F>,
    name: Seq<char>,
    value: Value<F>,
    second: Slot<F>,
)
    ensures
        ({
            let captured = lookup(m.insert(name, Slot::constant(value)), name);
            let after = m.insert(name, Slot::constant(value)).insert(name, second);
            &&& captured is Some
            &&& captured->0.is_const()
            &&& captured->0.value() == value
            &&& lookup(after, name) == Some(second)
        }),
{
    Slot::lemma_constant_holds(value);
}

/// A slot made by a constant definition is constant and holds the value it
/// was defined with, under the name it was defined with and under every
/// other name that the same slot is bound to, in this scope or another.
pub proof fn lemma_constant_is_locked_under_every_name<F>(
    m: Frame<F>,
    name: Seq<char>,
    value: Value<F>,
    other: Frame<F>,
    alias: Seq<char>,
)
    ensures
        ({
            let slot = lookup(m.insert(name, Slot::constant(value)), name);
            &&& slot is Some
            &&& slot->0.is_const()
            &&& slot->0.value() == value
            &&& lookup(other.insert(alias, slot->0), alias) == slot
        }),
{
    Slot::lemma_constant_holds(value);
}

/// A name defined in the active scope resolves to that definition, whatever
/// the suspended scopes and the base scope bind it to.
pub proof fn lemma_active_definition_wins<F>(s: ScopesView<F>, name: Seq<char>, slot: Slot<F>)
    ensures
        s.define(name, slot).lookup(name) == Some(slot),
{
}

/// Entering a scope hides nothing: every name resolves as before.
pub proof fn lemma_enter_keeps_lookup<F>(s: ScopesView<F>, name: Seq<char>)
    ensures
        s.enter().lookup(name) == s.lookup(name),
{
    let e = s.enter();
    assert(e.stack.last() == s.top);
    assert(e.stack.drop_last() =~= s.stack);
}

/// Entering a scope and leaving it again gives the stack back as it was,
/// whatever was defined in between in the scope that was left.
pub proof fn lemma_exit_undoes_enter<F>(s: ScopesView<F>, inner: Frame<F>)
    ensures
        s.enter().exit() == s,
        (ScopesView { top: inner, ..s.enter() }).exit() == s,
{
    assert(s.enter().stack.drop_last() =~= s.stack);
}

/// Shadowing: a name defined in an inner scope resolves to the inner slot
/// while that scope is active, and to what it resolved to before once the
/// scope is left. The outer binding is the same after as before.
pub proof fn lemma_shadowing<F>(s: ScopesView<F>, name: Seq<char>, inner: Slot<F>)
    ensures
        s.enter().define(name, inner).lookup(name) == Some(inner),
        s.enter().define(name, inner).exit() == s,
        s.enter().define(name, inner).exit().lookup(name) == s.lookup(name),
{
    lemma_exit_undoes_enter(s, s.enter().define(name, inner).top);
}

/// Base fallback: in a new stack a name resolves to what the base scope
/// binds it to; a definition in a scope entered on top of it shadows the
/// base until that scope is left.
pub proof fn lemma_base_fallback<F>(base: Option<Frame<F>>, name: Seq<char>, local: Slot<F>)
    ensures
        ScopesView::fresh(base).lookup(name) == match base {
            Some(b) => lookup(b, name),
            None => None,
        },
        ScopesView::fresh(base).define(name, local).lookup(name) == Some(local),
        ScopesView::fresh(base).enter().define(name, local).lookup(name) == Some(local),
        ScopesView::fresh(base).enter().define(name, local).exit().lookup(name) == match base {
            Some(b) => lookup(b, name),
            None => None,
        },
{
    let s = ScopesView::fresh(base);
    lemma_shadowing(s, name, local);
}

impl<F> ScopesView<F> {
    /// The stack after `n` scopes were entered in a row.
    pub open spec fn enter_times(self, n: nat) -> Self
        decreases n,
    {
        if n == 0 {
            self
        } else {
            self.enter().enter_times((n - 1) as nat)
        }
    }

    /// The stack after `n` scopes were left in a row.
    pub open spec fn exit_times(self, n: nat) -> Self
        recommends
            n <= self.depth(),
        decreases n,
    {
        if n == 0 {
            self
        } else {
            self.exit().exit_times((n - 1) as nat)
        }
    }
}

/// Entering `n` scopes in a row suspends `n` more scopes.
pub proof fn lemma_enter_times_depth<F>(s: ScopesView<F>, n: nat)
    ensures
        s.enter_times(n).depth() == s.depth() + n,
    decreases n,
{
    if n > 0 {
        lemma_enter_times_depth(s.enter(), (n - 1) as nat);
    }
}

/// Leaving one scope more is leaving the scope that is then active.
proof fn lemma_exit_times_last<F>(s: ScopesView<F>, n: nat)
    requires
        n < s.depth(),
    ensures
        s.exit_times(n + 1) == s.exit_times(n).exit(),
        s.exit_times(n).depth() == s.depth() - n,
    decreases n,
{
    assert(s.exit_times(n + 1) == s.exit().exit_times(n));
    if n > 0 {
        lemma_exit_times_last(s.exit(), (n - 1) as nat);
    }
}

/// Balanced enter and exit: after `n` scopes were entered and `n` scopes
/// were left the stack is what it was, with as many scopes suspended as
/// before. A stack with nothing suspended at the start has nothing suspended
/// at the end, so one more exit is not allowed.
pub proof fn lemma_balanced_enter_exit<F>(s: ScopesView<F>, n: nat)
    ensures
        s.enter_times(n).exit_times(n) == s,
        s.enter_times(n).exit_times(n).depth() == s.depth(),
        s.enter_times(n).depth() >= n,
    decreases n,
{
    lemma_enter_times_depth(s, n);
    if n > 0 {
        let m = (n - 1) as nat;
        lemma_balanced_enter_exit(s.enter(), m);
        lemma_enter_times_depth(s.enter(), m);
        lemma_exit_times_last(s.enter().enter_times(m), m);
        lemma_exit_undoes_enter(s, s.enter().top);
    }
}

impl<F> ScopesView<F> {
    /// The stack inside nested scopes: the scopes entered since `self` hold
    /// `inner`, the innermost one, which is active, last.
    pub open spec fn nest(self, inner: Seq<Frame<F>>) -> Self
        recommends
            inner.len() > 0,
    {
        ScopesView {
            top: inner.last(),
            stack: self.stack.push(self.top) + inner.drop_last(),
            base: self.base,
        }
    }
}

/// Entering a scope starts a nesting with one empty scope, and entering
/// another inside adds an empty innermost scope.
pub proof fn lemma_nest_enter<F>(s: ScopesView<F>, inner: Seq<Frame<F>>)
    requires
        inner.len() > 0,
    ensures
        s.enter() == s.nest(seq![Map::empty()]),
        s.nest(inner).enter() == s.nest(inner.push(Map::empty())),
{
    let one = seq![Map::<Seq<char>, Slot<F>>::empty()];
    assert(s.enter().stack =~= s.nest(one).stack);
    let pushed = inner.push(Map::empty());
    assert(s.nest(inner).enter().stack =~= s.nest(pushed).stack);
}

/// A definition inside nested scopes changes the innermost scope and nothing
/// else.
pub proof fn lemma_nest_define<F>(
    s: ScopesView<F>,
    inner: Seq<Frame<F>>,
    name: Seq<char>,
    slot: Slot<F>,
)
    requires
        inner.len() > 0,
    ensures
        s.nest(inner).define(name, slot) == s.nest(
            inner.update(inner.len() - 1, inner.last().insert(name, slot)),
        ),
{
    let changed = inner.update(inner.len() - 1, inner.last().insert(name, slot));
    assert(s.nest(inner).define(name, slot).stack =~= s.nest(changed).stack);
}

/// Leaving a scope inside nested scopes drops the innermost scope; leaving
/// the only one gives the stack back as it was before it was entered.
pub proof fn lemma_nest_exit<F>(s: ScopesView<F>, inner: Seq<Frame<F>>)
    requires
        inner.len() > 0,
    ensures
        s.nest(inner).depth() == s.depth() + inner.len(),
        inner.len() > 1 ==> s.nest(inner).exit() == s.nest(inner.drop_last()),
        inner.len() == 1 ==> s.nest(inner).exit() == s,
{
    if inner.len() > 1 {
        assert(s.nest(inner).exit().stack =~= s.nest(inner.drop_last()).stack);
    } else {
        assert(s.nest(inner).exit().stack =~= s.stack);
    }
}

/// Nothing that happens inside nested scopes outlives them: once as many
/// scopes were left as had been entered, the stack is what it was before the
/// first of them was entered, whatever was defined inside.
pub proof fn lemma_nested_scopes_leave_no_trace<F>(s: ScopesView<F>, inner: Seq<Frame<F>>)
    requires
        inner.len() > 0,
    ensures
        s.nest(inner).exit_times(inner.len()) == s,
    decreases inner.len(),
{
    lemma_nest_exit(s, inner);
    let t = s.nest(inner);
    assert(t.exit_times(inner.len()) == t.exit().exit_times((inner.len() - 1) as nat));
    if inner.len() > 1 {
        lemma_nested_scopes_leave_no_trace(s, inner.drop_last());
    }
}

/// Where two listings of one mapping agree before `i`, the name that `a` has
/// at `i` does not sort before the one that `b` has there: `b` would have no
/// place left for it.
proof fn lemma_not_misplaced<F>(
    m: Frame<F>,
    a: Seq<(Seq<char>, Slot<F>)>,
    b: Seq<(Seq<char>, Slot<F>)>,
    i: int,
)
    requires
        is_listing(m, a),
        is_listing(m, b),
        0 <= i < a.len(),
        i < b.len(),
        forall|j: int| 0 <= j < i ==> a[j] == b[j],
    ensures
        !name_lt(a[i].0, b[i].0),
{
    let x = a[i].0;
    if name_lt(x, b[i].0) {
        assert(m.contains_pair(x, a[i].1));
        let j = choose|j: int| 0 <= j < b.len() && #[trigger] b[j].0 == x;
        lemma_name_lt_irreflexive(x);
        if j < i {
            assert(name_lt(a[j].0, a[i].0));
        } else if j > i {
            assert(name_lt(b[i].0, b[j].0));
            lemma_name_lt_asymmetric(x, b[i].0);
        }
    }
}

/// Two listings of the same mapping agree on their first `k` entries.
proof fn lemma_listings_agree<F>(
    m: Frame<F>,
    a: Seq<(Seq<char>, Slot<F>)>,
    b: Seq<(Seq<char>, Slot<F>)>,
    k: int,
)
    requires
        is_listing(m, a),
        is_listing(m, b),
        0 <= k <= a.len(),
        k <= b.len(),
    ensures
        forall|i: int| 0 <= i < k ==> a[i] == b[i],
    decreases k,
{
    if k > 0 {
        lemma_listings_agree(m, a, b, k - 1);
        let i = k - 1;
        assert(m.contains_pair(a[i].0, a[i].1));
        assert(m.contains_pair(b[i].0, b[i].1));
        lemma_name_lt_total(a[i].0, b[i].0);
        lemma_not_misplaced(m, a, b, i);
        lemma_not_misplaced(m, b, a, i);
    }
}

/// Where a listing of a mapping agrees with another as far as that one goes,
/// it ends where that one ends.
proof fn lemma_not_longer<F>(
    m: Frame<F>,
    a: Seq<(Seq<char>, Slot<F>)>,
    b: Seq<(Seq<char>, Slot<F>)>,
)
    requires
        is_listing(m, a),
        is_listing(m, b),
        a.len() <= b.len(),
        forall|j: int| 0 <= j < a.len() ==> a[j] == b[j],
    ensures
        a.len() == b.len(),
{
    if a.len() < b.len() {
        let k = a.len() as int;
        let x = b[k].0;
        assert(m.contains_pair(x, b[k].1));
        let j = choose|j: int| 0 <= j < a.len() && #[trigger] a[j].0 == x;
        assert(b[j].0 == x);
        assert(name_lt(b[j].0, b[k].0));
        lemma_name_lt_irreflexive(x);
    }
}

/// Deterministic enumeration: a mapping has one listing only. Whatever the
/// order in which the names were defined, the scope lists them the same way.
pub proof fn lemma_listing_is_unique<F>(
    m: Frame<F>,
    a: Seq<(Seq<char>, Slot<F>)>,
    b: Seq<(Seq<char>, Slot<F>)>,
)
    requires
        is_listing(m, a),
        is_listing(m, b),
    ensures
        a == b,
{
    if a.len() <= b.len() {
        lemma_listings_agree(m, a, b, a.len() as int);
        lemma_not_longer(m, a, b);
    } else {
        lemma_listings_agree(m, b, a, b.len() as int);
        lemma_not_longer(m, b, a);
    }
    assert(a =~= b);
}

/// A listing has one entry for each name of the mapping, which therefore
/// binds finitely many names.
pub proof fn lemma_listing_counts_the_names<F>(m: Frame<F>, l: Seq<(Seq<char>, Slot<F>)>)
    requires
        is_listing(m, l),
    ensures
        m.dom().finite(),
        m.dom().len() == l.len(),
    decreases l.len(),
{
    if l.len() == 0 {
        assert(m.dom() =~= Set::<Seq<char>>::empty());
    } else {
        let last = l.last();
        let rest = l.drop_last();
        let less = m.remove(last.0);
        lemma_name_lt_irreflexive(last.0);
        assert forall|i: int| 0 <= i < rest.len() implies less.contains_pair(
            #[trigger] rest[i].0,
            rest[i].1,
        ) by {
            assert(m.contains_pair(l[i].0, l[i].1));
            assert(name_lt(l[i].0, l[l.len() - 1].0));
        }
        assert forall|n: Seq<char>| less.contains_key(n) implies exists|i: int|
            0 <= i < rest.len() && #[trigger] rest[i].0 == n by {
            let i = choose|i: int| 0 <= i < l.len() && #[trigger] l[i].0 == n;
            assert(rest[i].0 == n);
        }
        assert forall|i: int, j: int| 0 <= i < j < rest.len() implies name_lt(
            #[trigger] rest[i].0,
            #[trigger] rest[j].0,
        ) by {
            assert(name_lt(l[i].0, l[j].0));
        }
        lemma_listing_counts_the_names(less, rest);
        assert(m.contains_pair(last.0, last.1));
        assert(m.dom() =~= less.dom().insert(last.0));
    }
}

/// Insertion order does not show: defining two different names in either
/// order gives the same scope, and so the same listing.
pub proof fn lemma_definition_order_is_forgotten<F>(
    m: Frame<F>,
    n1: Seq<char>,
    s1: Slot<F>,
    n2: Seq<char>,
    s2: Slot<F>,
)
    requires
        n1 != n2,
    ensures
        m.insert(n1, s1).insert(n2, s2) == m.insert(n2, s2).insert(n1, s1),
{
    assert(m.insert(n1, s1).insert(n2, s2) =~= m.insert(n2, s2).insert(n1, s1));
}

} // verus!
