//! The scope stack: the scopes that are live while a program is evaluated.

use crate::scope::{lookup, Frame, Scope};
use crate::slot::Slot;
use crate::value::Value;
use vstd::prelude::*;

verus! {

/// A scope stack as a mathematical value.
#[verifier::reject_recursive_types(F)]
pub struct ScopesView<F> {
    /// The active scope.
    pub top: Frame<F>,
    /// The suspended scopes, the most recently suspended one last.
    pub stack: Seq<Frame<F>>,
    /// The base scope, if there is one.
    pub base: Option<Frame<F>>,
}

/// What looking `name` up in suspended scopes gives: the binding in the most
/// recently suspended scope that has one.
pub open spec fn lookup_stack<F>(stack: Seq<Frame<F>>, name: Seq<char>) -> Option<Slot<F>>
    decreases stack.len(),
{
    if stack.len() == 0 {
        None
    } else if stack.last().contains_key(name) {
        Some(stack.last()[name])
    } else {
        lookup_stack(stack.drop_last(), name)
    }
}

impl<F> ScopesView<F> {
    /// The stack that a new scope stack is: an empty active scope and
    /// nothing suspended.
    pub open spec fn fresh(base: Option<Frame<F>>) -> Self {
        ScopesView { top: Map::empty(), stack: Seq::empty(), base }
    }

    /// The number of suspended scopes.
    pub open spec fn depth(self) -> nat {
        self.stack.len()
    }

    /// The stack after a scope was entered.
    pub open spec fn enter(self) -> Self {
        ScopesView { top: Map::empty(), stack: self.stack.push(self.top), base: self.base }
    }

    /// The stack after the active scope was left.
    pub open spec fn exit(self) -> Self
        recommends
            self.depth() > 0,
    {
        ScopesView { top: self.stack.last(), stack: self.stack.drop_last(), base: self.base }
    }

    /// The stack after `name` was bound to `slot` in the active scope.
    pub open spec fn define(self, name: Seq<char>, slot: Slot<F>) -> Self {
        ScopesView { top: self.top.insert(name, slot), stack: self.stack, base: self.base }
    }

    /// What `name` resolves to: its binding in the active scope, else in the
    /// nearest suspended scope that has one, else in the base scope.
    pub open spec fn lookup(self, name: Seq<char>) -> Option<Slot<F>> {
        if self.top.contains_key(name) {
            Some(self.top[name])
        } else if lookup_stack(self.stack, name) is Some {
            lookup_stack(self.stack, name)
        } else {
            match self.base {
                Some(base) => lookup(base, name),
                None => None,
            }
        }
    }
}

/// A stack of scopes.
#[verifier::reject_recursive_types(F)]
pub struct Scopes<'a, F> {
    /// The active scope.
    pub top: Scope<F>,
    /// The stack of lower scopes.
    pub scopes: Vec<Scope<F>>,
    /// The base scope.
    pub base: Option<&'a Scope<F>>,
}

impl<'a, F> View for Scopes<'a, F> {
    type V = ScopesView<F>;

    open spec fn view(&self) -> ScopesView<F> {
        ScopesView {
            top: self.top@,
            stack: Seq::new(self.scopes@.len(), |i: int| self.scopes@[i]@),
            base: match self.base {
                Some(base) => Some(base@),
                None => None,
            },
        }
    }
}

impl<'a, F> Clone for Scopes<'a, F> {
    /// A stack with the same scopes over the same base. The slots are shared
    /// with the stack that was cloned, not copied.
    fn clone(&self) -> (r: Self)
        ensures
            r@ == self@,
            r.base == self.base,
    {
        let mut scopes: Vec<Scope<F>> = Vec::new();
        let mut i: usize = 0;
        while i < self.scopes.len()
            invariant
                i <= self.scopes.len(),
                scopes.len() == i,
                forall|k: int| 0 <= k < i ==> (#[trigger] scopes[k])@ == self.scopes[k]@,
            decreases self.scopes.len() - i,
        {
            scopes.push(self.scopes[i].clone());
            i += 1;
        }
        let r = Scopes { top: self.top.clone(), scopes, base: self.base };
        assert(r@.stack =~= self@.stack);
        r
    }
}

impl<'a, F> Default for Scopes<'a, F> {
    /// An empty stack without a base scope.
    fn default() -> (scopes: Self)
        ensures
            scopes@ == ScopesView::<F>::fresh(None),
    {
        Scopes::new(None)
    }
}

impl<'a, F> Scopes<'a, F> {
    /// Create a new, empty hierarchy of scopes.
    pub fn new(base: Option<&'a Scope<F>>) -> (scopes: Self)
        ensures
            scopes.base == base,
            scopes@ == ScopesView::fresh(
                match base {
                    Some(b) => Some(b@),
                    None => None,
                },
            ),
    {
        let scopes = Scopes { top: Scope::new(), scopes: Vec::new(), base };
        assert(scopes@.stack =~= Seq::empty());
        scopes
    }

    /// Enter a new scope.
    pub fn enter(&mut self)
        ensures
            final(self)@ == old(self)@.enter(),
            final(self).base == old(self).base,
    {
        let mut top = Scope::new();
        std::mem::swap(&mut top, &mut self.top);
        self.scopes.push(top);
        assert(self@.stack =~= old(self)@.stack.push(old(self)@.top));
    }

    /// Exit the topmost scope. Its bindings are dropped, and the scope that
    /// was active when it was entered is active again.
    pub fn exit(&mut self)
        requires
            old(self)@.depth() > 0,
        ensures
            final(self)@ == old(self)@.exit(),
            final(self).base == old(self).base,
    {
        let top = self.scopes.pop().expect("no pushed scope");
        self.top = top;
        assert(self@.stack =~= old(self)@.stack.drop_last());
    }

    /// Define a constant variable with a value in the active scope.
    pub fn def_const(&mut self, var: &str, value: Value<F>)
        ensures
            final(self)@ == old(self)@.define(var@, Slot::constant(value)),
            final(self).base == old(self).base,
    {
        self.top.def_const(var, value);
    }

    /// Define a mutable variable with a value in the active scope.
    pub fn def_mut(&mut self, var: &str, value: Value<F>)
        ensures
            final(self)@ == old(self)@.define(var@, final(self)@.top[var@]),
            !final(self)@.top[var@].is_const(),
            final(self).base == old(self).base,
    {
        self.top.def_mut(var, value);
    }

    /// Define a variable with a slot in the active scope.
    pub fn def_slot(&mut self, var: &str, slot: Slot<F>)
        ensures
            final(self)@ == old(self)@.define(var@, slot),
            final(self).base == old(self).base,
    {
        self.top.def_slot(var, slot);
    }

    /// Look up the slot of a variable: in the active scope, then in the
    /// suspended scopes from the nearest outwards, then in the base scope.
    pub fn get(&self, var: &str) -> (r: Option<&Slot<F>>)
        ensures
            match r {
                Some(slot) => self@.lookup(var@) == Some(*slot),
                None => self@.lookup(var@) is None,
            },
    {
        if let Some(slot) = self.top.get(var) {
            return Some(slot);
        }
        let ghost stack = self@.stack;
        let mut i: usize = self.scopes.len();
        assert(stack.take(i as int) =~= stack);
        while i > 0
            invariant
                i <= self.scopes.len(),
                stack == self@.stack,
                !self@.top.contains_key(var@),
                lookup_stack(stack, var@) == lookup_stack(stack.take(i as int), var@),
            decreases i,
        {
            i -= 1;
            assert(stack.take(i + 1).last() == self.scopes@[i as int]@);
            assert(stack.take(i + 1).drop_last() =~= stack.take(i as int));
            if let Some(slot) = self.scopes[i].get(var) {
                assert(lookup_stack(stack.take(i + 1), var@) == Some(*slot));
                return Some(slot);
            }
        }
        match self.base {
            Some(base) => base.get(var),
            None => None,
        }
    }
}

} // verus!
