//! The values that a slot can hold.
//!
//! The scopes store values and never look inside them. They are generic
//! over `F`, the host's representation of a native callable, which they only
//! carry around.

use std::sync::Arc;
use vstd::prelude::*;

verus! {

/// A named native function.
#[derive(Debug, PartialEq, Eq, Hash)]
pub struct Func<F> {
    /// The name the function was registered under.
    pub name: &'static str,
    /// The host's callable.
    pub native: Arc<F>,
}

/// A named class: a type the evaluator can construct and configure.
#[derive(Debug, PartialEq, Eq, Hash)]
pub struct Class<F> {
    /// The name the class was registered under.
    pub name: &'static str,
    /// The callable that builds an instance.
    pub construct: Arc<F>,
    /// The callable that sets properties of the class.
    pub set: Arc<F>,
}

/// A value of the evaluated language.
#[derive(Debug, PartialEq, Eq, Hash)]
pub enum Value<F> {
    /// The value that says nothing.
    Unit,
    /// A boolean.
    Bool(bool),
    /// An integer.
    Int(i64),
    /// A string.
    Str(String),
    /// A native function.
    Func(Func<F>),
    /// A class.
    Class(Class<F>),
}

/// A type that the evaluator can construct.
pub trait Construct<F> {
    /// The callable that builds an instance of the type.
    fn construct() -> F;
}

/// A type whose properties the evaluator can set.
pub trait Settable<F> {
    /// The callable that sets properties of the type.
    fn set() -> F;
}

impl<F> Func<F> {
    /// A native function with the given name.
    pub fn native(name: &'static str, func: F) -> (f: Self)
        ensures
            f.name == name,
            *f.native == func,
    {
        Func { name, native: Arc::new(func) }
    }
}

impl<F> Class<F> {
    /// A class with the given name and entry points.
    pub fn from_parts(name: &'static str, construct: F, set: F) -> (c: Self)
        ensures
            c.name == name,
            *c.construct == construct,
            *c.set == set,
    {
        Class { name, construct: Arc::new(construct), set: Arc::new(set) }
    }

    /// The class of the type `T`, under the given name. Its entry points are
    /// whatever `T` hands out.
    pub fn new<T: Construct<F> + Settable<F>>(name: &'static str) -> (c: Self)
        ensures
            c.name == name,
    {
        Class::from_parts(name, T::construct(), <T as Settable<F>>::set())
    }
}

impl<F> Clone for Func<F> {
    fn clone(&self) -> (r: Self)
        ensures
            r == *self,
    {
        Func { name: self.name, native: self.native.clone() }
    }
}

impl<F> Clone for Class<F> {
    fn clone(&self) -> (r: Self)
        ensures
            r == *self,
    {
        Class { name: self.name, construct: self.construct.clone(), set: self.set.clone() }
    }
}

impl<F> Clone for Value<F> {
    fn clone(&self) -> (r: Self)
        ensures
            r == *self,
    {
        match self {
            Value::Unit => Value::Unit,
            Value::Bool(b) => Value::Bool(*b),
            Value::Int(i) => Value::Int(*i),
            Value::Str(s) => Value::Str(s.clone()),
            Value::Func(f) => Value::Func(f.clone()),
            Value::Class(c) => Value::Class(c.clone()),
        }
    }
}

} // verus!
