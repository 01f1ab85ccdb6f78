//! Lexical scoping for an expression evaluator.
//!
//! A [`Scope`] maps the names of one lexical level to [`Slot`]s, the shared
//! cells that hold the values. [`Scopes`] is the stack of scopes that is live
//! during evaluation: one active scope, the suspended scopes around it and an
//! optional base scope that is consulted last.

pub mod laws;
pub mod names;
pub mod scope;
pub mod scopes;
pub mod slot;
pub mod value;

pub use scope::Scope;
pub use scopes::{Scopes, ScopesView};
pub use slot::{Locked, Slot};
pub use value::{Class, Construct, Func, Settable, Value};
