//! Slots: the shared storage cells that names are bound to.
//!
//! A slot is a handle. Cloning it gives a second handle to the same storage,
//! so a scope, an alias under another name and a closure can all hold one
//! slot. The storage is released, with the value in it, when the last handle
//! is dropped. A slot is made constant or mutable once, when it is created,
//! and the storage itself carries that choice: a constant slot has nothing
//! that could be written, whichever handle it is reached through, and
//! nothing outside this module can reach into the storage.
//!
//! The value of a constant slot is part of what the slot is, so the
//! contracts can name it. A mutable slot keeps its value in a cell that
//! every holder can write at any time; what such a cell holds at a given
//! moment is not a property of the handle, and the contracts say who may
//! write it, not what is read from it.

use crate::value::Value;
use std::cell::Cell;
use std::sync::Arc;
use vstd::prelude::*;

verus! {

/// `std::cell::Cell`, the storage of a mutable slot: a cell that can be
/// written through a shared reference and drops what it holds when it is
/// dropped. Nothing is known of what a cell holds.
#[verifier::external_type_specification]
#[verifier::external_body]
#[verifier::reject_recursive_types(T)]
pub struct ExCell<T: ?Sized>(Cell<T>);

/// `Cell::new` makes a cell around a value. It does not panic. Nothing is
/// claimed of the cell.
pub assume_specification<T>[ Cell::<T>::new ](value: T) -> (cell: Cell<T>);

/// `Cell::replace` puts a value into the cell and hands out the one that was
/// in it. It does not panic. Nothing is claimed of the value that comes out:
/// any holder of the cell may have put it there.
pub assume_specification<T>[ Cell::<T>::replace ](cell: &Cell<T>, val: T) -> (held: T);

/// What a slot keeps its value in.
#[verifier::reject_recursive_types(F)]
enum Storage<F> {
    /// Storage that was locked when it was created and holds its first value
    /// for good.
    Const(Arc<Value<F>>),
    /// Storage that every holder may read and write.
    Mut(Arc<Cell<Value<F>>>),
}

/// A shared storage cell for one value.
#[verifier::reject_recursive_types(F)]
pub struct Slot<F> {
    storage: Storage<F>,
}

/// Why a write to a slot was turned down: the slot is constant.
#[derive(Clone, Copy, Debug, PartialEq, Eq, Structural)]
pub struct Locked;

impl<F> Slot<F> {
    /// The constant slot that holds `value`.
    pub closed spec fn constant(value: Value<F>) -> Slot<F> {
        Slot { storage: Storage::Const(Arc::new(value)) }
    }

    /// Whether the slot is constant.
    pub closed spec fn is_const(&self) -> bool {
        self.storage is Const
    }

    /// What a constant slot holds.
    pub closed spec fn value(&self) -> Value<F>
        recommends
            self.is_const(),
    {
        *self.storage->Const_0
    }

    /// The constant slot that holds a value is constant and holds that
    /// value.
    pub proof fn lemma_constant_holds(value: Value<F>)
        ensures
            Slot::constant(value).is_const(),
            Slot::constant(value).value() == value,
    {
    }

    /// A constant slot is no more than the value it holds.
    pub proof fn lemma_constant_is_its_value(self)
        requires
            self.is_const(),
        ensures
            self == Slot::constant(self.value()),
    {
    }

    /// A new constant slot holding `value`.
    pub fn new_const(value: Value<F>) -> (slot: Self)
        ensures
            slot == Slot::constant(value),
    {
        Slot { storage: Storage::Const(Arc::new(value)) }
    }

    /// A new mutable slot holding `value`.
    pub fn new_mut(value: Value<F>) -> (slot: Self)
        ensures
            !slot.is_const(),
    {
        Slot { storage: Storage::Mut(Arc::new(Cell::new(value))) }
    }

    /// Whether the slot is constant.
    pub fn locked(&self) -> (b: bool)
        ensures
            b == self.is_const(),
    {
        match &self.storage {
            Storage::Const(_) => true,
            Storage::Mut(_) => false,
        }
    }

    /// A copy of the value that the slot holds now. For a constant slot that
    /// is the value it was created with.
    pub fn get(&self) -> (v: Value<F>)
        ensures
            self.is_const() ==> v == self.value(),
    {
        match &self.storage {
            Storage::Const(held) => (**held).clone(),
            Storage::Mut(cell) => {
                let held = cell.replace(Value::Unit);
                let copy = held.clone();
                let _ = cell.replace(held);
                copy
            },
        }
    }

    /// Stores `value` in the slot and drops the value that was in it. A
    /// constant slot turns the write down and stays as it is; a mutable slot
    /// always takes it.
    pub fn set(&self, value: Value<F>) -> (r: Result<(), Locked>)
        ensures
            r is Err <==> self.is_const(),
    {
        match &self.storage {
            Storage::Const(_) => Err(Locked),
            Storage::Mut(cell) => {
                let _ = cell.replace(value);
                Ok(())
            },
        }
    }
}

impl<F> Clone for Slot<F> {
    /// A second handle to the same storage.
    fn clone(&self) -> (r: Self)
        ensures
            r == *self,
    {
        match &self.storage {
            Storage::Const(held) => Slot { storage: Storage::Const(held.clone()) },
            Storage::Mut(cell) => Slot { storage: Storage::Mut(cell.clone()) },
        }
    }
}

} // verus!
