//! An owning box that is exchanged as a whole: a swap moves boxes in and out, without
//! allocating, freeing, cloning or dropping the values they hold.

use vstd::prelude::*;

verus! {

/// A slot that always holds one boxed value.
pub struct AtomicBox<T> {
    value: Box<T>,
}

impl<T> AtomicBox<T> {
    /// The value in the slot.
    pub closed spec fn value(&self) -> T {
        *self.value
    }

    /// Creates a slot holding `value`.
    pub fn new(value: Box<T>) -> (slot: AtomicBox<T>)
        ensures
            slot.value() == *value,
    {
        AtomicBox { value }
    }

    /// Puts `other` into the slot and returns the box it held.
    pub fn swap(&mut self, other: Box<T>) -> (previous: Box<T>)
        ensures
            *previous == old(self).value(),
            final(self).value() == *other,
    {
        let mut result = other;
        self.swap_mut(&mut result);
        result
    }

    /// Puts `other` into the slot and drops the box it held.
    pub fn store(&mut self, other: Box<T>)
        ensures
            final(self).value() == *other,
    {
        self.swap(other);
    }

    /// Exchanges the box in the slot with `other`.
    pub fn swap_mut(&mut self, other: &mut Box<T>)
        ensures
            **final(other) == old(self).value(),
            final(self).value() == **old(other),
    {
        std::mem::swap(&mut self.value, other);
    }

    /// Consumes the slot, returning the box it held.
    pub fn into_inner(self) -> (value: Box<T>)
        ensures
            *value == self.value(),
    {
        self.value
    }

    /// Returns a mutable reference to the value in the slot.
    pub fn get_mut(&mut self) -> (value: &mut T)
        ensures
            *value == old(self).value(),
            final(self).value() == *final(value),
    {
        &mut *self.value
    }
}

/// A slot that holds one boxed value or none.
pub struct AtomicOptionBox<T> {
    value: Option<Box<T>>,
}

impl<T> AtomicOptionBox<T> {
    /// The value in the slot, if any.
    pub closed spec fn value(&self) -> Option<T> {
        match self.value {
            Some(b) => Some(*b),
            None => None,
        }
    }

    /// Creates a slot holding `value`.
    pub fn new(value: Option<Box<T>>) -> (slot: AtomicOptionBox<T>)
        ensures
            slot.value() == unboxed(value),
    {
        AtomicOptionBox { value }
    }

    /// Creates an empty slot.
    pub fn none() -> (slot: Self)
        ensures
            slot.value() is None,
    {
        AtomicOptionBox { value: None }
    }

    /// Puts `other` into the slot and returns what it held.
    pub fn swap(&mut self, other: Option<Box<T>>) -> (previous: Option<Box<T>>)
        ensures
            unboxed(previous) == old(self).value(),
            final(self).value() == unboxed(other),
    {
        let mut result = other;
        std::mem::swap(&mut self.value, &mut result);
        result
    }

    /// Puts `other` into the slot and drops what it held.
    pub fn store(&mut self, other: Option<Box<T>>)
        ensures
            final(self).value() == unboxed(other),
    {
        self.swap(other);
    }

    /// Empties the slot and returns what it held.
    pub fn take(&mut self) -> (previous: Option<Box<T>>)
        ensures
            unboxed(previous) == old(self).value(),
            final(self).value() is None,
    {
        self.swap(None)
    }

    /// Exchanges what the slot holds with `other`.
    pub fn swap_mut(&mut self, other: &mut Option<Box<T>>)
        ensures
            unboxed(*final(other)) == old(self).value(),
            final(self).value() == unboxed(*old(other)),
    {
        let previous = self.swap(other.take());
        *other = previous;
    }

    /// Consumes the slot, returning what it held.
    pub fn into_inner(self) -> (value: Option<Box<T>>)
        ensures
            unboxed(value) == self.value(),
    {
        self.value
    }

    /// Returns a mutable reference to the value in the slot, if any.
    pub fn get_mut(&mut self) -> (value: Option<&mut T>)
        ensures
            value is Some == old(self).value() is Some,
            value is Some ==> *value->Some_0 == old(self).value()->Some_0,
            value is None ==> final(self).value() is None,
            value is Some ==> final(self).value() == Some(*final(value->Some_0)),
    {
        match &mut self.value {
            Some(b) => Some(&mut **b),
            None => None,
        }
    }
}

/// The value an optional box holds.
pub open spec fn unboxed<T>(value: Option<Box<T>>) -> Option<T> {
    match value {
        Some(b) => Some(*b),
        None => None,
    }
}

} // verus!
