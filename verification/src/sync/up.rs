//! A cell for state that one holder at a time may use.

use vstd::prelude::*;

verus! {

/// A cell that hands its value out to one holder at a time. The exclusive borrow of
/// the cell stands for the lock: while the value is handed out, nobody else can reach
/// the cell.
pub struct UPSafeCell<T> {
    inner: T,
}

impl<T> UPSafeCell<T> {
    /// The value in the cell.
    pub closed spec fn value(&self) -> T {
        self.inner
    }

    /// A cell that holds `value`.
    pub fn new(value: T) -> (r: Self)
        ensures
            r.value() == value,
    {
        UPSafeCell { inner: value }
    }

    /// Hands the value out for exclusive use; what the holder leaves is what the cell
    /// holds afterwards.
    pub fn exclusive_access(&mut self) -> (r: &mut T)
        ensures
            *r == old(self).value(),
            final(self).value() == *final(r),
    {
        &mut self.inner
    }

    /// Looks at the value without changing it.
    pub fn get(&self) -> (r: &T)
        ensures
            *r == self.value(),
    {
        &self.inner
    }

    /// Takes the value out of the cell, which ends with this.
    pub fn into_inner(self) -> (r: T)
        ensures
            r == self.value(),
    {
        self.inner
    }
}

} // verus!
