//! Cells that hand out a value shared across the kernel.
//!
//! A `SyncOnceCell` is written once, during bring-up, and read afterwards;
//! the write takes the cell by `&mut`, so the one write is ordered before
//! every read by the borrow rules rather than by a lock.

use vstd::prelude::*;

verus! {

/// A cell that holds a value for the kernel's lifetime.
pub struct SyncCell<T> {
    value: T,
}

impl<T> SyncCell<T> {
    /// The value held.
    pub closed spec fn view(&self) -> T {
        self.value
    }

    /// A cell holding `val`.
    pub fn new(val: T) -> (r: SyncCell<T>)
        ensures
            r@ == val,
    {
        SyncCell { value: val }
    }

    /// The value held.
    pub fn get(&self) -> (r: &T)
        ensures
            *r == self@,
    {
        &self.value
    }
}

/// A cell that is written at most once.
pub struct SyncOnceCell<T> {
    inner: Option<T>,
}

impl<T> SyncOnceCell<T> {
    /// The value, once written.
    pub closed spec fn view(&self) -> Option<T> {
        self.inner
    }

    /// An empty cell.
    pub fn new() -> (r: SyncOnceCell<T>)
        ensures
            r@ is None,
    {
        SyncOnceCell { inner: None }
    }

    /// Writes `obj` into an empty cell; a full cell keeps its value and
    /// hands `obj` back.
    pub fn set(&mut self, obj: T) -> (r: Result<(), T>)
        ensures
            old(self)@ is None ==> r is Ok && final(self)@ == Some(obj),
            old(self)@ is Some ==> r == Err::<(), T>(obj) && final(self)@ == old(self)@,
    {
        if self.inner.is_some() {
            Err(obj)
        } else {
            self.inner = Some(obj);
            Ok(())
        }
    }

    /// The value, once written.
    pub fn get(&self) -> (r: Option<&T>)
        ensures
            r matches Some(v) ==> self@ == Some(*v),
            r is None <==> self@ is None,
    {
        match &self.inner {
            Some(v) => Some(v),
            None => None,
        }
    }

    /// The value, once written, to be changed in place.
    pub fn get_mut(&mut self) -> (r: Option<&mut T>)
        ensures
            r is None <==> old(self)@ is None,
            r is None ==> final(self)@ is None,
            r matches Some(v) ==> old(self)@ == Some(*v) && final(self)@ == Some(*final(v)),
    {
        match &mut self.inner {
            Some(v) => Some(v),
            None => None,
        }
    }
}

} // verus!
