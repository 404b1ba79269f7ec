//! A cursor that runs over `0 .. max` and wraps back to 0.

use vstd::prelude::*;

verus! {

/// An index that counts up modulo a fixed bound.
pub struct IndexRing {
    current: usize,
    max: usize,
}

impl IndexRing {
    /// The index's value.
    pub closed spec fn current(&self) -> nat {
        self.current as nat
    }

    /// The bound that the index wraps at.
    pub closed spec fn max(&self) -> nat {
        self.max as nat
    }

    /// The index stays below its bound.
    pub open spec fn wf(&self) -> bool {
        self.current() < self.max()
    }

    /// A ring over `0 .. max`, starting at 0; `max` must be positive.
    pub fn new(max: usize) -> (r: IndexRing)
        requires
            max > 0,
        ensures
            r.wf(),
            r.current() == 0,
            r.max() == max,
    {
        IndexRing { current: 0, max }
    }

    /// The current index.
    pub fn index(&self) -> (r: usize)
        ensures
            r == self.current(),
    {
        self.current
    }

    /// Moves to the next index, wrapping at the bound.
    pub fn increment(&mut self)
        requires
            old(self).wf(),
        ensures
            final(self).wf(),
            final(self).max() == old(self).max(),
            final(self).current() == (old(self).current() + 1) % old(self).max(),
    {
        self.current = self.next_index();
    }

    /// The index after the current one, wrapping at the bound.
    pub fn next_index(&self) -> (r: usize)
        requires
            self.wf(),
        ensures
            r == (self.current() + 1) % self.max(),
    {
        (self.current + 1) % self.max
    }
}

} // verus!
