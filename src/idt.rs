//! The interrupt descriptor table: one vector per interrupt number.

use vstd::prelude::*;

verus! {

/// The interrupts that a handler can be installed for by name, or by number
/// for the general vectors 32 to 255.
#[allow(non_camel_case_types)]
#[derive(Clone, Copy, Debug, PartialEq, Eq, Structural)]
pub enum InterruptType {
    DivideError,
    Debug,
    NonMaskableInterupt,
    Breakpoint,
    Overflow,
    BoundRangeExceeded,
    InvalidOpcode,
    DeviceNotAvailable,
    CoprocessorSegmentOverrun,
    x87FloatingPoint,
    SIMDFloatingPoint,
    Virtualization,
    Generic(usize),
}

/// The vector number of each interrupt.
pub open spec fn vector_of(t: InterruptType) -> int {
    match t {
        InterruptType::DivideError => 0,
        InterruptType::Debug => 1,
        InterruptType::NonMaskableInterupt => 2,
        InterruptType::Breakpoint => 3,
        InterruptType::Overflow => 4,
        InterruptType::BoundRangeExceeded => 5,
        InterruptType::InvalidOpcode => 6,
        InterruptType::DeviceNotAvailable => 7,
        InterruptType::CoprocessorSegmentOverrun => 9,
        InterruptType::x87FloatingPoint => 16,
        InterruptType::SIMDFloatingPoint => 19,
        InterruptType::Virtualization => 20,
        InterruptType::Generic(i) => i as int,
    }
}

/// Whether an interrupt can be reached by index: a general number must lie
/// in 32 to 255 (lower numbers are reserved, take an error code, or must not
/// return, and have fields of their own).
pub open spec fn indexable(t: InterruptType) -> bool {
    match t {
        InterruptType::Generic(i) => 32 <= i <= 255,
        _ => true,
    }
}

/// One vector of the table: the handler's address, and whether it is set.
#[derive(Clone, Copy, Debug, PartialEq, Eq, Structural)]
pub struct InterruptVector {
    pub handler: u64,
    pub present: bool,
}

impl InterruptVector {
    /// A vector with no handler.
    pub fn missing() -> (r: InterruptVector)
        ensures
            !r.present,
            r.handler == 0,
    {
        InterruptVector { handler: 0, present: false }
    }

    /// Installs the handler at `handler`.
    pub fn set_handler(&mut self, handler: u64)
        ensures
            final(self).present,
            final(self).handler == handler,
    {
        self.handler = handler;
        self.present = true;
    }
}

/// The table of the 256 interrupt vectors.
pub struct InterruptDescriptorTable {
    entries: Vec<InterruptVector>,
}

impl InterruptDescriptorTable {
    /// The vectors, by number.
    pub closed spec fn view(&self) -> Seq<InterruptVector> {
        self.entries@
    }

    /// The table holds 256 vectors.
    pub open spec fn wf(&self) -> bool {
        self@.len() == 256
    }

    /// A table with every vector missing.
    pub fn new() -> (r: InterruptDescriptorTable)
        ensures
            r.wf(),
            forall|i: int| 0 <= i < 256 ==> #[trigger] r@[i] == (InterruptVector { handler: 0, present: false }),
    {
        let mut entries: Vec<InterruptVector> = Vec::new();
        let mut i: usize = 0;
        while i < 256
            invariant
                i <= 256,
                entries@.len() == i,
                forall|k: int| 0 <= k < i ==> #[trigger] entries@[k] == (InterruptVector { handler: 0, present: false }),
            decreases 256 - i,
        {
            entries.push(InterruptVector::missing());
            i = i + 1;
        }
        InterruptDescriptorTable { entries }
    }

    /// Sets every vector missing again.
    pub fn reset(&mut self)
        ensures
            final(self).wf(),
            forall|i: int| 0 <= i < 256 ==> #[trigger] final(self)@[i] == (InterruptVector { handler: 0, present: false }),
    {
        *self = InterruptDescriptorTable::new();
    }

    /// The vector number of an interrupt that can be reached by index.
    fn vector(index: InterruptType) -> (r: usize)
        requires
            indexable(index),
        ensures
            r == vector_of(index),
            r < 256,
    {
        match index {
            InterruptType::DivideError => 0,
            InterruptType::Debug => 1,
            InterruptType::NonMaskableInterupt => 2,
            InterruptType::Breakpoint => 3,
            InterruptType::Overflow => 4,
            InterruptType::BoundRangeExceeded => 5,
            InterruptType::InvalidOpcode => 6,
            InterruptType::DeviceNotAvailable => 7,
            InterruptType::CoprocessorSegmentOverrun => 9,
            InterruptType::x87FloatingPoint => 16,
            InterruptType::SIMDFloatingPoint => 19,
            InterruptType::Virtualization => 20,
            InterruptType::Generic(i) => i,
        }
    }

    /// The vector of the interrupt `index`.
    pub fn index(&self, index: InterruptType) -> (r: &InterruptVector)
        requires
            self.wf(),
            indexable(index),
        ensures
            *r == self@[vector_of(index)],
    {
        &self.entries[InterruptDescriptorTable::vector(index)]
    }

    /// The vector of the interrupt `index`, to be changed in place.
    pub fn index_mut(&mut self, index: InterruptType) -> (r: &mut InterruptVector)
        requires
            old(self).wf(),
            indexable(index),
        ensures
            *r == old(self)@[vector_of(index)],
            final(self)@ == old(self)@.update(vector_of(index), *final(r)),
    {
        let v = InterruptDescriptorTable::vector(index);
        &mut self.entries[v]
    }
}

} // verus!
