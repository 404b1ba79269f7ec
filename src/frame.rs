//! Physical frames: page-sized units of physical memory named by index.

use vstd::prelude::*;

verus! {

/// Size in bytes of a frame, and of a page.
pub const PAGE_SIZE: u64 = 0x1000;

/// The bits that a frame address may hold: a 52-bit physical address whose
/// low 12 bits are zero.
pub const FRAME_ADDR_MASK: u64 = 0x000F_FFFF_FFFF_F000;

/// Whether `addr` is the address of a frame: page aligned and below 2^52.
pub open spec fn is_frame_addr(addr: u64) -> bool {
    addr & !FRAME_ADDR_MASK == 0
}

/// A physical frame, identified by its index (its address divided by 4096).
#[derive(Clone, Copy, Debug, PartialEq, Eq, Structural)]
pub struct Frame(pub u64);

impl Frame {
    pub open spec fn view(&self) -> u64 {
        self.0
    }

    /// The frame with the given index.
    pub fn from_index(index: u64) -> (r: Frame)
        ensures
            r@ == index,
    {
        Frame(index)
    }

    /// The frame that starts at `addr`, which must be a frame address.
    pub fn from_addr(addr: u64) -> (r: Frame)
        requires
            is_frame_addr(addr),
        ensures
            r@ == addr / PAGE_SIZE,
            r@ * PAGE_SIZE == addr,
    {
        proof {
            assert(addr & !FRAME_ADDR_MASK == 0 ==> addr % 0x1000 == 0) by (bit_vector);
        }
        Frame(addr / 0x1000)
    }

    /// The frame's index.
    pub fn index(&self) -> (r: u64)
        ensures
            r == self@,
    {
        self.0
    }

    /// The frame's physical address; the frame must lie below 2^52.
    pub fn addr(&self) -> (r: u64)
        requires
            self@ < 0x10_0000_0000,
        ensures
            r == self@ * PAGE_SIZE,
    {
        self.0 * 0x1000
    }

    /// The frames from the one at `range.start` up to, not including, the one at
    /// `range.end`; both must be frame addresses.
    pub fn range(range: core::ops::Range<u64>) -> (r: FrameIterator)
        requires
            is_frame_addr(range.start),
            is_frame_addr(range.end),
        ensures
            r.current@ == range.start / PAGE_SIZE,
            r.end@ == range.end / PAGE_SIZE,
    {
        FrameIterator { current: Frame::from_addr(range.start), end: Frame::from_addr(range.end) }
    }
}

/// Walks a run of frames in increasing order.
pub struct FrameIterator {
    pub current: Frame,
    pub end: Frame,
}

impl FrameIterator {
    /// The next frame of the run, or `None` once it is exhausted.
    pub fn next(&mut self) -> (r: Option<Frame>)
        ensures
            old(self).current@ < old(self).end@ ==> r == Some(old(self).current)
                && final(self).current@ == old(self).current@ + 1
                && final(self).end == old(self).end,
            old(self).current@ >= old(self).end@ ==> r.is_none() && *final(self) == *old(self),
    {
        if self.current.0 < self.end.0 {
            let frame = self.current;
            self.current.0 = self.current.0 + 1;
            Some(frame)
        } else {
            None
        }
    }
}

} // verus!
