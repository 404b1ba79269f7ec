//! The CR3 register: the frame of the active root page table and its
//! caching flags.

use vstd::prelude::*;
use crate::frame::{is_frame_addr, Frame, PAGE_SIZE};

verus! {

/// Caching flags held in the low bits of CR3.
#[derive(Clone, Copy, Debug, PartialEq, Eq, Structural)]
pub struct CR3Flags(pub u64);

impl CR3Flags {
    pub const PAGE_LEVEL_WRITETHROUGH: u64 = 1 << 3;
    pub const PAGE_LEVEL_CACHE_DISABLE: u64 = 1 << 4;
    /// Every bit that names a flag.
    pub const ALL: u64 = 0x18;
}

/// The CR3 register.
pub struct CR3;

impl CR3 {
    /// The value to load into CR3 for the root table in `frame` with `flags`
    /// (no flags when `None`).
    pub fn value_of(frame: &Frame, flags: Option<CR3Flags>) -> (r: u64)
        requires
            frame@ < 0x10_0000_0000,
        ensures
            r == (frame@ * PAGE_SIZE) as u64 | match flags { Some(f) => f.0, None => 0 },
    {
        let addr = frame.addr();
        let bits = match flags {
            Some(f) => f.0,
            None => 0,
        };
        addr | bits
    }

    /// The root table's frame and the flags read back from the CR3 value
    /// `value`; the flags are `None` when `value` holds a set bit that names
    /// no flag (the address bits included).
    pub fn from_value(value: u64) -> (r: (Frame, Option<CR3Flags>))
        requires
            is_frame_addr(value & !0xFFFu64),
        ensures
            r.0@ == (value & !0xFFFu64) / PAGE_SIZE,
            r.1 == if value & !CR3Flags::ALL == 0 { Some(CR3Flags(value)) } else { None::<CR3Flags> },
    {
        let frame = Frame::from_addr(value & !0xFFFu64);
        let flags = if value & !0x18u64 == 0 { Some(CR3Flags(value)) } else { None };
        (frame, flags)
    }
}

} // verus!
