//! The page mapper: a four-level page table from virtual page numbers to
//! physical frames with their attributes. Frames that it backs pages with
//! come from the frame ledger.

use vstd::prelude::*;
use crate::frame::Frame;
use crate::ledger::{next_frame_step, release_run, FrameAllocator};
use crate::table::{PageTable, PAGE_LIMIT};

verus! {

/// Why a mapping operation failed.
#[derive(Clone, Copy, Debug, PartialEq, Eq, Structural)]
pub enum MapError {
    /// The page is already mapped; it must be unmapped first.
    AlreadyMapped,
    /// The page is not mapped.
    NotMapped,
    /// The frame ledger has no free frame to back the page.
    NoFrames,
}

/// Attributes of a mapping, as the bits of a page table entry.
#[derive(Clone, Copy, Debug, PartialEq, Eq, Structural)]
pub struct PageAttributes(pub u64);

impl PageAttributes {
    pub const PRESENT: u64 = 1 << 0;
    pub const WRITABLE: u64 = 1 << 1;
    pub const USER: u64 = 1 << 2;
    pub const WRITE_THROUGH: u64 = 1 << 3;
    pub const UNCACHEABLE: u64 = 1 << 4;
    pub const HUGE: u64 = 1 << 7;
    pub const GLOBAL: u64 = 1 << 8;
    pub const NO_EXECUTE: u64 = 1 << 63;
    /// Kernel data: present, writable, not executable.
    pub const DATA: u64 = (1 << 0) | (1 << 1) | (1 << 63);
}

/// One mapping: the frame a page maps to, and the mapping's attributes.
#[derive(Clone, Copy, Debug, PartialEq, Eq, Structural)]
pub struct PageEntry {
    pub frame: u64,
    pub attributes: PageAttributes,
}

/// The page table of one address space.
pub struct Mapper {
    table: PageTable,
}

/// Whether every mapped page's frame is marked used in `ledger`, and no two
/// pages share a frame.
pub open spec fn backed_by(mapper: Mapper, ledger: Seq<bool>) -> bool {
    &&& forall|p: int| #[trigger] mapper.frame_of(p) is Some ==> mapper.frame_of(p).unwrap() < ledger.len()
        && ledger[mapper.frame_of(p).unwrap() as int]
    &&& forall|p: int, q: int| #![trigger mapper.frame_of(p), mapper.frame_of(q)]
        p != q && mapper.frame_of(p) is Some && mapper.frame_of(q) is Some
        ==> mapper.frame_of(p) != mapper.frame_of(q)
}

/// Moving a mapping from `src` to `dst`, by mapping `dst` to the frame of
/// `src` and then unmapping `src` without freeing, keeps every mapped frame
/// used and unshared.
pub proof fn lemma_move_keeps_backed(m0: Mapper, m1: Mapper, m2: Mapper, ledger: Seq<bool>, src: int, dst: int)
    requires
        backed_by(m0, ledger),
        src != dst,
        m0.frame_of(src) is Some,
        m0.frame_of(dst) is None,
        forall|p: int| #[trigger] m1.frame_of(p) == if p == dst { m0.frame_of(src) } else { m0.frame_of(p) },
        forall|p: int| #[trigger] m2.frame_of(p) == if p == src { None } else { m1.frame_of(p) },
    ensures
        backed_by(m2, ledger),
        forall|p: int| #[trigger] m2.frame_of(p) == if p == src { None } else if p == dst { m0.frame_of(src) }
            else { m0.frame_of(p) },
{
    assert forall|p: int| #[trigger] m2.frame_of(p) == if p == src { None } else if p == dst { m0.frame_of(src) }
        else { m0.frame_of(p) } by {
        assert(m1.frame_of(p) == if p == dst { m0.frame_of(src) } else { m0.frame_of(p) });
    }
    assert forall|p: int| #[trigger] m2.frame_of(p) is Some implies m2.frame_of(p).unwrap() < ledger.len()
        && ledger[m2.frame_of(p).unwrap() as int] by {
        assert(m1.frame_of(p) == if p == dst { m0.frame_of(src) } else { m0.frame_of(p) });
        if p == dst {
            assert(m0.frame_of(src) is Some);
        } else {
            assert(m0.frame_of(p) is Some);
        }
    }
    assert forall|p: int, q: int| #![trigger m2.frame_of(p), m2.frame_of(q)]
        p != q && m2.frame_of(p) is Some && m2.frame_of(q) is Some implies m2.frame_of(p) != m2.frame_of(q) by {
        assert(m1.frame_of(p) == if p == dst { m0.frame_of(src) } else { m0.frame_of(p) });
        assert(m1.frame_of(q) == if q == dst { m0.frame_of(src) } else { m0.frame_of(q) });
        let pp = if p == dst { src } else { p };
        let qq = if q == dst { src } else { q };
        assert(m0.frame_of(pp) is Some && m0.frame_of(qq) is Some);
        assert(pp != qq);
        assert(m0.frame_of(pp) != m0.frame_of(qq));
    }
}

impl Mapper {
    /// The mapping of `page`, if any; pages from `PAGE_LIMIT` on are unmapped.
    pub closed spec fn entry_of(&self, page: int) -> Option<PageEntry> {
        self.table.lookup(page)
    }

    /// The frame that `page` maps to, if any.
    pub open spec fn frame_of(&self, page: int) -> Option<u64> {
        match self.entry_of(page) {
            Some(e) => Some(e.frame),
            None => None,
        }
    }

    /// Whether `self` is `old` with only `page` changed, to `entry`.
    pub open spec fn is_update(&self, old: Mapper, page: int, entry: Option<PageEntry>) -> bool {
        forall|p: int| #[trigger] self.entry_of(p) == if p == page { entry } else { old.entry_of(p) }
    }

    /// An address space with no page mapped.
    pub fn new() -> (r: Mapper)
        ensures
            forall|p: int| #[trigger] r.entry_of(p) is None,
    {
        Mapper { table: PageTable::new() }
    }

    /// The mapping of `page`, if any.
    pub fn entry(&self, page: usize) -> (r: Option<PageEntry>)
        ensures
            r == self.entry_of(page as int),
    {
        self.table.get(page)
    }

    /// The frame that `page` maps to, if any.
    pub fn frame_at(&self, page: usize) -> (r: Option<u64>)
        ensures
            r == self.frame_of(page as int),
    {
        match self.entry(page) {
            Some(e) => Some(e.frame),
            None => None,
        }
    }

    /// Writes `entry` for `page`.
    fn set_entry(&mut self, page: usize, entry: Option<PageEntry>)
        requires
            page < PAGE_LIMIT,
        ensures
            final(self).is_update(*old(self), page as int, entry),
    {
        self.table.set(page, entry);
    }

    /// Maps `page` to `frame` with `attributes`. A page that is already
    /// mapped is refused.
    pub fn map(&mut self, page: usize, frame: Frame, attributes: PageAttributes) -> (r: Result<(), MapError>)
        requires
            page < PAGE_LIMIT,
        ensures
            r is Ok <==> old(self).frame_of(page as int) is None,
            r is Ok ==> final(self).is_update(*old(self), page as int,
                Some(PageEntry { frame: frame@, attributes })),
            r is Err ==> r == Err::<(), MapError>(MapError::AlreadyMapped) && *final(self) == *old(self),
    {
        if self.entry(page).is_some() {
            return Err(MapError::AlreadyMapped);
        }
        self.set_entry(page, Some(PageEntry { frame: frame.0, attributes }));
        Ok(())
    }

    /// Backs `page` with the lowest free frame of the ledger and maps it with
    /// `attributes`.
    pub fn auto_map(&mut self, page: usize, attributes: PageAttributes, frames: &mut FrameAllocator)
        -> (r: Result<Frame, MapError>)
        requires
            page < PAGE_LIMIT,
        ensures
            old(self).frame_of(page as int) is Some ==> r == Err::<Frame, MapError>(MapError::AlreadyMapped)
                && *final(self) == *old(self) && final(frames)@ == old(frames)@,
            old(self).frame_of(page as int) is None ==> {
                &&& r is Ok <==> exists|j: int| 0 <= j < old(frames)@.len() && !#[trigger] old(frames)@[j]
                &&& r matches Ok(f) ==> next_frame_step(old(frames)@, final(frames)@, f@ as int)
                    && final(self).is_update(*old(self), page as int, Some(PageEntry { frame: f@, attributes }))
                &&& r is Err ==> r == Err::<Frame, MapError>(MapError::NoFrames)
                    && *final(self) == *old(self) && final(frames)@ == old(frames)@
            },
            backed_by(*old(self), old(frames)@) ==> backed_by(*final(self), final(frames)@),
    {
        if self.entry(page).is_some() {
            return Err(MapError::AlreadyMapped);
        }
        let ghost m0 = *self;
        let ghost f0 = frames@;
        match frames.next_frame() {
            Ok(frame) => {
                self.set_entry(page, Some(PageEntry { frame: frame.0, attributes }));
                proof {
                    if backed_by(m0, f0) {
                        assert forall|p: int| #[trigger] self.frame_of(p) is Some implies self.frame_of(p).unwrap()
                            < frames@.len() && frames@[self.frame_of(p).unwrap() as int] by {
                            assert(self.entry_of(p) == if p == page { Some(PageEntry { frame: frame.0, attributes }) }
                                else { m0.entry_of(p) });
                            if p != page {
                                assert(m0.frame_of(p) is Some);
                            }
                        }
                        assert forall|p: int, q: int| #![trigger self.frame_of(p), self.frame_of(q)]
                            p != q && self.frame_of(p) is Some && self.frame_of(q) is Some
                            implies self.frame_of(p) != self.frame_of(q) by {
                            assert(self.entry_of(p) == if p == page { Some(PageEntry { frame: frame.0, attributes }) }
                                else { m0.entry_of(p) });
                            assert(self.entry_of(q) == if q == page { Some(PageEntry { frame: frame.0, attributes }) }
                                else { m0.entry_of(q) });
                            if p != page && q != page {
                                assert(m0.frame_of(p) != m0.frame_of(q));
                            } else if p == page {
                                assert(m0.frame_of(q) is Some);
                                assert(f0[m0.frame_of(q).unwrap() as int]);
                            } else {
                                assert(m0.frame_of(p) is Some);
                                assert(f0[m0.frame_of(p).unwrap() as int]);
                            }
                        }
                    }
                }
                Ok(frame)
            },
            Err(_) => Err(MapError::NoFrames),
        }
    }

    /// Removes the mapping of `page`; with `free_backing`, its frame is also
    /// marked free in the ledger.
    pub fn unmap(&mut self, page: usize, free_backing: bool, frames: &mut FrameAllocator) -> (r: Result<(), MapError>)
        requires
            page < PAGE_LIMIT,
        ensures
            r is Ok <==> old(self).frame_of(page as int) is Some,
            r is Ok ==> final(self).is_update(*old(self), page as int, None),
            r is Ok && free_backing ==> final(frames)@
                == release_run(old(frames)@, old(self).frame_of(page as int).unwrap() as int, 1),
            r is Ok && !free_backing ==> final(frames)@ == old(frames)@,
            r is Err ==> r == Err::<(), MapError>(MapError::NotMapped) && *final(self) == *old(self)
                && final(frames)@ == old(frames)@,
            backed_by(*old(self), old(frames)@) ==> backed_by(*final(self), final(frames)@),
    {
        let ghost m0 = *self;
        let ghost f0 = frames@;
        match self.entry(page) {
            Some(e) => {
                self.set_entry(page, None);
                if free_backing {
                    let ghost before = frames@;
                    let _ = frames.free_frame(Frame(e.frame));
                    assert(frames@ =~= release_run(before, e.frame as int, 1));
                }
                proof {
                    if backed_by(m0, f0) {
                        assert forall|p: int| #[trigger] self.frame_of(p) is Some implies self.frame_of(p).unwrap()
                            < frames@.len() && frames@[self.frame_of(p).unwrap() as int] by {
                            assert(self.entry_of(p) == if p == page { None } else { m0.entry_of(p) });
                            assert(m0.frame_of(p) is Some);
                            assert(m0.frame_of(p) != m0.frame_of(page as int));
                        }
                        assert forall|p: int, q: int| #![trigger self.frame_of(p), self.frame_of(q)]
                            p != q && self.frame_of(p) is Some && self.frame_of(q) is Some
                            implies self.frame_of(p) != self.frame_of(q) by {
                            assert(self.entry_of(p) == if p == page { None } else { m0.entry_of(p) });
                            assert(self.entry_of(q) == if q == page { None } else { m0.entry_of(q) });
                            assert(m0.frame_of(p) != m0.frame_of(q));
                        }
                    }
                }
                Ok(())
            },
            None => Err(MapError::NotMapped),
        }
    }

    /// Maps `dst_page` to the frame that `src_page` maps to, without copying,
    /// with `attributes`, or with those of `src_page` when `None`.
    pub fn copy_by_map(&mut self, src_page: usize, dst_page: usize, attributes: Option<PageAttributes>)
        -> (r: Result<(), MapError>)
        requires
            dst_page < PAGE_LIMIT,
        ensures
            r is Ok <==> old(self).frame_of(src_page as int) is Some && old(self).frame_of(dst_page as int) is None,
            r is Ok ==> final(self).is_update(*old(self), dst_page as int, Some(PageEntry {
                frame: old(self).entry_of(src_page as int).unwrap().frame,
                attributes: match attributes {
                    Some(a) => a,
                    None => old(self).entry_of(src_page as int).unwrap().attributes,
                },
            })),
            old(self).frame_of(src_page as int) is None ==> r == Err::<(), MapError>(MapError::NotMapped)
                && *final(self) == *old(self),
            old(self).frame_of(src_page as int) is Some && old(self).frame_of(dst_page as int) is Some
                ==> r == Err::<(), MapError>(MapError::AlreadyMapped) && *final(self) == *old(self),
    {
        match self.entry(src_page) {
            Some(e) => {
                if self.entry(dst_page).is_some() {
                    return Err(MapError::AlreadyMapped);
                }
                let attributes = match attributes {
                    Some(a) => a,
                    None => e.attributes,
                };
                self.set_entry(dst_page, Some(PageEntry { frame: e.frame, attributes }));
                Ok(())
            },
            None => Err(MapError::NotMapped),
        }
    }
}

} // verus!
