//! The global allocator front: the one allocator that serves every dynamic
//! allocation of the kernel, installed once during bring-up.
//!
//! The front is an explicit handle, a `SyncOnceCell`, that bring-up fills
//! with `set` and every user reads with `get`.

use vstd::prelude::*;
use crate::cell::SyncOnceCell;
use crate::ledger::FrameAllocator;
use crate::mapper::{backed_by, Mapper};
use crate::ledger::free_count;
use crate::slob::{align_step, alloc_step, blocks_for, free_step, next_len, run_fits, span_ok, AllocError, SLOB};

verus! {

/// An allocator that can serve the kernel's dynamic allocations.
pub trait MemoryAllocator {
    /// The allocator's own consistency condition.
    spec fn inv(&self) -> bool;

    /// Allocates `size` bytes aligned to `align`; returns the address.
    fn allocate(&mut self, size: usize, align: usize) -> (r: Result<usize, AllocError>)
        requires
            old(self).inv(),
        ensures
            final(self).inv();

    /// Whether the `size` bytes at `addr` are allocated and not freed since.
    spec fn allocated(&self, addr: usize, size: usize) -> bool;

    /// Tells whether the `size` bytes at `addr` are allocated.
    fn is_allocated(&self, addr: usize, size: usize) -> (r: bool)
        requires
            self.inv(),
        ensures
            r == self.allocated(addr, size);

    /// Frees the `size` bytes at `addr` that `allocate` handed out; they must
    /// still be allocated.
    fn deallocate(&mut self, addr: usize, size: usize)
        requires
            old(self).inv(),
            old(self).allocated(addr, size),
        ensures
            final(self).inv();

    /// The alignment that every allocation has.
    fn minimum_alignment(&self) -> (r: usize)
        ensures
            r >= 1;
}

/// The kernel heap: the block allocator with the address space it lives in
/// and the frame ledger that backs it.
pub struct KernelHeap {
    heap: SLOB,
    mapper: Mapper,
    frames: FrameAllocator,
}

impl KernelHeap {
    /// The block allocator.
    pub closed spec fn heap_spec(&self) -> SLOB {
        self.heap
    }

    /// The heap's address space.
    pub closed spec fn mapper_spec(&self) -> Mapper {
        self.mapper
    }

    /// The frame ledger behind the heap.
    pub closed spec fn frames_spec(&self) -> FrameAllocator {
        self.frames
    }

    /// The block allocator.
    pub fn heap(&self) -> (r: &SLOB)
        ensures
            *r == self.heap_spec(),
    {
        &self.heap
    }

    /// The heap's address space.
    pub fn mapper(&self) -> (r: &Mapper)
        ensures
            *r == self.mapper_spec(),
    {
        &self.mapper
    }

    /// The frame ledger behind the heap.
    pub fn frames(&self) -> (r: &FrameAllocator)
        ensures
            *r == self.frames_spec(),
    {
        &self.frames
    }

    /// A heap in a fresh address space, backed by `frames`.
    pub fn new(frames: FrameAllocator) -> (r: Result<KernelHeap, AllocError>)
        ensures
            r matches Ok(k) ==> k.inv() && forall|b: int| !#[trigger] k.heap_spec().client_used(b),
            r is Ok <==> exists|j: int| 0 <= j < frames@.len() && !#[trigger] frames@[j],
    {
        let mut frames = frames;
        let mut mapper = Mapper::new();
        match SLOB::new(&mut mapper, &mut frames) {
            Ok(heap) => Ok(KernelHeap { heap, mapper, frames }),
            Err(e) => Err(e),
        }
    }
}

impl MemoryAllocator for KernelHeap {
    closed spec fn inv(&self) -> bool {
        self.heap.wf(self.mapper) && backed_by(self.mapper, self.frames@)
    }

    fn allocate(&mut self, size: usize, align: usize) -> (r: Result<usize, AllocError>)
        ensures
            r matches Ok(addr) ==> alloc_step(old(self).heap_spec(), final(self).heap_spec(),
                (addr / 64) as int, blocks_for(size)),
            r is Err ==> forall|b: int| #[trigger] final(self).heap_spec().client_used(b)
                == old(self).heap_spec().client_used(b),
            (exists|t: int| run_fits(old(self).heap_spec(), t, blocks_for(size), align_step(align)))
                && free_count(old(self).frames_spec()@) >= blocks_for(size) / 64 + 2 ==> r is Ok,
            r == Err::<usize, AllocError>(AllocError::OutOfMemory)
                ==> !span_ok(next_len(final(self).heap_spec().words().len(), blocks_for(size) as nat))
                && forall|t: int| !#[trigger] run_fits(final(self).heap_spec(), t, blocks_for(size), align_step(align)),
            r == Err::<usize, AllocError>(AllocError::OutOfFrames) ==> {
                ||| (exists|t: int| run_fits(final(self).heap_spec(), t, blocks_for(size), align_step(align)))
                    && free_count(final(self).frames_spec()@) < blocks_for(size) / 64 + 2
                ||| (forall|t: int| !#[trigger] run_fits(final(self).heap_spec(), t, blocks_for(size), align_step(align)))
                    && span_ok(next_len(final(self).heap_spec().words().len(), blocks_for(size) as nat))
                    && free_count(final(self).frames_spec()@) < (next_len(final(self).heap_spec().words().len(),
                        blocks_for(size) as nat) / 512) as int - final(self).heap_spec().pages()
            },
    {
        self.heap.allocate(size, align, &mut self.mapper, &mut self.frames)
    }

    open spec fn allocated(&self, addr: usize, size: usize) -> bool {
        forall|b: int| (addr / 64) as int <= b < (addr / 64) as int + blocks_for(size)
            ==> #[trigger] self.heap_spec().client_used(b)
    }

    fn is_allocated(&self, addr: usize, size: usize) -> (r: bool) {
        let r = self.heap.is_allocated(addr, size);
        assert(self.heap_spec() == self.heap);
        assert(r == forall|b: int| (addr / 64) as int <= b < (addr / 64) as int + blocks_for(size)
            ==> #[trigger] self.heap_spec().client_used(b));
        r
    }

    fn deallocate(&mut self, addr: usize, size: usize)
        ensures
            free_step(old(self).heap_spec(), final(self).heap_spec(), (addr / 64) as int, blocks_for(size)),
    {
        assert(old(self).heap_spec() == self.heap);
        assert forall|b: int| (addr / 64) as int <= b < (addr / 64) as int + blocks_for(size)
            implies #[trigger] self.heap.client_used(b) by {
            assert(old(self).heap_spec().client_used(b));
        }
        self.heap.deallocate(addr, size, &mut self.mapper, &mut self.frames)
    }

    fn minimum_alignment(&self) -> (r: usize) {
        SLOB::BLOCK_SIZE
    }
}

/// Installs `allocator` in the front; a front that holds one already keeps
/// it and hands `allocator` back.
pub fn set<A: MemoryAllocator>(front: &mut SyncOnceCell<A>, allocator: A) -> (r: Result<(), A>)
    ensures
        old(front)@ is None ==> r is Ok && final(front)@ == Some(allocator),
        old(front)@ is Some ==> r == Err::<(), A>(allocator) && final(front)@ == old(front)@,
{
    front.set(allocator)
}

/// The allocator installed in the front, which must hold one.
pub fn get<A: MemoryAllocator>(front: &SyncOnceCell<A>) -> (r: &A)
    requires
        front@ is Some,
    ensures
        front@ == Some(*r),
{
    front.get().unwrap()
}

} // verus!
