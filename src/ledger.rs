//! The frame ledger: one bit per physical frame, `true` for a frame in use,
//! and the physical memory manager that hands frames out of it.

use vstd::prelude::*;
use crate::bits::{bits_of, FrameBits};
use crate::frame::{Frame, PAGE_SIZE};

verus! {

/// Why a ledger operation failed.
#[derive(Clone, Copy, Debug, PartialEq, Eq, Structural)]
pub enum Error {
    /// There are not enough free frames to satisfy the request.
    NoneFree,
    /// Given alignment is invalid (e.g. not a power-of-two).
    InvalidAlignment,
    /// The provided frame index was out of bounds of the frame table.
    OutOfBounds,
    /// Attempted to lock a frame that wasn't free.
    NotFree,
    /// Attempted to free a frame that wasn't locked.
    NotLocked,
    TypeMismatch,
    Unknown,
}

/// The kind of a region of physical memory, as the firmware reports it.
#[derive(Clone, Copy, Debug, PartialEq, Eq, Structural)]
pub enum FrameType {
    Unusable,
    Generic,
    Reserved,
    BootReclaim,
    AcpiReclaim,
}

/// The code of each frame type.
pub open spec fn frame_type_code(t: FrameType) -> u8 {
    match t {
        FrameType::Unusable => 0,
        FrameType::Generic => 1,
        FrameType::Reserved => 2,
        FrameType::BootReclaim => 3,
        FrameType::AcpiReclaim => 4,
    }
}

impl FrameType {
    /// The frame type whose code is `value`; codes above 4 have none.
    pub fn from_u8(value: u8) -> (r: FrameType)
        requires
            value <= 4,
        ensures
            frame_type_code(r) == value,
    {
        match value {
            0 => FrameType::Unusable,
            1 => FrameType::Generic,
            2 => FrameType::Reserved,
            3 => FrameType::BootReclaim,
            _ => FrameType::AcpiReclaim,
        }
    }

    /// The code of this frame type.
    pub fn as_u8(self) -> (r: u8)
        ensures
            r == frame_type_code(self),
    {
        match self {
            FrameType::Unusable => 0,
            FrameType::Generic => 1,
            FrameType::Reserved => 2,
            FrameType::BootReclaim => 3,
            FrameType::AcpiReclaim => 4,
        }
    }
}

/// A range `[start, end)` of physical addresses, from the firmware memory map.
#[derive(Clone, Copy, Debug, PartialEq, Eq, Structural)]
pub struct MemoryRegion {
    pub start: usize,
    pub end: usize,
}

/// Bits that one page of the ledger holds.
pub const BITS_PER_PAGE: usize = 0x8000;

/// Number of frames that the ledger of `frames` frames occupies.
pub open spec fn ledger_frames(frames: nat) -> nat {
    (frames + 0x7FFF) as nat / 0x8000
}

/// Whether `region` can hold a ledger of `bytes` bytes: page aligned and long enough.
pub open spec fn can_hold(region: MemoryRegion, bytes: nat) -> bool {
    region.start % 0x1000 == 0 && region.start <= region.end && region.end - region.start >= bytes
}

/// Whether the `count` bits from `start` are all clear.
pub open spec fn run_free(bits: Seq<bool>, start: int, count: int) -> bool {
    forall|j: int| start <= j < start + count ==> !#[trigger] bits[j]
}

/// Whether a run of `count` frames may start at `start`: inside the ledger,
/// on a multiple of `stride`, and all free.
pub open spec fn fits_run(bits: Seq<bool>, start: int, count: int, stride: int) -> bool {
    0 <= start && start + count <= bits.len() && start % stride == 0 && run_free(bits, start, count)
}

/// The ledger after the `count` bits from `start` are set.
pub open spec fn claim_run(bits: Seq<bool>, start: int, count: int) -> Seq<bool> {
    Seq::new(bits.len(), |j: int| if start <= j < start + count { true } else { bits[j] })
}

/// The stride, in frames, between candidate starts of a run for the given
/// alignment request (in bytes).
pub open spec fn align_stride(align: Option<u32>) -> int {
    match align {
        Some(a) if a >= 0x2000 => (a / 0x1000) as int,
        _ => 1,
    }
}

/// Whether `after` is the ledger `before` once `next_frame` has handed out
/// frame `f`: the lowest free frame, now marked used.
pub open spec fn next_frame_step(before: Seq<bool>, after: Seq<bool>, f: int) -> bool {
    0 <= f < before.len() && !before[f] && (forall|j: int| 0 <= j < f ==> #[trigger] before[j])
        && after == before.update(f, true)
}

/// Number of free frames in the ledger `bits`.
pub open spec fn free_count(bits: Seq<bool>) -> nat
    decreases bits.len(),
{
    if bits.len() == 0 {
        0
    } else {
        free_count(bits.drop_last()) + if bits.last() { 0nat } else { 1nat }
    }
}

/// A ledger with a free frame has one at some index.
pub proof fn lemma_free_count_positive(bits: Seq<bool>)
    requires
        free_count(bits) > 0,
    ensures
        exists|j: int| 0 <= j < bits.len() && !#[trigger] bits[j],
    decreases bits.len(),
{
    if bits.last() {
        lemma_free_count_positive(bits.drop_last());
        let j = choose|j: int| 0 <= j < bits.drop_last().len() && !#[trigger] bits.drop_last()[j];
        assert(!bits[j]);
    } else {
        assert(!bits[bits.len() - 1]);
    }
}

/// Claiming a free frame takes one from the free count.
pub proof fn lemma_free_count_claim(bits: Seq<bool>, f: int)
    requires
        0 <= f < bits.len(),
        !bits[f],
    ensures
        free_count(bits.update(f, true)) + 1 == free_count(bits),
    decreases bits.len(),
{
    let after = bits.update(f, true);
    if f < bits.len() - 1 {
        assert(after.drop_last() =~= bits.drop_last().update(f, true));
        lemma_free_count_claim(bits.drop_last(), f);
    } else {
        assert(after.drop_last() =~= bits.drop_last());
    }
}

/// The free count of a prefix grows by the next frame's freedom.
proof fn lemma_free_count_prefix(bits: Seq<bool>, i: int)
    requires
        0 <= i < bits.len(),
    ensures
        free_count(bits.take(i + 1)) == free_count(bits.take(i)) + if bits[i] { 0nat } else { 1nat },
{
    assert(bits.take(i + 1).drop_last() =~= bits.take(i));
}

/// A prefix of the ledger has no more free frames than the whole.
proof fn lemma_free_count_prefix_le(bits: Seq<bool>, i: int)
    requires
        0 <= i <= bits.len(),
    ensures
        free_count(bits.take(i)) <= free_count(bits),
    decreases bits.len() - i,
{
    if i < bits.len() {
        lemma_free_count_prefix(bits, i);
        lemma_free_count_prefix_le(bits, i + 1);
    } else {
        assert(bits.take(i) =~= bits);
    }
}

/// A bitmap over physical frames, recording which are in use. Frame 0 and
/// the ledger's own frames are marked used when it is built; `lock_frame`
/// and `free_frame` then set and clear bits as asked.
pub struct FrameAllocator {
    table: FrameBits,
}

impl FrameAllocator {
    /// The ledger's bits, indexed by frame.
    pub closed spec fn view(&self) -> Seq<bool> {
        bits_of(self.table)
    }

    /// The ledger's bytes of memory fit in a `usize`.
    pub open spec fn wf(&self) -> bool {
        self@.len() * 0x1000 <= usize::MAX
    }

    /// Builds the ledger for `total_memory` bytes of physical memory.
    ///
    /// The ledger's own storage is placed at the start of the first region of
    /// `free_regions` that is page aligned and long enough; those frames and
    /// frame 0 are marked used, every other frame free. With no such region
    /// there is no ledger.
    pub fn new(free_regions: &Vec<MemoryRegion>, total_memory: usize) -> (r: Option<FrameAllocator>)
        requires
            forall|i: int| 0 <= i < free_regions.len() ==> (#[trigger] free_regions[i]).end <= total_memory,
        ensures
            r.is_none() <==> forall|i: int| 0 <= i < free_regions.len()
                ==> !can_hold(#[trigger] free_regions[i], ledger_frames(total_memory as nat / 0x1000) * 0x1000),
            r matches Some(a) ==> a.wf() && a@.len() == total_memory / 0x1000 && exists|i: int|
                0 <= i < free_regions.len() && can_hold(#[trigger] free_regions[i],
                    ledger_frames(total_memory as nat / 0x1000) * 0x1000)
                && (forall|k: int| 0 <= k < i ==> !can_hold(#[trigger] free_regions[k],
                    ledger_frames(total_memory as nat / 0x1000) * 0x1000))
                && forall|j: int| 0 <= j < a@.len() ==> #[trigger] a@[j] == (j == 0 || (
                    free_regions[i].start / 0x1000 <= j
                    < free_regions[i].start / 0x1000 + ledger_frames(total_memory as nat / 0x1000))),
    {
        let total_frames: usize = total_memory / 0x1000;
        let table_frames: usize = total_frames / BITS_PER_PAGE + if total_frames % BITS_PER_PAGE == 0 { 0 } else { 1 };
        assert(table_frames == ledger_frames(total_frames as nat));
        assert(table_frames * 0x1000 <= total_frames + 0x1000) by (nonlinear_arith)
            requires table_frames == ledger_frames(total_frames as nat);
        assert(total_frames + 0x1000 <= usize::MAX) by (nonlinear_arith)
            requires total_frames == total_memory / 0x1000;
        let table_bytes: usize = table_frames * 0x1000;

        let mut i: usize = 0;
        while i < free_regions.len()
            invariant
                0 <= i <= free_regions.len(),
                table_bytes == ledger_frames(total_memory as nat / 0x1000) * 0x1000,
                table_bytes == table_frames * 0x1000,
                table_frames == ledger_frames(total_frames as nat),
                total_frames == total_memory / 0x1000,
                forall|k: int| 0 <= k < free_regions.len() ==> (#[trigger] free_regions[k]).end <= total_memory,
                forall|k: int| 0 <= k < i ==> !can_hold(#[trigger] free_regions[k], table_bytes as nat),
            decreases free_regions.len() - i,
        {
            let region = free_regions[i];
            assert(region.end <= total_memory);
            if region.start % 0x1000 == 0 && region.start <= region.end && region.end - region.start >= table_bytes {
                let start_index: usize = region.start / 0x1000;
                assert(start_index + table_frames <= total_frames) by (nonlinear_arith)
                    requires
                        region.start % 0x1000 == 0, region.end <= total_memory,
                        region.end - region.start >= table_frames * 0x1000,
                        start_index == region.start / 0x1000,
                        total_frames == total_memory / 0x1000;
                let end_index: usize = start_index + table_frames;
                let mut table = FrameBits::repeat(false, total_frames);
                table.fill(start_index, end_index, true);
                if total_frames > 0 {
                    table.set(0, true);
                }
                let r = FrameAllocator { table };
                assert(r@.len() * 0x1000 <= usize::MAX) by (nonlinear_arith)
                    requires r@.len() == total_memory / 0x1000, total_memory <= usize::MAX;
                return Some(r);
            }
            i = i + 1;
        }
        None
    }

    /// Number of frames that the ledger covers.
    pub fn frame_count(&self) -> (r: usize)
        ensures
            r == self@.len(),
    {
        self.table.len()
    }

    /// Bytes of physical memory that the ledger covers.
    pub fn total_memory(&self) -> (r: usize)
        requires
            self.wf(),
        ensures
            r == self@.len() * 0x1000,
    {
        self.table.len() * 0x1000
    }

    /// Whether at least `n` frames are free.
    pub fn has_free(&self, n: usize) -> (r: bool)
        ensures
            r == (free_count(self@) >= n),
    {
        let len = self.table.len();
        let mut count: usize = 0;
        let mut i: usize = 0;
        while i < len
            invariant
                len == self@.len(),
                i <= len,
                count == free_count(self@.take(i as int)),
                count <= i,
            decreases len - i,
        {
            if count >= n {
                proof { lemma_free_count_prefix_le(self@, i as int); }
                return true;
            }
            proof { lemma_free_count_prefix(self@, i as int); }
            if !self.table.get(i) {
                count = count + 1;
            }
            i = i + 1;
        }
        assert(self@.take(len as int) =~= self@);
        count >= n
    }

    /// Whether the frame with index `index` is marked used.
    pub fn is_used(&self, index: usize) -> (r: bool)
        requires
            index < self@.len(),
        ensures
            r == self@[index as int],
    {
        self.table.get(index)
    }

    /// Claims the lowest free frame.
    pub fn next_frame(&mut self) -> (r: Result<Frame, Error>)
        ensures
            r is Ok <==> exists|j: int| 0 <= j < old(self)@.len() && !#[trigger] old(self)@[j],
            r matches Ok(f) ==> next_frame_step(old(self)@, final(self)@, f@ as int),
            r matches Err(e) ==> e == Error::NoneFree && final(self)@ == old(self)@,
    {
        match self.table.first_zero() {
            Some(index) => {
                assert(!self@[index as int]);
                self.table.set(index, true);
                Ok(Frame(index as u64))
            },
            None => Err(Error::NoneFree),
        }
    }

    /// Claims the lowest run of `count` free frames whose first index is a
    /// multiple of the stride that `align_bits` asks for (its value divided by
    /// the page size, at least 1). The whole run is claimed at once.
    pub fn next_frames(&mut self, count: usize, align_bits: Option<u32>) -> (r: Result<Frame, Error>)
        requires
            count > 0,
        ensures
            r is Ok <==> exists|s: int| fits_run(old(self)@, s, count as int, align_stride(align_bits)),
            r matches Ok(f) ==> fits_run(old(self)@, f@ as int, count as int, align_stride(align_bits))
                && (forall|s: int| 0 <= s < f@ ==> !fits_run(old(self)@, s, count as int, align_stride(align_bits)))
                && final(self)@ == claim_run(old(self)@, f@ as int, count as int),
            r matches Err(e) ==> e == Error::NoneFree && final(self)@ == old(self)@,
    {
        let stride: usize = match align_bits {
            Some(a) => if a >= 0x2000 { (a / 0x1000) as usize } else { 1 },
            None => 1,
        };
        assert(stride as int == align_stride(align_bits));
        let len = self.table.len();
        if count > len {
            assert forall|s: int| !fits_run(self@, s, count as int, stride as int) by {}
            return Err(Error::NoneFree);
        }
        let mut i: usize = 0;
        while i <= len - count
            invariant
                len == self@.len(),
                count <= len,
                stride >= 1,
                stride as int == align_stride(align_bits),
                i % stride == 0,
                self@ == old(self)@,
                forall|s: int| 0 <= s < i ==> !fits_run(self@, s, count as int, stride as int),
            decreases len - i,
        {
            if self.table.none_set(i, i + count) {
                assert(fits_run(old(self)@, i as int, count as int, align_stride(align_bits)));
                self.table.fill(i, i + count, true);
                assert(final(self)@ =~= claim_run(old(self)@, i as int, count as int));
                return Ok(Frame(i as u64));
            }
            if len - i < stride {
                assert forall|s: int| !fits_run(self@, s, count as int, stride as int) by {
                    if 0 <= s < i {
                    } else if fits_run(self@, s, count as int, stride as int) {
                        assert(s > i);
                        assert(s >= i + stride) by (nonlinear_arith)
                            requires s > i, s % (stride as int) == 0, (i as int) % (stride as int) == 0, stride >= 1;
                    }
                }
                return Err(Error::NoneFree);
            }
            assert forall|s: int| 0 <= s < i + stride implies !fits_run(self@, s, count as int, stride as int) by {
                if s > i && s % (stride as int) == 0 {
                    assert(s >= i + stride) by (nonlinear_arith)
                        requires s > i, s % (stride as int) == 0, (i as int) % (stride as int) == 0, stride >= 1;
                }
            }
            assert(((i + stride) as int) % (stride as int) == 0) by (nonlinear_arith)
                requires (i as int) % (stride as int) == 0, stride >= 1;
            i = i + stride;
        }
        assert forall|s: int| !fits_run(self@, s, count as int, stride as int) by {
            if 0 <= s < i {
            }
        }
        Err(Error::NoneFree)
    }

    /// Marks the given frame used, whatever it was.
    pub fn lock_frame(&mut self, frame: Frame) -> (r: Result<(), Error>)
        ensures
            r is Ok <==> frame@ < old(self)@.len(),
            r is Ok ==> final(self)@ == old(self)@.update(frame@ as int, true),
            r matches Err(e) ==> e == Error::OutOfBounds && final(self)@ == old(self)@,
    {
        let len = self.table.len();
        if frame.0 >= len as u64 {
            Err(Error::OutOfBounds)
        } else {
            self.table.set(frame.0 as usize, true);
            Ok(())
        }
    }

    /// Marks the given frame free; freeing a free frame is no error.
    pub fn free_frame(&mut self, frame: Frame) -> (r: Result<(), Error>)
        ensures
            r is Ok <==> frame@ < old(self)@.len(),
            r is Ok ==> final(self)@ == old(self)@.update(frame@ as int, false),
            r matches Err(e) ==> e == Error::OutOfBounds && final(self)@ == old(self)@,
    {
        let len = self.table.len();
        if frame.0 >= len as u64 {
            Err(Error::OutOfBounds)
        } else {
            self.table.set(frame.0 as usize, false);
            Ok(())
        }
    }
}


/// The ledger after the `count` bits from `start` are cleared (those past the
/// end of the ledger do not exist and are skipped).
pub open spec fn release_run(bits: Seq<bool>, start: int, count: int) -> Seq<bool> {
    Seq::new(bits.len(), |j: int| if start <= j < start + count { false } else { bits[j] })
}

/// Number of frames that a request of `size` bytes occupies.
pub open spec fn frames_for(size: nat) -> nat {
    if size <= 0x1000 { 1 } else { (size + 0xFFF) as nat / 0x1000 }
}

/// Claiming a run of free frames and then freeing the same frames gives back
/// the ledger as it was, bit for bit.
pub proof fn lemma_claim_release_round_trip(before: Seq<bool>, start: int, count: int)
    requires
        0 <= start,
        start + count <= before.len(),
        run_free(before, start, count),
    ensures
        release_run(claim_run(before, start, count), start, count) == before,
{
    assert(release_run(claim_run(before, start, count), start, count) =~= before);
}

/// Freeing the frames of a run one at a time, in order, clears exactly that
/// run: given the ledgers `states` that the `free_frame` calls went through,
/// the last is `release_run` of the first. After `next_frames` claimed the
/// run, this gives back the ledger from before the claim.
pub proof fn lemma_free_each_releases_run(states: Seq<Seq<bool>>, start: int, count: int)
    requires
        0 <= start,
        count >= 0,
        states.len() == count + 1,
        start + count <= states[0].len(),
        forall|k: int| 0 <= k < count ==> #[trigger] states[k + 1] == states[k].update(start + k, false),
    ensures
        states[count] == release_run(states[0], start, count),
    decreases count,
{
    if count > 0 {
        let prefix = states.take(count);
        assert forall|k: int| 0 <= k < count - 1 implies #[trigger] prefix[k + 1] == prefix[k].update(start + k, false) by {
            assert(states[k + 1] == states[k].update(start + k, false));
        }
        lemma_free_each_releases_run(prefix, start, count - 1);
        let k = count - 1;
        assert(states[k + 1] == states[k].update(start + k, false));
        assert(states[count] =~= release_run(states[0], start, count));
    }
}

/// Frames handed out by `next_frame` are never in use when handed out, and
/// calls with no free in between never hand out the same frame twice: given
/// the ledgers `states` that the calls went through and the frames `frames`
/// that they returned, all those frames differ.
pub proof fn lemma_next_frame_distinct(states: Seq<Seq<bool>>, frames: Seq<int>)
    requires
        states.len() == frames.len() + 1,
        forall|k: int| 0 <= k < frames.len() ==> next_frame_step(states[k], states[k + 1], #[trigger] frames[k]),
    ensures
        forall|k: int| 0 <= k < frames.len() ==> !states[k][#[trigger] frames[k]],
        forall|a: int, b: int| 0 <= a < b < frames.len() ==> #[trigger] frames[a] != #[trigger] frames[b],
{
    assert forall|a: int, b: int| 0 <= a < b < frames.len() implies #[trigger] frames[a] != #[trigger] frames[b] by {
        lemma_next_frame_keeps_used(states, frames, a + 1, b);
        assert(next_frame_step(states[a], states[a + 1], frames[a]));
        assert(next_frame_step(states[b], states[b + 1], frames[b]));
        assert(states[a + 1][frames[a]]);
        assert(!states[b][frames[b]]);
    }
}

/// Along a run of `next_frame` calls, a frame marked used stays used.
proof fn lemma_next_frame_keeps_used(states: Seq<Seq<bool>>, frames: Seq<int>, a: int, b: int)
    requires
        states.len() == frames.len() + 1,
        forall|k: int| 0 <= k < frames.len() ==> next_frame_step(states[k], states[k + 1], #[trigger] frames[k]),
        0 <= a <= b < states.len(),
    ensures
        states[b].len() == states[a].len(),
        forall|j: int| 0 <= j < states[a].len() && states[a][j] ==> #[trigger] states[b][j],
    decreases b - a,
{
    if a < b {
        lemma_next_frame_keeps_used(states, frames, a, b - 1);
        assert(next_frame_step(states[b - 1], states[b], frames[b - 1]));
    }
}

/// Hands frames of the ledger out to general allocation requests.
pub struct PhysicalMemoryManager {
    pub allocator: FrameAllocator,
}

impl PhysicalMemoryManager {
    /// Claims frames for `size` bytes with alignment `align` (at most a page):
    /// one frame for a request of a page or less, else the lowest free run of
    /// enough frames. A request of no bytes is refused.
    pub fn allocate(&mut self, size: usize, align: usize) -> (r: Result<Frame, Error>)
        requires
            align <= 0x1000,
        ensures
            size == 0 ==> r == Err::<Frame, Error>(Error::Unknown) && final(self).allocator@ == old(self).allocator@,
            size > 0 && size <= 0x1000 ==> {
                &&& r is Ok <==> exists|j: int| 0 <= j < old(self).allocator@.len() && !#[trigger] old(self).allocator@[j]
                &&& r matches Ok(f) ==> next_frame_step(old(self).allocator@, final(self).allocator@, f@ as int)
            },
            size > 0x1000 ==> {
                &&& r is Ok <==> exists|s: int| fits_run(old(self).allocator@, s, frames_for(size as nat) as int, 1)
                &&& r matches Ok(f) ==> fits_run(old(self).allocator@, f@ as int, frames_for(size as nat) as int, 1)
                    && (forall|s: int| 0 <= s < f@ ==> !fits_run(old(self).allocator@, s, frames_for(size as nat) as int, 1))
                    && final(self).allocator@ == claim_run(old(self).allocator@, f@ as int, frames_for(size as nat) as int)
            },
            size > 0 && r is Err ==> r == Err::<Frame, Error>(Error::NoneFree) && final(self).allocator@ == old(self).allocator@,
    {
        if size == 0 {
            return Err(Error::Unknown);
        }
        if size <= 0x1000 {
            self.allocator.next_frame()
        } else {
            let count: usize = size / 0x1000 + if size % 0x1000 == 0 { 0 } else { 1 };
            assert(count == frames_for(size as nat));
            assert(align_stride(None) == 1);
            self.allocator.next_frames(count, None)
        }
    }

    /// Frees the frames that `allocate` claimed for `size` bytes from `frame`;
    /// frames past the end of the ledger are skipped.
    pub fn deallocate(&mut self, frame: Frame, size: usize)
        requires
            frame@ + frames_for(size as nat) <= u64::MAX,
        ensures
            final(self).allocator@ == release_run(old(self).allocator@, frame@ as int, frames_for(size as nat) as int),
    {
        let count: usize = if size <= 0x1000 { 1 } else { size / 0x1000 + if size % 0x1000 == 0 { 0 } else { 1 } };
        assert(count == frames_for(size as nat));
        let mut offset: usize = 0;
        while offset < count
            invariant
                offset <= count,
                count == frames_for(size as nat),
                frame@ + count <= u64::MAX,
                self.allocator@ == release_run(old(self).allocator@, frame@ as int, offset as int),
            decreases count - offset,
        {
            let _ = self.allocator.free_frame(Frame(frame.0 + offset as u64));
            offset = offset + 1;
            assert(self.allocator@ =~= release_run(old(self).allocator@, frame@ as int, offset as int));
        }
    }
}

} // verus!
