//! The block heap: pages of heap address space split into 64-byte blocks,
//! tracked by a growable table with one 64-bit word per page.
//!
//! The table describes the address range that holds it: its own pages are
//! marked fully used, and page 0 stays fully used so that no allocation
//! lies at address zero. A page is backed by a frame exactly while its word
//! is non-zero or it holds the table.

use vstd::prelude::*;
use crate::ledger::{free_count, lemma_free_count_claim, lemma_free_count_positive, FrameAllocator};
use crate::mapper::{backed_by, lemma_move_keeps_backed, Mapper, PageAttributes};

verus! {

/// One page worth of blocks: bit `i` marks block `i` of the page as used.
#[derive(Clone, Copy, Debug, PartialEq, Eq, Structural)]
pub struct BlockPage(pub u64);

/// Whether bit `i` of `w` is set.
pub open spec fn bit(w: u64, i: u64) -> bool {
    (w >> i) & 1u64 == 1u64
}

/// The word whose bits `off .. off + cnt` are set and no others.
pub open spec fn range_mask(off: u64, cnt: u64) -> u64 {
    if cnt >= 64 { 0xFFFF_FFFF_FFFF_FFFFu64 } else { (((1u64 << cnt) - 1u64) as u64) << off }
}

impl BlockPage {
    /// How many blocks one page holds.
    pub const BLOCKS_PER: usize = 64;

    pub open spec fn view(&self) -> u64 {
        self.0
    }

    /// Whether no block of the page is used.
    pub fn is_empty(&self) -> (r: bool)
        ensures
            r == (self@ == 0),
    {
        self.0 == 0
    }

    /// Whether every block of the page is used.
    pub fn is_full(&self) -> (r: bool)
        ensures
            r == (self@ == u64::MAX),
    {
        self.0 == u64::MAX
    }

    /// Marks every block of the page free.
    pub fn set_empty(&mut self)
        ensures
            final(self)@ == 0,
    {
        self.0 = 0;
    }

    /// Marks every block of the page used.
    pub fn set_full(&mut self)
        ensures
            final(self)@ == u64::MAX,
    {
        self.0 = u64::MAX;
    }

    /// The page's word.
    pub fn value(&self) -> (r: &u64)
        ensures
            *r == self@,
    {
        &self.0
    }

    /// The page's word, to be changed in place.
    pub fn value_mut(&mut self) -> (r: &mut u64)
        ensures
            *r == old(self)@,
            final(self)@ == *final(r),
    {
        &mut self.0
    }
}

/// The bits of a mask are exactly those of its range.
proof fn lemma_range_mask(off: u64, cnt: u64, i: u64)
    requires
        off < 64,
        1 <= cnt,
        off + cnt <= 64,
        i < 64,
    ensures
        bit(range_mask(off, cnt), i) <==> (off <= i && i < off + cnt),
{
    if cnt >= 64 {
        assert(bit(0xFFFF_FFFF_FFFF_FFFFu64, i)) by (bit_vector)
            requires i < 64;
    } else {
        assert(bit((((1u64 << cnt) - 1u64) as u64) << off, i) <==> (off <= i && i < off + cnt)) by (bit_vector)
            requires off < 64, 1 <= cnt, off + cnt <= 64, i < 64, cnt < 64;
    }
}

/// Setting the bits of a mask keeps the others.
proof fn lemma_bit_or(w: u64, m: u64, i: u64)
    requires
        i < 64,
    ensures
        bit(w | m, i) == (bit(w, i) || bit(m, i)),
{
    assert(bit(w | m, i) == (bit(w, i) || bit(m, i))) by (bit_vector)
        requires i < 64;
}

/// Clearing the bits of a mask keeps the others.
proof fn lemma_bit_clear(w: u64, m: u64, i: u64)
    requires
        i < 64,
    ensures
        bit(w & !m, i) == (bit(w, i) && !bit(m, i)),
{
    assert(bit(w & !m, i) == (bit(w, i) && !bit(m, i))) by (bit_vector)
        requires i < 64;
}

/// A full word has every bit set, an empty one none.
proof fn lemma_bit_full_empty(i: u64)
    requires
        i < 64,
    ensures
        bit(0xFFFF_FFFF_FFFF_FFFFu64, i),
        !bit(0u64, i),
{
    assert(bit(0xFFFF_FFFF_FFFF_FFFFu64, i) && !bit(0u64, i)) by (bit_vector)
        requires i < 64;
}

/// Whether block `b` is used in the table `words`.
pub open spec fn block_used(words: Seq<u64>, b: int) -> bool {
    0 <= b < words.len() * 64 && bit(words[b / 64], (b % 64) as u64)
}

/// Table entries that one page of the table holds.
pub const ENTRIES_PER_PAGE: usize = 512;

/// Bound on the heap's address span, in bytes (128 TiB); growth past it fails.
pub const HEAP_SPAN_LIMIT: u64 = 0x746A_5288_0000;

/// Why a heap operation failed.
#[derive(Clone, Copy, Debug, PartialEq, Eq, Structural)]
pub enum AllocError {
    /// Growing the table would pass the heap's address span bound.
    OutOfMemory,
    /// The frame ledger has too few free frames to back the pages needed.
    OutOfFrames,
}

/// The stride, within a page, of the blocks where a run for `align` may start.
pub open spec fn align_step(align: usize) -> int {
    if align / 64 >= 64 { 64 } else if align / 64 >= 1 { (align / 64) as int } else { 1 }
}

/// Number of blocks that a request of `size` bytes occupies (at least one).
pub open spec fn blocks_for(size: usize) -> int {
    if size <= 64 { 1 } else { (size as int + 63) / 64 }
}

/// Whether `n` is a power of two.
pub open spec fn is_pow2(n: nat) -> bool
    decreases n,
{
    if n <= 1 { n == 1 } else { n % 2 == 0 && is_pow2(n / 2) }
}

/// The first of `p`, `2p`, `4p`, ... that reaches `x`.
pub open spec fn pow2_from(p: nat, x: nat) -> nat
    decreases (if p < x { x - p } else { 0 }),
{
    if p == 0 || p >= x { p } else { pow2_from(2 * p, x) }
}

/// The table length after growing a table of `len` pages for
/// `required_blocks` more blocks: the next power of two that covers the
/// current length plus the pages needed, rounded up to whole table pages.
pub open spec fn next_len(len: nat, required_blocks: nat) -> nat {
    let p = pow2_from(1, len + (required_blocks + 63) / 64);
    ((p + 511) / 512 * 512) as nat
}

/// Whether a table of `len` pages stays within the heap's span bound and
/// the address space.
pub open spec fn span_ok(len: nat) -> bool {
    len * 0x1000 < HEAP_SPAN_LIMIT && len * 0x1000 <= usize::MAX
}

/// Whether the `count` words from `s` are all empty and inside `w`.
pub open spec fn empty_run(w: Seq<u64>, s: int, count: int) -> bool {
    0 <= s && s + count <= w.len() && forall|p: int| s <= p < s + count ==> #[trigger] w[p] == 0
}

/// Whether the empty words of `w` from `t`, up to `count` of them and below
/// `i`, are all empty.
pub open spec fn empty_upto(w: Seq<u64>, t: int, count: int, i: int) -> bool {
    forall|p: int| t <= p < t + count && p < i ==> #[trigger] w[p] == 0
}

/// `pow2_from` gives a power of two, at least `x` and `p`, and less than
/// twice `x` when it had to double.
proof fn lemma_pow2_from(p: nat, x: nat)
    requires
        p >= 1,
        is_pow2(p),
    ensures
        is_pow2(pow2_from(p, x)),
        pow2_from(p, x) >= x,
        pow2_from(p, x) >= p,
        p < x ==> pow2_from(p, x) < 2 * x,
    decreases (if p < x { x - p } else { 0 }),
{
    if p < x {
        assert(is_pow2(2 * p)) by {
            assert((2 * p) / 2 == p);
        }
        lemma_pow2_from(2 * p, x);
    }
}

/// Of two powers of two, the larger is at least twice the smaller.
proof fn lemma_pow2_double(a: nat, b: nat)
    requires
        is_pow2(a),
        is_pow2(b),
        a < b,
    ensures
        2 * a <= b,
    decreases b,
{
    if a > 1 {
        lemma_pow2_double(a / 2, b / 2);
    }
}

/// A power of two of at least 512 is a multiple of 512.
proof fn lemma_pow2_mod_512(p: nat)
    requires
        is_pow2(p),
        p >= 512,
    ensures
        p % 512 == 0,
    decreases p,
{
    if p > 512 {
        lemma_pow2_512();
        lemma_pow2_double(512, p);
        let h = p / 2;
        assert(p % 2 == 0 && is_pow2(h));
        lemma_pow2_mod_512(h);
        assert(p % 512 == 0) by (nonlinear_arith)
            requires h % 512 == 0, p == 2 * h;
    }
}

/// 512 is a power of two.
proof fn lemma_pow2_512()
    ensures
        is_pow2(512),
{
    assert(is_pow2(1));
    assert(is_pow2(2));
    assert(is_pow2(4));
    assert(is_pow2(8));
    assert(is_pow2(16));
    assert(is_pow2(32));
    assert(is_pow2(64));
    assert(is_pow2(128));
    assert(is_pow2(256));
    assert(is_pow2(512));
}

/// The word of page `p` once the table `w`, held in `pages` pages from `base`,
/// has moved to `new_pages` pages from `start`: the new table's pages are
/// full, the vacated ones empty, the others as they were (empty past the end).
pub open spec fn grown_word(w: Seq<u64>, base: int, pages: int, start: int, new_pages: int, p: int) -> u64 {
    if start <= p < start + new_pages {
        u64::MAX
    } else if base <= p < base + pages {
        0
    } else if p < w.len() {
        w[p]
    } else {
        0
    }
}

/// Whether the `n` blocks from `t` lie in the table, are all free, and `t`
/// sits at a multiple of `step` within its page.
pub open spec fn run_fits(h: SLOB, t: int, n: int, step: int) -> bool {
    &&& 0 <= t
    &&& t + n <= h.words().len() * 64
    &&& (t % 64) % step == 0
    &&& forall|x: int| t <= x < t + n ==> !#[trigger] h.used(x)
}

/// Whether the blocks from `t`, up to `n` of them and below `b`, are all free.
pub open spec fn free_upto(h: SLOB, t: int, n: int, b: int) -> bool {
    forall|x: int| t <= x < t + n && x < b ==> !#[trigger] h.used(x)
}

/// Whether the `n` blocks from `t` would fit in `h` if the blocks
/// `s .. s + n` were free.
pub open spec fn fits_besides(h: SLOB, t: int, n: int, step: int, s: int) -> bool {
    &&& 0 <= t
    &&& t + n <= h.words().len() * 64
    &&& (t % 64) % step == 0
    &&& forall|x: int| t <= x < t + n ==> !#[trigger] h.used(x) || (s <= x < s + n)
}

/// Number of pages that the blocks `s .. s + n` touch.
pub open spec fn pages_touched(s: int, n: int) -> int {
    (s + n - 1) / 64 - s / 64 + 1
}

/// A run of `n` blocks touches at most `n / 64 + 2` pages.
proof fn lemma_pages_touched(s: int, n: int)
    requires
        0 <= s,
        1 <= n,
    ensures
        1 <= pages_touched(s, n) <= n / 64 + 2,
{
    assert((s + n - 1) / 64 - s / 64 <= n / 64 + 1 && (s + n - 1) / 64 >= s / 64) by (nonlinear_arith)
        requires 0 <= s, 1 <= n;
}

/// Whether `after` is the heap `before` once the free blocks `s .. s + n`
/// were handed to a client, every other block's client status kept.
pub open spec fn alloc_step(before: SLOB, after: SLOB, s: int, n: int) -> bool {
    &&& forall|b: int| s <= b < s + n ==> !#[trigger] before.client_used(b)
    &&& forall|b: int| #[trigger] after.client_used(b) == (before.client_used(b) || s <= b < s + n)
}

/// Whether `after` is the heap `before` once the client blocks `s .. s + n`
/// were freed, every other block's client status kept.
pub open spec fn free_step(before: SLOB, after: SLOB, s: int, n: int) -> bool {
    &&& forall|b: int| s <= b < s + n ==> #[trigger] before.client_used(b)
    &&& forall|b: int| #[trigger] after.client_used(b) == (before.client_used(b) && !(s <= b < s + n))
}

/// Whether `after` is the heap `before` once its table has grown and moved:
/// the new table's pages are full, the vacated ones empty, every other page
/// as it was, and the new place was empty or past the old end.
pub open spec fn grow_step(before: SLOB, after: SLOB) -> bool {
    &&& after.words().len() >= before.words().len()
    &&& after.words() == Seq::new(after.words().len(), |p: int| grown_word(before.words(),
        before.base(), before.pages(), after.base(), after.pages(), p))
    &&& (after.base() == before.words().len() || (after.base() + after.pages() <= before.words().len()
        && forall|p: int| #[trigger] after.in_table(p) ==> before.words()[p] == 0))
}

/// Whether `mapper` maps page `p` to frame `j`.
pub open spec fn maps_to(mapper: Mapper, p: int, j: int) -> bool {
    mapper.frame_of(p) is Some && mapper.frame_of(p).unwrap() as int == j
}

/// Whether a page below `hi` went from non-empty in `old_words` to empty in
/// `new_words` while `mapper` backed it with frame `j`.
pub open spec fn freed_frame(old_words: Seq<u64>, new_words: Seq<u64>, mapper: Mapper, hi: int, j: int) -> bool {
    exists|p: int| 0 <= p < hi && #[trigger] old_words[p] != 0 && new_words[p] == 0
        && maps_to(mapper, p, j)
}

/// Allocator of 64-byte blocks over a table of block pages.
pub struct SLOB {
    table: Vec<BlockPage>,
    table_base: usize,
}

impl SLOB {
    /// The size of an allocator block.
    pub const BLOCK_SIZE: usize = 64;

    /// The table's words, indexed by page.
    pub closed spec fn words(&self) -> Seq<u64> {
        self.table@.map_values(|p: BlockPage| p.0)
    }

    /// The first page that holds the table.
    pub closed spec fn base(&self) -> int {
        self.table_base as int
    }

    /// Number of pages that hold the table.
    pub open spec fn pages(&self) -> int {
        (self.words().len() / 512) as int
    }

    /// Whether page `p` holds part of the table.
    pub open spec fn in_table(&self, p: int) -> bool {
        self.base() <= p < self.base() + self.pages()
    }

    /// Whether block `b` is used.
    pub open spec fn used(&self, b: int) -> bool {
        block_used(self.words(), b)
    }

    /// Whether block `b` is used by a client, not by the table or the null page.
    pub open spec fn client_used(&self, b: int) -> bool {
        self.used(b) && b >= 64 && !self.in_table(b / 64)
    }

    /// The heap is well formed over the address space `mapper`: the table
    /// fills whole pages within the span it describes, page 0 and the
    /// table's pages are full, and a page is mapped exactly while it is
    /// inside the table's span, not page 0, and holds the table or a used block.
    pub open spec fn wf(&self, mapper: Mapper) -> bool {
        let w = self.words();
        &&& 512 <= w.len()
        &&& w.len() % 512 == 0
        &&& is_pow2(w.len())
        &&& w.len() * 0x1000 <= usize::MAX
        &&& w.len() * 0x1000 < HEAP_SPAN_LIMIT
        &&& 1 <= self.base()
        &&& self.base() + self.pages() <= w.len()
        &&& w[0] == u64::MAX
        &&& forall|p: int| #[trigger] self.in_table(p) ==> w[p] == u64::MAX
        &&& forall|p: int| #[trigger] mapper.frame_of(p) is Some
            <==> (0 < p < w.len() && (self.in_table(p) || w[p] != 0))
    }

    /// Number of pages that the table describes.
    pub fn table_len(&self) -> (r: usize)
        ensures
            r == self.words().len(),
    {
        self.table.len()
    }

    /// The first page that holds the table.
    pub fn table_page(&self) -> (r: usize)
        ensures
            r == self.base(),
    {
        self.table_base
    }

    /// The word of page `page`, if the table describes it.
    pub fn page_value(&self, page: usize) -> (r: Option<u64>)
        ensures
            r == if page < self.words().len() { Some(self.words()[page as int]) } else { None::<u64> },
    {
        if page < self.table.len() {
            Some(*self.table[page].value())
        } else {
            None
        }
    }

    /// Whether block `block` is used.
    pub fn is_used(&self, block: usize) -> (r: bool)
        ensures
            r == self.used(block as int),
    {
        if block / 64 >= self.table.len() {
            return false;
        }
        let word = self.table[block / 64].0;
        assert(self.words()[(block / 64) as int] == word);
        (word >> ((block % 64) as u64)) & 1 == 1
    }

    /// Calculates the bit count and mask for the blocks from `cur_block_index`
    /// up to `end_block_index` that lie in page `map_index`.
    fn calculate_bit_fields(map_index: usize, cur_block_index: usize, end_block_index: usize) -> (r: (usize, u64))
        requires
            map_index * 64 <= cur_block_index <= end_block_index,
            cur_block_index < map_index * 64 + 64,
            map_index * 64 + 64 <= usize::MAX,
        ensures
            cur_block_index < end_block_index ==> r.0 >= 1,
            r.0 as int == if end_block_index < map_index * 64 + 64 { end_block_index - cur_block_index }
                else { map_index * 64 + 64 - cur_block_index },
            r.1 == range_mask((cur_block_index - map_index * 64) as u64, r.0 as u64),
            (cur_block_index - map_index * 64) + r.0 <= 64,
    {
        let floor_blocks_index = map_index * BlockPage::BLOCKS_PER;
        let ceil_blocks_index = floor_blocks_index + BlockPage::BLOCKS_PER;
        let mask_bit_offset = cur_block_index - floor_blocks_index;
        let mask_bit_count = if ceil_blocks_index < end_block_index { ceil_blocks_index } else { end_block_index }
            - cur_block_index;
        let off = mask_bit_offset as u64;
        let cnt = mask_bit_count as u64;
        let mask: u64 = if cnt >= 64 {
            u64::MAX
        } else {
            assert(1u64 << cnt >= 1) by (bit_vector)
                requires cnt < 64;
            ((1u64 << cnt) - 1) << off
        };
        (mask_bit_count, mask)
    }

    /// The start of the lowest run of `n` free blocks whose first block lies
    /// at a multiple of `step` within its page.
    fn find_run(&self, n: usize, step: usize) -> (r: Option<usize>)
        requires
            self.words().len() * 0x1000 <= usize::MAX,
            1 <= n,
            1 <= step <= 64,
        ensures
            r matches Some(s) ==> run_fits(*self, s as int, n as int, step as int)
                && forall|t: int| 0 <= t < s ==> !#[trigger] run_fits(*self, t, n as int, step as int),
            r is None ==> forall|t: int| !#[trigger] run_fits(*self, t, n as int, step as int),
    {
        let total: usize = self.table.len() * 64;
        let mut b: usize = 0;
        let mut run_len: usize = 0;
        while b < total
            invariant
                total == self.words().len() * 64,
                self.table@.len() == self.words().len(),
                total <= usize::MAX / 64,
                b <= total,
                run_len <= b,
                run_len < n,
                1 <= step <= 64,
                1 <= n,
                run_len > 0 ==> (((b - run_len) % 64) as int) % (step as int) == 0,
                forall|x: int| b - run_len <= x < b ==> !#[trigger] self.used(x),
                forall|t: int| 0 <= t < b - run_len && (t % 64) % (step as int) == 0
                    ==> !#[trigger] free_upto(*self, t, n as int, b as int),
            decreases total - b,
        {
            let word = self.table[b / 64].0;
            let shift = (b % 64) as u64;
            assert(self.words()[(b / 64) as int] == word);
            let ghost c = b - run_len;
            if (word >> shift) & 1 == 1 {
                assert forall|t: int| 0 <= t < b + 1 && (t % 64) % (step as int) == 0
                    implies !#[trigger] free_upto(*self, t, n as int, b + 1) by {
                    if t < c {
                        assert(!free_upto(*self, t, n as int, b as int));
                    } else {
                        assert(self.used(b as int));
                    }
                }
                run_len = 0;
            } else if run_len > 0 || (b % 64) % step == 0 {
                assert forall|t: int| 0 <= t < c && (t % 64) % (step as int) == 0
                    implies !#[trigger] free_upto(*self, t, n as int, b + 1) by {
                    assert(!free_upto(*self, t, n as int, b as int));
                }
                run_len = run_len + 1;
                if run_len == n {
                    assert forall|t: int| 0 <= t < b + 1 - n implies !#[trigger] run_fits(*self, t, n as int, step as int) by {
                        if run_fits(*self, t, n as int, step as int) {
                            assert(!free_upto(*self, t, n as int, b + 1));
                        }
                    }
                    return Some(b + 1 - n);
                }
            } else {
                assert forall|t: int| 0 <= t < b + 1 && (t % 64) % (step as int) == 0
                    implies !#[trigger] free_upto(*self, t, n as int, b + 1) by {
                    assert(!free_upto(*self, t, n as int, b as int));
                }
            }
            b = b + 1;
        }
        assert forall|t: int| !#[trigger] run_fits(*self, t, n as int, step as int) by {
            if run_fits(*self, t, n as int, step as int) && t < b - run_len {
                assert(!free_upto(*self, t, n as int, b as int));
            }
        }
        None
    }

    /// Marks the free blocks `s .. s + n` used, backing each page that stops
    /// being empty with a fresh frame. Nothing changes when the ledger has
    /// fewer free frames than pages the run touches.
    fn claim(&mut self, s: usize, n: usize, mapper: &mut Mapper, frames: &mut FrameAllocator) -> (r: Result<(), AllocError>)
        requires
            old(self).wf(*old(mapper)),
            backed_by(*old(mapper), old(frames)@),
            1 <= n,
            s + n <= old(self).words().len() * 64,
            forall|b: int| s <= b < s + n ==> !#[trigger] old(self).used(b),
        ensures
            backed_by(*final(mapper), final(frames)@),
            r is Ok ==> final(self).wf(*final(mapper)) && final(self).base() == old(self).base()
                && final(self).words().len() == old(self).words().len()
                && forall|b: int| #[trigger] final(self).used(b) == (old(self).used(b) || s <= b < s + n),
            r is Err ==> r == Err::<(), AllocError>(AllocError::OutOfFrames) && *final(self) == *old(self)
                && *final(mapper) == *old(mapper) && final(frames)@ == old(frames)@,
            r is Ok <==> free_count(old(frames)@) >= pages_touched(s as int, n as int),
            r is Ok ==> forall|p: int| 0 <= p < old(self).words().len() && old(self).words()[p] != 0
                ==> final(self).words()[p] != 0 && #[trigger] final(mapper).frame_of(p) == old(mapper).frame_of(p),
    {
        let end: usize = s + n;
        let first_page: usize = s / 64;
        let last_page: usize = (end - 1) / 64;
        if !frames.has_free(last_page - first_page + 1) {
            return Err(AllocError::OutOfFrames);
        }
        let mut b: usize = s;
        let mut t: usize = first_page;
        while b < end
            invariant
                self.wf(*mapper),
                backed_by(*mapper, frames@),
                self.base() == old(self).base(),
                self.words().len() == old(self).words().len(),
                self.table@.len() == self.words().len(),
                end == s + n,
                end <= self.words().len() * 64,
                self.words().len() * 0x1000 <= usize::MAX,
                last_page == (end - 1) / 64,
                s <= b <= end,
                b < end ==> b / 64 == t,
                b < end ==> free_count(frames@) >= last_page - t + 1,
                forall|x: int| #[trigger] self.used(x) == (old(self).used(x) || s <= x < b),
                forall|x: int| s <= x < s + n ==> !#[trigger] old(self).used(x),
                forall|p: int| 0 <= p < old(self).words().len() && old(self).words()[p] != 0
                    ==> self.words()[p] != 0 && #[trigger] mapper.frame_of(p) == old(mapper).frame_of(p),
            decreases end - b,
        {
            let (cnt, m) = SLOB::calculate_bit_fields(t, b, end);
            let word = self.table[t].0;
            let ghost before = *self;
            let ghost off = (b - t * 64) as u64;
            assert(self.words()[t as int] == word);
            assert(!self.in_table(t as int) && t != 0) by {
                assert(!old(self).used(b as int));
                assert(!self.used(b as int));
                lemma_bit_full_empty(off);
            }
            let ghost mb = *mapper;
            if word == 0 {
                proof {
                    lemma_free_count_positive(frames@);
                }
                let ghost fb = frames@;
                let _ = mapper.auto_map(t, PageAttributes(PageAttributes::DATA), frames);
                proof {
                    let f = choose|f: int| crate::ledger::next_frame_step(fb, frames@, f);
                    lemma_free_count_claim(fb, f);
                }
            }
            self.table.set(t, BlockPage(word | m));
            proof {
                lemma_range_mask(off, cnt as u64, off);
                lemma_bit_or(word, m, off);
                lemma_bit_full_empty(off);
                assert(word | m != 0);
                assert(self.words() =~= before.words().update(t as int, word | m));
                assert forall|p: int| 0 <= p < old(self).words().len() && old(self).words()[p] != 0
                    implies self.words()[p] != 0 && #[trigger] mapper.frame_of(p) == old(mapper).frame_of(p) by {
                    assert(before.words()[p] != 0 && mb.frame_of(p) == old(mapper).frame_of(p));
                    if p == t {
                        assert(word != 0);
                    }
                }
                assert forall|x: int| #[trigger] self.used(x) == (old(self).used(x) || s <= x < b + cnt) by {
                    assert(before.used(x) == (old(self).used(x) || s <= x < b));
                    if 0 <= x && x / 64 == t {
                        let i = (x % 64) as u64;
                        lemma_range_mask(off, cnt as u64, i);
                        lemma_bit_or(word, m, i);
                    }
                }
                assert forall|p: int| #[trigger] self.in_table(p) implies self.words()[p] == u64::MAX by {
                    assert(before.in_table(p));
                }
                assert forall|p: int| #[trigger] mapper.frame_of(p) is Some
                    <==> (0 < p < self.words().len() && (self.in_table(p) || self.words()[p] != 0)) by {
                    assert(before.in_table(p) == self.in_table(p));
                    assert(mb.frame_of(p) is Some <==> (0 < p < before.words().len()
                        && (before.in_table(p) || before.words()[p] != 0)));
                }
                assert(self.wf(*mapper));
            }
            b = b + cnt;
            t = t + 1;
        }
        Ok(())
    }

    /// The first run of `count` empty pages in the table, if any.
    fn find_empty_pages(&self, count: usize) -> (r: Option<usize>)
        requires
            1 <= count,
        ensures
            r matches Some(start) ==> empty_run(self.words(), start as int, count as int)
                && forall|t: int| 0 <= t < start ==> !#[trigger] empty_run(self.words(), t, count as int),
            r is None ==> forall|t: int| !#[trigger] empty_run(self.words(), t, count as int),
    {
        let len = self.table.len();
        let mut run: usize = 0;
        let mut i: usize = 0;
        while i < len
            invariant
                len == self.words().len(),
                self.table@.len() == len,
                run <= i <= len,
                run < count,
                forall|p: int| i - run <= p < i ==> #[trigger] self.words()[p] == 0,
                forall|t: int| 0 <= t < i - run ==> !#[trigger] empty_upto(self.words(), t, count as int, i as int),
            decreases len - i,
        {
            let ghost c = i - run;
            assert(self.words()[i as int] == self.table@[i as int].0);
            if self.table[i].is_empty() {
                assert forall|t: int| 0 <= t < c implies !#[trigger] empty_upto(self.words(), t, count as int, i + 1) by {
                    assert(!empty_upto(self.words(), t, count as int, i as int));
                }
                run = run + 1;
                if run == count {
                    assert forall|t: int| 0 <= t < i + 1 - count implies !#[trigger] empty_run(self.words(), t, count as int) by {
                        assert(!empty_upto(self.words(), t, count as int, i + 1));
                    }
                    return Some(i + 1 - run);
                }
            } else {
                assert forall|t: int| 0 <= t < i + 1 implies !#[trigger] empty_upto(self.words(), t, count as int, i + 1) by {
                    if t < c {
                        assert(!empty_upto(self.words(), t, count as int, i as int));
                    } else {
                        assert(self.words()[i as int] != 0);
                    }
                }
                run = 0;
            }
            i = i + 1;
        }
        assert forall|t: int| !#[trigger] empty_run(self.words(), t, count as int) by {
            if empty_run(self.words(), t, count as int) && t < i - run {
                assert(!empty_upto(self.words(), t, count as int, i as int));
            }
        }
        None
    }

    /// Maps the table's future pages `start .. start + req_pages`: the first
    /// ones to the frames of the table's current pages, which are unmapped
    /// without freeing, the rest to fresh frames of the ledger.
    fn move_mappings(&self, start: usize, req_pages: usize, mapper: &mut Mapper, frames: &mut FrameAllocator)
        requires
            self.wf(*old(mapper)),
            backed_by(*old(mapper), old(frames)@),
            self.pages() < req_pages,
            start + req_pages < HEAP_SPAN_LIMIT / 0x1000,
            start + req_pages <= usize::MAX,
            free_count(old(frames)@) >= req_pages - self.pages(),
            forall|p: int| start <= p < start + req_pages ==> !#[trigger] self.in_table(p) && p != 0
                && old(mapper).frame_of(p) is None,
        ensures
            backed_by(*final(mapper), final(frames)@),
            final(frames)@.len() == old(frames)@.len(),
            forall|j: int| 0 <= j < old(frames)@.len() && old(frames)@[j] ==> #[trigger] final(frames)@[j],
            forall|p: int| start <= p < start + self.pages() ==> #[trigger] final(mapper).frame_of(p)
                == old(mapper).frame_of(self.base() + (p - start)),
            forall|p: int| start + self.pages() <= p < start + req_pages ==> {
                let f = #[trigger] final(mapper).frame_of(p);
                f is Some && f.unwrap() < old(frames)@.len() && !old(frames)@[f.unwrap() as int]
            },
            forall|p: int| self.in_table(p) ==> #[trigger] final(mapper).frame_of(p) is None,
            forall|p: int| !self.in_table(p) && !(start <= p < start + req_pages)
                ==> #[trigger] final(mapper).frame_of(p) == old(mapper).frame_of(p),
    {
        let base = self.table_base;
        let cur_pages = self.table.len() / ENTRIES_PER_PAGE;
        let ghost m0 = *mapper;
        let ghost f0 = frames@;
        let mut off: usize = 0;
        while off < req_pages
            invariant
                off <= req_pages,
                cur_pages < req_pages,
                cur_pages == self.pages(),
                base == self.base(),
                self.wf(m0),
                m0 == *old(mapper),
                f0 == old(frames)@,
                backed_by(*mapper, frames@),
                start + req_pages < HEAP_SPAN_LIMIT / 0x1000,
                start + req_pages <= usize::MAX,
                forall|p: int| start <= p < start + req_pages ==> !#[trigger] self.in_table(p) && p != 0
                    && m0.frame_of(p) is None,
                off >= cur_pages ==> free_count(frames@) >= req_pages - off,
                free_count(f0) >= req_pages - cur_pages,
                off < cur_pages ==> frames@ == f0,
                frames@.len() == f0.len(),
                forall|j: int| 0 <= j < f0.len() && f0[j] ==> #[trigger] frames@[j],
                forall|p: int| !(start + cur_pages <= p < start + off) ==> #[trigger] mapper.frame_of(p)
                    == if start <= p < start + off { m0.frame_of(base + (p - start)) }
                    else if base <= p < base + (if off < cur_pages { off } else { cur_pages }) { None }
                    else { m0.frame_of(p) },
                forall|p: int| start + cur_pages <= p < start + off ==> {
                    let f = #[trigger] mapper.frame_of(p);
                    f is Some && f.unwrap() < f0.len() && !f0[f.unwrap() as int]
                },
            decreases req_pages - off,
        {
            let ghost mb = *mapper;
            if off < cur_pages {
                assert(self.in_table(base + off));
                assert(m0.frame_of(base + off) is Some);
                assert(!self.in_table(start + off) && m0.frame_of(start + off) is None);
                assert(mb.frame_of(base + off) == m0.frame_of(base + off));
                assert(mb.frame_of(start + off) is None);
                let _ = mapper.copy_by_map(base + off, start + off, None);
                let ghost mc = *mapper;
                assert forall|p: int| #[trigger] mc.frame_of(p) == if p == start + off { mb.frame_of(base + off) }
                    else { mb.frame_of(p) } by {
                    assert(mc.entry_of(p) == if p == start + off { Some(crate::mapper::PageEntry {
                        frame: mb.entry_of(base + off).unwrap().frame,
                        attributes: mb.entry_of(base + off).unwrap().attributes,
                    }) } else { mb.entry_of(p) });
                }
                let _ = mapper.unmap(base + off, false, frames);
                proof {
                    assert forall|p: int| #[trigger] mapper.frame_of(p) == if p == base + off { None }
                        else { mc.frame_of(p) } by {
                        assert(mapper.entry_of(p) == if p == base + off { None } else { mc.entry_of(p) });
                    }
                    lemma_move_keeps_backed(mb, mc, *mapper, frames@, (base + off) as int, (start + off) as int);
                    assert forall|p: int| !(start + cur_pages <= p < start + off + 1) implies #[trigger] mapper.frame_of(p)
                        == if start <= p < start + off + 1 { m0.frame_of(base + (p - start)) }
                        else if base <= p < base + (if off + 1 < cur_pages { off + 1 } else { cur_pages as int }) { None }
                        else { m0.frame_of(p) } by {
                        assert(mc.frame_of(p) == if p == start + off { mb.frame_of(base + off) } else { mb.frame_of(p) });
                        if !(start <= p < start + off + 1) && !(base <= p < base + off + 1) {
                            assert(!(start + cur_pages <= p < start + off));
                        }
                    }
                    if off + 1 == cur_pages {
                        assert(free_count(frames@) >= req_pages - (off + 1));
                    }
                }
            } else {
                assert(!self.in_table(start + off) && m0.frame_of(start + off) is None);
                assert(!(start + cur_pages <= start + off < start + off));
                assert(mb.frame_of(start + off) is None);
                proof { lemma_free_count_positive(frames@); }
                let ghost fb = frames@;
                let res = mapper.auto_map(start + off, PageAttributes(PageAttributes::DATA), frames);
                proof {
                    let f = res.unwrap()@ as int;
                    assert(crate::ledger::next_frame_step(fb, frames@, f));
                    lemma_free_count_claim(fb, f);
                    assert(!f0[f]);
                    assert(mapper.frame_of((start + off) as int) == Some(f as u64));
                    assert forall|p: int| !(start + cur_pages <= p < start + off + 1) implies #[trigger] mapper.frame_of(p)
                        == if start <= p < start + off + 1 { m0.frame_of(base + (p - start)) }
                        else if base <= p < base + cur_pages { None }
                        else { m0.frame_of(p) } by {
                        assert(mapper.entry_of(p) == mb.entry_of(p));
                        assert(mb.frame_of(p) == mapper.frame_of(p));
                    }
                    assert forall|p: int| start + cur_pages <= p < start + off + 1 implies {
                        let g = #[trigger] mapper.frame_of(p);
                        g is Some && g.unwrap() < f0.len() && !f0[g.unwrap() as int]
                    } by {
                        if p != start + off {
                            assert(mapper.entry_of(p) == mb.entry_of(p));
                            assert(mb.frame_of(p) == mapper.frame_of(p));
                        }
                    }
                    assert forall|j: int| 0 <= j < f0.len() && f0[j] implies #[trigger] frames@[j] by {
                        assert(fb[j]);
                    }
                }
            }
            off = off + 1;
        }
    }

    /// Grows the table so that it covers at least `required_blocks` more
    /// blocks: its length becomes `next_len`, the next power of two past the
    /// current length plus the pages needed, in whole table pages. The table
    /// moves to the first run of empty pages that can hold it, or else to the
    /// end of the span it covered. The frames of the pages it held are mapped
    /// at the new place rather than copied, and the old pages unmapped without
    /// freeing; only the pages past the old page count get fresh frames. The
    /// new table's pages are marked full and the vacated ones empty. It fails,
    /// changing nothing, with `OutOfMemory` exactly when the new length passes
    /// the span bound, else with `OutOfFrames` exactly when the ledger lacks a
    /// free frame for each new page.
    pub fn grow(&mut self, required_blocks: usize, mapper: &mut Mapper, frames: &mut FrameAllocator) -> (r: Result<(), AllocError>)
        requires
            old(self).wf(*old(mapper)),
            backed_by(*old(mapper), old(frames)@),
            1 <= required_blocks,
        ensures
            backed_by(*final(mapper), final(frames)@),
            r is Ok <==> span_ok(next_len(old(self).words().len(), required_blocks as nat))
                && free_count(old(frames)@) >= (next_len(old(self).words().len(), required_blocks as nat) / 512) as int
                    - old(self).pages(),
            r matches Err(e) ==> (e == AllocError::OutOfMemory
                <==> !span_ok(next_len(old(self).words().len(), required_blocks as nat))),
            r is Ok ==> {
                &&& final(self).wf(*final(mapper))
                &&& final(self).words().len() == next_len(old(self).words().len(), required_blocks as nat)
                &&& final(self).words().len() > old(self).words().len()
                &&& grow_step(*old(self), *final(self))
                &&& forall|b: int| #[trigger] final(self).client_used(b) == old(self).client_used(b)
                &&& forall|p: int| 0 <= p < old(self).words().len() && !old(self).in_table(p) && !final(self).in_table(p)
                    ==> #[trigger] final(self).words()[p] == old(self).words()[p]
                &&& forall|p: int| 0 <= p < old(self).words().len() && old(self).words()[p] != 0 && !old(self).in_table(p)
                    ==> !#[trigger] final(self).in_table(p)
                &&& (empty_run(old(self).words(), final(self).base(), final(self).pages())
                    && forall|t: int| 0 <= t < final(self).base()
                        ==> !#[trigger] empty_run(old(self).words(), t, final(self).pages()))
                    || (final(self).base() == old(self).words().len()
                    && forall|t: int| !#[trigger] empty_run(old(self).words(), t, final(self).pages()))
                &&& forall|i: int| 0 <= i < old(self).pages() ==> #[trigger] final(mapper).frame_of(final(self).base() + i)
                    == old(mapper).frame_of(old(self).base() + i)
                &&& forall|i: int| old(self).pages() <= i < final(self).pages() ==> {
                    let f = #[trigger] final(mapper).frame_of(final(self).base() + i);
                    f is Some && f.unwrap() < old(frames)@.len() && !old(frames)@[f.unwrap() as int]
                }
                &&& forall|p: int| !old(self).in_table(p) && !final(self).in_table(p)
                    ==> #[trigger] final(mapper).frame_of(p) == old(mapper).frame_of(p)
                &&& forall|p: int| old(self).in_table(p) ==> #[trigger] final(mapper).frame_of(p) is None
                &&& final(frames)@.len() == old(frames)@.len()
                &&& forall|j: int| 0 <= j < old(frames)@.len() && old(frames)@[j] ==> #[trigger] final(frames)@[j]
            },
            r is Err ==> *final(self) == *old(self) && *final(mapper) == *old(mapper) && final(frames)@ == old(frames)@,
    {
        let cur_len = self.table.len();
        let cur_pages = cur_len / ENTRIES_PER_PAGE;
        let base = self.table_base;
        let extra: usize = required_blocks / 64 + if required_blocks % 64 == 0 { 0 } else { 1 };
        let ghost nl = next_len(cur_len as nat, required_blocks as nat);
        let ghost pw = pow2_from(1, (cur_len + extra) as nat);
        assert(extra == (required_blocks + 63) / 64);
        proof {
            assert(is_pow2(1));
            lemma_pow2_from(1, (cur_len + extra) as nat);
        }
        assert(nl >= pw);
        if extra > usize::MAX / 0x1000 - cur_len {
            assert(!span_ok(nl)) by (nonlinear_arith)
                requires nl >= cur_len + extra, cur_len + extra > usize::MAX / 0x1000;
            return Err(AllocError::OutOfMemory);
        }
        let target: usize = cur_len + extra;
        let mut req_len: usize = 1;
        while req_len < target
            invariant
                1 <= req_len,
                target <= usize::MAX / 0x1000,
                req_len <= 2 * target,
                pow2_from(req_len as nat, target as nat) == pw,
                target == cur_len + extra,
            decreases 2 * target - req_len,
        {
            req_len = req_len * 2;
        }
        assert(req_len == pw);
        let new_len: usize = req_len / ENTRIES_PER_PAGE * ENTRIES_PER_PAGE
            + if req_len % ENTRIES_PER_PAGE == 0 { 0 } else { ENTRIES_PER_PAGE };
        assert(new_len == nl);
        if new_len > usize::MAX / 0x1000 || (new_len as u64) >= HEAP_SPAN_LIMIT / 0x1000 {
            assert(!span_ok(nl)) by (nonlinear_arith)
                requires nl == new_len, new_len > usize::MAX / 0x1000 || new_len >= HEAP_SPAN_LIMIT / 0x1000;
            return Err(AllocError::OutOfMemory);
        }
        assert(span_ok(nl)) by (nonlinear_arith)
            requires nl == new_len, new_len <= usize::MAX / 0x1000, new_len < HEAP_SPAN_LIMIT / 0x1000;
        proof {
            lemma_pow2_mod_512(pw);
            lemma_pow2_double(cur_len as nat, pw);
        }
        assert(new_len == req_len);
        let req_pages: usize = new_len / ENTRIES_PER_PAGE;
        assert(new_len % 512 == 0);
        assert(req_pages > cur_pages);
        let found = self.find_empty_pages(req_pages);
        let start: usize = match found {
            Some(s) => s,
            None => cur_len,
        };
        assert(start + req_pages <= new_len) by (nonlinear_arith)
            requires
                found is Some ==> start + req_pages <= cur_len,
                found is None ==> start == cur_len,
                2 * cur_len <= new_len,
                new_len % 512 == 0,
                req_pages == new_len / 512,
                cur_len < new_len;
        if !frames.has_free(req_pages - cur_pages) {
            return Err(AllocError::OutOfFrames);
        }
        let ghost old_self = *self;
        let ghost m0 = *mapper;
        assert forall|p: int| start <= p < start + req_pages implies !old_self.in_table(p) && p != 0
            && m0.frame_of(p) is None by {
            if p < cur_len {
                assert(old_self.words()[p] == 0);
            }
        }

        // Move the table's mappings to the new place, then back the rest.
        self.move_mappings(start, req_pages, mapper, frames);
        proof {
            assert forall|p: int| (#[trigger] mapper.frame_of(p) is Some) == if start <= p < start + req_pages { true }
                else if base <= p < base + cur_pages { false } else { m0.frame_of(p) is Some } by {
                if start <= p < start + cur_pages {
                    assert(old_self.in_table(base + (p - start)));
                    assert(m0.frame_of(base + (p - start)) is Some);
                }
            }
        }

        // Lay out the new table, then install it.
        let mut table: Vec<BlockPage> = Vec::new();
        let mut p: usize = 0;
        while p < new_len
            invariant
                p <= new_len,
                table@.len() == p,
                start + req_pages <= new_len,
                base + cur_pages <= cur_len,
                *self == old_self,
                cur_len == old_self.words().len(),
                self.table@.len() == cur_len,
                base == old_self.base(),
                cur_pages == old_self.pages(),
                forall|q: int| 0 <= q < p ==> (#[trigger] table@[q]).0 == grown_word(old_self.words(),
                    base as int, cur_pages as int, start as int, req_pages as int, q),
            decreases new_len - p,
        {
            let word: u64 = if start <= p && p < start + req_pages {
                u64::MAX
            } else if base <= p && p < base + cur_pages {
                0
            } else if p < cur_len {
                assert(old_self.words()[p as int] == self.table@[p as int].0);
                self.table[p].0
            } else {
                0
            };
            table.push(BlockPage(word));
            p = p + 1;
        }
        self.table = table;
        self.table_base = start;
        assert(self.words() =~= Seq::new(new_len as nat, |q: int| grown_word(old_self.words(),
            base as int, cur_pages as int, start as int, req_pages as int, q)));
        assert(self.pages() == req_pages);
        assert forall|q: int| #[trigger] self.in_table(q) implies self.words()[q] == u64::MAX by {}
        assert(self.words()[0] == u64::MAX) by {
            assert(old_self.words()[0] == u64::MAX);
            if base <= 0 {
            }
        }
        assert forall|q: int| #[trigger] mapper.frame_of(q) is Some
            <==> (0 < q < self.words().len() && (self.in_table(q) || self.words()[q] != 0)) by {
            assert(m0.frame_of(q) is Some <==> (0 < q < old_self.words().len()
                && (old_self.in_table(q) || old_self.words()[q] != 0)));
        }
        if start < cur_len {
            assert forall|q: int| #[trigger] self.in_table(q) implies old_self.words()[q] == 0 by {}
        }
        proof {
            SLOB::lemma_grow_keeps_clients(old_self, *self, m0, *mapper);
            assert forall|q: int| 0 <= q < cur_len && old_self.words()[q] != 0 && !old_self.in_table(q)
                implies !#[trigger] self.in_table(q) by {
                if self.in_table(q) {
                    assert(start < cur_len);
                    assert(old_self.words()[q] == 0);
                }
            }
            assert forall|q: int| 0 <= q < cur_len && !old_self.in_table(q) && !self.in_table(q)
                implies #[trigger] self.words()[q] == old_self.words()[q] by {
                assert(self.words()[q] == grown_word(old_self.words(), base as int, cur_pages as int, start as int,
                    req_pages as int, q));
            }
        }
        Ok(())
    }

    /// A free block of a well-formed heap lies outside page 0 and the table.
    proof fn lemma_free_block_is_client(&self, mapper: Mapper, b: int)
        requires
            self.wf(mapper),
            0 <= b < self.words().len() * 64,
            !self.used(b),
        ensures
            b >= 64,
            !self.in_table(b / 64),
    {
        lemma_bit_full_empty((b % 64) as u64);
        if b < 64 {
            assert(self.words()[0] == u64::MAX);
        }
        if self.in_table(b / 64) {
            assert(self.words()[b / 64] == u64::MAX);
        }
    }

    /// Growing and moving the table keeps the status of every block that a
    /// client uses, and hands no client block to the table: the heap before
    /// and after agree on every block outside the table.
    pub proof fn lemma_grow_keeps_clients(old_heap: SLOB, new_heap: SLOB, old_mapper: Mapper, new_mapper: Mapper)
        requires
            old_heap.wf(old_mapper),
            new_heap.wf(new_mapper),
            grow_step(old_heap, new_heap),
        ensures
            forall|b: int| #[trigger] new_heap.client_used(b) == old_heap.client_used(b),
    {
        assert forall|b: int| #[trigger] new_heap.client_used(b) == old_heap.client_used(b) by {
            let p = b / 64;
            lemma_bit_full_empty((b % 64) as u64);
            if b >= 0 && new_heap.in_table(p) && p < old_heap.words().len() {
                assert(old_heap.words()[p] == 0);
            }
        }
    }

    /// Sets up the heap in a fresh address space: page 0 is the null page,
    /// page 1 holds the first table, of one page, backed by a fresh frame.
    pub fn new(mapper: &mut Mapper, frames: &mut FrameAllocator) -> (r: Result<SLOB, AllocError>)
        requires
            forall|p: int| #[trigger] old(mapper).entry_of(p) is None,
        ensures
            r is Ok <==> exists|j: int| 0 <= j < old(frames)@.len() && !#[trigger] old(frames)@[j],
            backed_by(*final(mapper), final(frames)@),
            r matches Ok(h) ==> h.wf(*final(mapper)) && h.words().len() == 512 && h.base() == 1
                && forall|b: int| !#[trigger] h.client_used(b),
            r is Err ==> r == Err::<SLOB, AllocError>(AllocError::OutOfFrames)
                && *final(mapper) == *old(mapper) && final(frames)@ == old(frames)@,
    {
        assert(backed_by(*mapper, frames@));
        match mapper.auto_map(1, PageAttributes(PageAttributes::DATA), frames) {
            Ok(_) => {},
            Err(_) => {
                return Err(AllocError::OutOfFrames);
            },
        }
        let mut table: Vec<BlockPage> = Vec::new();
        let mut p: usize = 0;
        while p < 512
            invariant
                p <= 512,
                table@.len() == p,
                forall|q: int| 0 <= q < p ==> (#[trigger] table@[q]).0 == if q <= 1 { u64::MAX } else { 0 },
            decreases 512 - p,
        {
            table.push(BlockPage(if p <= 1 { u64::MAX } else { 0 }));
            p = p + 1;
        }
        let h = SLOB { table, table_base: 1 };
        proof { lemma_pow2_512(); }
        assert(h.words() =~= Seq::new(512, |q: int| if q <= 1 { u64::MAX } else { 0u64 }));
        assert forall|b: int| !#[trigger] h.client_used(b) by {
            lemma_bit_full_empty((b % 64) as u64);
        }
        Ok(h)
    }

    /// Allocates `size` bytes (at least one block) aligned as `align` asks:
    /// the lowest run of free blocks that starts at a multiple of
    /// `align_step(align)` within its page. Where no run fits, the table
    /// grows and the search starts over. Returns the run's address. On
    /// failure no client block has changed, though the table may have grown.
    pub fn allocate(&mut self, size: usize, align: usize, mapper: &mut Mapper, frames: &mut FrameAllocator)
        -> (r: Result<usize, AllocError>)
        requires
            old(self).wf(*old(mapper)),
            backed_by(*old(mapper), old(frames)@),
        ensures
            final(self).wf(*final(mapper)),
            backed_by(*final(mapper), final(frames)@),
            r matches Ok(addr) ==> addr % 64 == 0 && ((addr / 64 % 64) as int) % align_step(align) == 0
                && alloc_step(*old(self), *final(self), (addr / 64) as int, blocks_for(size))
                && forall|t: int| 0 <= t < addr / 64 ==> !#[trigger] fits_besides(*final(self), t, blocks_for(size),
                    align_step(align), (addr / 64) as int),
            r is Err ==> forall|b: int| #[trigger] final(self).client_used(b) == old(self).client_used(b),
            (exists|t: int| run_fits(*old(self), t, blocks_for(size), align_step(align)))
                && free_count(old(frames)@) >= blocks_for(size) / 64 + 2 ==> r is Ok,
            r == Err::<usize, AllocError>(AllocError::OutOfMemory)
                ==> !span_ok(next_len(final(self).words().len(), blocks_for(size) as nat))
                && forall|t: int| !#[trigger] run_fits(*final(self), t, blocks_for(size), align_step(align)),
            r == Err::<usize, AllocError>(AllocError::OutOfFrames) ==> {
                ||| (exists|t: int| run_fits(*final(self), t, blocks_for(size), align_step(align)))
                    && free_count(final(frames)@) < blocks_for(size) / 64 + 2
                ||| (forall|t: int| !#[trigger] run_fits(*final(self), t, blocks_for(size), align_step(align)))
                    && span_ok(next_len(final(self).words().len(), blocks_for(size) as nat))
                    && free_count(final(frames)@) < (next_len(final(self).words().len(), blocks_for(size) as nat)
                        / 512) as int - final(self).pages()
            },
            forall|p: int| 0 <= p < old(self).words().len() && old(self).words()[p] != 0 && !old(self).in_table(p)
                ==> !final(self).in_table(p) && #[trigger] final(mapper).frame_of(p) == old(mapper).frame_of(p),
    {
        let step: usize = if align / 64 >= 64 { 64 } else if align / 64 >= 1 { align / 64 } else { 1 };
        let n: usize = if size <= 64 { 1 } else { size / 64 + if size % 64 == 0 { 0 } else { 1 } };
        assert(n == blocks_for(size));
        let mut s: usize = 0;
        loop
            invariant
                self.wf(*mapper),
                backed_by(*mapper, frames@),
                1 <= step <= 64,
                step == align_step(align),
                1 <= n,
                n == blocks_for(size),
                forall|b: int| #[trigger] self.client_used(b) == old(self).client_used(b),
                (exists|t: int| run_fits(*old(self), t, n as int, step as int))
                    ==> *self == *old(self) && frames@ == old(frames)@,
                forall|p: int| 0 <= p < old(self).words().len() && old(self).words()[p] != 0 && !old(self).in_table(p)
                    ==> p < self.words().len() && self.words()[p] == old(self).words()[p] && !self.in_table(p)
                    && #[trigger] mapper.frame_of(p) == old(mapper).frame_of(p),
            ensures
                self.wf(*mapper),
                backed_by(*mapper, frames@),
                forall|b: int| #[trigger] self.client_used(b) == old(self).client_used(b),
                (exists|t: int| run_fits(*old(self), t, n as int, step as int))
                    ==> *self == *old(self) && frames@ == old(frames)@,
                forall|p: int| 0 <= p < old(self).words().len() && old(self).words()[p] != 0 && !old(self).in_table(p)
                    ==> p < self.words().len() && self.words()[p] == old(self).words()[p] && !self.in_table(p)
                    && #[trigger] mapper.frame_of(p) == old(mapper).frame_of(p),
                run_fits(*self, s as int, n as int, step as int),
                forall|t: int| 0 <= t < s ==> !#[trigger] run_fits(*self, t, n as int, step as int),
            decreases HEAP_SPAN_LIMIT / 0x1000 - self.words().len(),
        {
            match self.find_run(n, step) {
                Some(found) => {
                    s = found;
                    break;
                },
                None => {
                    let ghost before = *self;
                    let ghost mb = *mapper;
                    let ghost fb = frames@;
                    match self.grow(n, mapper, frames) {
                        Ok(()) => {
                            proof {
                                SLOB::lemma_grow_keeps_clients(before, *self, mb, *mapper);
                                assert forall|p: int| 0 <= p < old(self).words().len() && old(self).words()[p] != 0
                                    && !old(self).in_table(p) implies p < self.words().len()
                                    && self.words()[p] == old(self).words()[p] && !self.in_table(p)
                                    && #[trigger] mapper.frame_of(p) == old(mapper).frame_of(p) by {
                                    assert(mb.frame_of(p) == old(mapper).frame_of(p));
                                    assert(before.words()[p] != 0 && !before.in_table(p));
                                    if self.in_table(p) {
                                        assert(self.base() != before.words().len());
                                        assert(empty_run(before.words(), self.base(), self.pages()));
                                        assert(before.words()[p] == 0);
                                    }
                                    assert(self.words()[p] == grown_word(before.words(), before.base(), before.pages(),
                                        self.base(), self.pages(), p));
                                }
                            }
                        },
                        Err(e) => {
                            return Err(e);
                        },
                    }
                },
            }
        }
        let ghost before = *self;
        let ghost mb = *mapper;
        assert forall|b: int| s <= b < s + n implies !#[trigger] before.client_used(b) && b >= 64
            && !before.in_table(b / 64) by {
            assert(!before.used(b));
            self.lemma_free_block_is_client(*mapper, b);
        }
        proof { lemma_pages_touched(s as int, n as int); }
        match self.claim(s, n, mapper, frames) {
            Ok(()) => {
                assert forall|p: int| 0 <= p < old(self).words().len() && old(self).words()[p] != 0
                    && !old(self).in_table(p) implies !self.in_table(p)
                    && #[trigger] mapper.frame_of(p) == old(mapper).frame_of(p) by {
                    assert(mb.frame_of(p) == old(mapper).frame_of(p));
                    assert(before.words()[p] != 0);
                    assert(self.in_table(p) == before.in_table(p));
                }
                assert((s * 64) % 64 == 0 && (s * 64) / 64 == s) by (nonlinear_arith);
                assert forall|b: int| #[trigger] self.client_used(b) == (before.client_used(b) || s <= b < s + n) by {
                    assert(self.used(b) == (before.used(b) || s <= b < s + n));
                    assert(self.in_table(b / 64) == before.in_table(b / 64));
                    if s <= b < s + n {
                        assert(!before.client_used(b));
                    }
                }
                assert forall|b: int| #[trigger] self.client_used(b) == (old(self).client_used(b) || s <= b < s + n) by {
                    assert(before.client_used(b) == old(self).client_used(b));
                    assert(self.client_used(b) == (before.client_used(b) || s <= b < s + n));
                }
                assert forall|b: int| s <= b < s + n implies !#[trigger] old(self).client_used(b) by {
                    assert(before.client_used(b) == old(self).client_used(b));
                    assert(!before.client_used(b));
                }
                assert forall|t: int| 0 <= t < s implies !#[trigger] fits_besides(*self, t, n as int,
                    step as int, s as int) by {
                    if fits_besides(*self, t, n as int, step as int, s as int) {
                        assert forall|x: int| t <= x < t + n implies !#[trigger] before.used(x) by {
                            assert(self.used(x) == (before.used(x) || s <= x < s + n));
                        }
                        assert(run_fits(before, t, n as int, step as int));
                    }
                }
                Ok(s * 64)
            },
            Err(e) => Err(e),
        }
    }

    /// Whether every block of the `size` bytes at `addr` is in client use,
    /// as it is for what `allocate` handed out and was not freed since.
    pub fn is_allocated(&self, addr: usize, size: usize) -> (r: bool)
        requires
            self.words().len() * 0x1000 <= usize::MAX,
        ensures
            r == forall|b: int| (addr / 64) as int <= b < (addr / 64) as int + blocks_for(size)
                ==> #[trigger] self.client_used(b),
    {
        let len = self.table.len();
        let total: usize = len * 64;
        let s: usize = addr / 64;
        let n: usize = if size <= 64 { 1 } else { size / 64 + if size % 64 == 0 { 0 } else { 1 } };
        assert(n == blocks_for(size));
        if s >= total || n > total - s {
            assert(!self.client_used(if s >= total { s as int } else { total as int }));
            return false;
        }
        let end: usize = s + n;
        let base = self.table_base;
        let pages = len / 512;
        let mut b: usize = s;
        while b < end
            invariant
                s <= b <= end,
                end == s + n,
                end <= total,
                total == self.words().len() * 64,
                self.table@.len() == self.words().len(),
                base == self.base(),
                pages == self.pages(),
                n == blocks_for(size),
                s == addr / 64,
                forall|x: int| s <= x < b ==> #[trigger] self.client_used(x),
            decreases end - b,
        {
            let word = self.table[b / 64].0;
            assert(self.words()[(b / 64) as int] == word);
            let page = b / 64;
            if (word >> ((b % 64) as u64)) & 1 != 1 || b < 64 || (base <= page && page - base < pages) {
                assert(!self.client_used(b as int));
                return false;
            }
            b = b + 1;
        }
        true
    }

    /// Frees the blocks that `allocate` handed out at `addr` for `size` bytes;
    /// every block of the range must be in client use (freeing one twice is
    /// a caller's fault, which `is_allocated` tells beforehand). Each page
    /// left with no used block is unmapped at once and its frame returned to
    /// the ledger.
    pub fn deallocate(&mut self, addr: usize, size: usize, mapper: &mut Mapper, frames: &mut FrameAllocator)
        requires
            old(self).wf(*old(mapper)),
            backed_by(*old(mapper), old(frames)@),
            forall|b: int| (addr / 64) as int <= b < (addr / 64) as int + blocks_for(size)
                ==> #[trigger] old(self).client_used(b),
        ensures
            final(self).wf(*final(mapper)),
            backed_by(*final(mapper), final(frames)@),
            free_step(*old(self), *final(self), (addr / 64) as int, blocks_for(size)),
            final(self).base() == old(self).base(),
            final(self).words().len() == old(self).words().len(),
            forall|p: int| #[trigger] final(mapper).frame_of(p) == if 0 <= p < old(self).words().len()
                && old(self).words()[p] != 0 && final(self).words()[p] == 0 { None } else { old(mapper).frame_of(p) },
            final(frames)@.len() == old(frames)@.len(),
            forall|j: int| 0 <= j < old(frames)@.len() ==> #[trigger] final(frames)@[j] == (old(frames)@[j]
                && !freed_frame(old(self).words(), final(self).words(), *old(mapper), old(self).words().len() as int, j)),
    {
        let s: usize = addr / 64;
        let n: usize = if size <= 64 { 1 } else { size / 64 + if size % 64 == 0 { 0 } else { 1 } };
        assert(n == blocks_for(size));
        assert(old(self).client_used(s + n - 1));
        let end: usize = s + n;

        let ghost w0 = self.words();
        let ghost m0 = *mapper;
        let ghost f0 = frames@;
        let first_page: usize = s / 64;
        let last_page: usize = (end - 1) / 64;
        let mut b: usize = s;
        let mut t: usize = first_page;
        while b < end
            invariant
                self.wf(*mapper),
                backed_by(*mapper, frames@),
                self.base() == old(self).base(),
                self.words().len() == w0.len(),
                self.table@.len() == self.words().len(),
                w0 == old(self).words(),
                m0 == *old(mapper),
                f0 == old(frames)@,
                old(self).wf(m0),
                end == s + n,
                end <= w0.len() * 64,
                w0.len() * 0x1000 <= usize::MAX,
                last_page == (end - 1) / 64,
                first_page == s / 64,
                s <= b <= end,
                first_page <= t <= last_page + 1,
                b < end ==> b / 64 == t,
                b == end ==> t == last_page + 1,
                b > s && b < end ==> b == t * 64,
                forall|x: int| s <= x < end ==> #[trigger] old(self).client_used(x),
                forall|x: int| #[trigger] self.used(x) == (old(self).used(x) && !(s <= x < b)),
                forall|p: int| 0 <= p < w0.len() && (p < first_page || p >= t) ==> #[trigger] self.words()[p] == w0[p],
                forall|p: int| #[trigger] mapper.frame_of(p) == if 0 <= p < t && w0[p] != 0 && self.words()[p] == 0
                    { None } else { m0.frame_of(p) },
                frames@.len() == f0.len(),
                forall|j: int| 0 <= j < f0.len() ==> #[trigger] frames@[j] == (f0[j]
                    && !freed_frame(w0, self.words(), m0, t as int, j)),
            decreases end - b,
        {
            let (cnt, m) = SLOB::calculate_bit_fields(t, b, end);
            let word = self.table[t].0;
            let ghost before = *self;
            let ghost mb = *mapper;
            let ghost fb = frames@;
            let ghost off = (b - t * 64) as u64;
            assert(self.words()[t as int] == word);
            assert(word == w0[t as int]);
            assert(old(self).client_used(b as int));
            assert(!self.in_table(t as int) && t != 0 && word != 0) by {
                assert(old(self).used(b as int));
                lemma_bit_full_empty(off);
                assert(self.in_table(t as int) == old(self).in_table(t as int));
            }
            let cleared = word & !m;
            self.table.set(t, BlockPage(cleared));
            assert(self.words() =~= before.words().update(t as int, cleared));
            proof {
                assert forall|x: int| #[trigger] self.used(x) == (old(self).used(x) && !(s <= x < b + cnt)) by {
                    assert(before.used(x) == (old(self).used(x) && !(s <= x < b)));
                    if 0 <= x && x / 64 == t {
                        let i = (x % 64) as u64;
                        lemma_range_mask(off, cnt as u64, i);
                        lemma_bit_clear(word, m, i);
                    }
                }
                assert forall|p: int| #[trigger] self.in_table(p) implies self.words()[p] == u64::MAX by {
                    assert(before.in_table(p));
                }
            }
            if cleared == 0 {
                assert(mb.frame_of(t as int) == m0.frame_of(t as int));
                assert(m0.frame_of(t as int) is Some) by {
                    assert(w0[t as int] != 0);
                    assert(!old(self).in_table(t as int));
                }
                let _ = mapper.unmap(t, true, frames);
                proof {
                    let f = m0.frame_of(t as int).unwrap() as int;
                    assert forall|j: int| 0 <= j < f0.len() implies #[trigger] frames@[j] == (f0[j]
                        && !freed_frame(w0, self.words(), m0, t + 1, j)) by {
                        assert(fb[j] == (f0[j] && !freed_frame(w0, before.words(), m0, t as int, j)));
                        if freed_frame(w0, self.words(), m0, t + 1, j) {
                            let p = choose|p: int| 0 <= p < t + 1 && #[trigger] w0[p] != 0 && self.words()[p] == 0
                                && maps_to(m0, p, j);
                            if p < t {
                                assert(before.words()[p] == self.words()[p]);
                                assert(freed_frame(w0, before.words(), m0, t as int, j));
                            } else {
                                assert(j == f);
                            }
                        }
                        if freed_frame(w0, before.words(), m0, t as int, j) {
                            let p = choose|p: int| 0 <= p < t && #[trigger] w0[p] != 0 && before.words()[p] == 0
                                && maps_to(m0, p, j);
                            assert(before.words()[p] == self.words()[p]);
                            assert(freed_frame(w0, self.words(), m0, t + 1, j));
                        }
                        if j == f {
                            assert(w0[t as int] != 0 && self.words()[t as int] == 0);
                            assert(freed_frame(w0, self.words(), m0, t + 1, j));
                        }
                    }
                }
            } else {
                proof {
                    assert forall|j: int| 0 <= j < f0.len() implies #[trigger] frames@[j] == (f0[j]
                        && !freed_frame(w0, self.words(), m0, t + 1, j)) by {
                        assert(fb[j] == (f0[j] && !freed_frame(w0, before.words(), m0, t as int, j)));
                        if freed_frame(w0, self.words(), m0, t + 1, j) {
                            let p = choose|p: int| 0 <= p < t + 1 && #[trigger] w0[p] != 0 && self.words()[p] == 0
                                && maps_to(m0, p, j);
                            assert(p != t);
                            assert(before.words()[p] == self.words()[p]);
                            assert(freed_frame(w0, before.words(), m0, t as int, j));
                        }
                        if freed_frame(w0, before.words(), m0, t as int, j) {
                            let p = choose|p: int| 0 <= p < t && #[trigger] w0[p] != 0 && before.words()[p] == 0
                                && maps_to(m0, p, j);
                            assert(before.words()[p] == self.words()[p]);
                            assert(freed_frame(w0, self.words(), m0, t + 1, j));
                        }
                    }
                }
            }
            proof {
                assert forall|p: int| #[trigger] mapper.frame_of(p) == if 0 <= p < t + 1 && w0[p] != 0
                    && self.words()[p] == 0 { None } else { m0.frame_of(p) } by {
                    assert(mb.frame_of(p) == if 0 <= p < t && w0[p] != 0 && before.words()[p] == 0
                        { None } else { m0.frame_of(p) });
                    if p != t && 0 <= p < w0.len() {
                        assert(before.words()[p] == self.words()[p]);
                    }
                }
                assert forall|p: int| #[trigger] mapper.frame_of(p) is Some
                    <==> (0 < p < self.words().len() && (self.in_table(p) || self.words()[p] != 0)) by {
                    assert(before.in_table(p) == self.in_table(p));
                    assert(mb.frame_of(p) is Some <==> (0 < p < before.words().len()
                        && (before.in_table(p) || before.words()[p] != 0)));
                }
            }
            b = b + cnt;
            t = t + 1;
        }
        proof {
            assert forall|x: int| #[trigger] self.client_used(x) == (old(self).client_used(x) && !(s <= x < s + n)) by {
                assert(self.in_table(x / 64) == old(self).in_table(x / 64));
            }
            assert forall|p: int| #[trigger] mapper.frame_of(p) == if 0 <= p < w0.len() && w0[p] != 0
                && self.words()[p] == 0 { None } else { m0.frame_of(p) } by {
                if p >= t && p < w0.len() {
                    assert(self.words()[p] == w0[p]);
                }
            }
            assert forall|j: int| 0 <= j < f0.len() implies #[trigger] frames@[j] == (f0[j]
                && !freed_frame(w0, self.words(), m0, w0.len() as int, j)) by {
                if freed_frame(w0, self.words(), m0, w0.len() as int, j) {
                    let p = choose|p: int| 0 <= p < w0.len() && #[trigger] w0[p] != 0 && self.words()[p] == 0
                        && maps_to(m0, p, j);
                    if p >= t {
                        assert(self.words()[p] == w0[p]);
                    }
                    assert(freed_frame(w0, self.words(), m0, t as int, j));
                }
                if freed_frame(w0, self.words(), m0, t as int, j) {
                    let p = choose|p: int| 0 <= p < t && #[trigger] w0[p] != 0 && self.words()[p] == 0
                        && maps_to(m0, p, j);
                    assert(t <= w0.len());
                    assert(freed_frame(w0, self.words(), m0, w0.len() as int, j));
                }
            }
        }
    }
}

/// Whether the block ranges `live` (start, count) are each wholly in client
/// use in `heap` and pairwise disjoint.
pub open spec fn live_ok(heap: SLOB, live: Seq<(int, int)>) -> bool {
    &&& forall|i: int, b: int| #![trigger live[i], heap.client_used(b)]
        0 <= i < live.len() && live[i].0 <= b < live[i].0 + live[i].1 ==> heap.client_used(b)
    &&& forall|i: int, k: int| 0 <= i < live.len() && 0 <= k < live.len() && i != k
        ==> #[trigger] disjoint(live[i], live[k])
}

/// Whether two block ranges share no block.
pub open spec fn disjoint(a: (int, int), b: (int, int)) -> bool {
    a.0 + a.1 <= b.0 || b.0 + b.1 <= a.0 || a.1 <= 0 || b.1 <= 0
}

/// An allocation never overlaps a live one: if the live allocations are in
/// client use and pairwise disjoint, they stay so with the new one added.
pub proof fn lemma_allocate_keeps_live_disjoint(before: SLOB, after: SLOB, live: Seq<(int, int)>, s: int, n: int)
    requires
        live_ok(before, live),
        alloc_step(before, after, s, n),
        n >= 1,
    ensures
        live_ok(after, live.push((s, n))),
{
    let next = live.push((s, n));
    assert forall|i: int, b: int| #![trigger next[i], after.client_used(b)]
        0 <= i < next.len() && next[i].0 <= b < next[i].0 + next[i].1 implies after.client_used(b) by {
        if i < live.len() {
            assert(live[i] == next[i]);
            assert(before.client_used(b));
        }
    }
    assert forall|i: int, k: int| 0 <= i < next.len() && 0 <= k < next.len() && i != k
        implies #[trigger] disjoint(next[i], next[k]) by {
        if i < live.len() && k < live.len() {
            assert(disjoint(live[i], live[k]));
        } else {
            let j = if i < live.len() { i } else { k };
            let lv = live[j];
            if !disjoint(lv, (s, n)) {
                let b = if lv.0 <= s { s } else { lv.0 };
                assert(before.client_used(b));
                assert(!before.client_used(b));
            }
        }
    }
}

/// Freeing a live allocation leaves the other live allocations in client
/// use and pairwise disjoint.
pub proof fn lemma_free_keeps_live_disjoint(before: SLOB, after: SLOB, live: Seq<(int, int)>, k: int)
    requires
        live_ok(before, live),
        0 <= k < live.len(),
        free_step(before, after, live[k].0, live[k].1),
    ensures
        live_ok(after, live.remove(k)),
{
    let rest = live.remove(k);
    assert forall|i: int, b: int| #![trigger rest[i], after.client_used(b)]
        0 <= i < rest.len() && rest[i].0 <= b < rest[i].0 + rest[i].1 implies after.client_used(b) by {
        let j = if i < k { i } else { i + 1 };
        assert(rest[i] == live[j]);
        assert(before.client_used(b));
        assert(disjoint(live[j], live[k]));
    }
    assert forall|i: int, m: int| 0 <= i < rest.len() && 0 <= m < rest.len() && i != m
        implies #[trigger] disjoint(rest[i], rest[m]) by {
        let ji = if i < k { i } else { i + 1 };
        let jm = if m < k { m } else { m + 1 };
        assert(rest[i] == live[ji] && rest[m] == live[jm]);
        assert(disjoint(live[ji], live[jm]));
    }
}

/// Allocating blocks and freeing the same blocks gives back the heap's
/// client view as it was: no other block is touched.
pub proof fn lemma_allocate_free_round_trip(h0: SLOB, h1: SLOB, h2: SLOB, s: int, n: int)
    requires
        alloc_step(h0, h1, s, n),
        free_step(h1, h2, s, n),
    ensures
        forall|b: int| #[trigger] h2.client_used(b) == h0.client_used(b),
{
    assert forall|b: int| #[trigger] h2.client_used(b) == h0.client_used(b) by {
        assert(h1.client_used(b) == (h0.client_used(b) || s <= b < s + n));
        if s <= b < s + n {
            assert(!h0.client_used(b));
        }
    }
}

} // verus!
