use kmem::ledger::{FrameAllocator, MemoryRegion};
use kmem::malloc::{get, KernelHeap, MemoryAllocator};
use kmem::cell::SyncOnceCell;
use kmem::mapper::PageAttributes;
use kmem::mapper::Mapper;
use kmem::slob::{AllocError, BlockPage, SLOB};

/// A heap over 16 MiB of physical memory, with the ledger at frame 256.
fn heap() -> KernelHeap {
    let regions = vec![MemoryRegion { start: 0x100000, end: 0x200000 }];
    let frames = FrameAllocator::new(&regions, 0x100_0000).unwrap();
    KernelHeap::new(frames).unwrap()
}

#[test]
fn fresh_heap_reserves_null_and_table_pages() {
    let k = heap();
    assert_eq!(k.heap().table_len(), 512);
    assert_eq!(k.heap().table_page(), 1);
    assert_eq!(k.heap().page_value(0), Some(u64::MAX));
    assert_eq!(k.heap().page_value(1), Some(u64::MAX));
    assert_eq!(k.heap().page_value(2), Some(0));
    assert_eq!(k.heap().page_value(512), None);
    assert!(k.mapper().frame_at(0).is_none());
    assert_eq!(k.mapper().frame_at(1), Some(1));
    assert!(k.mapper().frame_at(2).is_none());
    assert!(k.frames().is_used(1));
}

#[test]
fn first_allocation_lands_after_table() {
    let mut k = heap();
    assert_eq!(k.allocate(0, 1), Ok(2 * 0x1000));
    assert!(k.heap().is_used(128));
    assert!(!k.heap().is_used(129));
    assert_eq!(k.mapper().frame_at(2), Some(2));
    assert_eq!(k.mapper().entry(2).unwrap().attributes, PageAttributes(PageAttributes::DATA));
    assert!(k.frames().is_used(2));
}

#[test]
fn live_allocations_do_not_overlap() {
    let mut k = heap();
    let a = k.allocate(100, 8).unwrap();
    let b = k.allocate(64, 8).unwrap();
    let c = k.allocate(200, 8).unwrap();
    assert_eq!(a, 0x2000);
    assert_eq!(b, 0x2000 + 128);
    assert_eq!(c, 0x2000 + 192);
    k.deallocate(b, 64);
    let d = k.allocate(64, 8).unwrap();
    assert_eq!(d, b);
    let e = k.allocate(128, 8).unwrap();
    assert_eq!(e, c + 256);
}

#[test]
fn alignment_moves_start_within_page() {
    let mut k = heap();
    assert_eq!(k.allocate(64, 8), Ok(0x2000));
    // 256-byte alignment: a run must start at a multiple of four blocks.
    assert_eq!(k.allocate(64, 256), Ok(0x2000 + 4 * 64));
    // Page alignment: a run must start at a page.
    assert_eq!(k.allocate(64, 0x1000), Ok(0x3000));
}

#[test]
fn freeing_last_block_unmaps_page_and_frees_frame() {
    let mut k = heap();
    let a = k.allocate(64, 8).unwrap();
    let b = k.allocate(64, 8).unwrap();
    let frame = k.mapper().frame_at(2).unwrap();
    assert!(k.is_allocated(a, 64));
    k.deallocate(a, 64);
    assert_eq!(k.mapper().frame_at(2), Some(frame));
    assert!(k.frames().is_used(frame as usize));
    assert!(k.is_allocated(b, 64));
    k.deallocate(b, 64);
    assert!(k.mapper().frame_at(2).is_none());
    assert!(!k.frames().is_used(frame as usize));
    assert_eq!(k.heap().page_value(2), Some(0));
}

#[test]
fn double_free_is_rejected() {
    let mut k = heap();
    let a = k.allocate(64, 8).unwrap();
    assert!(k.is_allocated(a, 64));
    k.deallocate(a, 64);
    assert!(!k.is_allocated(a, 64));
    assert!(!k.is_allocated(0x5000, 64));
}

#[test]
fn freeing_table_or_null_page_is_rejected() {
    let mut k = heap();
    assert!(!k.is_allocated(0, 64));
    assert!(!k.is_allocated(0x1000, 64));
    assert!(!k.is_allocated(0x1000_0000, 64));
    assert_eq!(k.heap().page_value(1), Some(u64::MAX));
}

#[test]
fn partly_free_range_changes_nothing() {
    let mut k = heap();
    let a = k.allocate(64, 8).unwrap();
    assert!(!k.is_allocated(a, 128));
    assert!(k.heap().is_used(128));
    assert!(k.is_allocated(a, 64));
    k.deallocate(a, 64);
}

#[test]
fn zero_size_round_trip() {
    let mut k = heap();
    let a = k.allocate(0, 1).unwrap();
    assert_eq!(a, 0x2000);
    assert_eq!(k.heap().page_value(2), Some(1));
    assert!(k.is_allocated(a, 0));
    k.deallocate(a, 0);
    assert_eq!(k.heap().page_value(2), Some(0));
    assert_eq!(k.heap().page_value(1), Some(u64::MAX));
    assert_eq!(k.heap().page_value(3), Some(0));
}

#[test]
fn full_page_round_trip() {
    let mut k = heap();
    let a = k.allocate(4096, 8).unwrap();
    assert_eq!(a, 0x2000);
    assert_eq!(k.heap().page_value(2), Some(u64::MAX));
    assert_eq!(k.heap().page_value(3), Some(0));
    assert!(k.mapper().frame_at(3).is_none());
    assert!(k.is_allocated(a, 4096));
    k.deallocate(a, 4096);
    assert_eq!(k.heap().page_value(2), Some(0));
    assert_eq!(k.heap().page_value(1), Some(u64::MAX));
    assert!(k.mapper().frame_at(2).is_none());
}

#[test]
fn run_spanning_pages() {
    let mut k = heap();
    let a = k.allocate(64, 8).unwrap();
    let b = k.allocate(4096, 8).unwrap();
    assert_eq!(b, a + 64);
    assert_eq!(k.heap().page_value(2), Some(u64::MAX));
    assert_eq!(k.heap().page_value(3), Some(1));
    assert!(k.mapper().frame_at(3).is_some());
    assert!(k.is_allocated(b, 4096));
    k.deallocate(b, 4096);
    assert_eq!(k.heap().page_value(2), Some(1));
    assert!(k.mapper().frame_at(3).is_none());
}

#[test]
fn grow_keeps_used_blocks_across_relocation() {
    let mut k = heap();
    let small = k.allocate(64, 8).unwrap();
    let other = k.allocate(300, 8).unwrap();
    let used_before: Vec<usize> = (0..512 * 64).filter(|&b| k.heap().is_used(b) && b >= 128).collect();
    let large = k.allocate(3 * 1024 * 1024, 8).unwrap();
    assert_eq!(k.heap().table_len(), 2048);
    // The new table takes the first four empty pages; the old one is vacated.
    assert_eq!(k.heap().table_page(), 3);
    assert_eq!(k.heap().page_value(1), Some(0));
    assert!(k.mapper().frame_at(1).is_none());
    for p in 3..7 {
        assert_eq!(k.heap().page_value(p), Some(u64::MAX));
        assert!(k.mapper().frame_at(p).is_some());
    }
    assert_eq!(large, 7 * 0x1000);
    for b in used_before {
        assert!(k.heap().is_used(b));
    }
    for b in (large / 64)..(large / 64 + 3 * 1024 * 16) {
        assert!(k.heap().is_used(b));
    }
    assert!(k.is_allocated(small, 64));
    k.deallocate(small, 64);
    assert!(k.is_allocated(other, 300));
    k.deallocate(other, 300);
    assert!(k.is_allocated(large, 3 * 1024 * 1024));
    k.deallocate(large, 3 * 1024 * 1024);
    assert!(k.mapper().frame_at(2).is_none());
    assert_eq!(k.heap().page_value(7), Some(0));
}

#[test]
fn allocation_fails_without_frames() {
    // 64 frames in all: frames 0 and 1 (ledger) are reserved, the table takes one.
    let regions = vec![MemoryRegion { start: 0x1000, end: 0x2000 }];
    let frames = FrameAllocator::new(&regions, 64 * 0x1000).unwrap();
    let mut k = KernelHeap::new(frames).unwrap();
    assert_eq!(k.allocate(61 * 4096, 8), Ok(0x2000));
    assert_eq!(k.allocate(4096, 0x1000), Err(AllocError::OutOfFrames));
    assert_eq!(k.heap().page_value(63), Some(0));
}

#[test]
fn block_page_flags() {
    let mut page = BlockPage(0);
    assert!(page.is_empty());
    page.set_full();
    assert!(page.is_full());
    assert_eq!(*page.value(), u64::MAX);
    *page.value_mut() = 5;
    assert_eq!(page.0, 5);
    assert!(!page.is_empty() && !page.is_full());
    page.set_empty();
    assert!(page.is_empty());
}

#[test]
fn front_is_set_once() {
    let mut front: SyncOnceCell<KernelHeap> = SyncOnceCell::new();
    assert!(front.get().is_none());
    assert!(kmem::malloc::set(&mut front, heap()).is_ok());
    assert!(kmem::malloc::set(&mut front, heap()).is_err());
    assert_eq!(get(&front).minimum_alignment(), 64);
    let k = front.get_mut().unwrap();
    assert_eq!(k.allocate(64, 8), Ok(0x2000));
}

#[test]
fn request_past_span_bound_fails_unchanged() {
    let mut k = heap();
    assert_eq!(k.allocate(usize::MAX / 2, 8), Err(AllocError::OutOfMemory));
    assert_eq!(k.heap().table_len(), 512);
    assert_eq!(k.heap().table_page(), 1);
    assert_eq!(k.allocate(64, 8), Ok(0x2000));
}

#[test]
fn page_sized_aligned_request_takes_an_empty_page() {
    let mut k = heap();
    let a = k.allocate(64, 8).unwrap();
    let page = k.allocate(4096, 4096).unwrap();
    assert_eq!(page, 0x3000);
    assert_eq!(k.heap().page_value(3), Some(u64::MAX));
    assert_eq!(k.heap().page_value(2), Some(1));
    let frame = k.mapper().frame_at(2);
    assert!(k.is_allocated(page, 4096));
    k.deallocate(page, 4096);
    assert_eq!(k.mapper().frame_at(2), frame);
    assert!(k.is_allocated(a, 64));
}

#[test]
fn grow_length_is_next_power_of_two_in_whole_pages() {
    let mut k = heap();
    // 600 pages more than fit: 512 + 600 rounds up to 2048.
    let big = k.allocate(600 * 4096, 8).unwrap();
    assert_eq!(k.heap().table_len(), 2048);
    assert_eq!(k.heap().table_page(), 2);
    assert!(k.mapper().frame_at(1).is_none());
    assert!(k.is_allocated(big, 600 * 4096));
}

#[test]
fn grow_moves_table_and_keeps_blocks() {
    let regions = vec![MemoryRegion { start: 0x100000, end: 0x200000 }];
    let mut frames = FrameAllocator::new(&regions, 0x100_0000).unwrap();
    let mut mapper = Mapper::new();
    let mut heap = SLOB::new(&mut mapper, &mut frames).unwrap();
    let a = heap.allocate(64, 8, &mut mapper, &mut frames).unwrap();
    let table_frame = mapper.frame_at(1);
    let client_frame = mapper.frame_at(2);
    // One more block than the table covers: 512 + 1 pages rounds up to 1024.
    assert_eq!(heap.grow(1, &mut mapper, &mut frames), Ok(()));
    assert_eq!(heap.table_len(), 1024);
    // The first run of two empty pages is 3 and 4; the old table page moves there.
    assert_eq!(heap.table_page(), 3);
    assert_eq!(mapper.frame_at(3), table_frame);
    assert!(mapper.frame_at(4).is_some());
    assert!(mapper.frame_at(1).is_none());
    assert!(frames.is_used(table_frame.unwrap() as usize));
    assert_eq!(mapper.frame_at(2), client_frame);
    assert!(heap.is_allocated(a, 64));
    assert_eq!(heap.page_value(1), Some(0));
    // Past the span bound nothing changes.
    assert_eq!(heap.grow(usize::MAX / 2, &mut mapper, &mut frames), Err(AllocError::OutOfMemory));
    assert_eq!(heap.table_len(), 1024);
    assert_eq!(heap.table_page(), 3);
}
