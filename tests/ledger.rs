use kmem::frame::Frame;
use kmem::ledger::{Error, FrameAllocator, FrameType, MemoryRegion, PhysicalMemoryManager};

fn ledger_of(frames: usize, table_frame: usize) -> FrameAllocator {
    let regions = vec![MemoryRegion { start: table_frame * 0x1000, end: (table_frame + 1) * 0x1000 }];
    FrameAllocator::new(&regions, frames * 0x1000).unwrap()
}

fn snapshot(ledger: &FrameAllocator) -> Vec<bool> {
    (0..ledger.frame_count()).map(|i| ledger.is_used(i)).collect()
}

#[test]
fn new_marks_null_and_own_frames() {
    let ledger = ledger_of(16, 5);
    assert_eq!(ledger.frame_count(), 16);
    assert_eq!(ledger.total_memory(), 16 * 0x1000);
    let used: Vec<usize> = (0..16).filter(|&i| ledger.is_used(i)).collect();
    assert_eq!(used, vec![0, 5]);
}

#[test]
fn new_skips_unaligned_and_short_regions() {
    let regions = vec![
        MemoryRegion { start: 0x1800, end: 0x4800 },
        MemoryRegion { start: 0x2000, end: 0x2800 },
        MemoryRegion { start: 0x7000, end: 0x9000 },
    ];
    let ledger = FrameAllocator::new(&regions, 16 * 0x1000).unwrap();
    let used: Vec<usize> = (0..16).filter(|&i| ledger.is_used(i)).collect();
    assert_eq!(used, vec![0, 7]);
}

#[test]
fn new_without_room_for_the_ledger() {
    let regions = vec![MemoryRegion { start: 0x1000, end: 0x1800 }];
    assert!(FrameAllocator::new(&regions, 16 * 0x1000).is_none());
    assert!(FrameAllocator::new(&Vec::new(), 16 * 0x1000).is_none());
}

#[test]
fn next_frame_then_run_skips_used_frame() {
    let mut ledger = ledger_of(16, 5);
    assert_eq!(ledger.next_frame(), Ok(Frame::from_index(1)));
    for i in 1..5u64 {
        assert_eq!(ledger.lock_frame(Frame::from_index(i)), Ok(()));
    }
    assert_eq!(ledger.next_frames(3, None), Ok(Frame::from_index(6)));
    for i in 6..9 {
        assert!(ledger.is_used(i));
    }
    assert!(!ledger.is_used(9));
}

#[test]
fn next_frame_never_repeats() {
    let mut ledger = ledger_of(16, 5);
    let mut seen = Vec::new();
    while let Ok(frame) = ledger.next_frame() {
        assert!(!seen.contains(&frame.index()));
        assert_ne!(frame.index(), 0);
        assert_ne!(frame.index(), 5);
        seen.push(frame.index());
    }
    assert_eq!(seen.len(), 14);
    assert_eq!(ledger.next_frame(), Err(Error::NoneFree));
}

#[test]
fn next_frames_round_trip_restores_ledger() {
    let mut ledger = ledger_of(16, 5);
    ledger.lock_frame(Frame::from_index(2)).unwrap();
    let before = snapshot(&ledger);
    let start = ledger.next_frames(3, None).unwrap();
    assert_eq!(start.index(), 6);
    for i in 0..3 {
        ledger.free_frame(Frame::from_index(start.index() + i)).unwrap();
    }
    assert_eq!(snapshot(&ledger), before);
}

#[test]
fn next_frames_honours_alignment_stride() {
    let mut ledger = ledger_of(16, 5);
    // 0x4000 asks for a stride of four frames.
    assert_eq!(ledger.next_frames(2, Some(0x4000)), Ok(Frame::from_index(8)));
    assert_eq!(ledger.next_frames(2, Some(0x4000)), Ok(Frame::from_index(12)));
    assert_eq!(ledger.next_frames(2, Some(0x4000)), Err(Error::NoneFree));
    // Small alignments mean a stride of one.
    assert_eq!(ledger.next_frames(2, Some(12)), Ok(Frame::from_index(1)));
}

#[test]
fn next_frames_longer_than_ledger() {
    let mut ledger = ledger_of(16, 5);
    let before = snapshot(&ledger);
    assert_eq!(ledger.next_frames(17, None), Err(Error::NoneFree));
    assert_eq!(ledger.next_frames(11, None), Err(Error::NoneFree));
    assert_eq!(snapshot(&ledger), before);
    assert_eq!(ledger.next_frames(10, None), Ok(Frame::from_index(6)));
}

#[test]
fn lock_and_free_out_of_bounds() {
    let mut ledger = ledger_of(16, 5);
    assert_eq!(ledger.lock_frame(Frame::from_index(16)), Err(Error::OutOfBounds));
    assert_eq!(ledger.free_frame(Frame::from_index(99)), Err(Error::OutOfBounds));
}

#[test]
fn free_of_free_frame_is_tolerated() {
    let mut ledger = ledger_of(16, 5);
    assert_eq!(ledger.free_frame(Frame::from_index(3)), Ok(()));
    assert_eq!(ledger.free_frame(Frame::from_index(3)), Ok(()));
    assert!(!ledger.is_used(3));
    assert_eq!(ledger.free_frame(Frame::from_index(5)), Ok(()));
    assert!(!ledger.is_used(5));
}

#[test]
fn has_free_counts_free_frames() {
    let mut ledger = ledger_of(16, 5);
    assert!(ledger.has_free(14));
    assert!(!ledger.has_free(15));
    ledger.next_frame().unwrap();
    assert!(ledger.has_free(13));
    assert!(!ledger.has_free(14));
    assert!(ledger.has_free(0));
}

#[test]
fn manager_allocates_by_pages() {
    let mut pmm = PhysicalMemoryManager { allocator: ledger_of(16, 5) };
    assert_eq!(pmm.allocate(0, 8), Err(Error::Unknown));
    assert_eq!(pmm.allocate(100, 8), Ok(Frame::from_index(1)));
    // Three pages: the first run of three free frames.
    assert_eq!(pmm.allocate(0x2001, 8), Ok(Frame::from_index(2)));
    assert!(pmm.allocator.is_used(4));
    assert!(!pmm.allocator.is_used(6));
    pmm.deallocate(Frame::from_index(2), 0x2001);
    for i in 2..5 {
        assert!(!pmm.allocator.is_used(i));
    }
    assert!(pmm.allocator.is_used(1));
    pmm.deallocate(Frame::from_index(1), 100);
    assert!(!pmm.allocator.is_used(1));
}

#[test]
fn frame_type_codes() {
    assert_eq!(FrameType::from_u8(3), FrameType::BootReclaim);
    assert_eq!(FrameType::AcpiReclaim.as_u8(), 4);
    for code in 0..5u8 {
        assert_eq!(FrameType::from_u8(code).as_u8(), code);
    }
}
