use kmem::cell::{SyncCell, SyncOnceCell};
use kmem::cr3::{CR3Flags, CR3};
use kmem::frame::Frame;
use kmem::idt::{InterruptDescriptorTable, InterruptType};
use kmem::instructions::{rand_step, RandError, RandStep};
use kmem::mapper::{MapError, Mapper, PageAttributes};
use kmem::ledger::{FrameAllocator, MemoryRegion};
use kmem::msix::{MessageControl, MessageTableEntry, StandardRegister, MSIX};
use kmem::params::{get_parameters, Parameters};
use kmem::pci::{PCIHeaderOffset, PCIeBuiltinSelfTest, PCIeStatusRegister};
use kmem::ring::IndexRing;

#[test]
fn index_ring_wraps() {
    let mut ring = IndexRing::new(3);
    assert_eq!(ring.index(), 0);
    assert_eq!(ring.next_index(), 1);
    ring.increment();
    ring.increment();
    assert_eq!(ring.index(), 2);
    assert_eq!(ring.next_index(), 0);
    ring.increment();
    assert_eq!(ring.index(), 0);
}

#[test]
fn once_cell_keeps_first_value() {
    let mut cell = SyncOnceCell::new();
    assert_eq!(cell.get(), None);
    assert_eq!(cell.set(4u32), Ok(()));
    assert_eq!(cell.set(5u32), Err(5));
    assert_eq!(cell.get(), Some(&4));
    *cell.get_mut().unwrap() = 6;
    assert_eq!(cell.get(), Some(&6));
    let shared = SyncCell::new(7u8);
    assert_eq!(*shared.get(), 7);
}

#[test]
fn parameters_from_command_line() {
    let p = Parameters::parse("--nosmp  --lomem");
    assert_eq!(p, Parameters { smp: false, symbolinfo: false, low_memory: true });
    let p = Parameters::parse("--symbolinfo --other");
    assert_eq!(p, Parameters { smp: true, symbolinfo: true, low_memory: false });
    let p = Parameters::parse("");
    assert_eq!(p, Parameters { smp: true, symbolinfo: false, low_memory: false });
}

#[test]
fn parameters_need_whole_tokens() {
    let p = Parameters::parse("--nosmpx x--lomem --symbolinfo");
    assert_eq!(p, Parameters { smp: true, symbolinfo: true, low_memory: false });
}

#[test]
fn parameters_ignore_non_ascii_line() {
    let p = Parameters::parse("--nosmp \u{e9}");
    assert_eq!(p, Parameters::default());
}

#[test]
fn parameters_without_command_line() {
    assert_eq!(get_parameters(None), Parameters { smp: true, symbolinfo: false, low_memory: false });
    assert_eq!(get_parameters(Some("--lomem")).low_memory, true);
}

#[test]
fn pci_register_fields() {
    assert_eq!(PCIHeaderOffset::Class.offset(), 0xB);
    assert_eq!(PCIHeaderOffset::BuiltInSelfTest.offset(), 0xF);
    assert_eq!(PCIeStatusRegister(0b101 << 9).devsel_timing().0, 1);
    assert_eq!(PCIeStatusRegister(0b10 << 9).devsel_timing().0, 2);
    let bist = PCIeBuiltinSelfTest::new(0b1100_0101);
    assert!(bist.capable());
    assert!(bist.start());
    assert_eq!(bist.completion_code(), 5);
    let idle = PCIeBuiltinSelfTest::new(0);
    assert!(!idle.capable() && !idle.start());
}

#[test]
fn msix_fields() {
    let mut entry = MessageTableEntry { msg_addr_low: 0xFEE0_001F, msg_addr_high: 0x1, msg_data: 3, mask: 1 };
    assert_eq!(entry.get_addr(), 0x1_FEE0_0000);
    assert!(entry.get_masked());
    entry.set_message_data(0x41);
    assert_eq!(entry.get_message_data(), 0x41);
    let control = MessageControl { reg0: 0xC07F_0000 };
    assert_eq!(control.get_table_len(), 0x7F);
    assert!(control.get_enable());
    assert!(control.get_force_mask());
    let cap = MSIX { message_control: control, reg1: 0x2003, reg2: 0x3005 };
    assert_eq!(cap.get_table_bir(), StandardRegister::Register3);
    assert_eq!(cap.get_table_offset(), 0x2000);
    assert_eq!(cap.get_pending_bit_bir(), StandardRegister::Register5);
    assert_eq!(cap.get_pending_bit_offset(), 0x3000);
    assert_eq!(cap.message_control().reg0, 0xC07F_0000);
    assert_eq!(StandardRegister::try_from_index(6), None);
}

#[test]
fn cr3_value_round_trip() {
    let frame = Frame::from_index(0x1234);
    let flags = CR3Flags(CR3Flags::PAGE_LEVEL_CACHE_DISABLE);
    assert_eq!(CR3::value_of(&frame, Some(flags)), 0x123_4010);
    assert_eq!(CR3::value_of(&frame, None), 0x123_4000);
    let (read, read_flags) = CR3::from_value(0x123_4010);
    assert_eq!(read.index(), 0x1234);
    assert_eq!(read_flags, None);
    let (read, read_flags) = CR3::from_value(0x18);
    assert_eq!(read.index(), 0);
    assert_eq!(read_flags, Some(CR3Flags(0x18)));
}

#[test]
fn frames_from_addresses() {
    assert_eq!(Frame::from_addr(0x5000).index(), 5);
    assert_eq!(Frame::from_index(7).addr(), 0x7000);
    let mut frames = Frame::range(0x2000..0x5000);
    let mut seen = Vec::new();
    while let Some(f) = frames.next() {
        seen.push(f.index());
    }
    assert_eq!(seen, vec![2, 3, 4]);
    assert!(frames.next().is_none());
}

#[test]
fn interrupt_table_vectors() {
    let mut idt = InterruptDescriptorTable::new();
    assert!(!idt.index(InterruptType::Breakpoint).present);
    idt.index_mut(InterruptType::Generic(32)).set_handler(0xDEAD);
    idt.index_mut(InterruptType::x87FloatingPoint).set_handler(0xBEEF);
    assert_eq!(idt.index(InterruptType::Generic(32)).handler, 0xDEAD);
    assert_eq!(idt.index(InterruptType::x87FloatingPoint).handler, 0xBEEF);
    assert!(!idt.index(InterruptType::Generic(33)).present);
    idt.reset();
    assert!(!idt.index(InterruptType::Generic(32)).present);
}

#[test]
fn rand_error_kinds() {
    assert_ne!(RandError::NotSupported, RandError::HardFailure);
}

#[test]
fn mapper_reports_remap_and_missing() {
    let regions = vec![MemoryRegion { start: 0x1000, end: 0x2000 }];
    let mut frames = FrameAllocator::new(&regions, 16 * 0x1000).unwrap();
    let mut mapper = Mapper::new();
    let data = PageAttributes(PageAttributes::DATA);
    let read_only = PageAttributes(PageAttributes::PRESENT);
    assert_eq!(mapper.map(4, Frame::from_index(9), read_only), Ok(()));
    assert_eq!(mapper.map(4, Frame::from_index(10), data), Err(MapError::AlreadyMapped));
    assert_eq!(mapper.frame_at(4), Some(9));
    assert_eq!(mapper.entry(4).unwrap().attributes, read_only);
    assert_eq!(mapper.auto_map(5, data, &mut frames), Ok(Frame::from_index(2)));
    assert_eq!(mapper.auto_map(5, data, &mut frames), Err(MapError::AlreadyMapped));
    assert_eq!(mapper.copy_by_map(5, 6, None), Ok(()));
    assert_eq!(mapper.frame_at(6), Some(2));
    assert_eq!(mapper.entry(6).unwrap().attributes, data);
    assert_eq!(mapper.copy_by_map(4, 6, None), Err(MapError::AlreadyMapped));
    assert_eq!(mapper.copy_by_map(4, 9, Some(data)), Ok(()));
    assert_eq!(mapper.entry(9).unwrap().attributes, data);
    assert_eq!(mapper.copy_by_map(7, 8, None), Err(MapError::NotMapped));
    assert_eq!(mapper.unmap(6, false, &mut frames), Ok(()));
    assert!(frames.is_used(2));
    assert_eq!(mapper.unmap(5, true, &mut frames), Ok(()));
    assert!(!frames.is_used(2));
    assert_eq!(mapper.unmap(5, true, &mut frames), Err(MapError::NotMapped));
}

#[test]
fn rand_retry_rule() {
    assert_eq!(rand_step(false, 0, 7, 1), RandStep::Stop(RandError::NotSupported));
    assert_eq!(rand_step(true, 0, 7, 1), RandStep::Value(7));
    assert_eq!(rand_step(true, 0, 7, 0), RandStep::Retry);
    assert_eq!(rand_step(true, 3, 0, 1), RandStep::Retry);
    assert_eq!(rand_step(true, 98, 0, 1), RandStep::Retry);
    assert_eq!(rand_step(true, 99, 0, 1), RandStep::Stop(RandError::HardFailure));
    assert_eq!(rand_step(true, 99, 5, 0x203), RandStep::Value(5));
}

#[test]
fn auto_map_without_free_frames() {
    let regions = vec![MemoryRegion { start: 0x1000, end: 0x2000 }];
    let mut frames = FrameAllocator::new(&regions, 3 * 0x1000).unwrap();
    let mut mapper = Mapper::new();
    let data = PageAttributes(PageAttributes::DATA);
    assert_eq!(mapper.auto_map(1, data, &mut frames), Ok(Frame::from_index(2)));
    assert_eq!(mapper.auto_map(2, data, &mut frames), Err(MapError::NoFrames));
    assert!(mapper.frame_at(2).is_none());
}

#[test]
fn mapper_walks_separate_branches() {
    let mut mapper = Mapper::new();
    let data = PageAttributes(PageAttributes::DATA);
    // Pages that differ in each level's index, and neighbours sharing all but the last.
    let pages = [0usize, 1, 511, 512, 0x4_0000, 0x800_0000, 0xF_FFFF_FFFF];
    for (k, &page) in pages.iter().enumerate() {
        assert_eq!(mapper.map(page, Frame::from_index(100 + k as u64), data), Ok(()));
    }
    for (k, &page) in pages.iter().enumerate() {
        assert_eq!(mapper.frame_at(page), Some(100 + k as u64));
    }
    assert!(mapper.frame_at(2).is_none());
    assert!(mapper.frame_at(0x4_0001).is_none());
    assert!(mapper.frame_at(0x10_0000_0000).is_none());
    let regions = vec![MemoryRegion { start: 0x1000, end: 0x2000 }];
    let mut frames = FrameAllocator::new(&regions, 16 * 0x1000).unwrap();
    assert_eq!(mapper.unmap(511, false, &mut frames), Ok(()));
    assert!(mapper.frame_at(511).is_none());
    assert_eq!(mapper.frame_at(512), Some(103));
    assert_eq!(mapper.frame_at(1), Some(101));
}
