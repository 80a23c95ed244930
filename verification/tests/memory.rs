//! Interpreter memory.

use ebpf_lab::isa::MemSize;
use ebpf_lab::vm::memory::{
    StackMemory, MAP_SCRATCH_BASE, PACKET_BASE, STACK_BASE, STACK_SIZE, XDP_MD_BASE,
};
use ebpf_lab::vm::{MemError, MemRegion, MemoryView, PacketBuffer};

#[test]
fn packet_buffer_from_conversions() {
    let v = vec![0xAAu8, 0xBB, 0xCC];
    let a = PacketBuffer::from(v.clone());
    assert_eq!(a.as_slice(), v.as_slice());
    let b = PacketBuffer::from(v.as_slice());
    assert_eq!(b.as_slice(), v.as_slice());
    assert_eq!(a.len(), 3);
}

#[test]
fn roundtrip_all_widths() {
    let mut mem = MemoryView::default();
    mem.store(STACK_BASE - 8, MemSize::Dw, 0x0102_0304_0506_0708).unwrap();
    assert_eq!(mem.load(STACK_BASE - 8, MemSize::Dw).unwrap(), 0x0102_0304_0506_0708);
    assert_eq!(mem.load(STACK_BASE - 8, MemSize::W).unwrap(), 0x0506_0708);
    assert_eq!(mem.load(STACK_BASE - 8, MemSize::H).unwrap(), 0x0708);
    assert_eq!(mem.load(STACK_BASE - 8, MemSize::B).unwrap(), 0x08);
}

#[test]
fn low_matches_size() {
    assert_eq!(usize::try_from(STACK_BASE - StackMemory::LOW).unwrap(), STACK_SIZE);
    assert_eq!(i64::try_from(STACK_SIZE).unwrap(), StackMemory::LEN);
}

#[test]
fn rejects_oob() {
    let mem = MemoryView::default();
    assert!(matches!(mem.load(STACK_BASE, MemSize::B), Err(MemError::StackOverflow { .. })));
    assert!(matches!(
        mem.load(STACK_BASE - 4, MemSize::Dw),
        Err(MemError::StackOverflow { .. })
    ));
    assert!(matches!(mem.load(0, MemSize::W), Err(MemError::OutOfBounds { .. })));
}

#[test]
fn rejects_uninitialized_read() {
    let mem = MemoryView::default();
    assert!(matches!(
        mem.load(STACK_BASE - 8, MemSize::Dw),
        Err(MemError::UninitializedRead { .. })
    ));
}

#[test]
fn store_marks_only_written_bytes() {
    let mut mem = MemoryView::default();
    mem.store(STACK_BASE - 8, MemSize::B, 0xAB).unwrap();
    assert_eq!(mem.load(STACK_BASE - 8, MemSize::B).unwrap(), 0xAB);
    assert!(matches!(
        mem.load(STACK_BASE - 7, MemSize::B),
        Err(MemError::UninitializedRead { .. })
    ));
    // A wide load over a half-written range still faults.
    assert!(matches!(
        mem.load(STACK_BASE - 8, MemSize::Dw),
        Err(MemError::UninitializedRead { .. })
    ));
}

#[test]
fn memory_rejects_misaligned() {
    let mut mem = MemoryView::default();
    assert!(matches!(
        mem.store(STACK_BASE - 7, MemSize::W, 1),
        Err(MemError::Misaligned { .. })
    ));
    assert!(matches!(mem.load(STACK_BASE - 12, MemSize::Dw), Err(MemError::Misaligned { .. })));
    // Single-byte accesses are always aligned; disabling the check
    // admits the rest.
    mem.store(STACK_BASE - 8, MemSize::B, 1).unwrap();
    mem.set_align_checks(false);
    mem.store(STACK_BASE - 7, MemSize::W, 1).unwrap();
    assert_eq!(mem.load(STACK_BASE - 7, MemSize::W).unwrap(), 1);
}

#[test]
fn packet_load_and_bounds() {
    let mut mem = MemoryView::default();
    assert!(matches!(mem.load(PACKET_BASE, MemSize::B), Err(MemError::NoPacket)));
    mem.set_packet(PacketBuffer::new(vec![0xAA, 0xBB, 0xCC, 0xDD]));
    assert_eq!(mem.packet_len(), Some(4));
    assert_eq!(mem.load(PACKET_BASE, MemSize::B).unwrap(), 0xAA);
    assert_eq!(mem.load(PACKET_BASE, MemSize::H).unwrap(), 0xBBAA);
    assert_eq!(mem.load(PACKET_BASE, MemSize::W).unwrap(), 0xDDCC_BBAA);
    assert!(matches!(
        mem.load(PACKET_BASE + 1, MemSize::Dw),
        Err(MemError::OutOfBounds { .. })
    ));
    // Packet memory is read-only.
    assert!(matches!(mem.store(PACKET_BASE, MemSize::B, 0), Err(MemError::OutOfBounds { .. })));
    // `set_packet` also stages the `xdp_md` context.
    assert_eq!(mem.load(XDP_MD_BASE, MemSize::W).unwrap(), PACKET_BASE);
    assert_eq!(mem.load(XDP_MD_BASE + 4, MemSize::W).unwrap(), PACKET_BASE + 4);
    mem.clear_packet();
    assert_eq!(mem.packet_len(), None);
    assert!(matches!(mem.load(PACKET_BASE, MemSize::B), Err(MemError::NoPacket)));
    // Context zeroes with the packet.
    assert_eq!(mem.load(XDP_MD_BASE, MemSize::W).unwrap(), 0);
}

#[test]
fn xdp_md_roundtrip_and_bounds() {
    let mut mem = MemoryView::default();
    // Zeroed before any packet: reads succeed (the struct exists),
    // stores fault (read-only).
    assert_eq!(mem.load(XDP_MD_BASE, MemSize::Dw).unwrap(), 0);
    assert!(matches!(mem.store(XDP_MD_BASE, MemSize::W, 1), Err(MemError::OutOfBounds { .. })));
    assert!(matches!(mem.load(XDP_MD_BASE + 8, MemSize::B), Err(MemError::OutOfBounds { .. })));
    // Straddling the 8-byte struct faults before alignment is checked.
    assert!(matches!(mem.load(XDP_MD_BASE + 6, MemSize::W), Err(MemError::OutOfBounds { .. })));
    // Misaligned in-bounds access faults (base is 8-aligned).
    assert!(matches!(mem.load(XDP_MD_BASE + 1, MemSize::W), Err(MemError::Misaligned { .. })));
    assert_eq!(MemoryView::classify(XDP_MD_BASE), MemRegion::XdpMd);
    assert_eq!(MemoryView::classify(XDP_MD_BASE + 100), MemRegion::XdpMd);
}

#[test]
fn scratch_roundtrip_and_bounds() {
    let mut mem = MemoryView::default();
    assert_eq!(mem.map_scratch_len(), 0);
    // Empty scratch: every read is out of bounds.
    assert!(matches!(
        mem.load(MAP_SCRATCH_BASE, MemSize::B),
        Err(MemError::OutOfBounds { .. })
    ));
    mem.set_map_scratch(vec![0x0A, 0, 0, 0, 0, 0, 0, 0]);
    assert_eq!(mem.map_scratch_len(), 8);
    assert_eq!(mem.load(MAP_SCRATCH_BASE, MemSize::B).unwrap(), 0x0A);
    assert_eq!(mem.load(MAP_SCRATCH_BASE, MemSize::Dw).unwrap(), 0x0A);
    // Past-the-value reads fault; stores work and are readable back.
    assert!(matches!(
        mem.load(MAP_SCRATCH_BASE + 8, MemSize::B),
        Err(MemError::OutOfBounds { .. })
    ));
    mem.store(MAP_SCRATCH_BASE, MemSize::B, 0xFF).unwrap();
    assert_eq!(mem.load(MAP_SCRATCH_BASE, MemSize::B).unwrap(), 0xFF);
    // Misaligned multi-byte access faults (scratch base is 8-aligned).
    assert!(matches!(
        mem.load(MAP_SCRATCH_BASE + 1, MemSize::W),
        Err(MemError::Misaligned { .. })
    ));
    // A fresh lookup overwrites the whole scratch.
    mem.set_map_scratch(vec![1, 2]);
    assert_eq!(mem.map_scratch_len(), 2);
    assert!(matches!(
        mem.load(MAP_SCRATCH_BASE + 2, MemSize::B),
        Err(MemError::OutOfBounds { .. })
    ));
}


#[test]
fn aligned_stores_read_back() {
    for size in [MemSize::B, MemSize::H, MemSize::W, MemSize::Dw] {
        let width = i64::from(size.bytes());
        let mut mem = MemoryView::default();
        let mut addr = StackMemory::LOW;
        while addr < STACK_BASE {
            let value = addr.wrapping_mul(-0x61c8_8646_80b5_83eb);
            mem.store(addr, size, value).unwrap();
            let mut b = [0u8; 8];
            b[..width as usize].copy_from_slice(&value.to_le_bytes()[..width as usize]);
            assert_eq!(mem.load(addr, size).unwrap(), i64::from_le_bytes(b));
            addr += width;
        }
    }
}

#[test]
fn fresh_stack_is_unreadable() {
    let mem = MemoryView::default();
    for off in 0..64 {
        let addr = StackMemory::LOW + 8 * off;
        assert!(matches!(mem.load(addr, MemSize::Dw), Err(MemError::UninitializedRead { .. })));
    }
}

#[test]
fn addresses_outside_every_region() {
    let mem = MemoryView::default();
    for addr in [i64::MIN, -1, 0, 0x100, 0x1_0001] {
        assert_eq!(MemoryView::classify(addr), MemRegion::Unknown);
        assert!(matches!(mem.load(addr, MemSize::W), Err(MemError::OutOfBounds { .. })));
    }
}

#[test]
fn byte_ranges_load() {
    let mut mem = MemoryView::default();
    mem.store(STACK_BASE - 8, MemSize::W, 0x0403_0201).unwrap();
    assert_eq!(mem.load_bytes(STACK_BASE - 8, 4).unwrap(), vec![1, 2, 3, 4]);
    assert!(mem.load_bytes(STACK_BASE - 8, 5).is_err());
    assert!(mem.align_checks());
}

#[test]
fn stores_keep_other_bytes() {
    let mut mem = MemoryView::default();
    mem.set_map_scratch(vec![7; 24]);
    mem.store(STACK_BASE - 16, MemSize::Dw, 5).unwrap();
    mem.store(MAP_SCRATCH_BASE + 8, MemSize::Dw, 1).unwrap();
    assert_eq!(mem.load(MAP_SCRATCH_BASE + 7, MemSize::B).unwrap(), 7);
    assert_eq!(mem.load(MAP_SCRATCH_BASE + 16, MemSize::B).unwrap(), 7);
    assert_eq!(mem.load(MAP_SCRATCH_BASE + 8, MemSize::Dw).unwrap(), 1);
    assert_eq!(mem.load(STACK_BASE - 16, MemSize::Dw).unwrap(), 5);
    mem.store(STACK_BASE - 8, MemSize::Dw, 9).unwrap();
    assert_eq!(mem.load(STACK_BASE - 16, MemSize::Dw).unwrap(), 5);
    assert_eq!(mem.load(MAP_SCRATCH_BASE + 16, MemSize::B).unwrap(), 7);
}
