//! The ELF reader and the address-space loader on hand-built images.

use kernel_core::address::{PhysAddr, VirtAddr};
use kernel_core::elf::{check_elf64, elf_entry, elf_ph_count};
use kernel_core::frame_allocator::{init_frame_allocator, StackFrameAllocator};
use kernel_core::memory_set::MemorySet;
use kernel_core::phys_mem::PhysMemory;
use kernel_core::KernelError;

/// Builds a minimal 64-bit ELF image: a header, one program header per
/// segment, and the segment bytes packed behind them.
pub fn make_elf(entry: u64, segments: &[(u64, u32, Vec<u8>, u64)]) -> Vec<u8> {
    // each segment: (vaddr, flags, file bytes, mem_size)
    let ph_off: u64 = 64;
    let ph_entsize: u64 = 56;
    let ph_count = segments.len() as u64;
    let mut data_off = ph_off + ph_count * ph_entsize;
    let mut image = vec![0u8; data_off as usize];
    image[0] = 0x7f;
    image[1] = 0x45;
    image[2] = 0x4c;
    image[3] = 0x46;
    image[4] = 2; // 64-bit
    image[5] = 1; // little endian
    put_u64(&mut image, 24, entry);
    put_u64(&mut image, 32, ph_off);
    put_u16(&mut image, 54, ph_entsize as u16);
    put_u16(&mut image, 56, ph_count as u16);
    for (i, (vaddr, flags, bytes, mem_size)) in segments.iter().enumerate() {
        let base = (ph_off + i as u64 * ph_entsize) as usize;
        put_u32(&mut image, base, 1); // PT_LOAD
        put_u32(&mut image, base + 4, *flags);
        put_u64(&mut image, base + 8, data_off);
        put_u64(&mut image, base + 16, *vaddr);
        put_u64(&mut image, base + 32, bytes.len() as u64);
        put_u64(&mut image, base + 40, *mem_size);
        image.extend_from_slice(bytes);
        data_off += bytes.len() as u64;
    }
    image
}

fn put_u16(b: &mut Vec<u8>, off: usize, v: u16) {
    b[off] = v as u8;
    b[off + 1] = (v >> 8) as u8;
}

fn put_u32(b: &mut Vec<u8>, off: usize, v: u32) {
    for i in 0..4 {
        b[off + i] = (v >> (8 * i)) as u8;
    }
}

fn put_u64(b: &mut Vec<u8>, off: usize, v: u64) {
    for i in 0..8 {
        b[off + i] = (v >> (8 * i)) as u8;
    }
}

fn test_env() -> (StackFrameAllocator, PhysMemory) {
    let mut a = StackFrameAllocator::new();
    init_frame_allocator(
        &mut a,
        PhysAddr::new(0x8030_0000),
        PhysAddr::new(0x8080_0000),
    );
    let mem = PhysMemory::new(
        PhysAddr::new(0x8030_0000).ceil(),
        PhysAddr::new(0x8080_0000).floor(),
    );
    (a, mem)
}

#[test]
fn well_formed_image_is_accepted() {
    let elf = make_elf(0x10000, &[(0x10000, 5, vec![1, 2, 3], 3)]);
    assert!(check_elf64(&elf));
    assert_eq!(elf_entry(&elf), 0x10000);
    assert_eq!(elf_ph_count(&elf), 1);
}

#[test]
fn bad_magic_is_rejected() {
    let mut elf = make_elf(0x10000, &[(0x10000, 5, vec![1, 2, 3], 3)]);
    elf[1] = 0x45 + 1;
    assert!(!check_elf64(&elf));
    let (mut a, mut mem) = test_env();
    assert!(matches!(
        MemorySet::load_elf(&elf, PhysAddr::new(0x8020_0000), &mut a, &mut mem),
        Err(KernelError::InvalidElf)
    ));
}

#[test]
fn truncated_image_is_rejected() {
    let elf = vec![0x7f, 0x45, 0x4c, 0x46, 2];
    assert!(!check_elf64(&elf));
}

#[test]
fn thirty_two_bit_class_is_rejected() {
    let mut elf = make_elf(0x10000, &[(0x10000, 5, vec![1], 1)]);
    elf[4] = 1;
    assert!(!check_elf64(&elf));
}

#[test]
fn rx_area_rejects_write_and_rw_area_accepts_both() {
    // one read-execute segment and one read-write segment
    let elf = make_elf(
        0x10000,
        &[
            (0x10000, 5, vec![0x13, 0, 0, 0], 4),  // R + X
            (0x20000, 6, vec![7, 8, 9, 10], 4),    // R + W
        ],
    );
    let (mut a, mut mem) = test_env();
    let (ms, user_sp, entry) = MemorySet::load_elf(&elf, PhysAddr::new(0x8020_0000), &mut a, &mut mem).unwrap();
    assert_eq!(entry, 0x10000);
    assert!(user_sp > 0x21000);
    let rx = ms.get_pte(VirtAddr::new(0x10000).floor()).unwrap();
    assert!(rx.is_valid());
    assert!(rx.readable());
    assert!(rx.executable());
    assert!(!rx.writable());
    let rw = ms.get_pte(VirtAddr::new(0x20000).floor()).unwrap();
    assert!(rw.is_valid());
    assert!(rw.readable());
    assert!(rw.writable());
    assert!(!rw.executable());
}

#[test]
fn loader_places_segment_bytes_and_pads_with_zeros() {
    let elf = make_elf(0x10000, &[(0x10000, 6, vec![0xAA, 0xBB], 16)]);
    let (mut a, mut mem) = test_env();
    let (ms, _sp, _e) = MemorySet::load_elf(&elf, PhysAddr::new(0x8020_0000), &mut a, &mut mem).unwrap();
    let pte = ms.get_pte(VirtAddr::new(0x10000).floor()).unwrap();
    let page = mem.read_range(pte.ppn(), 0, 16);
    assert_eq!(page, vec![0xAA, 0xBB, 0, 0, 0, 0, 0, 0, 0, 0, 0, 0, 0, 0, 0, 0]);
}
