//! The kernel's own address space: sections identity-mapped with the
//! permissions their semantics call for.

use kernel_core::address::{PhysAddr, VirtAddr};
use kernel_core::frame_allocator::{init_frame_allocator, StackFrameAllocator};
use kernel_core::memory_set::{KernelLayout, MemorySet};
use kernel_core::phys_mem::PhysMemory;
use kernel_core::KernelError;

fn layout() -> KernelLayout {
    KernelLayout {
        text_start: 0x8020_0000,
        text_end: 0x8021_0000,
        rodata_start: 0x8021_0000,
        rodata_end: 0x8022_0000,
        data_start: 0x8022_0000,
        data_end: 0x8023_0000,
        bss_start: 0x8023_0000,
        bss_end: 0x8024_0000,
        kernel_end: 0x8030_0000,
        memory_end: 0x8080_0000,
        trampoline: 0x8020_0000,
    }
}

fn build() -> MemorySet {
    let mut a = StackFrameAllocator::new();
    init_frame_allocator(
        &mut a,
        PhysAddr::new(0x8030_0000),
        PhysAddr::new(0x8080_0000),
    );
    let mut mem = PhysMemory::new(
        PhysAddr::new(0x8030_0000).ceil(),
        PhysAddr::new(0x8080_0000).floor(),
    );
    MemorySet::new_kernel(&layout(), &mut a, &mut mem).unwrap()
}

#[test]
fn kernel_code_is_never_writable() {
    let ks = build();
    let mid_text = VirtAddr::new((0x8020_0000 + 0x8021_0000) / 2).floor();
    let mid_rodata = VirtAddr::new((0x8021_0000 + 0x8022_0000) / 2).floor();
    let text = ks.get_pte(mid_text).unwrap();
    assert!(text.readable());
    assert!(text.executable());
    assert!(!text.writable());
    let rodata = ks.get_pte(mid_rodata).unwrap();
    assert!(rodata.readable());
    assert!(!rodata.writable());
    assert!(!rodata.executable());
}

#[test]
fn kernel_data_is_writable_and_identity_mapped() {
    let ks = build();
    let mid_data = VirtAddr::new((0x8022_0000 + 0x8023_0000) / 2).floor();
    let pte = ks.get_pte(mid_data).unwrap();
    assert!(pte.readable());
    assert!(pte.writable());
    assert!(!pte.executable());
    assert_eq!(pte.ppn().0, mid_data.0);
}

#[test]
fn space_between_sections_stays_unmapped() {
    let ks = build();
    assert_eq!(
        ks.get_pte(VirtAddr::new(0x8010_0000).floor()),
        Err(KernelError::NotMapped)
    );
    assert_eq!(
        ks.get_pte(VirtAddr::new(0x1000).floor()),
        Err(KernelError::NotMapped)
    );
}

#[test]
fn trampoline_page_is_identical_in_kernel_and_user_spaces() {
    let ks = build();
    let top = VirtAddr::new(u64::MAX - 4095).floor();
    let kernel_pte = ks.get_pte(top).unwrap();
    assert!(kernel_pte.readable());
    assert!(kernel_pte.executable());
    assert!(!kernel_pte.writable());
    assert_eq!(kernel_pte.ppn().0, 0x8020_0000 / 4096);
    // a user space loaded from an image maps the same page to the same
    // frame, so a trap can switch tables mid-instruction-stream
    let mut a = StackFrameAllocator::new();
    init_frame_allocator(
        &mut a,
        PhysAddr::new(0x8030_0000),
        PhysAddr::new(0x8080_0000),
    );
    let mut mem = PhysMemory::new(
        PhysAddr::new(0x8030_0000).ceil(),
        PhysAddr::new(0x8080_0000).floor(),
    );
    let elf = minimal_elf();
    let (user, _sp, _entry) =
        MemorySet::load_elf(&elf, PhysAddr::new(0x8020_0000), &mut a, &mut mem).unwrap();
    let user_pte = user.get_pte(top).unwrap();
    assert_eq!(user_pte.ppn().0, kernel_pte.ppn().0);
    assert!(user_pte.readable());
    assert!(user_pte.executable());
}

/// One tiny loadable segment at `0x10000`.
fn minimal_elf() -> Vec<u8> {
    let mut image = vec![0u8; 120];
    image[0] = 0x7f;
    image[1] = 0x45;
    image[2] = 0x4c;
    image[3] = 0x46;
    image[4] = 2;
    let entry: u64 = 0x10000;
    let ph_off: u64 = 64;
    let data_off: u64 = 120;
    for i in 0..8 {
        image[24 + i] = (entry >> (8 * i)) as u8;
        image[32 + i] = (ph_off >> (8 * i)) as u8;
    }
    image[54] = 56;
    image[56] = 1;
    image[64] = 1; // PT_LOAD
    image[68] = 6; // read + write
    for i in 0..8 {
        image[72 + i] = (data_off >> (8 * i)) as u8;
        image[80 + i] = (entry >> (8 * i)) as u8;
        image[96 + i] = (2u64 >> (8 * i)) as u8;
        image[104 + i] = (2u64 >> (8 * i)) as u8;
    }
    image.extend_from_slice(b"ok");
    image
}
