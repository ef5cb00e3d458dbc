//! Frame allocator and page table behaviour on concrete values.

use kernel_core::address::{PhysAddr, PhysPageNum, VirtAddr, VirtPageNum};
use kernel_core::frame_allocator::{frame_alloc, frame_dealloc, init_frame_allocator, StackFrameAllocator};
use kernel_core::page_table::{PTEFlags, PageTable, PTE_R, PTE_W, PTE_X};
use kernel_core::KernelError;

fn test_allocator() -> StackFrameAllocator {
    let mut a = StackFrameAllocator::new();
    init_frame_allocator(
        &mut a,
        PhysAddr::new(0x8030_0000),
        PhysAddr::new(0x8080_0000),
    );
    a
}

#[test]
fn alloc_returns_distinct_live_frames() {
    let mut a = test_allocator();
    let f1 = frame_alloc(&mut a).unwrap();
    let f2 = frame_alloc(&mut a).unwrap();
    let f3 = frame_alloc(&mut a).unwrap();
    assert_ne!(f1.ppn.0, f2.ppn.0);
    assert_ne!(f1.ppn.0, f3.ppn.0);
    assert_ne!(f2.ppn.0, f3.ppn.0);
}

#[test]
fn freed_frame_is_reused_first() {
    let mut a = test_allocator();
    let f1 = frame_alloc(&mut a).unwrap();
    let _f2 = frame_alloc(&mut a).unwrap();
    let freed = f1.ppn;
    frame_dealloc(&mut a, f1.ppn).unwrap();
    let f3 = frame_alloc(&mut a).unwrap();
    assert_eq!(f3.ppn.0, freed.0);
}

#[test]
fn double_free_is_refused() {
    let mut a = test_allocator();
    let f1 = frame_alloc(&mut a).unwrap();
    frame_dealloc(&mut a, f1.ppn).unwrap();
    assert_eq!(frame_dealloc(&mut a, f1.ppn), Err(KernelError::InvalidFrame));
}

#[test]
fn freeing_an_unallocated_frame_is_refused() {
    let mut a = test_allocator();
    let _f1 = frame_alloc(&mut a).unwrap();
    assert_eq!(
        frame_dealloc(&mut a, PhysPageNum(1)),
        Err(KernelError::InvalidFrame)
    );
    assert_eq!(
        frame_dealloc(&mut a, PhysPageNum(0xFFFF_FFFF)),
        Err(KernelError::InvalidFrame)
    );
}

#[test]
fn exhausted_allocator_returns_none() {
    let mut a = StackFrameAllocator::new();
    init_frame_allocator(
        &mut a,
        PhysAddr::new(0x8030_0000),
        PhysAddr::new(0x8030_2000),
    );
    assert!(frame_alloc(&mut a).is_some());
    assert!(frame_alloc(&mut a).is_some());
    assert!(frame_alloc(&mut a).is_none());
}

#[test]
fn translate_after_map_returns_same_page_and_flags() {
    let mut a = test_allocator();
    let mut pt = PageTable::new(&mut a).unwrap();
    let vpn = VirtPageNum(0x1234);
    let ppn = PhysPageNum(0x80400);
    pt.map(&mut a, vpn, ppn, PTEFlags::from_bits(PTE_R + PTE_W)).unwrap();
    let pte = pt.get_pte(vpn).unwrap();
    assert_eq!(pte.ppn().0, ppn.0);
    assert!(pte.is_valid());
    assert!(pte.readable());
    assert!(pte.writable());
    assert!(!pte.executable());
}

#[test]
fn translate_after_unmap_fails() {
    let mut a = test_allocator();
    let mut pt = PageTable::new(&mut a).unwrap();
    let vpn = VirtPageNum(0x1234);
    pt.map(&mut a, vpn, PhysPageNum(0x80400), PTEFlags::from_bits(PTE_R)).unwrap();
    pt.unmap(vpn).unwrap();
    assert_eq!(pt.get_pte(vpn), Err(KernelError::NotMapped));
}

#[test]
fn mapping_a_mapped_page_fails() {
    let mut a = test_allocator();
    let mut pt = PageTable::new(&mut a).unwrap();
    let vpn = VirtPageNum(0x77);
    pt.map(&mut a, vpn, PhysPageNum(0x80400), PTEFlags::from_bits(PTE_R)).unwrap();
    assert_eq!(
        pt.map(&mut a, vpn, PhysPageNum(0x80401), PTEFlags::from_bits(PTE_R)),
        Err(KernelError::AlreadyMapped)
    );
}

#[test]
fn unmapping_an_unmapped_page_fails() {
    let mut a = test_allocator();
    let mut pt = PageTable::new(&mut a).unwrap();
    assert_eq!(pt.unmap(VirtPageNum(0x55)), Err(KernelError::NotMapped));
    let vpn = VirtPageNum(0x56);
    pt.map(&mut a, vpn, PhysPageNum(0x80400), PTEFlags::from_bits(PTE_X)).unwrap();
    pt.unmap(vpn).unwrap();
    assert_eq!(pt.unmap(vpn), Err(KernelError::NotMapped));
}

#[test]
fn neighbour_mappings_survive_map_and_unmap() {
    let mut a = test_allocator();
    let mut pt = PageTable::new(&mut a).unwrap();
    let v1 = VirtPageNum(0x100);
    let v2 = VirtPageNum(0x101);
    let v3 = VirtPageNum(0x4000100);
    pt.map(&mut a, v1, PhysPageNum(0x80400), PTEFlags::from_bits(PTE_R)).unwrap();
    pt.map(&mut a, v2, PhysPageNum(0x80401), PTEFlags::from_bits(PTE_W)).unwrap();
    pt.map(&mut a, v3, PhysPageNum(0x80402), PTEFlags::from_bits(PTE_X)).unwrap();
    pt.unmap(v2).unwrap();
    assert_eq!(pt.get_pte(v1).unwrap().ppn().0, 0x80400);
    assert_eq!(pt.get_pte(v3).unwrap().ppn().0, 0x80402);
    assert_eq!(pt.get_pte(v2), Err(KernelError::NotMapped));
}

#[test]
fn token_encodes_mode_and_root() {
    let mut a = test_allocator();
    let pt = PageTable::new(&mut a).unwrap();
    let token = pt.token();
    assert_eq!(token >> 60, 8);
}

#[test]
fn address_arithmetic_splits_pages() {
    let va = VirtAddr::new(0x1234_5678);
    assert_eq!(va.page_offset(), 0x678);
    assert_eq!(va.floor().0, 0x12345);
    assert_eq!(va.ceil().0, 0x12346);
    let pa = PhysAddr::new(0x8020_0000);
    assert_eq!(pa.page_offset(), 0);
    assert_eq!(pa.floor().0, 0x80200);
    assert_eq!(pa.ceil().0, 0x80200);
    let vpn = VirtPageNum(0x12345);
    let idx = vpn.indexes();
    assert_eq!(idx, [0, 0x91, 0x145]);
}

#[test]
fn building_a_table_without_frames_fails() {
    let mut a = StackFrameAllocator::new();
    init_frame_allocator(
        &mut a,
        PhysAddr::new(0x8030_0000),
        PhysAddr::new(0x8030_0000),
    );
    assert!(matches!(PageTable::new(&mut a), Err(KernelError::FrameExhausted)));
}
