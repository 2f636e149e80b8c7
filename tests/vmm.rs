use kmem::addr::{PhysAddr, VirtAddr};
use kmem::error::MemError;
use kmem::paging::PageFlags;
use kmem::pmm::{self, MemoryRegion, RegionKind};
use kmem::vmm::{self, MemorySystem};

const HHDM: u64 = 0xFFFF_8000_0000_0000;

/// 4 MiB of memory; frame 0 holds the boot hierarchy's root, frame 1 the bitmap.
fn boot() -> MemorySystem {
    let map = vec![
        MemoryRegion { base: 0, length: 0x1000, kind: RegionKind::BootloaderReclaimable },
        MemoryRegion { base: 0x1000, length: 0x3F_F000, kind: RegionKind::Usable },
    ];
    let a = pmm::install(&map).unwrap();
    vmm::install(a, HHDM, 0)
}

fn va(a: u64) -> VirtAddr {
    VirtAddr::new(a).unwrap()
}

fn pa(a: u64) -> PhysAddr {
    PhysAddr::new(a).unwrap()
}

fn rw() -> PageFlags {
    PageFlags { present: true, writable: true, user: false, no_execute: false, no_cache: false, huge: false }
}

#[test]
fn boot_state() {
    let sys = boot();
    assert_eq!(sys.pmm().free_pages(), 1022);
    assert_eq!(sys.kernel_root_exec(), 0);
    assert_eq!(sys.active_root_exec(), 0);
    assert_eq!(vmm::hhdm(&sys), HHDM);
}

#[test]
fn phys_to_virt_adds_offset() {
    let sys = boot();
    assert_eq!(vmm::phys_to_virt(&sys, pa(0x5000)).as_u64(), HHDM + 0x5000);
    // Beyond the tracked memory too, as long as the sum is canonical.
    assert_eq!(vmm::phys_to_virt(&sys, pa(0x1_0000_0000)).as_u64(), HHDM + 0x1_0000_0000);
}

#[test]
fn virt_to_phys_direct_map() {
    let sys = boot();
    assert_eq!(vmm::virt_to_phys(&sys, va(HHDM + 0x12345)), Some(pa(0x12345)));
    // Past the tracked span the walk decides, and nothing is mapped.
    assert_eq!(vmm::virt_to_phys(&sys, va(HHDM + 0x40_0000)), None);
}

#[test]
fn map_then_translate() {
    let mut sys = boot();
    let v = 0xFFFF_C000_0020_0000;
    assert!(!vmm::page_is_mapped(&sys, va(v)));
    assert_eq!(vmm::page_map(&mut sys, va(v), pa(0x30_0000), rw()), Ok(()));
    assert_eq!(vmm::virt_to_phys(&sys, va(v)), Some(pa(0x30_0000)));
    assert_eq!(vmm::virt_to_phys(&sys, va(v + 0x123)), Some(pa(0x30_0123)));
    assert!(vmm::page_is_mapped(&sys, va(v)));
    // Three tables were created for the path.
    assert_eq!(sys.pmm().free_pages(), 1022 - 3);
}

#[test]
fn map_replaces_existing_entry() {
    let mut sys = boot();
    let v = 0x40_0000;
    vmm::page_map(&mut sys, va(v), pa(0x30_0000), rw()).unwrap();
    vmm::page_map(&mut sys, va(v), pa(0x31_0000), rw()).unwrap();
    assert_eq!(vmm::virt_to_phys(&sys, va(v)), Some(pa(0x31_0000)));
    assert_eq!(sys.pmm().free_pages(), 1022 - 3);
}

#[test]
fn map_without_present_flag_does_not_translate() {
    let mut sys = boot();
    let flags = PageFlags { present: false, ..rw() };
    vmm::page_map(&mut sys, va(0x40_0000), pa(0x30_0000), flags).unwrap();
    assert!(!vmm::page_is_mapped(&sys, va(0x40_0000)));
}

#[test]
fn map_huge_flag_is_refused() {
    let mut sys = boot();
    let flags = PageFlags { huge: true, ..rw() };
    assert_eq!(vmm::page_map(&mut sys, va(0x40_0000), pa(0x30_0000), flags), Err(MemError::MapFailure));
    assert_eq!(sys.pmm().free_pages(), 1022);
}

#[test]
fn unmap_then_not_mapped() {
    let mut sys = boot();
    let v = 0x7000_0000;
    vmm::page_map(&mut sys, va(v), pa(0x20_0000), rw()).unwrap();
    assert_eq!(vmm::page_unmap(&mut sys, va(v)), Ok(pa(0x20_0000)));
    assert!(!vmm::page_is_mapped(&sys, va(v)));
    assert_eq!(vmm::virt_to_phys(&sys, va(v)), None);
}

#[test]
fn unmap_of_unmapped_fails() {
    let mut sys = boot();
    assert_eq!(vmm::page_unmap(&mut sys, va(0x7000_0000)), Err(MemError::UnmapFailure));
    vmm::page_map(&mut sys, va(0x7000_0000), pa(0x20_0000), rw()).unwrap();
    assert_eq!(vmm::page_unmap(&mut sys, va(0x7000_1000)), Err(MemError::UnmapFailure));
}

#[test]
fn map_alloc_unmap_free_reuses_frame() {
    let mut sys = boot();
    let v = va(0xFFFF_9000_0000_0000);
    let p = vmm::page_map_alloc(&mut sys, v, rw()).unwrap();
    // Frames 2 and up are free; the data frame is taken first, then three tables.
    assert_eq!(p, pa(0x2000));
    assert_eq!(vmm::page_unmap(&mut sys, v), Ok(p));
    assert_eq!(sys.frame_free(p.as_u64()), Ok(()));
    assert_eq!(sys.frame_alloc(), Some(p.as_u64()));
}

#[test]
fn map_alloc_frame_reads_zero() {
    let mut sys = boot();
    let space = kmem::space::AddressSpace::new(&mut sys).unwrap();
    let v = va(0x1000_0000);
    let p = space.map_page_alloc(&mut sys, v, rw()).unwrap();
    space.write(&mut sys, v, &[0xAB; 4096]).unwrap();
    assert_eq!(sys.read_phys(p.as_u64() + 17), Some(0xAB));
    assert_eq!(space.unmap_page(&mut sys, v), Ok(p));
    sys.frame_free(p.as_u64()).unwrap();
    let q = vmm::page_map_alloc(&mut sys, va(0xFFFF_9000_0000_0000), rw()).unwrap();
    assert_eq!(q, p);
    for i in 0..4096 {
        assert_eq!(sys.read_phys(q.as_u64() + i), Some(0));
    }
}

#[test]
fn map_fails_when_frames_run_out() {
    let mut sys = boot();
    while sys.frame_alloc().is_some() {}
    assert_eq!(sys.pmm().free_pages(), 0);
    assert_eq!(vmm::page_map(&mut sys, va(0x40_0000), pa(0x30_0000), rw()), Err(MemError::MapFailure));
    assert_eq!(vmm::page_map_alloc(&mut sys, va(0x40_0000), rw()), Err(MemError::OutOfMemory));
}

#[test]
fn map_alloc_gives_frame_back_on_failure() {
    let mut sys = boot();
    // Leave exactly two free frames: one for data, one table; the second table cannot be had.
    let mut taken = 0;
    while sys.pmm().free_pages() > 2 {
        sys.frame_alloc().unwrap();
        taken += 1;
    }
    assert!(taken > 0);
    let r = vmm::page_map_alloc(&mut sys, va(0x40_0000), rw());
    assert_eq!(r, Err(MemError::MapFailure));
    // The data frame went back; the table that was built stays.
    assert_eq!(sys.pmm().free_pages(), 1);
}

#[test]
fn failed_map_leaves_walk_unchanged() {
    let mut sys = boot();
    while sys.frame_alloc().is_some() {}
    let v = va(0x40_0000);
    assert_eq!(vmm::page_map(&mut sys, v, pa(0x30_0000), rw()), Err(MemError::MapFailure));
    assert!(!vmm::page_is_mapped(&sys, v));
}

#[test]
fn map_alloc_needs_one_frame_when_tables_exist() {
    let mut sys = boot();
    vmm::page_map(&mut sys, va(0x40_0000), pa(0x30_0000), rw()).unwrap();
    while sys.pmm().free_pages() > 1 {
        sys.frame_alloc().unwrap();
    }
    let p = vmm::page_map_alloc(&mut sys, va(0x40_1000), rw()).unwrap();
    assert_eq!(sys.pmm().free_pages(), 0);
    assert_eq!(vmm::virt_to_phys(&sys, va(0x40_1000)), Some(p));
    assert_eq!(vmm::virt_to_phys(&sys, va(0x40_0000)), Some(pa(0x30_0000)));
}
