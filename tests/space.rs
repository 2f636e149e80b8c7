use kmem::addr::{PhysAddr, VirtAddr};
use kmem::error::MemError;
use kmem::paging::PageFlags;
use kmem::pmm::{self, MemoryRegion, RegionKind};
use kmem::space::AddressSpace;
use kmem::vmm::{self, MemorySystem};

const HHDM: u64 = 0xFFFF_8000_0000_0000;

fn boot() -> MemorySystem {
    let map = vec![
        MemoryRegion { base: 0, length: 0x1000, kind: RegionKind::BootloaderReclaimable },
        MemoryRegion { base: 0x1000, length: 0x3F_F000, kind: RegionKind::Usable },
    ];
    vmm::install(pmm::install(&map).unwrap(), HHDM, 0)
}

fn va(a: u64) -> VirtAddr {
    VirtAddr::new(a).unwrap()
}

fn pa(a: u64) -> PhysAddr {
    PhysAddr::new(a).unwrap()
}

fn rw() -> PageFlags {
    PageFlags { present: true, writable: true, user: true, no_execute: false, no_cache: false, huge: false }
}

#[test]
fn new_space_shares_kernel_half() {
    let mut sys = boot();
    let k1 = 0xFFFF_C000_0000_0000;
    vmm::page_map(&mut sys, va(k1), pa(0x30_0000), rw()).unwrap();
    let space = AddressSpace::new(&mut sys).unwrap();
    assert!(space.is_mapped(&sys, va(k1)));
    assert!(!space.is_mapped(&sys, va(0x40_0000)));
    // Below an entry that was copied: visible in the space too.
    let k2 = k1 + 0x1000;
    vmm::page_map(&mut sys, va(k2), pa(0x31_0000), rw()).unwrap();
    assert!(space.is_mapped(&sys, va(k2)));
    // Under a root entry created after the space: only in the kernel's hierarchy.
    let k3 = 0xFFFF_E000_0000_0000;
    vmm::page_map(&mut sys, va(k3), pa(0x32_0000), rw()).unwrap();
    assert!(vmm::page_is_mapped(&sys, va(k3)));
    assert!(!space.is_mapped(&sys, va(k3)));
}

#[test]
fn space_maps_without_being_active() {
    let mut sys = boot();
    let space = AddressSpace::new(&mut sys).unwrap();
    let v = va(0x40_0000);
    space.map_page(&mut sys, v, pa(0x30_0000), rw()).unwrap();
    assert!(space.is_mapped(&sys, v));
    assert!(!vmm::page_is_mapped(&sys, v));
    space.activate(&mut sys);
    assert_eq!(vmm::virt_to_phys(&sys, v), Some(pa(0x30_0000)));
    assert_eq!(space.unmap_page(&mut sys, v), Ok(pa(0x30_0000)));
    assert!(!space.is_mapped(&sys, v));
}

#[test]
fn release_frees_lower_half_tables() {
    let mut sys = boot();
    let before = sys.pmm().free_pages();
    let space = AddressSpace::new(&mut sys).unwrap();
    let p = space.map_page_alloc(&mut sys, va(0x40_0000), rw()).unwrap();
    space.map_page(&mut sys, va(0x40_1000), pa(0x30_0000), rw()).unwrap();
    space.map_page(&mut sys, va(0x8000_0000), pa(0x31_0000), rw()).unwrap();
    // Root, then tables 3/2/1 for the first path, and 2/1 for the third.
    assert_eq!(sys.pmm().free_pages(), before - 1 - 1 - 3 - 2);
    let mid = sys.pmm().free_pages();
    assert_eq!(space.release(&mut sys).ok(), Some(()));
    assert_eq!(sys.pmm().free_pages(), mid + 6);
    // The data frame belongs to whoever mapped it, not to the tables.
    assert!(sys.pmm().is_allocated((p.as_u64() / 4096) as usize));
}

#[test]
fn release_keeps_kernel_tables() {
    let mut sys = boot();
    vmm::page_map(&mut sys, va(0xFFFF_C000_0000_0000), pa(0x30_0000), rw()).unwrap();
    let space = AddressSpace::new(&mut sys).unwrap();
    let mid = sys.pmm().free_pages();
    assert!(space.release(&mut sys).is_ok());
    assert_eq!(sys.pmm().free_pages(), mid + 1);
    assert!(vmm::page_is_mapped(&sys, va(0xFFFF_C000_0000_0000)));
}

#[test]
fn release_of_active_space_is_refused() {
    let mut sys = boot();
    let space = AddressSpace::new(&mut sys).unwrap();
    space.map_page(&mut sys, va(0x40_0000), pa(0x30_0000), rw()).unwrap();
    space.activate(&mut sys);
    let free = sys.pmm().free_pages();
    let space = match space.release(&mut sys) {
        Err(s) => s,
        Ok(()) => panic!("the active space was torn down"),
    };
    assert_eq!(sys.pmm().free_pages(), free);
    assert!(space.is_mapped(&sys, va(0x40_0000)));
    sys.activate_kernel();
    assert!(space.release(&mut sys).is_ok());
    assert_eq!(sys.pmm().free_pages(), free + 4);
}

#[test]
fn write_spans_pages_and_spares_neighbours() {
    let mut sys = boot();
    let space = AddressSpace::new(&mut sys).unwrap();
    let base = 0x1000_0000u64;
    let frames: Vec<PhysAddr> =
        (0..4).map(|i| space.map_page_alloc(&mut sys, va(base + i * 4096), rw()).unwrap()).collect();
    let data: Vec<u8> = (0..6000u32).map(|i| (i % 251) as u8 + 1).collect();
    space.write(&mut sys, va(base + 4000), &data).unwrap();
    for (j, b) in data.iter().enumerate() {
        let off = 4000 + j as u64;
        let f = frames[(off / 4096) as usize];
        assert_eq!(sys.read_phys(f.as_u64() + off % 4096), Some(*b));
    }
    for i in 0..4000 {
        assert_eq!(sys.read_phys(frames[0].as_u64() + i), Some(0));
    }
    for i in (10000 - 8192)..4096 {
        assert_eq!(sys.read_phys(frames[2].as_u64() + i), Some(0));
    }
    for i in 0..4096 {
        assert_eq!(sys.read_phys(frames[3].as_u64() + i), Some(0));
    }
    space.zero(&mut sys, va(base + 4090), 20).unwrap();
    for off in 4090..4110u64 {
        let f = frames[(off / 4096) as usize];
        assert_eq!(sys.read_phys(f.as_u64() + off % 4096), Some(0));
    }
    assert_eq!(sys.read_phys(frames[1].as_u64() + 14), Some(data[110]));
}

#[test]
fn write_stops_at_unmapped_page() {
    let mut sys = boot();
    let space = AddressSpace::new(&mut sys).unwrap();
    let base = 0x2000_0000u64;
    let f0 = space.map_page_alloc(&mut sys, va(base), rw()).unwrap();
    let f2 = space.map_page_alloc(&mut sys, va(base + 0x2000), rw()).unwrap();
    let data = vec![7u8; 3 * 4096];
    assert_eq!(space.write(&mut sys, va(base + 100), &data), Err(MemError::PageNotMapped));
    // The chunk before the hole is written; nothing after it is.
    assert_eq!(sys.read_phys(f0.as_u64() + 100), Some(7));
    assert_eq!(sys.read_phys(f0.as_u64() + 4095), Some(7));
    assert_eq!(sys.read_phys(f0.as_u64() + 99), Some(0));
    assert_eq!(sys.read_phys(f2.as_u64()), Some(0));
    assert_eq!(space.zero(&mut sys, va(base + 0x1000), 1), Err(MemError::PageNotMapped));
    assert_eq!(space.write(&mut sys, va(base), &[]), Ok(()));
}

#[test]
fn space_cr3_is_its_root() {
    let mut sys = boot();
    let space = AddressSpace::new(&mut sys).unwrap();
    // Frame 0 is the boot root, frame 1 the bitmap: the root is the first free frame.
    assert_eq!(space.cr3(), 0x2000);
    assert!(sys.pmm().is_allocated(2));
}
