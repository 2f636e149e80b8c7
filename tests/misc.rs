use kmem::acpi::{self, AcpiReader, KernelAcpiTables};
use kmem::addr::{PhysAddr, VirtAddr};
use kmem::heap;
use kmem::interrupts::InterruptIndex;
use kmem::pmm::{self, MemoryRegion, RegionKind};
use kmem::vmm::{self, MemorySystem};

const HHDM: u64 = 0xFFFF_8000_0000_0000;

fn boot(bytes: u64) -> MemorySystem {
    let map = vec![
        MemoryRegion { base: 0, length: 0x1000, kind: RegionKind::BootloaderReclaimable },
        MemoryRegion { base: 0x1000, length: bytes - 0x1000, kind: RegionKind::Usable },
    ];
    vmm::install(pmm::install(&map).unwrap(), HHDM, 0)
}

#[test]
fn virt_addr_must_be_canonical() {
    assert_eq!(VirtAddr::new(0x0000_7FFF_FFFF_F000).map(|v| v.as_u64()), Some(0x0000_7FFF_FFFF_F000));
    assert_eq!(VirtAddr::new(0xFFFF_8000_0000_0000).map(|v| v.as_u64()), Some(0xFFFF_8000_0000_0000));
    assert!(VirtAddr::new(0x0000_8000_0000_0000).is_none());
    assert!(VirtAddr::new(0xFFFF_7FFF_FFFF_FFFF).is_none());
}

#[test]
fn phys_addr_has_52_bits() {
    assert_eq!(PhysAddr::new(0x000F_FFFF_FFFF_FFFF).map(|p| p.as_u64()), Some(0x000F_FFFF_FFFF_FFFF));
    assert!(PhysAddr::new(0x0010_0000_0000_0000).is_none());
}

#[test]
fn interrupt_vectors() {
    assert_eq!(InterruptIndex::Timer.as_u8(), 32);
    assert_eq!(InterruptIndex::Timer.as_usize(), 32);
}

#[test]
fn heap_window_is_backed() {
    let mut sys = boot(0x80_0000);
    let free = sys.pmm().free_pages();
    assert_eq!(heap::install(&mut sys), Ok((heap::HEAP_START, heap::HEAP_SIZE)));
    // 256 data frames and the tables of one path: three tables.
    assert_eq!(sys.pmm().free_pages(), free - 256 - 3);
    for i in 0..256u64 {
        let v = VirtAddr::new(heap::HEAP_START + i * 4096).unwrap();
        assert!(vmm::page_is_mapped(&sys, v));
    }
    assert!(!vmm::page_is_mapped(&sys, VirtAddr::new(heap::HEAP_START + 256 * 4096).unwrap()));
}

#[test]
fn heap_install_fails_without_memory() {
    let mut sys = boot(0x10_0000);
    assert_eq!(heap::install(&mut sys), Err(kmem::error::MemError::OutOfMemory));
}

#[test]
fn acpi_region_is_mapped_once() {
    let mut sys = boot(0x40_0000);
    let reader = AcpiReader;
    let p = PhysAddr::new(0x3000).unwrap();
    let m = reader.map_physical_region(&mut sys, p, 36).unwrap();
    assert_eq!(m.physical_start, 0x3000);
    assert_eq!(m.virtual_start, HHDM + 0x3000);
    assert_eq!((m.region_length, m.mapped_length), (36, 36));
    let v = VirtAddr::new(HHDM + 0x3000).unwrap();
    assert!(vmm::page_is_mapped(&sys, v));
    let free = sys.pmm().free_pages();
    reader.map_physical_region(&mut sys, p, 36).unwrap();
    assert_eq!(sys.pmm().free_pages(), free);
}

#[test]
fn acpi_tables_slot() {
    let mut slot: Option<KernelAcpiTables> = None;
    assert!(acpi::get(&slot).is_none());
    let mut t = KernelAcpiTables::new();
    t.lapics.push(acpi::LapicInfo { proc_id: 0, apic_id: 0, flags: 1 });
    slot = Some(t);
    assert_eq!(acpi::get(&slot).unwrap().lapics.len(), 1);
}

#[test]
fn heap_pages_get_distinct_zeroed_frames() {
    let mut sys = boot(0x80_0000);
    heap::install(&mut sys).unwrap();
    let mut seen = std::collections::HashSet::new();
    for i in 0..256u64 {
        let v = VirtAddr::new(heap::HEAP_START + i * 4096).unwrap();
        let p = vmm::virt_to_phys(&sys, v).unwrap().as_u64();
        assert_eq!(p % 4096, 0);
        assert!(seen.insert(p));
        assert_eq!(sys.read_phys(p), Some(0));
        assert_eq!(sys.read_phys(p + 4095), Some(0));
    }
}
