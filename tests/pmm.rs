use kmem::error::MemError;
use kmem::pmm::{self, BitmapAllocator, MemoryRegion, RegionKind};

const MIB: u64 = 1024 * 1024;

fn region(base: u64, length: u64, kind: RegionKind) -> MemoryRegion {
    MemoryRegion { base, length, kind }
}

fn single_region() -> BitmapAllocator {
    pmm::install(&vec![region(0, 4 * MIB, RegionKind::Usable)]).unwrap()
}

fn clear_bits(a: &BitmapAllocator) -> usize {
    (0..a.total_pages()).filter(|&i| !a.is_allocated(i)).count()
}

#[test]
fn install_single_region_counts() {
    let a = single_region();
    // 1024 frames need a 128-byte bitmap, kept in frame 0.
    assert_eq!(a.total_pages(), 1024);
    assert_eq!(a.usable_pages(), 1023);
    assert_eq!(a.free_pages(), 1023);
    assert!(a.is_allocated(0));
    assert!(!a.is_allocated(1));
    assert_eq!(pmm::max_phys_address(&a), Some(4 * MIB));
}

#[test]
fn alloc_until_exhausted() {
    let mut a = single_region();
    for i in 1..1024u64 {
        assert_eq!(pmm::alloc_frame(&mut a), Some(i * 4096));
    }
    assert_eq!(a.free_pages(), 0);
    assert_eq!(pmm::alloc_frame(&mut a), None);
    assert_eq!(a.free_pages(), 0);
}

#[test]
fn alloc_is_first_fit() {
    let mut a = single_region();
    let x = pmm::alloc_frame(&mut a).unwrap();
    let y = pmm::alloc_frame(&mut a).unwrap();
    let z = pmm::alloc_frame(&mut a).unwrap();
    assert_eq!((x, y, z), (0x1000, 0x2000, 0x3000));
    assert_eq!(pmm::free(&mut a, y), Ok(()));
    assert_eq!(pmm::alloc_frame(&mut a), Some(0x2000));
    assert_eq!(pmm::alloc_frame(&mut a), Some(0x4000));
}

#[test]
fn alloc_never_repeats_without_free() {
    let mut a = single_region();
    let mut seen = std::collections::HashSet::new();
    for _ in 0..100 {
        let f = pmm::alloc_frame(&mut a).unwrap();
        assert!(a.is_allocated((f / 4096) as usize));
        assert!(seen.insert(f));
    }
}

#[test]
fn free_misaligned_is_rejected() {
    let mut a = single_region();
    let f = pmm::alloc_frame(&mut a).unwrap();
    let before = a.free_pages();
    assert_eq!(pmm::free(&mut a, f + 1), Err(MemError::AlignmentViolation));
    assert_eq!(a.free_pages(), before);
    assert!(a.is_allocated((f / 4096) as usize));
}

#[test]
fn free_of_free_frame_is_noop() {
    let mut a = single_region();
    let before = a.free_pages();
    assert_eq!(pmm::free(&mut a, 0x10_0000), Ok(()));
    assert_eq!(a.free_pages(), before);
    assert_eq!(pmm::free(&mut a, 64 * MIB), Ok(()));
    assert_eq!(a.free_pages(), before);
}

#[test]
fn free_counter_matches_clear_bits() {
    let mut a = single_region();
    let mut held = Vec::new();
    for i in 0..300 {
        let f = pmm::alloc_frame(&mut a).unwrap();
        if i % 3 == 0 {
            held.push(f);
        } else {
            pmm::free(&mut a, f).unwrap();
        }
        assert_eq!(a.free_pages(), clear_bits(&a));
        assert_eq!(a.usable_pages() - a.free_pages(), held.len());
    }
    for f in held {
        pmm::free(&mut a, f).unwrap();
        assert_eq!(a.free_pages(), clear_bits(&a));
    }
    assert_eq!(a.free_pages(), a.usable_pages());
}

#[test]
fn install_without_room_for_bitmap() {
    // 64 MiB of address space needs 2048 bytes of bitmap; no usable region holds that.
    let map = vec![region(0, 0x400, RegionKind::Usable), region(0x1000, 64 * MIB - 0x1000, RegionKind::Reserved)];
    assert!(pmm::install(&map).is_none());
}

#[test]
fn install_frees_only_whole_usable_frames() {
    let map = vec![
        region(0, 0x1000, RegionKind::Reserved),
        region(0x1800, 0x4000, RegionKind::Usable),
        region(0x8000, 0x8000, RegionKind::Usable),
        region(0x10000, 0x10000, RegionKind::AcpiReclaimable),
    ];
    let a = pmm::install(&map).unwrap();
    assert_eq!(a.total_pages(), 32);
    // The region at 0x1800 holds frames 2..=4 wholly and keeps the bitmap in frame 1..2.
    assert!(a.is_allocated(0));
    assert!(a.is_allocated(1));
    assert!(!a.is_allocated(2));
    assert!(!a.is_allocated(4));
    assert!(a.is_allocated(5));
    assert!(!a.is_allocated(8));
    assert!(!a.is_allocated(15));
    assert!(a.is_allocated(16));
    assert_eq!(a.free_pages(), 3 + 8);
    assert_eq!(a.usable_pages(), 11);
}

#[test]
fn install_reserves_bitmap_frames() {
    let map = vec![region(0x3000, 0x5000, RegionKind::Usable)];
    let a = pmm::install(&map).unwrap();
    assert_eq!(a.total_pages(), 8);
    assert!(a.is_allocated(3));
    assert!(!a.is_allocated(4));
    assert_eq!(a.free_pages(), 4);
}

#[test]
fn page_to_mb_rounds_down() {
    assert_eq!(pmm::page_to_mb(0), 0);
    assert_eq!(pmm::page_to_mb(255), 0);
    assert_eq!(pmm::page_to_mb(256), 1);
    assert_eq!(pmm::page_to_mb(1024), 4);
}

#[test]
fn free_of_never_usable_frame_is_noop() {
    let mut a = single_region();
    let before = a.free_pages();
    // Frame 0 holds the bitmap: allocated, but never handed out.
    assert_eq!(pmm::free(&mut a, 0), Ok(()));
    assert_eq!(a.free_pages(), before);
    assert!(a.is_allocated(0));
    assert!(!a.is_usable(0));
    assert!(a.is_usable(1));
    assert_eq!(a.usable_pages() - a.free_pages(), 0);
}

#[test]
fn free_of_reserved_frame_is_noop() {
    let map = vec![region(0, 0x1000, RegionKind::Reserved), region(0x1000, 0x3F_F000, RegionKind::Usable)];
    let mut a = pmm::install(&map).unwrap();
    let before = a.free_pages();
    assert_eq!(pmm::free(&mut a, 0), Ok(()));
    assert_eq!(a.free_pages(), before);
    assert!(a.is_allocated(0));
}

#[test]
fn single_region_above_low_memory() {
    // 4 MiB at 1 MiB: 1280 frames tracked, a 160-byte bitmap in the region's first frame.
    let mut a = pmm::install(&vec![region(MIB, 4 * MIB, RegionKind::Usable)]).unwrap();
    assert_eq!(a.total_pages(), 1280);
    assert_eq!(a.usable_pages(), 1023);
    for i in 0..1023u64 {
        assert_eq!(pmm::alloc_frame(&mut a), Some(MIB + 4096 + i * 4096));
    }
    assert_eq!(pmm::alloc_frame(&mut a), None);
}
