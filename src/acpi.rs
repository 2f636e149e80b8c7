//! What the kernel keeps of the firmware's ACPI tables, and the mapping of
//! the physical regions that hold them.

use vstd::prelude::*;
use crate::addr::{PhysAddr, VirtAddr, is_canonical};
use crate::error::MemError;
use crate::paging::{ADDR_MASK, PageFlags, flag_bits, leaf_entry, p1_table, translate};
use crate::vmm::{MemorySystem, frame_of, page_is_mapped, page_map, path_sound};

verus! {

/// A local interrupt controller, as the MADT lists it.
#[derive(Clone, Copy, Debug, PartialEq, Eq, Structural)]
pub struct LapicInfo {
    pub proc_id: u8,
    pub apic_id: u8,
    pub flags: u32,
}

/// An I/O interrupt controller, as the MADT lists it.
#[derive(Clone, Copy, Debug, PartialEq, Eq, Structural)]
pub struct IoApicInfo {
    pub id: u8,
    pub address: u32,
}

/// The interrupt controllers found in the ACPI tables.
pub struct KernelAcpiTables {
    pub lapics: Vec<LapicInfo>,
    pub ioapics: Vec<IoApicInfo>,
}

impl KernelAcpiTables {
    pub fn new() -> (r: KernelAcpiTables)
        ensures
            r.lapics@.len() == 0,
            r.ioapics@.len() == 0,
    {
        KernelAcpiTables { lapics: Vec::new(), ioapics: Vec::new() }
    }
}

/// The tables once they are installed.
pub fn get(installed: &Option<KernelAcpiTables>) -> (r: Option<&KernelAcpiTables>)
    ensures
        r == match installed {
            Some(t) => Some(t),
            None => None::<&KernelAcpiTables>,
        },
{
    match installed {
        Some(t) => Some(t),
        None => None,
    }
}

/// A physical region reachable through the direct map.
#[derive(Clone, Copy, Debug, PartialEq, Eq, Structural)]
pub struct PhysicalMapping {
    pub physical_start: u64,
    pub virtual_start: u64,
    pub region_length: usize,
    pub mapped_length: usize,
}

/// Maps the physical regions that the ACPI table parser asks for.
#[derive(Clone, Copy, Debug, PartialEq, Eq, Structural)]
pub struct AcpiReader;

impl AcpiReader {
    /// Makes the region at `physical_address` reachable at its direct-map
    /// address: when that page is not mapped yet, it is mapped present and
    /// writable in the active hierarchy.
    pub fn map_physical_region(&self, sys: &mut MemorySystem, physical_address: PhysAddr, size: usize) -> (r: Result<
        PhysicalMapping,
        MemError,
    >)
        requires
            old(sys).wf(),
        ensures
            final(sys).wf(),
            final(sys).same_context(old(sys)),
            match r {
                Ok(m) => {
                    &&& m.physical_start == physical_address@
                    &&& m.virtual_start == physical_address@ + old(sys).hhdm()
                    &&& m.region_length == size && m.mapped_length == size
                    &&& translate(old(sys).tables(), old(sys).active_root(), m.virtual_start).is_some()
                        ==> final(sys).tables() == old(sys).tables()
                    &&& translate(old(sys).tables(), old(sys).active_root(), m.virtual_start).is_none()
                        ==> leaf_entry(final(sys).tables(), old(sys).active_root(), m.virtual_start) == Some(
                        (physical_address@ & ADDR_MASK) | flag_bits(
                            PageFlags {
                                present: true,
                                writable: true,
                                user: false,
                                no_execute: false,
                                no_cache: false,
                                huge: false,
                            },
                        ),
                    )
                },
                Err(e) => e == MemError::MapFailure,
            },
            ({
                let va = physical_address@ + old(sys).hhdm();
                let root = old(sys).active_root();
                va <= u64::MAX && is_canonical(va as u64) && (translate(old(sys).tables(), root, va as u64).is_some() || (
                old(sys).allocator().bits()[frame_of(root)] && (old(sys).allocator().free_frames() >= 3 || p1_table(
                    old(sys).tables(),
                    root,
                    va as u64,
                ).is_some()) && path_sound(old(sys).tables(), old(sys).allocator().bits(), root, va as u64)))
                    ==> r.is_ok()
            }),
    {
        let p = physical_address.as_u64();
        let h = crate::vmm::hhdm(sys);
        if p > u64::MAX - h {
            return Err(MemError::MapFailure);
        }
        let virt = match VirtAddr::new(p + h) {
            Some(v) => v,
            None => {
                return Err(MemError::MapFailure);
            },
        };
        if !page_is_mapped(sys, virt) {
            let flags = PageFlags { present: true, writable: true, user: false, no_execute: false, no_cache: false, huge: false };
            match page_map(sys, virt, physical_address, flags) {
                Ok(()) => {},
                Err(e) => {
                    return Err(e);
                },
            }
        }
        Ok(PhysicalMapping { physical_start: p, virtual_start: p + h, region_length: size, mapped_length: size })
    }
}

} // verus!
