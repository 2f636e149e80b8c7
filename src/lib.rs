//! Memory-management core of a freestanding x86-64 kernel: a bitmap frame
//! allocator, a four-level paging engine, isolated address spaces and the
//! bootstrap of the kernel heap, all over an explicit memory context.

pub mod addr;
pub mod count;
pub mod error;
pub mod pmm;
pub mod physmem;
pub mod paging;
pub mod vmm;
pub mod space;
pub mod heap;
pub mod vfs;
pub mod acpi;
pub mod interrupts;
