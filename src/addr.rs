//! Physical and virtual addresses, kept apart as distinct types.

use vstd::prelude::*;

verus! {

/// Size in bytes of one page frame.
pub const PAGE_SIZE: u64 = 4096;

/// Whether bits 48..64 of `a` are copies of bit 47.
pub open spec fn is_canonical(a: u64) -> bool {
    a < 0x0000_8000_0000_0000 || a >= 0xFFFF_8000_0000_0000
}

/// Whether `a` fits the 52 bits of a physical address.
pub open spec fn is_phys(a: u64) -> bool {
    a < 0x0010_0000_0000_0000
}

/// Relies on x86_64's `VirtAddr::try_new`: it succeeds exactly when bits
/// 48..64 sign-extend bit 47.
#[verifier::external_body]
fn canonical_check(a: u64) -> (r: bool)
    ensures
        r == is_canonical(a),
{
    x86_64::VirtAddr::try_new(a).is_ok()
}

/// Relies on x86_64's `PhysAddr::try_new`: it succeeds exactly when bits
/// 52..64 are clear.
#[verifier::external_body]
fn phys_check(a: u64) -> (r: bool)
    ensures
        r == is_phys(a),
{
    x86_64::PhysAddr::try_new(a).is_ok()
}

/// A physical address (at most 52 significant bits).
#[derive(Clone, Copy, Debug, PartialEq, Eq, Structural)]
pub struct PhysAddr {
    addr: u64,
}

/// A canonical virtual address.
#[derive(Clone, Copy, Debug, PartialEq, Eq, Structural)]
pub struct VirtAddr {
    addr: u64,
}

impl PhysAddr {
    pub closed spec fn view(self) -> u64 {
        self.addr
    }

    #[verifier::type_invariant]
    spec fn inv(self) -> bool {
        is_phys(self.addr)
    }

    /// The physical address `a`, or `None` when a bit above bit 51 is set.
    pub fn new(a: u64) -> (r: Option<PhysAddr>)
        ensures
            r.is_some() == is_phys(a),
            r.is_some() ==> r.unwrap()@ == a,
    {
        if phys_check(a) {
            Some(PhysAddr { addr: a })
        } else {
            None
        }
    }

    pub fn as_u64(self) -> (r: u64)
        ensures
            r == self@,
            is_phys(r),
    {
        proof {
            use_type_invariant(&self);
        }
        self.addr
    }
}

impl VirtAddr {
    pub closed spec fn view(self) -> u64 {
        self.addr
    }

    #[verifier::type_invariant]
    spec fn inv(self) -> bool {
        is_canonical(self.addr)
    }

    /// The virtual address `a`, or `None` when it is not canonical.
    pub fn new(a: u64) -> (r: Option<VirtAddr>)
        ensures
            r.is_some() == is_canonical(a),
            r.is_some() ==> r.unwrap()@ == a,
    {
        if canonical_check(a) {
            Some(VirtAddr { addr: a })
        } else {
            None
        }
    }

    pub fn as_u64(self) -> (r: u64)
        ensures
            r == self@,
            is_canonical(r),
    {
        proof {
            use_type_invariant(&self);
        }
        self.addr
    }
}

} // verus!
