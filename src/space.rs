//! Isolated address spaces: a root table of their own whose upper half
//! aliases the kernel's hierarchy and whose lower half they own.

use vstd::prelude::*;
use crate::addr::{PhysAddr, VirtAddr};
use crate::error::MemError;
use crate::paging::{ADDR_MASK, PageFlags, entry_addr, flag_bits, huge, leaf_entry, p1_table, present, pt_index, translate};
use crate::physmem::entry_of;
use crate::pmm::{self, first_clear, lemma_first_clear_spec};
use crate::vmm::{MemorySystem, linked_frames, same_table, backed, backed_prefix, changes_confined, path_frames, path_owned, path_slots, cleared, frame_of, frames_in, path_sound, slot, span_stored, tables_below, torn_down};
use crate::count::{count_where, lemma_count_ext, lemma_count_split};
use crate::pmm::{BitmapAllocator, free_count};

verus! {

/// An address space, identified by the physical address of its root table.
pub struct AddressSpace {
    pml4_phys: u64,
}

impl AddressSpace {
    #[verifier::type_invariant]
    spec fn inv(self) -> bool {
        self.pml4_phys % 4096 == 0
    }

    /// Physical address of the root table.
    pub closed spec fn root(&self) -> u64 {
        self.pml4_phys
    }

    /// Whether the root table lies in the memory of `sys`.
    pub open spec fn fits(&self, sys: &MemorySystem) -> bool {
        self.root() / 4096 < sys.allocator().total_frames()
    }

    /// Allocates and zero-fills a root table, then copies the kernel-half
    /// root entries (256..512) of the kernel's hierarchy into it.
    pub fn new(sys: &mut MemorySystem) -> (r: Result<AddressSpace, MemError>)
        requires
            old(sys).wf(),
        ensures
            final(sys).wf(),
            final(sys).same_context(old(sys)),
            final(sys).bytes() == old(sys).bytes(),
            match r {
                Ok(s) => {
                    &&& first_clear(old(sys).allocator().bits()) == Some(frame_of(s.root()))
                    &&& s.root() % 4096 == 0
                    &&& s.fits(final(sys))
                    &&& final(sys).allocator().bits() == old(sys).allocator().bits().update(frame_of(s.root()), true)
                    &&& forall|i: int| 256 <= i < 512 ==> #[trigger] entry_of(final(sys).tables(), s.root() as int, i)
                        == entry_of(old(sys).tables(), old(sys).kernel_root() as int, i)
                    &&& forall|i: int| 0 <= i < 256 ==> #[trigger] entry_of(final(sys).tables(), s.root() as int, i) == 0
                    &&& final(sys).tables().len() == old(sys).tables().len()
                    &&& forall|k: int| 0 <= k < final(sys).tables().len() && k / 512 != frame_of(s.root())
                        ==> #[trigger] final(sys).tables()[k] == old(sys).tables()[k]
                },
                Err(e) => e == MemError::OutOfMemory && first_clear(old(sys).allocator().bits()).is_none()
                    && *final(sys) == *old(sys),
            },
    {
        let root = match sys.new_root() {
            Some(a) => a,
            None => {
                return Err(MemError::OutOfMemory);
            },
        };
        Ok(AddressSpace { pml4_phys: root })
    }

    /// Maps the page of `v` to the frame of `p` in this space, whether or
    /// not it is the active one.
    pub fn map_page(&self, sys: &mut MemorySystem, v: VirtAddr, p: PhysAddr, flags: PageFlags) -> (r: Result<(), MemError>)
        requires
            old(sys).wf(),
            self.fits(old(sys)),
        ensures
            final(sys).wf(),
            final(sys).same_context(old(sys)),
            final(sys).bytes() == old(sys).bytes(),
            forall|i: int| 0 <= i < old(sys).allocator().total_frames() && #[trigger] old(sys).allocator().bits()[i]
                ==> final(sys).allocator().bits()[i],
            r.is_ok() ==> leaf_entry(final(sys).tables(), self.root(), v@) == Some((p@ & ADDR_MASK) | flag_bits(flags)),
            r.is_ok() ==> changes_confined(old(sys).tables(), final(sys).tables(), old(sys).allocator().bits(),
                path_slots(final(sys).tables(), self.root(), v@)),
            r.is_ok() ==> path_owned(final(sys).tables(), final(sys).allocator().bits(), self.root(), v@),
            r.is_ok() ==> forall|f: int| #[trigger] path_frames(final(sys).tables(), self.root(), v@).contains(f)
                ==> linked_frames(old(sys).tables(), self.root(), v@).contains(f) || !old(sys).allocator().bits()[f],
            r.is_err() ==> translate(final(sys).tables(), self.root(), v@) == translate(old(sys).tables(), self.root(), v@),
            old(sys).allocator().free_frames() == 0 && p1_table(old(sys).tables(), self.root(), v@).is_none() ==> r.is_err(),
            forall|u: u64| same_table(u, v@) && (r.is_err() || pt_index(u, 12) != pt_index(v@, 12)) ==> #[trigger] translate(
                final(sys).tables(),
                self.root(),
                u,
            ) == translate(old(sys).tables(), self.root(), u),
            r.is_ok() ==> forall|i: int| 0 <= i < final(sys).allocator().total_frames() && #[trigger] final(sys).allocator().bits()[i]
                && !old(sys).allocator().bits()[i] ==> path_frames(final(sys).tables(), self.root(), v@).contains(i),
            r.is_ok() ==> forall|k: int| 0 <= k < final(sys).tables().len() && path_frames(final(sys).tables(), self.root(), v@).contains(k / 512)
                && !linked_frames(old(sys).tables(), self.root(), v@).contains(k / 512) && !path_slots(final(sys).tables(), self.root(), v@).contains(k)
                ==> #[trigger] final(sys).tables()[k] == 0,
            r.is_err() ==> r == Err::<(), MemError>(MemError::MapFailure) && {
                ||| flags.huge
                ||| !old(sys).allocator().bits()[frame_of(self.root())]
                ||| (final(sys).allocator().free_frames() == 0 && p1_table(old(sys).tables(), self.root(), v@).is_none())
                ||| !path_sound(old(sys).tables(), old(sys).allocator().bits(), self.root(), v@)
            },
            !flags.huge && old(sys).allocator().bits()[frame_of(self.root())] && (old(sys).allocator().free_frames() >= 3
                || p1_table(old(sys).tables(), self.root(), v@).is_some()) && path_sound(
                old(sys).tables(),
                old(sys).allocator().bits(),
                self.root(),
                v@,
            ) ==> r.is_ok(),
    {
        sys.map_in(self.pml4_phys, v, p, flags)
    }

    /// Allocates a zero-filled frame and maps the page of `v` to it in this
    /// space; when mapping fails the frame is given back.
    pub fn map_page_alloc(&self, sys: &mut MemorySystem, v: VirtAddr, flags: PageFlags) -> (r: Result<PhysAddr, MemError>)
        requires
            old(sys).wf(),
            self.fits(old(sys)),
        ensures
            final(sys).wf(),
            final(sys).same_context(old(sys)),
            match r {
                Ok(p) => {
                    &&& first_clear(old(sys).allocator().bits()) == Some(frame_of(p@))
                    &&& p@ % 4096 == 0
                    &&& p@ + 4096 <= final(sys).span()
                    &&& final(sys).allocator().bits()[frame_of(p@)]
                    &&& leaf_entry(final(sys).tables(), self.root(), v@) == Some(p@ | flag_bits(flags))
                    &&& final(sys).bytes().len() == old(sys).bytes().len()
                    &&& forall|q: int| 0 <= q < old(sys).bytes().len() ==> #[trigger] final(sys).bytes()[q] == if p@ <= q < p@ + 4096 {
                        0u8
                    } else {
                        old(sys).bytes()[q]
                    }
                },
                Err(e) => {
                    &&& (e == MemError::OutOfMemory) == first_clear(old(sys).allocator().bits()).is_none()
                    &&& (e == MemError::OutOfMemory || e == MemError::MapFailure)
                    &&& e == MemError::OutOfMemory ==> final(sys).tables() == old(sys).tables()
                        && final(sys).allocator().bits() == old(sys).allocator().bits()
                    &&& e == MemError::MapFailure ==> !final(sys).allocator().bits()[first_clear(
                        old(sys).allocator().bits(),
                    ).unwrap()]
                    &&& translate(final(sys).tables(), self.root(), v@) == translate(old(sys).tables(), self.root(), v@)
                },
            },
            !flags.huge && old(sys).allocator().bits()[frame_of(self.root())] && (old(sys).allocator().free_frames() >= 4
                || (old(sys).allocator().free_frames() >= 1 && p1_table(old(sys).tables(), self.root(), v@).is_some()))
                && path_sound(old(sys).tables(), old(sys).allocator().bits(), self.root(), v@) ==> r.is_ok(),
    {
        match sys.map_alloc_in(self.pml4_phys, v, flags) {
            Ok(pa) => {
                proof {
                    sys.lemma_wf();
                }
                match PhysAddr::new(pa) {
                    Some(p) => Ok(p),
                    None => Err(MemError::MapFailure),
                }
            },
            Err(e) => Err(e),
        }
    }

    /// Removes the mapping of the page of `v` from this space and hands back
    /// the frame it mapped.
    pub fn unmap_page(&self, sys: &mut MemorySystem, v: VirtAddr) -> (r: Result<PhysAddr, MemError>)
        requires
            old(sys).wf(),
        ensures
            final(sys).wf(),
            final(sys).same_context(old(sys)),
            final(sys).bytes() == old(sys).bytes(),
            final(sys).allocator() == old(sys).allocator(),
            match leaf_entry(old(sys).tables(), self.root(), v@) {
                Some(e) if present(e) && !huge(e) => {
                    &&& r.is_ok() && r.unwrap()@ == entry_addr(e)
                    &&& final(sys).tables() == old(sys).tables().update(
                        slot(p1_table(old(sys).tables(), self.root(), v@).unwrap() as int, pt_index(v@, 12)),
                        0,
                    )
                    &&& translate(final(sys).tables(), self.root(), v@) == None::<u64>
                },
                _ => r == Err::<PhysAddr, MemError>(MemError::UnmapFailure) && final(sys).tables() == old(sys).tables(),
            },
    {
        match sys.unmap_in(self.pml4_phys, v) {
            Ok(pa) => {
                proof {
                    let e = leaf_entry(old(sys).tables(), self.root(), v@).unwrap();
                    assert(e & 0x000f_ffff_ffff_f000u64 < 0x10_0000_0000_0000u64) by (bit_vector);
                }
                match PhysAddr::new(pa) {
                    Some(p) => Ok(p),
                    None => Err(MemError::UnmapFailure),
                }
            },
            Err(e) => Err(e),
        }
    }

    /// Whether `v` translates in this space.
    pub fn is_mapped(&self, sys: &MemorySystem, v: VirtAddr) -> (r: bool)
        requires
            sys.wf(),
        ensures
            r == translate(sys.tables(), self.root(), v@).is_some(),
    {
        sys.translate_in(self.pml4_phys, v.as_u64()).is_some()
    }

    /// Physical address of the root table, as loaded into the paging
    /// register when the space is switched in.
    pub fn cr3(&self) -> (r: u64)
        ensures
            r == self.root(),
    {
        self.pml4_phys
    }
}

impl AddressSpace {
    /// Zero-fills `len` bytes from `v` in this space, page chunk by page
    /// chunk; fails at the first page that is not mapped to backed memory,
    /// leaving the chunks before it zeroed.
    pub fn zero(&self, sys: &mut MemorySystem, v: VirtAddr, len: usize) -> (r: Result<(), MemError>)
        requires
            old(sys).wf(),
        ensures
            final(sys).wf(),
            final(sys).same_context(old(sys)),
            final(sys).allocator() == old(sys).allocator(),
            final(sys).tables() == old(sys).tables(),
            r.is_ok() == (backed_prefix(*old(sys), self.root(), v@ as int, len as int) == len),
            r.is_err() ==> r == Err::<(), MemError>(MemError::PageNotMapped),
            span_stored(*old(sys), final(sys).bytes(), self.root(), v@ as int, Seq::empty(), true,
                backed_prefix(*old(sys), self.root(), v@ as int, len as int)),
    {
        let empty: Vec<u8> = Vec::new();
        sys.copy_in(self.pml4_phys, v.as_u64(), empty.as_slice(), true, len)
    }

    /// Copies `data` to `v..v + data.len()` in this space, page chunk by page
    /// chunk; fails at the first page that is not mapped to backed memory,
    /// leaving the chunks before it written.
    pub fn write(&self, sys: &mut MemorySystem, v: VirtAddr, data: &[u8]) -> (r: Result<(), MemError>)
        requires
            old(sys).wf(),
        ensures
            final(sys).wf(),
            final(sys).same_context(old(sys)),
            final(sys).allocator() == old(sys).allocator(),
            final(sys).tables() == old(sys).tables(),
            r.is_ok() == (backed_prefix(*old(sys), self.root(), v@ as int, data@.len() as int) == data@.len()),
            r.is_err() ==> r == Err::<(), MemError>(MemError::PageNotMapped),
            span_stored(*old(sys), final(sys).bytes(), self.root(), v@ as int, data@, false,
                backed_prefix(*old(sys), self.root(), v@ as int, data@.len() as int)),
    {
        sys.copy_in(self.pml4_phys, v.as_u64(), data, false, data.len())
    }
}

/// Frames that an address space owns: its root table and the tables
/// reachable through the lower half of it.
pub open spec fn owned_frames(t: Seq<u64>, root: u64) -> Set<int> {
    tables_below(t, root, 4, 256).insert(frame_of(root))
}

impl AddressSpace {
    /// Makes this space the active one, as loading the paging register does.
    pub fn activate(&self, sys: &mut MemorySystem)
        requires
            old(sys).wf(),
            self.fits(old(sys)),
        ensures
            final(sys).wf(),
            final(sys).active_root() == self.root(),
            final(sys).allocator() == old(sys).allocator(),
            final(sys).tables() == old(sys).tables(),
            final(sys).bytes() == old(sys).bytes(),
            final(sys).hhdm() == old(sys).hhdm(),
            final(sys).kernel_root() == old(sys).kernel_root(),
    {
        sys.set_active(self.pml4_phys);
    }

    /// Tears the space down: frees every table reachable through the lower
    /// half of the root, each after the tables below it, then the root; the
    /// present entries of the tables it walks are cleared.
    ///
    /// The kernel half is shared and never followed. A space whose root is
    /// the active or the kernel's hierarchy is not torn down: nothing
    /// changes and the space is handed back.
    pub fn release(self, sys: &mut MemorySystem) -> (r: Result<(), AddressSpace>)
        requires
            old(sys).wf(),
        ensures
            final(sys).wf(),
            final(sys).same_context(old(sys)),
            final(sys).bytes() == old(sys).bytes(),
            if self.root() == old(sys).active_root() || self.root() == old(sys).kernel_root() {
                r == Err::<(), AddressSpace>(self) && *final(sys) == *old(sys)
            } else {
                &&& r.is_ok()
                &&& final(sys).allocator().bits() == cleared(
                    old(sys).allocator().bits(),
                    old(sys).allocator().usable_set(),
                    owned_frames(old(sys).tables(), self.root()),
                )
                &&& final(sys).tables().len() == old(sys).tables().len()
                &&& forall|k: int| 0 <= k < old(sys).tables().len() ==> #[trigger] final(sys).tables()[k] == torn_down(
                    old(sys).tables()[k],
                    tables_below(old(sys).tables(), self.root(), 4, 256).contains(k / 512) || (k / 512 == frame_of(
                        self.root(),
                    ) && k % 512 < 256),
                )
            },
    {
        if self.pml4_phys == sys.active_root_exec() || self.pml4_phys == sys.kernel_root_exec() {
            return Err(self);
        }
        let ghost before = *sys;
        let mut visited: Vec<u64> = Vec::new();
        sys.free_tables(self.pml4_phys, 4, 256, &mut visited);
        proof {
            assert(frames_in(Seq::<u64>::empty()) =~= Set::<int>::empty());
            assert(frames_in(visited@) =~= tables_below(before.tables(), self.root(), 4, 256));
        }
        sys.clear_visited(&visited, self.pml4_phys);
        let ghost mid = sys.allocator().bits();
        proof {
            sys.lemma_wf();
            use_type_invariant(&self);
        }
        let _ = sys.frame_free(self.pml4_phys);
        proof {
            assert(sys.allocator().bits() =~= cleared(
                before.allocator().bits(),
                before.allocator().usable_set(),
                owned_frames(before.tables(), self.root()),
            ));
        }
        Ok(())
    }
}

/// The kernel-half entries of a space are a snapshot: a later mapping made
/// in the kernel's hierarchy changes only entries on its path and entries
/// in frames that were free, and links only tables that it already reached
/// or that were free. So every root entry of a space whose root frame is
/// allocated and not among the tables the kernel's walk reached stays as it
/// was, new kernel root entries included.
pub proof fn lemma_snapshot_kept(
    before: Seq<u64>,
    after: Seq<u64>,
    bits: Seq<bool>,
    kernel_root: u64,
    v: u64,
    space_root: u64,
)
    requires
        changes_confined(before, after, bits, path_slots(after, kernel_root, v)),
        forall|f: int| #[trigger] path_frames(after, kernel_root, v).contains(f) ==> linked_frames(before, kernel_root, v).contains(f)
            || !bits[f],
        bits[frame_of(space_root)],
        !linked_frames(before, kernel_root, v).contains(frame_of(space_root)),
    ensures
        forall|i: int| 0 <= i < 512 ==> #[trigger] entry_of(after, space_root as int, i) == entry_of(before, space_root as int, i),
{
    assert(!path_frames(after, kernel_root, v).contains(frame_of(space_root)));
    assert forall|i: int| 0 <= i < 512 implies #[trigger] entry_of(after, space_root as int, i) == entry_of(before, space_root as int, i) by {
        let k = (space_root as int / 4096) * 512 + i;
        assert(k / 512 == frame_of(space_root)) by (nonlinear_arith)
            requires
                k == (space_root as int / 4096) * 512 + i,
                0 <= i < 512,
                space_root >= 0,
        ;
        let t3 = entry_addr(entry_of(after, kernel_root as int, pt_index(v, 39)));
        let t2 = entry_addr(entry_of(after, t3 as int, pt_index(v, 30)));
        let t1 = entry_addr(entry_of(after, t2 as int, pt_index(v, 21)));
        crate::paging::lemma_pt_index_bound(v);
        crate::vmm::lemma_slot_frame(kernel_root, pt_index(v, 39));
        crate::vmm::lemma_slot_frame(t3, pt_index(v, 30));
        crate::vmm::lemma_slot_frame(t2, pt_index(v, 21));
        crate::vmm::lemma_slot_frame(t1, pt_index(v, 12));
        assert(!path_slots(after, kernel_root, v).contains(k));
    }
}

/// A range operation leaves every physical byte that none of its offsets
/// reached as it was: pages next to the span keep their contents.
pub proof fn lemma_span_untouched(
    before: MemorySystem,
    after: Seq<u8>,
    root: u64,
    v: int,
    src: Seq<u8>,
    zero: bool,
    k: int,
    q: int,
)
    requires
        span_stored(before, after, root, v, src, zero, k),
        0 <= q < after.len(),
        forall|j: int| 0 <= j < k ==> #[trigger] backed(before, root, v + j) != Some(q),
    ensures
        after[q] == before.bytes()[q],
{
    reveal(span_stored);
}

/// Clearing a set of frames raises the free count by the number of its
/// usable frames that were allocated; when all of them were, by its size.
pub proof fn lemma_cleared_count(before: BitmapAllocator, after: BitmapAllocator, s: Set<int>)
    requires
        before.wf(),
        after.wf(),
        after.bits() == cleared(before.bits(), before.usable_set(), s),
    ensures
        after.free_frames() == before.free_frames() + count_where(
            before.total_frames() as int,
            |i: int| before.bits()[i] && s.contains(i) && before.usable_set()[i],
        ),
        (forall|i: int| #[trigger] s.contains(i) ==> 0 <= i < before.total_frames() && before.bits()[i]
            && before.usable_set()[i]) ==> after.free_frames() == before.free_frames() + count_where(
            before.total_frames() as int,
            |i: int| s.contains(i),
        ),
{
    let n = before.total_frames() as int;
    let b = before.bits();
    let u = before.usable_set();
    before.lemma_wf_bounds();
    after.lemma_wf_bounds();
    pmm::lemma_frame_accounting(before);
    pmm::lemma_frame_accounting(after);
    lemma_count_split(
        n,
        |i: int| !b[i] || (b[i] && s.contains(i) && u[i]),
        |i: int| !b[i],
        |i: int| b[i] && s.contains(i) && u[i],
    );
    lemma_count_ext(n, |i: int| !after.bits()[i], |i: int| !b[i] || (b[i] && s.contains(i) && u[i]));
    if forall|i: int| #[trigger] s.contains(i) ==> 0 <= i < before.total_frames() && before.bits()[i] && before.usable_set()[i] {
        lemma_count_ext(n, |i: int| b[i] && s.contains(i) && u[i], |i: int| s.contains(i));
    }
}

} // verus!
