//! The paging engine: translation and mapping against a translation
//! hierarchy, with translation tables taken from the frame allocator.

use vstd::prelude::*;
use crate::addr::{PhysAddr, VirtAddr, PAGE_SIZE, is_canonical, is_phys};
use crate::error::MemError;
use crate::paging::{ADDR_MASK, FLAG_HUGE, FLAG_PRESENT, PageFlags, entry_addr, flag_bits, huge, is_link, leaf_entry, lemma_add_link_flags, lemma_entry_fields, lemma_flag_bits, p1_table, present, pt_index, translate};
use crate::physmem::{PhysMem, entry_of};
use crate::pmm::{self, BitmapAllocator, free_count, first_clear, lemma_first_clear_spec};
use crate::count::lemma_count_none;

verus! {

/// Whether the direct map of `span` bytes at `hhdm` stays inside one
/// canonical half of the address space.
pub open spec fn window_ok(hhdm: u64, span: int) -> bool {
    ||| hhdm + span <= 0x0000_8000_0000_0000
    ||| (hhdm >= 0xFFFF_8000_0000_0000 && hhdm + span <= 0x1_0000_0000_0000_0000)
}

/// Index of the frame that holds the address `a`.
pub open spec fn frame_of(a: u64) -> int {
    a as int / 4096
}

/// Slot of entry `idx` of the table at `table` in the table view.
pub open spec fn slot(table: int, idx: int) -> int {
    (table / 4096) * 512 + idx
}

/// The memory-management context: frame allocator, physical memory, the
/// direct-map offset and the kernel's and the active hierarchy's roots.
pub struct MemorySystem {
    pmm: BitmapAllocator,
    mem: PhysMem,
    hhdm: u64,
    kernel_root: u64,
    active_root: u64,
}

impl MemorySystem {
    /// The frame allocator of the context.
    pub closed spec fn allocator(&self) -> BitmapAllocator {
        self.pmm
    }

    pub closed spec fn tables(&self) -> Seq<u64> {
        self.mem.tables()
    }

    pub closed spec fn bytes(&self) -> Seq<u8> {
        self.mem.bytes()
    }

    pub closed spec fn hhdm(&self) -> u64 {
        self.hhdm
    }

    pub closed spec fn kernel_root(&self) -> u64 {
        self.kernel_root
    }

    pub closed spec fn active_root(&self) -> u64 {
        self.active_root
    }

    /// Bytes of physical memory that the frame allocator tracks.
    pub open spec fn span(&self) -> int {
        (self.allocator().total_frames() * 4096) as int
    }

    pub closed spec fn wf(&self) -> bool {
        &&& self.pmm.wf()
        &&& self.pmm.balanced()
        &&& self.mem.wf()
        &&& self.mem.frames() == self.pmm.total_frames()
        &&& window_ok(self.hhdm, self.span())
        &&& self.kernel_root / 4096 < self.pmm.total_frames()
        &&& self.pmm.bits()[frame_of(self.kernel_root)]
        &&& !self.pmm.usable_set()[frame_of(self.kernel_root)]
        &&& self.active_root / 4096 < self.pmm.total_frames()
    }

    /// Facts that every well-formed context gives its callers.
    pub proof fn lemma_wf(&self)
        requires
            self.wf(),
        ensures
            self.allocator().wf(),
            self.allocator().balanced(),
            self.tables().len() == self.allocator().total_frames() * 512,
            self.bytes().len() == self.span(),
            self.allocator().bits().len() == self.allocator().total_frames(),
            self.span() <= 0x10_0000_0000_0000,
            window_ok(self.hhdm(), self.span()),
            self.kernel_root() / 4096 < self.allocator().total_frames(),
            self.active_root() / 4096 < self.allocator().total_frames(),
            self.allocator().total_frames() <= usize::MAX,
            self.allocator().bits()[frame_of(self.kernel_root())],
            !self.allocator().usable_set()[frame_of(self.kernel_root())],
    {
        self.pmm.lemma_wf_bounds();
        self.mem.lemma_lens();
    }

    /// The state apart from the physical memory and the frame bits.
    pub open spec fn same_context(&self, other: &MemorySystem) -> bool {
        &&& self.allocator().total_frames() == other.allocator().total_frames()
        &&& self.allocator().usable_frames() == other.allocator().usable_frames()
        &&& self.allocator().usable_set() == other.allocator().usable_set()
        &&& self.allocator().bitmap_base() == other.allocator().bitmap_base()
        &&& self.hhdm() == other.hhdm()
        &&& self.kernel_root() == other.kernel_root()
        &&& self.active_root() == other.active_root()
    }
}

/// With no clear bit, no frame is free.
proof fn lemma_exhausted(a: BitmapAllocator)
    requires
        a.wf(),
        first_clear(a.bits()).is_none(),
    ensures
        a.free_frames() == 0,
{
    lemma_first_clear_spec(a.bits());
    pmm::lemma_frame_accounting(a);
    lemma_count_none(a.bits().len() as int, |i: int| !a.bits()[i]);
}

/// A table entry that links to a table of the next level which the frame
/// allocator holds, lies in tracked memory, and differs from the tables
/// above it on the path.
pub open spec fn sound_link(t: Seq<u64>, bits: Seq<bool>, table: u64, idx: int, a: u64, b: u64) -> bool {
    let e = entry_of(t, table as int, idx);
    let c = entry_addr(e);
    &&& c / 4096 < bits.len()
    &&& bits[frame_of(c)]
    &&& c / 4096 != table / 4096
    &&& c / 4096 != a / 4096
    &&& c / 4096 != b / 4096
}

impl MemorySystem {
    /// Follows entry `idx` of `table` to the table of the next level, or
    /// links a fresh zero-filled table there when the entry is not present.
    fn descend(&mut self, table: u64, idx: usize, lf: u64, a: u64, b: u64) -> (r: Result<u64, MemError>)
        requires
            old(self).wf(),
            idx < 512,
            table / 4096 < old(self).allocator().total_frames(),
            old(self).allocator().bits()[frame_of(table)],
            old(self).allocator().bits()[frame_of(a)],
            old(self).allocator().bits()[frame_of(b)],
            lf & !7u64 == 0,
            lf & 1u64 == 1u64,
        ensures
            final(self).wf(),
            final(self).same_context(old(self)),
            final(self).bytes() == old(self).bytes(),
            forall|i: int| 0 <= i < old(self).allocator().total_frames() && #[trigger] old(self).allocator().bits()[i] ==> final(self).allocator().bits()[i],
            ({
                let e = entry_of(old(self).tables(), table as int, idx as int);
                match r {
                    Ok(c) => {
                        &&& c % 4096 == 0
                        &&& c / 4096 < final(self).allocator().total_frames()
                        &&& final(self).allocator().bits()[frame_of(c)]
                        &&& c / 4096 != table / 4096 && c / 4096 != a / 4096 && c / 4096 != b / 4096
                        &&& is_link(entry_of(final(self).tables(), table as int, idx as int))
                        &&& entry_addr(entry_of(final(self).tables(), table as int, idx as int)) == c
                        &&& final(self).tables().len() == old(self).tables().len()
                        &&& final(self).allocator().free_frames() + 1 >= old(self).allocator().free_frames()
                        &&& is_link(e) ==> c == entry_addr(e) && sound_link(old(self).tables(), old(self).allocator().bits(), table, idx as int, a, b)
                            && final(self).tables() == old(self).tables().update(slot(table as int, idx as int), e | lf)
                            && final(self).allocator() == old(self).allocator()
                        &&& !is_link(e) ==> old(self).allocator().free_frames() >= 1
                        &&& !is_link(e) ==> final(self).allocator().bits() == old(self).allocator().bits().update(frame_of(c), true)
                        &&& !is_link(e) ==> !present(e) && !old(self).allocator().bits()[frame_of(c)]
                            && (forall|k: int| 0 <= k < final(self).tables().len() && k / 512 != table / 4096 && k / 512 != c / 4096
                                ==> #[trigger] final(self).tables()[k] == old(self).tables()[k])
                            && (forall|k: int| 0 <= k < final(self).tables().len() && k / 512 == c / 4096
                                ==> #[trigger] final(self).tables()[k] == 0)
                            && (forall|k: int| 0 <= k < final(self).tables().len() && k / 512 == table / 4096
                                && k != slot(table as int, idx as int) ==> #[trigger] final(self).tables()[k]
                                == old(self).tables()[k])
                    },
                    Err(err) => {
                        &&& err == MemError::MapFailure
                        &&& final(self).tables() == old(self).tables()
                        &&& final(self).allocator().bits() == old(self).allocator().bits()
                        &&& final(self).allocator().free_frames() == old(self).allocator().free_frames()
                        &&& {
                            ||| present(e) && huge(e)
                            ||| !present(e) && old(self).allocator().free_frames() == 0
                            ||| is_link(e) && !sound_link(old(self).tables(), old(self).allocator().bits(), table, idx as int, a, b)
                        }
                    },
                }
            }),
    {
        proof {
            self.lemma_wf();
        }
        let e = self.mem.read_entry(table, idx);
        if e & FLAG_PRESENT == FLAG_PRESENT {
            if e & FLAG_HUGE == FLAG_HUGE {
                return Err(MemError::MapFailure);
            }
            let c = e & ADDR_MASK;
            let cf = c / 4096;
            if cf >= self.pmm.total_pages() as u64 || !self.pmm.is_allocated(cf as usize) || cf == table / 4096
                || cf == a / 4096 || cf == b / 4096 {
                return Err(MemError::MapFailure);
            }
            let ne = e | lf;
            proof {
                lemma_add_link_flags(e, lf);
                assert(c % 4096 == 0) by (bit_vector)
                    requires
                        c == e & 0x000f_ffff_ffff_f000u64,
                ;
            }
            self.mem.write_entry(table, idx, ne);
            Ok(c)
        } else {
            let ghost before = self.pmm;
            let got = pmm::alloc_frame(&mut self.pmm);
            match got {
                None => {
                    proof {
                        lemma_exhausted(before);
                    }
                    Err(MemError::MapFailure)
                },
                Some(c) => {
                    proof {
                        lemma_first_clear_spec(before.bits());
                        let i = first_clear(before.bits()).unwrap();
                        assert(c == i * 4096);
                        assert(c / 4096 == i);
                        assert(c % 4096 == 0);
                        before.lemma_wf_bounds();
                        pmm::lemma_clear_is_free(before, i);
                    }
                    self.mem.zero_table(c);
                    let ne = c | lf;
                    proof {
                        assert(c & !0x000f_ffff_ffff_f000u64 == 0 && lf & 0x000f_ffff_ffff_f000u64 == 0) by (bit_vector)
                            requires
                                c % 4096 == 0,
                                c < 0x10_0000_0000_0000,
                                lf & !7u64 == 0,
                        ;
                        lemma_entry_fields(c, lf);
                        assert(present(lf) && !huge(lf)) by (bit_vector)
                            requires
                                lf & !7u64 == 0,
                                lf & 1u64 == 1u64,
                        ;
                    }
                    self.mem.write_entry(table, idx, ne);
                    Ok(c)
                },
            }
        }
    }
}

pub proof fn lemma_slot_frame(table: u64, idx: int)
    requires
        0 <= idx < 512,
    ensures
        slot(table as int, idx) / 512 == table / 4096,
        slot(table as int, idx) % 512 == idx,
{
    let f = table as int / 4096;
    assert((f * 512 + idx) / 512 == f && (f * 512 + idx) % 512 == idx) by (nonlinear_arith)
        requires
            0 <= idx < 512,
            f >= 0,
    ;
}

proof fn lemma_index_bounds(va: u64)
    ensures
        (va >> 39u64) & 0x1ffu64 < 512,
        (va >> 30u64) & 0x1ffu64 < 512,
        (va >> 21u64) & 0x1ffu64 < 512,
        (va >> 12u64) & 0x1ffu64 < 512,
{
    assert((va >> 39u64) & 0x1ffu64 < 512) by (bit_vector);
    assert((va >> 30u64) & 0x1ffu64 < 512) by (bit_vector);
    assert((va >> 21u64) & 0x1ffu64 < 512) by (bit_vector);
    assert((va >> 12u64) & 0x1ffu64 < 512) by (bit_vector);
}

/// Frames of the four tables on the path to `v`: the root and the tables
/// that its entries lead to.
pub open spec fn path_frames(t: Seq<u64>, root: u64, v: u64) -> Set<int> {
    let t3 = entry_addr(entry_of(t, root as int, pt_index(v, 39)));
    let t2 = entry_addr(entry_of(t, t3 as int, pt_index(v, 30)));
    let t1 = entry_addr(entry_of(t, t2 as int, pt_index(v, 21)));
    set![frame_of(root), frame_of(t3), frame_of(t2), frame_of(t1)]
}

/// `u` and `v` lie in the range of one last-level table.
pub open spec fn same_table(u: u64, v: u64) -> bool {
    pt_index(u, 39) == pt_index(v, 39) && pt_index(u, 30) == pt_index(v, 30) && pt_index(u, 21) == pt_index(v, 21)
}

/// Frames that the walk to `v` reaches through links: the root and each
/// table that a present, non-huge entry above the last level points at.
pub open spec fn linked_frames(t: Seq<u64>, root: u64, v: u64) -> Set<int> {
    let e4 = entry_of(t, root as int, pt_index(v, 39));
    let e3 = entry_of(t, entry_addr(e4) as int, pt_index(v, 30));
    let e2 = entry_of(t, entry_addr(e3) as int, pt_index(v, 21));
    if !is_link(e4) {
        set![frame_of(root)]
    } else if !is_link(e3) {
        set![frame_of(root), frame_of(entry_addr(e4))]
    } else if !is_link(e2) {
        set![frame_of(root), frame_of(entry_addr(e4)), frame_of(entry_addr(e3))]
    } else {
        set![frame_of(root), frame_of(entry_addr(e4)), frame_of(entry_addr(e3)), frame_of(entry_addr(e2))]
    }
}

/// Slots of the four entries on the path to `v`.
pub open spec fn path_slots(t: Seq<u64>, root: u64, v: u64) -> Set<int> {
    let t3 = entry_addr(entry_of(t, root as int, pt_index(v, 39)));
    let t2 = entry_addr(entry_of(t, t3 as int, pt_index(v, 30)));
    let t1 = entry_addr(entry_of(t, t2 as int, pt_index(v, 21)));
    set![
        slot(root as int, pt_index(v, 39)),
        slot(t3 as int, pt_index(v, 30)),
        slot(t2 as int, pt_index(v, 21)),
        slot(t1 as int, pt_index(v, 12)),
    ]
}

/// The four tables on the path to `v` are distinct frames that `bits` holds
/// as allocated.
pub open spec fn path_owned(t: Seq<u64>, bits: Seq<bool>, root: u64, v: u64) -> bool {
    let t3 = entry_addr(entry_of(t, root as int, pt_index(v, 39)));
    let t2 = entry_addr(entry_of(t, t3 as int, pt_index(v, 30)));
    let t1 = entry_addr(entry_of(t, t2 as int, pt_index(v, 21)));
    &&& frame_of(root) != frame_of(t3) && frame_of(root) != frame_of(t2) && frame_of(root) != frame_of(t1)
    &&& frame_of(t3) != frame_of(t2) && frame_of(t3) != frame_of(t1) && frame_of(t2) != frame_of(t1)
    &&& 0 <= frame_of(root) < bits.len() && bits[frame_of(root)]
    &&& 0 <= frame_of(t3) < bits.len() && bits[frame_of(t3)]
    &&& 0 <= frame_of(t2) < bits.len() && bits[frame_of(t2)]
    &&& 0 <= frame_of(t1) < bits.len() && bits[frame_of(t1)]
}

/// Every table entry that differs between `before` and `after` is one of
/// `slots` or lies in a frame that `bits` held free.
pub open spec fn changes_confined(before: Seq<u64>, after: Seq<u64>, bits: Seq<bool>, slots: Set<int>) -> bool {
    &&& after.len() == before.len()
    &&& forall|k: int| 0 <= k < after.len() && #[trigger] after[k] != before[k] ==> slots.contains(k) || !bits[k / 512]
}

/// Every present entry on the path to `v` above the last level links to a
/// table that the frame allocator holds, distinct from the tables above it.
pub open spec fn path_sound(t: Seq<u64>, bits: Seq<bool>, root: u64, v: u64) -> bool {
    let e4 = entry_of(t, root as int, pt_index(v, 39));
    present(e4) ==> {
        &&& !huge(e4)
        &&& sound_link(t, bits, root, pt_index(v, 39), root, root)
        &&& {
            let t3 = entry_addr(e4);
            let e3 = entry_of(t, t3 as int, pt_index(v, 30));
            present(e3) ==> {
                &&& !huge(e3)
                &&& sound_link(t, bits, t3, pt_index(v, 30), root, root)
                &&& {
                    let t2 = entry_addr(e3);
                    let e2 = entry_of(t, t2 as int, pt_index(v, 21));
                    present(e2) ==> !huge(e2) && sound_link(t, bits, t2, pt_index(v, 21), root, t3)
                }
            }
        }
    }
}

/// Tables whose entries differ at most in flags other than present and
/// huge translate alike.
pub proof fn lemma_translate_equiv(t0: Seq<u64>, t1: Seq<u64>, root: u64, v: u64)
    requires
        t0.len() == t1.len(),
        forall|k: int| 0 <= k < t0.len() ==> (#[trigger] t1[k] == t0[k] || (entry_addr(t1[k]) == entry_addr(t0[k])
            && present(t1[k]) == present(t0[k]) && huge(t1[k]) == huge(t0[k]))),
    ensures
        translate(t1, root, v) == translate(t0, root, v),
{
    let e4 = entry_of(t0, root as int, pt_index(v, 39));
    let e3 = entry_of(t0, entry_addr(e4) as int, pt_index(v, 30));
    let e2 = entry_of(t0, entry_addr(e3) as int, pt_index(v, 21));
    let f4 = entry_of(t1, root as int, pt_index(v, 39));
    let f3 = entry_of(t1, entry_addr(f4) as int, pt_index(v, 30));
    let f2 = entry_of(t1, entry_addr(f3) as int, pt_index(v, 21));
    assert(entry_addr(f4) == entry_addr(e4) && present(f4) == present(e4) && huge(f4) == huge(e4));
    assert(entry_addr(f3) == entry_addr(e3) && present(f3) == present(e3) && huge(f3) == huge(e3));
    assert(entry_addr(f2) == entry_addr(e2) && present(f2) == present(e2) && huge(f2) == huge(e2));
    let e1 = entry_of(t0, entry_addr(e2) as int, pt_index(v, 12));
    let f1 = entry_of(t1, entry_addr(f2) as int, pt_index(v, 12));
    assert(entry_addr(f1) == entry_addr(e1) && present(f1) == present(e1));
}

/// Holding more frames keeps a sound path sound.
pub proof fn lemma_path_sound_mono(t: Seq<u64>, b0: Seq<bool>, b1: Seq<bool>, root: u64, v: u64)
    requires
        b0.len() == b1.len(),
        forall|i: int| 0 <= i < b0.len() && #[trigger] b0[i] ==> b1[i],
    ensures
        path_sound(t, b0, root, v) ==> path_sound(t, b1, root, v),
{
}

impl MemorySystem {
    /// Installs or updates the last-level entry for the page of `v` in the
    /// hierarchy at `root`, creating the missing tables on the way.
    #[verifier::rlimit(100)]
    pub(crate) fn map_in(&mut self, root: u64, v: VirtAddr, p: PhysAddr, flags: PageFlags) -> (r: Result<(), MemError>)
        requires
            old(self).wf(),
            root / 4096 < old(self).allocator().total_frames(),
        ensures
            final(self).wf(),
            final(self).same_context(old(self)),
            final(self).bytes() == old(self).bytes(),
            forall|i: int| 0 <= i < old(self).allocator().total_frames() && #[trigger] old(self).allocator().bits()[i]
                ==> final(self).allocator().bits()[i],
            r.is_ok() ==> leaf_entry(final(self).tables(), root, v@) == Some((p@ & ADDR_MASK) | flag_bits(flags)),
            r.is_ok() ==> changes_confined(old(self).tables(), final(self).tables(), old(self).allocator().bits(),
                path_slots(final(self).tables(), root, v@)),
            r.is_ok() ==> path_owned(final(self).tables(), final(self).allocator().bits(), root, v@),
            r.is_ok() ==> (p1_table(old(self).tables(), root, v@) matches Some(x) ==> p1_table(final(self).tables(), root, v@)
                == Some(x)),
            r.is_ok() ==> forall|f: int| #[trigger] path_frames(final(self).tables(), root, v@).contains(f)
                ==> linked_frames(old(self).tables(), root, v@).contains(f) || !old(self).allocator().bits()[f],
            r.is_err() ==> r == Err::<(), MemError>(MemError::MapFailure) && {
                ||| flags.huge
                ||| !old(self).allocator().bits()[frame_of(root)]
                ||| (final(self).allocator().free_frames() == 0 && p1_table(old(self).tables(), root, v@).is_none())
                ||| !path_sound(old(self).tables(), old(self).allocator().bits(), root, v@)
            },
            !flags.huge && old(self).allocator().bits()[frame_of(root)] && (old(self).allocator().free_frames() >= 3
                || p1_table(old(self).tables(), root, v@).is_some()) && path_sound(
                old(self).tables(),
                old(self).allocator().bits(),
                root,
                v@,
            ) ==> r.is_ok(),
            r.is_err() ==> translate(final(self).tables(), root, v@) == translate(old(self).tables(), root, v@),
            forall|u: u64| same_table(u, v@) && (r.is_err() || pt_index(u, 12) != pt_index(v@, 12)) ==> #[trigger] translate(
                final(self).tables(),
                root,
                u,
            ) == translate(old(self).tables(), root, u),
            r.is_ok() ==> forall|i: int| 0 <= i < final(self).allocator().total_frames() && #[trigger] final(self).allocator().bits()[i]
                && !old(self).allocator().bits()[i] ==> path_frames(final(self).tables(), root, v@).contains(i),
            r.is_ok() ==> forall|k: int| 0 <= k < final(self).tables().len() && path_frames(final(self).tables(), root, v@).contains(k / 512)
                && !linked_frames(old(self).tables(), root, v@).contains(k / 512) && !path_slots(final(self).tables(), root, v@).contains(k)
                ==> #[trigger] final(self).tables()[k] == 0,
            old(self).allocator().free_frames() == 0 && p1_table(old(self).tables(), root, v@).is_none() ==> r.is_err(),
            r.is_ok() ==> final(self).allocator().free_frames() + 3 >= old(self).allocator().free_frames(),
            r.is_ok() && p1_table(old(self).tables(), root, v@).is_some() ==> final(self).allocator().free_frames()
                == old(self).allocator().free_frames(),
    {
        proof {
            self.lemma_wf();
        }
        if flags.huge {
            return Err(MemError::MapFailure);
        }
        let rf = (root / 4096) as usize;
        assert(rf as int == frame_of(root));
        if !self.pmm.is_allocated(rf) {
            return Err(MemError::MapFailure);
        }
        let va = v.as_u64();
        let fb = flags.bits();
        let lf = (fb & 6) | 1;
        proof {
            assert(lf & !7u64 == 0 && lf & 1u64 == 1u64) by (bit_vector)
                requires
                    lf == (fb & 6) | 1,
            ;
        }
        proof {
            lemma_index_bounds(va);
        }
        let i4 = ((va >> 39) & 0x1ff) as usize;
        let i3 = ((va >> 30) & 0x1ff) as usize;
        let i2 = ((va >> 21) & 0x1ff) as usize;
        let i1 = ((va >> 12) & 0x1ff) as usize;
        assert(i4 as int == pt_index(v@, 39) && i3 as int == pt_index(v@, 30) && i2 as int == pt_index(v@, 21)
            && i1 as int == pt_index(v@, 12));
        let ghost s0 = *self;
        let t3 = match self.descend(root, i4, lf, root, root) {
            Ok(c) => c,
            Err(e) => {
                proof {
                    let e4 = entry_of(s0.tables(), root as int, i4 as int);
                    if present(e4) && huge(e4) {
                        assert(!path_sound(s0.tables(), s0.allocator().bits(), root, v@));
                    } else if !present(e4) {
                        assert(s0.allocator().free_frames() == 0);
                        assert(self.allocator().free_frames() == 0);
                    } else {
                        assert(!path_sound(s0.tables(), s0.allocator().bits(), root, v@));
                    }
                }
                return Err(e);
            },
        };
        let ghost s1 = *self;
        let t2 = match self.descend(t3, i3, lf, root, root) {
            Ok(c) => c,
            Err(e) => {
                proof {
                    lemma_slot_frame(t3, i3 as int);
                    lemma_slot_frame(root, i4 as int);
                    let e4 = entry_of(s0.tables(), root as int, i4 as int);
                    assert(!present(0u64)) by (bit_vector);
                    if is_link(e4) {
                        assert(entry_of(s1.tables(), t3 as int, i3 as int) == entry_of(s0.tables(), t3 as int, i3 as int));
                        lemma_add_link_flags(e4, lf);
                        assert forall|u: u64| same_table(u, v@) implies #[trigger] translate(self.tables(), root, u) == translate(
                            s0.tables(),
                            root,
                            u,
                        ) by {
                            lemma_translate_equiv(s0.tables(), s1.tables(), root, u);
                        }
                    } else {
                        assert(entry_of(s1.tables(), t3 as int, i3 as int) == 0);
                    }
                }
                return Err(e);
            },
        };
        let ghost s2 = *self;
        let t1 = match self.descend(t2, i2, lf, root, t3) {
            Ok(c) => c,
            Err(e) => {
                proof {
                    lemma_slot_frame(t3, i3 as int);
                    lemma_slot_frame(root, i4 as int);
                    lemma_slot_frame(t2, i2 as int);
                    assert(!present(0u64)) by (bit_vector);
                    let e4 = entry_of(s0.tables(), root as int, i4 as int);
                    if is_link(e4) {
                        let e3 = entry_of(s0.tables(), t3 as int, i3 as int);
                        assert(entry_of(s1.tables(), t3 as int, i3 as int) == e3);
                        if is_link(e3) {
                            assert(entry_of(s2.tables(), t2 as int, i2 as int) == entry_of(s0.tables(), t2 as int, i2 as int));
                            lemma_add_link_flags(e4, lf);
                            lemma_add_link_flags(e3, lf);
                            assert forall|u: u64| same_table(u, v@) implies #[trigger] translate(self.tables(), root, u)
                                == translate(s0.tables(), root, u) by {
                                lemma_translate_equiv(s0.tables(), s2.tables(), root, u);
                            }
                        } else {
                            assert(entry_of(s2.tables(), t2 as int, i2 as int) == 0);
                        }
                    } else {
                        assert(entry_of(s1.tables(), t3 as int, i3 as int) == 0);
                        assert(entry_of(s2.tables(), t2 as int, i2 as int) == 0);
                    }
                }
                return Err(e);
            },
        };
        let ghost s3 = *self;
        let pa = p.as_u64();
        let leaf = (pa & ADDR_MASK) | fb;
        self.mem.write_entry(t1, i1, leaf);
        proof {
            lemma_slot_frame(t3, i3 as int);
            lemma_slot_frame(root, i4 as int);
            lemma_slot_frame(t2, i2 as int);
            lemma_slot_frame(t1, i1 as int);
            let t = self.tables();
            assert(entry_of(t, root as int, i4 as int) == entry_of(s1.tables(), root as int, i4 as int));
            assert(entry_of(t, t3 as int, i3 as int) == entry_of(s2.tables(), t3 as int, i3 as int));
            assert(entry_of(t, t2 as int, i2 as int) == entry_of(s3.tables(), t2 as int, i2 as int));
            assert(entry_of(t, t1 as int, i1 as int) == leaf);
            let ps = path_slots(t, root, v@);
            assert(ps.contains(slot(root as int, i4 as int)) && ps.contains(slot(t3 as int, i3 as int))
                && ps.contains(slot(t2 as int, i2 as int)) && ps.contains(slot(t1 as int, i1 as int)));
            let b0 = s0.allocator().bits();
            assert forall|k: int| 0 <= k < t.len() && #[trigger] t[k] != s0.tables()[k] implies ps.contains(k) || !b0[k / 512] by {
                if t[k] != s3.tables()[k] {
                    assert(k == slot(t1 as int, i1 as int));
                } else if s3.tables()[k] != s2.tables()[k] {
                    if k / 512 == frame_of(t1) && k / 512 != frame_of(t2) {
                        assert(!s2.allocator().bits()[frame_of(t1)]);
                    } else {
                        assert(k == slot(t2 as int, i2 as int));
                    }
                } else if s2.tables()[k] != s1.tables()[k] {
                    if k / 512 == frame_of(t2) && k / 512 != frame_of(t3) {
                        assert(!s1.allocator().bits()[frame_of(t2)]);
                    } else {
                        assert(k == slot(t3 as int, i3 as int));
                    }
                } else {
                    if k / 512 == frame_of(t3) && k / 512 != frame_of(root) {
                        assert(!s0.allocator().bits()[frame_of(t3)]);
                    } else {
                        assert(k == slot(root as int, i4 as int));
                    }
                }
            }
            self.lemma_wf();
            let bf = self.allocator().bits();
            assert(bf.len() == self.allocator().total_frames());
            assert(entry_addr(entry_of(t, root as int, pt_index(v@, 39))) == t3);
            assert(entry_addr(entry_of(t, t3 as int, pt_index(v@, 30))) == t2);
            assert(entry_addr(entry_of(t, t2 as int, pt_index(v@, 21))) == t1);
            assert(0 <= frame_of(root) < bf.len() && 0 <= frame_of(t3) < bf.len() && 0 <= frame_of(t2) < bf.len()
                && 0 <= frame_of(t1) < bf.len());
            assert(s0.allocator().bits()[frame_of(root)]);
            assert(s1.allocator().bits()[frame_of(root)] && s1.allocator().bits()[frame_of(t3)]);
            assert(s2.allocator().bits()[frame_of(root)] && s2.allocator().bits()[frame_of(t3)] && s2.allocator().bits()[frame_of(t2)]);
            assert(bf[frame_of(root)] && bf[frame_of(t3)] && bf[frame_of(t2)] && bf[frame_of(t1)]);
            assert(path_owned(t, self.allocator().bits(), root, v@));
            if p1_table(s0.tables(), root, v@).is_some() {
                let e4 = entry_of(s0.tables(), root as int, i4 as int);
                let e3 = entry_of(s0.tables(), t3 as int, i3 as int);
                assert(is_link(e4));
                assert(entry_of(s1.tables(), t3 as int, i3 as int) == e3);
                assert(is_link(e3));
                assert(entry_of(s2.tables(), t2 as int, i2 as int) == entry_of(s0.tables(), t2 as int, i2 as int));
            }
            let lf0 = linked_frames(s0.tables(), root, v@);
            let e4 = entry_of(s0.tables(), root as int, i4 as int);
            assert(!present(0u64)) by (bit_vector);
            if is_link(e4) {
                let e3 = entry_of(s0.tables(), t3 as int, i3 as int);
                assert(entry_of(s1.tables(), t3 as int, i3 as int) == e3);
                if is_link(e3) {
                    assert(entry_of(s2.tables(), t2 as int, i2 as int) == entry_of(s0.tables(), t2 as int, i2 as int));
                } else {
                    assert(!s1.allocator().bits()[frame_of(t2)]);
                    assert(entry_of(s2.tables(), t2 as int, i2 as int) == 0);
                    assert(!s2.allocator().bits()[frame_of(t1)]);
                }
            } else {
                assert(!s0.allocator().bits()[frame_of(t3)]);
                assert(entry_of(s1.tables(), t3 as int, i3 as int) == 0);
                assert(!s1.allocator().bits()[frame_of(t2)]);
                assert(entry_of(s2.tables(), t2 as int, i2 as int) == 0);
                assert(!s2.allocator().bits()[frame_of(t1)]);
            }
            assert(path_frames(t, root, v@) =~= set![frame_of(root), frame_of(t3), frame_of(t2), frame_of(t1)]);
            assert forall|u: u64| same_table(u, v@) && pt_index(u, 12) != pt_index(v@, 12) implies #[trigger] translate(t, root, u)
                == translate(s0.tables(), root, u) by {
                let iu = pt_index(u, 12);
                crate::paging::lemma_pt_index_bound(u);
                lemma_slot_frame(t1, iu);
                if is_link(e4) {
                    lemma_add_link_flags(e4, lf);
                    let e3 = entry_of(s0.tables(), t3 as int, i3 as int);
                    if is_link(e3) {
                        lemma_add_link_flags(e3, lf);
                        let e2 = entry_of(s0.tables(), t2 as int, i2 as int);
                        if is_link(e2) {
                            lemma_add_link_flags(e2, lf);
                            assert(entry_of(t, t1 as int, iu) == entry_of(s0.tables(), t1 as int, iu));
                        } else {
                            assert(entry_of(t, t1 as int, iu) == 0);
                        }
                    } else {
                        assert(entry_of(t, t1 as int, iu) == 0);
                    }
                } else {
                    assert(entry_of(t, t1 as int, iu) == 0);
                }
            }
            assert forall|i: int| 0 <= i < self.allocator().total_frames() && #[trigger] self.allocator().bits()[i]
                && !s0.allocator().bits()[i] implies path_frames(t, root, v@).contains(i) by {
                assert(s3.allocator().bits() == self.allocator().bits());
            }
            assert forall|k: int| 0 <= k < t.len() && path_frames(t, root, v@).contains(k / 512)
                && !linked_frames(s0.tables(), root, v@).contains(k / 512) && !path_slots(t, root, v@).contains(k)
                implies #[trigger] t[k] == 0 by {
                if k / 512 == frame_of(t1) {
                    assert(k != slot(t1 as int, i1 as int));
                } else if k / 512 == frame_of(t2) {
                    assert(k != slot(t2 as int, i2 as int));
                } else if k / 512 == frame_of(t3) {
                    assert(k != slot(t3 as int, i3 as int));
                }
            }
        }
        Ok(())
    }

    /// Walks the hierarchy at `root` for `v`.
    pub(crate) fn translate_in(&self, root: u64, v: u64) -> (r: Option<u64>)
        requires
            self.wf(),
        ensures
            r == translate(self.tables(), root, v),
    {
        proof {
            lemma_index_bounds(v);
        }
        let e4 = self.mem.read_entry(root, ((v >> 39) & 0x1ff) as usize);
        if e4 & FLAG_PRESENT != FLAG_PRESENT || e4 & FLAG_HUGE == FLAG_HUGE {
            return None;
        }
        let e3 = self.mem.read_entry(e4 & ADDR_MASK, ((v >> 30) & 0x1ff) as usize);
        if e3 & FLAG_PRESENT != FLAG_PRESENT {
            return None;
        }
        if e3 & FLAG_HUGE == FLAG_HUGE {
            return Some(((e3 & ADDR_MASK) & !0x3fff_ffffu64) | (v & 0x3fff_ffffu64));
        }
        let e2 = self.mem.read_entry(e3 & ADDR_MASK, ((v >> 21) & 0x1ff) as usize);
        if e2 & FLAG_PRESENT != FLAG_PRESENT {
            return None;
        }
        if e2 & FLAG_HUGE == FLAG_HUGE {
            return Some(((e2 & ADDR_MASK) & !0x1f_ffffu64) | (v & 0x1f_ffffu64));
        }
        let e1 = self.mem.read_entry(e2 & ADDR_MASK, ((v >> 12) & 0x1ff) as usize);
        if e1 & FLAG_PRESENT != FLAG_PRESENT {
            return None;
        }
        Some((e1 & ADDR_MASK) | (v & 0xfffu64))
    }

    /// Removes the last-level entry for `v` from the hierarchy at `root` and
    /// returns the frame it mapped.
    pub(crate) fn unmap_in(&mut self, root: u64, v: VirtAddr) -> (r: Result<u64, MemError>)
        requires
            old(self).wf(),
        ensures
            final(self).wf(),
            final(self).same_context(old(self)),
            final(self).bytes() == old(self).bytes(),
            final(self).allocator() == old(self).allocator(),
            match leaf_entry(old(self).tables(), root, v@) {
                Some(e) if present(e) && !huge(e) => {
                    &&& r == Ok::<u64, MemError>(entry_addr(e))
                    &&& final(self).tables() == old(self).tables().update(
                        slot(p1_table(old(self).tables(), root, v@).unwrap() as int, pt_index(v@, 12)),
                        0,
                    )
                    &&& translate(final(self).tables(), root, v@) == None::<u64>
                },
                _ => r == Err::<u64, MemError>(MemError::UnmapFailure) && final(self).tables() == old(self).tables(),
            },
    {
        let va = v.as_u64();
        proof {
            lemma_index_bounds(va);
            self.lemma_wf();
        }
        let i4 = ((va >> 39) & 0x1ff) as usize;
        let i3 = ((va >> 30) & 0x1ff) as usize;
        let i2 = ((va >> 21) & 0x1ff) as usize;
        let i1 = ((va >> 12) & 0x1ff) as usize;
        let e4 = self.mem.read_entry(root, i4);
        if e4 & FLAG_PRESENT != FLAG_PRESENT || e4 & FLAG_HUGE == FLAG_HUGE {
            return Err(MemError::UnmapFailure);
        }
        let t3 = e4 & ADDR_MASK;
        let e3 = self.mem.read_entry(t3, i3);
        if e3 & FLAG_PRESENT != FLAG_PRESENT || e3 & FLAG_HUGE == FLAG_HUGE {
            return Err(MemError::UnmapFailure);
        }
        let t2 = e3 & ADDR_MASK;
        let e2 = self.mem.read_entry(t2, i2);
        if e2 & FLAG_PRESENT != FLAG_PRESENT || e2 & FLAG_HUGE == FLAG_HUGE {
            return Err(MemError::UnmapFailure);
        }
        let t1 = e2 & ADDR_MASK;
        let e1 = self.mem.read_entry(t1, i1);
        if e1 & FLAG_PRESENT != FLAG_PRESENT || e1 & FLAG_HUGE == FLAG_HUGE {
            return Err(MemError::UnmapFailure);
        }
        proof {
            assert(e1 != 0) by (bit_vector)
                requires
                    e1 & 1u64 == 1u64,
            ;
            assert(t1 / 4096 < self.allocator().total_frames()) by {
                lemma_slot_frame(t1, i1 as int);
            }
        }
        let ghost before = self.tables();
        self.mem.write_entry(t1, i1, 0);
        proof {
            lemma_slot_frame(t1, i1 as int);
            lemma_slot_frame(t2, i2 as int);
            lemma_slot_frame(t3, i3 as int);
            lemma_slot_frame(root, i4 as int);
            assert(!present(0u64)) by (bit_vector);
            let t = self.tables();
            let s1 = slot(t1 as int, i1 as int);
            assert(entry_of(t, t1 as int, i1 as int) == 0);
            if slot(root as int, i4 as int) != s1 {
                assert(entry_of(t, root as int, i4 as int) == e4);
                if slot(t3 as int, i3 as int) != s1 {
                    assert(entry_of(t, t3 as int, i3 as int) == e3);
                    if slot(t2 as int, i2 as int) != s1 {
                        assert(entry_of(t, t2 as int, i2 as int) == e2);
                    } else {
                        assert(entry_of(t, t2 as int, i2 as int) == 0);
                    }
                } else {
                    assert(entry_of(t, t3 as int, i3 as int) == 0);
                }
            } else {
                assert(entry_of(t, root as int, i4 as int) == 0);
            }
        }
        Ok(e1 & ADDR_MASK)
    }

    /// Zero-fills `n` bytes of physical memory from `pa`.
    pub(crate) fn zero_phys(&mut self, pa: u64, n: u64)
        requires
            old(self).wf(),
            pa + n <= old(self).span(),
        ensures
            final(self).wf(),
            final(self).same_context(old(self)),
            final(self).allocator() == old(self).allocator(),
            final(self).tables() == old(self).tables(),
            final(self).bytes().len() == old(self).bytes().len(),
            forall|q: int| 0 <= q < old(self).bytes().len() ==> #[trigger] final(self).bytes()[q] == if pa <= q < pa + n {
                0u8
            } else {
                old(self).bytes()[q]
            },
    {
        proof {
            self.lemma_wf();
        }
        let mut i: u64 = 0;
        while i < n
            invariant
                self.wf(),
                self.same_context(old(self)),
                self.allocator() == old(self).allocator(),
                self.tables() == old(self).tables(),
                self.bytes().len() == old(self).bytes().len(),
                pa + n <= self.span(),
                self.bytes().len() == self.span(),
                i <= n,
                forall|q: int| 0 <= q < old(self).bytes().len() ==> #[trigger] self.bytes()[q] == if pa <= q < pa + i {
                    0u8
                } else {
                    old(self).bytes()[q]
                },
            decreases n - i,
        {
            self.mem.write_byte(pa + i, 0);
            i = i + 1;
        }
    }

    /// Allocates a frame, zero-fills it, then maps the page of `v` to it in
    /// the hierarchy at `root`; when mapping fails the frame is given back.
    pub(crate) fn map_alloc_in(&mut self, root: u64, v: VirtAddr, flags: PageFlags) -> (r: Result<u64, MemError>)
        requires
            old(self).wf(),
            root / 4096 < old(self).allocator().total_frames(),
        ensures
            final(self).wf(),
            final(self).same_context(old(self)),
            match r {
                Ok(pa) => {
                    &&& first_clear(old(self).allocator().bits()) == Some(frame_of(pa))
                    &&& pa % 4096 == 0
                    &&& pa + 4096 <= final(self).span()
                    &&& final(self).allocator().bits()[frame_of(pa)]
                    &&& leaf_entry(final(self).tables(), root, v@) == Some(pa | flag_bits(flags))
                    &&& changes_confined(old(self).tables(), final(self).tables(), old(self).allocator().bits(),
                        path_slots(final(self).tables(), root, v@))
                    &&& path_owned(final(self).tables(), final(self).allocator().bits(), root, v@)
                    &&& (p1_table(old(self).tables(), root, v@) matches Some(x) ==> p1_table(final(self).tables(), root, v@)
                        == Some(x))
                    &&& forall|i: int| 0 <= i < old(self).allocator().total_frames() && #[trigger] old(self).allocator().bits()[i]
                        ==> final(self).allocator().bits()[i]
                    &&& final(self).bytes().len() == old(self).bytes().len()
                    &&& forall|q: int| 0 <= q < old(self).bytes().len() ==> #[trigger] final(self).bytes()[q] == if pa <= q < pa + 4096 {
                        0u8
                    } else {
                        old(self).bytes()[q]
                    }
                },
                Err(e) => {
                    &&& (e == MemError::OutOfMemory) == first_clear(old(self).allocator().bits()).is_none()
                    &&& (e == MemError::OutOfMemory || e == MemError::MapFailure)
                    &&& e == MemError::OutOfMemory ==> final(self).tables() == old(self).tables()
                        && final(self).allocator().bits() == old(self).allocator().bits()
                    &&& e == MemError::MapFailure ==> !final(self).allocator().bits()[first_clear(old(self).allocator().bits()).unwrap()]
                    &&& translate(final(self).tables(), root, v@) == translate(old(self).tables(), root, v@)
                },
            },
            !flags.huge && old(self).allocator().bits()[frame_of(root)] && (old(self).allocator().free_frames() >= 4 || (
            old(self).allocator().free_frames() >= 1 && p1_table(old(self).tables(), root, v@).is_some())) && path_sound(
                old(self).tables(),
                old(self).allocator().bits(),
                root,
                v@,
            ) ==> r.is_ok(),
            r.is_ok() ==> final(self).allocator().free_frames() + 4 >= old(self).allocator().free_frames(),
            r.is_ok() && p1_table(old(self).tables(), root, v@).is_some() ==> final(self).allocator().free_frames() + 1
                == old(self).allocator().free_frames(),
            forall|u: u64| same_table(u, v@) && (r.is_err() || pt_index(u, 12) != pt_index(v@, 12)) ==> #[trigger] translate(
                final(self).tables(),
                root,
                u,
            ) == translate(old(self).tables(), root, u),
    {
        proof {
            self.lemma_wf();
        }
        let ghost before = self.pmm;
        let ghost t0 = self.tables();
        let pa = match pmm::alloc_frame(&mut self.pmm) {
            None => {
                proof {
                    lemma_exhausted(before);
                }
                return Err(MemError::OutOfMemory);
            },
            Some(a) => a,
        };
        proof {
            before.lemma_wf_bounds();
            self.pmm.lemma_wf_bounds();
            lemma_first_clear_spec(before.bits());
            let i = first_clear(before.bits()).unwrap();
            assert(self.pmm.bits() == before.bits().update(i, true));
            assert forall|j: int| 0 <= j < before.bits().len() && #[trigger] before.bits()[j] implies self.pmm.bits()[j] by {
            }
            lemma_path_sound_mono(t0, before.bits(), self.pmm.bits(), root, v@);
        }
        proof {
            lemma_first_clear_spec(before.bits());
            let i = first_clear(before.bits()).unwrap();
            assert(pa == i * 4096);
            assert(pa / 4096 == i && pa % 4096 == 0);
            assert(pa + 4096 <= self.span());
        }
        self.zero_phys(pa, 4096);
        let p = match PhysAddr::new(pa) {
            Some(p) => p,
            None => {
                return Err(MemError::OutOfMemory);
            },
        };
        let ghost mid = *self;
        assert(mid.allocator().bits()[frame_of(pa)]);
        assert(frame_of(pa) < mid.allocator().total_frames());
        match self.map_in(root, v, p, flags) {
            Ok(()) => {
                proof {
                    assert(pa & ADDR_MASK == pa) by (bit_vector)
                        requires
                            pa % 4096 == 0,
                            pa < 0x10_0000_0000_0000,
                    ;
                    assert(self.allocator().bits()[frame_of(pa)]);
                    assert(first_clear(old(self).allocator().bits()) == Some(frame_of(pa)));
                    assert forall|i: int| 0 <= i < old(self).allocator().total_frames() && #[trigger] old(self).allocator().bits()[i]
                        implies self.allocator().bits()[i] by {
                        assert(mid.allocator().bits()[i]);
                    }
                    assert forall|k: int| 0 <= k < self.tables().len() && #[trigger] self.tables()[k] != old(self).tables()[k]
                        implies path_slots(self.tables(), root, v@).contains(k) || !old(self).allocator().bits()[k / 512] by {
                        assert(mid.tables()[k] == old(self).tables()[k]);
                        if !path_slots(self.tables(), root, v@).contains(k) {
                            assert(!mid.allocator().bits()[k / 512]);
                        }
                    }
                    assert(leaf_entry(self.tables(), root, v@) == Some(pa | flag_bits(flags)));
                }
                Ok(pa)
            },
            Err(e) => {
                proof {
                    self.lemma_wf();
                    assert(self.allocator().bits()[frame_of(pa)]);
                }
                let _ = pmm::free(&mut self.pmm, pa);
                Err(e)
            },
        }
    }
}

impl MemorySystem {
    /// Allocates a zero-filled root table holding a copy of the kernel-half
    /// root entries of the kernel's hierarchy.
    pub(crate) fn new_root(&mut self) -> (r: Option<u64>)
        requires
            old(self).wf(),
        ensures
            final(self).wf(),
            final(self).same_context(old(self)),
            final(self).bytes() == old(self).bytes(),
            match r {
                Some(root) => {
                    &&& first_clear(old(self).allocator().bits()) == Some(frame_of(root))
                    &&& root % 4096 == 0
                    &&& root / 4096 < final(self).allocator().total_frames()
                    &&& final(self).allocator().bits() == old(self).allocator().bits().update(frame_of(root), true)
                    &&& forall|i: int| 256 <= i < 512 ==> #[trigger] entry_of(final(self).tables(), root as int, i)
                        == entry_of(old(self).tables(), old(self).kernel_root() as int, i)
                    &&& forall|i: int| 0 <= i < 256 ==> #[trigger] entry_of(final(self).tables(), root as int, i) == 0
                    &&& final(self).tables().len() == old(self).tables().len()
                    &&& forall|k: int| 0 <= k < final(self).tables().len() && k / 512 != frame_of(root)
                        ==> #[trigger] final(self).tables()[k] == old(self).tables()[k]
                },
                None => first_clear(old(self).allocator().bits()).is_none() && *final(self) == *old(self),
            },
    {
        proof {
            self.lemma_wf();
        }
        let ghost before = *self;
        let kroot = self.kernel_root;
        let mut upper: Vec<u64> = Vec::new();
        let mut i: usize = 256;
        while i < 512
            invariant
                *self == before,
                self.wf(),
                kroot == before.kernel_root(),
                256 <= i <= 512,
                upper@.len() == i - 256,
                forall|j: int| 0 <= j < upper@.len() ==> #[trigger] upper@[j] == entry_of(before.tables(), kroot as int, j + 256),
            decreases 512 - i,
        {
            upper.push(self.mem.read_entry(kroot, i));
            i = i + 1;
        }
        let root = match pmm::alloc_frame(&mut self.pmm) {
            None => {
                return None;
            },
            Some(a) => a,
        };
        proof {
            lemma_first_clear_spec(before.allocator().bits());
            let i = first_clear(before.allocator().bits()).unwrap();
            assert(root == i * 4096);
            assert(root / 4096 == i && root % 4096 == 0);
        }
        self.mem.zero_table(root);
        let mut i: usize = 256;
        while i < 512
            invariant
                self.wf(),
                self.same_context(&before),
                self.bytes() == before.bytes(),
                self.allocator().bits() == before.allocator().bits().update(frame_of(root), true),
                root % 4096 == 0,
                root / 4096 < self.allocator().total_frames(),
                upper@.len() == 256,
                forall|j: int| 0 <= j < 256 ==> #[trigger] upper@[j] == entry_of(before.tables(), kroot as int, j + 256),
                256 <= i <= 512,
                self.tables().len() == before.tables().len(),
                forall|k: int| 0 <= k < self.tables().len() && k / 512 != frame_of(root)
                    ==> #[trigger] self.tables()[k] == before.tables()[k],
                forall|j: int| 256 <= j < i ==> #[trigger] entry_of(self.tables(), root as int, j)
                    == entry_of(before.tables(), kroot as int, j),
                forall|j: int| 0 <= j < 512 && !(256 <= j < i) ==> #[trigger] entry_of(self.tables(), root as int, j) == 0,
            decreases 512 - i,
        {
            proof {
                lemma_slot_frame(root, i as int);
                self.lemma_wf();
            }
            let ghost prev = self.tables();
            self.mem.write_entry(root, i, upper[i - 256]);
            proof {
                assert forall|j: int| 0 <= j < 512 && j != i implies #[trigger] entry_of(self.tables(), root as int, j)
                    == entry_of(prev, root as int, j) by {
                    lemma_slot_frame(root, j);
                }
                assert(entry_of(self.tables(), root as int, i as int) == upper@[i - 256]);
            }
            i = i + 1;
        }
        Some(root)
    }
}

/// Frames of the tables reachable through entries `0..n` of the table at
/// `table`, which sits at `level` (4 for a root); last-level tables point at
/// pages, not tables, and huge entries end the walk.
pub open spec fn tables_below(t: Seq<u64>, table: u64, level: int, n: int) -> Set<int>
    decreases level, n,
{
    if level <= 1 || n <= 0 {
        Set::empty()
    } else {
        let e = entry_of(t, table as int, n - 1);
        let rest = tables_below(t, table, level, n - 1);
        if present(e) && !huge(e) {
            rest.union(tables_below(t, entry_addr(e), level - 1, 512)).insert(frame_of(entry_addr(e)))
        } else {
            rest
        }
    }
}

/// `bits` with the usable frames of `s` cleared.
pub open spec fn cleared(bits: Seq<bool>, usable: Seq<bool>, s: Set<int>) -> Seq<bool> {
    Seq::new(bits.len(), |i: int| bits[i] && !(s.contains(i) && usable[i]))
}

/// Frames of the addresses in `s`.
pub open spec fn frames_in(s: Seq<u64>) -> Set<int> {
    Set::new(|f: int| exists|i: int| 0 <= i < s.len() && frame_of(s[i]) == f)
}

proof fn lemma_frames_push(s: Seq<u64>, c: u64)
    ensures
        frames_in(s.push(c)) == frames_in(s).insert(frame_of(c)),
{
    let t = s.push(c);
    assert forall|f: int| frames_in(t).contains(f) implies frames_in(s).insert(frame_of(c)).contains(f) by {
        let i = choose|i: int| 0 <= i < t.len() && frame_of(t[i]) == f;
        if i < s.len() {
            assert(frames_in(s).contains(f));
        }
    }
    assert forall|f: int| frames_in(s).insert(frame_of(c)).contains(f) implies frames_in(t).contains(f) by {
        if f == frame_of(c) {
            assert(frame_of(t[s.len() as int]) == f);
        } else {
            let i = choose|i: int| 0 <= i < s.len() && frame_of(s[i]) == f;
            assert(frame_of(t[i]) == f);
        }
    }
    assert(frames_in(t) =~= frames_in(s).insert(frame_of(c)));
}

/// An entry as teardown leaves it: cleared when it was present and lies in
/// a table that teardown visits.
pub open spec fn torn_down(e: u64, visited: bool) -> u64 {
    if visited && present(e) {
        0
    } else {
        e
    }
}

impl MemorySystem {
    /// Clears the present entries `0..limit` of the table at `table`.
    fn clear_table(&mut self, table: u64, limit: usize)
        requires
            old(self).wf(),
            limit <= 512,
        ensures
            final(self).wf(),
            final(self).same_context(old(self)),
            final(self).bytes() == old(self).bytes(),
            final(self).allocator() == old(self).allocator(),
            final(self).tables().len() == old(self).tables().len(),
            forall|k: int| 0 <= k < old(self).tables().len() ==> #[trigger] final(self).tables()[k] == torn_down(
                old(self).tables()[k],
                k / 512 == frame_of(table) && k % 512 < limit,
            ),
    {
        let ghost before = self.tables();
        proof {
            self.lemma_wf();
            assert(!present(0u64)) by (bit_vector);
        }
        let mut idx: usize = 0;
        while idx < limit
            invariant
                self.wf(),
                self.same_context(old(self)),
                self.bytes() == old(self).bytes(),
                self.allocator() == old(self).allocator(),
                before == old(self).tables(),
                self.tables().len() == before.len(),
                idx <= limit <= 512,
                !present(0u64),
                forall|k: int| 0 <= k < before.len() ==> #[trigger] self.tables()[k] == torn_down(
                    before[k],
                    k / 512 == frame_of(table) && k % 512 < idx,
                ),
            decreases limit - idx,
        {
            proof {
                self.lemma_wf();
                lemma_slot_frame(table, idx as int);
            }
            let e = self.mem.read_entry(table, idx);
            if e & FLAG_PRESENT == FLAG_PRESENT {
                proof {
                    assert(e != 0) by (bit_vector)
                        requires
                            e & 1u64 == 1u64,
                    ;
                }
                self.mem.write_entry(table, idx, 0);
            } else {
                proof {
                    let k = slot(table as int, idx as int);
                    if 0 <= k < before.len() {
                        assert(self.tables()[k] == before[k]);
                    }
                }
            }
            idx = idx + 1;
        }
    }

    /// Clears the present entries of every table in `visited`, and the
    /// present lower-half entries of the root at `root`.
    pub(crate) fn clear_visited(&mut self, visited: &Vec<u64>, root: u64)
        requires
            old(self).wf(),
        ensures
            final(self).wf(),
            final(self).same_context(old(self)),
            final(self).bytes() == old(self).bytes(),
            final(self).allocator() == old(self).allocator(),
            final(self).tables().len() == old(self).tables().len(),
            forall|k: int| 0 <= k < old(self).tables().len() ==> #[trigger] final(self).tables()[k] == torn_down(
                old(self).tables()[k],
                frames_in(visited@).contains(k / 512) || (k / 512 == frame_of(root) && k % 512 < 256),
            ),
    {
        let ghost before = self.tables();
        let mut i: usize = 0;
        while i < visited.len()
            invariant
                self.wf(),
                self.same_context(old(self)),
                self.bytes() == old(self).bytes(),
                self.allocator() == old(self).allocator(),
                before == old(self).tables(),
                self.tables().len() == before.len(),
                i <= visited@.len(),
                forall|k: int| 0 <= k < before.len() ==> #[trigger] self.tables()[k] == torn_down(
                    before[k],
                    frames_in(visited@.subrange(0, i as int)).contains(k / 512),
                ),
            decreases visited@.len() - i,
        {
            let ghost mid = self.tables();
            self.clear_table(visited[i], 512);
            proof {
                assert(!present(0u64)) by (bit_vector);
                lemma_frames_push(visited@.subrange(0, i as int), visited@[i as int]);
                assert(visited@.subrange(0, i + 1) =~= visited@.subrange(0, i as int).push(visited@[i as int]));
                assert forall|k: int| 0 <= k < before.len() implies #[trigger] self.tables()[k] == torn_down(
                    before[k],
                    frames_in(visited@.subrange(0, i + 1)).contains(k / 512),
                ) by {
                    assert(mid[k] == torn_down(before[k], frames_in(visited@.subrange(0, i as int)).contains(k / 512)));
                }
            }
            i = i + 1;
        }
        let ghost mid = self.tables();
        self.clear_table(root, 256);
        proof {
            assert(!present(0u64)) by (bit_vector);
            assert(visited@.subrange(0, visited@.len() as int) =~= visited@);
            assert forall|k: int| 0 <= k < before.len() implies #[trigger] self.tables()[k] == torn_down(
                before[k],
                frames_in(visited@).contains(k / 512) || (k / 512 == frame_of(root) && k % 512 < 256),
            ) by {
                assert(mid[k] == torn_down(before[k], frames_in(visited@).contains(k / 512)));
            }
        }
    }

    /// Frees, depth first, every table reachable through entries `0..limit`
    /// of the table at `table` at `level`.
    pub(crate) fn free_tables(&mut self, table: u64, level: u64, limit: usize, visited: &mut Vec<u64>)
        requires
            old(self).wf(),
            1 <= level <= 4,
            limit <= 512,
        ensures
            final(self).wf(),
            final(self).same_context(old(self)),
            final(self).bytes() == old(self).bytes(),
            final(self).tables() == old(self).tables(),
            final(self).allocator().bits() == cleared(
                old(self).allocator().bits(),
                old(self).allocator().usable_set(),
                tables_below(old(self).tables(), table, level as int, limit as int),
            ),
            frames_in(final(visited)@) == frames_in(old(visited)@).union(
                tables_below(old(self).tables(), table, level as int, limit as int),
            ),
        decreases level,
    {
        let ghost before = *self;
        let ghost v0 = visited@;
        proof {
            self.lemma_wf();
            assert(self.allocator().bits() =~= cleared(before.allocator().bits(), before.allocator().usable_set(), Set::empty()));
            assert(frames_in(v0) =~= frames_in(v0).union(Set::empty()));
        }
        if level <= 1 {
            return;
        }
        let mut idx: usize = 0;
        while idx < limit
            invariant
                self.wf(),
                self.same_context(&before),
                self.bytes() == before.bytes(),
                self.tables() == before.tables(),
                2 <= level <= 4,
                idx <= limit <= 512,
                self.allocator().bits() == cleared(
                    before.allocator().bits(),
                    before.allocator().usable_set(),
                    tables_below(before.tables(), table, level as int, idx as int),
                ),
                frames_in(visited@) == frames_in(v0).union(tables_below(before.tables(), table, level as int, idx as int)),
            decreases limit - idx,
        {
            let e = self.mem.read_entry(table, idx);
            let ghost b0 = self.allocator().bits();
            let ghost rest = tables_below(before.tables(), table, level as int, idx as int);
            if e & FLAG_PRESENT == FLAG_PRESENT && e & FLAG_HUGE != FLAG_HUGE {
                let child = e & ADDR_MASK;
                let ghost vb = visited@;
                self.free_tables(child, level - 1, 512, visited);
                let ghost vm = visited@;
                let ghost b1 = self.allocator().bits();
                proof {
                    self.lemma_wf();
                    assert(child % 4096 == 0) by (bit_vector)
                        requires
                            child == e & 0x000f_ffff_ffff_f000u64,
                    ;
                }
                let _ = pmm::free(&mut self.pmm, child);
                visited.push(child);
                proof {
                    let sub = tables_below(before.tables(), child, level - 1, 512);
                    let all = rest.union(sub).insert(frame_of(child));
                    assert(tables_below(before.tables(), table, level as int, idx + 1) == all);
                    assert(self.allocator().bits() =~= cleared(before.allocator().bits(), before.allocator().usable_set(), all));
                    lemma_frames_push(vm, child);
                    assert(frames_in(visited@) =~= frames_in(v0).union(all));
                }
            } else {
                proof {
                    assert(tables_below(before.tables(), table, level as int, idx + 1) == rest);
                }
            }
            idx = idx + 1;
        }
    }
}

impl MemorySystem {
    /// Makes the hierarchy at `root` the active one, as loading the paging
    /// register does.
    pub(crate) fn set_active(&mut self, root: u64)
        requires
            old(self).wf(),
            root / 4096 < old(self).allocator().total_frames(),
        ensures
            final(self).wf(),
            final(self).active_root() == root,
            final(self).allocator() == old(self).allocator(),
            final(self).tables() == old(self).tables(),
            final(self).bytes() == old(self).bytes(),
            final(self).hhdm() == old(self).hhdm(),
            final(self).kernel_root() == old(self).kernel_root(),
    {
        self.active_root = root;
    }

    /// Allocates the lowest free frame; see `pmm::alloc_frame`.
    pub fn frame_alloc(&mut self) -> (r: Option<u64>)
        requires
            old(self).wf(),
        ensures
            final(self).wf(),
            final(self).same_context(old(self)),
            final(self).tables() == old(self).tables(),
            final(self).bytes() == old(self).bytes(),
            old(self).allocator().balanced() ==> final(self).allocator().balanced(),
            match first_clear(old(self).allocator().bits()) {
                None => r.is_none() && final(self).allocator() == old(self).allocator(),
                Some(i) => r == Some((i * 4096) as u64) && final(self).allocator().bits()
                    == old(self).allocator().bits().update(i, true) && final(self).allocator().free_frames()
                    == old(self).allocator().free_frames() - 1,
            },
    {
        pmm::alloc_frame(&mut self.pmm)
    }

    /// Returns the frame at `addr` to the allocator; see `pmm::free`.
    pub fn frame_free(&mut self, addr: u64) -> (r: Result<(), MemError>)
        requires
            old(self).wf(),
        ensures
            final(self).wf(),
            final(self).same_context(old(self)),
            final(self).tables() == old(self).tables(),
            final(self).bytes() == old(self).bytes(),
            addr % 4096 != 0 ==> r == Err::<(), MemError>(MemError::AlignmentViolation)
                && final(self).allocator().bits() == old(self).allocator().bits(),
            addr % 4096 == 0 ==> r.is_ok() && final(self).allocator().bits() == cleared(
                old(self).allocator().bits(),
                old(self).allocator().usable_set(),
                set![frame_of(addr)],
            ),
            old(self).allocator().balanced() ==> final(self).allocator().balanced(),
    {
        proof {
            self.lemma_wf();
        }
        let r = pmm::free(&mut self.pmm, addr);
        proof {
            if addr % 4096 == 0 {
                assert(self.allocator().bits() =~= cleared(old(self).allocator().bits(), old(self).allocator().usable_set(), set![frame_of(addr)]));
            }
        }
        r
    }

    /// The frame allocator of the context.
    pub fn pmm(&self) -> (r: &BitmapAllocator)
        ensures
            *r == self.allocator(),
    {
        &self.pmm
    }

    /// The byte at physical address `pa`, read through the direct map.
    pub fn read_phys(&self, pa: u64) -> (r: Option<u8>)
        requires
            self.wf(),
        ensures
            r == if pa < self.span() {
                Some(self.bytes()[pa as int])
            } else {
                None::<u8>
            },
    {
        proof {
            self.lemma_wf();
        }
        if pa < self.pmm.total_pages() as u64 * 4096 {
            Some(self.mem.read_byte(pa))
        } else {
            None
        }
    }

    /// Physical address of the root of the kernel's hierarchy.
    pub fn kernel_root_exec(&self) -> (r: u64)
        ensures
            r == self.kernel_root(),
    {
        self.kernel_root
    }

    /// Physical address of the root of the active hierarchy.
    pub fn active_root_exec(&self) -> (r: u64)
        ensures
            r == self.active_root(),
    {
        self.active_root
    }

    /// Makes the kernel's hierarchy the active one again.
    pub fn activate_kernel(&mut self)
        requires
            old(self).wf(),
        ensures
            final(self).wf(),
            final(self).active_root() == old(self).kernel_root(),
            final(self).allocator() == old(self).allocator(),
            final(self).tables() == old(self).tables(),
            final(self).bytes() == old(self).bytes(),
            final(self).hhdm() == old(self).hhdm(),
            final(self).kernel_root() == old(self).kernel_root(),
    {
        self.active_root = self.kernel_root;
    }
}

/// The physical byte that virtual byte `v` reaches in the hierarchy at
/// `root`, when there is one and memory backs it.
#[verifier::opaque]
pub open spec fn backed(sys: MemorySystem, root: u64, v: int) -> Option<int> {
    if 0 <= v <= u64::MAX && is_canonical(v as u64) {
        match translate(sys.tables(), root, v as u64) {
            Some(x) => if x < sys.span() {
                Some(x as int)
            } else {
                None
            },
            None => None,
        }
    } else {
        None
    }
}

/// Offset, counted from `j`, of the first byte of `v..v + len` that is not
/// backed; `len` when all are.
pub open spec fn backed_from(sys: MemorySystem, root: u64, v: int, len: int, j: int) -> int
    decreases len - j,
{
    if j >= len {
        len
    } else if backed(sys, root, v + j).is_none() {
        j
    } else {
        backed_from(sys, root, v, len, j + 1)
    }
}

/// Number of leading bytes of `v..v + len` that are backed.
pub open spec fn backed_prefix(sys: MemorySystem, root: u64, v: int, len: int) -> int {
    backed_from(sys, root, v, len, 0)
}

proof fn lemma_backed_from(sys: MemorySystem, root: u64, v: int, len: int, j: int, k: int)
    requires
        0 <= j <= k <= len,
        forall|i: int| j <= i < k ==> (#[trigger] backed(sys, root, v + i)).is_some(),
        k == len || backed(sys, root, v + k).is_none(),
    ensures
        backed_from(sys, root, v, len, j) == k,
    decreases len - j,
{
    if j < k {
        lemma_backed_from(sys, root, v, len, j + 1, k);
    }
}

proof fn lemma_or_add(a: u64, y: u64, d: u64, c: u64)
    requires
        a & c == 0,
        y + d <= c,
        c == 0xfff || c == 0x1f_ffff || c == 0x3fff_ffff,
    ensures
        a | ((y + d) as u64) == (a | y) + d,
        (a | y) & 0xfffu64 == y & 0xfffu64,
{
    assert(a | ((y + d) as u64) == (a | y) + d && (a | y) & 0xfffu64 == y & 0xfffu64) by (bit_vector)
        requires
            a & c == 0,
            y + d <= c,
            c == 0xfff || c == 0x1f_ffff || c == 0x3fff_ffff,
    ;
}

/// Bytes of one 4 KiB page translate to consecutive physical bytes.
proof fn lemma_same_page(sys: MemorySystem, root: u64, cur: u64, d: u64)
    requires
        sys.wf(),
        (cur & 0xfffu64) + d < 4096,
        backed(sys, root, cur as int).is_some(),
    ensures
        backed(sys, root, cur + d) == Some(backed(sys, root, cur as int).unwrap() + d),
        backed(sys, root, cur as int).unwrap() + d < sys.span(),
{
    reveal(backed);
    sys.lemma_wf();
    let x = (cur + d) as u64;
    assert(cur + d <= u64::MAX && (x >> 12u64) == (cur >> 12u64) && (x & 0xfffu64) == (cur & 0xfffu64) + d
        && (x & 0x1f_ffffu64) == (cur & 0x1f_ffffu64) + d && (x & 0x3fff_ffffu64) == (cur & 0x3fff_ffffu64) + d
        && (cur & 0x1f_ffffu64) + d <= 0x1f_ffff && (cur & 0x3fff_ffffu64) + d <= 0x3fff_ffff
        && ((x >> 39u64) & 0x1ffu64) == ((cur >> 39u64) & 0x1ffu64) && ((x >> 30u64) & 0x1ffu64) == ((cur >> 30u64)
        & 0x1ffu64) && ((x >> 21u64) & 0x1ffu64) == ((cur >> 21u64) & 0x1ffu64) && ((x >> 12u64) & 0x1ffu64) == ((cur
        >> 12u64) & 0x1ffu64) && (is_canonical(cur) ==> is_canonical(x))) by (bit_vector)
        requires
            (cur & 0xfffu64) + d < 4096,
            x == (cur + d) as u64,
    ;
    let t = sys.tables();
    let e4 = entry_of(t, root as int, pt_index(cur, 39));
    let e3 = entry_of(t, entry_addr(e4) as int, pt_index(cur, 30));
    let e2 = entry_of(t, entry_addr(e3) as int, pt_index(cur, 21));
    let e1 = entry_of(t, entry_addr(e2) as int, pt_index(cur, 12));
    let a3 = entry_addr(e3) & !0x3fff_ffffu64;
    let a2 = entry_addr(e2) & !0x1f_ffffu64;
    let a1 = entry_addr(e1);
    assert(a3 & 0x3fff_ffffu64 == 0 && a2 & 0x1f_ffffu64 == 0 && a1 & 0xfffu64 == 0) by (bit_vector)
        requires
            a3 == (e3 & 0x000f_ffff_ffff_f000u64) & !0x3fff_ffffu64,
            a2 == (e2 & 0x000f_ffff_ffff_f000u64) & !0x1f_ffffu64,
            a1 == e1 & 0x000f_ffff_ffff_f000u64,
    ;
    lemma_or_add(a3, cur & 0x3fff_ffffu64, d, 0x3fff_ffff);
    lemma_or_add(a2, cur & 0x1f_ffffu64, d, 0x1f_ffff);
    lemma_or_add(a1, cur & 0xfffu64, d, 0xfff);
    let p = translate(t, root, cur).unwrap();
    assert((cur & 0x3fff_ffffu64) & 0xfffu64 == cur & 0xfffu64 && (cur & 0x1f_ffffu64) & 0xfffu64 == cur & 0xfffu64
        && (cur & 0xfffu64) & 0xfffu64 == cur & 0xfffu64) by (bit_vector);
    assert(p & 0xfffu64 == cur & 0xfffu64);
    assert(p + d < sys.span()) by {
        assert(p % 4096 + d < 4096) by (bit_vector)
            requires
                p & 0xfffu64 == cur & 0xfffu64,
                (cur & 0xfffu64) + d < 4096,
        ;
        assert(sys.span() % 4096 == 0);
    }
}

/// The byte that a range operation stores at offset `j`.
pub open spec fn span_byte(src: Seq<u8>, zero: bool, j: int) -> u8 {
    if zero {
        0
    } else {
        src[j]
    }
}

/// What a range operation over the first `k` bytes of `v..` leaves in
/// memory: each physical byte reached holds the value of the last offset
/// that reached it, and every other byte is unchanged.
#[verifier::opaque]
pub open spec fn span_stored(
    before: MemorySystem,
    after: Seq<u8>,
    root: u64,
    v: int,
    src: Seq<u8>,
    zero: bool,
    k: int,
) -> bool {
    &&& after.len() == before.bytes().len()
    &&& forall|q: int| 0 <= q < after.len() && (forall|j: int| 0 <= j < k ==> #[trigger] backed(before, root, v + j) != Some(q))
        ==> #[trigger] after[q] == before.bytes()[q]
    &&& forall|j: int| 0 <= j < k && backed(before, root, v + j).is_some() && (forall|j2: int| j < j2 < k ==> #[trigger] backed(before, root, v + j2) != backed(before, root, v + j))
        ==> after[#[trigger] backed(before, root, v + j).unwrap()] == span_byte(src, zero, j)
}

/// A backed byte lies in the backed memory.
pub proof fn lemma_backed_bound(sys: MemorySystem, root: u64, v: int)
    ensures
        backed(sys, root, v) matches Some(x) ==> 0 <= x < sys.span(),
{
    reveal(backed);
}

proof fn lemma_stored_step(
    before: MemorySystem,
    prev: Seq<u8>,
    after: Seq<u8>,
    root: u64,
    v: int,
    src: Seq<u8>,
    zero: bool,
    k: int,
    qn: int,
)
    requires
        0 <= k,
        0 <= qn < prev.len(),
        prev.len() == before.span(),
        span_stored(before, prev, root, v, src, zero, k),
        backed(before, root, v + k) == Some(qn),
        after == prev.update(qn, span_byte(src, zero, k)),
    ensures
        span_stored(before, after, root, v, src, zero, k + 1),
{
    reveal(span_stored);
    assert forall|q: int| 0 <= q < after.len() && (forall|j: int| 0 <= j < k + 1 ==> #[trigger] backed(before, root, v + j) != Some(q))
        implies #[trigger] after[q] == before.bytes()[q] by {
        assert(backed(before, root, v + k) != Some(q));
    }
    assert forall|j: int| 0 <= j < k + 1 && backed(before, root, v + j).is_some() && (forall|j2: int| j < j2 < k + 1 ==> #[trigger] backed(before, root, v + j2) != backed(before, root, v + j))
        implies after[#[trigger] backed(before, root, v + j).unwrap()] == span_byte(src, zero, j) by {
        if j < k {
            lemma_backed_bound(before, root, v + j);
            assert(backed(before, root, v + k) != backed(before, root, v + j));
            assert forall|j2: int| j < j2 < k implies #[trigger] backed(before, root, v + j2) != backed(before, root, v + j) by {
            }
            assert(prev[backed(before, root, v + j).unwrap()] == span_byte(src, zero, j));
        }
    }
}

impl MemorySystem {
    /// Stores the bytes at offsets `off..off + n`, which lie in the page of
    /// `cur` that reaches physical `phys`.
    #[verifier::rlimit(60)]
    fn store_chunk(
        &mut self,
        root: u64,
        v: u64,
        src: &[u8],
        zero: bool,
        len: usize,
        off: usize,
        n: usize,
        cur: u64,
        phys: u64,
        Ghost(before): Ghost<MemorySystem>,
    )
        requires
            old(self).wf(),
            before.wf(),
            old(self).same_context(&before),
            old(self).allocator() == before.allocator(),
            old(self).tables() == before.tables(),
            zero || src@.len() == len,
            off + n <= len,
            cur == v + off,
            n <= 4096 - (cur & 0xfff),
            backed(before, root, cur as int) == Some(phys as int),
            forall|j: int| 0 <= j < off ==> (#[trigger] backed(before, root, v + j)).is_some(),
            span_stored(before, old(self).bytes(), root, v as int, src@, zero, off as int),
        ensures
            final(self).wf(),
            final(self).same_context(&before),
            final(self).allocator() == before.allocator(),
            final(self).tables() == before.tables(),
            forall|j: int| 0 <= j < off + n ==> (#[trigger] backed(before, root, v + j)).is_some(),
            span_stored(before, final(self).bytes(), root, v as int, src@, zero, (off + n) as int),
    {
        let mut i: usize = 0;
        while i < n
            invariant
                self.wf(),
                before.wf(),
                self.same_context(&before),
                self.allocator() == before.allocator(),
                self.tables() == before.tables(),
                zero || src@.len() == len,
                off + n <= len,
                cur == v + off,
                n <= 4096 - (cur & 0xfff),
                i <= n,
                backed(before, root, cur as int) == Some(phys as int),
                forall|j: int| 0 <= j < off + i ==> (#[trigger] backed(before, root, v + j)).is_some(),
                span_stored(before, self.bytes(), root, v as int, src@, zero, (off + i) as int),
            decreases n - i,
        {
            proof {
                lemma_same_page(before, root, cur, i as u64);
                self.lemma_wf();
                before.lemma_wf();
            }
            let b = if zero {
                0u8
            } else {
                src[off + i]
            };
            let ghost prev = self.bytes();
            self.mem.write_byte(phys + i as u64, b);
            proof {
                lemma_stored_step(before, prev, self.bytes(), root, v as int, src@, zero, (off + i) as int, (phys + i) as int);
            }
            i = i + 1;
        }
    }

    /// Stores `len` bytes (zeros, or those of `src`) at `v..v + len` of the
    /// hierarchy at `root`, one page-clipped chunk after another, through the
    /// direct map. Stops at the first chunk that is not mapped to backed
    /// memory; the chunks before it stay written.
    #[verifier::rlimit(60)]
    pub(crate) fn copy_in(&mut self, root: u64, v: u64, src: &[u8], zero: bool, len: usize) -> (r: Result<(), MemError>)
        requires
            old(self).wf(),
            zero || src@.len() == len,
        ensures
            final(self).wf(),
            final(self).same_context(old(self)),
            final(self).allocator() == old(self).allocator(),
            final(self).tables() == old(self).tables(),
            r.is_ok() == (backed_prefix(*old(self), root, v as int, len as int) == len),
            r.is_err() ==> r == Err::<(), MemError>(MemError::PageNotMapped),
            span_stored(*old(self), final(self).bytes(), root, v as int, src@, zero,
                backed_prefix(*old(self), root, v as int, len as int)),
    {
        let ghost before = *self;
        proof {
            self.lemma_wf();
            reveal(span_stored);
        }
        let mut off: usize = 0;
        while off < len
            invariant
                before == *old(self),
                before.wf(),
                self.wf(),
                self.same_context(&before),
                self.allocator() == before.allocator(),
                self.tables() == before.tables(),
                zero || src@.len() == len,
                off <= len,
                forall|j: int| 0 <= j < off ==> (#[trigger] backed(before, root, v + j)).is_some(),
                span_stored(before, self.bytes(), root, v as int, src@, zero, off as int),
            decreases len - off,
        {
            proof {
                self.lemma_wf();
            }
            if off as u64 > u64::MAX - v {
                proof {
                    reveal(backed);
                    lemma_backed_from(before, root, v as int, len as int, 0, off as int);
                }
                return Err(MemError::PageNotMapped);
            }
            let cur = v + off as u64;
            let va = match VirtAddr::new(cur) {
                Some(a) => a,
                None => {
                    proof {
                        reveal(backed);
                        lemma_backed_from(before, root, v as int, len as int, 0, off as int);
                    }
                    return Err(MemError::PageNotMapped);
                },
            };
            let phys = match self.translate_in(root, va.as_u64()) {
                Some(p) => p,
                None => {
                    proof {
                        reveal(backed);
                        lemma_backed_from(before, root, v as int, len as int, 0, off as int);
                    }
                    return Err(MemError::PageNotMapped);
                },
            };
            let span = self.pmm.total_pages() as u64 * 4096;
            if phys >= span {
                proof {
                    reveal(backed);
                    lemma_backed_from(before, root, v as int, len as int, 0, off as int);
                }
                return Err(MemError::PageNotMapped);
            }
            let page_off = cur & 0xfff;
            proof {
                reveal(backed);
                assert(backed(before, root, cur as int) == Some(phys as int));
                assert(page_off < 4096) by (bit_vector)
                    requires
                        page_off == cur & 0xfff,
                ;
            }
            let room = (4096 - page_off) as usize;
            let n = if room < len - off {
                room
            } else {
                len - off
            };
            self.store_chunk(root, v, src, zero, len, off, n, cur, phys, Ghost(before));
            off = off + n;
        }
        proof {
            lemma_backed_from(before, root, v as int, len as int, 0, len as int);
        }
        Ok(())
    }
}

/// Every translation is a physical address.
pub proof fn lemma_translate_phys(t: Seq<u64>, root: u64, v: u64)
    ensures
        translate(t, root, v) matches Some(x) ==> is_phys(x),
{
    let e4 = entry_of(t, root as int, pt_index(v, 39));
    let e3 = entry_of(t, entry_addr(e4) as int, pt_index(v, 30));
    let e2 = entry_of(t, entry_addr(e3) as int, pt_index(v, 21));
    let e1 = entry_of(t, entry_addr(e2) as int, pt_index(v, 12));
    assert(((e3 & 0x000f_ffff_ffff_f000u64) & !0x3fff_ffffu64) | (v & 0x3fff_ffffu64) < 0x10_0000_0000_0000u64)
        by (bit_vector);
    assert(((e2 & 0x000f_ffff_ffff_f000u64) & !0x1f_ffffu64) | (v & 0x1f_ffffu64) < 0x10_0000_0000_0000u64)
        by (bit_vector);
    assert((e1 & 0x000f_ffff_ffff_f000u64) | (v & 0xfffu64) < 0x10_0000_0000_0000u64) by (bit_vector);
}

/// What `virt_to_phys` returns: inside the direct map the offset is taken
/// off; elsewhere the active hierarchy is walked.
pub open spec fn virt_to_phys_spec(sys: MemorySystem, v: u64) -> Option<u64> {
    if sys.hhdm() <= v < sys.hhdm() + sys.span() {
        Some((v - sys.hhdm()) as u64)
    } else {
        translate(sys.tables(), sys.active_root(), v)
    }
}

/// The view of an optional physical address.
pub open spec fn phys_view(r: Option<PhysAddr>) -> Option<u64> {
    match r {
        Some(p) => Some(p@),
        None => None,
    }
}

/// After the page `v` is mapped to the frame `p` with the present flag,
/// translating `v` outside the direct map gives `p` back.
pub proof fn lemma_map_round_trip(sys: MemorySystem, v: u64, p: u64, flags: PageFlags)
    requires
        leaf_entry(sys.tables(), sys.active_root(), v) == Some((p & ADDR_MASK) | flag_bits(flags)),
        flags.present,
        !flags.huge,
        p % 4096 == 0,
        is_phys(p),
        v % 4096 == 0,
        !(sys.hhdm() <= v < sys.hhdm() + sys.span()),
    ensures
        translate(sys.tables(), sys.active_root(), v) == Some(p),
        virt_to_phys_spec(sys, v) == Some(p),
{
    let fb = flag_bits(flags);
    assert(p & ADDR_MASK == p && (p & !ADDR_MASK) == 0) by (bit_vector)
        requires
            p % 4096 == 0,
            p < 0x10_0000_0000_0000,
    ;
    lemma_flag_bits(flags);
    lemma_entry_fields(p, fb);
    assert(v & 0xfffu64 == 0) by (bit_vector)
        requires
            v % 4096 == 0,
    ;
    assert(p | 0u64 == p) by (bit_vector);
}

/// Captures the direct-map offset and the root of the hierarchy active at
/// boot, which becomes the kernel's hierarchy; physical memory covers every
/// frame that the allocator tracks.
pub fn install(pmm: BitmapAllocator, hhdm: u64, boot_root: u64) -> (r: MemorySystem)
    requires
        pmm.wf(),
        pmm.balanced(),
        window_ok(hhdm, (pmm.total_frames() * 4096) as int),
        boot_root / 4096 < pmm.total_frames(),
        pmm.bits()[frame_of(boot_root)],
        !pmm.usable_set()[frame_of(boot_root)],
        pmm.total_frames() * 4096 <= usize::MAX,
    ensures
        r.wf(),
        r.allocator() == pmm,
        r.hhdm() == hhdm,
        r.kernel_root() == boot_root,
        r.active_root() == boot_root,
        forall|k: int| 0 <= k < r.tables().len() ==> #[trigger] r.tables()[k] == 0,
        forall|q: int| 0 <= q < r.bytes().len() ==> #[trigger] r.bytes()[q] == 0,
{
    proof {
        pmm.lemma_wf_bounds();
    }
    let mem = PhysMem::new(pmm.total_pages());
    MemorySystem { pmm, mem, hhdm, kernel_root: boot_root, active_root: boot_root }
}

/// The direct-map offset.
pub fn hhdm(sys: &MemorySystem) -> (r: u64)
    ensures
        r == sys.hhdm(),
{
    sys.hhdm
}

/// The virtual address of `p` in the direct map.
pub fn phys_to_virt(sys: &MemorySystem, p: PhysAddr) -> (r: VirtAddr)
    requires
        p@ + sys.hhdm() <= u64::MAX,
        is_canonical((p@ + sys.hhdm()) as u64),
    ensures
        r@ == p@ + sys.hhdm(),
{
    let a = p.as_u64() + sys.hhdm;
    match VirtAddr::new(a) {
        Some(v) => v,
        None => {
            proof {
                assert(is_canonical(a));
            }
            VirtAddr::new(0).unwrap()
        },
    }
}

/// Translates `v` to the physical address it reaches.
pub fn virt_to_phys(sys: &MemorySystem, v: VirtAddr) -> (r: Option<PhysAddr>)
    requires
        sys.wf(),
    ensures
        phys_view(r) == virt_to_phys_spec(*sys, v@),
{
    proof {
        sys.lemma_wf();
    }
    let va = v.as_u64();
    let span = match pmm::max_phys_address(&sys.pmm) {
        Some(s) => s,
        None => 0,
    };
    let res = if sys.hhdm <= va && va - sys.hhdm < span {
        Some(va - sys.hhdm)
    } else {
        proof {
            lemma_translate_phys(sys.tables(), sys.active_root, va);
        }
        sys.translate_in(sys.active_root, va)
    };
    match res {
        None => None,
        Some(x) => match PhysAddr::new(x) {
            Some(p) => Some(p),
            None => None,
        },
    }
}

/// Maps the page of `v` to the frame of `p` in the active hierarchy,
/// creating the missing tables on the way; an existing entry is replaced.
/// The huge flag has no meaning in a 4 KiB entry and is refused.
pub fn page_map(sys: &mut MemorySystem, v: VirtAddr, p: PhysAddr, flags: PageFlags) -> (r: Result<(), MemError>)
    requires
        old(sys).wf(),
    ensures
        final(sys).wf(),
        final(sys).same_context(old(sys)),
        final(sys).bytes() == old(sys).bytes(),
        forall|i: int| 0 <= i < old(sys).allocator().total_frames() && #[trigger] old(sys).allocator().bits()[i]
            ==> final(sys).allocator().bits()[i],
        r.is_ok() ==> leaf_entry(final(sys).tables(), old(sys).active_root(), v@) == Some(
            (p@ & ADDR_MASK) | flag_bits(flags),
        ),
        r.is_ok() ==> changes_confined(old(sys).tables(), final(sys).tables(), old(sys).allocator().bits(),
            path_slots(final(sys).tables(), old(sys).active_root(), v@)),
        r.is_ok() ==> path_owned(final(sys).tables(), final(sys).allocator().bits(), old(sys).active_root(), v@),
        r.is_ok() ==> forall|f: int| #[trigger] path_frames(final(sys).tables(), old(sys).active_root(), v@).contains(f)
            ==> linked_frames(old(sys).tables(), old(sys).active_root(), v@).contains(f) || !old(sys).allocator().bits()[f],
        r.is_err() ==> translate(final(sys).tables(), old(sys).active_root(), v@) == translate(
            old(sys).tables(),
            old(sys).active_root(),
            v@,
        ),
        old(sys).allocator().free_frames() == 0 && p1_table(old(sys).tables(), old(sys).active_root(), v@).is_none()
            ==> r.is_err(),
        forall|u: u64| same_table(u, v@) && (r.is_err() || pt_index(u, 12) != pt_index(v@, 12)) ==> #[trigger] translate(
            final(sys).tables(),
            old(sys).active_root(),
            u,
        ) == translate(old(sys).tables(), old(sys).active_root(), u),
        r.is_ok() ==> forall|i: int| 0 <= i < final(sys).allocator().total_frames() && #[trigger] final(sys).allocator().bits()[i]
            && !old(sys).allocator().bits()[i] ==> path_frames(final(sys).tables(), old(sys).active_root(), v@).contains(i),
        r.is_ok() ==> forall|k: int| 0 <= k < final(sys).tables().len() && path_frames(final(sys).tables(), old(sys).active_root(), v@).contains(k / 512)
            && !linked_frames(old(sys).tables(), old(sys).active_root(), v@).contains(k / 512) && !path_slots(
            final(sys).tables(),
            old(sys).active_root(),
            v@,
        ).contains(k) ==> #[trigger] final(sys).tables()[k] == 0,
        r.is_err() ==> r == Err::<(), MemError>(MemError::MapFailure) && {
            ||| flags.huge
            ||| !old(sys).allocator().bits()[frame_of(old(sys).active_root())]
            ||| (final(sys).allocator().free_frames() == 0 && p1_table(old(sys).tables(), old(sys).active_root(), v@).is_none())
            ||| !path_sound(old(sys).tables(), old(sys).allocator().bits(), old(sys).active_root(), v@)
        },
        !flags.huge && old(sys).allocator().bits()[frame_of(old(sys).active_root())] && (old(sys).allocator().free_frames()
            >= 3 || p1_table(old(sys).tables(), old(sys).active_root(), v@).is_some()) && path_sound(
            old(sys).tables(),
            old(sys).allocator().bits(),
            old(sys).active_root(),
            v@,
        ) ==> r.is_ok(),
{
    let root = sys.active_root;
    sys.map_in(root, v, p, flags)
}

/// Allocates a frame, zero-fills it through the direct map, then maps the
/// page of `v` to it in the active hierarchy; when mapping fails the frame
/// is given back to the allocator.
pub fn page_map_alloc(sys: &mut MemorySystem, v: VirtAddr, flags: PageFlags) -> (r: Result<PhysAddr, MemError>)
    requires
        old(sys).wf(),
    ensures
        final(sys).wf(),
        final(sys).same_context(old(sys)),
        match r {
            Ok(p) => {
                &&& first_clear(old(sys).allocator().bits()) == Some(frame_of(p@))
                &&& p@ % 4096 == 0
                &&& p@ + 4096 <= final(sys).span()
                &&& final(sys).allocator().bits()[frame_of(p@)]
                &&& leaf_entry(final(sys).tables(), old(sys).active_root(), v@) == Some(p@ | flag_bits(flags))
                &&& changes_confined(old(sys).tables(), final(sys).tables(), old(sys).allocator().bits(),
                    path_slots(final(sys).tables(), old(sys).active_root(), v@))
                &&& path_owned(final(sys).tables(), final(sys).allocator().bits(), old(sys).active_root(), v@)
                &&& (p1_table(old(sys).tables(), old(sys).active_root(), v@) matches Some(x) ==> p1_table(
                    final(sys).tables(),
                    old(sys).active_root(),
                    v@,
                ) == Some(x))
                &&& forall|i: int| 0 <= i < old(sys).allocator().total_frames() && #[trigger] old(sys).allocator().bits()[i]
                    ==> final(sys).allocator().bits()[i]
                &&& final(sys).bytes().len() == old(sys).bytes().len()
                &&& forall|q: int| 0 <= q < old(sys).bytes().len() ==> #[trigger] final(sys).bytes()[q] == if p@ <= q < p@ + 4096 {
                    0u8
                } else {
                    old(sys).bytes()[q]
                }
            },
            Err(e) => {
                &&& (e == MemError::OutOfMemory) == first_clear(old(sys).allocator().bits()).is_none()
                &&& (e == MemError::OutOfMemory || e == MemError::MapFailure)
                &&& e == MemError::OutOfMemory ==> final(sys).tables() == old(sys).tables()
                    && final(sys).allocator().bits() == old(sys).allocator().bits()
                &&& e == MemError::MapFailure ==> !final(sys).allocator().bits()[first_clear(
                    old(sys).allocator().bits(),
                ).unwrap()]
                &&& translate(final(sys).tables(), old(sys).active_root(), v@) == translate(
                    old(sys).tables(),
                    old(sys).active_root(),
                    v@,
                )
            },
        },
        !flags.huge && old(sys).allocator().bits()[frame_of(old(sys).active_root())] && (old(sys).allocator().free_frames()
            >= 4 || (old(sys).allocator().free_frames() >= 1 && p1_table(old(sys).tables(), old(sys).active_root(), v@).is_some()))
            && path_sound(old(sys).tables(), old(sys).allocator().bits(), old(sys).active_root(), v@) ==> r.is_ok(),
        r.is_ok() ==> final(sys).allocator().free_frames() + 4 >= old(sys).allocator().free_frames(),
        r.is_ok() && p1_table(old(sys).tables(), old(sys).active_root(), v@).is_some() ==> final(sys).allocator().free_frames()
            + 1 == old(sys).allocator().free_frames(),
        forall|u: u64| same_table(u, v@) && (r.is_err() || pt_index(u, 12) != pt_index(v@, 12)) ==> #[trigger] translate(
            final(sys).tables(),
            old(sys).active_root(),
            u,
        ) == translate(old(sys).tables(), old(sys).active_root(), u),
{
    let root = sys.active_root;
    match sys.map_alloc_in(root, v, flags) {
        Ok(pa) => match PhysAddr::new(pa) {
            Some(p) => Ok(p),
            None => Err(MemError::MapFailure),
        },
        Err(e) => Err(e),
    }
}

/// Removes the mapping of the page of `v` from the active hierarchy and
/// hands back the frame it mapped; the caller owns that frame.
pub fn page_unmap(sys: &mut MemorySystem, v: VirtAddr) -> (r: Result<PhysAddr, MemError>)
    requires
        old(sys).wf(),
    ensures
        final(sys).wf(),
        final(sys).same_context(old(sys)),
        final(sys).bytes() == old(sys).bytes(),
        final(sys).allocator() == old(sys).allocator(),
        match leaf_entry(old(sys).tables(), old(sys).active_root(), v@) {
            Some(e) if present(e) && !huge(e) => {
                &&& r.is_ok() && r.unwrap()@ == entry_addr(e)
                &&& final(sys).tables() == old(sys).tables().update(
                    slot(p1_table(old(sys).tables(), old(sys).active_root(), v@).unwrap() as int, pt_index(v@, 12)),
                    0,
                )
                &&& translate(final(sys).tables(), final(sys).active_root(), v@) == None::<u64>
            },
            _ => r == Err::<PhysAddr, MemError>(MemError::UnmapFailure) && final(sys).tables() == old(sys).tables(),
        },
{
    let root = sys.active_root;
    match sys.unmap_in(root, v) {
        Ok(pa) => {
            proof {
                let e = leaf_entry(old(sys).tables(), old(sys).active_root(), v@).unwrap();
                assert(e & 0x000f_ffff_ffff_f000u64 < 0x10_0000_0000_0000u64) by (bit_vector);
            }
            match PhysAddr::new(pa) {
                Some(p) => Ok(p),
                None => Err(MemError::UnmapFailure),
            }
        },
        Err(e) => Err(e),
    }
}

/// Whether `v` translates in the active hierarchy.
pub fn page_is_mapped(sys: &MemorySystem, v: VirtAddr) -> (r: bool)
    requires
        sys.wf(),
    ensures
        r == translate(sys.tables(), sys.active_root(), v@).is_some(),
{
    sys.translate_in(sys.active_root, v.as_u64()).is_some()
}

} // verus!
