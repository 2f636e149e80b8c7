//! Bootstrap of the kernel heap: a fixed virtual window, every page of it
//! backed by a fresh zero-filled frame before the window is handed to the
//! general-purpose allocator.

use vstd::prelude::*;
use crate::addr::VirtAddr;
use crate::error::MemError;
use crate::paging::{PageFlags, flag_bits, leaf_entry, lemma_entry_fields, lemma_flag_bits, lemma_translate_leaf, p1_table,
    present, pt_index, translate};
use crate::physmem::entry_of;
use crate::pmm::{first_clear, lemma_first_clear_spec};
use crate::vmm::{MemorySystem, frame_of, lemma_slot_frame, page_map_alloc, path_owned, path_slots, path_sound, slot};

verus! {

/// First address of the heap window.
pub const HEAP_START: u64 = 0xFFFF_9000_0000_0000;

/// Size in bytes of the heap window.
pub const HEAP_SIZE: usize = 0x10_0000;

/// Number of pages in the heap window.
pub const HEAP_PAGES: usize = 256;

/// Address of page `j` of the heap window.
pub open spec fn heap_page(j: int) -> u64 {
    (HEAP_START + j * 4096) as u64
}

/// Pages of the heap window share every table above the last level.
proof fn lemma_heap_indices(j: u64)
    requires
        j < 256,
    ensures
        pt_index(heap_page(j as int), 39) == pt_index(HEAP_START, 39),
        pt_index(heap_page(j as int), 30) == pt_index(HEAP_START, 30),
        pt_index(heap_page(j as int), 21) == pt_index(HEAP_START, 21),
        pt_index(heap_page(j as int), 12) == j,
        HEAP_START + j * 4096 < 0x1_0000_0000_0000_0000,
{
    let v = heap_page(j as int);
    assert(((v >> 39u64) & 0x1ffu64) == ((0xFFFF_9000_0000_0000u64 >> 39u64) & 0x1ffu64) && ((v >> 30u64) & 0x1ffu64)
        == ((0xFFFF_9000_0000_0000u64 >> 30u64) & 0x1ffu64) && ((v >> 21u64) & 0x1ffu64) == ((0xFFFF_9000_0000_0000u64
        >> 21u64) & 0x1ffu64) && ((v >> 12u64) & 0x1ffu64) == j) by (bit_vector)
        requires
            j < 256,
            v == 0xFFFF_9000_0000_0000u64 + j * 4096,
    ;
}

/// The walk to `v` ends in a present last-level entry.
pub open spec fn leaf_present(t: Seq<u64>, root: u64, v: u64) -> bool {
    match leaf_entry(t, root, v) {
        Some(e) => present(e),
        None => false,
    }
}

/// Every page `0..i` of the heap window has a present last-level entry in
/// the hierarchy at `root`.
pub open spec fn heap_backed(t: Seq<u64>, root: u64, i: int) -> bool {
    forall|j: int| 0 <= j < i ==> #[trigger] leaf_present(t, root, heap_page(j))
}

/// A path whose tables are distinct allocated frames and which reaches a
/// last-level table is sound.
proof fn lemma_owned_sound(t: Seq<u64>, bits: Seq<bool>, root: u64, v: u64)
    requires
        path_owned(t, bits, root, v),
        p1_table(t, root, v).is_some(),
    ensures
        path_sound(t, bits, root, v),
{
}

/// Backing page `i` keeps the pages before it backed.
proof fn lemma_heap_step(before: MemorySystem, after: MemorySystem, root: u64, i: int)
    requires
        0 <= i < 256,
        before.wf(),
        after.wf(),
        i > 0 ==> path_owned(before.tables(), before.allocator().bits(), root, HEAP_START),
        i > 0 ==> p1_table(before.tables(), root, HEAP_START).is_some(),
        heap_backed(before.tables(), root, i),
        leaf_present(after.tables(), root, heap_page(i)),
        crate::vmm::changes_confined(before.tables(), after.tables(), before.allocator().bits(),
            path_slots(after.tables(), root, heap_page(i))),
        path_owned(after.tables(), after.allocator().bits(), root, heap_page(i)),
        p1_table(before.tables(), root, heap_page(i)) matches Some(x) ==> p1_table(after.tables(), root, heap_page(i))
            == Some(x),
    ensures
        path_owned(after.tables(), after.allocator().bits(), root, HEAP_START),
        p1_table(after.tables(), root, HEAP_START).is_some(),
        heap_backed(after.tables(), root, i + 1),
        forall|j: int| 0 <= j < i ==> #[trigger] leaf_entry(after.tables(), root, heap_page(j)) == leaf_entry(
            before.tables(),
            root,
            heap_page(j),
        ),
{
    lemma_heap_indices(0);
    lemma_heap_indices(i as u64);
    assert(heap_page(0) == HEAP_START);
    let ta = after.tables();
    let tb = before.tables();
    assert forall|j: int| 0 <= j < i implies #[trigger] leaf_entry(ta, root, heap_page(j)) == leaf_entry(tb, root, heap_page(j)) by {
            lemma_heap_indices(j as u64);
            let t1 = p1_table(tb, root, HEAP_START).unwrap();
            assert(p1_table(tb, root, heap_page(i)) == Some(t1));
            assert(p1_table(ta, root, heap_page(j)) == Some(t1));
            let k = slot(t1 as int, j);
            lemma_slot_frame(t1, j);
            let t3 = crate::paging::entry_addr(entry_of(ta, root as int, pt_index(heap_page(i), 39)));
            let t2 = crate::paging::entry_addr(entry_of(ta, t3 as int, pt_index(heap_page(i), 30)));
            crate::paging::lemma_pt_index_bound(heap_page(i));
            lemma_slot_frame(root, pt_index(heap_page(i), 39));
            lemma_slot_frame(t3, pt_index(heap_page(i), 30));
            lemma_slot_frame(t2, pt_index(heap_page(i), 21));
            lemma_slot_frame(t1, i);
            assert(!path_slots(ta, root, heap_page(i)).contains(k));
            assert(before.allocator().bits()[k / 512]);
            before.lemma_wf();
            after.lemma_wf();
            assert(ta[k] == tb[k]);
            assert(entry_of(ta, t1 as int, j) == entry_of(tb, t1 as int, j));
            assert(leaf_present(tb, root, heap_page(j)));
            assert(leaf_entry(ta, root, heap_page(j)) == leaf_entry(tb, root, heap_page(j)));
    }
    assert forall|j: int| 0 <= j < i + 1 implies #[trigger] leaf_present(ta, root, heap_page(j)) by {
        if j < i {
            assert(leaf_entry(ta, root, heap_page(j)) == leaf_entry(tb, root, heap_page(j)));
            assert(leaf_present(tb, root, heap_page(j)));
        }
    }
}

/// Page `j` of the window is mapped with the kernel-data flags to
/// `frames[j]`: an aligned frame that was free in `before`, is allocated in
/// `after`, and reads as zero.
pub open spec fn heap_frame_ok(before: MemorySystem, after: MemorySystem, frames: Seq<u64>, j: int) -> bool {
    let f = frames[j];
    &&& leaf_entry(after.tables(), after.active_root(), heap_page(j)) == Some(f | flag_bits(PageFlags::kernel_data_spec()))
    &&& f % 4096 == 0
    &&& f + 4096 <= after.span()
    &&& !before.allocator().bits()[frame_of(f)]
    &&& after.allocator().bits()[frame_of(f)]
    &&& forall|q: int| f <= q < f + 4096 ==> #[trigger] after.bytes()[q] == 0
}

/// Pages `0..n` of the window are mapped, each to its own frame of `frames`.
#[verifier::opaque]
pub open spec fn heap_frames(before: MemorySystem, after: MemorySystem, frames: Seq<u64>, n: int) -> bool {
    &&& frames.len() == n
    &&& after.bytes().len() == before.bytes().len()
    &&& forall|j: int| 0 <= j < n ==> #[trigger] heap_frame_ok(before, after, frames, j)
    &&& forall|j1: int, j2: int| 0 <= j1 < j2 < n ==> frame_of(#[trigger] frames[j1]) != frame_of(#[trigger] frames[j2])
}

/// Backing stopped at page `k`: the pages before it translate, and page `k`
/// and every page after it translate as they did before.
pub open spec fn heap_failed_at(before: MemorySystem, after: MemorySystem, k: int) -> bool {
    &&& forall|j: int| 0 <= j < k ==> (#[trigger] translate(after.tables(), after.active_root(), heap_page(j))).is_some()
    &&& forall|j: int| k <= j < HEAP_PAGES ==> #[trigger] translate(after.tables(), after.active_root(), heap_page(j))
        == translate(before.tables(), before.active_root(), heap_page(j))
}

proof fn lemma_heap_frames_step(
    start: MemorySystem,
    before: MemorySystem,
    after: MemorySystem,
    frames: Seq<u64>,
    pa: u64,
    i: int,
)
    requires
        0 <= i < HEAP_PAGES,
        before.wf(),
        after.wf(),
        after.same_context(&before),
        heap_frames(start, before, frames, i),
        first_clear(before.allocator().bits()) == Some(frame_of(pa)),
        pa % 4096 == 0,
        pa + 4096 <= after.span(),
        after.allocator().bits()[frame_of(pa)],
        leaf_entry(after.tables(), after.active_root(), heap_page(i)) == Some(pa | flag_bits(PageFlags::kernel_data_spec())),
        forall|j: int| 0 <= j < i ==> #[trigger] leaf_entry(after.tables(), after.active_root(), heap_page(j)) == leaf_entry(
            before.tables(),
            before.active_root(),
            heap_page(j),
        ),
        forall|x: int| 0 <= x < start.allocator().total_frames() && #[trigger] start.allocator().bits()[x]
            ==> before.allocator().bits()[x],
        forall|x: int| 0 <= x < before.allocator().total_frames() && #[trigger] before.allocator().bits()[x]
            ==> after.allocator().bits()[x],
        start.allocator().total_frames() == before.allocator().total_frames(),
        after.bytes().len() == before.bytes().len(),
        forall|q: int| 0 <= q < before.bytes().len() ==> #[trigger] after.bytes()[q] == if pa <= q < pa + 4096 {
            0u8
        } else {
            before.bytes()[q]
        },
    ensures
        heap_frames(start, after, frames.push(pa), i + 1),
{
    reveal(heap_frames);
    lemma_first_clear_spec(before.allocator().bits());
    before.lemma_wf();
    after.lemma_wf();
    let nf = frames.push(pa);
    assert forall|j: int| 0 <= j < i + 1 implies #[trigger] heap_frame_ok(start, after, nf, j) by {
        if j < i {
            assert(heap_frame_ok(start, before, frames, j));
            let f = frames[j];
            assert(before.allocator().bits()[frame_of(f)]);
            assert(frame_of(f) != frame_of(pa));
            assert forall|q: int| f <= q < f + 4096 implies #[trigger] after.bytes()[q] == 0 by {
                assert(!(pa <= q < pa + 4096));
                assert(before.bytes()[q] == 0);
            }
        } else {
            assert(!before.allocator().bits()[frame_of(pa)]);
        }
    }
    assert forall|j1: int, j2: int| 0 <= j1 < j2 < i + 1 implies frame_of(#[trigger] nf[j1]) != frame_of(#[trigger] nf[j2]) by {
        if j2 == i {
            assert(heap_frame_ok(start, before, frames, j1));
            assert(before.allocator().bits()[frame_of(frames[j1])]);
        }
    }
}

/// Backs every page of the heap window in the active hierarchy with a
/// fresh frame; on success returns the window's start and size, to be
/// handed to the general-purpose allocator. Stops at the first page that
/// cannot be backed and reports why.
#[verifier::rlimit(100)]
pub fn install(sys: &mut MemorySystem) -> (r: Result<(u64, usize), MemError>)
    requires
        old(sys).wf(),
    ensures
        final(sys).wf(),
        final(sys).same_context(old(sys)),
        r.is_ok() ==> r == Ok::<(u64, usize), MemError>((HEAP_START, HEAP_SIZE)),
        r.is_ok() ==> exists|frames: Seq<u64>| #[trigger] heap_frames(*old(sys), *final(sys), frames, HEAP_PAGES as int),
        r.is_ok() ==> forall|j: int| 0 <= j < HEAP_PAGES ==> (#[trigger] translate(
            final(sys).tables(),
            final(sys).active_root(),
            heap_page(j),
        )).is_some(),
        r matches Err(e) ==> e == MemError::MapFailure || (e == MemError::OutOfMemory && first_clear(
            final(sys).allocator().bits(),
        ).is_none()),
        r.is_err() ==> exists|k: int| 0 <= k < HEAP_PAGES && #[trigger] heap_failed_at(*old(sys), *final(sys), k),
        old(sys).allocator().bits()[frame_of(old(sys).active_root())] && old(sys).allocator().free_frames() >= HEAP_PAGES
            + 3 && path_sound(old(sys).tables(), old(sys).allocator().bits(), old(sys).active_root(), HEAP_START)
            ==> r.is_ok(),
{
    let flags = PageFlags::kernel_data();
    let heap_pages = (HEAP_SIZE + 4095) / 4096;
    let ghost root = old(sys).active_root();
    let ghost owed = old(sys).allocator().bits()[frame_of(root)] && old(sys).allocator().free_frames() >= HEAP_PAGES + 3
        && path_sound(old(sys).tables(), old(sys).allocator().bits(), root, HEAP_START);
    let ghost mut frames: Seq<u64> = Seq::empty();
    proof {
        lemma_heap_indices(0);
        assert(heap_page(0) == HEAP_START);
        sys.lemma_wf();
        reveal(heap_frames);
    }
    let mut i: usize = 0;
    while i < heap_pages
        invariant
            heap_pages == HEAP_PAGES,
            i <= heap_pages,
            sys.wf(),
            old(sys).wf(),
            sys.same_context(old(sys)),
            root == sys.active_root(),
            root == old(sys).active_root(),
            flags == PageFlags::kernel_data_spec(),
            i > 0 ==> path_owned(sys.tables(), sys.allocator().bits(), root, HEAP_START),
            i > 0 ==> p1_table(sys.tables(), root, HEAP_START).is_some(),
            heap_backed(sys.tables(), root, i as int),
            heap_frames(*old(sys), *sys, frames, i as int),
            forall|x: int| 0 <= x < old(sys).allocator().total_frames() && #[trigger] old(sys).allocator().bits()[x]
                ==> sys.allocator().bits()[x],
            forall|j: int| i <= j < HEAP_PAGES ==> #[trigger] translate(sys.tables(), root, heap_page(j)) == translate(
                old(sys).tables(),
                root,
                heap_page(j),
            ),
            i == 0 ==> *sys == *old(sys),
            owed == (old(sys).allocator().bits()[frame_of(root)] && old(sys).allocator().free_frames() >= HEAP_PAGES + 3
                && path_sound(old(sys).tables(), old(sys).allocator().bits(), root, HEAP_START)),
            owed && i > 0 ==> sys.allocator().free_frames() + i >= HEAP_PAGES && sys.allocator().bits()[frame_of(root)],
        decreases heap_pages - i,
    {
        proof {
            lemma_heap_indices(i as u64);
        }
        let addr = HEAP_START + (i as u64) * 4096;
        let v = match VirtAddr::new(addr) {
            Some(v) => v,
            None => {
                return Err(MemError::MapFailure);
            },
        };
        let ghost before = *sys;
        proof {
            assert(v@ == heap_page(i as int));
            if owed && i > 0 {
                lemma_owned_sound(before.tables(), before.allocator().bits(), root, HEAP_START);
                before.lemma_wf();
                crate::paging::lemma_pt_index_bound(HEAP_START);
                assert(p1_table(before.tables(), root, v@) == p1_table(before.tables(), root, HEAP_START));
                assert(path_sound(before.tables(), before.allocator().bits(), root, v@));
                assert(before.allocator().free_frames() >= 1);
            }
            if owed && i == 0 {
                assert(path_sound(before.tables(), before.allocator().bits(), root, v@));
                assert(before.allocator().free_frames() >= 4);
            }
            assert(!flags.huge);
        }
        match page_map_alloc(sys, v, flags) {
            Ok(p) => {
                proof {
                    lemma_flag_bits(flags);
                    sys.lemma_wf();
                    let pa = p@;
                    assert(pa < 0x10_0000_0000_0000);
                    assert(pa & !0x000f_ffff_ffff_f000u64 == 0) by (bit_vector)
                        requires
                            pa % 4096 == 0,
                            pa < 0x10_0000_0000_0000,
                    ;
                    lemma_entry_fields(pa, flag_bits(flags));
                    lemma_heap_step(before, *sys, root, i as int);
                    lemma_first_clear_spec(before.allocator().bits());
                    before.lemma_wf();
                    let nf = frames.push(pa);
                    lemma_heap_frames_step(*old(sys), before, *sys, frames, pa, i as int);
                    frames = nf;
                    assert forall|j: int| i + 1 <= j < HEAP_PAGES implies #[trigger] translate(sys.tables(), root, heap_page(j))
                        == translate(old(sys).tables(), root, heap_page(j)) by {
                        lemma_heap_indices(j as u64);
                        assert(translate(sys.tables(), root, heap_page(j)) == translate(before.tables(), root, heap_page(j)));
                    }
                }
            },
            Err(e) => {
                proof {
                    assert forall|j: int| 0 <= j < HEAP_PAGES implies #[trigger] translate(sys.tables(), root, heap_page(j))
                        == translate(before.tables(), root, heap_page(j)) by {
                        lemma_heap_indices(j as u64);
                    }
                    assert forall|j: int| 0 <= j < i implies (#[trigger] translate(sys.tables(), root, heap_page(j))).is_some() by {
                        assert(leaf_present(before.tables(), root, heap_page(j)));
                        lemma_translate_leaf(before.tables(), root, heap_page(j));
                    }
                    assert(heap_failed_at(*old(sys), *sys, i as int));
                }
                return Err(e);
            },
        }
        i = i + 1;
    }
    proof {
        assert forall|j: int| 0 <= j < HEAP_PAGES implies (#[trigger] translate(
            sys.tables(),
            sys.active_root(),
            heap_page(j),
        )).is_some() by {
            assert(leaf_present(sys.tables(), root, heap_page(j)));
            lemma_translate_leaf(sys.tables(), root, heap_page(j));
        }
        assert(heap_frames(*old(sys), *sys, frames, HEAP_PAGES as int));
    }
    Ok((HEAP_START, HEAP_SIZE))
}

} // verus!
