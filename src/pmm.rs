//! Physical frame allocator: one bit per frame, set while the frame is in use.

use vstd::prelude::*;
use crate::addr::PAGE_SIZE;
use crate::count::{count_where, lemma_count_bound, lemma_count_flip, lemma_count_ext, lemma_count_interval, lemma_count_none, lemma_count_split};
use crate::error::MemError;

verus! {

/// Frames that the allocator can track: physical addresses have 52 bits.
pub const MAX_FRAMES: u64 = 0x100_0000_0000;

/// Highest physical address that the allocator accepts in a memory map.
pub const PHYS_LIMIT: u64 = 0x10_0000_0000_0000;

/// What firmware says a region of physical memory holds.
#[derive(Clone, Copy, Debug, PartialEq, Eq, Structural)]
pub enum RegionKind {
    Usable,
    Reserved,
    AcpiReclaimable,
    AcpiNvs,
    BadMemory,
    BootloaderReclaimable,
    KernelAndModules,
    Framebuffer,
}

/// One entry of the firmware memory map.
#[derive(Clone, Copy, Debug, PartialEq, Eq, Structural)]
pub struct MemoryRegion {
    pub base: u64,
    pub length: u64,
    pub kind: RegionKind,
}

pub open spec fn region_end(r: MemoryRegion) -> int {
    r.base + r.length
}

/// Every region ends below the physical address limit.
pub open spec fn valid_map(map: Seq<MemoryRegion>) -> bool {
    forall|j: int| 0 <= j < map.len() ==> region_end(#[trigger] map[j]) <= PHYS_LIMIT
}

/// Frame `i` lies wholly inside the usable region `r`.
pub open spec fn covers(r: MemoryRegion, i: int) -> bool {
    &&& r.kind == RegionKind::Usable
    &&& (r.base + 4095) / 4096 <= i
    &&& i < (r.base + r.length) / 4096
}

/// Frame `i` lies wholly inside one of the first `k` usable regions.
pub open spec fn covered(map: Seq<MemoryRegion>, k: int, i: int) -> bool
    decreases k,
{
    if k <= 0 {
        false
    } else {
        covered(map, k - 1, i) || covers(map[k - 1], i)
    }
}

/// Highest end address among the first `k` regions.
pub open spec fn highest(map: Seq<MemoryRegion>, k: int) -> int
    decreases k,
{
    if k <= 0 {
        0
    } else {
        let e = region_end(map[k - 1]);
        let h = highest(map, k - 1);
        if e > h {
            e
        } else {
            h
        }
    }
}

/// Frames needed to cover every region of the map.
pub open spec fn frames_for(map: Seq<MemoryRegion>) -> int {
    (highest(map, map.len() as int) + 4095) / 4096
}

/// Bytes of the bitmap for the map: one bit per frame.
pub open spec fn bitmap_bytes(map: Seq<MemoryRegion>) -> int {
    (frames_for(map) + 7) / 8
}

/// Index of the first usable region from `k` on that holds `size` bytes.
pub open spec fn host_from(map: Seq<MemoryRegion>, size: int, k: int) -> Option<int>
    decreases map.len() - k,
{
    if k < 0 || k >= map.len() {
        None
    } else if map[k].kind == RegionKind::Usable && map[k].length >= size {
        Some(k)
    } else {
        host_from(map, size, k + 1)
    }
}

/// The region that holds the bitmap: the first usable one large enough.
pub open spec fn bitmap_host(map: Seq<MemoryRegion>) -> Option<int> {
    host_from(map, bitmap_bytes(map), 0)
}

/// Frame `i` holds part of a bitmap of `size` bytes kept at `base`.
pub open spec fn backs_bitmap(base: int, size: int, i: int) -> bool {
    base / 4096 <= i < (base + size + 4095) / 4096
}

/// Frame `i` is free right after installation from `map`.
pub open spec fn initially_free(map: Seq<MemoryRegion>, i: int) -> bool {
    covered(map, map.len() as int, i) && !backs_bitmap(
        map[bitmap_host(map).unwrap()].base as int,
        bitmap_bytes(map),
        i,
    )
}

proof fn lemma_highest(map: Seq<MemoryRegion>, k: int)
    requires
        0 <= k <= map.len(),
        valid_map(map),
    ensures
        0 <= highest(map, k) <= PHYS_LIMIT,
        forall|j: int| 0 <= j < k ==> region_end(#[trigger] map[j]) <= highest(map, k),
    decreases k,
{
    if k > 0 {
        lemma_highest(map, k - 1);
    }
}

proof fn lemma_host_from(map: Seq<MemoryRegion>, size: int, k: int)
    requires
        0 <= k,
    ensures
        host_from(map, size, k) matches Some(h) ==> k <= h < map.len() && map[h].kind == RegionKind::Usable
            && map[h].length >= size,
    decreases map.len() - k,
{
    if k < map.len() {
        lemma_host_from(map, size, k + 1);
    }
}

/// Bit `k` of the byte `b`.
pub open spec fn bit_at(b: u8, k: u8) -> bool {
    (b >> k) & 1u8 == 1u8
}

/// Number of frames that are clear (free) in `bits`.
pub open spec fn free_count(bits: Seq<bool>) -> nat {
    count_where(bits.len() as int, |i: int| !bits[i])
}

/// Index of the lowest clear bit, if any.
#[verifier::opaque]
pub open spec fn first_clear(bits: Seq<bool>) -> Option<int> {
    if exists|i: int| 0 <= i < bits.len() && !bits[i] {
        Some(choose|i: int| 0 <= i < bits.len() && !bits[i] && forall|j: int| 0 <= j < i ==> bits[j])
    } else {
        None
    }
}

proof fn lemma_set_bit(b: u8, k: u8)
    requires
        k < 8,
    ensures
        forall|j: u8| j < 8 ==> #[trigger] bit_at(b | (1u8 << k), j) == (j == k || bit_at(b, j)),
{
    assert(forall|j: u8| j < 8 ==> (#[trigger] ((b | (1u8 << k)) >> j) & 1u8 == 1u8 <==> (j == k || (b >> j) & 1u8 == 1u8))) by (bit_vector)
        requires
            k < 8,
    ;
}

proof fn lemma_clear_bit(b: u8, k: u8)
    requires
        k < 8,
    ensures
        forall|j: u8| j < 8 ==> #[trigger] bit_at(b & !(1u8 << k), j) == (j != k && bit_at(b, j)),
{
    assert(forall|j: u8| j < 8 ==> (#[trigger] ((b & !(1u8 << k)) >> j) & 1u8 == 1u8 <==> (j != k && (b >> j) & 1u8 == 1u8))) by (bit_vector)
        requires
            k < 8,
    ;
}

proof fn lemma_full_byte()
    ensures
        forall|j: u8| j < 8 ==> #[trigger] bit_at(0xffu8, j),
{
    assert(forall|j: u8| j < 8 ==> #[trigger] (0xffu8 >> j) & 1u8 == 1u8) by (bit_vector);
}

/// What the lowest clear bit is.
pub proof fn lemma_first_clear_spec(bits: Seq<bool>)
    ensures
        match first_clear(bits) {
            None => forall|j: int| 0 <= j < bits.len() ==> #[trigger] bits[j],
            Some(i) => 0 <= i < bits.len() && !bits[i] && forall|j: int| 0 <= j < i ==> #[trigger] bits[j],
        },
{
    reveal(first_clear);
    if exists|i: int| 0 <= i < bits.len() && !bits[i] {
        let i = choose|i: int| 0 <= i < bits.len() && !bits[i];
        lemma_lowest_clear_exists(bits, i);
    }
}

proof fn lemma_lowest_clear_exists(bits: Seq<bool>, i: int)
    requires
        0 <= i < bits.len(),
        !bits[i],
    ensures
        exists|m: int| 0 <= m < bits.len() && !bits[m] && forall|j: int| 0 <= j < m ==> bits[j],
    decreases i,
{
    if exists|j: int| 0 <= j < i && !bits[j] {
        let j = choose|j: int| 0 <= j < i && !bits[j];
        lemma_lowest_clear_exists(bits, j);
    } else {
        assert(0 <= i < bits.len() && !bits[i] && forall|j: int| 0 <= j < i ==> bits[j]);
    }
}

proof fn lemma_empty_byte()
    ensures
        forall|j: u8| j < 8 ==> !#[trigger] bit_at(0u8, j),
{
    assert(forall|j: u8| j < 8 ==> #[trigger] (0u8 >> j) & 1u8 != 1u8) by (bit_vector);
}

proof fn lemma_not_byte()
    ensures
        forall|b: u8, j: u8| j < 8 ==> #[trigger] bit_at(!b, j) == !bit_at(b, j),
{
    assert(forall|b: u8, j: u8| j < 8 ==> (#[trigger] ((!b) >> j) & 1u8 == 1u8 <==> !((b >> j) & 1u8 == 1u8))) by (bit_vector);
}

/// Every set of bits has a lowest clear bit when some bit is clear.
proof fn lemma_first_clear(bits: Seq<bool>, i: int)
    requires
        0 <= i < bits.len(),
        !bits[i],
        forall|j: int| 0 <= j < i ==> bits[j],
    ensures
        first_clear(bits) == Some(i),
{
    reveal(first_clear);
    let c = choose|c: int| 0 <= c < bits.len() && !bits[c] && forall|j: int| 0 <= j < c ==> bits[j];
    assert(0 <= i < bits.len() && !bits[i] && forall|j: int| 0 <= j < i ==> bits[j]);
    assert(c == i) by {
        if c < i {
            assert(bits[c]);
        } else if c > i {
            assert(bits[i]);
        }
    }
}

/// The bitmap frame allocator.
pub struct BitmapAllocator {
    bitmap: Vec<u8>,
    bitmap_base: u64,
    total_pages: usize,
    usable_pages: usize,
    free_pages: usize,
    usable_map: Vec<u8>,
    usable: Ghost<Seq<bool>>,
}

impl BitmapAllocator {
    /// One entry per tracked frame: `true` while the frame is allocated.
    pub closed spec fn bits(&self) -> Seq<bool> {
        Seq::new(self.total_pages as nat, |i: int| bit_at(self.bitmap@[i / 8], (i % 8) as u8))
    }

    /// One entry per tracked frame: `true` for the frames handed to the
    /// allocator as usable when it was installed.
    pub closed spec fn usable_set(&self) -> Seq<bool> {
        self.usable@
    }

    pub closed spec fn total_frames(&self) -> nat {
        self.total_pages as nat
    }

    pub closed spec fn usable_frames(&self) -> nat {
        self.usable_pages as nat
    }

    pub closed spec fn free_frames(&self) -> nat {
        self.free_pages as nat
    }

    /// Physical address at which the bitmap itself is kept.
    pub closed spec fn bitmap_base(&self) -> u64 {
        self.bitmap_base
    }

    pub closed spec fn wf(&self) -> bool {
        &&& self.total_pages <= MAX_FRAMES
        &&& self.bitmap@.len() == (self.total_pages + 7) / 8
        &&& self.free_pages == free_count(self.bits())
        &&& self.usable@.len() == self.total_pages
        &&& self.usable_pages == count_where(self.total_pages as int, |i: int| self.usable@[i])
        &&& self.usable_map@.len() == self.bitmap@.len()
        &&& forall|i: int| 0 <= i < self.total_pages ==> #[trigger] self.usable@[i] == bit_at(
            self.usable_map@[i / 8],
            (i % 8) as u8,
        )
    }

    /// Every clear bit lies in a usable frame.
    pub open spec fn balanced(&self) -> bool {
        forall|i: int| 0 <= i < self.total_frames() && !#[trigger] self.bits()[i] ==> self.usable_set()[i]
    }

    /// Number of usable frames that are allocated.
    pub open spec fn allocated_frames(&self) -> nat {
        count_where(self.total_frames() as int, |i: int| self.usable_set()[i] && self.bits()[i])
    }

    proof fn lemma_bits_len(&self)
        requires
            self.wf(),
        ensures
            self.bits().len() == self.total_pages,
            self.free_pages <= self.total_pages,
    {
        lemma_count_bound(self.total_pages as int, |i: int| !self.bits()[i]);
    }

    fn test_bit(&self, bit: usize) -> (r: bool)
        requires
            self.wf(),
            bit < self.total_pages,
        ensures
            r == self.bits()[bit as int],
    {
        let byte = self.bitmap[bit / 8];
        let k = (bit % 8) as u8;
        (byte >> k) & 1u8 == 1u8
    }

    fn set_bit(&mut self, bit: usize)
        requires
            old(self).wf(),
            bit < old(self).total_pages,
            !old(self).bits()[bit as int],
        ensures
            final(self).wf(),
            final(self).bits() == old(self).bits().update(bit as int, true),
            final(self).free_pages == old(self).free_pages - 1,
            final(self).total_pages == old(self).total_pages,
            final(self).usable_pages == old(self).usable_pages,
            final(self).usable == old(self).usable,
            final(self).bitmap_base == old(self).bitmap_base,
    {
        let ghost old_bits = self.bits();
        let idx = bit / 8;
        let k = (bit % 8) as u8;
        let byte = self.bitmap[idx];
        self.bitmap.set(idx, byte | (1u8 << k));
        proof {
            lemma_set_bit(byte, k);
            assert forall|j: int| 0 <= j < self.total_pages implies #[trigger] self.bits()[j] == old_bits.update(bit as int, true)[j] by {
                if j / 8 == idx as int {
                    assert(bit_at(byte | (1u8 << k), (j % 8) as u8) == ((j % 8) as u8 == k || bit_at(byte, (j % 8) as u8)));
                }
            }
            assert(self.bits() =~= old_bits.update(bit as int, true));
            lemma_count_flip(self.total_pages as int, |i: int| !old_bits[i], |i: int| !self.bits()[i], bit as int);
        }
        self.free_pages = self.free_pages - 1;
    }

    fn clear_bit(&mut self, bit: usize)
        requires
            old(self).wf(),
            bit < old(self).total_pages,
            old(self).bits()[bit as int],
        ensures
            final(self).wf(),
            final(self).bits() == old(self).bits().update(bit as int, false),
            final(self).free_pages == old(self).free_pages + 1,
            final(self).total_pages == old(self).total_pages,
            final(self).usable_pages == old(self).usable_pages,
            final(self).usable == old(self).usable,
            final(self).bitmap_base == old(self).bitmap_base,
    {
        let ghost old_bits = self.bits();
        let idx = bit / 8;
        let k = (bit % 8) as u8;
        let byte = self.bitmap[idx];
        self.bitmap.set(idx, byte & !(1u8 << k));
        proof {
            lemma_clear_bit(byte, k);
            assert forall|j: int| 0 <= j < self.total_pages implies #[trigger] self.bits()[j] == old_bits.update(bit as int, false)[j] by {
                if j / 8 == idx as int {
                    assert(bit_at(byte & !(1u8 << k), (j % 8) as u8) == ((j % 8) as u8 != k && bit_at(byte, (j % 8) as u8)));
                }
            }
            assert(self.bits() =~= old_bits.update(bit as int, false));
            lemma_count_flip(self.total_pages as int, |i: int| !self.bits()[i], |i: int| !old_bits[i], bit as int);
            lemma_count_bound(self.total_pages as int, |i: int| !self.bits()[i]);
        }
        self.free_pages = self.free_pages + 1;
    }
}

impl BitmapAllocator {
    /// First-fit: takes the lowest free frame, or reports that none is left.
    fn alloc_page(&mut self) -> (r: Option<u64>)
        requires
            old(self).wf(),
        ensures
            final(self).wf(),
            final(self).total_frames() == old(self).total_frames(),
            final(self).usable_frames() == old(self).usable_frames(),
            final(self).usable_set() == old(self).usable_set(),
            final(self).bitmap_base() == old(self).bitmap_base(),
            match first_clear(old(self).bits()) {
                None => r.is_none() && final(self).bits() == old(self).bits()
                    && final(self).free_frames() == old(self).free_frames() && *final(self) == *old(self),
                Some(i) => r == Some((i * PAGE_SIZE) as u64)
                    && final(self).bits() == old(self).bits().update(i, true)
                    && final(self).free_frames() == old(self).free_frames() - 1,
            },
    {
        proof {
            self.lemma_bits_len();
        }
        let mut i: usize = 0;
        while i < self.total_pages
            invariant
                *self == *old(self),
                self.wf(),
                i <= self.total_pages,
                forall|j: int| 0 <= j < i ==> self.bits()[j],
            decreases self.total_pages - i,
        {
            if !self.test_bit(i) {
                proof {
                    lemma_first_clear(self.bits(), i as int);
                }
                self.set_bit(i);
                return Some(i as u64 * PAGE_SIZE);
            }
            i = i + 1;
        }
        proof {
            reveal(first_clear);
        }
        None
    }

    /// Clears the bit of the frame holding `addr`, if that frame is tracked
    /// and allocated.
    fn free_page(&mut self, addr: u64)
        requires
            old(self).wf(),
        ensures
            final(self).wf(),
            final(self).total_frames() == old(self).total_frames(),
            final(self).usable_frames() == old(self).usable_frames(),
            final(self).usable_set() == old(self).usable_set(),
            final(self).bitmap_base() == old(self).bitmap_base(),
            ({
                let page = addr as int / PAGE_SIZE as int;
                if page < old(self).total_frames() && old(self).usable_set()[page] && old(self).bits()[page] {
                    final(self).bits() == old(self).bits().update(page, false)
                        && final(self).free_frames() == old(self).free_frames() + 1
                } else {
                    *final(self) == *old(self)
                }
            }),
    {
        let page = addr / PAGE_SIZE;
        if page < self.total_pages as u64 && self.is_usable(page as usize) && self.test_bit(page as usize) {
            self.clear_bit(page as usize);
        }
    }

    /// Whether the frame with index `frame` was usable at installation.
    pub fn is_usable(&self, frame: usize) -> (r: bool)
        requires
            self.wf(),
            frame < self.total_frames(),
        ensures
            r == self.usable_set()[frame as int],
    {
        let byte = self.usable_map[frame / 8];
        let k = (frame % 8) as u8;
        (byte >> k) & 1u8 == 1u8
    }

    /// Under balance, allocated and free usable frames add up to the usable ones.
    proof fn lemma_balance(&self)
        requires
            self.wf(),
            self.balanced(),
        ensures
            self.allocated_frames() + self.free_frames() == self.usable_frames(),
    {
        let n = self.total_pages as int;
        let bits = self.bits();
        let u = self.usable@;
        lemma_count_split(n, |i: int| u[i], |i: int| u[i] && bits[i], |i: int| u[i] && !bits[i]);
        assert forall|j: int| 0 <= j < n implies (!#[trigger] bits[j]) == (u[j] && !bits[j]) by {
            if !bits[j] {
                assert(self.usable_set()[j]);
            }
        }
        lemma_count_ext(n, |i: int| !bits[i], |i: int| u[i] && !bits[i]);
    }
}

/// The free counter always equals the number of clear bits; and while every
/// clear bit lies in a usable frame, the allocated usable frames and the free
/// frames together make up exactly the usable frames.
pub proof fn lemma_frame_accounting(a: BitmapAllocator)
    requires
        a.wf(),
    ensures
        a.free_frames() == free_count(a.bits()),
        a.balanced() ==> a.allocated_frames() + a.free_frames() == a.usable_frames(),
{
    if a.balanced() {
        a.lemma_balance();
    }
}

/// The frame that first-fit hands out was free, and a frame that is held
/// (its bit set, as it stays until it is freed) is never handed out.
pub proof fn lemma_alloc_fresh(bits: Seq<bool>)
    ensures
        first_clear(bits) matches Some(i) ==> !bits[i] && first_clear(bits.update(i, true)) != Some(i),
        forall|i: int| 0 <= i < bits.len() && #[trigger] bits[i] ==> first_clear(bits) != Some(i),
{
    lemma_first_clear_spec(bits);
    if let Some(i) = first_clear(bits) {
        lemma_first_clear_spec(bits.update(i, true));
    }
}

/// A clear bit is a free frame.
pub proof fn lemma_clear_is_free(a: BitmapAllocator, i: int)
    requires
        a.wf(),
        0 <= i < a.total_frames(),
        !a.bits()[i],
    ensures
        a.free_frames() >= 1,
{
    let b = a.bits();
    a.lemma_bits_len();
    lemma_count_flip(b.len() as int, |j: int| !b[j], |j: int| !b.update(i, true)[j], i);
}

/// First-fit finds a frame exactly while the free counter is positive: from
/// any state, exactly `free_frames()` successive allocations succeed, each
/// lowering the counter by one, and the next one finds nothing.
pub proof fn lemma_alloc_succeeds_iff_free(a: BitmapAllocator)
    requires
        a.wf(),
    ensures
        first_clear(a.bits()).is_some() <==> a.free_frames() > 0,
{
    lemma_first_clear_spec(a.bits());
    a.lemma_bits_len();
    if let Some(i) = first_clear(a.bits()) {
        lemma_clear_is_free(a, i);
    } else {
        lemma_count_none(a.total_frames() as int, |j: int| !a.bits()[j]);
    }
}

proof fn lemma_highest_at_most(map: Seq<MemoryRegion>, k: int, x: int)
    requires
        0 <= k <= map.len(),
        x >= 0,
        forall|j: int| 0 <= j < k ==> region_end(#[trigger] map[j]) <= x,
    ensures
        highest(map, k) <= x,
    decreases k,
{
    if k > 0 {
        lemma_highest_at_most(map, k - 1, x);
    }
}

proof fn lemma_only_region(map: Seq<MemoryRegion>, h: int, k: int, i: int, size: int)
    requires
        0 <= h < map.len(),
        0 <= k <= map.len(),
        forall|j: int| 0 <= j < map.len() && j != h ==> (#[trigger] map[j]).kind != RegionKind::Usable,
    ensures
        covered(map, k, i) == (h < k && covers(map[h], i)),
    decreases k,
{
    if k > 0 {
        lemma_only_region(map, h, k - 1, i, size);
    }
}

proof fn lemma_only_host(map: Seq<MemoryRegion>, h: int, k: int, size: int)
    requires
        0 <= k <= h < map.len(),
        map[h].kind == RegionKind::Usable,
        map[h].length >= size,
        forall|j: int| 0 <= j < map.len() && j != h ==> (#[trigger] map[j]).kind != RegionKind::Usable,
    ensures
        host_from(map, size, k) == Some(h),
    decreases h - k,
{
    if k < h {
        lemma_only_host(map, h, k + 1, size);
    }
}

/// One usable region of 4 MiB (1024 frames) at a frame-aligned base, with
/// nothing reaching past it: the allocator installed from it holds
/// `1024 - k` usable frames, all of them free, where `k` frames hold the
/// bitmap; by the allocation law, exactly that many allocations succeed.
pub proof fn lemma_single_region(map: Seq<MemoryRegion>, h: int, a: BitmapAllocator)
    requires
        valid_map(map),
        0 <= h < map.len(),
        map[h].kind == RegionKind::Usable,
        map[h].length == 0x40_0000,
        map[h].base % 4096 == 0,
        forall|j: int| 0 <= j < map.len() && j != h ==> (#[trigger] map[j]).kind != RegionKind::Usable,
        forall|j: int| 0 <= j < map.len() ==> region_end(#[trigger] map[j]) <= map[h].base + 0x40_0000,
        bitmap_bytes(map) <= 0x40_0000,
        a.wf(),
        a.total_frames() == frames_for(map),
        forall|i: int| 0 <= i < a.total_frames() ==> #[trigger] a.bits()[i] == !initially_free(map, i),
        a.usable_frames() == a.free_frames(),
    ensures
        a.free_frames() == 1024 - (bitmap_bytes(map) + 4095) / 4096,
        a.usable_frames() == a.free_frames(),
{
    let b = map[h].base as int;
    let size = bitmap_bytes(map);
    lemma_only_host(map, h, 0, size);
    lemma_highest(map, map.len() as int);
    lemma_highest_at_most(map, map.len() as int, b + 0x40_0000);
    assert(highest(map, map.len() as int) == b + 0x40_0000);
    let base_frame = b / 4096;
    let kf = (size + 4095) / 4096;
    assert(a.total_frames() == base_frame + 1024);
    assert((b + size + 4095) / 4096 == base_frame + kf);
    assert forall|i: int| 0 <= i < a.total_frames() implies (!#[trigger] a.bits()[i]) == (base_frame + kf <= i < base_frame + 1024) by {
        lemma_only_region(map, h, map.len() as int, i, size);
    }
    a.lemma_bits_len();
    lemma_count_interval(
        a.total_frames() as int,
        base_frame + kf,
        base_frame + 1024,
        |i: int| !a.bits()[i],
    );
}

/// The bits after `n` successive first-fit allocations from `b`.
pub open spec fn fit_run(b: Seq<bool>, n: nat) -> Seq<bool>
    decreases n,
{
    if n == 0 {
        b
    } else {
        let prev = fit_run(b, (n - 1) as nat);
        match first_clear(prev) {
            Some(i) => prev.update(i, true),
            None => prev,
        }
    }
}

proof fn lemma_free_count_first_clear(b: Seq<bool>)
    ensures
        first_clear(b).is_some() <==> free_count(b) > 0,
        first_clear(b) matches Some(i) ==> free_count(b.update(i, true)) + 1 == free_count(b),
{
    lemma_first_clear_spec(b);
    if let Some(i) = first_clear(b) {
        lemma_count_flip(b.len() as int, |j: int| !b[j], |j: int| !b.update(i, true)[j], i);
        assert(b.update(i, true).len() == b.len());
    } else {
        lemma_count_none(b.len() as int, |j: int| !b[j]);
    }
}

/// Successive first-fit allocations: from bits with `f` free frames,
/// allocation number `n` (counting from zero) succeeds exactly when `n < f`,
/// the frames come out in strictly ascending order, and each run leaves
/// `f - n` frames free.
pub proof fn lemma_fit_run(b: Seq<bool>, n: nat)
    ensures
        fit_run(b, n).len() == b.len(),
        n <= free_count(b) ==> free_count(fit_run(b, n)) == free_count(b) - n,
        first_clear(fit_run(b, n)).is_some() <==> n < free_count(b),
        n + 1 < free_count(b) ==> first_clear(fit_run(b, n)).unwrap() < first_clear(fit_run(b, (n + 1) as nat)).unwrap(),
    decreases n,
{
    reveal_with_fuel(fit_run, 2);
    if n > 0 {
        lemma_fit_run(b, (n - 1) as nat);
        lemma_first_clear_spec(fit_run(b, (n - 1) as nat));
        lemma_free_count_first_clear(fit_run(b, (n - 1) as nat));
    }
    let cur = fit_run(b, n);
    assert(cur.len() == b.len());
    lemma_free_count_first_clear(cur);
    if n >= free_count(b) {
        if n > 0 {
            let prev = fit_run(b, (n - 1) as nat);
            lemma_free_count_first_clear(prev);
        }
    }
    if n + 1 < free_count(b) {
        let i = first_clear(cur).unwrap();
        let next = fit_run(b, (n + 1) as nat);
        assert(next == cur.update(i, true));
        lemma_first_clear_spec(cur);
        lemma_free_count_first_clear(next);
        lemma_first_clear_spec(next);
        let k = first_clear(next).unwrap();
        if k <= i {
            if k < i {
                assert(cur[k]);
            }
            assert(next[k]);
        }
    }
}

/// Builds the allocator from the firmware memory map.
///
/// Every frame starts allocated; the frames lying wholly inside usable
/// regions are then freed; last, the frames that back the bitmap itself are
/// taken again. Returns `None` when no usable region can hold the bitmap.
pub fn install(map: &Vec<MemoryRegion>) -> (r: Option<BitmapAllocator>)
    requires
        valid_map(map@),
        frames_for(map@) + 8 <= usize::MAX,
    ensures
        r.is_some() == bitmap_host(map@).is_some(),
        r matches Some(a) ==> {
            &&& a.wf()
            &&& a.balanced()
            &&& a.total_frames() == frames_for(map@)
            &&& a.bitmap_base() == map@[bitmap_host(map@).unwrap()].base
            &&& forall|i: int| 0 <= i < a.total_frames() ==> #[trigger] a.bits()[i] == !initially_free(map@, i)
            &&& a.usable_frames() == a.free_frames()
            &&& forall|i: int| 0 <= i < a.total_frames() ==> #[trigger] a.usable_set()[i] == !a.bits()[i]
        },
{
    let n = map.len();
    let mut highest_addr: u64 = 0;
    let mut k: usize = 0;
    while k < n
        invariant
            n == map@.len(),
            k <= n,
            valid_map(map@),
            highest_addr == highest(map@, k as int),
        decreases n - k,
    {
        proof {
            lemma_highest(map@, k as int);
        }
        let end = map[k].base + map[k].length;
        if end > highest_addr {
            highest_addr = end;
        }
        k = k + 1;
    }
    proof {
        lemma_highest(map@, n as int);
    }
    assert(highest_addr == highest(map@, map@.len() as int));
    let total_pages = ((highest_addr + 4095) / 4096) as usize;
    let bitmap_size = (total_pages + 7) / 8;
    assert(bitmap_size == bitmap_bytes(map@));

    let mut host: Option<u64> = None;
    let mut k: usize = 0;
    while k < n && host.is_none()
        invariant
            n == map@.len(),
            k <= n,
            bitmap_size == bitmap_bytes(map@),
            host.is_none() ==> bitmap_host(map@) == host_from(map@, bitmap_size as int, k as int),
            host matches Some(b) ==> bitmap_host(map@) matches Some(h) && map@[h].base == b,
        decreases n - k,
    {
        if map[k].kind == RegionKind::Usable && map[k].length >= bitmap_size as u64 {
            host = Some(map[k].base);
        }
        k = k + 1;
    }
    let bitmap_base = match host {
        None => {
            return None;
        },
        Some(b) => b,
    };
    let ghost h = bitmap_host(map@).unwrap();
    proof {
        lemma_host_from(map@, bitmap_size as int, 0);
        assert(region_end(map@[h]) <= highest_addr);
    }

    let bitmap = vec![0xffu8; bitmap_size];
    let mut a = BitmapAllocator {
        bitmap,
        bitmap_base,
        total_pages,
        usable_pages: 0,
        free_pages: 0,
        usable_map: vec![0u8; bitmap_size],
        usable: Ghost(Seq::new(total_pages as nat, |i: int| false)),
    };
    proof {
        lemma_full_byte();
        lemma_empty_byte();
        assert forall|i: int| 0 <= i < total_pages implies #[trigger] a.usable@[i] == bit_at(a.usable_map@[i / 8], (i % 8) as u8) by {
            assert(a.usable_map@[i / 8] == 0u8);
        }
        assert forall|i: int| 0 <= i < total_pages implies #[trigger] a.bits()[i] by {
            assert(a.bitmap@[i / 8] == 0xffu8);
        }
        lemma_count_none(total_pages as int, |i: int| !a.bits()[i]);
        lemma_count_none(total_pages as int, |i: int| a.usable@[i]);
        assert(a.bitmap@.len() == (a.total_pages + 7) / 8);
        assert((highest_addr + 4095) / 4096 <= 0x100_0000_0000) by (nonlinear_arith)
            requires
                highest_addr <= 0x10_0000_0000_0000,
        ;
        assert(a.total_pages <= MAX_FRAMES);
        assert(a.free_pages == free_count(a.bits()));
        assert(a.usable@.len() == a.total_pages);
    }

    let mut k: usize = 0;
    while k < n
        invariant
            n == map@.len(),
            k <= n,
            valid_map(map@),
            highest_addr == highest(map@, n as int),
            total_pages == (highest_addr + 4095) / 4096,
            total_pages + 8 <= usize::MAX,
            a.wf(),
            a.total_pages == total_pages,
            a.bitmap_base == bitmap_base,
            a.usable_pages == 0,
            a.usable@ == Seq::new(total_pages as nat, |i: int| false),
            forall|i: int| 0 <= i < total_pages ==> #[trigger] a.bits()[i] == !covered(map@, k as int, i),
        decreases n - k,
    {
        let region = map[k];
        if region.kind == RegionKind::Usable {
            let start = ((region.base + 4095) / 4096) as usize;
            let end = ((region.base + region.length) / 4096) as usize;
            proof {
                lemma_highest(map@, n as int);
                assert(region_end(map@[k as int]) <= highest_addr);
            }
            let mut page = start;
            while page < end
                invariant
                    start <= page,
                    end <= total_pages,
                    region == map@[k as int],
                    start == (region.base + 4095) / 4096,
                    end == (region.base + region.length) / 4096,
                    region.kind == RegionKind::Usable,
                    a.wf(),
                    a.total_pages == total_pages,
                    a.bitmap_base == bitmap_base,
                    a.usable_pages == 0,
                    a.usable@ == Seq::new(total_pages as nat, |i: int| false),
                    forall|i: int| 0 <= i < total_pages ==> #[trigger] a.bits()[i] == !(covered(map@, k as int, i)
                        || (covers(region, i) && i < page)),
                decreases end - page,
            {
                if a.test_bit(page) {
                    a.clear_bit(page);
                }
                page = page + 1;
            }
        }
        k = k + 1;
    }

    let bstart = (bitmap_base / 4096) as usize;
    let bend = ((bitmap_base + bitmap_size as u64 + 4095) / 4096) as usize;
    let mut page = bstart;
    while page < bend
        invariant
            bstart <= page <= bend,
            bstart == bitmap_base / 4096,
            bend == (bitmap_base + bitmap_size + 4095) / 4096,
            bend <= total_pages,
            a.wf(),
            a.total_pages == total_pages,
            a.bitmap_base == bitmap_base,
            a.usable_pages == 0,
            a.usable@ == Seq::new(total_pages as nat, |i: int| false),
            forall|i: int| 0 <= i < total_pages ==> #[trigger] a.bits()[i] == !(covered(map@, n as int, i)
                && !(bstart <= i < page)),
        decreases bend - page,
    {
        if !a.test_bit(page) {
            a.set_bit(page);
        }
        page = page + 1;
    }
    let mut umap: Vec<u8> = Vec::new();
    let mut j: usize = 0;
    while j < bitmap_size
        invariant
            j <= bitmap_size,
            a.wf(),
            a.total_pages == total_pages,
            bitmap_size == a.bitmap@.len(),
            umap@.len() == j,
            forall|q: int| 0 <= q < j ==> #[trigger] umap@[q] == !a.bitmap@[q],
        decreases bitmap_size - j,
    {
        umap.push(!a.bitmap[j]);
        j = j + 1;
    }
    proof {
        lemma_not_byte();
    }
    a.usable_map = umap;
    a.usable = Ghost(Seq::new(total_pages as nat, |i: int| !a.bits()[i]));
    a.usable_pages = a.free_pages;
    proof {
        assert forall|i: int| 0 <= i < total_pages implies #[trigger] a.usable@[i] == bit_at(a.usable_map@[i / 8], (i % 8) as u8) by {
            assert(a.usable_map@[i / 8] == !a.bitmap@[i / 8]);
        }
    }
    proof {
        lemma_count_ext(total_pages as int, |i: int| !a.bits()[i], |i: int| a.usable@[i]);
        assert(bitmap_host(map@) == Some(h));
        assert(map@[h].base == bitmap_base);
        assert forall|i: int| 0 <= i < total_pages implies #[trigger] a.bits()[i] == !initially_free(map@, i) by {
            assert(a.bits()[i] == !(covered(map@, n as int, i) && !(bstart <= i < bend)));
        }
    }
    Some(a)
}

impl BitmapAllocator {
    pub proof fn lemma_wf_bounds(&self)
        requires
            self.wf(),
        ensures
            self.bits().len() == self.total_frames(),
            self.free_frames() <= self.total_frames(),
            self.total_frames() <= MAX_FRAMES,
            self.total_frames() <= usize::MAX,
    {
        self.lemma_bits_len();
    }

    pub fn total_pages(&self) -> (r: usize)
        ensures
            r == self.total_frames(),
    {
        self.total_pages
    }

    /// Whether the frame with index `frame` is allocated.
    pub fn is_allocated(&self, frame: usize) -> (r: bool)
        requires
            self.wf(),
            frame < self.total_frames(),
        ensures
            r == self.bits()[frame as int],
    {
        self.test_bit(frame)
    }

    /// Number of free frames.
    pub fn free_pages(&self) -> (r: usize)
        ensures
            r == self.free_frames(),
    {
        self.free_pages
    }

    /// Number of frames that were usable when the allocator was installed.
    pub fn usable_pages(&self) -> (r: usize)
        ensures
            r == self.usable_frames(),
    {
        self.usable_pages
    }
}

/// Allocates the lowest free frame and returns its physical address.
pub fn alloc_frame(pmm: &mut BitmapAllocator) -> (r: Option<u64>)
    requires
        old(pmm).wf(),
    ensures
        final(pmm).wf(),
        final(pmm).total_frames() == old(pmm).total_frames(),
        final(pmm).usable_frames() == old(pmm).usable_frames(),
        final(pmm).usable_set() == old(pmm).usable_set(),
        final(pmm).bitmap_base() == old(pmm).bitmap_base(),
        old(pmm).balanced() ==> final(pmm).balanced(),
        match first_clear(old(pmm).bits()) {
            None => r.is_none() && final(pmm).bits() == old(pmm).bits()
                && final(pmm).free_frames() == old(pmm).free_frames() && *final(pmm) == *old(pmm),
            Some(i) => r == Some((i * PAGE_SIZE) as u64)
                && final(pmm).bits() == old(pmm).bits().update(i, true)
                && final(pmm).free_frames() == old(pmm).free_frames() - 1,
        },
{
    let ghost before = *pmm;
    let r = pmm.alloc_page();
    proof {
        let after = *pmm;
        lemma_first_clear_spec(before.bits());
        before.lemma_bits_len();
        match first_clear(before.bits()) {
            None => {},
            Some(i) => {
                assert forall|j: int| 0 <= j < after.total_frames() && !#[trigger] after.bits()[j] implies !before.bits()[j] by {
                    assert(after.bits()[j] == before.bits().update(i, true)[j]);
                }
            },
        }
        lemma_balance_kept(before, after);
    }
    r
}

/// Setting bits keeps every clear bit inside the usable frames.
proof fn lemma_balance_kept(before: BitmapAllocator, after: BitmapAllocator)
    requires
        before.total_frames() == after.total_frames(),
        before.usable_set() == after.usable_set(),
        forall|i: int| 0 <= i < after.total_frames() && !#[trigger] after.bits()[i] ==> !before.bits()[i],
    ensures
        before.balanced() ==> after.balanced(),
{
}

/// Returns the frame at `addr` to the allocator.
///
/// A misaligned address is rejected and nothing changes. A frame that is
/// already free, lies beyond the tracked span, or was not usable when the
/// allocator was installed (reserved memory, the bitmap's own frames) is
/// left as it is: the allocator never handed it out.
pub fn free(pmm: &mut BitmapAllocator, addr: u64) -> (r: Result<(), MemError>)
    requires
        old(pmm).wf(),
    ensures
        final(pmm).wf(),
        final(pmm).total_frames() == old(pmm).total_frames(),
        final(pmm).usable_frames() == old(pmm).usable_frames(),
        final(pmm).usable_set() == old(pmm).usable_set(),
        final(pmm).bitmap_base() == old(pmm).bitmap_base(),
        addr % PAGE_SIZE != 0 ==> r == Err::<(), MemError>(MemError::AlignmentViolation) && *final(pmm) == *old(pmm),
        addr % PAGE_SIZE == 0 ==> r.is_ok() && ({
            let page = addr as int / PAGE_SIZE as int;
            if page < old(pmm).total_frames() && old(pmm).usable_set()[page] && old(pmm).bits()[page] {
                final(pmm).bits() == old(pmm).bits().update(page, false)
                    && final(pmm).free_frames() == old(pmm).free_frames() + 1
            } else {
                *final(pmm) == *old(pmm)
            }
        }),
        old(pmm).balanced() ==> final(pmm).balanced(),
{
    if addr % PAGE_SIZE != 0 {
        return Err(MemError::AlignmentViolation);
    }
    let ghost before = *pmm;
    pmm.free_page(addr);
    proof {
        let page = addr as int / PAGE_SIZE as int;
        before.lemma_bits_len();
        if before.balanced() {
            assert forall|i: int| 0 <= i < pmm.total_frames() && !#[trigger] pmm.bits()[i] implies pmm.usable_set()[i] by {
                if i != page {
                    assert(!before.bits()[i]);
                }
            }
        }
    }
    Ok(())
}

/// Size in bytes of the tracked physical span.
pub fn max_phys_address(pmm: &BitmapAllocator) -> (r: Option<u64>)
    requires
        pmm.wf(),
    ensures
        r == Some((pmm.total_frames() * PAGE_SIZE) as u64),
        pmm.total_frames() * PAGE_SIZE <= u64::MAX,
{
    Some(pmm.total_pages as u64 * PAGE_SIZE)
}

/// Whole mebibytes held by `page` frames.
pub fn page_to_mb(page: usize) -> (r: usize)
    requires
        page <= MAX_FRAMES,
    ensures
        r == page as int * 4096 / 0x10_0000,
{
    (page as u64 * 4096 / 0x10_0000) as usize
}

} // verus!
