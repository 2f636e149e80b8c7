//! Encoding of translation-table entries and the four-level walk.

use vstd::prelude::*;
use crate::physmem::entry_of;

verus! {

/// Bits 12..52 of an entry: the physical address it points to.
pub const ADDR_MASK: u64 = 0x000f_ffff_ffff_f000;

pub const FLAG_PRESENT: u64 = 0x1;
pub const FLAG_WRITABLE: u64 = 0x2;
pub const FLAG_USER: u64 = 0x4;
pub const FLAG_NO_CACHE: u64 = 0x10;
pub const FLAG_HUGE: u64 = 0x80;
pub const FLAG_NO_EXECUTE: u64 = 0x8000_0000_0000_0000;

/// Permissions of a mapping, as a set of capabilities.
#[derive(Clone, Copy, Debug, PartialEq, Eq, Structural)]
pub struct PageFlags {
    pub present: bool,
    pub writable: bool,
    pub user: bool,
    pub no_execute: bool,
    pub no_cache: bool,
    pub huge: bool,
}

/// The native encoding of a set of flags.
pub open spec fn flag_bits(f: PageFlags) -> u64 {
    (if f.present { FLAG_PRESENT } else { 0u64 }) | (if f.writable { FLAG_WRITABLE } else { 0u64 }) | (if f.user {
        FLAG_USER
    } else {
        0u64
    }) | (if f.no_execute { FLAG_NO_EXECUTE } else { 0u64 }) | (if f.no_cache { FLAG_NO_CACHE } else { 0u64 }) | (
    if f.huge {
        FLAG_HUGE
    } else {
        0u64
    })
}

impl PageFlags {
    /// Present, writable and not executable: the flags of kernel data.
    pub fn kernel_data() -> (r: PageFlags)
        ensures
            r == (PageFlags {
                present: true,
                writable: true,
                user: false,
                no_execute: true,
                no_cache: false,
                huge: false,
            }),
    {
        PageFlags { present: true, writable: true, user: false, no_execute: true, no_cache: false, huge: false }
    }

    pub open spec fn kernel_data_spec() -> PageFlags {
        PageFlags { present: true, writable: true, user: false, no_execute: true, no_cache: false, huge: false }
    }

    pub fn bits(&self) -> (r: u64)
        ensures
            r == flag_bits(*self),
    {
        (if self.present { FLAG_PRESENT } else { 0u64 }) | (if self.writable { FLAG_WRITABLE } else { 0u64 }) | (
        if self.user {
            FLAG_USER
        } else {
            0u64
        }) | (if self.no_execute { FLAG_NO_EXECUTE } else { 0u64 }) | (if self.no_cache { FLAG_NO_CACHE } else {
            0u64
        }) | (if self.huge { FLAG_HUGE } else { 0u64 })
    }
}

pub open spec fn present(e: u64) -> bool {
    e & FLAG_PRESENT == FLAG_PRESENT
}

pub open spec fn huge(e: u64) -> bool {
    e & FLAG_HUGE == FLAG_HUGE
}

pub open spec fn entry_addr(e: u64) -> u64 {
    e & ADDR_MASK
}

/// Index into the table that bits `shift..shift + 9` of `v` select.
pub open spec fn pt_index(v: u64, shift: u64) -> int {
    ((v >> shift) & 0x1ffu64) as int
}

/// An entry that leads to a table of the next level.
pub open spec fn is_link(e: u64) -> bool {
    present(e) && !huge(e)
}

/// The table of the next level below `table`, on the way to `v`.
pub open spec fn next_on_path(t: Seq<u64>, table: u64, v: u64, shift: u64) -> Option<u64> {
    let e = entry_of(t, table as int, pt_index(v, shift));
    if is_link(e) {
        Some(entry_addr(e))
    } else {
        None
    }
}

/// The last-level table on the way to `v`, when every level above it links
/// to a table.
pub open spec fn p1_table(t: Seq<u64>, root: u64, v: u64) -> Option<u64> {
    match next_on_path(t, root, v, 39) {
        None => None,
        Some(t3) => match next_on_path(t, t3, v, 30) {
            None => None,
            Some(t2) => next_on_path(t, t2, v, 21),
        },
    }
}

/// The last-level entry for `v`, when the walk reaches a last-level table.
pub open spec fn leaf_entry(t: Seq<u64>, root: u64, v: u64) -> Option<u64> {
    match p1_table(t, root, v) {
        None => None,
        Some(t1) => Some(entry_of(t, t1 as int, pt_index(v, 12))),
    }
}

/// The physical address that `v` translates to in the hierarchy rooted at
/// `root`, as the processor walks it: 1 GiB and 2 MiB pages end the walk
/// early, and a missing present bit at any level is a miss.
pub open spec fn translate(t: Seq<u64>, root: u64, v: u64) -> Option<u64> {
    let e4 = entry_of(t, root as int, pt_index(v, 39));
    if !is_link(e4) {
        None
    } else {
        let e3 = entry_of(t, entry_addr(e4) as int, pt_index(v, 30));
        if !present(e3) {
            None
        } else if huge(e3) {
            Some((entry_addr(e3) & !0x3fff_ffffu64) | (v & 0x3fff_ffffu64))
        } else {
            let e2 = entry_of(t, entry_addr(e3) as int, pt_index(v, 21));
            if !present(e2) {
                None
            } else if huge(e2) {
                Some((entry_addr(e2) & !0x1f_ffffu64) | (v & 0x1f_ffffu64))
            } else {
                let e1 = entry_of(t, entry_addr(e2) as int, pt_index(v, 12));
                if !present(e1) {
                    None
                } else {
                    Some(entry_addr(e1) | (v & 0xfffu64))
                }
            }
        }
    }
}

/// Where the walk reaches a present last-level entry, the translation is
/// read from it.
pub proof fn lemma_translate_leaf(t: Seq<u64>, root: u64, v: u64)
    requires
        leaf_entry(t, root, v) matches Some(e) && present(e),
    ensures
        translate(t, root, v) == Some(entry_addr(leaf_entry(t, root, v).unwrap()) | (v & 0xfffu64)),
{
}

/// Table indices are below 512.
pub proof fn lemma_pt_index_bound(v: u64)
    ensures
        0 <= pt_index(v, 39) < 512,
        0 <= pt_index(v, 30) < 512,
        0 <= pt_index(v, 21) < 512,
        0 <= pt_index(v, 12) < 512,
{
    assert((v >> 39u64) & 0x1ffu64 < 512 && (v >> 30u64) & 0x1ffu64 < 512 && (v >> 21u64) & 0x1ffu64 < 512 && (v
        >> 12u64) & 0x1ffu64 < 512) by (bit_vector);
}

/// The encoding of flags holds no address bits, and its present and huge
/// bits are the flags'.
pub proof fn lemma_flag_bits(f: PageFlags)
    ensures
        flag_bits(f) & ADDR_MASK == 0,
        present(flag_bits(f)) == f.present,
        huge(flag_bits(f)) == f.huge,
{
    let a = if f.present { FLAG_PRESENT } else { 0u64 };
    let b = if f.writable { FLAG_WRITABLE } else { 0u64 };
    let c = if f.user { FLAG_USER } else { 0u64 };
    let d = if f.no_execute { FLAG_NO_EXECUTE } else { 0u64 };
    let e = if f.no_cache { FLAG_NO_CACHE } else { 0u64 };
    let h = if f.huge { FLAG_HUGE } else { 0u64 };
    let x = a | b | c | d | e | h;
    assert(x & 0x000f_ffff_ffff_f000u64 == 0 && (x & 1u64 == 1u64) == (a == 1u64) && (x & 0x80u64 == 0x80u64) == (h
        == 0x80u64)) by (bit_vector)
        requires
            x == a | b | c | d | e | h,
            a == 0 || a == 1,
            b == 0 || b == 2,
            c == 0 || c == 4,
            d == 0 || d == 0x8000_0000_0000_0000u64,
            e == 0 || e == 0x10,
            h == 0 || h == 0x80,
    ;
}

/// A frame address with flag bits added keeps its address.
pub proof fn lemma_entry_fields(a: u64, f: u64)
    requires
        a & !ADDR_MASK == 0,
        f & ADDR_MASK == 0,
    ensures
        entry_addr(a | f) == a,
        present(a | f) == present(f),
        huge(a | f) == huge(f),
{
    assert(((a | f) & 0x000f_ffff_ffff_f000u64) == a) by (bit_vector)
        requires
            a & !0x000f_ffff_ffff_f000u64 == 0,
            f & 0x000f_ffff_ffff_f000u64 == 0,
    ;
    assert(((a | f) & 1u64 == 1u64) == (f & 1u64 == 1u64)) by (bit_vector)
        requires
            a & !0x000f_ffff_ffff_f000u64 == 0,
    ;
    assert(((a | f) & 0x80u64 == 0x80u64) == (f & 0x80u64 == 0x80u64)) by (bit_vector)
        requires
            a & !0x000f_ffff_ffff_f000u64 == 0,
    ;
}

/// Adding link flags to an entry keeps its address, presence and size.
pub proof fn lemma_add_link_flags(e: u64, f: u64)
    requires
        f & !7u64 == 0,
    ensures
        entry_addr(e | f) == entry_addr(e),
        huge(e | f) == huge(e),
        present(e) ==> present(e | f),
{
    assert(((e | f) & 0x000f_ffff_ffff_f000u64) == (e & 0x000f_ffff_ffff_f000u64)) by (bit_vector)
        requires
            f & !7u64 == 0,
    ;
    assert(((e | f) & 0x80u64 == 0x80u64) == (e & 0x80u64 == 0x80u64)) by (bit_vector)
        requires
            f & !7u64 == 0,
    ;
    assert((e & 1u64 == 1u64) ==> ((e | f) & 1u64 == 1u64)) by (bit_vector);
}

} // verus!
