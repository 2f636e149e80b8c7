//! Physical memory as the paging engine sees it through the direct map.
//!
//! A frame is used either as a translation table, read and written as 512
//! entries, or as data, read and written as 4096 bytes; the memory keeps the
//! contents of each use.

use vstd::prelude::*;

verus! {

/// Entry `idx` of the table in the frame at `table`; memory beyond the
/// backed span reads as zero.
pub open spec fn entry_of(t: Seq<u64>, table: int, idx: int) -> u64 {
    let k = (table / 4096) * 512 + idx;
    if 0 <= table && 0 <= idx < 512 && k < t.len() {
        t[k]
    } else {
        0
    }
}

/// The backed physical memory.
pub struct PhysMem {
    data: Vec<u8>,
    tables: Vec<u64>,
    frames: usize,
}

impl PhysMem {
    /// Bytes of the data view, by physical address.
    pub closed spec fn bytes(&self) -> Seq<u8> {
        self.data@
    }

    /// Entries of the table view: entry `i` of the table in frame `f` is at
    /// `f * 512 + i`.
    pub closed spec fn tables(&self) -> Seq<u64> {
        self.tables@
    }

    pub closed spec fn frames(&self) -> nat {
        self.frames as nat
    }

    pub closed spec fn wf(&self) -> bool {
        &&& self.data@.len() == self.frames * 4096
        &&& self.tables@.len() == self.frames * 512
    }

    pub proof fn lemma_lens(&self)
        requires
            self.wf(),
        ensures
            self.bytes().len() == self.frames() * 4096,
            self.tables().len() == self.frames() * 512,
    {
    }

    /// `frames` zero-filled frames.
    pub fn new(frames: usize) -> (r: PhysMem)
        requires
            frames * 4096 <= usize::MAX,
        ensures
            r.wf(),
            r.frames() == frames,
            forall|i: int| 0 <= i < r.bytes().len() ==> #[trigger] r.bytes()[i] == 0,
            forall|i: int| 0 <= i < r.tables().len() ==> #[trigger] r.tables()[i] == 0,
    {
        PhysMem { data: vec![0u8; frames * 4096], tables: vec![0u64; frames * 512], frames }
    }

    pub fn read_entry(&self, table: u64, idx: usize) -> (r: u64)
        requires
            self.wf(),
            idx < 512,
        ensures
            r == entry_of(self.tables(), table as int, idx as int),
    {
        let f = table / 4096;
        let _n = self.tables.len();
        if f < self.frames as u64 {
            proof {
                assert(f * 512 + idx < self.frames * 512) by (nonlinear_arith)
                    requires
                        f < self.frames,
                        idx < 512,
                ;
            }
            self.tables[(f as usize) * 512 + idx]
        } else {
            proof {
                assert(f * 512 + idx >= self.frames * 512) by (nonlinear_arith)
                    requires
                        f >= self.frames,
                ;
            }
            0
        }
    }

    pub fn write_entry(&mut self, table: u64, idx: usize, val: u64)
        requires
            old(self).wf(),
            idx < 512,
            table / 4096 < old(self).frames(),
        ensures
            final(self).wf(),
            final(self).frames() == old(self).frames(),
            final(self).bytes() == old(self).bytes(),
            final(self).tables() == old(self).tables().update((table as int / 4096) * 512 + idx, val),
    {
        let f = (table / 4096) as usize;
        let _n = self.tables.len();
        proof {
            assert(f * 512 + idx < self.frames * 512) by (nonlinear_arith)
                requires
                    f < self.frames,
                    idx < 512,
            ;
        }
        self.tables.set(f * 512 + idx, val);
    }

    /// Sets every entry of the table in the frame at `table` to zero.
    pub fn zero_table(&mut self, table: u64)
        requires
            old(self).wf(),
            table / 4096 < old(self).frames(),
        ensures
            final(self).wf(),
            final(self).frames() == old(self).frames(),
            final(self).bytes() == old(self).bytes(),
            final(self).tables().len() == old(self).tables().len(),
            forall|k: int| 0 <= k < old(self).tables().len() ==> #[trigger] final(self).tables()[k]
                == if k / 512 == table / 4096 { 0 } else { old(self).tables()[k] },
    {
        let f = (table / 4096) as usize;
        let n = self.tables.len();
        let mut i: usize = 0;
        while i < 512
            invariant
                self.wf(),
                f == table / 4096,
                f < self.frames,
                self.frames == old(self).frames,
                self.data == old(self).data,
                self.tables@.len() == old(self).tables@.len(),
                n == self.tables@.len(),
                i <= 512,
                forall|k: int| 0 <= k < old(self).tables@.len() ==> #[trigger] self.tables@[k]
                    == if k / 512 == f && k % 512 < i { 0 } else { old(self).tables@[k] },
            decreases 512 - i,
        {
            proof {
                assert(f * 512 + i < self.frames * 512) by (nonlinear_arith)
                    requires
                        f < self.frames,
                        i < 512,
                ;
            }
            self.tables.set(f * 512 + i, 0);
            i = i + 1;
        }
    }

    pub fn read_byte(&self, addr: u64) -> (r: u8)
        requires
            self.wf(),
            addr < self.bytes().len(),
        ensures
            r == self.bytes()[addr as int],
    {
        let _n = self.data.len();
        self.data[addr as usize]
    }

    pub fn write_byte(&mut self, addr: u64, b: u8)
        requires
            old(self).wf(),
            addr < old(self).bytes().len(),
        ensures
            final(self).wf(),
            final(self).frames() == old(self).frames(),
            final(self).tables() == old(self).tables(),
            final(self).bytes() == old(self).bytes().update(addr as int, b),
    {
        let _n = self.data.len();
        self.data.set(addr as usize, b);
    }
}

} // verus!
