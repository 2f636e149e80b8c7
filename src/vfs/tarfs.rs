//! A read-only file system over an in-memory ustar archive.

use vstd::prelude::*;
use crate::vfs::types::{VFSError, VFSFileType, VFSMetadata, VFSSeek, bytes_eq};
use vstd::slice::slice_subrange;
use vstd::string::StringSliceAdditionalSpecFns;

verus! {

pub open spec fn is_octal(b: u8) -> bool {
    48 <= b <= 55
}

/// The number that a string of octal digits spells.
pub open spec fn octal_value(s: Seq<u8>) -> nat
    decreases s.len(),
{
    if s.len() == 0 {
        0
    } else {
        octal_value(s.drop_last()) * 8 + (s.last() - 48) as nat
    }
}

proof fn lemma_octal_prefix(s: Seq<u8>, i: int)
    requires
        0 <= i <= s.len(),
        forall|j: int| 0 <= j < s.len() ==> is_octal(#[trigger] s[j]),
    ensures
        octal_value(s.subrange(0, i)) <= octal_value(s),
    decreases s.len() - i,
{
    if i < s.len() {
        lemma_octal_prefix(s, i + 1);
        assert(s.subrange(0, i + 1).drop_last() =~= s.subrange(0, i));
    } else {
        assert(s.subrange(0, i) =~= s);
    }
}

/// Reads a string of octal digits.
pub fn oct_to_bin(bytes: &[u8]) -> (r: usize)
    requires
        forall|j: int| 0 <= j < bytes@.len() ==> is_octal(#[trigger] bytes@[j]),
        octal_value(bytes@) <= usize::MAX,
    ensures
        r == octal_value(bytes@),
{
    let mut n: usize = 0;
    let mut i: usize = 0;
    while i < bytes.len()
        invariant
            i <= bytes@.len(),
            forall|j: int| 0 <= j < bytes@.len() ==> is_octal(#[trigger] bytes@[j]),
            octal_value(bytes@) <= usize::MAX,
            n == octal_value(bytes@.subrange(0, i as int)),
        decreases bytes@.len() - i,
    {
        proof {
            lemma_octal_prefix(bytes@, i + 1);
            assert(bytes@.subrange(0, i + 1).drop_last() =~= bytes@.subrange(0, i as int));
        }
        n = n * 8 + (bytes[i] - 48u8) as usize;
        i = i + 1;
    }
    assert(bytes@.subrange(0, i as int) =~= bytes@);
    n
}

/// Index of the first non-zero byte of `s` at or after `i`.
pub open spec fn lead_end(s: Seq<u8>, i: int) -> int
    decreases s.len() - i,
{
    if 0 <= i < s.len() && s[i] == 0 {
        lead_end(s, i + 1)
    } else {
        i
    }
}

/// End of `s` once the zero bytes before `j` and after `start` are cut.
pub open spec fn trail_end(s: Seq<u8>, start: int, j: int) -> int
    decreases j - start,
{
    if j > start && j <= s.len() && s[j - 1] == 0 {
        trail_end(s, start, j - 1)
    } else {
        j
    }
}

/// The name field with its zero bytes cut at both ends.
pub open spec fn trimmed(s: Seq<u8>) -> Seq<u8> {
    let start = lead_end(s, 0);
    s.subrange(start, trail_end(s, start, s.len() as int))
}

/// The path under which an archive member is found: a leading `.` is
/// dropped, any other name gets a leading `/`.
pub open spec fn member_path(name: Seq<u8>) -> Seq<u8> {
    let t = trimmed(name);
    if t.len() > 0 && t[0] == 46 {
        t.drop_first()
    } else {
        seq![47u8] + t
    }
}

/// The magic of a ustar header.
pub open spec fn ustar() -> Seq<u8> {
    seq![117u8, 115u8, 116u8, 97u8, 114u8]
}

/// Whether a well-formed header starts at `off`.
pub open spec fn header_at(d: Seq<u8>, off: int) -> bool {
    &&& 0 <= off
    &&& off + 512 <= d.len()
    &&& d.subrange(off + 257, off + 262) == ustar()
    &&& forall|j: int| off + 124 <= j < off + 135 ==> is_octal(#[trigger] d[j])
}

/// Size recorded in the header at `off`.
pub open spec fn header_size(d: Seq<u8>, off: int) -> nat {
    octal_value(d.subrange(off + 124, off + 135))
}

/// Offset of the header that follows the member at `off`.
pub open spec fn next_header(d: Seq<u8>, off: int) -> int {
    off + ((header_size(d, off) + 511) / 512 + 1) * 512
}

/// A member of the archive: its path, where its data starts and its size.
pub struct TarEntry {
    pub path: Seq<u8>,
    pub data_position: int,
    pub size: int,
}

/// The non-empty members found from the header at `off` on, up to the end
/// of the data or the first block that is not a header (on targets whose
/// `usize` cannot hold every size a header can record, no member is read).
pub open spec fn members(d: Seq<u8>, off: int) -> Seq<TarEntry>
    decreases d.len() - off,
{
    if off < 0 || off >= d.len() || !header_at(d, off) || usize::MAX < 8589934592 {
        seq![]
    } else {
        let size = header_size(d, off);
        let next = next_header(d, off);
        let rest = if off < next < d.len() {
            members(d, next)
        } else {
            seq![]
        };
        if size > 0 {
            seq![TarEntry { path: member_path(d.subrange(off, off + 100)), data_position: off + 512, size: size as int }]
                + rest
        } else {
            rest
        }
    }
}

/// `n` read as a signed number of the same width.
pub open spec fn signed(n: usize) -> int {
    if n > isize::MAX {
        n - (usize::MAX + 1)
    } else {
        n as int
    }
}

fn signed_exec(n: usize) -> (r: i128)
    ensures
        r == signed(n),
{
    if n as u128 > isize::MAX as u128 {
        n as i128 - (usize::MAX as i128 + 1)
    } else {
        n as i128
    }
}

/// An open member of the archive.
pub struct TarFile {
    data_position: usize,
    position: usize,
    path: Vec<u8>,
    size: usize,
}

impl TarFile {
    pub closed spec fn spec_path(&self) -> Seq<u8> {
        self.path@
    }

    pub closed spec fn spec_data_position(&self) -> int {
        self.data_position as int
    }

    pub closed spec fn spec_position(&self) -> int {
        self.position as int
    }

    pub closed spec fn spec_size(&self) -> int {
        self.size as int
    }

    /// Where the member's data starts in the archive.
    pub fn data_position(&self) -> (r: usize)
        ensures
            r == self.spec_data_position(),
    {
        self.data_position
    }

    pub fn metadata(&self) -> (r: Result<VFSMetadata, VFSError>)
        ensures
            r == Ok::<VFSMetadata, VFSError>(VFSMetadata { file_type: VFSFileType::File, size: self.spec_size() as usize }),
    {
        Ok(VFSMetadata { file_type: VFSFileType::File, size: self.size })
    }

    /// Moves the position, kept inside the member's data: `Start` counts
    /// from the data's start, `Current` gives the position itself, `End`
    /// counts from the data's end. Offsets are read as signed numbers; a
    /// target below zero is refused and the position stays.
    pub fn seek(&mut self, pos: VFSSeek) -> (r: Result<usize, VFSError>)
        requires
            old(self).spec_data_position() + old(self).spec_size() <= isize::MAX,
        ensures
            ({
                let lo = old(self).spec_data_position();
                let hi = lo + old(self).spec_size();
                let want = match pos {
                    VFSSeek::Start(n) => lo + signed(n),
                    VFSSeek::Current(n) => signed(n),
                    VFSSeek::End(n) => hi + signed(n),
                };
                let got = if want < lo {
                    lo
                } else if want > hi {
                    hi
                } else {
                    want
                };
                &&& want < 0 ==> r == Err::<usize, VFSError>(VFSError::InvalidSeek) && *final(self) == *old(self)
                &&& want >= 0 ==> r == Ok::<usize, VFSError>(got as usize) && final(self).spec_position() == got
                &&& final(self).spec_data_position() == old(self).spec_data_position()
                &&& final(self).spec_size() == old(self).spec_size()
                &&& final(self).spec_path() == old(self).spec_path()
            }),
    {
        let lo = self.data_position;
        let hi = self.data_position + self.size;
        let want: i128 = match pos {
            VFSSeek::Start(n) => lo as i128 + signed_exec(n),
            VFSSeek::Current(n) => signed_exec(n),
            VFSSeek::End(n) => hi as i128 + signed_exec(n),
        };
        if want < 0 {
            return Err(VFSError::InvalidSeek);
        }
        let got = if want < lo as i128 {
            lo
        } else if want > hi as i128 {
            hi
        } else {
            want as usize
        };
        self.position = got;
        Ok(got)
    }

    /// Copies up to `buf.len()` bytes, and no more than the member's size,
    /// from the archive at the current position into `buf`; stops at the end
    /// of the archive.
    pub fn read(&self, fs: &TarFS, buf: &mut Vec<u8>) -> (r: Result<usize, VFSError>)
        ensures
            ({
                let want = if old(buf)@.len() < self.spec_size() { old(buf)@.len() as int } else { self.spec_size() };
                let avail = if self.spec_position() <= fs.spec_data().len() { fs.spec_data().len() - self.spec_position() } else { 0 };
                let n = if want < avail { want } else { avail };
                &&& r == Ok::<usize, VFSError>(n as usize)
                &&& final(buf)@.len() == old(buf)@.len()
                &&& forall|i: int| 0 <= i < old(buf)@.len() ==> #[trigger] final(buf)@[i] == if i < n {
                    fs.spec_data()[self.spec_position() + i]
                } else {
                    old(buf)@[i]
                }
            }),
    {
        let want = if buf.len() < self.size { buf.len() } else { self.size };
        let avail = if self.position <= fs.data.len() { fs.data.len() - self.position } else { 0 };
        let n = if want < avail { want } else { avail };
        let dl = fs.data.len();
        let mut i: usize = 0;
        while i < n
            invariant
                dl == fs.data@.len(),
                n <= avail && (avail == 0 || self.position + avail == dl),
                n <= want <= old(buf)@.len(),
                n <= avail,
                avail == (if self.position <= fs.data@.len() { fs.data@.len() - self.position } else { 0 }),
                i <= n,
                buf@.len() == old(buf)@.len(),
                forall|k: int| 0 <= k < old(buf)@.len() ==> #[trigger] buf@[k] == if k < i {
                    fs.data@[self.position + k]
                } else {
                    old(buf)@[k]
                },
            decreases n - i,
        {
            let b = fs.data[self.position + i];
            buf.set(i, b);
            i = i + 1;
        }
        Ok(n)
    }
}

/// Path, start of data and size of each file.
pub closed spec fn entries_of(fs: Seq<TarFile>) -> Seq<TarEntry> {
    Seq::new(
        fs.len(),
        |i: int| TarEntry { path: fs[i].path@, data_position: fs[i].data_position as int, size: fs[i].size as int },
    )
}

/// The archive and the members found in it.
pub struct TarFS {
    data: Vec<u8>,
    files: Vec<TarFile>,
}

impl TarFS {
    /// Bytes of the archive.
    pub closed spec fn spec_data(&self) -> Seq<u8> {
        self.data@
    }

    /// Each member: path, start of data, size.
    pub closed spec fn entries(&self) -> Seq<TarEntry> {
        entries_of(self.files@)
    }
}

/// The path of the member whose 100-byte name field is `name`.
fn path_of(name: &[u8]) -> (r: Vec<u8>)
    ensures
        r@ == member_path(name@),
{
    let n = name.len();
    let mut s: usize = 0;
    while s < n && name[s] == 0
        invariant
            s <= n == name@.len(),
            lead_end(name@, 0) == lead_end(name@, s as int),
        decreases n - s,
    {
        s = s + 1;
    }
    let mut e: usize = n;
    while e > s && name[e - 1] == 0
        invariant
            s <= e <= n == name@.len(),
            lead_end(name@, 0) == s,
            trail_end(name@, s as int, n as int) == trail_end(name@, s as int, e as int),
        decreases e,
    {
        e = e - 1;
    }
    let ghost t = name@.subrange(s as int, e as int);
    assert(trimmed(name@) == t);
    let mut r: Vec<u8> = Vec::new();
    let mut i: usize = s;
    if e > s && name[s] == 46 {
        i = s + 1;
    } else {
        r.push(47u8);
    }
    let ghost start = i;
    let ghost head = r@;
    while i < e
        invariant
            start <= i <= e <= n == name@.len(),
            r@ == head + name@.subrange(start as int, i as int),
        decreases e - i,
    {
        r.push(name[i]);
        i = i + 1;
        assert(r@ =~= head + name@.subrange(start as int, i as int));
    }
    proof {
        if e > s && name@[s as int] == 46 {
            assert(r@ =~= t.drop_first());
        } else {
            assert(r@ =~= seq![47u8] + t);
        }
    }
    r
}

/// Whether a well-formed header starts at `off`.
fn is_header(d: &[u8], off: usize) -> (r: bool)
    ensures
        r == header_at(d@, off as int),
{
    if d.len() < 512 || off > d.len() - 512 {
        return false;
    }
    let magic = d[off + 257] == 117 && d[off + 258] == 115 && d[off + 259] == 116 && d[off + 260] == 97 && d[off
        + 261] == 114;
    if !magic {
        proof {
            if d@.subrange(off + 257, off + 262) == ustar() {
                assert(d@.subrange(off + 257, off + 262)[0] == d@[off + 257]);
                assert(d@.subrange(off + 257, off + 262)[1] == d@[off + 258]);
                assert(d@.subrange(off + 257, off + 262)[2] == d@[off + 259]);
                assert(d@.subrange(off + 257, off + 262)[3] == d@[off + 260]);
                assert(d@.subrange(off + 257, off + 262)[4] == d@[off + 261]);
            }
        }
        return false;
    }
    assert(d@.subrange(off + 257, off + 262) =~= ustar());
    let end = off + 135;
    let mut j: usize = off + 124;
    while j < end
        invariant
            end == off + 135,
            off + 512 <= d@.len(),
            off + 124 <= j <= off + 135,
            forall|k: int| off + 124 <= k < j ==> is_octal(#[trigger] d@[k]),
        decreases end - j,
    {
        if d[j] < 48 || d[j] > 55 {
            return false;
        }
        j = j + 1;
    }
    true
}

proof fn lemma_octal_bound(s: Seq<u8>)
    requires
        forall|j: int| 0 <= j < s.len() ==> is_octal(#[trigger] s[j]),
    ensures
        octal_value(s) < pow8(s.len()),
    decreases s.len(),
{
    if s.len() > 0 {
        lemma_octal_bound(s.drop_last());
    }
}

/// Eight to the power `n`.
pub open spec fn pow8(n: nat) -> nat
    decreases n,
{
    if n == 0 {
        1
    } else {
        8 * pow8((n - 1) as nat)
    }
}

impl TarFS {
    /// Reads the members of the archive `data`: one header after another,
    /// up to the end of the data or the first block that is not a ustar
    /// header; members of size zero are skipped.
    pub fn new(data: Vec<u8>) -> (r: TarFS)
        ensures
            r.spec_data() == data@,
            r.entries() == members(data@, 0),
    {
        let mut files: Vec<TarFile> = Vec::new();
        let len = data.len();
        let mut offset: usize = 0;
        let mut done = false;
        let ghost d = data@;
        while !done && offset < len
            invariant
                d == data@,
                len == d.len(),
                done ==> entries_of(files@) == members(d, 0),
                !done ==> entries_of(files@) + members(d, offset as int) == members(d, 0),
            decreases len - offset + if done { 0int } else { 1int },
        {
            if !is_header(data.as_slice(), offset) || (usize::MAX as u128) < 8589934592 {
                proof {
                    if !header_at(d, offset as int) || usize::MAX < 8589934592 {
                        assert(members(d, offset as int) == Seq::<TarEntry>::empty());
                        assert(entries_of(files@) + Seq::<TarEntry>::empty() =~= entries_of(files@));
                    }
                }
                done = true;
            } else {
                let field = slice_subrange(data.as_slice(), offset + 124, offset + 135);
                proof {
                    lemma_octal_bound(field@);
                    reveal_with_fuel(pow8, 12);
                    assert(pow8(11) == 8589934592);
                    assert(field@ == d.subrange(offset + 124, offset + 135));
                }
                let size = oct_to_bin(field);
                let name = slice_subrange(data.as_slice(), offset, offset + 100);
                let path = path_of(name);
                let ghost before = entries_of(files@);
                if size > 0 {
                    files.push(TarFile { data_position: offset + 512, position: 0, path, size });
                }
                let next: u128 = offset as u128 + ((size as u128 + 511) / 512 + 1) * 512;
                proof {
                    let e = TarEntry { path: member_path(d.subrange(offset as int, offset + 100)), data_position: offset + 512, size: size as int };
                    assert(name@ == d.subrange(offset as int, offset + 100));
                    if size > 0 {
                        assert(entries_of(files@).len() == before.len() + 1);
                        assert forall|i: int| 0 <= i < before.len() implies entries_of(files@)[i] == before[i] by {
                        }
                        assert(entries_of(files@)[before.len() as int] == e);
                        assert(entries_of(files@) =~= before + seq![e]);
                    } else {
                        assert(entries_of(files@) =~= before);
                    }
                    assert(next == next_header(d, offset as int));
                    assert(next >= offset + 512) by (nonlinear_arith)
                        requires
                            next == offset + ((size + 511) / 512 + 1) * 512,
                            size >= 0,
                    ;
                }
                if next < len as u128 {
                    proof {
                        if size > 0 {
                            assert(members(d, offset as int) == seq![TarEntry { path: member_path(d.subrange(offset as int, offset + 100)), data_position: offset + 512, size: size as int }] + members(d, next as int));
                            assert(entries_of(files@) + members(d, next as int) =~= before + members(d, offset as int));
                        }
                    }
                    offset = next as usize;
                } else {
                    proof {
                        if size > 0 {
                            assert(entries_of(files@) =~= before + members(d, offset as int));
                        } else {
                            assert(entries_of(files@) =~= before + members(d, offset as int));
                        }
                    }
                    done = true;
                }
            }
        }
        proof {
            if !done {
                assert(members(d, offset as int) == Seq::<TarEntry>::empty());
                assert(entries_of(files@) + Seq::<TarEntry>::empty() =~= entries_of(files@));
            }
        }
        let r = TarFS { data, files };
        assert(r.entries() =~= entries_of(files@));
        r
    }

    /// Index of the first member whose path is `path`.
    fn find(&self, path: &[u8]) -> (r: Option<usize>)
        ensures
            match r {
                Some(i) => i < self.entries().len() && self.entries()[i as int].path == path@ && forall|j: int|
                    0 <= j < i ==> #[trigger] self.entries()[j].path != path@,
                None => forall|j: int| 0 <= j < self.entries().len() ==> #[trigger] self.entries()[j].path != path@,
            },
    {
        let mut i: usize = 0;
        while i < self.files.len()
            invariant
                i <= self.files@.len(),
                forall|j: int| 0 <= j < i ==> #[trigger] self.entries()[j].path != path@,
            decreases self.files@.len() - i,
        {
            if bytes_eq(self.files[i].path.as_slice(), path) {
                return Some(i);
            }
            i = i + 1;
        }
        None
    }

    /// Opens the first member whose path has the bytes `path`, at position
    /// zero.
    pub fn open_bytes(&self, path: &[u8], flags: u32) -> (r: Result<TarFile, VFSError>)
        ensures
            match r {
                Ok(f) => exists|i: int| 0 <= i < self.entries().len() && self.entries()[i].path == path@
                    && (forall|j: int| 0 <= j < i ==> #[trigger] self.entries()[j].path != path@)
                    && f.spec_path() == path@ && f.spec_data_position() == self.entries()[i].data_position
                    && f.spec_size() == self.entries()[i].size && f.spec_position() == 0,
                Err(e) => e == VFSError::NotFound && forall|j: int| 0 <= j < self.entries().len()
                    ==> #[trigger] self.entries()[j].path != path@,
            },
    {
        match self.find(path) {
            Some(i) => {
                let f = &self.files[i];
                let p = vstd::slice::slice_to_vec(f.path.as_slice());
                Ok(TarFile { data_position: f.data_position, position: 0, path: p, size: f.size })
            },
            None => Err(VFSError::NotFound),
        }
    }

    /// Opens the first member whose path is `path`, at position zero.
    pub fn open(&self, path: &str, flags: u32) -> (r: Result<TarFile, VFSError>)
        ensures
            match r {
                Ok(f) => exists|i: int| 0 <= i < self.entries().len() && self.entries()[i].path == path.spec_bytes()
                    && (forall|j: int| 0 <= j < i ==> #[trigger] self.entries()[j].path != path.spec_bytes())
                    && f.spec_path() == path.spec_bytes() && f.spec_data_position() == self.entries()[i].data_position
                    && f.spec_size() == self.entries()[i].size && f.spec_position() == 0,
                Err(e) => e == VFSError::NotFound && forall|j: int| 0 <= j < self.entries().len()
                    ==> #[trigger] self.entries()[j].path != path.spec_bytes(),
            },
    {
        self.open_bytes(path.as_bytes(), flags)
    }

    /// Type and size of the first member whose path is `path`.
    pub fn metadata(&self, path: &str) -> (r: Result<VFSMetadata, VFSError>)
        ensures
            match r {
                Ok(m) => exists|i: int| 0 <= i < self.entries().len() && self.entries()[i].path == path.spec_bytes()
                    && (forall|j: int| 0 <= j < i ==> #[trigger] self.entries()[j].path != path.spec_bytes())
                    && m == (VFSMetadata { file_type: VFSFileType::File, size: self.entries()[i].size as usize }),
                Err(e) => e == VFSError::NotFound && forall|j: int| 0 <= j < self.entries().len()
                    ==> #[trigger] self.entries()[j].path != path.spec_bytes(),
            },
    {
        match self.find(path.as_bytes()) {
            Some(i) => Ok(VFSMetadata { file_type: VFSFileType::File, size: self.files[i].size }),
            None => Err(VFSError::NotFound),
        }
    }

    /// The first member whose path is `path`.
    pub fn get_file(&self, path: &str) -> (r: Result<&TarFile, VFSError>)
        ensures
            match r {
                Ok(f) => exists|i: int| 0 <= i < self.entries().len() && self.entries()[i].path == path.spec_bytes()
                    && (forall|j: int| 0 <= j < i ==> #[trigger] self.entries()[j].path != path.spec_bytes())
                    && f.spec_path() == self.entries()[i].path && f.spec_data_position()
                    == self.entries()[i].data_position && f.spec_size() == self.entries()[i].size,
                Err(e) => e == VFSError::NotFound && forall|j: int| 0 <= j < self.entries().len()
                    ==> #[trigger] self.entries()[j].path != path.spec_bytes(),
            },
    {
        match self.find(path.as_bytes()) {
            Some(i) => Ok(&self.files[i]),
            None => Err(VFSError::NotFound),
        }
    }
}

} // verus!
