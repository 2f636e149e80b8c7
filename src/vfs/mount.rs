//! The mount table: file systems by the path they are mounted at.

use vstd::prelude::*;
use vstd::string::StringSliceAdditionalSpecFns;
use crate::vfs::tarfs::{TarFS, TarFile};
use crate::vfs::types::{VFSError, bytes_eq, starts_with, tail};

verus! {

/// The path `/`.
pub open spec fn slash() -> Seq<u8> {
    seq![47u8]
}

/// Resolution of `p` against the mount paths from index `i` on: the first
/// mount at `/` takes every path; a mount whose path is `p`, or a prefix of
/// `p` followed by `/` or nothing more, takes it with the rest as relative
/// path.
pub open spec fn resolve_from(mounts: Seq<Seq<u8>>, p: Seq<u8>, i: int) -> Result<(int, Seq<u8>), VFSError>
    decreases mounts.len() - i,
{
    if i < 0 || i >= mounts.len() {
        Err(VFSError::NotFound)
    } else {
        let m = mounts[i];
        if m == slash() {
            Ok((i, p))
        } else if m == p {
            Ok((i, slash()))
        } else if m.len() <= p.len() && p.subrange(0, m.len() as int) == m {
            let rest = p.subrange(m.len() as int, p.len() as int);
            if rest.len() == 0 || rest == slash() {
                Ok((i, slash()))
            } else if rest[0] == 47 {
                Ok((i, rest))
            } else {
                resolve_from(mounts, p, i + 1)
            }
        } else {
            resolve_from(mounts, p, i + 1)
        }
    }
}

proof fn lemma_resolve_index(mounts: Seq<Seq<u8>>, p: Seq<u8>, i: int)
    requires
        0 <= i,
    ensures
        resolve_from(mounts, p, i) matches Ok((k, _)) ==> i <= k < mounts.len(),
    decreases mounts.len() - i,
{
    if i < mounts.len() {
        lemma_resolve_index(mounts, p, i + 1);
    }
}

/// `r` is the first member, at position zero, whose path is the relative
/// path in the file system that takes `p`; `NotFound` when it holds no such
/// member; the resolution error when no file system takes `p`.
pub open spec fn opened(vfs: Vfs, p: Seq<u8>, r: Result<TarFile, VFSError>) -> bool {
    match resolve_from(vfs.paths(), p, 0) {
        Err(e) => r == Err::<TarFile, VFSError>(e),
        Ok((i, rel)) => {
            let ents = vfs.file_systems()[i].entries();
            match r {
                Ok(f) => exists|k: int|
                    0 <= k < ents.len() && ents[k].path == rel && (forall|j: int| 0 <= j < k ==> #[trigger] ents[j].path != rel)
                        && f.spec_path() == rel && f.spec_position() == 0 && f.spec_data_position() == ents[k].data_position
                        && f.spec_size() == ents[k].size,
                Err(e) => e == VFSError::NotFound && forall|k: int| 0 <= k < ents.len() ==> #[trigger] ents[k].path != rel,
            }
        },
    }
}

/// A file system mounted at a path.
pub struct Mount {
    path: Vec<u8>,
    fs: TarFS,
}

/// The mount table.
pub struct Vfs {
    mounts: Vec<Mount>,
}

impl Vfs {
    /// The mount paths, in the order of mounting.
    pub closed spec fn paths(&self) -> Seq<Seq<u8>> {
        Seq::new(self.mounts@.len(), |i: int| self.mounts@[i].path@)
    }

    /// The mounted file systems, in the same order.
    pub closed spec fn file_systems(&self) -> Seq<TarFS> {
        Seq::new(self.mounts@.len(), |i: int| self.mounts@[i].fs)
    }

    pub fn new() -> (r: Vfs)
        ensures
            r.paths() == Seq::<Seq<u8>>::empty(),
    {
        let r = Vfs { mounts: Vec::new() };
        assert(r.paths() =~= Seq::<Seq<u8>>::empty());
        r
    }

    /// Index of the first mount at `path`.
    fn position(&self, path: &[u8]) -> (r: Option<usize>)
        ensures
            match r {
                Some(i) => i < self.paths().len() && self.paths()[i as int] == path@ && forall|j: int|
                    0 <= j < i ==> #[trigger] self.paths()[j] != path@,
                None => forall|j: int| 0 <= j < self.paths().len() ==> #[trigger] self.paths()[j] != path@,
            },
    {
        let mut i: usize = 0;
        while i < self.mounts.len()
            invariant
                i <= self.mounts@.len(),
                forall|j: int| 0 <= j < i ==> #[trigger] self.paths()[j] != path@,
            decreases self.mounts@.len() - i,
        {
            if bytes_eq(self.mounts[i].path.as_slice(), path) {
                return Some(i);
            }
            i = i + 1;
        }
        None
    }

    /// Mounts `fs` at `path`, unless a file system is mounted there already.
    pub fn mount(&mut self, path: &str, fs: TarFS) -> (r: Result<(), VFSError>)
        ensures
            old(self).paths().contains(path.spec_bytes()) ==> r == Err::<(), VFSError>(VFSError::AlreadyExists)
                && final(self).paths() == old(self).paths() && final(self).file_systems() == old(self).file_systems(),
            !old(self).paths().contains(path.spec_bytes()) ==> r.is_ok() && final(self).paths() == old(self).paths().push(
                path.spec_bytes(),
            ) && final(self).file_systems() == old(self).file_systems().push(fs),
    {
        let bytes = path.as_bytes();
        match self.position(bytes) {
            Some(i) => {
                assert(self.paths()[i as int] == path.spec_bytes());
                Err(VFSError::AlreadyExists)
            },
            None => {
                let p = vstd::slice::slice_to_vec(bytes);
                self.mounts.push(Mount { path: p, fs });
                assert(self.paths() =~= old(self).paths().push(path.spec_bytes()));
                assert(self.file_systems() =~= old(self).file_systems().push(fs));
                Ok(())
            },
        }
    }

    /// Removes the first mount at `path`.
    pub fn unmount(&mut self, path: &str) -> (r: Result<(), VFSError>)
        ensures
            !old(self).paths().contains(path.spec_bytes()) ==> r == Err::<(), VFSError>(VFSError::NotFound)
                && final(self).paths() == old(self).paths(),
            old(self).paths().contains(path.spec_bytes()) ==> r.is_ok() && exists|i: int|
                0 <= i < old(self).paths().len() && old(self).paths()[i] == path.spec_bytes() && (forall|j: int|
                    0 <= j < i ==> #[trigger] old(self).paths()[j] != path.spec_bytes()) && final(self).paths()
                    == old(self).paths().remove(i) && final(self).file_systems() == old(self).file_systems().remove(i),
    {
        match self.position(path.as_bytes()) {
            Some(i) => {
                self.mounts.remove(i);
                assert(self.paths() =~= old(self).paths().remove(i as int));
                assert(self.file_systems() =~= old(self).file_systems().remove(i as int));
                Ok(())
            },
            None => Err(VFSError::NotFound),
        }
    }

    /// The mount that takes `path`, by index, and the path relative to it.
    pub fn resolve(&self, path: &str) -> (r: Result<(usize, Vec<u8>), VFSError>)
        ensures
            match resolve_from(self.paths(), path.spec_bytes(), 0) {
                Ok((i, rel)) => r.is_ok() && r.unwrap().0 == i && r.unwrap().1@ == rel,
                Err(e) => r == Err::<(usize, Vec<u8>), VFSError>(e),
            },
    {
        let p = path.as_bytes();
        let mut i: usize = 0;
        while i < self.mounts.len()
            invariant
                p@ == path.spec_bytes(),
                i <= self.mounts@.len(),
                resolve_from(self.paths(), p@, 0) == resolve_from(self.paths(), p@, i as int),
            decreases self.mounts@.len() - i,
        {
            let m = self.mounts[i].path.as_slice();
            assert(m@ == self.paths()[i as int]);
            let root: [u8; 1] = [47u8];
            assert(root@ =~= slash());
            if bytes_eq(m, root.as_slice()) {
                return Ok((i, vstd::slice::slice_to_vec(p)));
            }
            if bytes_eq(m, p) {
                return Ok((i, vstd::slice::slice_to_vec(root.as_slice())));
            }
            if starts_with(p, m) {
                let rest = tail(p, m.len());
                if rest.len() == 0 || bytes_eq(rest.as_slice(), root.as_slice()) {
                    return Ok((i, vstd::slice::slice_to_vec(root.as_slice())));
                }
                if rest[0] == 47u8 {
                    return Ok((i, rest));
                }
            }
            i = i + 1;
        }
        Err(VFSError::NotFound)
    }

    /// The file system mounted `i`-th.
    pub fn file_system(&self, i: usize) -> (r: Option<&TarFS>)
        ensures
            i < self.file_systems().len() ==> r == Some(&self.file_systems()[i as int]),
            i >= self.file_systems().len() ==> r.is_none(),
    {
        if i < self.mounts.len() {
            Some(&self.mounts[i].fs)
        } else {
            None
        }
    }

    /// Opens `path` in the file system that takes it.
    pub fn open(&self, path: &str, flags: u32) -> (r: Result<TarFile, VFSError>)
        ensures
            opened(*self, path.spec_bytes(), r),
    {
        let (i, rel) = match self.resolve(path) {
            Ok(x) => x,
            Err(e) => {
                return Err(e);
            },
        };
        proof {
            lemma_resolve_index(self.paths(), path.spec_bytes(), 0);
            assert(self.file_systems()[i as int] == self.mounts@[i as int].fs);
        }
        self.mounts[i].fs.open_bytes(rel.as_slice(), flags)
    }
}

/// Mounts the initial ram file system at `/init`.
pub fn install(vfs: &mut Vfs, initramfs: TarFS) -> (r: Result<(), VFSError>)
    ensures
        r.is_ok() == !old(vfs).paths().contains("/init".spec_bytes()),
        r.is_ok() ==> final(vfs).paths() == old(vfs).paths().push("/init".spec_bytes()),
{
    vfs.mount("/init", initramfs)
}

/// Opens `path` in the mount table `vfs`.
pub fn open(vfs: &Vfs, path: &str, flags: u32) -> (r: Result<TarFile, VFSError>)
    ensures
        opened(*vfs, path.spec_bytes(), r),
{
    vfs.open(path, flags)
}

} // verus!
