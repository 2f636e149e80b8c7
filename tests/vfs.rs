use kmem::vfs::mount::{self, Vfs};
use kmem::vfs::tarfs::{TarFS, oct_to_bin};
use kmem::vfs::types::{VFSError, VFSFileType, VFSMetadata, VFSSeek};

fn header(name: &str, size: usize) -> Vec<u8> {
    let mut h = vec![0u8; 512];
    h[..name.len()].copy_from_slice(name.as_bytes());
    let digits = format!("{:011o}", size);
    h[124..135].copy_from_slice(digits.as_bytes());
    h[257..262].copy_from_slice(b"ustar");
    h
}

fn archive() -> Vec<u8> {
    let mut d = Vec::new();
    d.extend(header("./hello.txt", 5));
    let mut block = vec![0u8; 512];
    block[..5].copy_from_slice(b"hello");
    d.extend(block);
    d.extend(header("dir/", 0));
    d.extend(header("notes", 600));
    let mut data = vec![b'n'; 600];
    data.resize(1024, 0);
    d.extend(data);
    d.extend(vec![0u8; 1024]);
    d
}

#[test]
fn oct_to_bin_reads_octal() {
    assert_eq!(oct_to_bin(b""), 0);
    assert_eq!(oct_to_bin(b"7"), 7);
    assert_eq!(oct_to_bin(b"00000000005"), 5);
    assert_eq!(oct_to_bin(b"00000001130"), 600);
    assert_eq!(oct_to_bin(b"77777777777"), 8589934591);
}

#[test]
fn tarfs_finds_members() {
    let fs = TarFS::new(archive());
    assert!(fs.get_file("/hello.txt").is_ok());
    assert!(fs.get_file("/notes").is_ok());
    // Members of size zero are skipped.
    assert_eq!(fs.get_file("/dir/").err(), Some(VFSError::NotFound));
    assert_eq!(fs.get_file("hello.txt").err(), Some(VFSError::NotFound));
    assert_eq!(
        fs.metadata("/notes"),
        Ok(VFSMetadata { file_type: VFSFileType::File, size: 600 })
    );
    assert_eq!(fs.metadata("/nope").err(), Some(VFSError::NotFound));
}

#[test]
fn tarfs_stops_at_bad_header() {
    let mut d = archive();
    d[1024 + 257] = b'x';
    let fs = TarFS::new(d);
    assert!(fs.get_file("/hello.txt").is_ok());
    assert!(fs.get_file("/notes").is_err());
    let empty = TarFS::new(Vec::new());
    assert!(empty.get_file("/hello.txt").is_err());
}

#[test]
fn tar_file_seek_and_read() {
    let fs = TarFS::new(archive());
    let mut f = fs.open("/hello.txt", 0).unwrap();
    assert_eq!(f.metadata(), Ok(VFSMetadata { file_type: VFSFileType::File, size: 5 }));
    assert_eq!(f.seek(VFSSeek::Start(0)), Ok(512));
    let mut buf = vec![0u8; 16];
    assert_eq!(f.read(&fs, &mut buf), Ok(5));
    assert_eq!(&buf[..5], b"hello");
    assert_eq!(buf[5], 0);
    assert_eq!(f.seek(VFSSeek::Start(2)), Ok(514));
    let mut two = vec![0u8; 2];
    assert_eq!(f.read(&fs, &mut two), Ok(2));
    assert_eq!(&two, b"ll");
    assert_eq!(f.seek(VFSSeek::End(10)), Ok(517));
    assert_eq!(f.seek(VFSSeek::Current(3)), Ok(512));
    assert_eq!(f.seek(VFSSeek::Current(515)), Ok(515));
    assert_eq!(f.seek(VFSSeek::Current(usize::MAX)), Err(VFSError::InvalidSeek));
    assert_eq!(f.seek(VFSSeek::Start(usize::MAX)), Ok(512));
    let mut one = vec![0u8; 1];
    assert_eq!(f.read(&fs, &mut one), Ok(1));
    assert_eq!(one[0], b'h');
}

#[test]
fn mount_and_resolve() {
    let mut vfs = Vfs::new();
    assert_eq!(vfs.resolve("/init/hello.txt").err(), Some(VFSError::NotFound));
    assert_eq!(mount::install(&mut vfs, TarFS::new(archive())), Ok(()));
    assert_eq!(vfs.resolve("/init/hello.txt"), Ok((0, b"/hello.txt".to_vec())));
    assert_eq!(vfs.resolve("/init"), Ok((0, b"/".to_vec())));
    assert_eq!(vfs.resolve("/init/"), Ok((0, b"/".to_vec())));
    assert_eq!(vfs.resolve("/initrd").err(), Some(VFSError::NotFound));
    assert_eq!(vfs.mount("/init", TarFS::new(Vec::new())), Err(VFSError::AlreadyExists));
    assert_eq!(vfs.mount("/", TarFS::new(Vec::new())), Ok(()));
    assert_eq!(vfs.resolve("/initrd"), Ok((1, b"/initrd".to_vec())));
}

#[test]
fn open_through_mount() {
    let mut vfs = Vfs::new();
    mount::install(&mut vfs, TarFS::new(archive())).unwrap();
    let f = mount::open(&vfs, "/init/notes", 0).unwrap();
    assert_eq!(f.metadata().unwrap().size, 600);
    assert_eq!(mount::open(&vfs, "/init/missing", 0).err(), Some(VFSError::NotFound));
    assert_eq!(mount::open(&vfs, "/other", 0).err(), Some(VFSError::NotFound));
}

#[test]
fn unmount_removes_first_match() {
    let mut vfs = Vfs::new();
    assert_eq!(vfs.unmount("/init"), Err(VFSError::NotFound));
    vfs.mount("/init", TarFS::new(archive())).unwrap();
    vfs.mount("/", TarFS::new(Vec::new())).unwrap();
    assert_eq!(vfs.unmount("/init"), Ok(()));
    assert_eq!(vfs.resolve("/init/hello.txt"), Ok((0, b"/init/hello.txt".to_vec())));
    assert_eq!(vfs.unmount("/init"), Err(VFSError::NotFound));
}

#[test]
fn open_returns_first_member_with_the_path() {
    let mut d = Vec::new();
    d.extend(header("twice", 3));
    d.extend(vec![0u8; 512]);
    d.extend(header("twice", 7));
    d.extend(vec![0u8; 512]);
    d.extend(vec![0u8; 1024]);
    let mut vfs = Vfs::new();
    mount::install(&mut vfs, TarFS::new(d)).unwrap();
    let f = mount::open(&vfs, "/init/twice", 0).unwrap();
    assert_eq!(f.metadata().unwrap().size, 3);
    assert_eq!(f.data_position(), 512);
}
