//! The virtual file system: mounted file systems, found by path.

pub mod mount;
pub mod tarfs;
pub mod types;
