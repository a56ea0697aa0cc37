//! Inode ids, errors and metadata of the mounted filesystem.

use crate::tar::Tarfs;
use vstd::prelude::*;

verus! {

/// Inode id, stable for the lifetime of the mount. Zero names no inode.
pub type Inode = u32;

/// Why a filesystem operation failed.
#[derive(Clone, Copy, Debug, PartialEq, Eq, Structural)]
pub enum FsErr {
    NotFound,
    NotRegular,
    /// A directory was expected and the inode is something else.
    NotADirectory,
    BadInode,
    /// The block device is unavailable or returned an error.
    IoError,
    /// An argument outside the file's bounds, or a buffer too small for the
    /// next directory entry.
    BadRange,
}

/// File type bits of a mode word.
pub const S_IFMT: u32 = 0o170000;

pub const S_IFREG: u32 = 0o100000;

pub const S_IFDIR: u32 = 0o040000;

/// Unit in which `st_blocks` counts.
pub const STAT_BLOCK_UNIT: u64 = 512;

/// Metadata of an inode.
#[derive(Clone, Copy, Debug, PartialEq, Eq, Structural)]
pub struct Stat {
    pub st_dev: u64,
    pub st_ino: u64,
    pub st_mode: u32,
    pub st_nlink: u32,
    pub st_uid: u32,
    pub st_gid: u32,
    pub st_rdev: u64,
    pub st_size: i64,
    pub st_blksize: i32,
    pub st_blocks: i64,
    pub st_atime: i64,
    pub st_atime_nsec: u64,
    pub st_mtime: i64,
    pub st_mtime_nsec: u64,
    pub st_ctime: i64,
    pub st_ctime_nsec: u64,
}

/// The single mount point.
pub struct MountSlot {
    fs: Option<Tarfs>,
}

impl View for MountSlot {
    type V = Option<Tarfs>;

    closed spec fn view(&self) -> Option<Tarfs> {
        self.fs
    }
}

impl MountSlot {
    /// Nothing mounted yet.
    pub fn new() -> (r: Self)
        ensures
            r@ is None,
    {
        MountSlot { fs: None }
    }

    /// Publishes the boot filesystem. The first install wins; a later one does
    /// nothing.
    pub fn install(&mut self, fs: Tarfs)
        ensures
            final(self)@ == (if old(self)@ is None {
                Some(fs)
            } else {
                old(self)@
            }),
    {
        if self.fs.is_none() {
            self.fs = Some(fs);
        }
    }

    /// The mounted filesystem, if any.
    pub fn mounted(&self) -> (r: Option<&Tarfs>)
        ensures
            r == (match self@ {
                Some(fs) => Some(&fs),
                None => None,
            }),
    {
        self.fs.as_ref()
    }
}

} // verus!
