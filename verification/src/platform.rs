//! How files are read, and what is known of the file systems they lie on.

use vstd::prelude::*;
#[allow(unused_imports)]
use vstd::utf8::encode_utf8;

use crate::path::copy_bytes;
use crate::text::lossy;
#[allow(unused_imports)]
use crate::text::lossy_text;
use crate::walker::WorkItem;

verus! {

/// Files of this size or more are mapped into memory, smaller ones are read.
pub const MMAP_THRESHOLD: u64 = 1_048_576;

/// What is known of the file system that a path lies on.
#[derive(Clone, Debug)]
pub struct FsInfo {
    /// Its type: `apfs`, `exfat`, `msdos`, ...
    pub fs_type: String,
    /// Block size that the system suggests for transfers.
    pub iosize: u32,
    /// Fundamental block size.
    pub bsize: u32,
    /// Where it is mounted.
    pub mount_point: Vec<u8>,
}

/// What the system told about a file system.
pub enum FsStat {
    /// Type and mount point by name, and both block sizes.
    Named { fs_type: Vec<u8>, mount_point: Vec<u8>, iosize: i64, bsize: i64 },
    /// The block size only.
    Sized { bsize: i64 },
    /// Nothing.
    Unknown,
}

/// How the contents of a file are obtained.
#[derive(Copy, Clone, Debug, PartialEq, Eq, Structural)]
pub enum ReadMode {
    /// Mapped into memory.
    MemoryMap,
    /// Read, with or without passing by the page cache.
    Read { bypass_cache: bool },
    /// Handed to the system's dispatch queues.
    Dispatch,
}

/// Reads from the local file system.
#[derive(Copy, Clone, Debug, PartialEq, Eq, Structural)]
pub struct LocalFsSource {
    /// Whether what was read stays in the page cache.
    pub keep_cache: bool,
}

/// Reads small files through dispatch queues.
#[derive(Copy, Clone, Debug, PartialEq, Eq, Structural)]
pub struct DispatchIoSource {
    pub keep_cache: bool,
}

/// The low 32 bits of a number.
pub open spec fn low_word(n: int) -> int {
    n % 0x1_0000_0000
}

fn word_of(n: i64) -> (r: u32)
    ensures
        r == low_word(n as int),
{
    let wide: i128 = n as i128;
    let m: i128 = if wide < 0 {
        wide + 0x1_0000_0000_0000_0000
    } else {
        wide
    };
    (m % 0x1_0000_0000) as u32
}

/// What is known of a file system from what the system told.
pub fn fs_info(stat: &FsStat) -> (r: FsInfo)
    ensures
        match *stat {
            FsStat::Named { fs_type, mount_point, iosize, bsize } => {
                &&& r.fs_type@ == lossy_text(fs_type@)
                &&& r.mount_point@ == encode_utf8(lossy_text(mount_point@))
                &&& r.iosize == (if iosize < 0 {
                    0
                } else {
                    low_word(iosize as int)
                })
                &&& r.bsize == low_word(bsize as int)
            },
            FsStat::Sized { bsize } => {
                &&& r.fs_type@ == "unknown"@
                &&& r.mount_point@ == seq![47u8]
                &&& r.iosize == low_word(bsize as int)
                &&& r.bsize == low_word(bsize as int)
            },
            FsStat::Unknown => {
                &&& r.fs_type@ == "unknown"@
                &&& r.mount_point@ == seq![47u8]
                &&& r.iosize == 65_536
                &&& r.bsize == 4096
            },
        },
{
    let mut root: Vec<u8> = Vec::new();
    root.push(47);
    assert(root@ =~= seq![47u8]);
    match stat {
        FsStat::Named { fs_type, mount_point, iosize, bsize } => {
            let text = lossy(mount_point.as_slice());
            let bytes = text.as_str().as_bytes();
            let mount = copy_bytes(bytes, 0, bytes.len());
            assert(mount@ =~= bytes@);
            FsInfo {
                fs_type: lossy(fs_type.as_slice()),
                iosize: if *iosize < 0 {
                    0
                } else {
                    word_of(*iosize)
                },
                bsize: word_of(*bsize),
                mount_point: mount,
            }
        },
        FsStat::Sized { bsize } => FsInfo {
            fs_type: "unknown".to_owned(),
            iosize: word_of(*bsize),
            bsize: word_of(*bsize),
            mount_point: root,
        },
        FsStat::Unknown => FsInfo {
            fs_type: "unknown".to_owned(),
            iosize: 65_536,
            bsize: 4096,
            mount_point: root,
        },
    }
}

/// How a file of a given size is read.
pub fn read_mode(size: u64, keep_cache: bool) -> (r: ReadMode)
    ensures
        r == (if size >= 1_048_576 {
            ReadMode::MemoryMap
        } else {
            ReadMode::Read { bypass_cache: !keep_cache }
        }),
{
    if size >= MMAP_THRESHOLD {
        ReadMode::MemoryMap
    } else {
        ReadMode::Read { bypass_cache: !keep_cache }
    }
}

/// How many bytes the system is advised to read ahead: all, as far as a
/// signed 32-bit count goes.
pub fn rdadvise_count(len: u64) -> (n: i32)
    ensures
        n == (if len > i32::MAX {
            i32::MAX as int
        } else {
            len as int
        }),
{
    if len > 0x7FFF_FFFF {
        0x7FFF_FFFF
    } else {
        len as i32
    }
}

/// Whether an item can be opened relative to its directory: that needs the
/// directory open and the name of the item in it.
pub fn opens_relative(item: &WorkItem, directory_open: bool) -> (r: bool)
    ensures
        r == (directory_open && item.basename is Some),
{
    directory_open && item.basename.is_some()
}

impl LocalFsSource {
    /// How an item is read.
    pub fn mode(&self, item: &WorkItem) -> (r: ReadMode)
        ensures
            r == (if item.size >= 1_048_576 {
                ReadMode::MemoryMap
            } else {
                ReadMode::Read { bypass_cache: !self.keep_cache }
            }),
    {
        read_mode(item.size, self.keep_cache)
    }

    /// Whether it is reported that an item had to be opened by its path
    /// because it could not be opened relative to its directory.
    pub fn reports_fallback(&self) -> (r: bool)
        ensures
            r == self.keep_cache,
    {
        self.keep_cache
    }
}

impl DispatchIoSource {
    /// How an item is read: large ones as from the local file system.
    pub fn mode(&self, item: &WorkItem) -> (r: ReadMode)
        ensures
            r == (if item.size >= 1_048_576 {
                ReadMode::MemoryMap
            } else {
                ReadMode::Dispatch
            }),
    {
        if item.size >= MMAP_THRESHOLD {
            read_mode(item.size, self.keep_cache)
        } else {
            ReadMode::Dispatch
        }
    }
}

/// A size is kept in 32 bits: as it is where it fits, and its low bits
/// otherwise.
pub proof fn law_low_word(n: int)
    ensures
        0 <= low_word(n) < 0x1_0000_0000,
        (n - low_word(n)) % 0x1_0000_0000 == 0,
        0 <= n < 0x1_0000_0000 ==> low_word(n) == n,
{
}

} // verus!
