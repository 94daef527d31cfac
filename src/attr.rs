//! File attributes and the time stamps they carry.

use vstd::prelude::*;

verus! {

/// Bit mask of the file-type bits of a mode.
pub const S_IFMT: u32 = 0o170000;

/// File-type bits of a directory.
pub const S_IFDIR: u32 = 0o040000;

/// File-type bits of a regular file.
pub const S_IFREG: u32 = 0o100000;

/// A point in time: seconds since the Unix epoch and the nanoseconds past them.
#[derive(Clone, Copy, Debug, PartialEq, Eq, Structural)]
pub struct Timestamp {
    pub secs: i64,
    pub nanos: u32,
}

/// The attributes of an inode, as the kernel sees them.
#[derive(Clone, Copy, Debug, PartialEq, Eq, Structural)]
pub struct FileAttr {
    pub ino: u64,
    pub size: u64,
    pub mode: u32,
    pub nlink: u32,
    pub uid: u32,
    pub gid: u32,
    pub atime: Timestamp,
    pub mtime: Timestamp,
    pub ctime: Timestamp,
}

pub open spec fn is_dir_mode(mode: u32) -> bool {
    mode & S_IFMT == S_IFDIR
}

pub open spec fn is_file_mode(mode: u32) -> bool {
    mode & S_IFMT == S_IFREG
}

/// The directory-entry type that goes with a mode (the file-type bits shifted down).
pub open spec fn dirent_type(mode: u32) -> u32 {
    (mode & S_IFMT) >> 12u32
}

/// `a` is no later than `b`.
pub open spec fn time_le(a: Timestamp, b: Timestamp) -> bool {
    a.secs < b.secs || (a.secs == b.secs && a.nanos <= b.nanos)
}

/// `t` moved `secs` seconds on, held at the bounds of `i64`.
pub open spec fn time_plus(t: Timestamp, secs: i64) -> Timestamp {
    let s = t.secs + secs;
    Timestamp {
        secs: if s > i64::MAX { i64::MAX } else if s < i64::MIN { i64::MIN } else { s as i64 },
        nanos: t.nanos,
    }
}

impl Timestamp {
    /// The earliest time that can be written.
    pub fn epoch_min() -> (r: Timestamp)
        ensures
            r.secs == i64::MIN,
            r.nanos == 0,
    {
        Timestamp { secs: i64::MIN, nanos: 0 }
    }

    pub fn le(&self, other: &Timestamp) -> (r: bool)
        ensures
            r == time_le(*self, *other),
    {
        self.secs < other.secs || (self.secs == other.secs && self.nanos <= other.nanos)
    }

    pub fn plus_secs(&self, secs: i64) -> (r: Timestamp)
        ensures
            r == time_plus(*self, secs),
    {
        let s: i64 = match self.secs.checked_add(secs) {
            Some(s) => s,
            None => if secs > 0 { i64::MAX } else { i64::MIN },
        };
        Timestamp { secs: s, nanos: self.nanos }
    }
}

impl FileAttr {
    /// Attributes with every field zero.
    pub fn zeroed() -> (r: FileAttr)
        ensures
            r.ino == 0 && r.size == 0 && r.mode == 0 && r.nlink == 0,
            r.uid == 0 && r.gid == 0,
            r.atime == (Timestamp { secs: 0, nanos: 0 }),
            r.mtime == r.atime && r.ctime == r.atime,
    {
        let t = Timestamp { secs: 0, nanos: 0 };
        FileAttr { ino: 0, size: 0, mode: 0, nlink: 0, uid: 0, gid: 0, atime: t, mtime: t, ctime: t }
    }

    pub fn is_dir(&self) -> (r: bool)
        ensures
            r == is_dir_mode(self.mode),
    {
        self.mode & S_IFMT == S_IFDIR
    }

    pub fn is_file(&self) -> (r: bool)
        ensures
            r == is_file_mode(self.mode),
    {
        self.mode & S_IFMT == S_IFREG
    }

    pub fn dirent_type(&self) -> (r: u32)
        ensures
            r == dirent_type(self.mode),
    {
        (self.mode & S_IFMT) >> 12u32
    }
}

} // verus!
