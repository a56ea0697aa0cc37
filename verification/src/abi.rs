//! Numbers shared between the kernel and its user programs.

use vstd::prelude::*;

verus! {

/// Size of a base page in bytes.
pub const PAGE_SIZE: u64 = 4096;

pub const EPERM: i32 = 1;
pub const ENOENT: i32 = 2;
pub const ESRCH: i32 = 3;
pub const EIO: i32 = 5;
pub const ENOEXEC: i32 = 8;
pub const EBADF: i32 = 9;
pub const ECHILD: i32 = 10;
pub const EAGAIN: i32 = 11;
pub const ENOMEM: i32 = 12;
pub const EACCES: i32 = 13;
pub const EFAULT: i32 = 14;
pub const EBUSY: i32 = 16;
pub const ENOTDIR: i32 = 20;
pub const EISDIR: i32 = 21;
pub const EINVAL: i32 = 22;
pub const EMFILE: i32 = 24;
pub const ERANGE: i32 = 34;
pub const ENAMETOOLONG: i32 = 36;

/// Page permission bits: read, write, execute, and the user's reach.
#[derive(Clone, Copy, Debug, PartialEq, Eq, Structural)]
pub struct PagePerms {
    pub r: u64,
    pub w: u64,
    pub x: u64,
    pub u: u64,
}

/// The value a system call hands back for error number `e`: its negation.
pub open spec fn errno_ret(e: i32) -> i64 {
    (-(e as int)) as i64
}

/// Encodes an error number as a system call return value.
pub fn to_ret(e: i32) -> (r: i64)
    requires
        0 <= e,
    ensures
        r == errno_ret(e),
        r == -(e as int),
{
    -(e as i64)
}

/// A call was refused with error number `e`.
pub open spec fn refused<T>(r: Result<T, i64>, e: int) -> bool {
    r matches Err(v) && v == -e
}

/// Whether `[va, va + len)` lies below `end`, the end of the user half.
pub open spec fn range_below(va: u64, len: u64, end: u64) -> bool {
    va + len <= end
}

/// Bound-checks a user range: no overflow, nothing at or above `end`.
pub fn user_range_ok(va: u64, len: u64, end: u64) -> (r: bool)
    ensures
        r == range_below(va, len, end),
{
    va <= end && len <= end - va
}

} // verus!
