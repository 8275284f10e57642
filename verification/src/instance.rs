//! The checks that make the single-instance lock trustworthy: its directory and
//! file must belong to the daemon's user and be out of reach of everyone else,
//! or another process could swap the lock file for its own.
use vstd::prelude::*;

verus! {

/// The lock directory is a directory of the effective user that neither the group
/// nor others may write to.
pub open spec fn private_directory(is_dir: bool, owner: u32, euid: u32, mode: u32) -> bool {
    &&& is_dir
    &&& owner == euid
    &&& mode & 0o022u32 == 0
}

/// The lock file is a regular file of the effective user with no other name.
pub open spec fn private_file(is_file: bool, owner: u32, euid: u32, links: u64) -> bool {
    &&& is_file
    &&& owner == euid
    &&& links == 1
}

pub fn lock_directory_ok(is_dir: bool, owner: u32, euid: u32, mode: u32) -> (r: bool)
    ensures
        r == private_directory(is_dir, owner, euid, mode),
{
    is_dir && owner == euid && mode & 0o022u32 == 0
}

pub fn lock_file_ok(is_file: bool, owner: u32, euid: u32, links: u64) -> (r: bool)
    ensures
        r == private_file(is_file, owner, euid, links),
{
    is_file && owner == euid && links == 1
}

} // verus!
