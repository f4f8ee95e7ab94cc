//! How the mounted tree answers: a root directory holding one file, the
//! overlay's virtual file.

use vstd::prelude::*;

verus! {

/// Inode of the root directory.
pub const ROOT_INO: u64 = 1;

/// Inode of the virtual file.
pub const FILE_INO: u64 = 2;

/// How a request on the mounted tree fails.
#[derive(Debug, PartialEq, Eq, Structural, Clone, Copy)]
pub enum FsError {
    /// No such inode or name.
    NotFound,
    /// The inode exists but the request does not apply to it.
    InvalidArgument,
    /// The overlay failed.
    Io,
}

/// What an inode is.
#[derive(Debug, PartialEq, Eq, Structural, Clone, Copy)]
pub enum NodeKind {
    Directory,
    RegularFile,
}

/// Resolves `name` under `parent`: only the virtual file's own name, under
/// the root, is found.
pub fn lookup(parent: u64, name: &[u8], file_name: &[u8]) -> (r: Result<u64, FsError>)
    ensures
        r == if parent == ROOT_INO && name@ == file_name@ {
            Ok::<u64, FsError>(FILE_INO)
        } else {
            Err::<u64, FsError>(FsError::NotFound)
        },
{
    if parent != ROOT_INO || name.len() != file_name.len() {
        return Err(FsError::NotFound);
    }
    let mut i: usize = 0;
    while i < name.len()
        invariant
            name@.len() == file_name@.len(),
            i <= name@.len(),
            forall|j: int| 0 <= j < i ==> name@[j] == file_name@[j],
        decreases name@.len() - i,
    {
        if name[i] != file_name[i] {
            return Err(FsError::NotFound);
        }
        i = i + 1;
    }
    assert(name@ =~= file_name@);
    Ok(FILE_INO)
}

/// What `ino` is, for its attributes.
pub fn node_kind(ino: u64) -> (r: Result<NodeKind, FsError>)
    ensures
        r == if ino == ROOT_INO {
            Ok::<NodeKind, FsError>(NodeKind::Directory)
        } else if ino == FILE_INO {
            Ok::<NodeKind, FsError>(NodeKind::RegularFile)
        } else {
            Err::<NodeKind, FsError>(FsError::NotFound)
        },
{
    if ino == ROOT_INO {
        Ok(NodeKind::Directory)
    } else if ino == FILE_INO {
        Ok(NodeKind::RegularFile)
    } else {
        Err(FsError::NotFound)
    }
}

/// Reading a link fails: neither inode is one, and others do not exist.
pub fn readlink(ino: u64) -> (r: FsError)
    ensures
        r == if ino == ROOT_INO || ino == FILE_INO { FsError::InvalidArgument } else { FsError::NotFound },
{
    if ino == ROOT_INO || ino == FILE_INO {
        FsError::InvalidArgument
    } else {
        FsError::NotFound
    }
}

/// Accepts a request on the virtual file's contents only for its inode.
pub fn check_file(ino: u64) -> (r: Result<(), FsError>)
    ensures
        r == if ino == FILE_INO { Ok::<(), FsError>(()) } else { Err::<(), FsError>(FsError::NotFound) },
{
    if ino == FILE_INO {
        Ok(())
    } else {
        Err(FsError::NotFound)
    }
}

/// Number of 512-byte units that `file_size` bytes take, rounded up.
pub fn block_count(file_size: u64) -> (r: u64)
    ensures
        r == (file_size as int + 511) / 512,
{
    file_size / 512 + if file_size % 512 == 0 { 0 } else { 1 }
}

} // verus!
