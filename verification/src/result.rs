use vstd::prelude::*;

verus! {

/// Why an operation on the store or the filesystem failed.
#[derive(Clone, Copy, Debug, PartialEq, Eq, Structural)]
pub enum FsError {
    /// A mutation was attempted through a non-writable origin.
    ReadOnly,
    /// An inode or a directory entry is absent.
    NotFound,
    /// Truncation to a nonzero size, or a rename across directories.
    NotImplemented,
    /// The container was opened with a fixed size and cannot take another slot.
    OutOfSpace,
    /// A slot does not hold what the structure around it expects.
    Corrupt,
    /// A slot outside the container, the header addressed as an ordinary
    /// object, an empty name, an exhausted counter or a closed transaction.
    Other,
}

pub type FsResult<T> = Result<T, FsError>;

} // verus!
