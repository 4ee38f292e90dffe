use crate::result::FsError;
use vstd::prelude::*;

verus! {

/// Kernel-visible identifier of a file or directory; 1 is the root.
#[derive(Clone, Copy, Debug, PartialEq, Eq, PartialOrd, Ord, Hash, Structural)]
pub struct InodeId(pub u64);

impl InodeId {
    pub open spec fn spec_root() -> Self {
        InodeId(1)
    }

    /// The root inode.
    #[verifier::when_used_as_spec(spec_root)]
    pub fn root() -> (r: Self)
        ensures
            r == Self::spec_root(),
    {
        Self(1)
    }

    pub fn new(iid: u64) -> (r: Self)
        ensures
            r.0 == iid,
    {
        Self(iid)
    }

    /// Hands out the current id and advances to the next one; fails, leaving
    /// the counter as it is, once the ids are exhausted.
    pub fn fetch_add(&mut self) -> (r: Result<Self, FsError>)
        ensures
            match r {
                Ok(this) => {
                    &&& old(self).0 < u64::MAX
                    &&& this == *old(self)
                    &&& final(self).0 == old(self).0 + 1
                },
                Err(e) => {
                    &&& old(self).0 == u64::MAX
                    &&& e == FsError::Other
                    &&& *final(self) == *old(self)
                },
            },
    {
        let this = *self;
        match self.0.checked_add(1) {
            Some(next) => {
                self.0 = next;
                Ok(this)
            },
            None => Err(FsError::Other),
        }
    }

    pub fn is_root(self) -> (r: bool)
        ensures
            r == (self.0 == 1),
    {
        self.0 == 1
    }

    pub fn get(self) -> (r: u64)
        ensures
            r == self.0,
    {
        self.0
    }
}

} // verus!
