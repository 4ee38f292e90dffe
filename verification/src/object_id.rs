use vstd::prelude::*;

verus! {

/// Index of a 32-byte slot in the container; slot 0 holds the header.
#[derive(Clone, Copy, Debug, PartialEq, Eq, PartialOrd, Ord, Hash, Structural)]
pub struct ObjectId(pub u32);

impl ObjectId {
    /// The id of the slot that always holds the header.
    pub fn header() -> (r: Self)
        ensures
            r.0 == 0,
    {
        Self(0)
    }

    pub fn new(oid: u32) -> (r: Self)
        ensures
            r.0 == oid,
    {
        Self(oid)
    }

    pub fn get(self) -> (r: u32)
        ensures
            r == self.0,
    {
        self.0
    }
}

} // verus!
