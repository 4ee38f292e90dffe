use crate::inode_id::InodeId;
use crate::inodes::Inodes;
use crate::object_id::ObjectId;
use vstd::prelude::*;

verus! {

/// Edits of the inode table that are collected first and applied together.
#[derive(Debug)]
pub struct InodeChangeset {
    to_remap: Vec<(InodeId, ObjectId)>,
    to_free: Vec<InodeId>,
}

impl Default for InodeChangeset {
    fn default() -> (r: Self)
        ensures
            r.remaps() == Seq::<(InodeId, ObjectId)>::empty(),
            r.frees() == Seq::<InodeId>::empty(),
    {
        InodeChangeset { to_remap: Vec::new(), to_free: Vec::new() }
    }
}

impl InodeChangeset {
    /// The collected remaps, oldest first.
    pub closed spec fn remaps(&self) -> Seq<(InodeId, ObjectId)> {
        self.to_remap@
    }

    /// The collected frees, oldest first.
    pub closed spec fn frees(&self) -> Seq<InodeId> {
        self.to_free@
    }

    pub fn remap(&mut self, src: InodeId, dst: ObjectId)
        ensures
            final(self).remaps() == old(self).remaps().push((src, dst)),
            final(self).frees() == old(self).frees(),
    {
        self.to_remap.push((src, dst));
    }

    pub fn free(&mut self, iid: InodeId)
        ensures
            final(self).remaps() == old(self).remaps(),
            final(self).frees() == old(self).frees().push(iid),
    {
        self.to_free.push(iid);
    }

    pub fn is_empty(&self) -> (r: bool)
        ensures
            r == (self.remaps().len() == 0 && self.frees().len() == 0),
    {
        self.to_remap.is_empty() && self.to_free.is_empty()
    }

    /// Applies the remaps in the order collected, then the frees.
    pub fn apply_to(self, inodes: &mut Inodes)
        ensures
            final(inodes)@ == old(inodes)@.apply(self.remaps(), self.frees()),
    {
        inodes.apply(&self.to_remap, &self.to_free);
    }
}

} // verus!
