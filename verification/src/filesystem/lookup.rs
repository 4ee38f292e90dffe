use crate::filesystem::{attr_spec, refines, Attr, Filesystem, FsState};
use crate::inode_id::InodeId;
use crate::result::FsError;
use vstd::prelude::*;

verus! {

impl FsState {
    /// The attributes of the child of `parent_iid` named `name`, found
    /// within a transaction of its own that stages nothing.
    pub open spec fn lookup(self, parent_iid: InodeId, name: Seq<u8>) -> Result<
        (FsState, Attr),
        FsError,
    > {
        match self.begin_tx() {
            Ok(state) => match state.find(parent_iid, name) {
                Ok((state, (iid, obj))) => match state.commit_tx() {
                    Ok(state) => Ok((state, attr_spec(iid, obj))),
                    Err(e) => Err(e),
                },
                Err(e) => Err(e),
            },
            Err(e) => Err(e),
        }
    }
}

impl Filesystem {
    pub fn lookup(&mut self, parent_iid: InodeId, name: &[u8]) -> (r: Result<Attr, FsError>)
        requires
            old(self).wf(),
        ensures
            final(self).wf(),
            refines(r, final(self)@, old(self)@.lookup(parent_iid, name@)),
    {
        self.begin_tx()?;
        let (iid, obj) = self.find(parent_iid, name)?;
        self.commit_tx()?;
        Ok(Self::attr(iid, obj))
    }
}

} // verus!
