use crate::filesystem::{refines, Filesystem, FsState};
use crate::inode_id::InodeId;
use crate::result::FsError;
use vstd::prelude::*;

verus! {

impl FsState {
    /// The state after the child of `parent_iid` named `name` has been left
    /// out of a copy of its directory, whether it is a file or a directory,
    /// empty or not.
    pub open spec fn rm(self, parent_iid: InodeId, name: Seq<u8>) -> Result<(FsState, ()), FsError> {
        if !self.origin.is_writable() {
            Err(FsError::ReadOnly)
        } else {
            match self.begin_tx() {
                Ok(state) => match state.find(parent_iid, name) {
                    Ok((state, (iid, _))) => match state.delete_inode(iid) {
                        Ok((state, _)) => match state.commit_tx() {
                            Ok(state) => Ok((state, ())),
                            Err(e) => Err(e),
                        },
                        Err(e) => Err(e),
                    },
                    Err(e) => Err(e),
                },
                Err(e) => Err(e),
            }
        }
    }
}

impl Filesystem {
    pub fn unlink(&mut self, parent_iid: InodeId, name: &[u8]) -> (r: Result<(), FsError>)
        requires
            old(self).wf(),
        ensures
            final(self).wf(),
            !old(self)@.origin.is_writable() ==> final(self)@ == old(self)@,
            refines(r, final(self)@, old(self)@.rm(parent_iid, name@)),
    {
        self.rm(parent_iid, name)
    }

    pub fn rmdir(&mut self, parent_iid: InodeId, name: &[u8]) -> (r: Result<(), FsError>)
        requires
            old(self).wf(),
        ensures
            final(self).wf(),
            !old(self)@.origin.is_writable() ==> final(self)@ == old(self)@,
            refines(r, final(self)@, old(self)@.rm(parent_iid, name@)),
    {
        self.rm(parent_iid, name)
    }

    fn rm(&mut self, parent_iid: InodeId, name: &[u8]) -> (r: Result<(), FsError>)
        requires
            old(self).wf(),
        ensures
            final(self).wf(),
            !old(self)@.origin.is_writable() ==> final(self)@ == old(self)@,
            refines(r, final(self)@, old(self)@.rm(parent_iid, name@)),
    {
        if !self.origin.is_writable() {
            return Err(FsError::ReadOnly);
        }
        self.begin_tx()?;
        let (iid, _) = self.find(parent_iid, name)?;
        self.delete_inode(iid)?;
        self.commit_tx()?;
        Ok(())
    }
}

} // verus!
