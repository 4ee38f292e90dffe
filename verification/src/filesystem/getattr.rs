use crate::filesystem::{attr_spec, Attr, Filesystem, FsState};
use crate::inode_id::InodeId;
use crate::object::Object;
use crate::result::FsError;
use vstd::prelude::*;

verus! {

impl FsState {
    /// The attributes of inode `iid`, from the entry that it stands for.
    pub open spec fn getattr(self, iid: InodeId) -> Result<Attr, FsError> {
        match self.inodes.resolve_object(iid) {
            Ok(oid) => match self.store.get(oid) {
                Ok(Object::Entry(obj)) => Ok(attr_spec(iid, obj)),
                Ok(_) => Err(FsError::Corrupt),
                Err(e) => Err(e),
            },
            Err(_) => Err(FsError::NotFound),
        }
    }
}

impl Filesystem {
    pub fn getattr(&self, iid: InodeId) -> (r: Result<Attr, FsError>)
        requires
            self.wf(),
        ensures
            r == self@.getattr(iid),
    {
        let oid = match self.inodes.resolve_object(iid) {
            Ok(oid) => oid,
            Err(_) => {
                return Err(FsError::NotFound);
            },
        };
        let obj = self.objects.get(oid)?.into_entry(oid)?;
        Ok(Self::attr(iid, obj))
    }
}

} // verus!
