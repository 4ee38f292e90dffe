use crate::filesystem::{attr_spec, refines, Attr, Filesystem, FsState};
use crate::inode_id::InodeId;
use crate::object::{EntryObj, Object};
use crate::result::FsError;
use vstd::prelude::*;

verus! {

/// The entry with the attributes that are given set: the mode by its low
/// 16 bits, owner and group as they are, and, for a size of zero, no body
/// and no bytes.
pub open spec fn with_attrs(
    obj: EntryObj,
    mode: Option<u32>,
    uid: Option<u32>,
    gid: Option<u32>,
    size: Option<u64>,
) -> EntryObj {
    EntryObj {
        mode: match mode {
            Some(mode) => (mode % 65536) as u16,
            None => obj.mode,
        },
        uid: match uid {
            Some(uid) => uid,
            None => obj.uid,
        },
        gid: match gid {
            Some(gid) => gid,
            None => obj.gid,
        },
        size: if size.is_some() {
            0
        } else {
            obj.size
        },
        body: if size.is_some() {
            None
        } else {
            obj.body
        },
        ..obj
    }
}

impl FsState {
    /// The state after the attributes that are given have been set on a
    /// copy of the entry behind `iid`, and the new attributes. The only size
    /// that can be set is zero.
    pub open spec fn setattr(
        self,
        iid: InodeId,
        mode: Option<u32>,
        uid: Option<u32>,
        gid: Option<u32>,
        size: Option<u64>,
    ) -> Result<(FsState, Attr), FsError> {
        if !self.origin.is_writable() {
            Err(FsError::ReadOnly)
        } else {
            match self.begin_tx() {
                Ok(state) => match state.clone_inode(iid) {
                    Ok((state, new_oid)) => match state.store.get(new_oid) {
                        Ok(Object::Entry(obj)) => if size.is_some() && size != Some(0u64) {
                            Err(FsError::NotImplemented)
                        } else {
                            let obj = with_attrs(obj, mode, uid, gid, size);
                            match state.store.set(new_oid, Object::Entry(obj)) {
                                Ok(store) => match (FsState { store, ..state }).commit_tx() {
                                    Ok(state) => Ok((state, attr_spec(iid, obj))),
                                    Err(e) => Err(e),
                                },
                                Err(e) => Err(e),
                            }
                        },
                        Ok(_) => Err(FsError::Corrupt),
                        Err(e) => Err(e),
                    },
                    Err(e) => Err(e),
                },
                Err(e) => Err(e),
            }
        }
    }
}

impl Filesystem {
    pub fn setattr(
        &mut self,
        iid: InodeId,
        mode: Option<u32>,
        uid: Option<u32>,
        gid: Option<u32>,
        size: Option<u64>,
    ) -> (r: Result<Attr, FsError>)
        requires
            old(self).wf(),
        ensures
            final(self).wf(),
            !old(self)@.origin.is_writable() ==> final(self)@ == old(self)@,
            refines(r, final(self)@, old(self)@.setattr(iid, mode, uid, gid, size)),
    {
        if !self.origin.is_writable() {
            return Err(FsError::ReadOnly);
        }
        self.begin_tx()?;
        let new_oid = self.clone_inode(iid)?;
        let mut obj = self.objects.get(new_oid)?.into_entry(new_oid)?;
        if let Some(mode) = mode {
            obj.mode = (mode % 65536) as u16;
        }
        if let Some(uid) = uid {
            obj.uid = uid;
        }
        if let Some(gid) = gid {
            obj.gid = gid;
        }
        let truncate = match size {
            Some(0) => true,
            Some(_) => {
                return Err(FsError::NotImplemented);
            },
            None => false,
        };
        if truncate {
            obj.size = 0;
            obj.body = None;
        }
        self.objects.set(new_oid, Object::Entry(obj))?;
        self.commit_tx()?;
        Ok(Self::attr(iid, obj))
    }
}

} // verus!
