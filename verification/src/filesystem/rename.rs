use crate::filesystem::ops::bytes_eq;
use crate::filesystem::{refines, Filesystem, FsState};
use crate::inode_id::InodeId;
use crate::object::{EntryObj, Object};
use crate::result::FsError;
use vstd::prelude::*;

verus! {

impl FsState {
    /// The state after the child of `old_parent_iid` named `old_name` has
    /// been given the name `new_name`, on a copy of its entry. The child is
    /// looked up first. A rename to the same name leaves the transaction
    /// open and changes nothing else; one into another directory is not
    /// implemented; a new name without bytes fails.
    pub open spec fn rename(
        self,
        old_parent_iid: InodeId,
        old_name: Seq<u8>,
        new_parent_iid: InodeId,
        new_name: Seq<u8>,
    ) -> Result<(FsState, ()), FsError> {
        if !self.origin.is_writable() {
            Err(FsError::ReadOnly)
        } else {
            match self.begin_tx() {
                Ok(state) => match state.find(old_parent_iid, old_name) {
                    Ok((state, (iid, _))) => if old_parent_iid != new_parent_iid {
                        Err(FsError::NotImplemented)
                    } else if new_name == old_name {
                        Ok((state, ()))
                    } else {
                        match state.clone_inode(iid) {
                            Ok((state, new_oid)) => match state.store.get(new_oid) {
                                Ok(Object::Entry(obj)) => match state.store.alloc_payload(
                                    true,
                                    state.tx,
                                    new_name,
                                ) {
                                    Ok((store, tx, Some(name))) => match store.set(
                                        new_oid,
                                        Object::Entry(EntryObj { name, ..obj }),
                                    ) {
                                        Ok(store) => match (FsState {
                                            store,
                                            tx,
                                            ..state
                                        }).commit_tx() {
                                            Ok(state) => Ok((state, ())),
                                            Err(e) => Err(e),
                                        },
                                        Err(e) => Err(e),
                                    },
                                    Ok((_, _, None)) => Err(FsError::Other),
                                    Err(e) => Err(e),
                                },
                                Ok(_) => Err(FsError::Corrupt),
                                Err(e) => Err(e),
                            },
                            Err(e) => Err(e),
                        }
                    },
                    Err(e) => Err(e),
                },
                Err(e) => Err(e),
            }
        }
    }
}

impl Filesystem {
    pub fn rename(
        &mut self,
        old_parent_iid: InodeId,
        old_name: &[u8],
        new_parent_iid: InodeId,
        new_name: &[u8],
    ) -> (r: Result<(), FsError>)
        requires
            old(self).wf(),
        ensures
            final(self).wf(),
            !old(self)@.origin.is_writable() ==> final(self)@ == old(self)@,
            refines(
                r,
                final(self)@,
                old(self)@.rename(old_parent_iid, old_name@, new_parent_iid, new_name@),
            ),
    {
        if !self.origin.is_writable() {
            return Err(FsError::ReadOnly);
        }
        self.begin_tx()?;
        let (iid, _) = self.find(old_parent_iid, old_name)?;
        if old_parent_iid.0 == new_parent_iid.0 {
            if bytes_eq(new_name, old_name) {
                return Ok(());
            }
            let new_oid = self.clone_inode(iid)?;
            let obj = self.objects.get(new_oid)?.into_entry(new_oid)?;
            let name = match self.objects.alloc_payload(Some(&mut self.tx), new_name)? {
                Some(oid) => oid,
                None => {
                    return Err(FsError::Other);
                },
            };
            self.objects.set(
                new_oid,
                Object::Entry(
                    EntryObj {
                        name,
                        body: obj.body,
                        next: obj.next,
                        kind: obj.kind,
                        size: obj.size,
                        mode: obj.mode,
                        uid: obj.uid,
                        gid: obj.gid,
                    },
                ),
            )?;
            self.commit_tx()?;
            Ok(())
        } else {
            Err(FsError::NotImplemented)
        }
    }
}

} // verus!
