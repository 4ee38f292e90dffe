use crate::filesystem::{attr_spec, refines, Attr, Filesystem, FsState};
use crate::inode_id::InodeId;
use crate::object::{EntryObj, FileKind, Object};
use crate::object_id::ObjectId;
use crate::result::FsError;
use vstd::prelude::*;

verus! {

/// The entry of a new, empty file or directory; the mode by its low 16 bits.
pub open spec fn new_entry(name: ObjectId, mode: u32, uid: u32, gid: u32, kind: FileKind) -> EntryObj {
    EntryObj {
        name,
        body: None,
        next: None,
        kind,
        size: 0,
        mode: (mode % 65536) as u16,
        uid,
        gid,
    }
}

impl FsState {
    /// The state after a new, empty entry named `name` has been added to the
    /// directory behind `parent_iid`, and the new entry's attributes. The
    /// name is stored first, the directory is copied, the entry is linked in
    /// behind the directory's last entry, and after the commit the entry
    /// gets its inode. A name without bytes fails.
    pub open spec fn mk(
        self,
        parent_iid: InodeId,
        name: Seq<u8>,
        mode: u32,
        uid: u32,
        gid: u32,
        kind: FileKind,
    ) -> Result<(FsState, Attr), FsError> {
        if !self.origin.is_writable() {
            Err(FsError::ReadOnly)
        } else {
            match self.begin_tx() {
                Ok(state) => match state.store.alloc_payload(true, state.tx, name) {
                    Ok((store, tx, Some(name_oid))) => match (FsState {
                        store,
                        tx,
                        ..state
                    }).clone_inode(parent_iid) {
                        Ok((state, new_parent_oid)) => {
                            let obj = new_entry(name_oid, mode, uid, gid, kind);
                            match state.append(new_parent_oid, Object::Entry(obj)) {
                                Ok((state, new_oid)) => match state.commit_tx() {
                                    Ok(state) => match state.inodes.allocate(parent_iid, new_oid) {
                                        Ok((inodes, new_iid)) => Ok(
                                            (FsState { inodes, ..state }, attr_spec(new_iid, obj)),
                                        ),
                                        Err(e) => Err(e),
                                    },
                                    Err(e) => Err(e),
                                },
                                Err(e) => Err(e),
                            }
                        },
                        Err(e) => Err(e),
                    },
                    Ok((_, _, None)) => Err(FsError::Other),
                    Err(e) => Err(e),
                },
                Err(e) => Err(e),
            }
        }
    }
}

impl Filesystem {
    /// Adds a new, empty regular file: see `FsState::mk`.
    pub fn mknod(&mut self, parent_iid: InodeId, name: &[u8], mode: u32, uid: u32, gid: u32) -> (r:
        Result<Attr, FsError>)
        requires
            old(self).wf(),
        ensures
            final(self).wf(),
            !old(self)@.origin.is_writable() ==> final(self)@ == old(self)@,
            refines(
                r,
                final(self)@,
                old(self)@.mk(parent_iid, name@, mode, uid, gid, FileKind::RegularFile),
            ),
    {
        self.mk(parent_iid, name, mode, uid, gid, FileKind::RegularFile)
    }

    /// Adds a new, empty directory: see `FsState::mk`.
    pub fn mkdir(&mut self, parent_iid: InodeId, name: &[u8], mode: u32, uid: u32, gid: u32) -> (r:
        Result<Attr, FsError>)
        requires
            old(self).wf(),
        ensures
            final(self).wf(),
            !old(self)@.origin.is_writable() ==> final(self)@ == old(self)@,
            refines(
                r,
                final(self)@,
                old(self)@.mk(parent_iid, name@, mode, uid, gid, FileKind::Directory),
            ),
    {
        self.mk(parent_iid, name, mode, uid, gid, FileKind::Directory)
    }

    fn mk(
        &mut self,
        parent_iid: InodeId,
        name: &[u8],
        mode: u32,
        uid: u32,
        gid: u32,
        kind: FileKind,
    ) -> (r: Result<Attr, FsError>)
        requires
            old(self).wf(),
        ensures
            final(self).wf(),
            !old(self)@.origin.is_writable() ==> final(self)@ == old(self)@,
            refines(r, final(self)@, old(self)@.mk(parent_iid, name@, mode, uid, gid, kind)),
    {
        if !self.origin.is_writable() {
            return Err(FsError::ReadOnly);
        }
        self.begin_tx()?;
        let name_oid = match self.objects.alloc_payload(Some(&mut self.tx), name)? {
            Some(oid) => oid,
            None => {
                return Err(FsError::Other);
            },
        };
        let new_parent_oid = self.clone_inode(parent_iid)?;
        let obj = EntryObj {
            name: name_oid,
            body: None,
            next: None,
            kind,
            size: 0,
            mode: (mode % 65536) as u16,
            uid,
            gid,
        };
        let new_oid = self.append(new_parent_oid, Object::Entry(obj))?;
        self.commit_tx()?;
        let new_iid = self.inodes.allocate(parent_iid, new_oid)?;
        Ok(Self::attr(new_iid, obj))
    }
}

} // verus!
