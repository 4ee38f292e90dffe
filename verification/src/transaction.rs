use crate::filesystem::FilesystemOrigin;
use crate::inode_id::InodeId;
use crate::inodes::Inodes;
use crate::object::{CloneObj, HeaderObj, Object};
use crate::object_id::ObjectId;
use crate::objects::Objects;
use crate::result::FsError;
use crate::storage::Store;
use vstd::prelude::*;

verus! {

/// An open transaction as a value.
pub struct TxView {
    pub dirty: bool,
    pub new_root: Option<ObjectId>,
    pub new_header: HeaderObj,
    pub remaps: Seq<(InodeId, ObjectId)>,
    pub frees: Seq<InodeId>,
}

impl TxView {
    /// The transaction that `begin` opens on a container with this header.
    pub open spec fn fresh(header: HeaderObj) -> TxView {
        TxView {
            dirty: false,
            new_root: None,
            new_header: header,
            remaps: Seq::empty(),
            frees: Seq::empty(),
        }
    }

    /// The header that commit writes: the staged header, with the staged
    /// root where there is one and the origin is the main tree.
    pub open spec fn header_to_write(self, origin: FilesystemOrigin) -> HeaderObj {
        match (self.new_root, origin) {
            (Some(root), FilesystemOrigin::Main { .. }) => HeaderObj {
                root,
                ..self.new_header
            },
            _ => self.new_header,
        }
    }

    /// What commit makes of the container: the header written and, where a
    /// root is staged and the origin is a clone, the clone object pointing
    /// at that root.
    pub open spec fn commit_store(self, store: Store, origin: FilesystemOrigin) -> Result<
        Store,
        FsError,
    > {
        match store.set_header(self.header_to_write(origin)) {
            Ok(store) => match (self.new_root, origin) {
                (Some(root), FilesystemOrigin::Clone { oid, .. }) => match store.get(oid) {
                    Ok(Object::Clone(clone)) => store.set(
                        oid,
                        Object::Clone(CloneObj { root, ..clone }),
                    ),
                    Ok(_) => Err(FsError::Corrupt),
                    Err(e) => Err(e),
                },
                _ => Ok(store),
            },
            Err(e) => Err(e),
        }
    }

    /// Whether the transaction has staged edits of the inode table.
    pub open spec fn has_inode_edits(self) -> bool {
        self.remaps.len() > 0 || self.frees.len() > 0
    }

    /// The transaction with `oid` staged as the new root; a transaction
    /// takes one new root only.
    pub open spec fn set_root(self, oid: ObjectId) -> Result<TxView, FsError> {
        if self.new_root.is_some() {
            Err(FsError::Other)
        } else {
            Ok(TxView { dirty: true, new_root: Some(oid), ..self })
        }
    }

    /// The transaction with one more inode to point at a new object.
    pub open spec fn remap_inode(self, src: InodeId, dst: ObjectId) -> TxView {
        TxView { dirty: true, remaps: self.remaps.push((src, dst)), ..self }
    }

    /// The transaction with one more inode to free.
    pub open spec fn free_inode(self, iid: InodeId) -> TxView {
        TxView { dirty: true, frees: self.frees.push(iid), ..self }
    }
}

/// What an open transaction has staged: the header to write, the new root,
/// and the edits of the inode table to apply at commit.
#[derive(Debug)]
pub struct TransactionState {
    pub dirty: bool,
    pub new_root: Option<ObjectId>,
    pub new_header: HeaderObj,
    pub inodes_to_remap: Vec<(InodeId, ObjectId)>,
    pub inodes_to_free: Vec<InodeId>,
}

impl View for TransactionState {
    type V = TxView;

    open spec fn view(&self) -> TxView {
        TxView {
            dirty: self.dirty,
            new_root: self.new_root,
            new_header: self.new_header,
            remaps: self.inodes_to_remap@,
            frees: self.inodes_to_free@,
        }
    }
}

/// At most one transaction is open at a time; a closed one holds nothing.
#[derive(Debug)]
pub struct Transaction {
    state: Option<TransactionState>,
}

impl View for Transaction {
    type V = Option<TxView>;

    closed spec fn view(&self) -> Option<TxView> {
        match self.state {
            Some(state) => Some(state@),
            None => None,
        }
    }
}

impl Default for Transaction {
    fn default() -> (r: Self)
        ensures
            r@ == None::<TxView>,
    {
        Transaction { state: None }
    }
}

impl Transaction {
    /// Opens a transaction on the container's current header; what an
    /// earlier transaction had staged is dropped. Where the header cannot be
    /// read, no transaction is open.
    pub fn begin(&mut self, objects: &Objects) -> (r: Result<(), FsError>)
        requires
            objects.wf(),
        ensures
            match r {
                Ok(_) => objects@.header() matches Ok(header) && final(self)@ == Some(
                    TxView::fresh(header),
                ),
                Err(e) => objects@.header() == Err::<HeaderObj, FsError>(e) && final(self)@.is_none(),
            },
    {
        self.state = None;
        let new_header = objects.get_header()?;
        self.state = Some(
            TransactionState {
                dirty: false,
                new_root: None,
                new_header,
                inodes_to_remap: Vec::new(),
                inodes_to_free: Vec::new(),
            },
        );
        Ok(())
    }

    /// Applies scheduled changes atomically and returns whether anything got
    /// changed.
    ///
    /// (i.e. false = transaction was a no-op)
    ///
    /// The transaction is closed afterwards, whatever came of it. A clean
    /// one leaves everything as it was. A dirty one writes the header, then
    /// the clone object where the origin is a clone and a root is staged, and
    /// last applies the staged remaps and frees, for which an inode table
    /// must be given.
    pub fn commit(
        &mut self,
        objects: &mut Objects,
        inodes: Option<&mut Inodes>,
        origin: FilesystemOrigin,
    ) -> (r: Result<bool, FsError>)
        requires
            old(objects).wf(),
        ensures
            final(objects).wf(),
            old(objects)@.single_header() ==> final(objects)@.single_header(),
            final(self)@.is_none(),
            match old(self)@ {
                None => {
                    &&& r == Err::<bool, FsError>(FsError::Other)
                    &&& final(objects)@ == old(objects)@
                    &&& inodes matches Some(table) ==> final(table)@ == table@
                },
                Some(tx) => if !tx.dirty {
                    &&& r == Ok::<bool, FsError>(false)
                    &&& final(objects)@ == old(objects)@
                    &&& inodes matches Some(table) ==> final(table)@ == table@
                } else {
                    match tx.commit_store(old(objects)@, origin) {
                        Err(e) => {
                            &&& r == Err::<bool, FsError>(e)
                            &&& inodes matches Some(table) ==> final(table)@ == table@
                        },
                        Ok(store) => {
                            &&& final(objects)@ == store
                            &&& match inodes {
                                Some(table) => {
                                    &&& r == Ok::<bool, FsError>(true)
                                    &&& final(table)@ == if tx.has_inode_edits() {
                                        table@.apply(tx.remaps, tx.frees)
                                    } else {
                                        table@
                                    }
                                },
                                None => r == if tx.has_inode_edits() {
                                    Err::<bool, FsError>(FsError::Other)
                                } else {
                                    Ok::<bool, FsError>(true)
                                },
                            }
                        },
                    }
                },
            },
    {
        let mut taken: Option<TransactionState> = None;
        core::mem::swap(&mut self.state, &mut taken);
        let mut tx = match taken {
            Some(tx) => tx,
            None => {
                return Err(FsError::Other);
            },
        };
        if !tx.dirty {
            return Ok(false);
        }
        if let Some(new_root_oid) = tx.new_root {
            if let FilesystemOrigin::Main { .. } = origin {
                tx.new_header.root = new_root_oid;
            }
        }
        objects.set_header(tx.new_header)?;
        if let Some(new_root_oid) = tx.new_root {
            if let FilesystemOrigin::Clone { oid, .. } = origin {
                let clone = objects.get(oid)?.into_clone(oid)?;
                let obj = CloneObj {
                    name: clone.name,
                    root: new_root_oid,
                    is_writable: clone.is_writable,
                    next: clone.next,
                };
                objects.set(oid, Object::Clone(obj))?;
            }
        }
        if !tx.inodes_to_remap.is_empty() || !tx.inodes_to_free.is_empty() {
            match inodes {
                Some(inodes) => {
                    inodes.apply(&tx.inodes_to_remap, &tx.inodes_to_free);
                },
                None => {
                    return Err(FsError::Other);
                },
            }
        }
        Ok(true)
    }

    /// The staged state of an open transaction, to read and to change.
    pub fn get_mut(&mut self) -> (r: Result<&mut TransactionState, FsError>)
        ensures
            match r {
                Ok(state) => {
                    &&& old(self)@ == Some(state@)
                    &&& final(self)@ == Some(final(state)@)
                },
                Err(e) => {
                    &&& e == FsError::Other
                    &&& old(self)@.is_none()
                    &&& final(self)@.is_none()
                },
            },
    {
        match &mut self.state {
            Some(state) => Ok(state),
            None => Err(FsError::Other),
        }
    }

    /// Schedules given node to replace the current root node.
    ///
    /// If we're working on a clone, this updates the clone's root - otherwise
    /// this updates the header's root.
    pub fn set_root(&mut self, new_root_oid: ObjectId) -> (r: Result<(), FsError>)
        ensures
            match r {
                Ok(_) => {
                    &&& old(self)@ matches Some(tx)
                    &&& tx.set_root(new_root_oid) == Ok::<TxView, FsError>(final(self)@.unwrap())
                    &&& final(self)@.is_some()
                },
                Err(e) => {
                    &&& e == FsError::Other
                    &&& final(self)@ == old(self)@
                    &&& old(self)@ matches Some(tx) ==> tx.new_root.is_some()
                },
            },
    {
        match &mut self.state {
            Some(tx) => {
                if tx.new_root.is_some() {
                    return Err(FsError::Other);
                }
                tx.dirty = true;
                tx.new_root = Some(new_root_oid);
                Ok(())
            },
            None => Err(FsError::Other),
        }
    }

    /// Schedules given inode to point at new object.
    pub fn remap_inode(&mut self, src: InodeId, dst: ObjectId) -> (r: Result<(), FsError>)
        ensures
            match r {
                Ok(_) => {
                    &&& old(self)@ matches Some(tx)
                    &&& final(self)@ == Some(tx.remap_inode(src, dst))
                },
                Err(e) => {
                    &&& e == FsError::Other
                    &&& old(self)@.is_none()
                    &&& final(self)@.is_none()
                },
            },
    {
        match &mut self.state {
            Some(tx) => {
                tx.dirty = true;
                tx.inodes_to_remap.push((src, dst));
                Ok(())
            },
            None => Err(FsError::Other),
        }
    }

    /// Schedules given inode to be freed.
    pub fn free_inode(&mut self, iid: InodeId) -> (r: Result<(), FsError>)
        ensures
            match r {
                Ok(_) => {
                    &&& old(self)@ matches Some(tx)
                    &&& final(self)@ == Some(tx.free_inode(iid))
                },
                Err(e) => {
                    &&& e == FsError::Other
                    &&& old(self)@.is_none()
                    &&& final(self)@.is_none()
                },
            },
    {
        match &mut self.state {
            Some(tx) => {
                tx.dirty = true;
                tx.inodes_to_free.push(iid);
                Ok(())
            },
            None => Err(FsError::Other),
        }
    }
}

} // verus!
