use crate::filesystem::{refines, Filesystem, FsState};
use crate::inode_id::InodeId;
use crate::object::{EntryObj, Object};
use crate::object_id::ObjectId;
use crate::result::FsError;
use crate::storage::Store;
use vstd::prelude::*;

verus! {

/// Whether two runs of bytes are the same.
pub fn bytes_eq(a: &[u8], b: &[u8]) -> (r: bool)
    ensures
        r == (a@ == b@),
{
    if a.len() != b.len() {
        return false;
    }
    let mut i: usize = 0;
    while i < a.len()
        invariant
            i <= a@.len(),
            a@.len() == b@.len(),
            a@.subrange(0, i as int) == b@.subrange(0, i as int),
        decreases a@.len() - i,
    {
        if a[i] != b[i] {
            assert(a@[i as int] != b@[i as int]);
            return false;
        }
        assert(a@.subrange(0, i + 1) =~= a@.subrange(0, i as int).push(a@[i as int]));
        assert(b@.subrange(0, i + 1) =~= b@.subrange(0, i as int).push(b@[i as int]));
        i += 1;
    }
    assert(a@.subrange(0, i as int) =~= a@);
    assert(b@.subrange(0, i as int) =~= b@);
    true
}

impl Store {
    /// The last entry of the list that starts at `oid`, walked for at most
    /// `fuel` entries: its id and what it holds. A slot on the list that
    /// holds no entry, and a list longer than `fuel`, are corrupt.
    pub open spec fn list_tail(self, oid: ObjectId, fuel: nat) -> Result<
        (ObjectId, EntryObj),
        FsError,
    >
        decreases fuel,
    {
        if fuel == 0 {
            Err(FsError::Corrupt)
        } else {
            match self.get(oid) {
                Ok(Object::Entry(entry)) => match entry.next {
                    Some(next) => self.list_tail(next, (fuel - 1) as nat),
                    None => Ok((oid, entry)),
                },
                Ok(_) => Err(FsError::Corrupt),
                Err(e) => Err(e),
            }
        }
    }
}

impl FsState {
    /// The state after `child` has been allocated and linked in as the last
    /// entry of the directory at `parent_oid`, and the child's id. The
    /// directory itself is changed in place where it is empty, else the last
    /// entry of its list is. A header is refused as a child: the container
    /// has one header only.
    pub open spec fn append(self, parent_oid: ObjectId, child: Object) -> Result<
        (FsState, ObjectId),
        FsError,
    > {
        if child is Header {
            Err(FsError::Corrupt)
        } else {
            self.append_entry(parent_oid, child)
        }
    }

    /// See `append`.
    pub open spec fn append_entry(self, parent_oid: ObjectId, child: Object) -> Result<
        (FsState, ObjectId),
        FsError,
    > {
        match self.store.get(parent_oid) {
            Ok(Object::Entry(parent)) => match self.store.allocate(true, self.tx, child) {
                Ok((store, tx, child_oid)) => {
                    let linked = match parent.body {
                        Some(head) => match store.list_tail(head, store.len()) {
                            Ok((oid, entry)) => store.set(
                                oid,
                                Object::Entry(EntryObj { next: Some(child_oid), ..entry }),
                            ),
                            Err(e) => Err(e),
                        },
                        None => store.set(
                            parent_oid,
                            Object::Entry(EntryObj { body: Some(child_oid), ..parent }),
                        ),
                    };
                    match linked {
                        Ok(store) => Ok((FsState { store, tx, ..self }, child_oid)),
                        Err(e) => Err(e),
                    }
                },
                Err(e) => Err(e),
            },
            Ok(_) => Err(FsError::Corrupt),
            Err(e) => Err(e),
        }
    }

    /// The first of `children`, from position `from` on, whose entry has the
    /// name `name`, with that entry; an error where reading a child on the
    /// way there fails, and not found where none has the name.
    pub open spec fn scan(self, children: Seq<InodeId>, name: Seq<u8>, from: int) -> Result<
        (InodeId, EntryObj),
        FsError,
    >
        decreases children.len() - from,
    {
        if from < 0 || from >= children.len() {
            Err(FsError::NotFound)
        } else {
            match self.inodes.resolve_object(children[from]) {
                Ok(oid) => match self.store.get(oid) {
                    Ok(Object::Entry(entry)) => match self.store.payload(entry.name) {
                        Ok(bytes) => if bytes == name {
                            Ok((children[from], entry))
                        } else {
                            self.scan(children, name, from + 1)
                        },
                        Err(e) => Err(e),
                    },
                    Ok(_) => Err(FsError::Corrupt),
                    Err(e) => Err(e),
                },
                Err(e) => Err(e),
            }
        }
    }

    /// The child of `parent_iid` named `name`, with its entry, and the state
    /// with the parent's children resolved. An inode whose children cannot
    /// be resolved has no such child.
    pub open spec fn find(self, parent_iid: InodeId, name: Seq<u8>) -> Result<
        (FsState, (InodeId, EntryObj)),
        FsError,
    > {
        match self.inodes.resolve_children(self.store, parent_iid) {
            Ok((inodes, children)) => {
                let state = FsState { inodes, ..self };
                match state.scan(children, name, 0) {
                    Ok(found) => Ok((state, found)),
                    Err(e) => Err(e),
                }
            },
            Err(_) => Err(FsError::NotFound),
        }
    }
}

impl Filesystem {
    /// Points the last entry of the list that starts at `head` at `child_oid`.
    fn link_last(&mut self, head: ObjectId, child_oid: ObjectId) -> (r: Result<(), FsError>)
        requires
            old(self).wf(),
        ensures
            final(self).wf(),
            match old(self)@.store.list_tail(head, old(self)@.store.len()) {
                Ok((oid, entry)) => match old(self)@.store.set(
                    oid,
                    Object::Entry(EntryObj { next: Some(child_oid), ..entry }),
                ) {
                    Ok(store) => r.is_ok() && final(self)@ == (FsState { store, ..old(self)@ }),
                    Err(e) => r == Err::<(), FsError>(e),
                },
                Err(e) => r == Err::<(), FsError>(e),
            },
    {
        let mut oid = head;
        let mut fuel = self.objects.len()?;
        proof {
            self.objects.lemma_wf();
        }
        loop
            invariant
                self.wf(),
                self@ == old(self)@,
                self@.store.list_tail(oid, fuel as nat) == self@.store.list_tail(
                    head,
                    self@.store.len(),
                ),
            decreases fuel,
        {
            if fuel == 0 {
                return Err(FsError::Corrupt);
            }
            let obj = self.objects.get(oid)?.into_entry(oid)?;
            match obj.next {
                Some(next) => {
                    oid = next;
                    fuel -= 1;
                },
                None => {
                    self.objects.set(
                        oid,
                        Object::Entry(
                            EntryObj {
                                name: obj.name,
                                body: obj.body,
                                next: Some(child_oid),
                                kind: obj.kind,
                                size: obj.size,
                                mode: obj.mode,
                                uid: obj.uid,
                                gid: obj.gid,
                            },
                        ),
                    )?;
                    return Ok(());
                },
            }
        }
    }

    /// Appends object to parent (i.e. adds a file/directory into a directory).
    ///
    /// Note that this function works in-place, i.e. it assumes that the parent
    /// has been already cloned.
    pub fn append(&mut self, parent_oid: ObjectId, child: Object) -> (r: Result<ObjectId, FsError>)
        requires
            old(self).wf(),
        ensures
            final(self).wf(),
            refines(r, final(self)@, old(self)@.append(parent_oid, child)),
    {
        if let Object::Header(_) = child {
            return Err(FsError::Corrupt);
        }
        let parent = self.objects.get(parent_oid)?.into_entry(parent_oid)?;
        let child_oid = self.objects.allocate(Some(&mut self.tx), child)?;
        if let Some(head) = parent.body {
            self.link_last(head, child_oid)?;
        } else {
            self.objects.set(
                parent_oid,
                Object::Entry(
                    EntryObj {
                        name: parent.name,
                        body: Some(child_oid),
                        next: parent.next,
                        kind: parent.kind,
                        size: parent.size,
                        mode: parent.mode,
                        uid: parent.uid,
                        gid: parent.gid,
                    },
                ),
            )?;
        }
        Ok(child_oid)
    }

    /// Goes through inode's children and looks for the one with given name.
    ///
    /// If no such child exists, bails out with [`FsError::NotFound`].
    pub fn find(&mut self, parent_iid: InodeId, name: &[u8]) -> (r: Result<
        (InodeId, EntryObj),
        FsError,
    >)
        requires
            old(self).wf(),
        ensures
            final(self).wf(),
            refines(r, final(self)@, old(self)@.find(parent_iid, name@)),
    {
        let children = match self.inodes.resolve_children(&self.objects, parent_iid) {
            Ok(children) => children,
            Err(_) => {
                return Err(FsError::NotFound);
            },
        };
        let mut i: usize = 0;
        while i < children.len()
            invariant
                self.wf(),
                i <= children@.len(),
                self@.store == old(self)@.store,
                self@.tx == old(self)@.tx,
                self@.origin == old(self)@.origin,
                self@.dirty_commits == old(self)@.dirty_commits,
                old(self)@.inodes.resolve_children(old(self)@.store, parent_iid) == Ok::<
                    (crate::inodes::InodeTable, Seq<InodeId>),
                    FsError,
                >((self@.inodes, children@)),
                self@.scan(children@, name@, 0) == self@.scan(children@, name@, i as int),
            decreases children@.len() - i,
        {
            let iid = children[i];
            let oid = self.inodes.resolve_object(iid)?;
            let obj = self.objects.get(oid)?.into_entry(oid)?;
            let bytes = self.objects.get_payload(obj.name)?;
            if bytes_eq(bytes.as_slice(), name) {
                return Ok((iid, obj));
            }
            i += 1;
        }
        Err(FsError::NotFound)
    }
}

} // verus!
