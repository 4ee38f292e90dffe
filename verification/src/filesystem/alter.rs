use crate::filesystem::{refines, Filesystem, FsState};
use crate::inode_id::InodeId;
use crate::object::{EntryObj, Object};
use crate::object_id::ObjectId;
use crate::result::FsError;
use vstd::prelude::*;

verus! {

/// One rewrite of the path from an entry up to the root: the entry to
/// rewrite, a child of its directory to leave out, and a child of its
/// directory whose body is to be replaced, given by the old body.
#[derive(Clone, Copy, Debug)]
pub struct Alter {
    pub iid: InodeId,
    pub skipping: Option<InodeId>,
    pub replacing: Option<(ObjectId, Option<ObjectId>)>,
}

impl Alter {
    pub fn clone(iid: InodeId) -> (r: Self)
        ensures
            r == (Alter { iid, skipping: None, replacing: None }),
    {
        Self { iid, skipping: None, replacing: None }
    }

    pub fn skipping(self, iid: InodeId) -> (r: Self)
        ensures
            r == (Alter { skipping: Some(iid), ..self }),
    {
        Self { iid: self.iid, skipping: Some(iid), replacing: self.replacing }
    }

    pub fn replacing(self, src: ObjectId, dst: Option<ObjectId>) -> (r: Self)
        ensures
            r == (Alter { replacing: Some((src, dst)), ..self }),
    {
        Self { iid: self.iid, skipping: self.skipping, replacing: Some((src, dst)) }
    }
}

/// A child of the directory that is being rewritten: its inode, the slot
/// reserved for its copy, and the entry to write there.
#[derive(Clone, Copy, Debug)]
pub struct AlteredChild {
    pub iid: InodeId,
    pub oid: ObjectId,
    pub obj: EntryObj,
}

/// The first position at or behind `from` of a child whose body is `src`.
pub open spec fn first_with_body(children: Seq<AlteredChild>, src: ObjectId, from: int) -> Option<
    int,
>
    decreases children.len() - from,
{
    if from < 0 || from >= children.len() {
        None
    } else if children[from].obj.body == Some(src) {
        Some(from)
    } else {
        first_with_body(children, src, from + 1)
    }
}

/// The children with the body of the first child whose body is the old one
/// replaced by the new one.
pub open spec fn replace_body(
    children: Seq<AlteredChild>,
    replacing: Option<(ObjectId, Option<ObjectId>)>,
) -> Seq<AlteredChild> {
    match replacing {
        Some((src, dst)) => match first_with_body(children, src, 0) {
            Some(i) => children.update(
                i,
                AlteredChild { obj: EntryObj { body: dst, ..children[i].obj }, ..children[i] },
            ),
            None => children,
        },
        None => children,
    }
}

/// The child at `i` pointing at the slot reserved for the child behind it;
/// the last child pointing at nothing.
pub open spec fn relinked(children: Seq<AlteredChild>, i: int) -> AlteredChild {
    AlteredChild {
        obj: EntryObj {
            next: if i + 1 < children.len() {
                Some(children[i + 1].oid)
            } else {
                None
            },
            ..children[i].obj
        },
        ..children[i]
    }
}

/// The children linked into a list in their order.
pub open spec fn relink(children: Seq<AlteredChild>) -> Seq<AlteredChild> {
    Seq::new(children.len(), |i: int| relinked(children, i))
}

/// The slot reserved for the first child, at or behind `from`, of inode `iid`.
pub open spec fn new_oid_of(children: Seq<AlteredChild>, iid: InodeId, from: int) -> Option<ObjectId>
    decreases children.len() - from,
{
    if from < 0 || from >= children.len() {
        None
    } else if children[from].iid == iid {
        Some(children[from].oid)
    } else {
        new_oid_of(children, iid, from + 1)
    }
}

/// The slot reserved for the first child, if there is a child.
pub open spec fn head_of(children: Seq<AlteredChild>) -> Option<ObjectId> {
    if children.len() > 0 {
        Some(children[0].oid)
    } else {
        None
    }
}

impl FsState {
    /// The state after a slot has been reserved, as an empty object, for
    /// each of the first `n` of `kids` but the one to skip, and the children
    /// so far: each with its reserved slot and the entry that its inode
    /// stands for.
    pub open spec fn reserve_children(self, kids: Seq<InodeId>, skipping: Option<InodeId>, n: nat) -> Result<
        (FsState, Seq<AlteredChild>),
        FsError,
    >
        decreases n,
    {
        if n == 0 {
            Ok((self, Seq::empty()))
        } else {
            match self.reserve_children(kids, skipping, (n - 1) as nat) {
                Ok((state, done)) => {
                    let iid = kids[n - 1];
                    if skipping == Some(iid) {
                        Ok((state, done))
                    } else {
                        match state.inodes.resolve_object(iid) {
                            Ok(old_oid) => match state.store.allocate(
                                true,
                                state.tx,
                                Object::Empty,
                            ) {
                                Ok((store, tx, oid)) => match store.get(old_oid) {
                                    Ok(Object::Entry(obj)) => Ok(
                                        (
                                            FsState { store, tx, ..state },
                                            done.push(AlteredChild { iid, oid, obj }),
                                        ),
                                    ),
                                    Ok(_) => Err(FsError::Corrupt),
                                    Err(e) => Err(e),
                                },
                                Err(e) => Err(e),
                            },
                            Err(e) => Err(e),
                        }
                    }
                },
                Err(e) => Err(e),
            }
        }
    }

    /// The state after the first `n` of `children` have been written to
    /// their reserved slots and their inodes staged to point there.
    pub open spec fn write_children(self, children: Seq<AlteredChild>, n: nat) -> Result<
        FsState,
        FsError,
    >
        decreases n,
    {
        if n == 0 {
            Ok(self)
        } else {
            match self.write_children(children, (n - 1) as nat) {
                Ok(state) => {
                    let child = children[n - 1];
                    match state.store.set(child.oid, Object::Entry(child.obj)) {
                        Ok(store) => match state.tx {
                            Some(tx) => Ok(
                                FsState {
                                    store,
                                    tx: Some(tx.remap_inode(child.iid, child.oid)),
                                    ..state
                                },
                            ),
                            None => Err(FsError::Other),
                        },
                        Err(e) => Err(e),
                    }
                },
                Err(e) => Err(e),
            }
        }
    }

    /// The state with the inode to skip, if any, staged to be freed.
    pub open spec fn stage_free(self, skipping: Option<InodeId>) -> Result<FsState, FsError> {
        match skipping {
            Some(iid) => match self.tx {
                Some(tx) => Ok(FsState { tx: Some(tx.free_inode(iid)), ..self }),
                None => Err(FsError::Other),
            },
            None => Ok(self),
        }
    }

    /// The state after a copy of the root directory `parent` that lists the
    /// rewritten children has been allocated and staged as the new root, and
    /// the copy's id.
    pub open spec fn replace_root(self, parent: EntryObj, head: Option<ObjectId>) -> Result<
        (FsState, ObjectId),
        FsError,
    > {
        match self.store.allocate(
            true,
            self.tx,
            Object::Entry(EntryObj { body: head, ..parent }),
        ) {
            Ok((store, tx, new_root)) => match tx {
                Some(tx) => match tx.remap_inode(InodeId(1), new_root).set_root(new_root) {
                    Ok(tx) => Ok((FsState { store, tx: Some(tx), ..self }, new_root)),
                    Err(e) => Err(e),
                },
                None => Err(FsError::Other),
            },
            Err(e) => Err(e),
        }
    }

    /// The copy-on-write rewrite of the directory that holds `op.iid`, and of
    /// every directory above it up to the root. All children of the
    /// directory but the one to skip are copied to fresh slots, linked in
    /// their order, the body of one replaced where `op` says so; their
    /// inodes are staged to point at the copies. At the root a copy of the
    /// root directory is staged as the new root; below it the rewrite goes
    /// on with the directory itself, whose body is to be replaced by the new
    /// list. The result is the copy of `op.iid`, if it was not skipped; at
    /// the root, where `op.iid` is no child, the copy of the root.
    ///
    /// A directory below the root that has children in the table but no list
    /// is corrupt, and so is an inode whose parent does not have a smaller
    /// number.
    pub open spec fn alter(self, op: Alter) -> Result<(FsState, Option<ObjectId>), FsError>
        decreases op.iid.0, 1nat,
    {
        match self.inodes.resolve_parent(op.iid) {
            Ok(parent_iid) => match self.inodes.resolve_object(parent_iid) {
                Ok(parent_oid) => match self.store.get(parent_oid) {
                    Ok(Object::Entry(parent)) => match self.inodes.resolve_children(
                        self.store,
                        parent_iid,
                    ) {
                        Ok((inodes, kids)) => match (FsState { inodes, ..self }).reserve_children(
                            kids,
                            op.skipping,
                            kids.len(),
                        ) {
                            Ok((state, reserved)) => state.alter_rest(
                                op,
                                parent_iid,
                                parent,
                                reserved,
                            ),
                            Err(e) => Err(e),
                        },
                        Err(e) => Err(e),
                    },
                    Ok(_) => Err(FsError::Corrupt),
                    Err(e) => Err(e),
                },
                Err(e) => Err(e),
            },
            Err(e) => Err(e),
        }
    }

    /// The second half of `alter`: the children of the directory `parent`,
    /// each with its reserved slot, are linked and written, the inode to
    /// skip is staged to be freed, and the rewrite ends at the root or goes
    /// on with the directory itself.
    pub open spec fn alter_rest(
        self,
        op: Alter,
        parent_iid: InodeId,
        parent: EntryObj,
        reserved: Seq<AlteredChild>,
    ) -> Result<(FsState, Option<ObjectId>), FsError>
        decreases op.iid.0, 0nat,
    {
        let children = relink(replace_body(reserved, op.replacing));
        match self.write_children(children, children.len()) {
            Ok(state) => match state.stage_free(op.skipping) {
                Ok(state) => {
                    let new_oid = new_oid_of(children, op.iid, 0);
                    if parent_iid.0 == 1 {
                        match state.replace_root(parent, head_of(children)) {
                            Ok((state, new_root)) => Ok(
                                (
                                    state,
                                    Some(
                                        match new_oid {
                                            Some(oid) => oid,
                                            None => new_root,
                                        },
                                    ),
                                ),
                            ),
                            Err(e) => Err(e),
                        }
                    } else {
                        match parent.body {
                            Some(old_head) => if parent_iid.0 < op.iid.0 {
                                match state.alter(
                                    Alter {
                                        iid: parent_iid,
                                        skipping: None,
                                        replacing: Some((old_head, head_of(children))),
                                    },
                                ) {
                                    Ok((state, _)) => Ok((state, new_oid)),
                                    Err(e) => Err(e),
                                }
                            } else {
                                Err(FsError::Corrupt)
                            },
                            None => Err(FsError::Corrupt),
                        }
                    }
                },
                Err(e) => Err(e),
            },
            Err(e) => Err(e),
        }
    }

    /// The rewrite that copies the entry of `iid`, and the copy's id.
    pub open spec fn clone_inode(self, iid: InodeId) -> Result<(FsState, ObjectId), FsError> {
        match self.alter(Alter { iid, skipping: None, replacing: None }) {
            Ok((state, Some(oid))) => Ok((state, oid)),
            Ok((_, None)) => Err(FsError::Corrupt),
            Err(e) => Err(e),
        }
    }

    /// The rewrite that leaves the entry of `iid` out. The root cannot be
    /// left out.
    pub open spec fn delete_inode(self, iid: InodeId) -> Result<(FsState, ()), FsError> {
        if iid.0 == 1 {
            Err(FsError::NotImplemented)
        } else {
            match self.alter(Alter { iid, skipping: Some(iid), replacing: None }) {
                Ok((state, _)) => Ok((state, ())),
                Err(e) => Err(e),
            }
        }
    }

    /// A failure to reserve a child's slot is a failure for every longer
    /// run of children.
    pub proof fn lemma_reserve_children_err(
        self,
        kids: Seq<InodeId>,
        skipping: Option<InodeId>,
        n: nat,
        m: nat,
    )
        requires
            n <= m,
            self.reserve_children(kids, skipping, n).is_err(),
        ensures
            self.reserve_children(kids, skipping, m) matches Err(e) && self.reserve_children(
                kids,
                skipping,
                n,
            ) == Err::<(FsState, Seq<AlteredChild>), FsError>(e),
        decreases m - n,
    {
        if n < m {
            self.lemma_reserve_children_err(kids, skipping, n, (m - 1) as nat);
        }
    }

    /// A failure to write a child is a failure for every longer run of
    /// children.
    pub proof fn lemma_write_children_err(self, children: Seq<AlteredChild>, n: nat, m: nat)
        requires
            n <= m,
            self.write_children(children, n).is_err(),
        ensures
            self.write_children(children, m) matches Err(e) && self.write_children(children, n)
                == Err::<FsState, FsError>(e),
        decreases m - n,
    {
        if n < m {
            self.lemma_write_children_err(children, n, (m - 1) as nat);
        }
    }
}

/// Replaces the body of the first child whose body is the old one.
fn replace_child_body(children: &mut Vec<AlteredChild>, replacing: Option<(ObjectId, Option<ObjectId>)>)
    ensures
        final(children)@ == replace_body(old(children)@, replacing),
{
    if let Some((src, dst)) = replacing {
        let mut i: usize = 0;
        while i < children.len()
            invariant
                i <= children@.len(),
                children@ == old(children)@,
                replacing == Some((src, dst)),
                first_with_body(children@, src, 0) == first_with_body(children@, src, i as int),
            decreases children@.len() - i,
        {
            let child = children[i];
            let hit = match child.obj.body {
                Some(body) => body.0 == src.0,
                None => false,
            };
            if hit {
                let obj = EntryObj {
                    name: child.obj.name,
                    body: dst,
                    next: child.obj.next,
                    kind: child.obj.kind,
                    size: child.obj.size,
                    mode: child.obj.mode,
                    uid: child.obj.uid,
                    gid: child.obj.gid,
                };
                assert(first_with_body(old(children)@, src, i as int) == Some(i as int));
                children[i] = AlteredChild { iid: child.iid, oid: child.oid, obj };
                assert(children@ =~= replace_body(old(children)@, replacing));
                return ;
            }
            i += 1;
        }
    }
}

/// Links the children into a list in their order.
fn relink_children(children: &mut Vec<AlteredChild>)
    ensures
        final(children)@ == relink(old(children)@),
{
    let mut i: usize = 0;
    while i < children.len()
        invariant
            i <= children@.len(),
            children@.len() == old(children)@.len(),
            forall|j: int| 0 <= j < i ==> children@[j] == relinked(old(children)@, j),
            forall|j: int| i <= j < children@.len() ==> children@[j] == old(children)@[j],
        decreases children@.len() - i,
    {
        let next = if i + 1 < children.len() {
            Some(children[i + 1].oid)
        } else {
            None
        };
        let child = children[i];
        let obj = EntryObj {
            name: child.obj.name,
            body: child.obj.body,
            next,
            kind: child.obj.kind,
            size: child.obj.size,
            mode: child.obj.mode,
            uid: child.obj.uid,
            gid: child.obj.gid,
        };
        children[i] = AlteredChild { iid: child.iid, oid: child.oid, obj };
        i += 1;
    }
    assert(children@ =~= relink(old(children)@));
}

/// The slot reserved for the first child of inode `iid`.
fn find_new_oid(children: &Vec<AlteredChild>, iid: InodeId) -> (r: Option<ObjectId>)
    ensures
        r == new_oid_of(children@, iid, 0),
{
    let mut i: usize = 0;
    while i < children.len()
        invariant
            i <= children@.len(),
            new_oid_of(children@, iid, 0) == new_oid_of(children@, iid, i as int),
        decreases children@.len() - i,
    {
        if children[i].iid.0 == iid.0 {
            return Some(children[i].oid);
        }
        i += 1;
    }
    None
}

impl Filesystem {
    /// Resolves given inode to an object and then clones it recursively,
    /// yielding a new object id.
    ///
    /// This is called e.g. when an entry gets renamed - we clone the entry's
    /// object and then modify the object returned by this function.
    ///
    /// This function can be called at most once per transaction (since it
    /// affects inodes and modifies the root).
    pub fn clone_inode(&mut self, iid: InodeId) -> (r: Result<ObjectId, FsError>)
        requires
            old(self).wf(),
        ensures
            final(self).wf(),
            refines(r, final(self)@, old(self)@.clone_inode(iid)),
    {
        match self.alter(Alter::clone(iid))? {
            Some(oid) => Ok(oid),
            None => Err(FsError::Corrupt),
        }
    }

    /// Resolves given inode to an object and then clones its siblings, parent
    /// etc., but without the object itself.
    ///
    /// This is called e.g. when an entry gets deleted - we clone entry's tree,
    /// but without given entry itself, effectively removing it.
    ///
    /// This function can be called at most once per transaction (since it
    /// affects inodes and modifies the root).
    pub fn delete_inode(&mut self, iid: InodeId) -> (r: Result<(), FsError>)
        requires
            old(self).wf(),
        ensures
            final(self).wf(),
            refines(r, final(self)@, old(self)@.delete_inode(iid)),
    {
        if iid.is_root() {
            return Err(FsError::NotImplemented);
        }
        self.alter(Alter::clone(iid).skipping(iid))?;
        Ok(())
    }

    fn reserve_children(&mut self, kids: &Vec<InodeId>, skipping: Option<InodeId>) -> (r: Result<
        Vec<AlteredChild>,
        FsError,
    >)
        requires
            old(self).wf(),
        ensures
            final(self).wf(),
            match r {
                Ok(children) => old(self)@.reserve_children(kids@, skipping, kids@.len()) == Ok::<
                    (FsState, Seq<AlteredChild>),
                    FsError,
                >((final(self)@, children@)),
                Err(e) => old(self)@.reserve_children(kids@, skipping, kids@.len()) matches Err(e2)
                    && e2 == e,
            },
    {
        let mut children: Vec<AlteredChild> = Vec::new();
        let mut i: usize = 0;
        while i < kids.len()
            invariant
                self.wf(),
                i <= kids@.len(),
                old(self)@.reserve_children(kids@, skipping, i as nat) == Ok::<
                    (FsState, Seq<AlteredChild>),
                    FsError,
                >((self@, children@)),
            decreases kids@.len() - i,
        {
            let iid = kids[i];
            let skip = match skipping {
                Some(s) => s.0 == iid.0,
                None => false,
            };
            if !skip {
                let step = self.reserve_child(iid);
                match step {
                    Ok(child) => {
                        children.push(child);
                    },
                    Err(e) => {
                        proof {
                            old(self)@.lemma_reserve_children_err(
                                kids@,
                                skipping,
                                (i + 1) as nat,
                                kids@.len(),
                            );
                        }
                        return Err(e);
                    },
                }
            }
            i += 1;
        }
        Ok(children)
    }

    /// Reserves a slot for the copy of the entry behind `iid`.
    fn reserve_child(&mut self, iid: InodeId) -> (r: Result<AlteredChild, FsError>)
        requires
            old(self).wf(),
        ensures
            final(self).wf(),
            match old(self)@.inodes.resolve_object(iid) {
                Ok(old_oid) => match old(self)@.store.allocate(
                    true,
                    old(self)@.tx,
                    Object::Empty,
                ) {
                    Ok((store, tx, oid)) => match store.get(old_oid) {
                        Ok(Object::Entry(obj)) => r == Ok::<AlteredChild, FsError>(
                            AlteredChild { iid, oid, obj },
                        ) && final(self)@ == (FsState { store, tx, ..old(self)@ }),
                        Ok(_) => r == Err::<AlteredChild, FsError>(FsError::Corrupt),
                        Err(e) => r == Err::<AlteredChild, FsError>(e),
                    },
                    Err(e) => r == Err::<AlteredChild, FsError>(e),
                },
                Err(e) => r == Err::<AlteredChild, FsError>(e),
            },
    {
        let old_oid = self.inodes.resolve_object(iid)?;
        let oid = self.objects.allocate(Some(&mut self.tx), Object::Empty)?;
        let obj = self.objects.get(old_oid)?.into_entry(old_oid)?;
        Ok(AlteredChild { iid, oid, obj })
    }

    fn write_children(&mut self, children: &Vec<AlteredChild>) -> (r: Result<(), FsError>)
        requires
            old(self).wf(),
        ensures
            final(self).wf(),
            match r {
                Ok(_) => old(self)@.write_children(children@, children@.len()) == Ok::<
                    FsState,
                    FsError,
                >(final(self)@),
                Err(e) => old(self)@.write_children(children@, children@.len()) matches Err(e2)
                    && e2 == e,
            },
    {
        let mut i: usize = 0;
        while i < children.len()
            invariant
                self.wf(),
                i <= children@.len(),
                old(self)@.write_children(children@, i as nat) == Ok::<FsState, FsError>(self@),
            decreases children@.len() - i,
        {
            let child = children[i];
            let step = self.write_child(child);
            match step {
                Ok(_) => {},
                Err(e) => {
                    proof {
                        old(self)@.lemma_write_children_err(
                            children@,
                            (i + 1) as nat,
                            children@.len(),
                        );
                    }
                    return Err(e);
                },
            }
            i += 1;
        }
        Ok(())
    }

    /// Writes a child to its reserved slot and stages its inode to point there.
    fn write_child(&mut self, child: AlteredChild) -> (r: Result<(), FsError>)
        requires
            old(self).wf(),
        ensures
            final(self).wf(),
            match old(self)@.store.set(child.oid, Object::Entry(child.obj)) {
                Ok(store) => match old(self)@.tx {
                    Some(tx) => r.is_ok() && final(self)@ == (FsState {
                        store,
                        tx: Some(tx.remap_inode(child.iid, child.oid)),
                        ..old(self)@
                    }),
                    None => r == Err::<(), FsError>(FsError::Other),
                },
                Err(e) => r == Err::<(), FsError>(e),
            },
    {
        self.objects.set(child.oid, Object::Entry(child.obj))?;
        self.tx.remap_inode(child.iid, child.oid)?;
        Ok(())
    }

    fn stage_free(&mut self, skipping: Option<InodeId>) -> (r: Result<(), FsError>)
        requires
            old(self).wf(),
        ensures
            final(self).wf(),
            refines(r, final(self)@, match old(self)@.stage_free(skipping) {
                Ok(state) => Ok((state, ())),
                Err(e) => Err(e),
            }),
    {
        if let Some(iid) = skipping {
            self.tx.free_inode(iid)?;
        }
        Ok(())
    }

    fn replace_root(&mut self, parent: EntryObj, head: Option<ObjectId>) -> (r: Result<
        ObjectId,
        FsError,
    >)
        requires
            old(self).wf(),
        ensures
            final(self).wf(),
            refines(r, final(self)@, old(self)@.replace_root(parent, head)),
    {
        let new_root_oid = self.objects.allocate(
            Some(&mut self.tx),
            Object::Entry(
                EntryObj {
                    name: parent.name,
                    body: head,
                    next: parent.next,
                    kind: parent.kind,
                    size: parent.size,
                    mode: parent.mode,
                    uid: parent.uid,
                    gid: parent.gid,
                },
            ),
        )?;
        self.tx.remap_inode(InodeId::root(), new_root_oid)?;
        self.tx.set_root(new_root_oid)?;
        Ok(new_root_oid)
    }

    pub fn alter(&mut self, op: Alter) -> (r: Result<Option<ObjectId>, FsError>)
        requires
            old(self).wf(),
        ensures
            final(self).wf(),
            refines(r, final(self)@, old(self)@.alter(op)),
        decreases op.iid.0,
    {
        let parent_iid = self.inodes.resolve_parent(op.iid)?;
        let parent_oid = self.inodes.resolve_object(parent_iid)?;
        let parent = self.objects.get(parent_oid)?.into_entry(parent_oid)?;
        let kids = self.inodes.resolve_children(&self.objects, parent_iid)?;
        let mut children = self.reserve_children(&kids, op.skipping)?;
        replace_child_body(&mut children, op.replacing);
        relink_children(&mut children);
        self.write_children(&children)?;
        self.stage_free(op.skipping)?;
        let new_oid = find_new_oid(&children, op.iid);
        let head = if children.len() > 0 {
            Some(children[0].oid)
        } else {
            None
        };
        if parent_iid.is_root() {
            let new_root_oid = self.replace_root(parent, head)?;
            Ok(
                Some(
                    match new_oid {
                        Some(oid) => oid,
                        None => new_root_oid,
                    },
                ),
            )
        } else {
            let old_head = match parent.body {
                Some(oid) => oid,
                None => {
                    return Err(FsError::Corrupt);
                },
            };
            if parent_iid.0 >= op.iid.0 {
                return Err(FsError::Corrupt);
            }
            self.alter(Alter::clone(parent_iid).replacing(old_head, head))?;
            Ok(new_oid)
        }
    }
}

} // verus!
