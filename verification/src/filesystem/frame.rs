//! What a rewrite leaves alone. The filesystem changes the tree by writing
//! copies into slots that hold nothing alive and by pointing the header, or
//! the clone object of its origin, at the copies. The laws of this file say
//! so for the operations: every clone, entry and payload record that the
//! container held before is held unchanged afterwards, so that every other
//! root still reads the tree that it read before.

use crate::filesystem::alter::{
    first_with_body, head_of, new_oid_of, relink, replace_body, Alter, AlteredChild,
};
use crate::filesystem::{spec_gc_period, FilesystemOrigin, FsState};
use crate::inode_id::InodeId;
use crate::object::{ptr_wf, EntryObj, Object};
use crate::object_id::ObjectId;
use crate::result::FsError;
use crate::storage::Store;
use crate::transaction::TxView;
use vstd::prelude::*;

verus! {

/// The slot that operations on this origin may rewrite in place: the clone
/// object of a clone, nothing for the main tree.
pub open spec fn own_slot(origin: FilesystemOrigin) -> Option<ObjectId> {
    match origin {
        FilesystemOrigin::Clone { oid, .. } => Some(oid),
        FilesystemOrigin::Main { .. } => None,
    }
}

/// Whether a transaction still stages the root and the clone list that it
/// staged before, and a free list whose head can be stored if the one
/// before could.
pub open spec fn heads_kept(before: Option<TxView>, after: Option<TxView>) -> bool {
    match (before, after) {
        (Some(b), Some(a)) => {
            &&& a.new_header.root == b.new_header.root
            &&& a.new_header.clone == b.new_header.clone
            &&& ptr_wf(b.new_header.dead) ==> ptr_wf(a.new_header.dead)
            &&& b.dirty ==> a.dirty
        },
        (None, None) => true,
        _ => false,
    }
}

impl Store {
    /// Whether slot `i` holds a clone, an entry or a payload record.
    pub open spec fn holds_live(self, i: int) -> bool {
        self.slots[i][0] == 2 || self.slots[i][0] == 3 || self.slots[i][0] == 5
    }

    /// Whether `after` holds every clone, entry and payload record of this
    /// container unchanged in its slot, but for the slot `but`.
    pub open spec fn kept_in(self, after: Store, but: Option<ObjectId>) -> bool {
        &&& self.len() <= after.len()
        &&& forall|i: int|
            1 <= i < self.len() && self.holds_live(i) && but != Some(ObjectId(i as u32))
                ==> #[trigger] after.slots[i] == self.slots[i]
    }

    /// Whether writing to slot `oid` touches nothing that this container
    /// holds alive, the slot `but` apart.
    pub open spec fn free_at(self, oid: ObjectId, but: Option<ObjectId>) -> bool {
        oid.0 >= self.len() || !self.holds_live(oid.0 as int) || but == Some(oid)
    }

    /// What is kept twice over is kept.
    pub proof fn lemma_kept_in_trans(self, mid: Store, after: Store, but: Option<ObjectId>)
        requires
            self.kept_in(mid, but),
            mid.kept_in(after, but),
        ensures
            self.kept_in(after, but),
    {
        assert forall|i: int|
            1 <= i < self.len() && self.holds_live(i) && but != Some(
                ObjectId(i as u32),
            ) implies #[trigger] after.slots[i] == self.slots[i] by {
            assert(mid.slots[i] == self.slots[i]);
            assert(mid.holds_live(i));
        }
    }

    /// An allocation writes one slot, which is new or held a dead record.
    pub proof fn lemma_allocate_frame(self, with_tx: bool, tx: Option<TxView>, obj: Object)
        requires
            self.wf(),
            self.allocate(with_tx, tx, obj).is_ok(),
        ensures
            ({
                let (after, _, oid) = self.allocate(with_tx, tx, obj).unwrap();
                &&& after.wf()
                &&& self.len() <= after.len()
                &&& forall|i: int|
                    0 <= i < self.len() && i != oid.0 ==> #[trigger] after.slots[i] == self.slots[i]
                &&& oid.0 == self.len() || (1 <= oid.0 < self.len() && self.slots[oid.0 as int][0]
                    == 6)
            }),
    {
        reveal(Store::alloc_in);
        obj.lemma_encode_len();
        if with_tx && tx.is_some() {
            match tx.unwrap().new_header.dead {
                Some(oid) => {
                    if self.get(oid).is_ok() {
                        Object::lemma_decode_tag(self.slots[oid.0 as int]);
                    }
                },
                None => {},
            }
        }
    }

    /// An allocation stages the root and the clone list that were staged.
    pub proof fn lemma_allocate_heads(self, with_tx: bool, tx: Option<TxView>, obj: Object)
        requires
            self.allocate(with_tx, tx, obj).is_ok(),
        ensures
            heads_kept(tx, self.allocate(with_tx, tx, obj).unwrap().1),
    {
        reveal(Store::alloc_in);
        if with_tx && tx.is_some() {
            match tx.unwrap().new_header.dead {
                Some(oid) => {
                    if self.get(oid).is_ok() {
                        Object::lemma_decode_wf(self.slots[oid.0 as int]);
                    }
                },
                None => {},
            }
        }
    }

    /// An allocation keeps what was kept so far, and what it wrote to was
    /// free.
    pub proof fn lemma_allocate_kept(
        self,
        base: Store,
        but: Option<ObjectId>,
        with_tx: bool,
        tx: Option<TxView>,
        obj: Object,
    )
        requires
            self.wf(),
            base.kept_in(self, but),
            self.allocate(with_tx, tx, obj).is_ok(),
        ensures
            ({
                let (after, staged, oid) = self.allocate(with_tx, tx, obj).unwrap();
                &&& after.wf()
                &&& base.kept_in(after, but)
                &&& base.free_at(oid, but)
                &&& heads_kept(tx, staged)
            }),
    {
        self.lemma_allocate_frame(with_tx, tx, obj);
        self.lemma_allocate_heads(with_tx, tx, obj);
        let (after, _, oid) = self.allocate(with_tx, tx, obj).unwrap();
        if oid.0 < base.len() && base.holds_live(oid.0 as int) && but != Some(oid) {
            assert(self.slots[oid.0 as int] == base.slots[oid.0 as int]);
        }
        assert forall|i: int|
            1 <= i < base.len() && base.holds_live(i) && but != Some(
                ObjectId(i as u32),
            ) implies #[trigger] after.slots[i] == base.slots[i] by {
            assert(self.slots[i] == base.slots[i]);
        }
    }

    /// A write to a free slot keeps what was kept so far.
    pub proof fn lemma_set_kept(self, base: Store, but: Option<ObjectId>, oid: ObjectId, obj: Object)
        requires
            self.wf(),
            base.kept_in(self, but),
            base.free_at(oid, but),
            self.set(oid, obj).is_ok(),
        ensures
            self.set(oid, obj).unwrap().wf(),
            base.kept_in(self.set(oid, obj).unwrap(), but),
    {
        obj.lemma_encode_len();
        let after = self.set(oid, obj).unwrap();
        assert forall|i: int|
            1 <= i < base.len() && base.holds_live(i) && but != Some(
                ObjectId(i as u32),
            ) implies #[trigger] after.slots[i] == base.slots[i] by {
            assert(self.slots[i] == base.slots[i]);
        }
    }

    /// A write of the header keeps what was kept so far.
    pub proof fn lemma_set_header_kept(
        self,
        base: Store,
        but: Option<ObjectId>,
        header: crate::object::HeaderObj,
    )
        requires
            self.wf(),
            base.kept_in(self, but),
            self.set_header(header).is_ok(),
        ensures
            self.set_header(header).unwrap().wf(),
            base.kept_in(self.set_header(header).unwrap(), but),
    {
        Object::Header(header).lemma_encode_len();
        let after = self.set_header(header).unwrap();
        assert forall|i: int|
            1 <= i < base.len() && base.holds_live(i) && but != Some(
                ObjectId(i as u32),
            ) implies #[trigger] after.slots[i] == base.slots[i] by {
            assert(self.slots[i] == base.slots[i]);
        }
    }

    /// Storing a payload chain keeps what was kept so far, and the chain's
    /// first record is in a slot that was free.
    pub proof fn lemma_alloc_chunks_kept(
        self,
        base: Store,
        but: Option<ObjectId>,
        with_tx: bool,
        tx: Option<TxView>,
        bytes: Seq<u8>,
        i: nat,
    )
        requires
            self.wf(),
            base.kept_in(self, but),
            self.alloc_chunks(with_tx, tx, bytes, i).is_ok(),
        ensures
            ({
                let (after, staged, first) = self.alloc_chunks(with_tx, tx, bytes, i).unwrap();
                &&& after.wf()
                &&& base.kept_in(after, but)
                &&& first matches Some(oid) ==> base.free_at(oid, but)
                &&& heads_kept(tx, staged)
            }),
        decreases crate::objects::chunk_count(bytes.len()) - i,
    {
        if i < crate::objects::chunk_count(bytes.len()) {
            self.lemma_alloc_chunks_kept(base, but, with_tx, tx, bytes, i + 1);
            let (mid, tx1, next) = self.alloc_chunks(with_tx, tx, bytes, i + 1).unwrap();
            let obj = Object::Payload(
                crate::object::PayloadObj {
                    next,
                    ..crate::object::PayloadObj::new_spec(crate::objects::chunk(bytes, i))
                },
            );
            mid.lemma_allocate_kept(base, but, with_tx, tx1, obj);
        }
    }
}

/// An allocation within a transaction leaves the staged edits of the inode
/// table and the staged root as they are.
pub proof fn lemma_tx_after_allocate(store: Store, tx: Option<TxView>, obj: Object)
    requires
        store.allocate(true, tx, obj).is_ok(),
    ensures
        tx matches Some(was) && store.allocate(true, tx, obj).unwrap().1 matches Some(now)
            && now.remaps == was.remaps && now.frees == was.frees && now.new_root == was.new_root,
{
    reveal(Store::alloc_in);
}

/// Storing a payload chain within a transaction leaves the staged edits of
/// the inode table and the staged root as they are.
pub proof fn lemma_tx_after_alloc_chunks(store: Store, tx: Option<TxView>, bytes: Seq<u8>, i: nat)
    requires
        tx.is_some(),
        store.alloc_chunks(true, tx, bytes, i).is_ok(),
    ensures
        store.alloc_chunks(true, tx, bytes, i).unwrap().1 matches Some(now) && now.remaps
            == tx.unwrap().remaps && now.frees == tx.unwrap().frees && now.new_root
            == tx.unwrap().new_root,
    decreases crate::objects::chunk_count(bytes.len()) - i,
{
    if i < crate::objects::chunk_count(bytes.len()) {
        lemma_tx_after_alloc_chunks(store, tx, bytes, i + 1);
        let (mid, tx1, next) = store.alloc_chunks(true, tx, bytes, i + 1).unwrap();
        let obj = Object::Payload(
            crate::object::PayloadObj {
                next,
                ..crate::object::PayloadObj::new_spec(crate::objects::chunk(bytes, i))
            },
        );
        lemma_tx_after_allocate(mid, tx1, obj);
    }
}

/// The slot of the child that stands for an inode is the slot of one of the
/// children.
pub proof fn lemma_new_oid_of(children: Seq<AlteredChild>, iid: InodeId, from: int)
    requires
        0 <= from,
    ensures
        new_oid_of(children, iid, from) matches Some(oid) ==> exists|k: int|
            0 <= k < children.len() && (#[trigger] children[k]).oid == oid,
    decreases children.len() - from,
{
    if from < children.len() {
        if children[from].iid == iid {
        } else {
            lemma_new_oid_of(children, iid, from + 1);
        }
    }
}

/// The child whose body is found is one of the children.
pub proof fn lemma_first_with_body(children: Seq<AlteredChild>, src: ObjectId, from: int)
    requires
        0 <= from,
    ensures
        first_with_body(children, src, from) matches Some(i) ==> from <= i < children.len()
            && children[i].obj.body == Some(src),
    decreases children.len() - from,
{
    if from < children.len() && children[from].obj.body != Some(src) {
        lemma_first_with_body(children, src, from + 1);
    }
}

/// Linking children and replacing a body leaves each child in its slot.
pub proof fn lemma_children_slots(
    reserved: Seq<AlteredChild>,
    replacing: Option<(ObjectId, Option<ObjectId>)>,
)
    ensures
        relink(replace_body(reserved, replacing)).len() == reserved.len(),
        forall|k: int|
            0 <= k < reserved.len() ==> (#[trigger] relink(replace_body(reserved, replacing))[k]).oid
                == reserved[k].oid && relink(replace_body(reserved, replacing))[k].iid
                == reserved[k].iid,
{
    match replacing {
        Some((src, _)) => lemma_first_with_body(reserved, src, 0),
        None => {},
    }
    let replaced = replace_body(reserved, replacing);
    assert(replaced.len() == reserved.len());
    assert forall|k: int| 0 <= k < reserved.len() implies (#[trigger] relink(replaced)[k]).oid
        == reserved[k].oid && relink(replaced)[k].iid == reserved[k].iid by {
        assert(replaced[k].oid == reserved[k].oid);
        assert(replaced[k].iid == reserved[k].iid);
    }
}

impl FsState {
    /// Staging a copy of the root keeps what was kept so far, and the copy
    /// is in a slot that was free.
    pub proof fn lemma_replace_root_kept(
        self,
        base: Store,
        but: Option<ObjectId>,
        parent: EntryObj,
        head: Option<ObjectId>,
    )
        requires
            self.store.wf(),
            base.kept_in(self.store, but),
            self.replace_root(parent, head).is_ok(),
        ensures
            ({
                let (state, oid) = self.replace_root(parent, head).unwrap();
                &&& state.store.wf()
                &&& base.kept_in(state.store, but)
                &&& state.origin == self.origin
                &&& state.dirty_commits == self.dirty_commits
                &&& base.free_at(oid, but)
                &&& heads_kept(self.tx, state.tx)
            }),
    {
        self.store.lemma_allocate_kept(
            base,
            but,
            true,
            self.tx,
            Object::Entry(EntryObj { body: head, ..parent }),
        );
    }

    /// Reserving slots for children keeps what was kept so far, and every
    /// slot reserved was free.
    pub proof fn lemma_reserve_children_kept(
        self,
        base: Store,
        but: Option<ObjectId>,
        kids: Seq<InodeId>,
        skipping: Option<InodeId>,
        n: nat,
    )
        requires
            self.store.wf(),
            base.kept_in(self.store, but),
            self.reserve_children(kids, skipping, n).is_ok(),
        ensures
            ({
                let (state, children) = self.reserve_children(kids, skipping, n).unwrap();
                &&& state.store.wf()
                &&& base.kept_in(state.store, but)
                &&& state.inodes == self.inodes
                &&& state.origin == self.origin
                &&& state.dirty_commits == self.dirty_commits
                &&& heads_kept(self.tx, state.tx)
                &&& forall|k: int|
                    0 <= k < children.len() ==> base.free_at((#[trigger] children[k]).oid, but)
            }),
        decreases n,
    {
        if n > 0 {
            self.lemma_reserve_children_kept(base, but, kids, skipping, (n - 1) as nat);
            let (state, done) = self.reserve_children(kids, skipping, (n - 1) as nat).unwrap();
            if skipping != Some(kids[n - 1]) {
                state.store.lemma_allocate_kept(base, but, true, state.tx, Object::Empty);
            }
        }
    }

    /// Writing children to slots that were free keeps what was kept so far.
    pub proof fn lemma_write_children_kept(
        self,
        base: Store,
        but: Option<ObjectId>,
        children: Seq<AlteredChild>,
        n: nat,
    )
        requires
            self.store.wf(),
            base.kept_in(self.store, but),
            n <= children.len(),
            forall|k: int| 0 <= k < children.len() ==> base.free_at((#[trigger] children[k]).oid, but),
            self.write_children(children, n).is_ok(),
        ensures
            ({
                let state = self.write_children(children, n).unwrap();
                &&& state.store.wf()
                &&& base.kept_in(state.store, but)
                &&& state.inodes == self.inodes
                &&& state.origin == self.origin
                &&& state.dirty_commits == self.dirty_commits
                &&& heads_kept(self.tx, state.tx)
            }),
        decreases n,
    {
        if n > 0 {
            self.lemma_write_children_kept(base, but, children, (n - 1) as nat);
            let state = self.write_children(children, (n - 1) as nat).unwrap();
            let child = children[n - 1];
            state.store.lemma_set_kept(base, but, child.oid, Object::Entry(child.obj));
        }
    }

    /// A rewrite keeps what was kept so far: it writes to slots that were
    /// free, and its result is such a slot.
    pub proof fn lemma_alter_kept(self, base: Store, but: Option<ObjectId>, op: Alter)
        requires
            self.store.wf(),
            base.kept_in(self.store, but),
            self.alter(op).is_ok(),
        ensures
            ({
                let (state, result) = self.alter(op).unwrap();
                &&& state.store.wf()
                &&& base.kept_in(state.store, but)
                &&& state.origin == self.origin
                &&& state.dirty_commits == self.dirty_commits
                &&& heads_kept(self.tx, state.tx)
                &&& state.tx matches Some(tx) && tx.dirty
                &&& result matches Some(oid) ==> base.free_at(oid, but)
            }),
        decreases op.iid.0, 1nat,
    {
        match self.inodes.resolve_parent(op.iid) {
            Ok(parent_iid) => match self.inodes.resolve_object(parent_iid) {
                Ok(parent_oid) => match self.store.get(parent_oid) {
                    Ok(Object::Entry(parent)) => match self.inodes.resolve_children(
                        self.store,
                        parent_iid,
                    ) {
                        Ok((inodes, kids)) => {
                            let resolved = FsState { inodes, ..self };
                            match resolved.reserve_children(kids, op.skipping, kids.len()) {
                                Ok((state, reserved)) => {
                                    resolved.lemma_reserve_children_kept(
                                        base,
                                        but,
                                        kids,
                                        op.skipping,
                                        kids.len(),
                                    );
                                    state.lemma_alter_rest(base, but, op, parent_iid, parent, reserved);
                                },
                                Err(_) => {},
                            }
                        },
                        Err(_) => {},
                    },
                    _ => {},
                },
                Err(_) => {},
            },
            Err(_) => {},
        }
    }

    /// The second half of `lemma_alter_kept`: from the children with their
    /// reserved slots on.
    proof fn lemma_alter_rest(
        self,
        base: Store,
        but: Option<ObjectId>,
        op: Alter,
        parent_iid: InodeId,
        parent: EntryObj,
        reserved: Seq<AlteredChild>,
    )
        requires
            self.store.wf(),
            base.kept_in(self.store, but),
            forall|k: int| 0 <= k < reserved.len() ==> base.free_at((#[trigger] reserved[k]).oid, but),
            self.alter_rest(op, parent_iid, parent, reserved).is_ok(),
        ensures
            ({
                let (state, result) = self.alter_rest(op, parent_iid, parent, reserved).unwrap();
                &&& state.store.wf()
                &&& base.kept_in(state.store, but)
                &&& state.origin == self.origin
                &&& state.dirty_commits == self.dirty_commits
                &&& heads_kept(self.tx, state.tx)
                &&& state.tx matches Some(tx) && tx.dirty
                &&& result matches Some(oid) ==> base.free_at(oid, but)
            }),
        decreases op.iid.0, 0nat,
    {
        let children = relink(replace_body(reserved, op.replacing));
        lemma_children_slots(reserved, op.replacing);
        assert forall|k: int| 0 <= k < children.len() implies base.free_at(
            (#[trigger] children[k]).oid,
            but,
        ) by {
            assert(children[k].oid == reserved[k].oid);
        }
        lemma_new_oid_of(children, op.iid, 0);
        match self.write_children(children, children.len()) {
            Ok(written) => {
                self.lemma_write_children_kept(base, but, children, children.len());
                match written.stage_free(op.skipping) {
                    Ok(staged) => {
                        assert(staged.store == written.store);
                        if parent_iid.0 == 1 {
                            match staged.replace_root(parent, head_of(children)) {
                                Ok(_) => {
                                    staged.lemma_replace_root_kept(
                                        base,
                                        but,
                                        parent,
                                        head_of(children),
                                    );
                                },
                                Err(_) => {},
                            }
                        } else {
                            match parent.body {
                                Some(old_head) => {
                                    if parent_iid.0 < op.iid.0 {
                                        staged.lemma_alter_kept(
                                            base,
                                            but,
                                            Alter {
                                                iid: parent_iid,
                                                skipping: None,
                                                replacing: Some((old_head, head_of(children))),
                                            },
                                        );
                                    }
                                },
                                None => {},
                            }
                        }
                    },
                    Err(_) => {},
                }
            },
            Err(_) => {},
        }
    }
}

/// What a file or directory is read as: its name, its attributes, the
/// content of a file, and the entries of a directory in their order.
pub struct Tree {
    pub name: Seq<u8>,
    pub kind: crate::object::FileKind,
    pub size: u32,
    pub mode: u16,
    pub uid: u32,
    pub gid: u32,
    pub content: Seq<u8>,
    pub children: Seq<Tree>,
}

/// `first` in front of the trees that the rest of a list is read as.
pub open spec fn prepend_tree(first: Tree, rest: Result<Seq<Tree>, FsError>) -> Result<
    Seq<Tree>,
    FsError,
> {
    match rest {
        Ok(rest) => Ok(seq![first] + rest),
        Err(e) => Err(e),
    }
}

impl Store {
    /// The tree that the entry at `oid` is read as, to a depth and a
    /// length of lists of at most `fuel`.
    pub open spec fn tree(self, oid: ObjectId, fuel: nat) -> Result<Tree, FsError>
        decreases fuel, 0nat,
    {
        if fuel == 0 {
            Err(FsError::Corrupt)
        } else {
            match self.get(oid) {
                Ok(Object::Entry(entry)) => match self.payload(entry.name) {
                    Ok(name) => match entry.kind {
                        crate::object::FileKind::RegularFile => match (match entry.body {
                            Some(body) => self.payload(body),
                            None => Ok(Seq::empty()),
                        }) {
                            Ok(content) => Ok(
                                Tree {
                                    name,
                                    kind: entry.kind,
                                    size: entry.size,
                                    mode: entry.mode,
                                    uid: entry.uid,
                                    gid: entry.gid,
                                    content,
                                    children: Seq::empty(),
                                },
                            ),
                            Err(e) => Err(e),
                        },
                        crate::object::FileKind::Directory => match self.forest(
                            entry.body,
                            (fuel - 1) as nat,
                        ) {
                            Ok(children) => Ok(
                                Tree {
                                    name,
                                    kind: entry.kind,
                                    size: entry.size,
                                    mode: entry.mode,
                                    uid: entry.uid,
                                    gid: entry.gid,
                                    content: Seq::empty(),
                                    children,
                                },
                            ),
                            Err(e) => Err(e),
                        },
                    },
                    Err(e) => Err(e),
                },
                Ok(_) => Err(FsError::Corrupt),
                Err(e) => Err(e),
            }
        }
    }

    /// The trees that the entries of the list from `cursor` on are read as.
    pub open spec fn forest(self, cursor: Option<ObjectId>, fuel: nat) -> Result<Seq<Tree>, FsError>
        decreases fuel, 1nat,
    {
        match cursor {
            None => Ok(Seq::empty()),
            Some(oid) => if fuel == 0 {
                Err(FsError::Corrupt)
            } else {
                match self.tree(oid, fuel) {
                    Ok(first) => match self.get(oid) {
                        Ok(Object::Entry(entry)) => prepend_tree(
                            first,
                            self.forest(entry.next, (fuel - 1) as nat),
                        ),
                        Ok(_) => Err(FsError::Corrupt),
                        Err(e) => Err(e),
                    },
                    Err(e) => Err(e),
                }
            },
        }
    }

    /// Whether the slot `but`, if there is one, holds a clone object.
    pub open spec fn is_clone_slot(self, but: Option<ObjectId>) -> bool {
        but matches Some(oid) ==> 1 <= oid.0 < self.len() && self.slots[oid.0 as int][0] == 2
    }

    /// A payload chain that is kept reads as before.
    pub proof fn lemma_payload_kept(self, after: Store, but: Option<ObjectId>, oid: ObjectId)
        requires
            self.wf(),
            self.kept_in(after, but),
            self.is_clone_slot(but),
            self.payload(oid).is_ok(),
        ensures
            after.payload(oid) == self.payload(oid),
    {
        assert forall|i: int| 1 <= i < self.slots.len() && (#[trigger] self.slots[i])[0]
            == 5 implies after.slots[i] == self.slots[i] by {
            assert(self.holds_live(i));
        }
        self.lemma_payload_from_frame(after, oid, self.len());
        after.lemma_payload_from_more_fuel(oid, self.len(), after.len());
    }

    /// A tree that is kept reads as before: where a container keeps every
    /// entry and payload record of this one, the entry at `oid` is read
    /// there as the tree that it is read as here.
    pub proof fn lemma_tree_kept(self, after: Store, but: Option<ObjectId>, oid: ObjectId, fuel: nat)
        requires
            self.wf(),
            self.kept_in(after, but),
            self.is_clone_slot(but),
            self.tree(oid, fuel).is_ok(),
        ensures
            after.tree(oid, fuel) == self.tree(oid, fuel),
        decreases fuel, 0nat,
    {
        match self.get(oid) {
            Ok(Object::Entry(entry)) => {
                Object::lemma_decode_tag(self.slots[oid.0 as int]);
                assert(after.slots[oid.0 as int] == self.slots[oid.0 as int]);
                self.lemma_payload_kept(after, but, entry.name);
                match entry.kind {
                    crate::object::FileKind::RegularFile => {
                        match entry.body {
                            Some(body) => self.lemma_payload_kept(after, but, body),
                            None => {},
                        }
                    },
                    crate::object::FileKind::Directory => {
                        self.lemma_forest_kept(after, but, entry.body, (fuel - 1) as nat);
                    },
                }
            },
            _ => {},
        }
    }

    /// A clone that is kept reads as before: where a container keeps what
    /// this one held, every clone object but the one of the origin is as it
    /// was, and its root directory is read as the tree that it was read as.
    pub proof fn lemma_clone_kept(
        self,
        after: Store,
        but: Option<ObjectId>,
        clone: ObjectId,
        fuel: nat,
    )
        requires
            self.wf(),
            self.kept_in(after, but),
            self.is_clone_slot(but),
            but != Some(clone),
            self.get(clone) is Ok,
            self.get(clone).unwrap() is Clone,
            self.tree(self.get(clone).unwrap()->Clone_0.root, fuel).is_ok(),
        ensures
            after.get(clone) == self.get(clone),
            after.tree(self.get(clone).unwrap()->Clone_0.root, fuel) == self.tree(
                self.get(clone).unwrap()->Clone_0.root,
                fuel,
            ),
    {
        Object::lemma_decode_tag(self.slots[clone.0 as int]);
        assert(after.slots[clone.0 as int] == self.slots[clone.0 as int]);
        self.lemma_tree_kept(after, but, self.get(clone).unwrap()->Clone_0.root, fuel);
    }

    /// See `lemma_tree_kept`.
    pub proof fn lemma_forest_kept(
        self,
        after: Store,
        but: Option<ObjectId>,
        cursor: Option<ObjectId>,
        fuel: nat,
    )
        requires
            self.wf(),
            self.kept_in(after, but),
            self.is_clone_slot(but),
            self.forest(cursor, fuel).is_ok(),
        ensures
            after.forest(cursor, fuel) == self.forest(cursor, fuel),
        decreases fuel, 1nat,
    {
        match cursor {
            Some(oid) => {
                self.lemma_tree_kept(after, but, oid, fuel);
                match self.get(oid) {
                    Ok(Object::Entry(entry)) => {
                        Object::lemma_decode_tag(self.slots[oid.0 as int]);
                        assert(after.slots[oid.0 as int] == self.slots[oid.0 as int]);
                        self.lemma_forest_kept(after, but, entry.next, (fuel - 1) as nat);
                    },
                    _ => {},
                }
            },
            None => {},
        }
    }
}

impl FsState {
    /// A commit keeps what was kept so far: it writes the header and, for
    /// a clone, the clone object of the origin. (A commit that ends a
    /// period also collects: see the laws of the collector for that.)
    pub proof fn lemma_commit_tx_kept(self, base: Store)
        requires
            self.store.wf(),
            base.kept_in(self.store, own_slot(self.origin)),
            self.dirty_commits + 1 < spec_gc_period(),
            self.commit_tx().is_ok(),
        ensures
            self.commit_tx().unwrap().store.wf(),
            base.kept_in(self.commit_tx().unwrap().store, own_slot(self.origin)),
            self.commit_tx().unwrap().origin == self.origin,
            self.tx.unwrap().dirty && ptr_wf(self.tx.unwrap().new_header.dead) && ptr_wf(
                self.tx.unwrap().new_header.clone,
            ) ==> self.commit_tx().unwrap().store.header() == Ok::<
                crate::object::HeaderObj,
                FsError,
            >(self.tx.unwrap().header_to_write(self.origin)),
    {
        let but = own_slot(self.origin);
        match self.tx {
            Some(tx) => {
                if tx.dirty {
                    let header = tx.header_to_write(self.origin);
                    match self.store.set_header(header) {
                        Ok(store) => {
                            self.store.lemma_set_header_kept(base, but, header);
                            if ptr_wf(tx.new_header.dead) && ptr_wf(tx.new_header.clone) {
                                Object::Header(header).lemma_decode_encode();
                                assert(store.header() == Ok::<crate::object::HeaderObj, FsError>(
                                    header,
                                ));
                            }
                            match (tx.new_root, self.origin) {
                                (Some(root), FilesystemOrigin::Clone { oid, .. }) => {
                                    match store.get(oid) {
                                        Ok(Object::Clone(clone)) => {
                                            store.lemma_set_kept(
                                                base,
                                                but,
                                                oid,
                                                Object::Clone(
                                                    crate::object::CloneObj { root, ..clone },
                                                ),
                                            );
                                        },
                                        _ => {},
                                    }
                                },
                                _ => {},
                            }
                        },
                        Err(_) => {},
                    }
                }
            },
            None => {},
        }
    }

    /// Copying an entry keeps what was kept so far, and the copy is in a
    /// slot that was free.
    pub proof fn lemma_clone_inode_kept(self, base: Store, but: Option<ObjectId>, iid: InodeId)
        requires
            self.store.wf(),
            base.kept_in(self.store, but),
            self.clone_inode(iid).is_ok(),
        ensures
            ({
                let (state, oid) = self.clone_inode(iid).unwrap();
                &&& state.store.wf()
                &&& base.kept_in(state.store, but)
                &&& state.origin == self.origin
                &&& state.dirty_commits == self.dirty_commits
                &&& heads_kept(self.tx, state.tx)
                &&& state.tx matches Some(tx) && tx.dirty
                &&& base.free_at(oid, but)
            }),
    {
        self.lemma_alter_kept(base, but, Alter { iid, skipping: None, replacing: None });
    }

    /// A write keeps every clone, entry and payload record that the
    /// container held, but for the clone object of the origin: whatever
    /// another root read before, it reads after.
    pub proof fn lemma_write_keeps(self, iid: InodeId, offset: i64, data: Seq<u8>)
        requires
            self.store.wf(),
            self.dirty_commits + 1 < spec_gc_period(),
            self.write(iid, offset, data).is_ok(),
        ensures
            self.store.kept_in(self.write(iid, offset, data).unwrap().0.store, own_slot(self.origin)),
            self.store.header() matches Ok(was) && self.write(iid, offset, data).unwrap().0.store.header() matches Ok(
                now,
            ) && now.clone == was.clone && (self.origin is Clone ==> now.root == was.root),
    {
        Object::lemma_decode_wf(self.store.slots[0]);
        let base = self.store;
        let but = own_slot(self.origin);
        match self.begin_tx() {
            Ok(begun) => match begun.clone_inode(iid) {
                Ok((state, new_oid)) => {
                    begun.lemma_clone_inode_kept(base, but, iid);
                    match state.store.get(new_oid) {
                        Ok(Object::Entry(obj)) => {
                            let old = match obj.body {
                                Some(body) => state.store.payload(body),
                                None => Ok(Seq::empty()),
                            };
                            match old {
                                Ok(old) => {
                                    if !(offset < 0 || offset + data.len() > u32::MAX) {
                                        let size = crate::filesystem::write::grown_size(
                                            obj.size,
                                            offset,
                                            data.len(),
                                        );
                                        let content = crate::filesystem::write::overwritten(
                                            old,
                                            size as nat,
                                            offset as nat,
                                            data,
                                        );
                                        match state.store.alloc_payload(true, state.tx, content) {
                                            Ok((store, tx, body)) => {
                                                state.store.lemma_alloc_chunks_kept(
                                                    base,
                                                    but,
                                                    true,
                                                    state.tx,
                                                    content,
                                                    0,
                                                );
                                                let entry = Object::Entry(
                                                    EntryObj { body, size: size as u32, ..obj },
                                                );
                                                match store.set(new_oid, entry) {
                                                    Ok(written) => {
                                                        store.lemma_set_kept(base, but, new_oid, entry);
                                                        (FsState {
                                                            store: written,
                                                            tx,
                                                            ..state
                                                        }).lemma_commit_tx_kept(base);
                                                    },
                                                    Err(_) => {},
                                                }
                                            },
                                            Err(_) => {},
                                        }
                                    }
                                },
                                Err(_) => {},
                            }
                        },
                        _ => {},
                    }
                },
                Err(_) => {},
            },
            Err(_) => {},
        }
    }

    /// Setting attributes keeps every clone, entry and payload record that
    /// the container held, but for the clone object of the origin.
    pub proof fn lemma_setattr_keeps(
        self,
        iid: InodeId,
        mode: Option<u32>,
        uid: Option<u32>,
        gid: Option<u32>,
        size: Option<u64>,
    )
        requires
            self.store.wf(),
            self.dirty_commits + 1 < spec_gc_period(),
            self.setattr(iid, mode, uid, gid, size).is_ok(),
        ensures
            self.store.kept_in(
                self.setattr(iid, mode, uid, gid, size).unwrap().0.store,
                own_slot(self.origin),
            ),
            self.store.header() matches Ok(was) && self.setattr(
                iid,
                mode,
                uid,
                gid,
                size,
            ).unwrap().0.store.header() matches Ok(now) && now.clone == was.clone && (self.origin
                is Clone ==> now.root == was.root),
    {
        Object::lemma_decode_wf(self.store.slots[0]);
        let base = self.store;
        let but = own_slot(self.origin);
        match self.begin_tx() {
            Ok(begun) => match begun.clone_inode(iid) {
                Ok((state, new_oid)) => {
                    begun.lemma_clone_inode_kept(base, but, iid);
                    match state.store.get(new_oid) {
                        Ok(Object::Entry(obj)) => {
                            let entry = Object::Entry(
                                crate::filesystem::setattr::with_attrs(obj, mode, uid, gid, size),
                            );
                            match state.store.set(new_oid, entry) {
                                Ok(written) => {
                                    state.store.lemma_set_kept(base, but, new_oid, entry);
                                    (FsState { store: written, ..state }).lemma_commit_tx_kept(base);
                                },
                                Err(_) => {},
                            }
                        },
                        _ => {},
                    }
                },
                Err(_) => {},
            },
            Err(_) => {},
        }
    }

    /// A rename keeps every clone, entry and payload record that the
    /// container held, but for the clone object of the origin.
    pub proof fn lemma_rename_keeps(
        self,
        old_parent_iid: InodeId,
        old_name: Seq<u8>,
        new_parent_iid: InodeId,
        new_name: Seq<u8>,
    )
        requires
            self.store.wf(),
            self.dirty_commits + 1 < spec_gc_period(),
            self.rename(old_parent_iid, old_name, new_parent_iid, new_name).is_ok(),
        ensures
            self.store.kept_in(
                self.rename(old_parent_iid, old_name, new_parent_iid, new_name).unwrap().0.store,
                own_slot(self.origin),
            ),
            self.store.header() matches Ok(was) && self.rename(
                old_parent_iid,
                old_name,
                new_parent_iid,
                new_name,
            ).unwrap().0.store.header() matches Ok(now) && now.clone == was.clone && (self.origin
                is Clone ==> now.root == was.root),
    {
        Object::lemma_decode_wf(self.store.slots[0]);
        let base = self.store;
        let but = own_slot(self.origin);
        match self.begin_tx() {
            Ok(begun) => match begun.find(old_parent_iid, old_name) {
                Ok((found, (iid, _))) => {
                    if old_parent_iid == new_parent_iid && new_name != old_name {
                        match found.clone_inode(iid) {
                            Ok((state, new_oid)) => {
                                found.lemma_clone_inode_kept(base, but, iid);
                                match state.store.get(new_oid) {
                                    Ok(Object::Entry(obj)) => {
                                        match state.store.alloc_payload(true, state.tx, new_name) {
                                            Ok((store, tx, Some(name))) => {
                                                state.store.lemma_alloc_chunks_kept(
                                                    base,
                                                    but,
                                                    true,
                                                    state.tx,
                                                    new_name,
                                                    0,
                                                );
                                                let entry = Object::Entry(EntryObj { name, ..obj });
                                                match store.set(new_oid, entry) {
                                                    Ok(written) => {
                                                        store.lemma_set_kept(base, but, new_oid, entry);
                                                        (FsState {
                                                            store: written,
                                                            tx,
                                                            ..state
                                                        }).lemma_commit_tx_kept(base);
                                                    },
                                                    Err(_) => {},
                                                }
                                            },
                                            _ => {},
                                        }
                                    },
                                    _ => {},
                                }
                            },
                            Err(_) => {},
                        }
                    }
                },
                Err(_) => {},
            },
            Err(_) => {},
        }
    }

    /// Removing an entry keeps every clone, entry and payload record that
    /// the container held, but for the clone object of the origin: the
    /// entry is left out of copies, and is itself as it was.
    pub proof fn lemma_rm_keeps(self, parent_iid: InodeId, name: Seq<u8>)
        requires
            self.store.wf(),
            self.dirty_commits + 1 < spec_gc_period(),
            self.rm(parent_iid, name).is_ok(),
        ensures
            self.store.kept_in(self.rm(parent_iid, name).unwrap().0.store, own_slot(self.origin)),
            self.store.header() matches Ok(was) && self.rm(parent_iid, name).unwrap().0.store.header() matches Ok(
                now,
            ) && now.clone == was.clone && (self.origin is Clone ==> now.root == was.root),
    {
        Object::lemma_decode_wf(self.store.slots[0]);
        let base = self.store;
        let but = own_slot(self.origin);
        match self.begin_tx() {
            Ok(begun) => match begun.find(parent_iid, name) {
                Ok((found, (iid, _))) => {
                    if iid.0 != 1 {
                        let op = Alter { iid, skipping: Some(iid), replacing: None };
                        match found.alter(op) {
                            Ok((state, _)) => {
                                found.lemma_alter_kept(base, but, op);
                                state.lemma_commit_tx_kept(base);
                            },
                            Err(_) => {},
                        }
                    }
                },
                Err(_) => {},
            },
            Err(_) => {},
        }
    }

    /// Looking up and listing change nothing in the container.
    pub proof fn lemma_reads_keep(self, iid: InodeId, name: Seq<u8>, offset: i64)
        requires
            self.store.wf(),
        ensures
            self.lookup(iid, name) matches Ok(done) ==> done.0.store == self.store,
            self.readdir(iid, offset) matches Ok(done) ==> done.0.store == self.store,
    {
    }
}

impl FsState {
    /// The slot that linking a child into the directory at `parent_oid`
    /// changes in place: the directory's slot where it lists nothing, else
    /// the slot of its last entry.
    pub open spec fn linked_slot(self, parent_oid: ObjectId, child: Object) -> ObjectId {
        match self.store.get(parent_oid) {
            Ok(Object::Entry(parent)) => match parent.body {
                Some(head) => match self.store.allocate(true, self.tx, child) {
                    Ok((store, _, _)) => match store.list_tail(head, store.len()) {
                        Ok((oid, _)) => oid,
                        Err(_) => parent_oid,
                    },
                    Err(_) => parent_oid,
                },
                None => parent_oid,
            },
            _ => parent_oid,
        }
    }

    /// The slot that making an entry changes in place: see `linked_slot`.
    pub open spec fn mk_linked_slot(
        self,
        parent_iid: InodeId,
        name: Seq<u8>,
        mode: u32,
        uid: u32,
        gid: u32,
        kind: crate::object::FileKind,
    ) -> ObjectId {
        match self.begin_tx() {
            Ok(begun) => match begun.store.alloc_payload(true, begun.tx, name) {
                Ok((store, tx, Some(name_oid))) => match (FsState {
                    store,
                    tx,
                    ..begun
                }).clone_inode(parent_iid) {
                    Ok((state, new_parent_oid)) => state.linked_slot(
                        new_parent_oid,
                        Object::Entry(
                            crate::filesystem::mk::new_entry(name_oid, mode, uid, gid, kind),
                        ),
                    ),
                    Err(_) => ObjectId(0),
                },
                _ => ObjectId(0),
            },
            Err(_) => ObjectId(0),
        }
    }

    /// Linking a child in keeps what was kept so far, where the slot that it
    /// changes in place was free.
    pub proof fn lemma_append_kept(
        self,
        base: Store,
        but: Option<ObjectId>,
        parent_oid: ObjectId,
        child: Object,
    )
        requires
            self.store.wf(),
            base.kept_in(self.store, but),
            base.free_at(self.linked_slot(parent_oid, child), but),
            self.append(parent_oid, child).is_ok(),
        ensures
            ({
                let (state, _) = self.append(parent_oid, child).unwrap();
                &&& state.store.wf()
                &&& base.kept_in(state.store, but)
                &&& state.origin == self.origin
                &&& state.dirty_commits == self.dirty_commits
            }),
    {
        match self.store.get(parent_oid) {
            Ok(Object::Entry(parent)) => match self.store.allocate(true, self.tx, child) {
                Ok((store, tx, child_oid)) => {
                    self.store.lemma_allocate_kept(base, but, true, self.tx, child);
                    match parent.body {
                        Some(head) => match store.list_tail(head, store.len()) {
                            Ok((oid, entry)) => {
                                let linked = Object::Entry(
                                    EntryObj { next: Some(child_oid), ..entry },
                                );
                                if store.set(oid, linked).is_ok() {
                                    store.lemma_set_kept(base, but, oid, linked);
                                }
                            },
                            Err(_) => {},
                        },
                        None => {
                            let linked = Object::Entry(EntryObj { body: Some(child_oid), ..parent });
                            if store.set(parent_oid, linked).is_ok() {
                                store.lemma_set_kept(base, but, parent_oid, linked);
                            }
                        },
                    }
                },
                Err(_) => {},
            },
            _ => {},
        }
    }

    /// Making an entry keeps every clone, entry and payload record that the
    /// container held, but for the clone object of the origin, where the
    /// slot that is changed in place held none of them: where the new entry
    /// is the first of its directory, or the entry before it is a copy that
    /// this operation made. (Where the entry before it was held before, its
    /// link is changed in place, and every root that reads it reads the new
    /// entry behind it.)
    pub proof fn lemma_mk_keeps(
        self,
        parent_iid: InodeId,
        name: Seq<u8>,
        mode: u32,
        uid: u32,
        gid: u32,
        kind: crate::object::FileKind,
    )
        requires
            self.store.wf(),
            self.dirty_commits + 1 < spec_gc_period(),
            self.mk(parent_iid, name, mode, uid, gid, kind).is_ok(),
            self.store.free_at(
                self.mk_linked_slot(parent_iid, name, mode, uid, gid, kind),
                own_slot(self.origin),
            ),
        ensures
            self.store.kept_in(
                self.mk(parent_iid, name, mode, uid, gid, kind).unwrap().0.store,
                own_slot(self.origin),
            ),
    {
        let base = self.store;
        let but = own_slot(self.origin);
        match self.begin_tx() {
            Ok(begun) => match begun.store.alloc_payload(true, begun.tx, name) {
                Ok((store, tx, Some(name_oid))) => {
                    begun.store.lemma_alloc_chunks_kept(base, but, true, begun.tx, name, 0);
                    let named = FsState { store, tx, ..begun };
                    match named.clone_inode(parent_iid) {
                        Ok((state, new_parent_oid)) => {
                            named.lemma_clone_inode_kept(base, but, parent_iid);
                            let obj = Object::Entry(
                                crate::filesystem::mk::new_entry(name_oid, mode, uid, gid, kind),
                            );
                            match state.append(new_parent_oid, obj) {
                                Ok((linked, _)) => {
                                    state.lemma_append_kept(base, but, new_parent_oid, obj);
                                    if linked.commit_tx().is_ok() {
                                        linked.lemma_commit_tx_kept(base);
                                    }
                                },
                                Err(_) => {},
                            }
                        },
                        Err(_) => {},
                    }
                },
                _ => {},
            },
            Err(_) => {},
        }
    }
}

impl Store {
    /// Creating a clone keeps every clone, entry and payload record that
    /// the container held.
    pub proof fn lemma_create_clone_keeps(self, name: Seq<char>, is_writable: bool)
        requires
            self.wf(),
            self.create_clone(name, is_writable).is_ok(),
        ensures
            self.kept_in(self.create_clone(name, is_writable).unwrap(), None),
    {
        let bytes = vstd::utf8::encode_utf8(crate::clone::trimmed(name));
        let header = self.header().unwrap();
        let (named, _, first) = self.alloc_payload(false, None, bytes).unwrap();
        self.lemma_alloc_chunks_kept(self, None, false, None, bytes, 0);
        let obj = Object::Clone(
            crate::object::CloneObj {
                name: first.unwrap(),
                root: header.root,
                is_writable,
                next: header.clone,
            },
        );
        named.lemma_allocate_kept(self, None, false, None, obj);
        let (added, oid) = named.alloc_new(obj).unwrap();
        added.lemma_set_header_kept(
            self,
            None,
            crate::object::HeaderObj { clone: Some(oid), ..header },
        );
    }
}

impl Store {
    /// Copying the clone objects that a deletion keeps appends the copies:
    /// what was kept so far is kept, and every copy is in a slot that was
    /// free.
    pub proof fn lemma_copy_kept_keeps(
        self,
        base: Store,
        cursor: Option<ObjectId>,
        target: ObjectId,
        fuel: nat,
    )
        requires
            self.wf(),
            base.kept_in(self, None),
            self.copy_kept(cursor, target, fuel).is_ok(),
        ensures
            ({
                let (after, kept) = self.copy_kept(cursor, target, fuel).unwrap();
                &&& after.wf()
                &&& base.kept_in(after, None)
                &&& forall|k: int| 0 <= k < kept.len() ==> base.free_at((#[trigger] kept[k]).1, None)
            }),
        decreases fuel,
    {
        match cursor {
            Some(oid) => {
                match self.get(oid) {
                    Ok(Object::Clone(obj)) => {
                        if oid != target {
                            self.lemma_allocate_kept(base, None, false, None, Object::Clone(obj));
                            let (store, new_oid) = self.alloc_new(Object::Clone(obj)).unwrap();
                            store.lemma_copy_kept_keeps(base, obj.next, target, (fuel - 1) as nat);
                            let (after, rest) = store.copy_kept(
                                obj.next,
                                target,
                                (fuel - 1) as nat,
                            ).unwrap();
                            let kept = seq![(obj, new_oid)] + rest;
                            assert forall|k: int| 0 <= k < kept.len() implies base.free_at(
                                (#[trigger] kept[k]).1,
                                None,
                            ) by {
                                if k > 0 {
                                    assert(kept[k] == rest[k - 1]);
                                }
                            }
                        } else {
                            self.lemma_copy_kept_keeps(base, obj.next, target, (fuel - 1) as nat);
                        }
                    },
                    _ => {},
                }
            },
            None => {},
        }
    }

    /// Writing the copies into slots that were free keeps what was kept so
    /// far.
    pub proof fn lemma_write_kept_keeps(
        self,
        base: Store,
        kept: Seq<(crate::object::CloneObj, ObjectId)>,
        n: nat,
    )
        requires
            self.wf(),
            base.kept_in(self, None),
            n <= kept.len(),
            forall|k: int| 0 <= k < kept.len() ==> base.free_at((#[trigger] kept[k]).1, None),
            crate::clone::write_kept(self, kept, n).is_ok(),
        ensures
            crate::clone::write_kept(self, kept, n).unwrap().wf(),
            base.kept_in(crate::clone::write_kept(self, kept, n).unwrap(), None),
        decreases n,
    {
        if n > 0 {
            self.lemma_write_kept_keeps(base, kept, (n - 1) as nat);
            let before = crate::clone::write_kept(self, kept, (n - 1) as nat).unwrap();
            before.lemma_set_kept(
                base,
                None,
                kept[n - 1].1,
                Object::Clone(
                    crate::object::CloneObj {
                        next: if (n as int) < kept.len() {
                            Some(kept[n as int].1)
                        } else {
                            None
                        },
                        ..kept[n - 1].0
                    },
                ),
            );
        }
    }

    /// Deleting a clone keeps every clone, entry and payload record that
    /// the container held: the list is rebuilt from copies, and the clone
    /// objects that were on it are left as they were.
    pub proof fn lemma_delete_clone_keeps(self, name: Seq<char>)
        requires
            self.wf(),
            self.delete_clone(name).is_ok(),
        ensures
            self.kept_in(self.delete_clone(name).unwrap(), None),
    {
        let header = self.header().unwrap();
        let found = self.find_clone(name).unwrap();
        self.lemma_copy_kept_keeps(self, header.clone, found.oid, self.len());
        let (store, kept) = self.copy_kept(header.clone, found.oid, self.len()).unwrap();
        store.lemma_write_kept_keeps(self, kept, kept.len());
        let written = crate::clone::write_kept(store, kept, kept.len()).unwrap();
        written.lemma_set_header_kept(
            self,
            None,
            crate::object::HeaderObj {
                clone: if kept.len() > 0 {
                    Some(kept[0].1)
                } else {
                    None
                },
                ..header
            },
        );
    }
}

} // verus!
