//! What a rewrite does to the entries that inodes stand for. A rewrite
//! copies entries into fresh slots and stages the inodes to point at the
//! copies. The laws of this file say that a copy is the entry that the
//! inode stood for, but for its links, so that an inode that is not deleted
//! stands for an entry of the same name and kind after the operation as
//! before it.

use crate::filesystem::alter::{head_of, relink, relinked, replace_body, Alter, AlteredChild};
use crate::filesystem::frame::{own_slot, lemma_first_with_body};
use crate::filesystem::{spec_gc_period, FsState};
use crate::inode_id::InodeId;
use crate::inodes::InodeTable;
use crate::object::{ptr_wf, EntryObj, Object};
use crate::object_id::ObjectId;
use crate::result::FsError;
use crate::storage::Store;
use crate::transaction::TxView;
use vstd::prelude::*;

verus! {

/// Whether `new` is an entry of the name and the kind of `old`: it points
/// at the same name record and is a directory where `old` is one.
pub open spec fn same_entry(old: EntryObj, new: EntryObj) -> bool {
    &&& new.name == old.name
    &&& new.kind == old.kind
}

/// Whether every slot of `after` is as in `before` or holds nothing.
pub open spec fn as_before_or_empty(before: Store, after: Store) -> bool {
    &&& before.len() <= after.len()
    &&& forall|i: int|
        0 <= i < after.len() ==> (i < before.len() && (#[trigger] after.slots[i]) == before.slots[i])
            || after.slots[i][0] == 0
}

impl FsState {
    /// What reserving slots for children gives: each child has a slot of
    /// its own, other than slot 0, which holds nothing yet; and each child's
    /// entry is the one that its inode stands for.
    pub proof fn lemma_reserve_children_held(
        self,
        kids: Seq<InodeId>,
        skipping: Option<InodeId>,
        n: nat,
    )
        requires
            self.store.wf(),
            self.store.len() >= 1,
            self.reserve_children(kids, skipping, n).is_ok(),
        ensures
            ({
                let (state, children) = self.reserve_children(kids, skipping, n).unwrap();
                &&& state.store.wf()
                &&& as_before_or_empty(self.store, state.store)
                &&& state.inodes == self.inodes
                &&& state.tx matches Some(tx) ==> self.tx matches Some(was) && tx.remaps
                    == was.remaps && tx.frees == was.frees
                &&& forall|k: int|
                    0 <= k < children.len() ==> {
                        let child = #[trigger] children[k];
                        &&& 1 <= child.oid.0 < state.store.len()
                        &&& state.store.slots[child.oid.0 as int][0] == 0
                        &&& Object::Entry(child.obj).wf()
                        &&& self.inodes.resolve_object(child.iid) matches Ok(old)
                        &&& self.store.get(old) == Ok::<Object, FsError>(Object::Entry(child.obj))
                    }
                &&& forall|j: int, k: int|
                    0 <= j < children.len() && 0 <= k < children.len() && j != k ==> (
                    #[trigger] children[j]).oid != (#[trigger] children[k]).oid
            }),
        decreases n,
    {
        if n > 0 {
            self.lemma_reserve_children_held(kids, skipping, (n - 1) as nat);
            let (state, done) = self.reserve_children(kids, skipping, (n - 1) as nat).unwrap();
            let iid = kids[n - 1];
            if skipping != Some(iid) {
                let old = state.inodes.resolve_object(iid).unwrap();
                state.store.lemma_allocate_frame(true, state.tx, Object::Empty);
                state.store.lemma_allocate_effect(true, state.tx, Object::Empty);
                crate::filesystem::frame::lemma_tx_after_allocate(
                    state.store,
                    state.tx,
                    Object::Empty,
                );
                let (store, tx, oid) = state.store.allocate(true, state.tx, Object::Empty).unwrap();
                Object::Empty.lemma_encode_tag();
                Object::lemma_decode_tag(store.slots[oid.0 as int]);
                let obj = store.get(old).unwrap()->Entry_0;
                Object::lemma_decode_wf(store.slots[old.0 as int]);
                Object::lemma_decode_tag(store.slots[old.0 as int]);
                assert(old != oid);
                assert(store.slots[old.0 as int] == state.store.slots[old.0 as int]);
                assert(state.store.slots[old.0 as int] == self.store.slots[old.0 as int]);
                let children = done.push(AlteredChild { iid, oid, obj });
                assert forall|k: int| 0 <= k < children.len() implies {
                    let child = #[trigger] children[k];
                    &&& 1 <= child.oid.0 < store.len()
                    &&& store.slots[child.oid.0 as int][0] == 0
                    &&& Object::Entry(child.obj).wf()
                    &&& self.inodes.resolve_object(child.iid) matches Ok(old)
                    &&& self.store.get(old) == Ok::<Object, FsError>(Object::Entry(child.obj))
                } by {
                    if k < done.len() {
                        assert(children[k] == done[k]);
                        assert(done[k].oid != oid);
                    }
                }
                assert forall|j: int, k: int|
                    0 <= j < children.len() && 0 <= k < children.len() && j != k implies (
                #[trigger] children[j]).oid != (#[trigger] children[k]).oid by {
                    if j < done.len() {
                        assert(children[j] == done[j]);
                        assert(done[j].oid != oid);
                    }
                    if k < done.len() {
                        assert(children[k] == done[k]);
                        assert(done[k].oid != oid);
                    }
                }
            }
        }
    }
}

/// The pairs of inode and slot that writing the first `n` children stages.
pub open spec fn staged_remaps(children: Seq<AlteredChild>, n: nat) -> Seq<(InodeId, ObjectId)> {
    Seq::new(n, |k: int| (children[k].iid, children[k].oid))
}

/// Linking children and replacing a body changes links only: each child
/// keeps its inode, its slot, its name and its kind, and can be stored.
pub proof fn lemma_children_entries(
    reserved: Seq<AlteredChild>,
    replacing: Option<(ObjectId, Option<ObjectId>)>,
)
    requires
        forall|k: int|
            0 <= k < reserved.len() ==> (#[trigger] reserved[k]).oid.0 != 0 && Object::Entry(
                reserved[k].obj,
            ).wf(),
        replacing matches Some((_, dst)) ==> ptr_wf(dst),
    ensures
        relink(replace_body(reserved, replacing)).len() == reserved.len(),
        forall|k: int|
            0 <= k < reserved.len() ==> {
                let child = #[trigger] relink(replace_body(reserved, replacing))[k];
                &&& child.oid == reserved[k].oid
                &&& child.iid == reserved[k].iid
                &&& same_entry(reserved[k].obj, child.obj)
                &&& Object::Entry(child.obj).wf()
            },
{
    match replacing {
        Some((src, _)) => lemma_first_with_body(reserved, src, 0),
        None => {},
    }
    let replaced = replace_body(reserved, replacing);
    assert(replaced.len() == reserved.len());
    assert forall|k: int| 0 <= k < reserved.len() implies {
        let child = #[trigger] relink(replaced)[k];
        &&& child.oid == reserved[k].oid
        &&& child.iid == reserved[k].iid
        &&& same_entry(reserved[k].obj, child.obj)
        &&& Object::Entry(child.obj).wf()
    } by {
        assert(replaced[k].oid == reserved[k].oid);
        assert(same_entry(reserved[k].obj, replaced[k].obj));
        assert(relink(replaced)[k] == relinked(replaced, k));
        if k + 1 < replaced.len() {
            assert(replaced[k + 1].oid == reserved[k + 1].oid);
        }
    }
}

impl FsState {
    /// What writing children gives: each child's slot holds the child's
    /// entry, every other slot is as it was, and the children's inodes are
    /// staged, in their order, to point at their slots.
    pub proof fn lemma_write_children_held(self, children: Seq<AlteredChild>, n: nat)
        requires
            self.store.wf(),
            n <= children.len(),
            forall|k: int|
                0 <= k < children.len() ==> 1 <= (#[trigger] children[k]).oid.0 < self.store.len()
                    && Object::Entry(children[k].obj).wf(),
            forall|j: int, k: int|
                0 <= j < children.len() && 0 <= k < children.len() && j != k ==> (
                #[trigger] children[j]).oid != (#[trigger] children[k]).oid,
            self.write_children(children, n).is_ok(),
        ensures
            ({
                let state = self.write_children(children, n).unwrap();
                &&& state.store.wf()
                &&& state.store.len() == self.store.len()
                &&& state.inodes == self.inodes
                &&& match self.tx {
                    Some(was) => state.tx matches Some(tx) && {
                        &&& tx.remaps == was.remaps + staged_remaps(children, n)
                        &&& tx.frees == was.frees
                        &&& tx.new_root == was.new_root
                        &&& tx.new_header == was.new_header
                    },
                    None => state.tx.is_none() && n == 0,
                }
                &&& forall|k: int|
                    0 <= k < n ==> state.store.get((#[trigger] children[k]).oid) == Ok::<
                        Object,
                        FsError,
                    >(Object::Entry(children[k].obj))
                &&& forall|i: int|
                    0 <= i < self.store.len() && (forall|k: int|
                        0 <= k < n ==> (#[trigger] children[k]).oid.0 != i)
                        ==> #[trigger] state.store.slots[i] == self.store.slots[i]
            }),
        decreases n,
    {
        if n == 0 {
            let was = self.tx;
            if was.is_some() {
                assert(was.unwrap().remaps + staged_remaps(children, 0) =~= was.unwrap().remaps);
            }
        } else {
            self.lemma_write_children_held(children, (n - 1) as nat);
            let before = self.write_children(children, (n - 1) as nat).unwrap();
            let child = children[n - 1];
            let state = self.write_children(children, n).unwrap();
            Object::Entry(child.obj).lemma_decode_encode();
            Object::Entry(child.obj).lemma_encode_len();
            let was = self.tx.unwrap();
            assert(state.tx.unwrap().remaps =~= was.remaps + staged_remaps(children, n));
            assert forall|k: int| 0 <= k < n implies state.store.get(
                (#[trigger] children[k]).oid,
            ) == Ok::<Object, FsError>(Object::Entry(children[k].obj)) by {
                if k < n - 1 {
                    assert(children[k].oid != child.oid);
                    assert(state.store.slots[children[k].oid.0 as int]
                        == before.store.slots[children[k].oid.0 as int]);
                }
            }
            assert forall|i: int|
                0 <= i < self.store.len() && (forall|k: int|
                    0 <= k < n ==> (#[trigger] children[k]).oid.0 != i) implies #[trigger] state.store.slots[i]
                == self.store.slots[i] by {
                assert(children[n - 1].oid.0 != i);
                assert(before.store.slots[i] == self.store.slots[i]);
            }
        }
    }
}

/// Whether every inode of the table stands for an entry of the container.
pub open spec fn entries_in(known: InodeTable, base: Store) -> bool {
    forall|k: u64| #[trigger]
        known.nodes.contains_key(k) ==> base.get(known.nodes[k].oid) is Ok && base.get(
            known.nodes[k].oid,
        ).unwrap() is Entry
}

/// Whether the staged pair `remap` points an inode at a copy of its entry:
/// where the inode is one of `known`, the slot holds an entry of `store`
/// with the name and kind that the inode's entry has in `base`.
pub open spec fn remap_holds(remap: (InodeId, ObjectId), store: Store, base: Store, known: InodeTable) -> bool {
    known.nodes.contains_key(remap.0.0) ==> {
        &&& base.get(known.nodes[remap.0.0].oid) is Ok
        &&& base.get(known.nodes[remap.0.0].oid).unwrap() is Entry
        &&& store.get(remap.1) is Ok
        &&& store.get(remap.1).unwrap() is Entry
        &&& same_entry(
            base.get(known.nodes[remap.0.0].oid).unwrap()->Entry_0,
            store.get(remap.1).unwrap()->Entry_0,
        )
    }
}

/// Whether every staged pair points an inode at a copy of its entry.
pub open spec fn remaps_hold(tx: Option<TxView>, store: Store, base: Store, known: InodeTable) -> bool {
    tx matches Some(tx) ==> forall|j: int|
        0 <= j < tx.remaps.len() ==> remap_holds(#[trigger] tx.remaps[j], store, base, known)
}

/// Staged pairs that hold keep holding in a container that keeps every
/// entry.
pub proof fn lemma_remaps_kept(
    tx: Option<TxView>,
    store: Store,
    after: Store,
    base: Store,
    known: InodeTable,
)
    requires
        store.wf(),
        remaps_hold(tx, store, base, known),
        store.len() <= after.len(),
        forall|i: int|
            1 <= i < store.len() && store.slots[i][0] == 3 ==> #[trigger] after.slots[i]
                == store.slots[i],
    ensures
        remaps_hold(tx, after, base, known),
{
    match tx {
        Some(tx) => {
            assert forall|j: int| 0 <= j < tx.remaps.len() implies remap_holds(
                #[trigger] tx.remaps[j],
                after,
                base,
                known,
            ) by {
                let remap = tx.remaps[j];
                assert(remap_holds(remap, store, base, known));
                if known.nodes.contains_key(remap.0.0) {
                    Object::lemma_decode_tag(store.slots[remap.1.0 as int]);
                    assert(after.slots[remap.1.0 as int] == store.slots[remap.1.0 as int]);
                }
            }
        },
        None => {},
    }
}

/// What is kept from a table by a table that is kept by a third is kept
/// by the third.
pub proof fn lemma_kept_by_trans(known: InodeTable, mid: InodeTable, after: InodeTable)
    requires
        known.kept_by(mid),
        mid.kept_by(after),
    ensures
        known.kept_by(after),
{
    assert forall|k: u64| #[trigger] known.nodes.contains_key(k) implies after.nodes.contains_key(k)
        && after.nodes[k].oid == known.nodes[k].oid && after.nodes[k].parent
        == known.nodes[k].parent by {
        assert(mid.nodes.contains_key(k));
    }
}

/// An entry that an inode of `known` stands for is read in a container
/// that keeps `base` as it is read in `base`.
pub proof fn lemma_known_entry(
    base: Store,
    store: Store,
    but: Option<ObjectId>,
    known: InodeTable,
    iid: InodeId,
)
    requires
        base.wf(),
        base.kept_in(store, but),
        base.is_clone_slot(but),
        entries_in(known, base),
        known.nodes.contains_key(iid.0),
    ensures
        store.get(known.nodes[iid.0].oid) == base.get(known.nodes[iid.0].oid),
        base.get(known.nodes[iid.0].oid) is Ok,
        base.get(known.nodes[iid.0].oid).unwrap() is Entry,
{
    let oid = known.nodes[iid.0].oid;
    Object::lemma_decode_tag(base.slots[oid.0 as int]);
    assert(base.holds_live(oid.0 as int));
    assert(store.slots[oid.0 as int] == base.slots[oid.0 as int]);
}

impl FsState {
    /// Inode identity under a rewrite: every inode that the rewrite stages
    /// to point at a new slot, and that was known before, finds there an
    /// entry with the name and the kind of the entry that it stood for.
    pub proof fn lemma_alter_identity(
        self,
        base: Store,
        known: InodeTable,
        but: Option<ObjectId>,
        op: Alter,
    )
        requires
            base.wf(),
            self.store.wf(),
            self.store.len() >= 1,
            base.kept_in(self.store, but),
            base.is_clone_slot(but),
            self.inodes.wf(),
            known.kept_by(self.inodes),
            entries_in(known, base),
            remaps_hold(self.tx, self.store, base, known),
            op.replacing matches Some((_, dst)) ==> ptr_wf(dst),
            self.alter(op).is_ok(),
        ensures
            ({
                let (state, _) = self.alter(op).unwrap();
                &&& state.store.wf()
                &&& state.store.len() >= 1
                &&& base.kept_in(state.store, but)
                &&& state.inodes.wf()
                &&& known.kept_by(state.inodes)
                &&& remaps_hold(state.tx, state.store, base, known)
                &&& state.origin == self.origin
                &&& state.dirty_commits == self.dirty_commits
                &&& self.tx matches Some(was) && state.tx matches Some(tx) && (
                op.skipping.is_none() ==> tx.frees == was.frees)
            }),
        decreases op.iid.0, 1nat,
    {
        match self.inodes.resolve_parent(op.iid) {
            Ok(parent_iid) => match self.inodes.resolve_object(parent_iid) {
                Ok(parent_oid) => match self.store.get(parent_oid) {
                    Ok(Object::Entry(parent)) => match self.inodes.resolve_children(
                        self.store,
                        parent_iid,
                    ) {
                        Ok((inodes, kids)) => {
                            self.inodes.lemma_resolve_children(self.store, parent_iid);
                            lemma_kept_by_trans(known, self.inodes, inodes);
                            let resolved = FsState { inodes, ..self };
                            match resolved.reserve_children(kids, op.skipping, kids.len()) {
                                Ok((state, reserved)) => {
                                    resolved.lemma_reserve_children_held(
                                        kids,
                                        op.skipping,
                                        kids.len(),
                                    );
                                    resolved.lemma_reserve_children_kept(
                                        base,
                                        but,
                                        kids,
                                        op.skipping,
                                        kids.len(),
                                    );
                                    resolved.lemma_reserve_children_kept(
                                        self.store,
                                        None,
                                        kids,
                                        op.skipping,
                                        kids.len(),
                                    );
                                    // what was an entry is one still
                                    assert forall|i: int|
                                        1 <= i < self.store.len() && self.store.slots[i][0]
                                            == 3 implies #[trigger] state.store.slots[i]
                                        == self.store.slots[i] by {
                                        assert(self.store.holds_live(i));
                                    }
                                    lemma_remaps_kept(
                                        self.tx,
                                        self.store,
                                        state.store,
                                        base,
                                        known,
                                    );
                                    Object::lemma_decode_tag(self.store.slots[parent_oid.0 as int]);
                                    Object::lemma_decode_wf(self.store.slots[parent_oid.0 as int]);
                                    assert forall|k: int| 0 <= k < reserved.len() implies {
                                        let child = #[trigger] reserved[k];
                                        &&& state.inodes.resolve_object(child.iid) matches Ok(old)
                                        &&& state.store.get(old) == Ok::<Object, FsError>(
                                            Object::Entry(child.obj),
                                        )
                                    } by {
                                        let old = inodes.resolve_object(reserved[k].iid).unwrap();
                                        Object::lemma_decode_tag(self.store.slots[old.0 as int]);
                                        assert(self.store.holds_live(old.0 as int));
                                        assert(state.store.slots[old.0 as int]
                                            == self.store.slots[old.0 as int]);
                                    }
                                    state.lemma_alter_rest_identity(
                                        base,
                                        known,
                                        but,
                                        op,
                                        parent_iid,
                                        parent_oid,
                                        parent,
                                        reserved,
                                    );
                                    assert(state.tx.is_some());
                                    assert(self.tx.is_some());
                                },
                                Err(_) => {},
                            }
                        },
                        Err(_) => {},
                    },
                    _ => {},
                },
                Err(_) => {},
            },
            Err(_) => {},
        }
    }

    /// The second half of `lemma_alter_identity`: from the children with
    /// their reserved slots on.
    proof fn lemma_alter_rest_identity(
        self,
        base: Store,
        known: InodeTable,
        but: Option<ObjectId>,
        op: Alter,
        parent_iid: InodeId,
        parent_oid: ObjectId,
        parent: EntryObj,
        reserved: Seq<AlteredChild>,
    )
        requires
            base.wf(),
            self.store.wf(),
            self.store.len() >= 1,
            base.kept_in(self.store, but),
            base.is_clone_slot(but),
            self.inodes.wf(),
            known.kept_by(self.inodes),
            entries_in(known, base),
            remaps_hold(self.tx, self.store, base, known),
            op.replacing matches Some((_, dst)) ==> ptr_wf(dst),
            self.inodes.resolve_object(parent_iid) == Ok::<ObjectId, FsError>(parent_oid),
            self.store.get(parent_oid) == Ok::<Object, FsError>(Object::Entry(parent)),
            Object::Entry(parent).wf(),
            forall|k: int|
                0 <= k < reserved.len() ==> {
                    let child = #[trigger] reserved[k];
                    &&& 1 <= child.oid.0 < self.store.len()
                    &&& self.store.slots[child.oid.0 as int][0] == 0
                    &&& Object::Entry(child.obj).wf()
                    &&& self.inodes.resolve_object(child.iid) matches Ok(old)
                    &&& self.store.get(old) == Ok::<Object, FsError>(Object::Entry(child.obj))
                },
            forall|j: int, k: int|
                0 <= j < reserved.len() && 0 <= k < reserved.len() && j != k ==> (
                #[trigger] reserved[j]).oid != (#[trigger] reserved[k]).oid,
            self.alter_rest(op, parent_iid, parent, reserved).is_ok(),
        ensures
            ({
                let (state, _) = self.alter_rest(op, parent_iid, parent, reserved).unwrap();
                &&& state.store.wf()
                &&& state.store.len() >= 1
                &&& base.kept_in(state.store, but)
                &&& state.inodes.wf()
                &&& known.kept_by(state.inodes)
                &&& remaps_hold(state.tx, state.store, base, known)
                &&& state.origin == self.origin
                &&& state.dirty_commits == self.dirty_commits
                &&& self.tx matches Some(was) && state.tx matches Some(tx) && (
                op.skipping.is_none() ==> tx.frees == was.frees)
            }),
        decreases op.iid.0, 0nat,
    {
        let children = relink(replace_body(reserved, op.replacing));
        match self.write_children(children, children.len()) {
            Ok(written) => {
                self.lemma_write_identity(base, known, but, op.replacing, reserved);
                match written.stage_free(op.skipping) {
                    Ok(staged) => {
                        assert(staged.store == written.store);
                        assert(staged.inodes == written.inodes);
                        assert(staged.store.get(parent_oid) == Ok::<Object, FsError>(
                            Object::Entry(parent),
                        ));
                        assert(remaps_hold(staged.tx, staged.store, base, known)) by {
                            if written.tx.is_some() {
                                assert(staged.tx.unwrap().remaps == written.tx.unwrap().remaps);
                            }
                        }
                        if parent_iid.0 == 1 {
                            match staged.replace_root(parent, head_of(children)) {
                                Ok(_) => {
                                    staged.lemma_replace_root_kept(
                                        base,
                                        but,
                                        parent,
                                        head_of(children),
                                    );
                                    staged.lemma_replace_root_identity(
                                        base,
                                        known,
                                        but,
                                        parent_oid,
                                        parent,
                                        head_of(children),
                                    );
                                },
                                Err(_) => {},
                            }
                        } else {
                            match parent.body {
                                Some(old_head) => {
                                    if parent_iid.0 < op.iid.0 {
                                        staged.lemma_alter_identity(
                                            base,
                                            known,
                                            but,
                                            Alter {
                                                iid: parent_iid,
                                                skipping: None,
                                                replacing: Some((old_head, head_of(children))),
                                            },
                                        );
                                    }
                                },
                                None => {},
                            }
                        }
                    },
                    Err(_) => {},
                }
            },
            Err(_) => {},
        }
    }

    /// What writing the linked children gives for the identity of inodes.
    proof fn lemma_write_identity(
        self,
        base: Store,
        known: InodeTable,
        but: Option<ObjectId>,
        replacing: Option<(ObjectId, Option<ObjectId>)>,
        reserved: Seq<AlteredChild>,
    )
        requires
            base.wf(),
            self.store.wf(),
            self.store.len() >= 1,
            base.kept_in(self.store, but),
            base.is_clone_slot(but),
            known.kept_by(self.inodes),
            entries_in(known, base),
            remaps_hold(self.tx, self.store, base, known),
            replacing matches Some((_, dst)) ==> ptr_wf(dst),
            forall|k: int|
                0 <= k < reserved.len() ==> {
                    let child = #[trigger] reserved[k];
                    &&& 1 <= child.oid.0 < self.store.len()
                    &&& self.store.slots[child.oid.0 as int][0] == 0
                    &&& Object::Entry(child.obj).wf()
                    &&& self.inodes.resolve_object(child.iid) matches Ok(old)
                    &&& self.store.get(old) == Ok::<Object, FsError>(Object::Entry(child.obj))
                },
            forall|j: int, k: int|
                0 <= j < reserved.len() && 0 <= k < reserved.len() && j != k ==> (
                #[trigger] reserved[j]).oid != (#[trigger] reserved[k]).oid,
            self.write_children(
                relink(replace_body(reserved, replacing)),
                relink(replace_body(reserved, replacing)).len(),
            ).is_ok(),
        ensures
            ({
                let children = relink(replace_body(reserved, replacing));
                let written = self.write_children(children, children.len()).unwrap();
                &&& written.store.wf()
                &&& written.store.len() >= 1
                &&& base.kept_in(written.store, but)
                &&& written.inodes == self.inodes
                &&& written.origin == self.origin
                &&& written.dirty_commits == self.dirty_commits
                &&& match self.tx {
                    Some(was) => written.tx matches Some(tx) && tx.frees == was.frees,
                    None => written.tx.is_none(),
                }
                &&& remaps_hold(written.tx, written.store, base, known)
                &&& ptr_wf(head_of(children))
                &&& forall|oid: ObjectId|
                    self.store.get(oid) is Ok && self.store.get(oid).unwrap() is Entry
                        ==> #[trigger] written.store.get(oid) == self.store.get(oid)
            }),
    {
        let children = relink(replace_body(reserved, replacing));
        lemma_children_entries(reserved, replacing);
        assert forall|k: int| 0 <= k < children.len() implies 1 <= (#[trigger] children[k]).oid.0
            < self.store.len() && Object::Entry(children[k].obj).wf() by {
            assert(children[k].oid == reserved[k].oid);
        }
        assert forall|j: int, k: int|
            0 <= j < children.len() && 0 <= k < children.len() && j != k implies (
        #[trigger] children[j]).oid != (#[trigger] children[k]).oid by {
            assert(children[j].oid == reserved[j].oid);
            assert(children[k].oid == reserved[k].oid);
        }
        self.lemma_write_children_held(children, children.len());
        assert forall|k: int| 0 <= k < children.len() implies base.free_at(
            (#[trigger] children[k]).oid,
            but,
        ) by {
            assert(children[k].oid == reserved[k].oid);
            let i = children[k].oid.0 as int;
            if i < base.len() && base.holds_live(i) && but != Some(children[k].oid) {
                assert(self.store.slots[i] == base.slots[i]);
            }
        }
        self.lemma_write_children_kept(base, but, children, children.len());
        if children.len() > 0 {
            assert(children[0].oid == reserved[0].oid);
        }
        self.lemma_written_remaps(base, known, but, reserved, children);
        let written = self.write_children(children, children.len()).unwrap();
        assert forall|oid: ObjectId|
            self.store.get(oid) is Ok && self.store.get(oid).unwrap() is Entry implies #[trigger] written.store.get(
            oid,
        ) == self.store.get(oid) by {
            Object::lemma_decode_tag(self.store.slots[oid.0 as int]);
            assert forall|k: int| 0 <= k < children.len() implies (#[trigger] children[k]).oid.0
                != oid.0 by {
                assert(children[k].oid == reserved[k].oid);
                assert(self.store.slots[reserved[k].oid.0 as int][0] == 0);
            }
            assert(written.store.slots[oid.0 as int] == self.store.slots[oid.0 as int]);
        }
    }

    /// After the children are written, every staged pair holds.
    proof fn lemma_written_remaps(
        self,
        base: Store,
        known: InodeTable,
        but: Option<ObjectId>,
        reserved: Seq<AlteredChild>,
        children: Seq<AlteredChild>,
    )
        requires
            base.wf(),
            self.store.wf(),
            base.kept_in(self.store, but),
            base.is_clone_slot(but),
            known.kept_by(self.inodes),
            entries_in(known, base),
            remaps_hold(self.tx, self.store, base, known),
            children.len() == reserved.len(),
            forall|k: int|
                0 <= k < reserved.len() ==> {
                    let child = #[trigger] reserved[k];
                    &&& 1 <= child.oid.0 < self.store.len()
                    &&& self.store.slots[child.oid.0 as int][0] == 0
                    &&& self.inodes.resolve_object(child.iid) matches Ok(old)
                    &&& self.store.get(old) == Ok::<Object, FsError>(Object::Entry(child.obj))
                },
            forall|k: int|
                0 <= k < reserved.len() ==> {
                    let child = #[trigger] children[k];
                    &&& child.oid == reserved[k].oid
                    &&& child.iid == reserved[k].iid
                    &&& same_entry(reserved[k].obj, child.obj)
                },
            self.write_children(children, children.len()) matches Ok(written) && {
                &&& written.store.len() == self.store.len()
                &&& match self.tx {
                    Some(was) => written.tx matches Some(tx) && tx.remaps == was.remaps
                        + staged_remaps(children, children.len()),
                    None => written.tx.is_none(),
                }
                &&& forall|k: int|
                    0 <= k < children.len() ==> written.store.get((#[trigger] children[k]).oid)
                        == Ok::<Object, FsError>(Object::Entry(children[k].obj))
                &&& forall|i: int|
                    0 <= i < self.store.len() && (forall|k: int|
                        0 <= k < children.len() ==> (#[trigger] children[k]).oid.0 != i)
                        ==> #[trigger] written.store.slots[i] == self.store.slots[i]
            },
        ensures
            remaps_hold(
                self.write_children(children, children.len()).unwrap().tx,
                self.write_children(children, children.len()).unwrap().store,
                base,
                known,
            ),
    {
        let written = self.write_children(children, children.len()).unwrap();
        assert forall|i: int|
            1 <= i < self.store.len() && self.store.slots[i][0] == 3 implies #[trigger] written.store.slots[i]
            == self.store.slots[i] by {
            assert forall|k: int| 0 <= k < children.len() implies (#[trigger] children[k]).oid.0
                != i by {
                assert(children[k].oid == reserved[k].oid);
                assert(self.store.slots[reserved[k].oid.0 as int][0] == 0);
            }
        }
        lemma_remaps_kept(self.tx, self.store, written.store, base, known);
        if self.tx.is_some() {
            let was = self.tx.unwrap();
            let tx = written.tx.unwrap();
            assert forall|j: int| 0 <= j < tx.remaps.len() implies remap_holds(
                #[trigger] tx.remaps[j],
                written.store,
                base,
                known,
            ) by {
                if j < was.remaps.len() {
                    assert(tx.remaps[j] == was.remaps[j]);
                    assert(remap_holds(was.remaps[j], written.store, base, known));
                } else {
                    let k = j - was.remaps.len();
                    let child = children[k];
                    assert(tx.remaps[j] == (child.iid, child.oid));
                    if known.nodes.contains_key(child.iid.0) {
                        assert(reserved[k].iid == child.iid);
                        lemma_known_entry(base, self.store, but, known, child.iid);
                        assert(self.inodes.nodes[child.iid.0].oid
                            == known.nodes[child.iid.0].oid);
                    }
                }
            }
        }
    }

    /// Staging a copy of the root keeps every staged pair holding, and the
    /// root's own pair holds.
    proof fn lemma_replace_root_identity(
        self,
        base: Store,
        known: InodeTable,
        but: Option<ObjectId>,
        parent_oid: ObjectId,
        parent: EntryObj,
        head: Option<ObjectId>,
    )
        requires
            base.wf(),
            self.store.wf(),
            self.store.len() >= 1,
            base.kept_in(self.store, but),
            base.is_clone_slot(but),
            known.kept_by(self.inodes),
            entries_in(known, base),
            remaps_hold(self.tx, self.store, base, known),
            self.inodes.resolve_object(InodeId(1)) == Ok::<ObjectId, FsError>(parent_oid),
            self.store.get(parent_oid) == Ok::<Object, FsError>(Object::Entry(parent)),
            Object::Entry(parent).wf(),
            ptr_wf(head),
            self.replace_root(parent, head).is_ok(),
        ensures
            ({
                let (state, _) = self.replace_root(parent, head).unwrap();
                &&& state.store.len() >= 1
                &&& state.inodes == self.inodes
                &&& remaps_hold(state.tx, state.store, base, known)
                &&& self.tx matches Some(was) && state.tx matches Some(tx) && tx.frees == was.frees
            }),
    {
        let obj = Object::Entry(EntryObj { body: head, ..parent });
        self.store.lemma_allocate_effect(true, self.tx, obj);
        self.store.lemma_allocate_frame(true, self.tx, obj);
        crate::filesystem::frame::lemma_tx_after_allocate(self.store, self.tx, obj);
        let (store, staged, new_root) = self.store.allocate(true, self.tx, obj).unwrap();
        let (state, _) = self.replace_root(parent, head).unwrap();
        assert forall|i: int|
            1 <= i < self.store.len() && self.store.slots[i][0] == 3 implies #[trigger] store.slots[i]
            == self.store.slots[i] by {}
        lemma_remaps_kept(self.tx, self.store, store, base, known);
        let was = self.tx.unwrap();
        let tx = state.tx.unwrap();
        assert(tx.remaps =~= was.remaps.push((InodeId(1), new_root)));
        assert forall|j: int| 0 <= j < tx.remaps.len() implies remap_holds(
            #[trigger] tx.remaps[j],
            state.store,
            base,
            known,
        ) by {
            if j < was.remaps.len() {
                assert(tx.remaps[j] == was.remaps[j]);
                assert(remap_holds(was.remaps[j], store, base, known));
            } else {
                if known.nodes.contains_key(1u64) {
                    lemma_known_entry(base, self.store, but, known, InodeId(1));
                    assert(self.inodes.nodes[1u64].oid == known.nodes[1u64].oid);
                }
            }
        }
    }
}

/// Staged pairs keep holding where an entry is written over with an entry
/// of the same name and kind.
pub proof fn lemma_remaps_after_set(
    tx: Option<TxView>,
    store: Store,
    oid: ObjectId,
    entry: EntryObj,
    base: Store,
    known: InodeTable,
)
    requires
        store.wf(),
        remaps_hold(tx, store, base, known),
        store.get(oid) is Ok,
        store.get(oid).unwrap() is Entry,
        same_entry(store.get(oid).unwrap()->Entry_0, entry),
        Object::Entry(entry).wf(),
        store.set(oid, Object::Entry(entry)).is_ok(),
    ensures
        remaps_hold(tx, store.set(oid, Object::Entry(entry)).unwrap(), base, known),
{
    let after = store.set(oid, Object::Entry(entry)).unwrap();
    Object::Entry(entry).lemma_decode_encode();
    match tx {
        Some(tx) => {
            assert forall|j: int| 0 <= j < tx.remaps.len() implies remap_holds(
                #[trigger] tx.remaps[j],
                after,
                base,
                known,
            ) by {
                let remap = tx.remaps[j];
                assert(remap_holds(remap, store, base, known));
                if known.nodes.contains_key(remap.0.0) && remap.1 != oid {
                    assert(after.slots[remap.1.0 as int] == store.slots[remap.1.0 as int]);
                }
            }
        },
        None => {},
    }
}

/// Whether every inode of `known` is an inode of `table` still, with the
/// parent it had, and stands in `store` for an entry with the name and the
/// kind of the entry that it stood for in `base`.
pub open spec fn identities_kept(known: InodeTable, base: Store, table: InodeTable, store: Store) -> bool {
    forall|k: u64| #[trigger]
        known.nodes.contains_key(k) ==> {
            &&& table.nodes.contains_key(k)
            &&& table.nodes[k].parent == known.nodes[k].parent
            &&& base.get(known.nodes[k].oid) is Ok
            &&& base.get(known.nodes[k].oid).unwrap() is Entry
            &&& store.get(table.nodes[k].oid) is Ok
            &&& store.get(table.nodes[k].oid).unwrap() is Entry
            &&& same_entry(
                base.get(known.nodes[k].oid).unwrap()->Entry_0,
                store.get(table.nodes[k].oid).unwrap()->Entry_0,
            )
        }
}

/// Whether `store` holds, wherever `base` holds an entry, an entry with
/// the same name and kind.
pub open spec fn names_kept(base: Store, store: Store) -> bool {
    forall|oid: ObjectId|
        base.get(oid) is Ok && base.get(oid).unwrap() is Entry ==> {
            &&& (#[trigger] store.get(oid)) is Ok
            &&& store.get(oid).unwrap() is Entry
            &&& same_entry(base.get(oid).unwrap()->Entry_0, store.get(oid).unwrap()->Entry_0)
        }
}

/// A container that keeps every entry keeps every name.
pub proof fn lemma_kept_names(base: Store, store: Store, but: Option<ObjectId>)
    requires
        base.wf(),
        base.kept_in(store, but),
        base.is_clone_slot(but),
    ensures
        names_kept(base, store),
{
    assert forall|oid: ObjectId| base.get(oid) is Ok && base.get(oid).unwrap() is Entry implies {
        &&& (#[trigger] store.get(oid)) is Ok
        &&& store.get(oid).unwrap() is Entry
        &&& same_entry(base.get(oid).unwrap()->Entry_0, store.get(oid).unwrap()->Entry_0)
    } by {
        Object::lemma_decode_tag(base.slots[oid.0 as int]);
        assert(base.holds_live(oid.0 as int));
        assert(store.slots[oid.0 as int] == base.slots[oid.0 as int]);
    }
}

/// Names are kept where every entry of the container in between is kept.
pub proof fn lemma_names_kept_on(base: Store, store: Store, after: Store)
    requires
        store.wf(),
        names_kept(base, store),
        store.len() <= after.len(),
        forall|i: int|
            1 <= i < store.len() && store.slots[i][0] == 3 ==> #[trigger] after.slots[i]
                == store.slots[i],
    ensures
        names_kept(base, after),
{
    assert forall|oid: ObjectId| base.get(oid) is Ok && base.get(oid).unwrap() is Entry implies {
        &&& (#[trigger] after.get(oid)) is Ok
        &&& after.get(oid).unwrap() is Entry
        &&& same_entry(base.get(oid).unwrap()->Entry_0, after.get(oid).unwrap()->Entry_0)
    } by {
        assert(store.get(oid) is Ok);
        Object::lemma_decode_tag(store.slots[oid.0 as int]);
        assert(after.slots[oid.0 as int] == store.slots[oid.0 as int]);
    }
}

/// Names are kept where an entry is written over with an entry of the same
/// name and kind.
pub proof fn lemma_names_after_set(base: Store, store: Store, oid: ObjectId, entry: EntryObj)
    requires
        store.wf(),
        names_kept(base, store),
        store.get(oid) is Ok,
        store.get(oid).unwrap() is Entry,
        same_entry(store.get(oid).unwrap()->Entry_0, entry),
        Object::Entry(entry).wf(),
        store.set(oid, Object::Entry(entry)).is_ok(),
    ensures
        names_kept(base, store.set(oid, Object::Entry(entry)).unwrap()),
{
    let after = store.set(oid, Object::Entry(entry)).unwrap();
    Object::Entry(entry).lemma_decode_encode();
    assert forall|x: ObjectId| base.get(x) is Ok && base.get(x).unwrap() is Entry implies {
        &&& (#[trigger] after.get(x)) is Ok
        &&& after.get(x).unwrap() is Entry
        &&& same_entry(base.get(x).unwrap()->Entry_0, after.get(x).unwrap()->Entry_0)
    } by {
        assert(store.get(x) is Ok);
        if x != oid {
            assert(after.slots[x.0 as int] == store.slots[x.0 as int]);
        }
    }
}

impl FsState {
    /// A commit leaves every entry in its slot.
    pub proof fn lemma_commit_entries(self)
        requires
            self.store.wf(),
            self.dirty_commits + 1 < spec_gc_period(),
            self.commit_tx().is_ok(),
        ensures
            self.commit_tx().unwrap().store.wf(),
            self.store.len() <= self.commit_tx().unwrap().store.len(),
            forall|i: int|
                1 <= i < self.store.len() && self.store.slots[i][0] == 3
                    ==> #[trigger] self.commit_tx().unwrap().store.slots[i] == self.store.slots[i],
    {
        let after = self.commit_tx().unwrap();
        self.lemma_commit_tx_kept(self.store);
        let but = own_slot(self.origin);
        assert forall|i: int|
            1 <= i < self.store.len() && self.store.slots[i][0] == 3 implies #[trigger] after.store.slots[i]
            == self.store.slots[i] by {
            assert(self.store.holds_live(i));
            if but == Some(ObjectId(i as u32)) {
                // a commit that writes the slot of its origin finds a clone object there
                let tx = self.tx.unwrap();
                if tx.dirty {
                    let written = self.store.set_header(tx.header_to_write(self.origin)).unwrap();
                    assert(written.slots[i] == self.store.slots[i]);
                    if tx.new_root.is_some() {
                        Object::lemma_decode_tag(written.slots[i]);
                    }
                }
            }
        }
    }

    /// A commit keeps the names that were kept so far, and every staged
    /// pair holding.
    pub proof fn lemma_commit_names(self, base: Store, known: InodeTable)
        requires
            self.store.wf(),
            names_kept(base, self.store),
            remaps_hold(self.tx, self.store, base, known),
            self.dirty_commits + 1 < spec_gc_period(),
            self.commit_tx().is_ok(),
        ensures
            self.commit_tx().unwrap().store.wf(),
            names_kept(base, self.commit_tx().unwrap().store),
            remaps_hold(self.tx, self.commit_tx().unwrap().store, base, known),
    {
        let after = self.commit_tx().unwrap();
        self.lemma_commit_entries();
        lemma_names_kept_on(base, self.store, after.store);
        lemma_remaps_kept(self.tx, self.store, after.store, base, known);
    }

    /// A commit that frees nothing keeps the identity of inodes: where
    /// every staged pair holds, every inode that was known is in the table
    /// afterwards and stands for an entry with the name and the kind of the
    /// entry that it stood for.
    pub proof fn lemma_commit_identity(self, base: Store, known: InodeTable)
        requires
            self.store.wf(),
            names_kept(base, self.store),
            known.kept_by(self.inodes),
            entries_in(known, base),
            remaps_hold(self.tx, self.store, base, known),
            self.tx matches Some(tx) && tx.frees.len() == 0,
            self.dirty_commits + 1 < spec_gc_period(),
            self.commit_tx().is_ok(),
        ensures
            identities_kept(
                known,
                base,
                self.commit_tx().unwrap().inodes,
                self.commit_tx().unwrap().store,
            ),
            known.wf() && self.inodes.wf() ==> self.commit_tx().unwrap().inodes.wf(),
            self.commit_tx().unwrap().origin == self.origin,
    {
        let tx = self.tx.unwrap();
        let after = self.commit_tx().unwrap();
        self.lemma_commit_names(base, known);
        self.inodes.lemma_remap_all(tx.remaps, tx.remaps.len());
        assert forall|k: u64| #[trigger] known.nodes.contains_key(k) implies {
            &&& after.inodes.nodes.contains_key(k)
            &&& after.inodes.nodes[k].parent == known.nodes[k].parent
            &&& base.get(known.nodes[k].oid) is Ok
            &&& base.get(known.nodes[k].oid).unwrap() is Entry
            &&& after.store.get(after.inodes.nodes[k].oid) is Ok
            &&& after.store.get(after.inodes.nodes[k].oid).unwrap() is Entry
            &&& same_entry(
                base.get(known.nodes[k].oid).unwrap()->Entry_0,
                after.store.get(after.inodes.nodes[k].oid).unwrap()->Entry_0,
            )
        } by {
            assert(self.inodes.nodes.contains_key(k));
            assert(after.store.get(known.nodes[k].oid) is Ok);
            if after.inodes.nodes[k].oid != known.nodes[k].oid {
                let j = choose|j: int|
                    0 <= j < tx.remaps.len() && #[trigger] tx.remaps[j] == (
                        InodeId(k),
                        after.inodes.nodes[k].oid,
                    );
                assert(remap_holds(tx.remaps[j], after.store, base, known));
            }
        }
    }
}

/// Staged pairs keep holding while a payload chain is stored.
pub proof fn lemma_remaps_after_payload(
    store: Store,
    tx: Option<TxView>,
    bytes: Seq<u8>,
    base: Store,
    known: InodeTable,
)
    requires
        store.wf(),
        tx.is_some(),
        remaps_hold(tx, store, base, known),
        store.alloc_payload(true, tx, bytes).is_ok(),
    ensures
        ({
            let (after, staged, _) = store.alloc_payload(true, tx, bytes).unwrap();
            &&& remaps_hold(staged, after, base, known)
            &&& staged matches Some(now) && now.frees == tx.unwrap().frees
            &&& forall|oid: ObjectId|
                store.get(oid) is Ok && store.get(oid).unwrap() is Entry ==> #[trigger] after.get(
                    oid,
                ) == store.get(oid)
        }),
{
    let (after, staged, _) = store.alloc_payload(true, tx, bytes).unwrap();
    store.lemma_alloc_chunks_kept(store, None, true, tx, bytes, 0);
    crate::filesystem::frame::lemma_tx_after_alloc_chunks(store, tx, bytes, 0);
    assert forall|i: int| 1 <= i < store.len() && store.slots[i][0] == 3 implies #[trigger] after.slots[i]
        == store.slots[i] by {
        assert(store.holds_live(i));
    }
    lemma_remaps_kept(tx, store, after, base, known);
    assert forall|oid: ObjectId|
        store.get(oid) is Ok && store.get(oid).unwrap() is Entry implies #[trigger] after.get(oid)
        == store.get(oid) by {
        Object::lemma_decode_tag(store.slots[oid.0 as int]);
        assert(after.slots[oid.0 as int] == store.slots[oid.0 as int]);
    }
}

impl FsState {
    /// Inode identity under a write: every inode of the table is in the
    /// table afterwards, with the parent it had, and stands for an entry
    /// with the name and the kind of the entry that it stood for.
    pub proof fn lemma_write_keeps_inodes(self, iid: InodeId, offset: i64, data: Seq<u8>)
        requires
            self.store.wf(),
            self.inodes.wf(),
            entries_in(self.inodes, self.store),
            self.store.is_clone_slot(own_slot(self.origin)),
            self.dirty_commits + 1 < spec_gc_period(),
            self.write(iid, offset, data).is_ok(),
        ensures
            identities_kept(
                self.inodes,
                self.store,
                self.write(iid, offset, data).unwrap().0.inodes,
                self.write(iid, offset, data).unwrap().0.store,
            ),
    {
        let base = self.store;
        let known = self.inodes;
        let but = own_slot(self.origin);
        match self.begin_tx() {
            Ok(begun) => match begun.clone_inode(iid) {
                Ok((state, new_oid)) => {
                    let op = Alter { iid, skipping: None, replacing: None };
                    begun.lemma_alter_identity(base, known, but, op);
                    begun.lemma_clone_inode_kept(base, but, iid);
                    match state.store.get(new_oid) {
                        Ok(Object::Entry(obj)) => {
                            Object::lemma_decode_wf(state.store.slots[new_oid.0 as int]);
                            let old = match obj.body {
                                Some(body) => state.store.payload(body),
                                None => Ok(Seq::empty()),
                            };
                            match old {
                                Ok(old) => {
                                    if !(offset < 0 || offset + data.len() > u32::MAX) {
                                        let size = crate::filesystem::write::grown_size(
                                            obj.size,
                                            offset,
                                            data.len(),
                                        );
                                        let content = crate::filesystem::write::overwritten(
                                            old,
                                            size as nat,
                                            offset as nat,
                                            data,
                                        );
                                        match state.store.alloc_payload(true, state.tx, content) {
                                            Ok((store, tx, body)) => {
                                                state.store.lemma_alloc_chunks_kept(
                                                    base,
                                                    but,
                                                    true,
                                                    state.tx,
                                                    content,
                                                    0,
                                                );
                                                state.store.lemma_alloc_payload_round_trip(
                                                    true,
                                                    state.tx,
                                                    content,
                                                );
                                                lemma_remaps_after_payload(
                                                    state.store,
                                                    state.tx,
                                                    content,
                                                    base,
                                                    known,
                                                );
                                                let entry = EntryObj {
                                                    body,
                                                    size: size as u32,
                                                    ..obj
                                                };
                                                match store.set(new_oid, Object::Entry(entry)) {
                                                    Ok(written) => {
                                                        store.lemma_set_kept(
                                                            base,
                                                            but,
                                                            new_oid,
                                                            Object::Entry(entry),
                                                        );
                                                        lemma_remaps_after_set(
                                                            tx,
                                                            store,
                                                            new_oid,
                                                            entry,
                                                            base,
                                                            known,
                                                        );
                                                        lemma_kept_names(base, written, but);
                                                        (FsState {
                                                            store: written,
                                                            tx,
                                                            ..state
                                                        }).lemma_commit_identity(base, known);
                                                    },
                                                    Err(_) => {},
                                                }
                                            },
                                            Err(_) => {},
                                        }
                                    }
                                },
                                Err(_) => {},
                            }
                        },
                        _ => {},
                    }
                },
                Err(_) => {},
            },
            Err(_) => {},
        }
    }

    /// Inode identity under a change of attributes: every inode of the
    /// table is in the table afterwards, with the parent it had, and stands
    /// for an entry with the name and the kind of the entry that it stood
    /// for.
    pub proof fn lemma_setattr_keeps_inodes(
        self,
        iid: InodeId,
        mode: Option<u32>,
        uid: Option<u32>,
        gid: Option<u32>,
        size: Option<u64>,
    )
        requires
            self.store.wf(),
            self.inodes.wf(),
            entries_in(self.inodes, self.store),
            self.store.is_clone_slot(own_slot(self.origin)),
            self.dirty_commits + 1 < spec_gc_period(),
            self.setattr(iid, mode, uid, gid, size).is_ok(),
        ensures
            identities_kept(
                self.inodes,
                self.store,
                self.setattr(iid, mode, uid, gid, size).unwrap().0.inodes,
                self.setattr(iid, mode, uid, gid, size).unwrap().0.store,
            ),
    {
        let base = self.store;
        let known = self.inodes;
        let but = own_slot(self.origin);
        match self.begin_tx() {
            Ok(begun) => match begun.clone_inode(iid) {
                Ok((state, new_oid)) => {
                    let op = Alter { iid, skipping: None, replacing: None };
                    begun.lemma_alter_identity(base, known, but, op);
                    begun.lemma_clone_inode_kept(base, but, iid);
                    match state.store.get(new_oid) {
                        Ok(Object::Entry(obj)) => {
                            Object::lemma_decode_wf(state.store.slots[new_oid.0 as int]);
                            let entry = crate::filesystem::setattr::with_attrs(
                                obj,
                                mode,
                                uid,
                                gid,
                                size,
                            );
                            match state.store.set(new_oid, Object::Entry(entry)) {
                                Ok(written) => {
                                    state.store.lemma_set_kept(
                                        base,
                                        but,
                                        new_oid,
                                        Object::Entry(entry),
                                    );
                                    lemma_remaps_after_set(
                                        state.tx,
                                        state.store,
                                        new_oid,
                                        entry,
                                        base,
                                        known,
                                    );
                                    lemma_kept_names(base, written, but);
                                    (FsState { store: written, ..state }).lemma_commit_identity(
                                        base,
                                        known,
                                    );
                                },
                                Err(_) => {},
                            }
                        },
                        _ => {},
                    }
                },
                Err(_) => {},
            },
            Err(_) => {},
        }
    }
}

impl Store {
    /// The last entry of a list is an entry of the container that points
    /// at no further entry.
    pub proof fn lemma_list_tail(self, oid: ObjectId, fuel: nat)
        requires
            self.list_tail(oid, fuel).is_ok(),
        ensures
            self.get(self.list_tail(oid, fuel).unwrap().0) == Ok::<Object, FsError>(
                Object::Entry(self.list_tail(oid, fuel).unwrap().1),
            ),
            self.list_tail(oid, fuel).unwrap().1.next.is_none(),
        decreases fuel,
    {
        match self.get(oid) {
            Ok(Object::Entry(entry)) => match entry.next {
                Some(next) => self.lemma_list_tail(next, (fuel - 1) as nat),
                None => {},
            },
            _ => {},
        }
    }
}

impl FsState {
    /// Linking a new entry into a directory keeps names and staged pairs:
    /// the entry that is changed in place keeps its name and kind.
    pub proof fn lemma_append_names(
        self,
        base: Store,
        known: InodeTable,
        parent_oid: ObjectId,
        child: EntryObj,
    )
        requires
            self.store.wf(),
            self.store.len() >= 1,
            names_kept(base, self.store),
            remaps_hold(self.tx, self.store, base, known),
            Object::Entry(child).wf(),
            self.append(parent_oid, Object::Entry(child)).is_ok(),
        ensures
            ({
                let (state, _) = self.append(parent_oid, Object::Entry(child)).unwrap();
                &&& state.store.wf()
                &&& names_kept(base, state.store)
                &&& remaps_hold(state.tx, state.store, base, known)
                &&& state.inodes == self.inodes
                &&& state.origin == self.origin
                &&& state.dirty_commits == self.dirty_commits
                &&& self.tx matches Some(was) && state.tx matches Some(tx) && tx.frees == was.frees
            }),
    {
        let obj = Object::Entry(child);
        match self.store.get(parent_oid) {
            Ok(Object::Entry(parent)) => {
                Object::lemma_decode_wf(self.store.slots[parent_oid.0 as int]);
                match self.store.allocate(true, self.tx, obj) {
                    Ok((store, tx, child_oid)) => {
                        self.store.lemma_allocate_effect(true, self.tx, obj);
                        self.store.lemma_allocate_frame(true, self.tx, obj);
                        crate::filesystem::frame::lemma_tx_after_allocate(self.store, self.tx, obj);
                        assert forall|i: int|
                            1 <= i < self.store.len() && self.store.slots[i][0]
                                == 3 implies #[trigger] store.slots[i] == self.store.slots[i] by {}
                        lemma_names_kept_on(base, self.store, store);
                        lemma_remaps_kept(self.tx, self.store, store, base, known);
                        assert(remaps_hold(tx, store, base, known));
                        match parent.body {
                            Some(head) => {
                                match store.list_tail(head, store.len()) {
                                    Ok((oid, entry)) => {
                                        store.lemma_list_tail(head, store.len());
                                        Object::lemma_decode_wf(store.slots[oid.0 as int]);
                                        let linked = EntryObj { next: Some(child_oid), ..entry };
                                        if store.set(oid, Object::Entry(linked)).is_ok() {
                                            Object::Entry(linked).lemma_encode_len();
                                            lemma_names_after_set(base, store, oid, linked);
                                            lemma_remaps_after_set(tx, store, oid, linked, base, known);
                                        }
                                    },
                                    Err(_) => {},
                                }
                            },
                            None => {
                                assert(store.get(parent_oid) == self.store.get(parent_oid)) by {
                                    Object::lemma_decode_tag(self.store.slots[parent_oid.0 as int]);
                                }
                                let linked = EntryObj { body: Some(child_oid), ..parent };
                                if store.set(parent_oid, Object::Entry(linked)).is_ok() {
                                    Object::Entry(linked).lemma_encode_len();
                                    lemma_names_after_set(base, store, parent_oid, linked);
                                    lemma_remaps_after_set(
                                        tx,
                                        store,
                                        parent_oid,
                                        linked,
                                        base,
                                        known,
                                    );
                                }
                            },
                        }
                    },
                    Err(_) => {},
                }
            },
            _ => {},
        }
    }

    /// Inode identity where an entry is made: every inode of the table is
    /// in the table afterwards, with the parent it had, and stands for an
    /// entry with the name and the kind of the entry that it stood for.
    pub proof fn lemma_mk_keeps_inodes(
        self,
        parent_iid: InodeId,
        name: Seq<u8>,
        mode: u32,
        uid: u32,
        gid: u32,
        kind: crate::object::FileKind,
    )
        requires
            self.store.wf(),
            self.inodes.wf(),
            entries_in(self.inodes, self.store),
            self.store.is_clone_slot(own_slot(self.origin)),
            self.dirty_commits + 1 < spec_gc_period(),
            self.mk(parent_iid, name, mode, uid, gid, kind).is_ok(),
        ensures
            identities_kept(
                self.inodes,
                self.store,
                self.mk(parent_iid, name, mode, uid, gid, kind).unwrap().0.inodes,
                self.mk(parent_iid, name, mode, uid, gid, kind).unwrap().0.store,
            ),
    {
        let base = self.store;
        let known = self.inodes;
        let but = own_slot(self.origin);
        match self.begin_tx() {
            Ok(begun) => match begun.store.alloc_payload(true, begun.tx, name) {
                Ok((store, tx, Some(name_oid))) => {
                    begun.store.lemma_alloc_chunks_kept(base, but, true, begun.tx, name, 0);
                    lemma_remaps_after_payload(begun.store, begun.tx, name, base, known);
                    let named = FsState { store, tx, ..begun };
                    let op = Alter { iid: parent_iid, skipping: None, replacing: None };
                    match named.clone_inode(parent_iid) {
                        Ok((state, new_parent_oid)) => {
                            named.lemma_alter_identity(base, known, but, op);
                            lemma_kept_names(base, state.store, but);
                            let obj = crate::filesystem::mk::new_entry(
                                name_oid,
                                mode,
                                uid,
                                gid,
                                kind,
                            );
                            match state.append(new_parent_oid, Object::Entry(obj)) {
                                Ok((linked, new_oid)) => {
                                    state.lemma_append_names(base, known, new_parent_oid, obj);
                                    match linked.commit_tx() {
                                        Ok(done) => {
                                            linked.lemma_commit_identity(base, known);
                                            match done.inodes.allocate(parent_iid, new_oid) {
                                                Ok((inodes, _)) => {
                                                    done.inodes.lemma_allocate(parent_iid, new_oid);
                                                },
                                                Err(_) => {},
                                            }
                                        },
                                        Err(_) => {},
                                    }
                                },
                                Err(_) => {},
                            }
                        },
                        Err(_) => {},
                    }
                },
                _ => {},
            },
            Err(_) => {},
        }
    }
}

/// Whether every inode of `known` that is an inode of `table` still has
/// the parent it had, and stands in `store` for an entry with the name and
/// the kind of the entry that it stood for in `base`.
pub open spec fn identities_of_present(
    known: InodeTable,
    base: Store,
    table: InodeTable,
    store: Store,
) -> bool {
    forall|k: u64| #[trigger]
        known.nodes.contains_key(k) && table.nodes.contains_key(k) ==> {
            &&& table.nodes[k].parent == known.nodes[k].parent
            &&& base.get(known.nodes[k].oid) is Ok
            &&& base.get(known.nodes[k].oid).unwrap() is Entry
            &&& store.get(table.nodes[k].oid) is Ok
            &&& store.get(table.nodes[k].oid).unwrap() is Entry
            &&& same_entry(
                base.get(known.nodes[k].oid).unwrap()->Entry_0,
                store.get(table.nodes[k].oid).unwrap()->Entry_0,
            )
        }
}

impl FsState {
    /// A commit keeps the identity of the inodes that it does not free.
    pub proof fn lemma_commit_present(self, base: Store, known: InodeTable)
        requires
            self.store.wf(),
            self.inodes.wf(),
            names_kept(base, self.store),
            known.kept_by(self.inodes),
            entries_in(known, base),
            remaps_hold(self.tx, self.store, base, known),
            self.dirty_commits + 1 < spec_gc_period(),
            self.commit_tx().is_ok(),
        ensures
            identities_of_present(
                known,
                base,
                self.commit_tx().unwrap().inodes,
                self.commit_tx().unwrap().store,
            ),
    {
        let tx = self.tx.unwrap();
        let after = self.commit_tx().unwrap();
        self.lemma_commit_names(base, known);
        self.inodes.lemma_remap_all(tx.remaps, tx.remaps.len());
        let remapped = self.inodes.remap_all(tx.remaps, tx.remaps.len());
        remapped.lemma_free_each(tx.frees, tx.frees.len());
        assert forall|k: u64| #[trigger]
            known.nodes.contains_key(k) && after.inodes.nodes.contains_key(k) implies {
            &&& after.inodes.nodes[k].parent == known.nodes[k].parent
            &&& base.get(known.nodes[k].oid) is Ok
            &&& base.get(known.nodes[k].oid).unwrap() is Entry
            &&& after.store.get(after.inodes.nodes[k].oid) is Ok
            &&& after.store.get(after.inodes.nodes[k].oid).unwrap() is Entry
            &&& same_entry(
                base.get(known.nodes[k].oid).unwrap()->Entry_0,
                after.store.get(after.inodes.nodes[k].oid).unwrap()->Entry_0,
            )
        } by {
            assert(self.inodes.nodes.contains_key(k));
            assert(after.store.get(known.nodes[k].oid) is Ok);
            if tx.dirty && tx.has_inode_edits() {
                assert(remapped.nodes.contains_key(k));
                if remapped.nodes[k].oid != known.nodes[k].oid {
                    let j = choose|j: int|
                        0 <= j < tx.remaps.len() && #[trigger] tx.remaps[j] == (
                            InodeId(k),
                            remapped.nodes[k].oid,
                        );
                    assert(remap_holds(tx.remaps[j], after.store, base, known));
                }
            }
        }
    }

    /// Inode identity where an entry is removed: every inode of the table
    /// that is in the table afterwards has the parent it had, and stands
    /// for an entry with the name and the kind of the entry that it stood
    /// for.
    pub proof fn lemma_rm_keeps_inodes(self, parent_iid: InodeId, name: Seq<u8>)
        requires
            self.store.wf(),
            self.inodes.wf(),
            entries_in(self.inodes, self.store),
            self.store.is_clone_slot(own_slot(self.origin)),
            self.dirty_commits + 1 < spec_gc_period(),
            self.rm(parent_iid, name).is_ok(),
        ensures
            identities_of_present(
                self.inodes,
                self.store,
                self.rm(parent_iid, name).unwrap().0.inodes,
                self.rm(parent_iid, name).unwrap().0.store,
            ),
    {
        let base = self.store;
        let known = self.inodes;
        let but = own_slot(self.origin);
        match self.begin_tx() {
            Ok(begun) => match begun.inodes.resolve_children(begun.store, parent_iid) {
                Ok((inodes, children)) => {
                    begun.inodes.lemma_resolve_children(begun.store, parent_iid);
                    let found = FsState { inodes, ..begun };
                    match found.scan(children, name, 0) {
                        Ok((iid, _)) => {
                            if iid.0 != 1 {
                                let op = Alter { iid, skipping: Some(iid), replacing: None };
                                match found.alter(op) {
                                    Ok((state, _)) => {
                                        found.lemma_alter_identity(base, known, but, op);
                                        lemma_kept_names(base, state.store, but);
                                        state.lemma_commit_present(base, known);
                                    },
                                    Err(_) => {},
                                }
                            }
                        },
                        Err(_) => {},
                    }
                },
                Err(_) => {},
            },
            Err(_) => {},
        }
    }
}

/// Whether every staged pair that does not point at the slot `but` points
/// an inode at a copy of its entry.
pub open spec fn remaps_hold_but(
    tx: Option<TxView>,
    store: Store,
    base: Store,
    known: InodeTable,
    but: ObjectId,
) -> bool {
    tx matches Some(tx) ==> forall|j: int|
        0 <= j < tx.remaps.len() && tx.remaps[j].1 != but ==> remap_holds(
            #[trigger] tx.remaps[j],
            store,
            base,
            known,
        )
}

/// Staged pairs that do not point at a slot keep holding where that slot
/// is written.
pub proof fn lemma_remaps_but_after_set(
    tx: Option<TxView>,
    store: Store,
    oid: ObjectId,
    obj: Object,
    base: Store,
    known: InodeTable,
)
    requires
        store.wf(),
        remaps_hold(tx, store, base, known),
        store.set(oid, obj).is_ok(),
    ensures
        remaps_hold_but(tx, store.set(oid, obj).unwrap(), base, known, oid),
{
    let after = store.set(oid, obj).unwrap();
    match tx {
        Some(tx) => {
            assert forall|j: int|
                0 <= j < tx.remaps.len() && tx.remaps[j].1 != oid implies remap_holds(
                #[trigger] tx.remaps[j],
                after,
                base,
                known,
            ) by {
                let remap = tx.remaps[j];
                assert(remap_holds(remap, store, base, known));
                if known.nodes.contains_key(remap.0.0) {
                    assert(after.slots[remap.1.0 as int] == store.slots[remap.1.0 as int]);
                }
            }
        },
        None => {},
    }
}

/// Whether every inode of `known` is an inode of `table` still, with the
/// parent it had, and, unless it stands for the object in the slot `but`,
/// stands in `store` for an entry with the name and the kind of the entry
/// that it stood for in `base`.
pub open spec fn identities_kept_but(
    known: InodeTable,
    base: Store,
    table: InodeTable,
    store: Store,
    but: ObjectId,
) -> bool {
    forall|k: u64| #[trigger]
        known.nodes.contains_key(k) ==> {
            &&& table.nodes.contains_key(k)
            &&& table.nodes[k].parent == known.nodes[k].parent
            &&& table.nodes[k].oid != but ==> {
                &&& base.get(known.nodes[k].oid) is Ok
                &&& base.get(known.nodes[k].oid).unwrap() is Entry
                &&& store.get(table.nodes[k].oid) is Ok
                &&& store.get(table.nodes[k].oid).unwrap() is Entry
                &&& same_entry(
                    base.get(known.nodes[k].oid).unwrap()->Entry_0,
                    store.get(table.nodes[k].oid).unwrap()->Entry_0,
                )
            }
        }
}

impl FsState {
    /// A commit that frees nothing keeps the identity of every inode that
    /// is not staged to point at the slot `slot`.
    proof fn lemma_commit_identity_but(self, base: Store, known: InodeTable, slot: ObjectId)
        requires
            self.store.wf(),
            names_kept(base, self.store),
            known.kept_by(self.inodes),
            entries_in(known, base),
            remaps_hold_but(self.tx, self.store, base, known, slot),
            self.tx matches Some(tx) && tx.frees.len() == 0,
            self.dirty_commits + 1 < spec_gc_period(),
            self.commit_tx().is_ok(),
        ensures
            identities_kept_but(
                known,
                base,
                self.commit_tx().unwrap().inodes,
                self.commit_tx().unwrap().store,
                slot,
            ),
    {
        let tx = self.tx.unwrap();
        let after = self.commit_tx().unwrap();
        self.lemma_commit_entries();
        lemma_names_kept_on(base, self.store, after.store);
        self.inodes.lemma_remap_all(tx.remaps, tx.remaps.len());
        assert forall|k: u64| #[trigger] known.nodes.contains_key(k) implies {
            &&& after.inodes.nodes.contains_key(k)
            &&& after.inodes.nodes[k].parent == known.nodes[k].parent
            &&& after.inodes.nodes[k].oid != slot ==> {
                &&& base.get(known.nodes[k].oid) is Ok
                &&& base.get(known.nodes[k].oid).unwrap() is Entry
                &&& after.store.get(after.inodes.nodes[k].oid) is Ok
                &&& after.store.get(after.inodes.nodes[k].oid).unwrap() is Entry
                &&& same_entry(
                    base.get(known.nodes[k].oid).unwrap()->Entry_0,
                    after.store.get(after.inodes.nodes[k].oid).unwrap()->Entry_0,
                )
            }
        } by {
            assert(self.inodes.nodes.contains_key(k));
            assert(after.store.get(known.nodes[k].oid) is Ok);
            if after.inodes.nodes[k].oid != known.nodes[k].oid && after.inodes.nodes[k].oid != slot {
                let j = choose|j: int|
                    0 <= j < tx.remaps.len() && #[trigger] tx.remaps[j] == (
                        InodeId(k),
                        after.inodes.nodes[k].oid,
                    );
                let remap = tx.remaps[j];
                assert(remap_holds(remap, self.store, base, known));
                Object::lemma_decode_tag(self.store.slots[remap.1.0 as int]);
                assert(after.store.slots[remap.1.0 as int] == self.store.slots[remap.1.0 as int]);
            }
        }
    }

    /// The slot that a rename copies the entry to, to give it its new name.
    pub open spec fn renamed_slot(self, parent_iid: InodeId, name: Seq<u8>) -> ObjectId {
        match self.begin_tx() {
            Ok(begun) => match begun.find(parent_iid, name) {
                Ok((found, (iid, _))) => match found.clone_inode(iid) {
                    Ok((_, oid)) => oid,
                    Err(_) => ObjectId(0),
                },
                Err(_) => ObjectId(0),
            },
            Err(_) => ObjectId(0),
        }
    }

    /// The last steps of a rename: the new name is stored, the copy gets
    /// it, and the transaction is committed.
    pub open spec fn rename_copy(self, new_oid: ObjectId, obj: EntryObj, new_name: Seq<u8>) -> Result<
        FsState,
        FsError,
    > {
        match self.store.alloc_payload(true, self.tx, new_name) {
            Ok((store, tx, Some(name))) => match store.set(
                new_oid,
                Object::Entry(EntryObj { name, ..obj }),
            ) {
                Ok(store) => (FsState { store, tx, ..self }).commit_tx(),
                Err(e) => Err(e),
            },
            Ok((_, _, None)) => Err(FsError::Other),
            Err(e) => Err(e),
        }
    }

    /// See `lemma_rename_keeps_inodes`.
    proof fn lemma_rename_copy(
        self,
        base: Store,
        known: InodeTable,
        new_oid: ObjectId,
        obj: EntryObj,
        new_name: Seq<u8>,
    )
        requires
            base.wf(),
            self.store.wf(),
            base.kept_in(self.store, own_slot(self.origin)),
            base.is_clone_slot(own_slot(self.origin)),
            base.free_at(new_oid, own_slot(self.origin)),
            known.kept_by(self.inodes),
            entries_in(known, base),
            remaps_hold(self.tx, self.store, base, known),
            self.tx matches Some(tx) && tx.frees.len() == 0,
            self.dirty_commits + 1 < spec_gc_period(),
            self.rename_copy(new_oid, obj, new_name).is_ok(),
        ensures
            identities_kept_but(
                known,
                base,
                self.rename_copy(new_oid, obj, new_name).unwrap().inodes,
                self.rename_copy(new_oid, obj, new_name).unwrap().store,
                new_oid,
            ),
    {
        let but = own_slot(self.origin);
        match self.store.alloc_payload(true, self.tx, new_name) {
            Ok((store, tx, Some(name))) => {
                self.store.lemma_alloc_chunks_kept(base, but, true, self.tx, new_name, 0);
                lemma_remaps_after_payload(self.store, self.tx, new_name, base, known);
                let entry = Object::Entry(EntryObj { name, ..obj });
                match store.set(new_oid, entry) {
                    Ok(written) => {
                        store.lemma_set_kept(base, but, new_oid, entry);
                        lemma_remaps_but_after_set(tx, store, new_oid, entry, base, known);
                        lemma_kept_names(base, written, but);
                        (FsState { store: written, tx, ..self }).lemma_commit_identity_but(
                            base,
                            known,
                            new_oid,
                        );
                    },
                    Err(_) => {},
                }
            },
            _ => {},
        }
    }

    /// Inode identity under a rename: every inode of the table is in the
    /// table afterwards, with the parent it had; and every inode but the
    /// one that stands for the renamed copy stands for an entry with the
    /// name and the kind of the entry that it stood for.
    pub proof fn lemma_rename_keeps_inodes(
        self,
        parent_iid: InodeId,
        old_name: Seq<u8>,
        new_name: Seq<u8>,
    )
        requires
            self.store.wf(),
            self.inodes.wf(),
            entries_in(self.inodes, self.store),
            self.store.is_clone_slot(own_slot(self.origin)),
            self.dirty_commits + 1 < spec_gc_period(),
            self.rename(parent_iid, old_name, parent_iid, new_name).is_ok(),
            new_name != old_name,
        ensures
            identities_kept_but(
                self.inodes,
                self.store,
                self.rename(parent_iid, old_name, parent_iid, new_name).unwrap().0.inodes,
                self.rename(parent_iid, old_name, parent_iid, new_name).unwrap().0.store,
                self.renamed_slot(parent_iid, old_name),
            ),
    {
        let base = self.store;
        let known = self.inodes;
        let but = own_slot(self.origin);
        match self.begin_tx() {
            Ok(begun) => match begun.inodes.resolve_children(begun.store, parent_iid) {
                Ok((inodes, children)) => {
                    begun.inodes.lemma_resolve_children(begun.store, parent_iid);
                    let found = FsState { inodes, ..begun };
                    match found.scan(children, old_name, 0) {
                        Ok((iid, _)) => {
                            let op = Alter { iid, skipping: None, replacing: None };
                            match found.clone_inode(iid) {
                                Ok((state, new_oid)) => {
                                    found.lemma_alter_identity(base, known, but, op);
                                    found.lemma_clone_inode_kept(base, but, iid);
                                    match state.store.get(new_oid) {
                                        Ok(Object::Entry(obj)) => {
                                            assert(self.rename(
                                                parent_iid,
                                                old_name,
                                                parent_iid,
                                                new_name,
                                            ) == match state.rename_copy(new_oid, obj, new_name) {
                                                Ok(done) => Ok::<(FsState, ()), FsError>((done, ())),
                                                Err(e) => Err(e),
                                            });
                                            state.lemma_rename_copy(
                                                base,
                                                known,
                                                new_oid,
                                                obj,
                                                new_name,
                                            );
                                        },
                                        _ => {},
                                    }
                                },
                                Err(_) => {},
                            }
                        },
                        Err(_) => {},
                    }
                },
                Err(_) => {},
            },
            Err(_) => {},
        }
    }
}

} // verus!
