use crate::inode::{Inode, InodeView};
use crate::inode_id::InodeId;
use crate::object::Object;
use crate::object_id::ObjectId;
use crate::objects::Objects;
use crate::result::FsError;
use crate::storage::Store;
use std::collections::HashMap;
use vstd::prelude::*;

verus! {

/// The inode table as a value: the inodes by their number, and the number
/// that the next new inode gets.
pub struct InodeTable {
    pub nodes: Map<u64, InodeView>,
    pub next_iid: u64,
}

/// `list` without the element at `i`, whose place the last element takes.
pub open spec fn swap_removed(list: Seq<InodeId>, i: int) -> Seq<InodeId> {
    list.update(i, list.last()).drop_last()
}

/// The first position at or behind `from` at which `list` holds `iid`.
pub open spec fn position_from(list: Seq<InodeId>, iid: InodeId, from: int) -> Option<int>
    decreases list.len() - from,
{
    if from < 0 || from >= list.len() {
        None
    } else if list[from] == iid {
        Some(from)
    } else {
        position_from(list, iid, from + 1)
    }
}

/// The children found so far, followed by those that the rest of the walk
/// finds, or the error that ends the walk.
pub open spec fn prepend_children(
    found: Seq<InodeId>,
    rest: Result<(InodeTable, Seq<InodeId>), FsError>,
) -> Result<(InodeTable, Seq<InodeId>), FsError> {
    match rest {
        Ok((table, rest)) => Ok((table, found + rest)),
        Err(e) => Err(e),
    }
}

impl InodeTable {
    /// The table of a fresh mount: the root alone, its own parent, its
    /// children not yet resolved.
    pub open spec fn init(root_oid: ObjectId) -> InodeTable {
        InodeTable {
            nodes: Map::empty().insert(
                1u64,
                InodeView { oid: root_oid, parent: InodeId(1), children: None },
            ),
            next_iid: 2,
        }
    }

    pub open spec fn resolve_object(self, iid: InodeId) -> Result<ObjectId, FsError> {
        if self.nodes.contains_key(iid.0) {
            Ok(self.nodes[iid.0].oid)
        } else {
            Err(FsError::NotFound)
        }
    }

    pub open spec fn resolve_parent(self, iid: InodeId) -> Result<InodeId, FsError> {
        if self.nodes.contains_key(iid.0) {
            Ok(self.nodes[iid.0].parent)
        } else {
            Err(FsError::NotFound)
        }
    }

    /// The first of `children`, from position `from` on, that is in the
    /// table and stands for the object `oid`.
    pub open spec fn find_child_from(self, children: Seq<InodeId>, oid: ObjectId, from: int) -> Option<
        InodeId,
    >
        decreases children.len() - from,
    {
        if from < 0 || from >= children.len() {
            None
        } else if self.nodes.contains_key(children[from].0) && self.nodes[children[from].0].oid
            == oid {
            Some(children[from])
        } else {
            self.find_child_from(children, oid, from + 1)
        }
    }

    /// The inode of the child of `parent` that stands for `oid`: the child
    /// that is already known for that object, else a new inode with the next
    /// number, appended to the parent's children.
    pub open spec fn allocate(self, parent: InodeId, oid: ObjectId) -> Result<
        (InodeTable, InodeId),
        FsError,
    > {
        if !self.nodes.contains_key(parent.0) {
            Err(FsError::NotFound)
        } else {
            let known = match self.nodes[parent.0].children {
                Some(children) => self.find_child_from(children, oid, 0),
                None => None,
            };
            match known {
                Some(iid) => Ok((self, iid)),
                None => if self.next_iid == u64::MAX {
                    Err(FsError::Other)
                } else {
                    let iid = InodeId(self.next_iid);
                    let nodes = self.nodes.insert(
                        iid.0,
                        InodeView { oid, parent, children: None },
                    );
                    let above = nodes[parent.0];
                    let children = match above.children {
                        Some(children) => children.push(iid),
                        None => seq![iid],
                    };
                    Ok(
                        (
                            InodeTable {
                                nodes: nodes.insert(
                                    parent.0,
                                    InodeView { children: Some(children), ..above },
                                ),
                                next_iid: (self.next_iid + 1) as u64,
                            },
                            iid,
                        ),
                    )
                },
            }
        }
    }

    /// The table with the inode `iid`, if there is one, standing for `oid`.
    pub open spec fn remap(self, iid: InodeId, oid: ObjectId) -> InodeTable {
        if self.nodes.contains_key(iid.0) {
            InodeTable {
                nodes: self.nodes.insert(iid.0, InodeView { oid, ..self.nodes[iid.0] }),
                ..self
            }
        } else {
            self
        }
    }

    /// The table with the children of `iid`, if there is such an inode,
    /// resolved and none.
    pub open spec fn mark_as_empty(self, iid: InodeId) -> InodeTable {
        if self.nodes.contains_key(iid.0) {
            InodeTable {
                nodes: self.nodes.insert(
                    iid.0,
                    InodeView { children: Some(Seq::empty()), ..self.nodes[iid.0] },
                ),
                ..self
            }
        } else {
            self
        }
    }

    /// The table with `iid` taken out of the resolved children of `parent`,
    /// the last child taking its place.
    pub open spec fn detach(self, parent: InodeId, iid: InodeId) -> InodeTable {
        if self.nodes.contains_key(parent.0) {
            match self.nodes[parent.0].children {
                Some(children) => match position_from(children, iid, 0) {
                    Some(i) => InodeTable {
                        nodes: self.nodes.insert(
                            parent.0,
                            InodeView {
                                children: Some(swap_removed(children, i)),
                                ..self.nodes[parent.0]
                            },
                        ),
                        ..self
                    },
                    None => self,
                },
                None => self,
            }
        } else {
            self
        }
    }

    /// The table after every inode of the stack `work` has been freed, the
    /// last of `work` first: an inode that is in the table leaves it, is
    /// detached from its parent, and its resolved children are freed next,
    /// in their order, before the rest of `work`.
    pub open spec fn free_all(self, work: Seq<InodeId>) -> InodeTable
        decreases self.nodes.dom().len(), work.len(),
        when self.nodes.dom().finite()
        via Self::free_all_decreases
    {
        if work.len() == 0 {
            self
        } else {
            let iid = work.last();
            let rest = work.drop_last();
            if self.nodes.contains_key(iid.0) {
                let node = self.nodes[iid.0];
                let table = InodeTable { nodes: self.nodes.remove(iid.0), ..self }.detach(
                    node.parent,
                    iid,
                );
                match node.children {
                    Some(children) => table.free_all(rest + children.reverse()),
                    None => table.free_all(rest),
                }
            } else {
                self.free_all(rest)
            }
        }
    }

    #[via_fn]
    proof fn free_all_decreases(self, work: Seq<InodeId>) {
        if work.len() > 0 {
            let iid = work.last();
            if self.nodes.contains_key(iid.0) {
                let node = self.nodes[iid.0];
                let removed = InodeTable { nodes: self.nodes.remove(iid.0), ..self };
                let table = removed.detach(node.parent, iid);
                assert(table.nodes.dom() =~= self.nodes.dom().remove(iid.0));
            }
        }
    }

    /// The table after the first `n` of `remaps` have been applied in order.
    pub open spec fn remap_all(self, remaps: Seq<(InodeId, ObjectId)>, n: nat) -> InodeTable
        decreases n,
    {
        if n == 0 {
            self
        } else {
            self.remap_all(remaps, (n - 1) as nat).remap(remaps[n - 1].0, remaps[n - 1].1)
        }
    }

    /// The table after the first `n` of `frees` have been freed in order.
    pub open spec fn free_each(self, frees: Seq<InodeId>, n: nat) -> InodeTable
        decreases n,
    {
        if n == 0 {
            self
        } else {
            self.free_each(frees, (n - 1) as nat).free(frees[n - 1])
        }
    }

    /// The table after all `remaps` and then all `frees` have been applied.
    pub open spec fn apply(self, remaps: Seq<(InodeId, ObjectId)>, frees: Seq<InodeId>) -> InodeTable {
        self.remap_all(remaps, remaps.len()).free_each(frees, frees.len())
    }

    /// The table without the inode `iid` and without the inodes below it.
    pub open spec fn free(self, iid: InodeId) -> InodeTable {
        self.free_all(seq![iid])
    }

    /// The table and the children after the entries of a directory's list
    /// have been given inodes under `iid`, from the entry `cursor` on, for at
    /// most `fuel` entries. A slot on the list that holds no entry, and a
    /// list longer than `fuel`, are corrupt.
    pub open spec fn walk_children(
        self,
        store: Store,
        iid: InodeId,
        cursor: Option<ObjectId>,
        fuel: nat,
    ) -> Result<(InodeTable, Seq<InodeId>), FsError>
        decreases fuel,
    {
        match cursor {
            None => Ok((self, Seq::empty())),
            Some(oid) => if fuel == 0 {
                Err(FsError::Corrupt)
            } else {
                match self.allocate(iid, oid) {
                    Ok((table, child)) => match store.get(oid) {
                        Ok(Object::Entry(entry)) => prepend_children(
                            seq![child],
                            table.walk_children(store, iid, entry.next, (fuel - 1) as nat),
                        ),
                        Ok(_) => Err(FsError::Corrupt),
                        Err(e) => Err(e),
                    },
                    Err(e) => Err(e),
                }
            },
        }
    }

    /// The table with the children of `iid` resolved, and those children.
    /// Children that are resolved already are kept; else they are the inodes
    /// of the entries on the list of the directory that `iid` stands for.
    pub open spec fn resolve_children(self, store: Store, iid: InodeId) -> Result<
        (InodeTable, Seq<InodeId>),
        FsError,
    > {
        if !self.nodes.contains_key(iid.0) {
            Err(FsError::NotFound)
        } else {
            match self.nodes[iid.0].children {
                Some(children) => Ok((self, children)),
                None => match store.get(self.nodes[iid.0].oid) {
                    Ok(Object::Entry(entry)) => match self.walk_children(
                        store,
                        iid,
                        entry.body,
                        store.len(),
                    ) {
                        Ok((table, children)) => if table.nodes.contains_key(iid.0) {
                            Ok(
                                (
                                    InodeTable {
                                        nodes: table.nodes.insert(
                                            iid.0,
                                            InodeView {
                                                children: Some(children),
                                                ..table.nodes[iid.0]
                                            },
                                        ),
                                        ..table
                                    },
                                    children,
                                ),
                            )
                        } else {
                            Err(FsError::NotFound)
                        },
                        Err(e) => Err(e),
                    },
                    Ok(_) => Err(FsError::Corrupt),
                    Err(e) => Err(e),
                },
            }
        }
    }
}

impl InodeTable {
    /// A table is valid where it holds finitely many inodes, every inode's
    /// number is at least 1 and below the next number to hand out, and every
    /// inode but the root has a parent with a smaller number.
    pub open spec fn wf(self) -> bool {
        &&& self.nodes.dom().finite()
        &&& forall|k: u64| #[trigger] self.nodes.contains_key(k) ==> 1 <= k < self.next_iid
        &&& forall|k: u64|
            #[trigger] self.nodes.contains_key(k) && k != 1 ==> self.nodes[k].parent.0 < k
    }

    /// Whether `other` has every inode of this table, each with the object
    /// and the parent that it has here.
    pub open spec fn kept_by(self, other: InodeTable) -> bool {
        forall|k: u64| #[trigger]
            self.nodes.contains_key(k) ==> other.nodes.contains_key(k) && other.nodes[k].oid
                == self.nodes[k].oid && other.nodes[k].parent == self.nodes[k].parent
    }

    /// Remaps change the objects that inodes stand for and nothing else: the
    /// table holds the same inodes with the same parents and children, and
    /// each stands for the object it stood for or for the object of one of
    /// the remaps made for it.
    pub proof fn lemma_remap_all(self, remaps: Seq<(InodeId, ObjectId)>, n: nat)
        requires
            n <= remaps.len(),
        ensures
            ({
                let table = self.remap_all(remaps, n);
                &&& table.next_iid == self.next_iid
                &&& table.nodes.dom() == self.nodes.dom()
                &&& self.wf() ==> table.wf()
                &&& forall|k: u64| #[trigger]
                    self.nodes.contains_key(k) ==> {
                        &&& table.nodes[k].parent == self.nodes[k].parent
                        &&& table.nodes[k].children == self.nodes[k].children
                        &&& table.nodes[k].oid == self.nodes[k].oid || exists|j: int|
                            0 <= j < n && #[trigger] remaps[j] == (InodeId(k), table.nodes[k].oid)
                    }
            }),
        decreases n,
    {
        if n > 0 {
            self.lemma_remap_all(remaps, (n - 1) as nat);
            let before = self.remap_all(remaps, (n - 1) as nat);
            let table = self.remap_all(remaps, n);
            let (iid, oid) = remaps[n - 1];
            assert(table.nodes.dom() =~= self.nodes.dom());
            assert forall|k: u64| #[trigger] self.nodes.contains_key(k) implies {
                &&& table.nodes[k].parent == self.nodes[k].parent
                &&& table.nodes[k].children == self.nodes[k].children
                &&& table.nodes[k].oid == self.nodes[k].oid || exists|j: int|
                    0 <= j < n && #[trigger] remaps[j] == (InodeId(k), table.nodes[k].oid)
            } by {
                assert(before.nodes.contains_key(k));
                if k == iid.0 {
                    assert(remaps[n - 1] == (InodeId(k), table.nodes[k].oid));
                } else if before.nodes[k].oid != self.nodes[k].oid {
                    let j = choose|j: int|
                        0 <= j < n - 1 && #[trigger] remaps[j] == (InodeId(k), before.nodes[k].oid);
                    assert(remaps[j] == (InodeId(k), table.nodes[k].oid));
                }
            }
        }
    }

    /// Detaching a child changes a list of children and nothing else.
    pub proof fn lemma_detach(self, parent: InodeId, iid: InodeId)
        ensures
            self.detach(parent, iid).next_iid == self.next_iid,
            self.detach(parent, iid).nodes.dom() == self.nodes.dom(),
            forall|k: u64| #[trigger]
                self.nodes.contains_key(k) ==> self.detach(parent, iid).nodes[k].oid
                    == self.nodes[k].oid && self.detach(parent, iid).nodes[k].parent
                    == self.nodes[k].parent,
    {
        assert(self.detach(parent, iid).nodes.dom() =~= self.nodes.dom());
    }

    /// Freeing takes inodes out of the table and changes lists of
    /// children; an inode that stays stands for the object it stood for and
    /// has the parent it had.
    pub proof fn lemma_free_all(self, work: Seq<InodeId>)
        requires
            self.nodes.dom().finite(),
        ensures
            ({
                let table = self.free_all(work);
                &&& table.nodes.dom().finite()
                &&& table.next_iid == self.next_iid
                &&& self.wf() ==> table.wf()
                &&& forall|k: u64| #[trigger]
                    table.nodes.contains_key(k) ==> self.nodes.contains_key(k)
                        && table.nodes[k].oid == self.nodes[k].oid && table.nodes[k].parent
                        == self.nodes[k].parent
            }),
        decreases self.nodes.dom().len(), work.len(),
    {
        if work.len() > 0 {
            let iid = work.last();
            let rest = work.drop_last();
            if self.nodes.contains_key(iid.0) {
                let node = self.nodes[iid.0];
                let removed = InodeTable { nodes: self.nodes.remove(iid.0), ..self };
                removed.lemma_detach(node.parent, iid);
                let table = removed.detach(node.parent, iid);
                assert(table.nodes.dom() =~= self.nodes.dom().remove(iid.0));
                match node.children {
                    Some(children) => table.lemma_free_all(rest + children.reverse()),
                    None => table.lemma_free_all(rest),
                }
            } else {
                self.lemma_free_all(rest);
            }
        }
    }

    /// See `lemma_free_all`.
    pub proof fn lemma_free_each(self, frees: Seq<InodeId>, n: nat)
        requires
            self.nodes.dom().finite(),
            n <= frees.len(),
        ensures
            ({
                let table = self.free_each(frees, n);
                &&& table.nodes.dom().finite()
                &&& table.next_iid == self.next_iid
                &&& self.wf() ==> table.wf()
                &&& forall|k: u64| #[trigger]
                    table.nodes.contains_key(k) ==> self.nodes.contains_key(k)
                        && table.nodes[k].oid == self.nodes[k].oid && table.nodes[k].parent
                        == self.nodes[k].parent
            }),
        decreases n,
    {
        if n > 0 {
            self.lemma_free_each(frees, (n - 1) as nat);
            self.free_each(frees, (n - 1) as nat).lemma_free_all(seq![frees[n - 1]]);
        }
    }

    /// The table of a fresh mount is valid.
    pub proof fn lemma_init_wf(root_oid: ObjectId)
        ensures
            InodeTable::init(root_oid).wf(),
    {
    }

    /// Giving a child an inode keeps a valid table valid, keeps every inode
    /// with its object and parent, and makes the result an inode of the
    /// table whose parent is the one given.
    pub proof fn lemma_allocate(self, parent: InodeId, oid: ObjectId)
        requires
            self.wf(),
            self.allocate(parent, oid).is_ok(),
        ensures
            ({
                let (table, iid) = self.allocate(parent, oid).unwrap();
                &&& table.wf()
                &&& self.kept_by(table)
                &&& table.nodes.contains_key(iid.0)
                &&& table.nodes[iid.0].oid == oid
                &&& self.nodes.contains_key(parent.0)
                &&& forall|k: u64|
                    #[trigger] self.nodes.contains_key(k) && k != parent.0 ==> table.nodes[k]
                        == self.nodes[k]
            }),
    {
        let children = self.nodes[parent.0].children;
        match children {
            Some(children) => {
                self.lemma_find_child_from(children, oid, 0);
            },
            None => {},
        }
    }

    /// A child that is found is an inode of the table and stands for the
    /// object looked for.
    pub proof fn lemma_find_child_from(self, children: Seq<InodeId>, oid: ObjectId, from: int)
        requires
            0 <= from,
        ensures
            self.find_child_from(children, oid, from) matches Some(iid) ==> self.nodes.contains_key(
                iid.0,
            ) && self.nodes[iid.0].oid == oid && children.contains(iid),
        decreases children.len() - from,
    {
        if from < children.len() {
            if self.nodes.contains_key(children[from].0) && self.nodes[children[from].0].oid == oid {
            } else {
                self.lemma_find_child_from(children, oid, from + 1);
            }
        }
    }

    /// Giving the entries of a directory's list inodes keeps a valid table
    /// valid and keeps every inode with its object and parent.
    pub proof fn lemma_walk_children(
        self,
        store: Store,
        iid: InodeId,
        cursor: Option<ObjectId>,
        fuel: nat,
    )
        requires
            self.wf(),
            self.walk_children(store, iid, cursor, fuel).is_ok(),
        ensures
            ({
                let (table, _) = self.walk_children(store, iid, cursor, fuel).unwrap();
                &&& table.wf()
                &&& self.kept_by(table)
            }),
        decreases fuel,
    {
        match cursor {
            Some(oid) => {
                self.lemma_allocate(iid, oid);
                let (table, _) = self.allocate(iid, oid).unwrap();
                match store.get(oid) {
                    Ok(Object::Entry(entry)) => {
                        table.lemma_walk_children(store, iid, entry.next, (fuel - 1) as nat);
                    },
                    _ => {},
                }
            },
            None => {},
        }
    }

    /// Resolving the children of an inode keeps a valid table valid and
    /// keeps every inode with its object and parent; afterwards the
    /// children are resolved, and resolving them again gives the same
    /// children and changes nothing.
    pub proof fn lemma_resolve_children(self, store: Store, iid: InodeId)
        requires
            self.wf(),
            self.resolve_children(store, iid).is_ok(),
        ensures
            ({
                let (table, children) = self.resolve_children(store, iid).unwrap();
                &&& table.wf()
                &&& self.kept_by(table)
                &&& table.nodes[iid.0].children == Some(children)
                &&& table.resolve_children(store, iid) == Ok::<(InodeTable, Seq<InodeId>), FsError>(
                    (table, children),
                )
            }),
    {
        match self.nodes[iid.0].children {
            Some(_) => {},
            None => {
                match store.get(self.nodes[iid.0].oid) {
                    Ok(Object::Entry(entry)) => {
                        self.lemma_walk_children(store, iid, entry.body, store.len());
                    },
                    _ => {},
                }
            },
        }
    }
}

/// Maps the inode numbers that the kernel sees to the objects that stand for
/// them now, and keeps each inode's parent and resolved children.
#[derive(Debug)]
pub struct Inodes {
    nodes: HashMap<u64, Inode>,
    next_iid: InodeId,
}

impl View for Inodes {
    type V = InodeTable;

    closed spec fn view(&self) -> InodeTable {
        InodeTable {
            nodes: Map::new(|k: u64| self.nodes@.contains_key(k), |k: u64| self.nodes@[k]@),
            next_iid: self.next_iid.0,
        }
    }
}

/// A copy of the list.
fn copy_ids(list: &Vec<InodeId>) -> (r: Vec<InodeId>)
    ensures
        r@ == list@,
{
    let mut out: Vec<InodeId> = Vec::new();
    let mut i: usize = 0;
    while i < list.len()
        invariant
            i <= list@.len(),
            out@ == list@.subrange(0, i as int),
        decreases list@.len() - i,
    {
        out.push(list[i]);
        assert(out@ =~= list@.subrange(0, i + 1));
        i += 1;
    }
    assert(list@.subrange(0, i as int) =~= list@);
    out
}

impl Inodes {
    pub fn new(root_oid: ObjectId) -> (r: Result<Self, FsError>)
        ensures
            r matches Ok(inodes) && inodes@ == InodeTable::init(root_oid),
    {
        let mut nodes: HashMap<u64, Inode> = HashMap::new();
        nodes.insert(1, Inode { oid: root_oid, parent: InodeId::root(), children: None });
        let r = Self { nodes, next_iid: InodeId::new(2) };
        assert(r@.nodes =~= InodeTable::init(root_oid).nodes);
        Ok(r)
    }

    fn find_child(&self, children: &Vec<InodeId>, oid: ObjectId) -> (r: Option<InodeId>)
        ensures
            r == self@.find_child_from(children@, oid, 0),
    {
        let mut i: usize = 0;
        while i < children.len()
            invariant
                i <= children@.len(),
                self@.find_child_from(children@, oid, 0) == self@.find_child_from(
                    children@,
                    oid,
                    i as int,
                ),
            decreases children@.len() - i,
        {
            let child = children[i];
            match self.nodes.get(&child.0) {
                Some(node) => {
                    if node.oid.0 == oid.0 {
                        return Some(child);
                    }
                },
                None => {},
            }
            i += 1;
        }
        None
    }

    pub fn allocate(&mut self, parent_iid: InodeId, oid: ObjectId) -> (r: Result<InodeId, FsError>)
        ensures
            match r {
                Ok(iid) => old(self)@.allocate(parent_iid, oid) == Ok::<
                    (InodeTable, InodeId),
                    FsError,
                >((final(self)@, iid)),
                Err(e) => old(self)@.allocate(parent_iid, oid) == Err::<
                    (InodeTable, InodeId),
                    FsError,
                >(e) && final(self)@ == old(self)@,
            },
    {
        let known = match self.nodes.get(&parent_iid.0) {
            Some(parent) => match &parent.children {
                Some(children) => self.find_child(children, oid),
                None => None,
            },
            None => {
                return Err(FsError::NotFound);
            },
        };
        if let Some(iid) = known {
            return Ok(iid);
        }
        let iid = self.next_iid.fetch_add()?;
        self.nodes.insert(iid.0, Inode { oid, parent: parent_iid, children: None });
        match self.nodes.remove(&parent_iid.0) {
            Some(mut parent) => {
                match &mut parent.children {
                    Some(children) => {
                        children.push(iid);
                    },
                    None => {
                        let mut children: Vec<InodeId> = Vec::new();
                        children.push(iid);
                        parent.children = Some(children);
                    },
                }
                self.nodes.insert(parent_iid.0, parent);
            },
            None => {},
        }
        proof {
            let (table, _) = old(self)@.allocate(parent_iid, oid).unwrap();
            assert(self@.nodes =~= table.nodes);
        }
        Ok(iid)
    }

    pub fn remap(&mut self, iid: InodeId, oid: ObjectId)
        ensures
            final(self)@ == old(self)@.remap(iid, oid),
    {
        match self.nodes.remove(&iid.0) {
            Some(mut inode) => {
                inode.oid = oid;
                self.nodes.insert(iid.0, inode);
            },
            None => {},
        }
        assert(self@.nodes =~= old(self)@.remap(iid, oid).nodes);
    }

    /// Takes `iid` out of the resolved children of `parent`.
    fn detach(&mut self, parent: InodeId, iid: InodeId)
        ensures
            final(self)@ == old(self)@.detach(parent, iid),
    {
        match self.nodes.remove(&parent.0) {
            Some(mut node) => {
                match &mut node.children {
                    Some(children) => {
                        let mut i: usize = 0;
                        while i < children.len() && children[i].0 != iid.0
                            invariant
                                i <= children@.len(),
                                position_from(children@, iid, 0) == position_from(
                                    children@,
                                    iid,
                                    i as int,
                                ),
                            decreases children@.len() - i,
                        {
                            i += 1;
                        }
                        if i < children.len() {
                            children.swap_remove(i);
                        }
                    },
                    None => {},
                }
                self.nodes.insert(parent.0, node);
            },
            None => {},
        }
        assert(self@.nodes =~= old(self)@.detach(parent, iid).nodes);
    }

    proof fn lemma_finite(&self)
        ensures
            self@.nodes.dom().finite(),
    {
        assert(self@.nodes.dom() =~= self.nodes@.dom());
    }

    pub fn free(&mut self, iid: InodeId)
        ensures
            final(self)@ == old(self)@.free(iid),
    {
        let mut work: Vec<InodeId> = Vec::new();
        work.push(iid);
        assert(work@ =~= seq![iid]);
        proof {
            self.lemma_finite();
        }
        while work.len() > 0
            invariant
                self@.nodes.dom().finite(),
                self@.free_all(work@) == old(self)@.free(iid),
            decreases self@.nodes.dom().len(), work@.len(),
        {
            let ghost before = self@;
            let ghost stack = work@;
            let cur = work.pop().unwrap();
            match self.nodes.remove(&cur.0) {
                Some(node) => {
                    assert(self@.nodes =~= before.nodes.remove(cur.0));
                    self.detach(node.parent, cur);
                    proof {
                        self.lemma_finite();
                    }
                    assert(self@.nodes.dom() =~= before.nodes.dom().remove(cur.0));
                    match node.children {
                        Some(children) => {
                            let mut i: usize = children.len();
                            while i > 0
                                invariant
                                    i <= children@.len(),
                                    work@ == stack.drop_last() + children@.reverse().subrange(
                                        0,
                                        children@.len() - i,
                                    ),
                                decreases i,
                            {
                                i -= 1;
                                work.push(children[i]);
                                assert(work@ =~= stack.drop_last() + children@.reverse().subrange(
                                    0,
                                    children@.len() - i,
                                ));
                            }
                            assert(children@.reverse().subrange(0, children@.len() as int)
                                =~= children@.reverse());
                        },
                        None => {},
                    }
                },
                None => {
                    assert(self@.nodes =~= before.nodes);
                },
            }
        }
    }

    /// Applies the remaps in order, then the frees in order.
    pub fn apply(&mut self, remaps: &Vec<(InodeId, ObjectId)>, frees: &Vec<InodeId>)
        ensures
            final(self)@ == old(self)@.apply(remaps@, frees@),
    {
        let mut i: usize = 0;
        while i < remaps.len()
            invariant
                i <= remaps@.len(),
                self@ == old(self)@.remap_all(remaps@, i as nat),
            decreases remaps@.len() - i,
        {
            let (src, dst) = remaps[i];
            self.remap(src, dst);
            i += 1;
        }
        let ghost mid = self@;
        let mut j: usize = 0;
        while j < frees.len()
            invariant
                j <= frees@.len(),
                self@ == mid.free_each(frees@, j as nat),
            decreases frees@.len() - j,
        {
            self.free(frees[j]);
            j += 1;
        }
    }

    pub fn mark_as_empty(&mut self, iid: InodeId)
        ensures
            final(self)@ == old(self)@.mark_as_empty(iid),
    {
        match self.nodes.remove(&iid.0) {
            Some(mut inode) => {
                inode.children = Some(Vec::new());
                self.nodes.insert(iid.0, inode);
            },
            None => {},
        }
        assert(self@.nodes =~= old(self)@.mark_as_empty(iid).nodes);
    }

    pub fn resolve_object(&self, iid: InodeId) -> (r: Result<ObjectId, FsError>)
        ensures
            r == self@.resolve_object(iid),
    {
        match self.nodes.get(&iid.0) {
            Some(inode) => Ok(inode.oid),
            None => Err(FsError::NotFound),
        }
    }

    pub fn resolve_parent(&self, iid: InodeId) -> (r: Result<InodeId, FsError>)
        ensures
            r == self@.resolve_parent(iid),
    {
        match self.nodes.get(&iid.0) {
            Some(inode) => Ok(inode.parent),
            None => Err(FsError::NotFound),
        }
    }

    pub fn resolve_children(&mut self, objects: &Objects, iid: InodeId) -> (r: Result<
        Vec<InodeId>,
        FsError,
    >)
        requires
            objects.wf(),
        ensures
            match r {
                Ok(children) => old(self)@.resolve_children(objects@, iid) == Ok::<
                    (InodeTable, Seq<InodeId>),
                    FsError,
                >((final(self)@, children@)),
                Err(e) => old(self)@.resolve_children(objects@, iid) == Err::<
                    (InodeTable, Seq<InodeId>),
                    FsError,
                >(e),
            },
    {
        let inode_oid = match self.nodes.get(&iid.0) {
            Some(inode) => {
                if let Some(children) = &inode.children {
                    return Ok(copy_ids(children));
                }
                inode.oid
            },
            None => {
                return Err(FsError::NotFound);
            },
        };
        let obj = objects.get(inode_oid)?.into_entry(inode_oid)?;
        let mut children: Vec<InodeId> = Vec::new();
        let mut cursor = obj.body;
        let mut fuel = objects.len()?;
        proof {
            objects.lemma_wf();
            let all = old(self)@.walk_children(objects@, iid, cursor, fuel as nat);
            match all {
                Ok((_, rest)) => assert(children@ + rest =~= rest),
                Err(_) => {},
            }
        }
        while cursor.is_some()
            invariant
                objects.wf(),
                old(self)@.nodes.contains_key(iid.0),
                old(self)@.nodes[iid.0].children.is_none(),
                objects@.get(old(self)@.nodes[iid.0].oid) == Ok::<Object, FsError>(
                    Object::Entry(obj),
                ),
                prepend_children(
                    children@,
                    self@.walk_children(objects@, iid, cursor, fuel as nat),
                ) == old(self)@.walk_children(objects@, iid, obj.body, objects@.len()),
            decreases fuel,
        {
            let oid = cursor.unwrap();
            if fuel == 0 {
                return Err(FsError::Corrupt);
            }
            let ghost found = children@;
            let ghost before = self@;
            let child = self.allocate(iid, oid)?;
            let entry = objects.get(oid)?.into_entry(oid)?;
            children.push(child);
            proof {
                let rest = self@.walk_children(objects@, iid, entry.next, (fuel - 1) as nat);
                match rest {
                    Ok((_, more)) => assert(found + (seq![child] + more) =~= children@ + more),
                    Err(_) => {},
                }
            }
            cursor = entry.next;
            fuel -= 1;
        }
        let out = copy_ids(&children);
        match self.nodes.remove(&iid.0) {
            Some(mut inode) => {
                let ghost table = old(self)@.walk_children(
                    objects@,
                    iid,
                    obj.body,
                    objects@.len(),
                ).unwrap().0;
                assert(children@ + Seq::<InodeId>::empty() =~= children@);
                inode.children = Some(children);
                self.nodes.insert(iid.0, inode);
                assert(self@.nodes =~= table.nodes.insert(
                    iid.0,
                    InodeView { children: Some(out@), ..table.nodes[iid.0] },
                ));
                Ok(out)
            },
            None => {
                assert(children@ + Seq::<InodeId>::empty() =~= children@);
                Err(FsError::NotFound)
            },
        }
    }
}

} // verus!
