pub mod alter;
pub mod frame;
pub mod getattr;
pub mod identity;
pub mod lookup;
pub mod mk;
pub mod ops;
pub mod read;
pub mod readdir;
pub mod rename;
pub mod rm;
pub mod setattr;
pub mod write;

use crate::collector::collect;
use crate::inode_id::InodeId;
use crate::inodes::{InodeTable, Inodes};
use crate::object::{EntryObj, FileKind, Object};
use crate::object_id::ObjectId;
use crate::objects::Objects;
use crate::result::FsError;
use crate::storage::Store;
use crate::transaction::{Transaction, TxView};
use vstd::prelude::*;

verus! {

/// The attributes of a file or directory as the kernel is told them. Times
/// are in seconds since the epoch.
#[derive(Clone, Copy, Debug, PartialEq, Eq, Structural)]
pub struct Attr {
    pub ino: u64,
    pub size: u64,
    pub blocks: u64,
    pub atime: u64,
    pub mtime: u64,
    pub ctime: u64,
    pub crtime: u64,
    pub kind: FileKind,
    pub perm: u16,
    pub nlink: u32,
    pub uid: u32,
    pub gid: u32,
    pub rdev: u32,
    pub flags: u32,
    pub blksize: u32,
}

/// A mounted filesystem as a value: the container, the inode table, the
/// transaction that is open or not, the origin, and how many transactions
/// have changed something since the last collection.
pub struct FsState {
    pub store: Store,
    pub inodes: InodeTable,
    pub tx: Option<TxView>,
    pub origin: FilesystemOrigin,
    pub dirty_commits: nat,
}

/// After this many transactions that changed something, the container is
/// collected.
pub open spec fn spec_gc_period() -> u32 {
    250
}

/// After this many transactions that changed something, the container is
/// collected.
#[verifier::when_used_as_spec(spec_gc_period)]
pub fn gc_period() -> (r: u32)
    ensures
        r == spec_gc_period(),
{
    250
}

/// Whether an operation's outcome is the one that the model gives: on
/// success the same value and the state `after`, on failure the same error.
pub open spec fn refines<T>(
    r: Result<T, FsError>,
    after: FsState,
    model: Result<(FsState, T), FsError>,
) -> bool {
    match r {
        Ok(v) => model == Ok::<(FsState, T), FsError>((after, v)),
        Err(e) => model matches Err(e2) && e2 == e,
    }
}

/// The attributes of the entry `obj` seen as inode `iid`: size, kind,
/// permissions and owner from the entry, one link, blocks of 512 bytes of
/// which none is counted, every time the epoch.
pub open spec fn attr_spec(iid: InodeId, obj: EntryObj) -> Attr {
    Attr {
        ino: iid.0,
        size: obj.size as u64,
        blocks: 0,
        atime: 0,
        mtime: 0,
        ctime: 0,
        crtime: 0,
        kind: obj.kind,
        perm: obj.mode,
        nlink: 1,
        uid: obj.uid,
        gid: obj.gid,
        rdev: 0,
        flags: 0,
        blksize: 512,
    }
}

impl FsState {
    /// The state with a transaction opened on the current header.
    pub open spec fn begin_tx(self) -> Result<FsState, FsError> {
        match self.store.header() {
            Ok(header) => Ok(FsState { tx: Some(TxView::fresh(header)), ..self }),
            Err(e) => Err(e),
        }
    }

    /// The filesystem as it is mounted: the container is collected first,
    /// the inode table holds the root directory alone, and no transaction
    /// is open.
    pub open spec fn mount(store: Store, origin: FilesystemOrigin) -> Result<FsState, FsError> {
        match store.collect() {
            Ok(store) => match origin.root_oid_spec(store) {
                Ok(root) => Ok(
                    FsState {
                        store,
                        inodes: InodeTable::init(root),
                        tx: None,
                        origin,
                        dirty_commits: 0,
                    },
                ),
                Err(e) => Err(e),
            },
            Err(e) => Err(e),
        }
    }

    /// The state after a transaction has changed something: one more is
    /// counted, and with the last of a period the container is collected
    /// and the count starts again.
    pub open spec fn count_commit(self) -> Result<FsState, FsError> {
        if self.dirty_commits + 1 >= spec_gc_period() {
            match self.store.collect() {
                Ok(store) => Ok(FsState { store, dirty_commits: 0, ..self }),
                Err(e) => Err(e),
            }
        } else {
            Ok(FsState { dirty_commits: self.dirty_commits + 1, ..self })
        }
    }

    /// The state after the open transaction is committed: unchanged but for
    /// the transaction being closed where it is clean; else with the header
    /// and the clone object written, the staged inode edits applied, and the
    /// commit counted.
    pub open spec fn commit_tx(self) -> Result<FsState, FsError> {
        match self.tx {
            None => Err(FsError::Other),
            Some(tx) => if !tx.dirty {
                Ok(FsState { tx: None, ..self })
            } else {
                match tx.commit_store(self.store, self.origin) {
                    Ok(store) => (FsState {
                        store,
                        inodes: if tx.has_inode_edits() {
                            self.inodes.apply(tx.remaps, tx.frees)
                        } else {
                            self.inodes
                        },
                        tx: None,
                        ..self
                    }).count_commit(),
                    Err(e) => Err(e),
                }
            },
        }
    }
}

/// A filesystem on one root of a container: the main tree or a clone.
#[derive(Debug)]
pub struct Filesystem {
    objects: Objects,
    inodes: Inodes,
    origin: FilesystemOrigin,
    tx: Transaction,
    dirty_commits: u32,
}

impl View for Filesystem {
    type V = FsState;

    closed spec fn view(&self) -> FsState {
        FsState {
            store: self.objects@,
            inodes: self.inodes@,
            tx: self.tx@,
            origin: self.origin,
            dirty_commits: self.dirty_commits as nat,
        }
    }
}

impl Filesystem {
    pub closed spec fn wf(&self) -> bool {
        &&& self.objects.wf()
        &&& self.objects@.single_header()
        &&& self.dirty_commits < spec_gc_period()
    }

    /// Whatever was done to a mounted filesystem, and whether it succeeded
    /// or failed, exactly one slot of its container holds a header, and it
    /// is slot 0.
    pub proof fn lemma_header_singleton(&self)
        requires
            self.wf(),
        ensures
            self@.store.wf(),
            self@.store.single_header(),
    {
        self.objects.lemma_wf();
    }

    /// Mounts the root that `origin` names, after a collection of the
    /// container: see `FsState::mount`.
    pub fn new(objects: Objects, origin: FilesystemOrigin) -> (r: Result<Self, FsError>)
        requires
            objects.wf(),
        ensures
            match r {
                Ok(fs) => fs.wf() && FsState::mount(objects@, origin) == Ok::<FsState, FsError>(fs@),
                Err(e) => FsState::mount(objects@, origin) == Err::<FsState, FsError>(e),
            },
    {
        let mut objects = objects;
        collect(&mut objects)?;
        let root = origin.root_oid(&objects)?;
        let inodes = Inodes::new(root)?;
        Ok(Self { objects, inodes, origin, tx: Transaction::default(), dirty_commits: 0 })
    }

    /// The container, to be written out.
    pub fn objects(&self) -> (r: &Objects)
        requires
            self.wf(),
        ensures
            r.wf(),
            r@ == self@.store,
            r@.single_header(),
    {
        &self.objects
    }

    /// The inode table.
    pub fn inodes(&self) -> (r: &Inodes)
        ensures
            r@ == self@.inodes,
    {
        &self.inodes
    }

    /// Unmounts: gives the container back.
    pub fn into_objects(self) -> (r: Objects)
        requires
            self.wf(),
        ensures
            r.wf(),
            r@ == self@.store,
            r@.single_header(),
    {
        self.objects
    }

    pub fn attr(iid: InodeId, obj: EntryObj) -> (r: Attr)
        ensures
            r == attr_spec(iid, obj),
    {
        Attr {
            ino: iid.get(),
            size: obj.size as u64,
            blocks: 0,
            atime: 0,
            mtime: 0,
            ctime: 0,
            crtime: 0,
            kind: obj.kind,
            perm: obj.mode,
            nlink: 1,
            uid: obj.uid,
            gid: obj.gid,
            rdev: 0,
            flags: 0,
            blksize: 512,
        }
    }

    pub fn begin_tx(&mut self) -> (r: Result<(), FsError>)
        requires
            old(self).wf(),
        ensures
            final(self).wf(),
            match r {
                Ok(_) => old(self)@.begin_tx() == Ok::<FsState, FsError>(final(self)@),
                Err(e) => old(self)@.begin_tx() == Err::<FsState, FsError>(e),
            },
    {
        self.tx.begin(&self.objects)
    }

    pub fn commit_tx(&mut self) -> (r: Result<(), FsError>)
        requires
            old(self).wf(),
        ensures
            final(self).wf(),
            match r {
                Ok(_) => old(self)@.commit_tx() == Ok::<FsState, FsError>(final(self)@),
                Err(e) => old(self)@.commit_tx() == Err::<FsState, FsError>(e),
            },
    {
        let dirty = self.tx.commit(&mut self.objects, Some(&mut self.inodes), self.origin)?;
        if dirty {
            if self.dirty_commits + 1 >= gc_period() {
                collect(&mut self.objects)?;
                self.dirty_commits = 0;
            } else {
                self.dirty_commits += 1;
            }
        }
        Ok(())
    }
}

/// Which root a mounted filesystem works on: the main tree, or a clone.
#[derive(Clone, Copy, Debug)]
pub enum FilesystemOrigin {
    Main { is_writable: bool },
    Clone { oid: ObjectId, is_writable: bool },
}

impl FilesystemOrigin {
    /// The object of the root directory: the header's root for the main
    /// tree, the clone object's root for a clone.
    pub open spec fn root_oid_spec(self, store: Store) -> Result<ObjectId, FsError> {
        match self {
            FilesystemOrigin::Main { .. } => match store.header() {
                Ok(header) => Ok(header.root),
                Err(e) => Err(e),
            },
            FilesystemOrigin::Clone { oid, .. } => match store.get(oid) {
                Ok(Object::Clone(clone)) => Ok(clone.root),
                Ok(_) => Err(FsError::Corrupt),
                Err(e) => Err(e),
            },
        }
    }

    pub open spec fn spec_is_writable(self) -> bool {
        match self {
            FilesystemOrigin::Main { is_writable } => is_writable,
            FilesystemOrigin::Clone { is_writable, .. } => is_writable,
        }
    }

    pub fn root_oid(self, objects: &Objects) -> (r: Result<ObjectId, FsError>)
        requires
            objects.wf(),
        ensures
            r == self.root_oid_spec(objects@),
    {
        match self {
            FilesystemOrigin::Main { .. } => Ok(objects.get_header()?.root),
            FilesystemOrigin::Clone { oid, .. } => Ok(objects.get(oid)?.into_clone(oid)?.root),
        }
    }

    #[verifier::when_used_as_spec(spec_is_writable)]
    pub fn is_writable(self) -> (r: bool)
        ensures
            r == self.spec_is_writable(),
    {
        match self {
            FilesystemOrigin::Main { is_writable } => is_writable,
            FilesystemOrigin::Clone { is_writable, .. } => is_writable,
        }
    }
}

} // verus!
