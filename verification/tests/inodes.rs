use ofs::cmds;
use ofs::{
    EntryObj, FileKind, FilesystemOrigin, FsError, HeaderObj, InodeChangeset, InodeId, Inodes,
    Object, ObjectId, Objects, Transaction,
};

fn oid(n: u32) -> ObjectId {
    ObjectId::new(n)
}

fn iid(n: u64) -> InodeId {
    InodeId::new(n)
}

fn entry(name: ObjectId, body: Option<ObjectId>, next: Option<ObjectId>) -> Object {
    Object::Entry(EntryObj {
        name,
        body,
        next,
        kind: FileKind::RegularFile,
        size: 0,
        mode: 0o644,
        uid: 0,
        gid: 0,
    })
}

/// A container whose root directory lists three entries, in slots 3, 4, 5.
fn three_children() -> Objects {
    let mut objects = cmds::create(0, 0).unwrap();
    let name = oid(2);
    assert_eq!(objects.allocate(None, entry(name, None, Some(oid(4)))), Ok(oid(3)));
    assert_eq!(objects.allocate(None, entry(name, None, Some(oid(5)))), Ok(oid(4)));
    assert_eq!(objects.allocate(None, entry(name, None, None)), Ok(oid(5)));
    let mut root = objects.get(oid(1)).unwrap().into_entry(oid(1)).unwrap();
    root.body = Some(oid(3));
    objects.set(oid(1), Object::Entry(root)).unwrap();
    objects
}

#[test]
fn new_table_holds_the_root() {
    let inodes = Inodes::new(oid(7)).unwrap();
    assert_eq!(inodes.resolve_object(InodeId::root()), Ok(oid(7)));
    assert_eq!(inodes.resolve_parent(InodeId::root()), Ok(InodeId::root()));
    assert_eq!(inodes.resolve_object(iid(2)).err(), Some(FsError::NotFound));
    assert_eq!(inodes.resolve_parent(iid(0)).err(), Some(FsError::NotFound));
}

#[test]
fn allocate_hands_out_numbers_in_order() {
    let mut inodes = Inodes::new(oid(1)).unwrap();
    assert_eq!(inodes.allocate(InodeId::root(), oid(10)), Ok(iid(2)));
    assert_eq!(inodes.allocate(InodeId::root(), oid(11)), Ok(iid(3)));
    assert_eq!(inodes.allocate(iid(2), oid(12)), Ok(iid(4)));
    assert_eq!(inodes.resolve_parent(iid(4)), Ok(iid(2)));
    assert_eq!(inodes.resolve_object(iid(4)), Ok(oid(12)));
    assert_eq!(inodes.allocate(iid(9), oid(13)).err(), Some(FsError::NotFound));
}

#[test]
fn allocate_keeps_the_inode_of_a_known_child() {
    let mut inodes = Inodes::new(oid(1)).unwrap();
    let a = inodes.allocate(InodeId::root(), oid(10)).unwrap();
    let b = inodes.allocate(InodeId::root(), oid(11)).unwrap();
    assert_eq!(inodes.allocate(InodeId::root(), oid(10)), Ok(a));
    assert_eq!(inodes.allocate(InodeId::root(), oid(11)), Ok(b));
    // the same object under another parent is another inode
    assert_eq!(inodes.allocate(a, oid(11)), Ok(iid(4)));
    // after a remap the child is known by its new object
    inodes.remap(a, oid(20));
    assert_eq!(inodes.allocate(InodeId::root(), oid(20)), Ok(a));
    assert_eq!(inodes.allocate(InodeId::root(), oid(10)), Ok(iid(5)));
}

#[test]
fn remap_changes_the_object_only() {
    let mut inodes = Inodes::new(oid(1)).unwrap();
    let a = inodes.allocate(InodeId::root(), oid(10)).unwrap();
    inodes.remap(a, oid(99));
    assert_eq!(inodes.resolve_object(a), Ok(oid(99)));
    assert_eq!(inodes.resolve_parent(a), Ok(InodeId::root()));
    inodes.remap(iid(50), oid(1));
    assert_eq!(inodes.resolve_object(iid(50)).err(), Some(FsError::NotFound));
}

#[test]
fn free_takes_the_subtree() {
    let mut inodes = Inodes::new(oid(1)).unwrap();
    let a = inodes.allocate(InodeId::root(), oid(10)).unwrap();
    let b = inodes.allocate(InodeId::root(), oid(11)).unwrap();
    let c = inodes.allocate(InodeId::root(), oid(12)).unwrap();
    let a1 = inodes.allocate(a, oid(13)).unwrap();
    let a2 = inodes.allocate(a, oid(14)).unwrap();
    let a11 = inodes.allocate(a1, oid(15)).unwrap();
    inodes.free(a);
    for gone in [a, a1, a2, a11] {
        assert_eq!(inodes.resolve_object(gone).err(), Some(FsError::NotFound));
    }
    assert_eq!(inodes.resolve_object(b), Ok(oid(11)));
    assert_eq!(inodes.resolve_object(c), Ok(oid(12)));
    // numbers are not handed out again
    assert_eq!(inodes.allocate(InodeId::root(), oid(30)), Ok(iid(8)));
    // freeing what is not there changes nothing
    inodes.free(a);
    assert_eq!(inodes.resolve_object(b), Ok(oid(11)));
}

#[test]
fn free_detaches_by_swap_remove() {
    let objects = three_children();
    let mut inodes = Inodes::new(oid(1)).unwrap();
    let kids = inodes.resolve_children(&objects, InodeId::root()).unwrap();
    assert_eq!(kids, vec![iid(2), iid(3), iid(4)]);
    inodes.free(iid(2));
    // the last child took the place of the freed one
    assert_eq!(inodes.resolve_children(&objects, InodeId::root()), Ok(vec![iid(4), iid(3)]));
}

#[test]
fn resolve_children_follows_the_list_once() {
    let objects = three_children();
    let mut inodes = Inodes::new(oid(1)).unwrap();
    let kids = inodes.resolve_children(&objects, InodeId::root()).unwrap();
    assert_eq!(kids, vec![iid(2), iid(3), iid(4)]);
    assert_eq!(inodes.resolve_object(iid(2)), Ok(oid(3)));
    assert_eq!(inodes.resolve_object(iid(3)), Ok(oid(4)));
    assert_eq!(inodes.resolve_object(iid(4)), Ok(oid(5)));
    // a second call answers from the table, whatever the container says now
    let empty = cmds::create(0, 0).unwrap();
    assert_eq!(inodes.resolve_children(&empty, InodeId::root()), Ok(kids));
    // a file without a body has no children
    assert_eq!(inodes.resolve_children(&objects, iid(2)), Ok(vec![]));
    assert_eq!(inodes.resolve_children(&objects, iid(77)).err(), Some(FsError::NotFound));
}

#[test]
fn resolve_children_errors() {
    let mut objects = three_children();
    // the list runs into a payload record
    objects.set(oid(4), Object::payload(b"x")).unwrap();
    let mut inodes = Inodes::new(oid(1)).unwrap();
    assert_eq!(
        inodes.resolve_children(&objects, InodeId::root()).err(),
        Some(FsError::Corrupt)
    );
    // the list runs in a circle
    let mut objects = three_children();
    objects.set(oid(5), entry(oid(2), None, Some(oid(3)))).unwrap();
    let mut inodes = Inodes::new(oid(1)).unwrap();
    assert_eq!(
        inodes.resolve_children(&objects, InodeId::root()).err(),
        Some(FsError::Corrupt)
    );
    // the inode stands for something that is no entry
    let mut inodes = Inodes::new(oid(2)).unwrap();
    assert_eq!(
        inodes.resolve_children(&objects, InodeId::root()).err(),
        Some(FsError::Corrupt)
    );
}

#[test]
fn mark_as_empty_resolves_to_nothing() {
    let objects = three_children();
    let mut inodes = Inodes::new(oid(1)).unwrap();
    inodes.mark_as_empty(InodeId::root());
    assert_eq!(inodes.resolve_children(&objects, InodeId::root()), Ok(vec![]));
    inodes.mark_as_empty(iid(9));
    assert_eq!(inodes.resolve_object(iid(9)).err(), Some(FsError::NotFound));
}

#[test]
fn changeset_applies_remaps_before_frees() {
    let mut inodes = Inodes::new(oid(1)).unwrap();
    let a = inodes.allocate(InodeId::root(), oid(10)).unwrap();
    let b = inodes.allocate(InodeId::root(), oid(11)).unwrap();
    let mut changes = InodeChangeset::default();
    assert!(changes.is_empty());
    changes.free(a);
    assert!(!changes.is_empty());
    changes.remap(a, oid(20));
    changes.remap(b, oid(21));
    changes.remap(b, oid(22));
    changes.apply_to(&mut inodes);
    assert_eq!(inodes.resolve_object(a).err(), Some(FsError::NotFound));
    assert_eq!(inodes.resolve_object(b), Ok(oid(22)));
    let mut only_remap = InodeChangeset::default();
    only_remap.remap(b, oid(5));
    assert!(!only_remap.is_empty());
}

#[test]
fn transaction_stages_and_commits_to_the_main_tree() {
    let mut objects = three_children();
    let mut inodes = Inodes::new(oid(1)).unwrap();
    let a = inodes.allocate(InodeId::root(), oid(3)).unwrap();
    let b = inodes.allocate(InodeId::root(), oid(4)).unwrap();
    let origin = FilesystemOrigin::Main { is_writable: true };

    let mut tx = Transaction::default();
    assert_eq!(tx.get_mut().err(), Some(FsError::Other));
    assert_eq!(tx.set_root(oid(5)).err(), Some(FsError::Other));
    assert_eq!(tx.remap_inode(a, oid(5)).err(), Some(FsError::Other));
    assert_eq!(tx.free_inode(a).err(), Some(FsError::Other));
    assert_eq!(tx.commit(&mut objects, Some(&mut inodes), origin).err(), Some(FsError::Other));

    tx.begin(&objects).unwrap();
    {
        let state = tx.get_mut().unwrap();
        assert!(!state.dirty);
        assert_eq!(state.new_root, None);
        assert_eq!(state.new_header.root, oid(1));
        assert!(state.inodes_to_remap.is_empty());
        assert!(state.inodes_to_free.is_empty());
    }
    // nothing staged: nothing done
    assert_eq!(tx.commit(&mut objects, Some(&mut inodes), origin), Ok(false));
    assert_eq!(tx.get_mut().err(), Some(FsError::Other));

    tx.begin(&objects).unwrap();
    tx.set_root(oid(5)).unwrap();
    assert_eq!(tx.set_root(oid(4)).err(), Some(FsError::Other));
    tx.remap_inode(a, oid(5)).unwrap();
    tx.free_inode(b).unwrap();
    assert!(tx.get_mut().unwrap().dirty);
    assert_eq!(tx.commit(&mut objects, Some(&mut inodes), origin), Ok(true));
    assert_eq!(objects.get_header().unwrap().root, oid(5));
    assert_eq!(inodes.resolve_object(a), Ok(oid(5)));
    assert_eq!(inodes.resolve_object(b).err(), Some(FsError::NotFound));
    assert_eq!(tx.commit(&mut objects, Some(&mut inodes), origin).err(), Some(FsError::Other));
}

#[test]
fn transaction_commits_a_root_to_a_clone() {
    let mut objects = three_children();
    ofs::CloneController::new(&mut objects).create("c", true).unwrap();
    let clone = ofs::CloneController::new(&mut objects).find("c").unwrap();
    let origin = FilesystemOrigin::Clone { oid: clone.oid, is_writable: true };
    let mut tx = Transaction::default();
    tx.begin(&objects).unwrap();
    tx.set_root(oid(5)).unwrap();
    assert_eq!(tx.commit(&mut objects, None, origin), Ok(true));
    // the main tree keeps its root, the clone has the new one
    assert_eq!(objects.get_header().unwrap().root, oid(1));
    let obj = objects.get(clone.oid).unwrap().into_clone(clone.oid).unwrap();
    assert_eq!(obj.root, oid(5));
    assert_eq!(objects.get_string(obj.name).unwrap(), "c");
    assert!(obj.is_writable);

    // an origin that is no clone object
    let origin = FilesystemOrigin::Clone { oid: oid(1), is_writable: true };
    tx.begin(&objects).unwrap();
    tx.set_root(oid(4)).unwrap();
    assert_eq!(tx.commit(&mut objects, None, origin).err(), Some(FsError::Corrupt));
}

#[test]
fn transaction_needs_inodes_for_inode_edits() {
    let mut objects = three_children();
    let origin = FilesystemOrigin::Main { is_writable: true };
    let mut tx = Transaction::default();
    tx.begin(&objects).unwrap();
    tx.remap_inode(iid(1), oid(3)).unwrap();
    assert_eq!(tx.commit(&mut objects, None, origin).err(), Some(FsError::Other));
    tx.begin(&objects).unwrap();
    tx.get_mut().unwrap().dirty = true;
    tx.get_mut().unwrap().new_header =
        HeaderObj { root: oid(3), clone: None, dead: Some(oid(4)) };
    assert_eq!(tx.commit(&mut objects, None, origin), Ok(true));
    let header = objects.get_header().unwrap();
    assert_eq!(header.root, oid(3));
    assert_eq!(header.dead, Some(oid(4)));
}

#[test]
fn begin_fails_without_a_header() {
    let objects = Objects::new(ofs::Storage::create());
    let mut tx = Transaction::default();
    assert_eq!(tx.begin(&objects).err(), Some(FsError::Other));
    assert_eq!(tx.get_mut().err(), Some(FsError::Other));
}
