use ofs::cmds;
use ofs::{
    Attr, CloneController, Collector, DeadObj, Filesystem, FilesystemOrigin, FsError, InodeId,
    Object, ObjectId, Objects,
};

const UID: u32 = 1;
const GID: u32 = 2;

fn ino(attr: Attr) -> InodeId {
    InodeId::new(attr.ino)
}

fn mount(objects: Objects) -> Filesystem {
    Filesystem::new(objects, FilesystemOrigin::Main { is_writable: true }).unwrap()
}

fn mount_clone(mut objects: Objects, name: &str) -> Filesystem {
    let origin = cmds::origin(&mut objects, Some(name), false).unwrap();
    Filesystem::new(objects, origin).unwrap()
}

/// `/a/f` holding "hello", and `/b`.
fn populated() -> Objects {
    let mut fs = mount(cmds::create(UID, GID).unwrap());
    let a = ino(fs.mkdir(InodeId::root(), b"a", 0o755, UID, GID).unwrap());
    let f = ino(fs.mknod(a, b"f", 0o644, UID, GID).unwrap());
    fs.write(f, 0, b"hello").unwrap();
    fs.mknod(InodeId::root(), b"b", 0o644, UID, GID).unwrap();
    fs.into_objects()
}

/// Every path of the tree with what it holds, in listing order.
fn tree(fs: &mut Filesystem, dir: InodeId, prefix: &str, out: &mut Vec<String>) {
    let lines = fs.readdir(dir, 0).unwrap();
    for (_, iid, kind, name) in lines {
        if name == "." || name == ".." {
            continue;
        }
        let attr = fs.getattr(iid).unwrap();
        let path = format!("{}/{}", prefix, name);
        match kind {
            ofs::FileKind::Directory => {
                out.push(format!("{} dir {:o} {} {}", path, attr.perm, attr.uid, attr.gid));
                tree(fs, iid, &path, out);
            }
            ofs::FileKind::RegularFile => {
                let data = fs.read(iid, 0, u32::MAX).unwrap();
                out.push(format!("{} file {:o} {} {:?}", path, attr.perm, attr.size, data));
            }
        }
    }
}

fn snapshot(fs: &mut Filesystem) -> Vec<String> {
    let mut out = Vec::new();
    tree(fs, InodeId::root(), "", &mut out);
    out
}

#[test]
fn clones_are_listed_in_creation_order() {
    let mut objects = populated();
    let mut ctl = CloneController::new(&mut objects);
    assert!(ctl.all().unwrap().is_empty());
    ctl.create("first", true).unwrap();
    ctl.create("second", false).unwrap();
    ctl.create("third", true).unwrap();
    let all = ctl.all().unwrap();
    let names: Vec<&str> = all.iter().map(|c| c.name.as_str()).collect();
    assert_eq!(names, vec!["first", "second", "third"]);
    assert_eq!(all.iter().map(|c| c.is_writable).collect::<Vec<_>>(), vec![true, false, true]);
    let root = ctl.objects.get_header().unwrap().root;
    assert!(all.iter().all(|c| c.root == root));
}

#[test]
fn clone_names_are_trimmed_and_unique() {
    let mut objects = populated();
    let mut ctl = CloneController::new(&mut objects);
    ctl.create("  snap\t\n", true).unwrap();
    assert_eq!(ctl.all().unwrap()[0].name, "snap");
    assert_eq!(ctl.create("snap", false), Err(FsError::Corrupt));
    assert_eq!(ctl.create(" snap ", true), Err(FsError::Corrupt));
    assert_eq!(ctl.all().unwrap().len(), 1);
    ctl.create("Snap", true).unwrap();
    ctl.create("sn ap", true).unwrap();
    assert_eq!(ctl.all().unwrap().len(), 3);
    assert_eq!(ctl.create("", true), Err(FsError::Other));
    assert_eq!(ctl.create("   ", true), Err(FsError::Other));
    assert_eq!(ctl.all().unwrap().len(), 3);
}

#[test]
fn find_returns_the_matching_clone() {
    let mut objects = populated();
    let mut ctl = CloneController::new(&mut objects);
    ctl.create("one", true).unwrap();
    ctl.create("two", false).unwrap();
    let all = ctl.all().unwrap();
    let two = ctl.find(" two ").unwrap();
    assert_eq!(two.name, "two");
    assert_eq!(two.oid, all[1].oid);
    assert!(!two.is_writable);
    let one = ctl.find("one").unwrap();
    assert_eq!(one.oid, all[0].oid);
    assert!(one.is_writable);
    assert_eq!(ctl.find("three").err(), Some(FsError::NotFound));
    assert_eq!(ctl.find("").err(), Some(FsError::NotFound));
}

#[test]
fn creating_a_clone_costs_its_name_and_one_object() {
    let mut objects = populated();
    let before = objects.len().unwrap();
    CloneController::new(&mut objects).create("snap", true).unwrap();
    assert_eq!(objects.len().unwrap(), before + 2);
    CloneController::new(&mut objects)
        .create("a name of more than twenty-six bytes", true)
        .unwrap();
    assert_eq!(objects.len().unwrap(), before + 2 + 3);
}

#[test]
fn delete_rebuilds_the_list() {
    let mut objects = populated();
    let mut ctl = CloneController::new(&mut objects);
    for name in ["a", "b", "c", "d"] {
        ctl.create(name, true).unwrap();
    }
    ctl.delete("b").unwrap();
    let names: Vec<String> = ctl.all().unwrap().into_iter().map(|c| c.name).collect();
    assert_eq!(names, vec!["a", "c", "d"]);
    assert_eq!(ctl.delete("b"), Err(FsError::NotFound));
    ctl.delete(" d ").unwrap();
    ctl.delete("a").unwrap();
    let names: Vec<String> = ctl.all().unwrap().into_iter().map(|c| c.name).collect();
    assert_eq!(names, vec!["c"]);
    ctl.delete("c").unwrap();
    assert!(ctl.all().unwrap().is_empty());
    assert_eq!(ctl.objects.get_header().unwrap().clone, None);
    ctl.create("b", false).unwrap();
    assert_eq!(ctl.find("b").unwrap().name, "b");
}

#[test]
fn origin_follows_clone_and_mount_flags() {
    let mut objects = populated();
    CloneController::new(&mut objects).create("rw", true).unwrap();
    CloneController::new(&mut objects).create("ro", false).unwrap();
    assert!(matches!(
        cmds::origin(&mut objects, None, false),
        Ok(FilesystemOrigin::Main { is_writable: true })
    ));
    assert!(matches!(
        cmds::origin(&mut objects, None, true),
        Ok(FilesystemOrigin::Main { is_writable: false })
    ));
    assert!(matches!(
        cmds::origin(&mut objects, Some("rw"), false),
        Ok(FilesystemOrigin::Clone { is_writable: true, .. })
    ));
    assert!(matches!(
        cmds::origin(&mut objects, Some("rw"), true),
        Ok(FilesystemOrigin::Clone { is_writable: false, .. })
    ));
    assert!(matches!(
        cmds::origin(&mut objects, Some("ro"), false),
        Ok(FilesystemOrigin::Clone { is_writable: false, .. })
    ));
    assert_eq!(cmds::origin(&mut objects, Some("none"), false).err(), Some(FsError::NotFound));
}

#[test]
fn a_clone_keeps_the_tree_it_was_made_of() {
    let mut objects = populated();
    let mut main = mount(objects);
    let at_creation = snapshot(&mut main);
    objects = main.into_objects();
    CloneController::new(&mut objects).create("c", false).unwrap();

    let mut main = mount(objects);
    let a = ino(main.lookup(InodeId::root(), b"a").unwrap());
    let f = ino(main.lookup(a, b"f").unwrap());
    main.write(f, 2, b"LLO WORLD and more than one record of it").unwrap();
    main.setattr(a, Some(0o700), Some(9), None, None).unwrap();
    main.rename(a, b"f", a, b"renamed").unwrap();
    main.unlink(InodeId::root(), b"b").unwrap();
    main.setattr(f, None, None, None, Some(0)).unwrap();
    main.rmdir(InodeId::root(), b"a").unwrap();
    main.mkdir(InodeId::root(), b"new", 0o755, UID, GID).unwrap();
    assert_ne!(snapshot(&mut main), at_creation);
    let mut objects = main.into_objects();
    Collector::new(&mut objects).run().unwrap();

    let mut clone = mount_clone(objects, "c");
    assert_eq!(snapshot(&mut clone), at_creation);
}

#[test]
fn a_writable_clone_leaves_the_main_tree_alone() {
    let mut objects = populated();
    CloneController::new(&mut objects).create("c", true).unwrap();
    let mut main = mount(objects);
    let before = snapshot(&mut main);
    let objects = main.into_objects();

    let mut clone = mount_clone(objects, "c");
    let a = ino(clone.lookup(InodeId::root(), b"a").unwrap());
    let f = ino(clone.lookup(a, b"f").unwrap());
    clone.write(f, 0, b"changed in the clone").unwrap();
    clone.unlink(InodeId::root(), b"b").unwrap();
    clone.rename(a, b"f", a, b"g").unwrap();
    let in_clone = snapshot(&mut clone);
    assert_ne!(in_clone, before);
    let objects = clone.into_objects();

    let mut main = mount(objects);
    assert_eq!(snapshot(&mut main), before);
    let objects = main.into_objects();
    let mut clone = mount_clone(objects, "c");
    assert_eq!(snapshot(&mut clone), in_clone);
}

#[test]
fn a_read_only_clone_refuses_writes() {
    let mut objects = populated();
    CloneController::new(&mut objects).create("snap", false).unwrap();
    let mut clone = mount_clone(objects, "snap");
    let a = ino(clone.lookup(InodeId::root(), b"a").unwrap());
    assert_eq!(clone.mknod(a, b"x", 0o644, UID, GID), Err(FsError::ReadOnly));
    assert_eq!(clone.unlink(a, b"f"), Err(FsError::ReadOnly));
}

/// The slots on the free list, and for each slot whether it is reached from
/// the root or a clone.
fn partition(objects: &Objects) -> (Vec<u32>, Vec<bool>) {
    let header = objects.get_header().unwrap();
    let n = objects.len().unwrap();
    let mut dead = Vec::new();
    let mut cursor = header.dead;
    while let Some(oid) = cursor {
        dead.push(oid.get());
        cursor = objects.get(oid).unwrap().into_dead(oid).unwrap().next;
        assert!(dead.len() as u32 <= n);
    }
    let mut reached = vec![false; n as usize];
    let mut pending = vec![header.root];
    pending.extend(header.clone);
    while let Some(oid) = pending.pop() {
        if reached[oid.get() as usize] {
            continue;
        }
        reached[oid.get() as usize] = true;
        match objects.get(oid).unwrap() {
            Object::Clone(o) => {
                pending.push(o.name);
                pending.push(o.root);
                pending.extend(o.next);
            }
            Object::Entry(o) => {
                pending.push(o.name);
                pending.extend(o.body);
                pending.extend(o.next);
            }
            Object::Payload(o) => pending.extend(o.next),
            other => panic!("reached {:?}", other),
        }
    }
    (dead, reached)
}

#[test]
fn collect_sorts_every_slot_into_alive_or_dead() {
    let mut objects = populated();
    CloneController::new(&mut objects).create("c", true).unwrap();
    let mut fs = mount(objects);
    let a = ino(fs.lookup(InodeId::root(), b"a").unwrap());
    fs.unlink(a, b"f").unwrap();
    fs.mknod(a, b"g", 0o644, UID, GID).unwrap();
    let mut objects = fs.into_objects();
    let n = objects.len().unwrap();
    let (_, reached_before) = partition(&objects);

    Collector::new(&mut objects).run().unwrap();
    assert_eq!(objects.len().unwrap(), n);
    let (dead, reached) = partition(&objects);
    assert_eq!(reached, reached_before);
    for oid in 1..n {
        let on_list = dead.contains(&oid);
        assert_ne!(on_list, reached[oid as usize], "slot {}", oid);
        let obj = objects.get(ObjectId::new(oid)).unwrap();
        assert_eq!(on_list, matches!(obj, Object::Dead(_)));
        assert!(!matches!(obj, Object::Empty | Object::Header(_)));
    }
    assert!(!dead.contains(&0));
    let mut sorted = dead.clone();
    sorted.sort();
    sorted.dedup();
    assert_eq!(sorted.len(), dead.len());
    // a second collection finds nothing to do
    let image = objects.all().unwrap().len();
    Collector::new(&mut objects).run().unwrap();
    assert_eq!(partition(&objects).0, dead);
    assert_eq!(objects.all().unwrap().len(), image);
}

#[test]
fn collect_puts_higher_slots_first() {
    let mut objects = cmds::create(UID, GID).unwrap();
    for _ in 0..3 {
        objects.allocate(None, Object::Empty).unwrap();
    }
    Collector::new(&mut objects).run().unwrap();
    assert_eq!(partition(&objects).0, vec![5, 4, 3]);
    // what is collected later goes in front of what was on the list
    objects.allocate(None, Object::payload(b"orphan")).unwrap();
    Collector::new(&mut objects).run().unwrap();
    assert_eq!(partition(&objects).0, vec![6, 5, 4, 3]);
}

#[test]
fn collect_fails_on_what_it_cannot_sort() {
    // the free list runs into a live object
    let mut objects = populated();
    let mut header = objects.get_header().unwrap();
    header.dead = Some(header.root);
    objects.set_header(header).unwrap();
    let before = objects.all().unwrap().len();
    assert_eq!(Collector::new(&mut objects).run(), Err(FsError::Corrupt));
    assert_eq!(objects.all().unwrap().len(), before);

    // a dead record is reached from the root
    let mut objects = populated();
    let root = objects.get_header().unwrap().root;
    objects.set(root, Object::Dead(DeadObj { next: None })).unwrap();
    assert_eq!(Collector::new(&mut objects).run(), Err(FsError::Corrupt));

    // a second header is reached
    let mut objects = populated();
    let header = objects.get_header().unwrap();
    objects.set(header.root, Object::Header(header)).unwrap();
    assert_eq!(Collector::new(&mut objects).run(), Err(FsError::Corrupt));

    // a pointer leads out of the container
    let mut objects = populated();
    let mut header = objects.get_header().unwrap();
    header.root = ObjectId::new(10_000);
    objects.set_header(header).unwrap();
    assert_eq!(Collector::new(&mut objects).run(), Err(FsError::Other));

    // no header
    let mut objects = Objects::new(ofs::Storage::create());
    assert_eq!(Collector::new(&mut objects).run(), Err(FsError::Other));
}

#[test]
fn steady_churn_does_not_grow_the_container() {
    let mut fs = mount(cmds::create(UID, GID).unwrap());
    let f = ino(fs.mknod(InodeId::root(), b"f", 0o644, UID, GID).unwrap());
    fs.write(f, 0, b"0123456789").unwrap();
    let mut objects = fs.into_objects();
    let mut sizes = Vec::new();
    for round in 0..6u8 {
        let mut fs = mount(objects);
        let f = ino(fs.lookup(InodeId::root(), b"f").unwrap());
        fs.write(f, 0, &[round; 10]).unwrap();
        objects = fs.into_objects();
        sizes.push(objects.len().unwrap());
    }
    // every mount collects what the write before it left behind
    assert!(sizes.windows(2).skip(1).all(|w| w[0] == w[1]), "{:?}", sizes);
}

fn name_of(fs: &Filesystem, iid: InodeId) -> Vec<u8> {
    let oid = fs.inodes().resolve_object(iid).unwrap();
    let entry = fs.objects().get(oid).unwrap().into_entry(oid).unwrap();
    fs.objects().get_payload(entry.name).unwrap()
}

#[test]
fn inodes_keep_their_identity_under_rewrites() {
    let mut fs = mount(populated());
    let a = ino(fs.lookup(InodeId::root(), b"a").unwrap());
    let b = ino(fs.lookup(InodeId::root(), b"b").unwrap());
    let f = ino(fs.lookup(a, b"f").unwrap());
    let object = |fs: &Filesystem, iid: InodeId| fs.inodes().resolve_object(iid).unwrap();
    let names_before = [name_of(&fs, a), name_of(&fs, b), name_of(&fs, f)];
    let objects_before = [object(&fs, a), object(&fs, b), object(&fs, f)];
    fs.write(f, 0, b"rewritten").unwrap();
    fs.setattr(b, Some(0o600), None, None, None).unwrap();
    fs.mknod(a, b"g", 0o644, UID, GID).unwrap();
    fs.unlink(InodeId::root(), b"b").unwrap();
    assert_eq!(names_before[0], b"a".to_vec());
    assert_eq!(names_before[2], b"f".to_vec());
    assert_eq!(name_of(&fs, a), names_before[0]);
    assert_eq!(name_of(&fs, f), names_before[2]);
    assert_ne!(object(&fs, a), objects_before[0]);
    assert_ne!(object(&fs, f), objects_before[2]);
    assert_eq!(fs.inodes().resolve_parent(f), Ok(a));
    assert_eq!(fs.inodes().resolve_object(b).err(), Some(FsError::NotFound));
}

#[test]
fn an_entry_added_to_a_shared_directory_shows_in_the_clone() {
    // entries are linked in behind the last entry of a directory in place;
    // where that entry is shared with a clone, the clone lists the new entry too
    let mut objects = populated();
    CloneController::new(&mut objects).create("c", false).unwrap();
    let mut main = mount(objects);
    let a = ino(main.lookup(InodeId::root(), b"a").unwrap());
    main.mknod(a, b"g", 0o644, UID, GID).unwrap();
    let mut clone = mount_clone(main.into_objects(), "c");
    let a = ino(clone.lookup(InodeId::root(), b"a").unwrap());
    let names: Vec<String> = clone.readdir(a, 0).unwrap().into_iter().map(|e| e.3).collect();
    assert_eq!(names, vec![".", "..", "f", "g"]);
    // an entry added to the root, whose entries were all copied, does not
    let mut objects = populated();
    CloneController::new(&mut objects).create("c", false).unwrap();
    let mut main = mount(objects);
    main.mknod(InodeId::root(), b"h", 0o644, UID, GID).unwrap();
    let mut clone = mount_clone(main.into_objects(), "c");
    let names: Vec<String> =
        clone.readdir(InodeId::root(), 0).unwrap().into_iter().map(|e| e.3).collect();
    assert_eq!(names, vec![".", "a", "b"]);
}

fn headers(objects: &Objects) -> Vec<u32> {
    objects
        .all()
        .unwrap()
        .into_iter()
        .filter(|(_, obj)| matches!(obj, Object::Header(_)))
        .map(|(oid, _)| oid.get())
        .collect()
}

#[test]
fn there_is_one_header_whatever_is_done() {
    let mut objects = populated();
    assert_eq!(headers(&objects), vec![0]);
    CloneController::new(&mut objects).create("c", true).unwrap();
    CloneController::new(&mut objects).create("d", false).unwrap();
    CloneController::new(&mut objects).delete("c").unwrap();
    assert_eq!(headers(&objects), vec![0]);
    let mut fs = mount(objects);
    let a = ino(fs.lookup(InodeId::root(), b"a").unwrap());
    let f = ino(fs.lookup(a, b"f").unwrap());
    fs.write(f, 3, b"more").unwrap();
    fs.rename(a, b"f", a, b"g").unwrap();
    fs.mkdir(a, b"sub", 0o755, UID, GID).unwrap();
    fs.setattr(a, Some(0o700), None, None, None).unwrap();
    // operations that fail half way
    assert_eq!(fs.setattr(f, None, None, None, Some(7)), Err(FsError::NotImplemented));
    assert_eq!(fs.mknod(a, b"", 0o644, UID, GID), Err(FsError::Other));
    assert_eq!(fs.write(f, -1, b"x"), Err(FsError::Other));
    fs.rmdir(InodeId::root(), b"a").unwrap();
    assert_eq!(headers(fs.objects()), vec![0]);
    let mut objects = fs.into_objects();
    assert_eq!(Collector::new(&mut objects).run(), Ok(()));
    assert_eq!(headers(&objects), vec![0]);
}

#[test]
fn a_dropped_transaction_leaves_the_free_list_behind() {
    let mut fs = mount(cmds::create(UID, GID).unwrap());
    let f = ino(fs.mknod(InodeId::root(), b"f", 0o644, UID, GID).unwrap());
    fs.write(f, 0, b"some content").unwrap();
    fs.write(f, 0, b"other content").unwrap();
    let mut objects = fs.into_objects();
    Collector::new(&mut objects).run().unwrap();
    let head = objects.get_header().unwrap().dead.unwrap();
    assert!(matches!(objects.get(head), Ok(Object::Dead(_))));

    // the rewrite takes slots off the free list, and the transaction is
    // dropped before the header says so
    let mut fs = mount(objects);
    let f = ino(fs.lookup(InodeId::root(), b"f").unwrap());
    assert_eq!(fs.setattr(f, None, None, None, Some(7)), Err(FsError::NotImplemented));
    assert_eq!(fs.objects().get_header().unwrap().dead, Some(head));
    assert!(!matches!(fs.objects().get(head), Ok(Object::Dead(_))));
    // the tree is as it was, and later allocations append
    assert_eq!(fs.read(f, 0, 13), Ok(b"other content".to_vec()));
    let before = fs.objects().len().unwrap();
    fs.write(f, 0, b"x").unwrap();
    assert!(fs.objects().len().unwrap() > before);
    // but the free list starts at a live slot now, which a collection refuses
    let mut objects = fs.into_objects();
    assert_eq!(Collector::new(&mut objects).run(), Err(FsError::Corrupt));
}
