use ofs::cmds;
use ofs::filesystem::alter::Alter;
use ofs::{
    Attr, FileKind, Filesystem, FilesystemOrigin, FsError, InodeId, Object, ObjectId, Objects,
    Storage,
};

const UID: u32 = 501;
const GID: u32 = 20;

fn ino(attr: Attr) -> InodeId {
    InodeId::new(attr.ino)
}

fn mount(objects: Objects) -> Filesystem {
    Filesystem::new(objects, FilesystemOrigin::Main { is_writable: true }).unwrap()
}

fn fresh() -> Filesystem {
    mount(cmds::create(UID, GID).unwrap())
}

fn names(fs: &mut Filesystem, dir: InodeId) -> Vec<String> {
    fs.readdir(dir, 0).unwrap().into_iter().map(|e| e.3).collect()
}

#[test]
fn new_container_has_an_open_root() {
    let objects = cmds::create(UID, GID).unwrap();
    assert_eq!(objects.len(), Ok(3));
    let header = objects.get_header().unwrap();
    assert_eq!(header.root, ObjectId::new(1));
    assert_eq!(header.dead, None);
    assert_eq!(header.clone, None);
    let root = objects.get(ObjectId::new(1)).unwrap().into_entry(ObjectId::new(1)).unwrap();
    assert_eq!(root.kind, FileKind::Directory);
    assert_eq!(root.mode, 0o777);
    assert_eq!(root.uid, UID);
    assert_eq!(root.gid, GID);
    assert_eq!(root.size, 0);
    assert_eq!(root.body, None);
    assert_eq!(root.next, None);
    assert_eq!(objects.get_payload(root.name), Ok(b"/".to_vec()));

    let fs = mount(objects);
    let attr = fs.getattr(InodeId::root()).unwrap();
    assert_eq!(
        attr,
        Attr {
            ino: 1,
            size: 0,
            blocks: 0,
            atime: 0,
            mtime: 0,
            ctime: 0,
            crtime: 0,
            kind: FileKind::Directory,
            perm: 0o777,
            nlink: 1,
            uid: UID,
            gid: GID,
            rdev: 0,
            flags: 0,
            blksize: 512,
        }
    );
}

#[test]
fn getattr_and_read_of_an_unknown_inode() {
    let fs = fresh();
    assert_eq!(fs.getattr(InodeId::new(9)), Err(FsError::NotFound));
    assert_eq!(fs.read(InodeId::new(9), 0, 1), Err(FsError::NotFound));
}

#[test]
fn lookup_matches_names_by_their_bytes() {
    let mut fs = fresh();
    let a = fs.mkdir(InodeId::root(), b"a", 0o755, UID, GID).unwrap();
    let raw = fs.mknod(InodeId::root(), &[0xff, 0xfe], 0o600, UID, GID).unwrap();
    assert_eq!(fs.lookup(InodeId::root(), b"a").unwrap().ino, a.ino);
    assert_eq!(fs.lookup(InodeId::root(), &[0xff, 0xfe]).unwrap().ino, raw.ino);
    assert_eq!(fs.lookup(InodeId::root(), b"b"), Err(FsError::NotFound));
    assert_eq!(fs.lookup(InodeId::root(), b""), Err(FsError::NotFound));
    assert_eq!(fs.lookup(InodeId::root(), b"A"), Err(FsError::NotFound));
    assert_eq!(fs.lookup(InodeId::new(99), b"a"), Err(FsError::NotFound));
    // in the listing the name is text, with what is no text replaced
    assert_eq!(names(&mut fs, InodeId::root()), vec![".", "a", "\u{fffd}\u{fffd}"]);
}

#[test]
fn long_names_span_records() {
    let mut fs = fresh();
    let name = vec![b'n'; 100];
    let f = fs.mknod(InodeId::root(), &name, 0o644, UID, GID).unwrap();
    assert_eq!(fs.lookup(InodeId::root(), &name).unwrap().ino, f.ino);
    assert_eq!(fs.lookup(InodeId::root(), &name[..99]), Err(FsError::NotFound));
}

#[test]
fn mk_takes_the_low_bits_of_the_mode_and_refuses_an_empty_name() {
    let mut fs = fresh();
    let f = fs.mknod(InodeId::root(), b"f", 0o100644, 7, 8).unwrap();
    assert_eq!(f.perm, 0o100644u32 as u16);
    assert_eq!(f.uid, 7);
    assert_eq!(f.gid, 8);
    assert_eq!(f.kind, FileKind::RegularFile);
    assert_eq!(fs.mknod(InodeId::root(), b"", 0o644, 7, 8), Err(FsError::Other));
    assert_eq!(fs.mkdir(InodeId::root(), b"", 0o755, 7, 8), Err(FsError::Other));
    assert_eq!(fs.mkdir(InodeId::new(44), b"x", 0o755, 7, 8), Err(FsError::NotFound));
}

#[test]
fn children_keep_their_order() {
    let mut fs = fresh();
    for name in ["one", "two", "three", "four"] {
        fs.mknod(InodeId::root(), name.as_bytes(), 0o644, UID, GID).unwrap();
    }
    assert_eq!(names(&mut fs, InodeId::root()), vec![".", "one", "two", "three", "four"]);
    let objects = fs.into_objects();
    let mut fs = mount(objects);
    assert_eq!(names(&mut fs, InodeId::root()), vec![".", "one", "two", "three", "four"]);
}

#[test]
fn readdir_numbers_lines_and_resumes() {
    let mut fs = fresh();
    let d = fs.mkdir(InodeId::root(), b"d", 0o755, UID, GID).unwrap();
    let x = fs.mknod(ino(d), b"x", 0o644, UID, GID).unwrap();
    let y = fs.mkdir(ino(d), b"y", 0o755, UID, GID).unwrap();
    let z = fs.mknod(ino(d), b"z", 0o644, UID, GID).unwrap();

    let all = fs.readdir(ino(d), 0).unwrap();
    assert_eq!(
        all,
        vec![
            (1, ino(d), FileKind::Directory, ".".to_string()),
            (2, InodeId::root(), FileKind::Directory, "..".to_string()),
            (3, ino(x), FileKind::RegularFile, "x".to_string()),
            (4, ino(y), FileKind::Directory, "y".to_string()),
            (5, ino(z), FileKind::RegularFile, "z".to_string()),
        ]
    );
    for offset in 0..=5usize {
        assert_eq!(fs.readdir(ino(d), offset as i64).unwrap(), all[offset..].to_vec());
    }
    assert_eq!(fs.readdir(ino(d), 6).unwrap(), vec![]);
    assert_eq!(fs.readdir(ino(d), i64::MAX).unwrap(), vec![]);
    assert_eq!(fs.readdir(ino(d), -1).unwrap(), vec![]);
    assert_eq!(fs.readdir(InodeId::new(77), 0), Err(FsError::NotFound));

    // read in pages of two, each resumed at the last cookie: nothing twice, nothing lost
    let mut seen = Vec::new();
    let mut cookie = 0;
    loop {
        let page: Vec<_> = fs.readdir(ino(d), cookie).unwrap().into_iter().take(2).collect();
        match page.last() {
            Some(last) => cookie = last.0,
            None => break,
        }
        seen.extend(page);
    }
    assert_eq!(seen, all);
}

#[test]
fn readdir_of_the_root_has_no_parent_line() {
    let mut fs = fresh();
    let a = fs.mknod(InodeId::root(), b"a", 0o644, UID, GID).unwrap();
    assert_eq!(
        fs.readdir(InodeId::root(), 0).unwrap(),
        vec![
            (1, InodeId::root(), FileKind::Directory, ".".to_string()),
            (2, ino(a), FileKind::RegularFile, "a".to_string()),
        ]
    );
    assert_eq!(
        fs.readdir(InodeId::root(), 1).unwrap(),
        vec![(2, ino(a), FileKind::RegularFile, "a".to_string())]
    );
}

#[test]
fn write_grows_pads_and_overwrites() {
    let mut fs = fresh();
    let f = ino(fs.mknod(InodeId::root(), b"f", 0o644, UID, GID).unwrap());
    assert_eq!(fs.read(f, 0, 10), Ok(vec![]));
    fs.write(f, 3, b"abc").unwrap();
    assert_eq!(fs.getattr(f).unwrap().size, 6);
    assert_eq!(fs.read(f, 0, 6), Ok(vec![0, 0, 0, b'a', b'b', b'c']));
    fs.write(f, 1, b"XY").unwrap();
    assert_eq!(fs.getattr(f).unwrap().size, 6);
    assert_eq!(fs.read(f, 0, 6), Ok(vec![0, b'X', b'Y', b'a', b'b', b'c']));
    fs.write(f, 5, b"0123456789012345678901234567890123456789").unwrap();
    assert_eq!(fs.getattr(f).unwrap().size, 45);
    let all = fs.read(f, 0, 45).unwrap();
    assert_eq!(&all[..5], &[0, b'X', b'Y', b'a', b'b']);
    assert_eq!(&all[5..], b"0123456789012345678901234567890123456789");
    // a write of nothing changes nothing but is a write
    fs.write(f, 2, b"").unwrap();
    assert_eq!(fs.read(f, 0, 45), Ok(all));
}

#[test]
fn write_refuses_offsets_that_cannot_be_counted() {
    let mut fs = fresh();
    let f = ino(fs.mknod(InodeId::root(), b"f", 0o644, UID, GID).unwrap());
    assert_eq!(fs.write(f, -1, b"x"), Err(FsError::Other));
    assert_eq!(fs.write(f, u32::MAX as i64, b"x"), Err(FsError::Other));
    assert_eq!(fs.write(f, i64::MAX, b"x"), Err(FsError::Other));
    assert_eq!(fs.write(InodeId::new(50), 0, b"x"), Err(FsError::NotFound));
}

#[test]
fn read_keeps_inside_the_file() {
    let mut fs = fresh();
    let f = ino(fs.mknod(InodeId::root(), b"f", 0o644, UID, GID).unwrap());
    fs.write(f, 0, b"hello world").unwrap();
    assert_eq!(fs.read(f, 0, 5), Ok(b"hello".to_vec()));
    assert_eq!(fs.read(f, 6, 5), Ok(b"world".to_vec()));
    assert_eq!(fs.read(f, 6, 4096), Ok(b"world".to_vec()));
    assert_eq!(fs.read(f, 11, 4), Ok(vec![]));
    assert_eq!(fs.read(f, 400, 4), Ok(vec![]));
    assert_eq!(fs.read(f, -3, 2), Ok(b"he".to_vec()));
    assert_eq!(fs.read(f, 0, 0), Ok(vec![]));
    assert_eq!(fs.read(f, 0, u32::MAX), Ok(b"hello world".to_vec()));
}

#[test]
fn setattr_sets_what_is_given() {
    let mut fs = fresh();
    let f = ino(fs.mknod(InodeId::root(), b"f", 0o644, UID, GID).unwrap());
    fs.write(f, 0, b"data").unwrap();
    let attr = fs.setattr(f, Some(0o100600), None, Some(5), None).unwrap();
    assert_eq!(attr.perm, 0o100600u32 as u16);
    assert_eq!(attr.uid, UID);
    assert_eq!(attr.gid, 5);
    assert_eq!(attr.size, 4);
    assert_eq!(attr.ino, f.get());
    assert_eq!(fs.getattr(f), Ok(attr));
    assert_eq!(fs.read(f, 0, 4), Ok(b"data".to_vec()));
    let attr = fs.setattr(f, None, Some(9), None, None).unwrap();
    assert_eq!(attr.uid, 9);
    assert_eq!(attr.perm, 0o100600u32 as u16);
}

#[test]
fn setattr_truncates_to_zero_only() {
    let mut fs = fresh();
    let f = ino(fs.mknod(InodeId::root(), b"f", 0o644, UID, GID).unwrap());
    fs.write(f, 0, b"data").unwrap();
    assert_eq!(fs.setattr(f, None, None, None, Some(2)), Err(FsError::NotImplemented));
    assert_eq!(fs.setattr(f, None, None, None, Some(u64::MAX)), Err(FsError::NotImplemented));
    assert_eq!(fs.read(f, 0, 4), Ok(b"data".to_vec()));
    let attr = fs.setattr(f, None, None, None, Some(0)).unwrap();
    assert_eq!(attr.size, 0);
    assert_eq!(fs.read(f, 0, 4), Ok(vec![]));
    assert_eq!(fs.setattr(InodeId::new(31), None, None, None, None), Err(FsError::NotFound));
}

#[test]
fn setattr_on_the_root() {
    let mut fs = fresh();
    let a = fs.mkdir(InodeId::root(), b"a", 0o755, UID, GID).unwrap();
    let attr = fs.setattr(InodeId::root(), Some(0o700), Some(1), Some(2), None).unwrap();
    assert_eq!((attr.ino, attr.perm, attr.uid, attr.gid), (1, 0o700, 1, 2));
    assert_eq!(fs.getattr(InodeId::root()), Ok(attr));
    assert_eq!(fs.lookup(InodeId::root(), b"a").unwrap().ino, a.ino);
}

#[test]
fn rename_cases() {
    let mut fs = fresh();
    let d = ino(fs.mkdir(InodeId::root(), b"d", 0o755, UID, GID).unwrap());
    let e = ino(fs.mkdir(InodeId::root(), b"e", 0o755, UID, GID).unwrap());
    let f = ino(fs.mknod(d, b"f", 0o644, UID, GID).unwrap());
    fs.write(f, 0, b"content").unwrap();
    assert_eq!(fs.rename(d, b"f", e, b"f"), Err(FsError::NotImplemented));
    assert_eq!(fs.rename(d, b"nope", d, b"g"), Err(FsError::NotFound));
    assert_eq!(fs.rename(d, b"nope", e, b"g"), Err(FsError::NotFound));
    assert_eq!(fs.rename(d, b"f", d, b""), Err(FsError::Other));
    assert_eq!(fs.rename(d, b"f", d, b"f"), Ok(()));
    assert_eq!(fs.lookup(d, b"f").unwrap().ino, f.get());
    assert_eq!(fs.rename(d, b"f", d, b"a much longer name than one record holds"), Ok(()));
    assert_eq!(fs.lookup(d, b"f"), Err(FsError::NotFound));
    let g = fs.lookup(d, b"a much longer name than one record holds").unwrap();
    // the inode is the same, and so is the content
    assert_eq!(g.ino, f.get());
    assert_eq!(fs.read(f, 0, 7), Ok(b"content".to_vec()));
}

#[test]
fn unlink_and_rmdir() {
    let mut fs = fresh();
    let d = ino(fs.mkdir(InodeId::root(), b"d", 0o755, UID, GID).unwrap());
    let f = ino(fs.mknod(d, b"f", 0o644, UID, GID).unwrap());
    let g = ino(fs.mknod(d, b"g", 0o644, UID, GID).unwrap());
    let h = ino(fs.mknod(InodeId::root(), b"h", 0o644, UID, GID).unwrap());
    assert_eq!(fs.unlink(d, b"none"), Err(FsError::NotFound));
    fs.unlink(d, b"f").unwrap();
    assert_eq!(fs.lookup(d, b"f"), Err(FsError::NotFound));
    assert_eq!(fs.getattr(f), Err(FsError::NotFound));
    assert_eq!(fs.lookup(d, b"g").unwrap().ino, g.get());
    assert_eq!(names(&mut fs, d), vec![".", "..", "g"]);
    // a directory goes with what is in it
    fs.rmdir(InodeId::root(), b"d").unwrap();
    assert_eq!(fs.lookup(InodeId::root(), b"d"), Err(FsError::NotFound));
    assert_eq!(fs.getattr(d), Err(FsError::NotFound));
    assert_eq!(fs.getattr(g), Err(FsError::NotFound));
    assert_eq!(fs.lookup(InodeId::root(), b"h").unwrap().ino, h.get());
    fs.unlink(InodeId::root(), b"h").unwrap();
    assert_eq!(names(&mut fs, InodeId::root()), vec!["."]);
    // and the tree can be used again
    let again = fs.mkdir(InodeId::root(), b"d", 0o755, UID, GID).unwrap();
    assert_eq!(fs.lookup(InodeId::root(), b"d").unwrap().ino, again.ino);
}

#[test]
fn the_root_cannot_be_deleted() {
    let mut fs = fresh();
    fs.begin_tx().unwrap();
    assert_eq!(fs.delete_inode(InodeId::root()), Err(FsError::NotImplemented));
    assert_eq!(fs.delete_inode(InodeId::new(12)), Err(FsError::NotFound));
}

#[test]
fn clone_inode_copies_the_path_to_the_root() {
    let mut fs = fresh();
    let d = ino(fs.mkdir(InodeId::root(), b"d", 0o755, UID, GID).unwrap());
    let f = ino(fs.mknod(d, b"f", 0o644, UID, GID).unwrap());
    let before_root = fs.objects().get_header().unwrap().root;
    let before_len = fs.objects().len().unwrap();
    fs.begin_tx().unwrap();
    let copy = fs.clone_inode(f).unwrap();
    assert!(copy.get() >= before_len);
    fs.commit_tx().unwrap();
    let root = fs.objects().get_header().unwrap().root;
    assert_ne!(root, before_root);
    // one copy each for f, d and the root
    assert_eq!(fs.objects().len().unwrap(), before_len + 3);
    assert_eq!(fs.lookup(d, b"f").unwrap().ino, f.get());
    // without a transaction nothing can be allocated
    assert_eq!(fs.clone_inode(f), Err(FsError::Other));
    assert_eq!(fs.alter(Alter::clone(InodeId::new(40))), Err(FsError::NotFound));
}

#[test]
fn append_refuses_a_header() {
    let mut fs = fresh();
    fs.begin_tx().unwrap();
    let root = fs.clone_inode(InodeId::root()).unwrap();
    let header = fs.objects().get_header().unwrap();
    assert_eq!(fs.append(root, Object::Header(header)), Err(FsError::Corrupt));
    assert_eq!(fs.append(ObjectId::new(2), Object::Empty), Err(FsError::Corrupt));
}

#[test]
fn find_reports_what_it_runs_into() {
    let mut fs = fresh();
    fs.mknod(InodeId::root(), b"a", 0o644, UID, GID).unwrap();
    let b = fs.mknod(InodeId::root(), b"b", 0o644, UID, GID).unwrap();
    let (iid, entry) = fs.find(InodeId::root(), b"b").unwrap();
    assert_eq!(iid, ino(b));
    assert_eq!(entry.kind, FileKind::RegularFile);
    assert_eq!(fs.find(InodeId::root(), b"c").err(), Some(FsError::NotFound));
}

#[test]
fn fixed_container_runs_out_of_space() {
    let image = cmds::create(UID, GID).unwrap().into_storage().to_bytes();
    let objects = Objects::new(Storage::open(&image, false).unwrap());
    let mut fs = mount(objects);
    assert_eq!(fs.mkdir(InodeId::root(), b"a", 0o755, UID, GID), Err(FsError::OutOfSpace));
    assert_eq!(fs.getattr(InodeId::root()).unwrap().ino, 1);
}

#[test]
fn churn_is_collected_every_250_commits() {
    let mut fs = fresh();
    let f = ino(fs.mknod(InodeId::root(), b"f", 0o644, UID, GID).unwrap());
    for round in 0..260u32 {
        fs.write(f, 0, &round.to_be_bytes()).unwrap();
    }
    let settled = fs.objects().len().unwrap();
    for round in 0..1000u32 {
        fs.write(f, 0, &round.to_be_bytes()).unwrap();
        assert_eq!(fs.read(f, 0, 4), Ok(round.to_be_bytes().to_vec()));
    }
    // what 250 writes leave behind is reused by the next 250
    assert!(fs.objects().len().unwrap() <= settled + 3 * 250);
    let objects = fs.into_objects();
    let mut fs = mount(objects);
    let f = ino(fs.lookup(InodeId::root(), b"f").unwrap());
    assert_eq!(fs.read(f, 0, 4), Ok(999u32.to_be_bytes().to_vec()));
}
