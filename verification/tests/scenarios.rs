use ofs::cmds;
use ofs::{
    CloneController, Collector, Filesystem, FilesystemOrigin, FileKind, FsError, InodeId, Object,
    ObjectId, Objects, Storage,
};

const UID: u32 = 1000;
const GID: u32 = 100;

fn main_rw() -> FilesystemOrigin {
    FilesystemOrigin::Main { is_writable: true }
}

fn ino(attr: ofs::Attr) -> InodeId {
    InodeId::new(attr.ino)
}

/// A container with `/a` (mode 0o755) and `/a/f` (mode 0o644) holding "hello".
fn s1() -> Objects {
    let objects = cmds::create(UID, GID).unwrap();
    let mut fs = Filesystem::new(objects, main_rw()).unwrap();
    let a = fs.mkdir(InodeId::root(), b"a", 0o755, UID, GID).unwrap();
    let f = fs.mknod(ino(a), b"f", 0o644, UID, GID).unwrap();
    fs.write(ino(f), 0, b"hello").unwrap();
    fs.into_objects()
}

fn lookup_path(fs: &mut Filesystem, path: &[&[u8]]) -> Result<ofs::Attr, FsError> {
    let mut attr = fs.getattr(InodeId::root())?;
    for name in path {
        attr = fs.lookup(ino(attr), name)?;
    }
    Ok(attr)
}

#[test]
fn create_and_write() {
    let objects = cmds::create(UID, GID).unwrap();
    let mut fs = Filesystem::new(objects, main_rw()).unwrap();
    let a = fs.mkdir(InodeId::root(), b"a", 0o755, UID, GID).unwrap();
    assert_eq!(a.kind, FileKind::Directory);
    assert_eq!(a.perm, 0o755);
    let f = fs.mknod(ino(a), b"f", 0o644, UID, GID).unwrap();
    assert_eq!(f.kind, FileKind::RegularFile);
    assert_eq!(f.perm, 0o644);
    assert_eq!(f.size, 0);
    fs.write(ino(f), 0, b"hello").unwrap();
    assert_eq!(fs.read(ino(f), 0, 5).unwrap(), b"hello".to_vec());
    let attr = fs.getattr(ino(f)).unwrap();
    assert_eq!(attr.size, 5);
    assert_eq!(attr.ino, f.ino);
    assert_eq!(attr.uid, UID);
    assert_eq!(attr.gid, GID);
    assert_eq!(attr.nlink, 1);
    assert_eq!(attr.blksize, 512);
    assert_eq!(attr.blocks, 0);
}

#[test]
fn snapshot_read() {
    let mut objects = s1();
    CloneController::new(&mut objects).create("snap", false).unwrap();

    let origin = cmds::origin(&mut objects, Some("snap"), false).unwrap();
    assert!(matches!(origin, FilesystemOrigin::Clone { is_writable: false, .. }));
    let mut clone = Filesystem::new(objects, origin).unwrap();
    let f = lookup_path(&mut clone, &[b"a", b"f"]).unwrap();
    assert_eq!(clone.read(ino(f), 0, 5).unwrap(), b"hello".to_vec());
    let objects = clone.into_objects();

    let mut main = Filesystem::new(objects, main_rw()).unwrap();
    let f = lookup_path(&mut main, &[b"a", b"f"]).unwrap();
    main.write(ino(f), 0, b"hello world!").unwrap();
    assert_eq!(main.read(ino(f), 0, 12).unwrap(), b"hello world!".to_vec());
    let mut objects = main.into_objects();

    let origin = cmds::origin(&mut objects, Some("snap"), false).unwrap();
    let mut clone = Filesystem::new(objects, origin).unwrap();
    let f = lookup_path(&mut clone, &[b"a", b"f"]).unwrap();
    assert_eq!(f.size, 5);
    assert_eq!(clone.read(ino(f), 0, 12).unwrap(), b"hello".to_vec());
}

#[test]
fn delete_and_collect() {
    let objects = s1();
    let mut fs = Filesystem::new(objects, main_rw()).unwrap();
    let a = lookup_path(&mut fs, &[b"a"]).unwrap();
    fs.unlink(ino(a), b"f").unwrap();
    assert_eq!(fs.lookup(ino(a), b"f"), Err(FsError::NotFound));
    let mut objects = fs.into_objects();

    Collector::new(&mut objects).run().unwrap();
    let before = objects.len().unwrap();

    let mut fs = Filesystem::new(objects, main_rw()).unwrap();
    let a = lookup_path(&mut fs, &[b"a"]).unwrap();
    let g = fs.mknod(ino(a), b"g", 0o644, UID, GID).unwrap();
    fs.write(ino(g), 0, b"x").unwrap();
    assert_eq!(fs.read(ino(g), 0, 1).unwrap(), b"x".to_vec());
    assert_eq!(fs.objects().len().unwrap(), before);
}

#[test]
fn rename_same_dir() {
    let objects = s1();
    let mut fs = Filesystem::new(objects, main_rw()).unwrap();
    let a = lookup_path(&mut fs, &[b"a"]).unwrap();
    fs.rename(ino(a), b"f", ino(a), b"g").unwrap();
    assert_eq!(fs.lookup(ino(a), b"f"), Err(FsError::NotFound));
    let g = fs.lookup(ino(a), b"g").unwrap();
    assert_eq!(fs.read(ino(g), 0, 5).unwrap(), b"hello".to_vec());
}

#[test]
fn readonly_guard() {
    let objects = s1();
    let origin = FilesystemOrigin::Main { is_writable: false };
    let mut fs = Filesystem::new(objects, origin).unwrap();
    let a = lookup_path(&mut fs, &[b"a"]).unwrap();
    let f = lookup_path(&mut fs, &[b"a", b"f"]).unwrap();
    assert_eq!(fs.mknod(ino(a), b"x", 0o644, UID, GID), Err(FsError::ReadOnly));
    assert_eq!(fs.mkdir(ino(a), b"x", 0o755, UID, GID), Err(FsError::ReadOnly));
    assert_eq!(fs.unlink(ino(a), b"f"), Err(FsError::ReadOnly));
    assert_eq!(fs.rmdir(InodeId::root(), b"a"), Err(FsError::ReadOnly));
    assert_eq!(fs.rename(ino(a), b"f", ino(a), b"g"), Err(FsError::ReadOnly));
    assert_eq!(fs.write(ino(f), 0, b"x"), Err(FsError::ReadOnly));
    assert_eq!(fs.setattr(ino(f), Some(0o600), None, None, None), Err(FsError::ReadOnly));
    assert_eq!(fs.read(ino(f), 0, 5).unwrap(), b"hello".to_vec());
}

#[test]
fn corrupt_detect() {
    let objects = cmds::create(UID, GID).unwrap();
    let mut bytes = objects.into_storage().to_bytes();
    for b in &mut bytes[32..64] {
        *b = 0;
    }
    let objects = Objects::new(Storage::open(&bytes, true).unwrap());
    assert_eq!(objects.get(ObjectId::new(1)).map(|o| matches!(o, Object::Empty)), Ok(true));
    let mounted = Filesystem::new(objects, main_rw());
    assert_eq!(mounted.err(), Some(FsError::Corrupt));
}

#[test]
fn corrupt_detect_after_use() {
    let mut objects = s1();
    let root = objects.get_header().unwrap().root.get();
    let mut bytes = objects.into_storage().to_bytes();
    let at = root as usize * 32;
    for b in &mut bytes[at..at + 32] {
        *b = 0;
    }
    objects = Objects::new(Storage::open(&bytes, true).unwrap());
    let mounted = Filesystem::new(objects, main_rw());
    assert_eq!(mounted.err(), Some(FsError::Corrupt));
}
