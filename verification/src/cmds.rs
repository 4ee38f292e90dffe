use crate::clone::CloneController;
use crate::filesystem::FilesystemOrigin;
use crate::object::{EntryObj, FileKind, HeaderObj, Object, PayloadObj};
use crate::object_id::ObjectId;
use crate::objects::Objects;
use crate::result::FsError;
use crate::storage::{Storage, Store};
use vstd::prelude::*;

verus! {

/// The three objects of a new container: the header, the root directory,
/// which belongs to `uid` and `gid` and is open to all, and its name `/`.
pub open spec fn preset(uid: u32, gid: u32) -> Seq<Object> {
    seq![
        Object::Header(HeaderObj { root: ObjectId(1), dead: None, clone: None }),
        Object::Entry(
            EntryObj {
                name: ObjectId(2),
                body: None,
                next: None,
                kind: FileKind::Directory,
                size: 0,
                mode: 0o777,
                uid,
                gid,
            },
        ),
        Object::Payload(PayloadObj::new_spec(seq![0x2f_u8])),
    ]
}

/// A new container that may grow and holds an empty root directory.
pub fn create(uid: u32, gid: u32) -> (r: Result<Objects, FsError>)
    ensures
        r matches Ok(objects) && objects.wf() && objects@ == (Store {
            slots: Seq::new(3, |i: int| preset(uid, gid)[i].encode_spec()),
            can_grow: true,
        }),
{
    let mut objects = Objects::new(Storage::create());
    let mut name: Vec<u8> = Vec::new();
    name.push(0x2f);
    assert(name@ =~= seq![0x2f_u8]);
    objects.allocate(
        None,
        Object::Header(HeaderObj { root: ObjectId::new(1), dead: None, clone: None }),
    )?;
    objects.allocate(
        None,
        Object::Entry(
            EntryObj {
                name: ObjectId::new(2),
                body: None,
                next: None,
                kind: FileKind::Directory,
                size: 0,
                mode: 0o777,
                uid,
                gid,
            },
        ),
    )?;
    objects.allocate(None, Object::payload(name.as_slice()))?;
    assert(objects@.slots =~= Seq::new(3, |i: int| preset(uid, gid)[i].encode_spec()));
    Ok(objects)
}

/// The origin that a mount works on: the main tree, or the clone of the
/// given name; writable unless the mount is read-only or the clone is.
pub open spec fn origin_spec(store: Store, clone: Option<Seq<char>>, read_only: bool) -> Result<
    FilesystemOrigin,
    FsError,
> {
    match clone {
        Some(name) => match store.find_clone(name) {
            Ok(found) => Ok(
                FilesystemOrigin::Clone {
                    oid: found.oid,
                    is_writable: found.is_writable && !read_only,
                },
            ),
            Err(e) => Err(e),
        },
        None => Ok(FilesystemOrigin::Main { is_writable: !read_only }),
    }
}

/// Picks the origin for a mount: see `origin_spec`.
pub fn origin(objects: &mut Objects, clone: Option<&str>, read_only: bool) -> (r: Result<
    FilesystemOrigin,
    FsError,
>)
    requires
        old(objects).wf(),
    ensures
        final(objects).wf(),
        final(objects)@ == old(objects)@,
        r == origin_spec(old(objects)@, match clone {
            Some(name) => Some(name@),
            None => None,
        }, read_only),
{
    match clone {
        Some(name) => {
            let mut controller = CloneController::new(objects);
            let found = controller.find(name)?;
            Ok(FilesystemOrigin::Clone { oid: found.oid, is_writable: found.is_writable && !read_only })
        },
        None => Ok(FilesystemOrigin::Main { is_writable: !read_only }),
    }
}

} // verus!
