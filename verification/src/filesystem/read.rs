use crate::filesystem::{Filesystem, FsState};
use crate::inode_id::InodeId;
use crate::object::Object;
use crate::result::FsError;
use vstd::prelude::*;

verus! {

/// Where a window of `size` bytes at `offset` starts in `len` bytes: at
/// `offset`, but not before the first byte nor behind the last.
pub open spec fn window_start(len: nat, offset: i64) -> int {
    if offset < 0 {
        0
    } else if offset > len {
        len as int
    } else {
        offset as int
    }
}

/// Where that window ends: `size` bytes on, but not behind the last byte.
pub open spec fn window_end(len: nat, offset: i64, size: u32) -> int {
    if window_start(len, offset) + size > len {
        len as int
    } else {
        window_start(len, offset) + size
    }
}

/// The bytes of `data` in the window of `size` bytes at `offset`.
pub open spec fn window(data: Seq<u8>, offset: i64, size: u32) -> Seq<u8> {
    data.subrange(window_start(data.len(), offset), window_end(data.len(), offset, size))
}

impl FsState {
    /// The content of the file behind inode `iid`: the bytes of its payload
    /// chain, none for a file without one.
    pub open spec fn content(self, iid: InodeId) -> Result<Seq<u8>, FsError> {
        match self.inodes.resolve_object(iid) {
            Ok(oid) => match self.store.get(oid) {
                Ok(Object::Entry(obj)) => match obj.body {
                    Some(body) => self.store.payload(body),
                    None => Ok(Seq::empty()),
                },
                Ok(_) => Err(FsError::Corrupt),
                Err(e) => Err(e),
            },
            Err(_) => Err(FsError::NotFound),
        }
    }

    /// The bytes of the file behind `iid` in the window of `size` bytes at
    /// `offset`.
    pub open spec fn read(self, iid: InodeId, offset: i64, size: u32) -> Result<Seq<u8>, FsError> {
        match self.content(iid) {
            Ok(data) => Ok(window(data, offset, size)),
            Err(e) => Err(e),
        }
    }
}

impl Filesystem {
    pub fn read(&self, iid: InodeId, offset: i64, size: u32) -> (r: Result<Vec<u8>, FsError>)
        requires
            self.wf(),
        ensures
            match r {
                Ok(bytes) => self@.read(iid, offset, size) == Ok::<Seq<u8>, FsError>(bytes@),
                Err(e) => self@.read(iid, offset, size) == Err::<Seq<u8>, FsError>(e),
            },
    {
        let oid = match self.inodes.resolve_object(iid) {
            Ok(oid) => oid,
            Err(_) => {
                return Err(FsError::NotFound);
            },
        };
        let obj = self.objects.get(oid)?.into_entry(oid)?;
        if let Some(body) = obj.body {
            let data = self.objects.get_payload(body)?;
            let len = data.len();
            let start: usize = if offset < 0 {
                0
            } else if offset as u64 > len as u64 {
                len
            } else {
                offset as usize
            };
            let end: usize = if size as u64 > (len - start) as u64 {
                len
            } else {
                start + size as usize
            };
            let mut out: Vec<u8> = Vec::new();
            let mut i: usize = start;
            while i < end
                invariant
                    start <= i <= end <= data@.len(),
                    out@ == data@.subrange(start as int, i as int),
                decreases end - i,
            {
                out.push(data[i]);
                assert(out@ =~= data@.subrange(start as int, i + 1));
                i += 1;
            }
            Ok(out)
        } else {
            let out: Vec<u8> = Vec::new();
            assert(out@ =~= window(Seq::<u8>::empty(), offset, size));
            Ok(out)
        }
    }
}

} // verus!
