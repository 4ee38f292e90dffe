use crate::filesystem::{refines, Filesystem, FsState};
use crate::inode_id::InodeId;
use crate::object::{EntryObj, Object};
use crate::result::FsError;
use vstd::prelude::*;

verus! {

/// A file of `size` bytes that holds `data` from `offset` on and elsewhere
/// what `old` held, zeros where `old` held nothing.
pub open spec fn overwritten(old: Seq<u8>, size: nat, offset: nat, data: Seq<u8>) -> Seq<u8> {
    Seq::new(
        size,
        |i: int|
            if offset <= i < offset + data.len() {
                data[i - offset]
            } else if i < old.len() {
                old[i]
            } else {
                0u8
            },
    )
}

/// The size of a file of `size` bytes after `len` bytes were written at `offset`.
pub open spec fn grown_size(size: u32, offset: i64, len: nat) -> int {
    if offset + len > size {
        offset + len
    } else {
        size as int
    }
}

impl FsState {
    /// The state after `data` has been written into the file behind `iid`
    /// at `offset`. The file's entry is copied, its whole content stored
    /// anew with the written bytes in place, and its size grows to hold
    /// them. A write before the first byte or beyond what 32 bits can count
    /// fails.
    pub open spec fn write(self, iid: InodeId, offset: i64, data: Seq<u8>) -> Result<
        (FsState, ()),
        FsError,
    > {
        if !self.origin.is_writable() {
            Err(FsError::ReadOnly)
        } else {
            match self.begin_tx() {
                Ok(state) => match state.clone_inode(iid) {
                    Ok((state, new_oid)) => match state.store.get(new_oid) {
                        Ok(Object::Entry(obj)) => match (match obj.body {
                            Some(body) => state.store.payload(body),
                            None => Ok(Seq::empty()),
                        }) {
                            Ok(old) => if offset < 0 || offset + data.len() > u32::MAX {
                                Err(FsError::Other)
                            } else {
                                let size = grown_size(obj.size, offset, data.len());
                                match state.store.alloc_payload(
                                    true,
                                    state.tx,
                                    overwritten(old, size as nat, offset as nat, data),
                                ) {
                                    Ok((store, tx, body)) => match store.set(
                                        new_oid,
                                        Object::Entry(EntryObj { body, size: size as u32, ..obj }),
                                    ) {
                                        Ok(store) => match (FsState {
                                            store,
                                            tx,
                                            ..state
                                        }).commit_tx() {
                                            Ok(state) => Ok((state, ())),
                                            Err(e) => Err(e),
                                        },
                                        Err(e) => Err(e),
                                    },
                                    Err(e) => Err(e),
                                }
                            },
                            Err(e) => Err(e),
                        },
                        Ok(_) => Err(FsError::Corrupt),
                        Err(e) => Err(e),
                    },
                    Err(e) => Err(e),
                },
                Err(e) => Err(e),
            }
        }
    }
}

/// The content of a file after a write: see `overwritten`.
fn overwrite(old: &Vec<u8>, size: usize, offset: usize, data: &[u8]) -> (r: Vec<u8>)
    requires
        offset + data@.len() <= size,
    ensures
        r@ == overwritten(old@, size as nat, offset as nat, data@),
{
    let mut out: Vec<u8> = Vec::new();
    let mut i: usize = 0;
    while i < size
        invariant
            i <= size,
            offset + data@.len() <= size,
            out@.len() == i,
            forall|j: int|
                0 <= j < i ==> out@[j] == overwritten(old@, size as nat, offset as nat, data@)[j],
        decreases size - i,
    {
        let b = if offset <= i && i - offset < data.len() {
            data[i - offset]
        } else if i < old.len() {
            old[i]
        } else {
            0
        };
        out.push(b);
        i += 1;
    }
    assert(out@ =~= overwritten(old@, size as nat, offset as nat, data@));
    out
}

impl Filesystem {
    pub fn write(&mut self, iid: InodeId, offset: i64, incoming: &[u8]) -> (r: Result<(), FsError>)
        requires
            old(self).wf(),
        ensures
            final(self).wf(),
            !old(self)@.origin.is_writable() ==> final(self)@ == old(self)@,
            refines(r, final(self)@, old(self)@.write(iid, offset, incoming@)),
    {
        if !self.origin.is_writable() {
            return Err(FsError::ReadOnly);
        }
        self.begin_tx()?;
        let new_oid = self.clone_inode(iid)?;
        let obj = self.objects.get(new_oid)?.into_entry(new_oid)?;
        let data = if let Some(body) = obj.body {
            self.objects.get_payload(body)?
        } else {
            Vec::new()
        };
        if offset < 0 || incoming.len() as u64 > 0xffff_ffff || offset as u64 > 0xffff_ffff
            - incoming.len() as u64 {
            return Err(FsError::Other);
        }
        let end = offset as u64 + incoming.len() as u64;
        let size: u32 = if end > obj.size as u64 {
            end as u32
        } else {
            obj.size
        };
        let content = overwrite(&data, size as usize, offset as usize, incoming);
        let body = self.objects.alloc_payload(Some(&mut self.tx), content.as_slice())?;
        self.objects.set(
            new_oid,
            Object::Entry(
                EntryObj {
                    name: obj.name,
                    body,
                    next: obj.next,
                    kind: obj.kind,
                    size,
                    mode: obj.mode,
                    uid: obj.uid,
                    gid: obj.gid,
                },
            ),
        )?;
        self.commit_tx()?;
        Ok(())
    }
}

} // verus!
