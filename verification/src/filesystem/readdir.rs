use crate::filesystem::{Filesystem, FsState};
use crate::inode_id::InodeId;
use crate::object::{FileKind, Object};
use crate::objects::text_of;
use crate::result::FsError;
use vstd::prelude::*;

verus! {

/// One line of a directory listing, before it is numbered: inode, kind, name.
pub type Listed = (InodeId, FileKind, Seq<char>);

/// One line of a directory listing: cookie, inode, kind, name.
pub type Numbered = (i64, InodeId, FileKind, Seq<char>);

/// The lines that stand before a directory's children: `.` for the
/// directory itself, then `..` for its parent where that is another inode.
pub open spec fn dots(iid: InodeId, parent: InodeId) -> Seq<Listed> {
    if parent != iid {
        seq![(iid, FileKind::Directory, "."@), (parent, FileKind::Directory, ".."@)]
    } else {
        seq![(iid, FileKind::Directory, "."@)]
    }
}

/// The lines with cookies that count up from `first`.
pub open spec fn numbered(lines: Seq<Listed>, first: int) -> Seq<Numbered> {
    Seq::new(lines.len(), |j: int| ((first + j) as i64, lines[j].0, lines[j].1, lines[j].2))
}

/// `found` followed by what the rest of the listing gives.
pub open spec fn prepend_listed(found: Seq<Listed>, rest: Result<Seq<Listed>, FsError>) -> Result<
    Seq<Listed>,
    FsError,
> {
    match rest {
        Ok(rest) => Ok(found + rest),
        Err(e) => Err(e),
    }
}

/// What a listing returns as values: each line with its name as text.
pub open spec fn lines_of(entries: Seq<(i64, InodeId, FileKind, String)>) -> Seq<Numbered> {
    Seq::new(entries.len(), |j: int| (entries[j].0, entries[j].1, entries[j].2, entries[j].3@))
}

impl FsState {
    /// The lines for `children` from position `from` on: of each child its
    /// inode, the kind of its entry and its name as text.
    pub open spec fn names_from(self, children: Seq<InodeId>, from: int) -> Result<
        Seq<Listed>,
        FsError,
    >
        decreases children.len() - from,
    {
        if from < 0 || from >= children.len() {
            Ok(Seq::empty())
        } else {
            match self.inodes.resolve_object(children[from]) {
                Ok(oid) => match self.store.get(oid) {
                    Ok(Object::Entry(obj)) => match self.store.payload(obj.name) {
                        Ok(bytes) => prepend_listed(
                            seq![(children[from], obj.kind, text_of(bytes))],
                            self.names_from(children, from + 1),
                        ),
                        Err(e) => Err(e),
                    },
                    Ok(_) => Err(FsError::Corrupt),
                    Err(e) => Err(e),
                },
                Err(e) => Err(e),
            }
        }
    }

    /// The listing of the directory behind `iid` from position `offset` on,
    /// and the state with the directory's children resolved. The whole
    /// listing holds `.`, then `..` where the parent is another inode, then
    /// the children in their order; a line's cookie is its position in the
    /// whole listing, counted from 1, so that a listing can be resumed at
    /// the last cookie it returned. Children before `offset` are not read.
    /// A negative offset lists nothing; a directory with more lines than a
    /// cookie can count fails.
    pub open spec fn readdir(self, iid: InodeId, offset: i64) -> Result<
        (FsState, Seq<Numbered>),
        FsError,
    > {
        match self.inodes.resolve_parent(iid) {
            Ok(parent) => match self.inodes.resolve_children(self.store, iid) {
                Ok((inodes, children)) => {
                    let state = FsState { inodes, ..self };
                    let head = dots(iid, parent);
                    if children.len() > i64::MAX - 2 {
                        Err(FsError::Other)
                    } else if offset < 0 {
                        Ok((state, Seq::empty()))
                    } else {
                        let skipped = if offset < head.len() {
                            offset as int
                        } else {
                            head.len() as int
                        };
                        let from = offset - skipped;
                        match state.names_from(children, from) {
                            Ok(names) => Ok(
                                (
                                    state,
                                    numbered(head.subrange(skipped, head.len() as int), skipped + 1)
                                        + numbered(names, head.len() + from + 1),
                                ),
                            ),
                            Err(e) => Err(e),
                        }
                    }
                },
                Err(e) => Err(e),
            },
            Err(e) => Err(e),
        }
    }
}

impl FsState {
    /// A listing of children from `from` on has one line for each of them.
    pub proof fn lemma_names_from_len(self, children: Seq<InodeId>, from: int)
        requires
            0 <= from,
            self.names_from(children, from).is_ok(),
        ensures
            self.names_from(children, from).unwrap().len() == if from < children.len() {
                children.len() - from
            } else {
                0
            },
        decreases children.len() - from,
    {
        if from < children.len() {
            self.lemma_names_from_len(children, from + 1);
        }
    }

    /// A listing of children from a later position on is the rest of the
    /// listing from an earlier one.
    pub proof fn lemma_names_from_suffix(self, children: Seq<InodeId>, from: int, k: int)
        requires
            0 <= from <= k,
            self.names_from(children, from).is_ok(),
        ensures
            self.names_from(children, k) == Ok::<Seq<Listed>, FsError>(
                if k <= children.len() {
                    self.names_from(children, from).unwrap().subrange(
                        k - from,
                        children.len() - from,
                    )
                } else {
                    Seq::empty()
                },
            ),
        decreases k - from,
    {
        self.lemma_names_from_len(children, from);
        let names = self.names_from(children, from).unwrap();
        if k > children.len() {
        } else if from == k {
            assert(names.subrange(0, children.len() - from) =~= names);
        } else {
            self.lemma_names_from_suffix(children, from + 1, k);
            let rest = self.names_from(children, from + 1).unwrap();
            self.lemma_names_from_len(children, from + 1);
            assert(rest.subrange(k - from - 1, children.len() - from - 1) =~= names.subrange(
                k - from,
                children.len() - from,
            ));
        }
    }

    /// A listing can be resumed. In a valid state, where the whole listing
    /// of a directory succeeds, its lines carry the cookies 1, 2, 3, ...;
    /// and listing again from any offset, in the state that the first
    /// listing left, gives exactly the lines behind that offset, no line
    /// twice and none left out, and leaves the state as it is.
    pub proof fn lemma_readdir_resume(self, iid: InodeId, offset: i64)
        requires
            self.inodes.wf(),
            self.readdir(iid, 0).is_ok(),
            0 <= offset,
        ensures
            ({
                let (state, all) = self.readdir(iid, 0).unwrap();
                &&& forall|j: int| 0 <= j < all.len() ==> (#[trigger] all[j]).0 == j + 1
                &&& state.readdir(iid, offset) == Ok::<(FsState, Seq<Numbered>), FsError>(
                    (
                        state,
                        if offset <= all.len() {
                            all.subrange(offset as int, all.len() as int)
                        } else {
                            Seq::empty()
                        },
                    ),
                )
            }),
    {
        let parent = self.inodes.resolve_parent(iid).unwrap();
        let (inodes, children) = self.inodes.resolve_children(self.store, iid).unwrap();
        let (state, all) = self.readdir(iid, 0).unwrap();
        let head = dots(iid, parent);
        let h = head.len() as int;
        let names = state.names_from(children, 0).unwrap();
        self.inodes.lemma_resolve_children(self.store, iid);
        state.lemma_names_from_len(children, 0);
        assert(head.subrange(0, h) =~= head);
        assert(all == numbered(head, 1) + numbered(names, h + 1));
        assert(all.len() == h + children.len());
        assert(state.inodes.resolve_parent(iid) == Ok::<InodeId, FsError>(parent));
        let skipped = if offset < h {
            offset as int
        } else {
            h
        };
        let from = offset - skipped;
        state.lemma_names_from_suffix(children, 0, from);
        let rest = state.names_from(children, from).unwrap();
        let page = numbered(head.subrange(skipped, h), skipped + 1) + numbered(rest, h + from + 1);
        assert(state.readdir(iid, offset) == Ok::<(FsState, Seq<Numbered>), FsError>((state, page)));
        if offset <= all.len() {
            assert(page =~= all.subrange(offset as int, all.len() as int));
        } else {
            assert(page =~= Seq::<Numbered>::empty());
        }
    }
}

/// The text of a string literal, owned.
fn owned(s: &str) -> (r: String)
    ensures
        r@ == s@,
{
    s.to_owned()
}

/// The lines that stand before the children, without the first `skipped`.
fn head_lines(iid: InodeId, parent_iid: InodeId, skipped: i64) -> (r: Vec<
    (i64, InodeId, FileKind, String),
>)
    requires
        0 <= skipped <= dots(iid, parent_iid).len(),
    ensures
        lines_of(r@) == numbered(
            dots(iid, parent_iid).subrange(skipped as int, dots(iid, parent_iid).len() as int),
            skipped + 1,
        ),
{
    let mut entries: Vec<(i64, InodeId, FileKind, String)> = Vec::new();
    if skipped == 0 {
        entries.push((1, iid, FileKind::Directory, owned(".")));
    }
    if skipped <= 1 && parent_iid.0 != iid.0 {
        entries.push((2, parent_iid, FileKind::Directory, owned("..")));
    }
    assert(lines_of(entries@) =~= numbered(
        dots(iid, parent_iid).subrange(skipped as int, dots(iid, parent_iid).len() as int),
        skipped + 1,
    ));
    entries
}

impl Filesystem {
    /// The lines for `children` from position `from` on, with cookies that
    /// count up from `first`.
    fn list_children(&self, children: &Vec<InodeId>, from: usize, first: i64) -> (r: Result<
        Vec<(i64, InodeId, FileKind, String)>,
        FsError,
    >)
        requires
            self.wf(),
            from <= children@.len(),
            0 <= first,
            first + (children@.len() - from) <= i64::MAX + 1,
        ensures
            match r {
                Ok(entries) => self@.names_from(children@, from as int) matches Ok(names)
                    && lines_of(entries@) == numbered(names, first as int),
                Err(e) => self@.names_from(children@, from as int) matches Err(e2) && e2 == e,
            },
    {
        let mut entries: Vec<(i64, InodeId, FileKind, String)> = Vec::new();
        let mut i: usize = from;
        let ghost mut names: Seq<Listed> = Seq::empty();
        proof {
            match self@.names_from(children@, from as int) {
                Ok(r) => assert(names + r =~= r),
                Err(_) => {},
            }
            assert(lines_of(entries@) =~= numbered(names, first as int));
        }
        while i < children.len()
            invariant
                self.wf(),
                from <= i <= children@.len(),
                0 <= first,
                first + (children@.len() - from) <= i64::MAX + 1,
                names.len() == i - from,
                prepend_listed(names, self@.names_from(children@, i as int)) == self@.names_from(
                    children@,
                    from as int,
                ),
                lines_of(entries@) == numbered(names, first as int),
            decreases children@.len() - i,
        {
            let child = children[i];
            let oid = self.inodes.resolve_object(child)?;
            let obj = self.objects.get(oid)?.into_entry(oid)?;
            let kind = obj.kind;
            let name = self.objects.get_string(obj.name)?;
            let cookie: i64 = first + ((i - from) as i64);
            let ghost line = (child, kind, name@);
            let ghost before = entries@;
            proof {
                match self@.names_from(children@, i + 1) {
                    Ok(r) => assert(names + (seq![line] + r) =~= names.push(line) + r),
                    Err(_) => {},
                }
            }
            entries.push((cookie, child, kind, name));
            proof {
                assert(lines_of(entries@) =~= lines_of(before).push((cookie, line.0, line.1, line.2)));
                assert(numbered(names.push(line), first as int) =~= numbered(
                    names,
                    first as int,
                ).push((cookie, line.0, line.1, line.2)));
                names = names.push(line);
            }
            i += 1;
        }
        proof {
            assert(names + Seq::<Listed>::empty() =~= names);
        }
        Ok(entries)
    }

    pub fn readdir(&mut self, iid: InodeId, offset: i64) -> (r: Result<
        Vec<(i64, InodeId, FileKind, String)>,
        FsError,
    >)
        requires
            old(self).wf(),
        ensures
            final(self).wf(),
            match r {
                Ok(entries) => old(self)@.readdir(iid, offset) == Ok::<
                    (FsState, Seq<Numbered>),
                    FsError,
                >((final(self)@, lines_of(entries@))),
                Err(e) => old(self)@.readdir(iid, offset) matches Err(e2) && e2 == e,
            },
    {
        let parent_iid = self.inodes.resolve_parent(iid)?;
        let children = self.inodes.resolve_children(&self.objects, iid)?;
        if children.len() as u64 > 0x7fff_ffff_ffff_fffd {
            return Err(FsError::Other);
        }
        if offset < 0 {
            let none: Vec<(i64, InodeId, FileKind, String)> = Vec::new();
            assert(lines_of(none@) =~= Seq::<Numbered>::empty());
            return Ok(none);
        }
        let heads: i64 = if parent_iid.0 != iid.0 {
            2
        } else {
            1
        };
        let skipped: i64 = if offset < heads {
            offset
        } else {
            heads
        };
        let mut entries = head_lines(iid, parent_iid, skipped);
        let from: u64 = (offset - skipped) as u64;
        let mut more = if from >= children.len() as u64 {
            let none: Vec<(i64, InodeId, FileKind, String)> = Vec::new();
            assert(lines_of(none@) =~= numbered(Seq::<Listed>::empty(), heads + from + 1));
            none
        } else {
            self.list_children(&children, from as usize, heads + (from as i64) + 1)?
        };
        let ghost first = lines_of(entries@);
        let ghost second = lines_of(more@);
        entries.append(&mut more);
        assert(lines_of(entries@) =~= first + second);
        Ok(entries)
    }
}

} // verus!
