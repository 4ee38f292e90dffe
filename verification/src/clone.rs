use crate::object::{CloneObj, HeaderObj, Object};
use crate::object_id::ObjectId;
use crate::objects::{lemma_text_of_encoded, text_of, Objects};
use crate::result::FsError;
use crate::storage::Store;
use vstd::prelude::*;

verus! {

/// What `str::trim` makes of `s`.
pub uninterp spec fn trimmed(s: Seq<char>) -> Seq<char>;

/// A named alternate root as a value.
pub struct CloneView {
    pub oid: ObjectId,
    pub name: Seq<char>,
    pub root: ObjectId,
    pub is_writable: bool,
}

/// A named alternate root: where its object is, its name, its root
/// directory, and whether it can be written to.
#[derive(Clone, Debug)]
pub struct Clone {
    pub oid: ObjectId,
    pub name: String,
    pub root: ObjectId,
    pub is_writable: bool,
}

impl View for Clone {
    type V = CloneView;

    open spec fn view(&self) -> CloneView {
        CloneView { oid: self.oid, name: self.name@, root: self.root, is_writable: self.is_writable }
    }
}

/// The clones as values.
pub open spec fn clone_views(clones: Seq<Clone>) -> Seq<CloneView> {
    Seq::new(clones.len(), |i: int| clones[i]@)
}

/// `found` followed by what the rest of the list gives.
pub open spec fn prepend_clones(found: Seq<CloneView>, rest: Result<Seq<CloneView>, FsError>) -> Result<
    Seq<CloneView>,
    FsError,
> {
    match rest {
        Ok(rest) => Ok(found + rest),
        Err(e) => Err(e),
    }
}

/// The first position at or behind `from` of a clone named `name`.
pub open spec fn clone_named(clones: Seq<CloneView>, name: Seq<char>, from: int) -> Option<int>
    decreases clones.len() - from,
{
    if from < 0 || from >= clones.len() {
        None
    } else if clones[from].name == name {
        Some(from)
    } else {
        clone_named(clones, name, from + 1)
    }
}

/// The clone objects that a deletion keeps, each with the slot of its copy,
/// after the first `n` of them have been linked into a list and written.
pub open spec fn write_kept(store: Store, kept: Seq<(CloneObj, ObjectId)>, n: nat) -> Result<
    Store,
    FsError,
>
    decreases n,
{
    if n == 0 {
        Ok(store)
    } else {
        match write_kept(store, kept, (n - 1) as nat) {
            Ok(store) => store.set(
                kept[n - 1].1,
                Object::Clone(
                    CloneObj {
                        next: if (n as int) < kept.len() {
                            Some(kept[n as int].1)
                        } else {
                            None
                        },
                        ..kept[n - 1].0
                    },
                ),
            ),
            Err(e) => Err(e),
        }
    }
}

/// `found` followed by what the rest of the walk keeps.
pub open spec fn prepend_kept(
    found: Seq<(CloneObj, ObjectId)>,
    rest: Result<(Store, Seq<(CloneObj, ObjectId)>), FsError>,
) -> Result<(Store, Seq<(CloneObj, ObjectId)>), FsError> {
    match rest {
        Ok((store, rest)) => Ok((store, found + rest)),
        Err(e) => Err(e),
    }
}

impl Store {
    /// The clones on the list from `cursor` on, in list order, walked for
    /// at most `fuel` clones. A slot on the list that holds no clone, and a
    /// list longer than `fuel`, are corrupt.
    pub open spec fn clone_list(self, cursor: Option<ObjectId>, fuel: nat) -> Result<
        Seq<CloneView>,
        FsError,
    >
        decreases fuel,
    {
        match cursor {
            None => Ok(Seq::empty()),
            Some(oid) => if fuel == 0 {
                Err(FsError::Corrupt)
            } else {
                match self.get(oid) {
                    Ok(Object::Clone(obj)) => match self.payload(obj.name) {
                        Ok(bytes) => prepend_clones(
                            seq![
                                CloneView {
                                    oid,
                                    name: text_of(bytes),
                                    root: obj.root,
                                    is_writable: obj.is_writable,
                                },
                            ],
                            self.clone_list(obj.next, (fuel - 1) as nat),
                        ),
                        Err(e) => Err(e),
                    },
                    Ok(_) => Err(FsError::Corrupt),
                    Err(e) => Err(e),
                }
            },
        }
    }

    /// All clones, oldest first: the header's list, which has the newest
    /// clone first, reversed.
    pub open spec fn clones(self) -> Result<Seq<CloneView>, FsError> {
        match self.header() {
            Ok(header) => match self.clone_list(header.clone, self.len()) {
                Ok(list) => Ok(list.reverse()),
                Err(e) => Err(e),
            },
            Err(e) => Err(e),
        }
    }

    /// The oldest clone whose name is `name` without the whitespace around it.
    pub open spec fn find_clone(self, name: Seq<char>) -> Result<CloneView, FsError> {
        match self.clones() {
            Ok(all) => match clone_named(all, trimmed(name), 0) {
                Some(i) => Ok(all[i]),
                None => Err(FsError::NotFound),
            },
            Err(e) => Err(e),
        }
    }

    /// The container with a new clone of the main tree as it is now, named
    /// `name` without the whitespace around it, at the head of the header's
    /// list. A name that a clone already has is refused as corrupt, one
    /// that is empty after trimming fails.
    pub open spec fn create_clone(self, name: Seq<char>, is_writable: bool) -> Result<Store, FsError> {
        match self.clones() {
            Ok(all) => if clone_named(all, trimmed(name), 0).is_some() {
                Err(FsError::Corrupt)
            } else {
                match self.header() {
                    Ok(header) => match self.alloc_payload(
                        false,
                        None,
                        vstd::utf8::encode_utf8(trimmed(name)),
                    ) {
                        Ok((store, _, Some(name))) => match store.alloc_new(
                            Object::Clone(
                                CloneObj { name, root: header.root, is_writable, next: header.clone },
                            ),
                        ) {
                            Ok((store, oid)) => store.set_header(
                                HeaderObj { clone: Some(oid), ..header },
                            ),
                            Err(e) => Err(e),
                        },
                        Ok((_, _, None)) => Err(FsError::Other),
                        Err(e) => Err(e),
                    },
                    Err(e) => Err(e),
                }
            },
            Err(e) => Err(e),
        }
    }

    /// The container after a copy has been appended for every clone object
    /// on the list from `cursor` on but the one at `target`, and the objects
    /// kept, each with the slot of its copy, in list order.
    pub open spec fn copy_kept(self, cursor: Option<ObjectId>, target: ObjectId, fuel: nat) -> Result<
        (Store, Seq<(CloneObj, ObjectId)>),
        FsError,
    >
        decreases fuel,
    {
        match cursor {
            None => Ok((self, Seq::empty())),
            Some(oid) => if fuel == 0 {
                Err(FsError::Corrupt)
            } else {
                match self.get(oid) {
                    Ok(Object::Clone(obj)) => if oid != target {
                        match self.alloc_new(Object::Clone(obj)) {
                            Ok((store, new_oid)) => prepend_kept(
                                seq![(obj, new_oid)],
                                store.copy_kept(obj.next, target, (fuel - 1) as nat),
                            ),
                            Err(e) => Err(e),
                        }
                    } else {
                        self.copy_kept(obj.next, target, (fuel - 1) as nat)
                    },
                    Ok(_) => Err(FsError::Corrupt),
                    Err(e) => Err(e),
                }
            },
        }
    }

    /// The container without the oldest clone named `name`: the header's
    /// list is rebuilt from copies of the other clone objects, in their
    /// order.
    pub open spec fn delete_clone(self, name: Seq<char>) -> Result<Store, FsError> {
        match self.header() {
            Ok(header) => match self.find_clone(name) {
                Ok(found) => match self.copy_kept(header.clone, found.oid, self.len()) {
                    Ok((store, kept)) => match write_kept(store, kept, kept.len()) {
                        Ok(store) => store.set_header(
                            HeaderObj {
                                clone: if kept.len() > 0 {
                                    Some(kept[0].1)
                                } else {
                                    None
                                },
                                ..header
                            },
                        ),
                        Err(e) => Err(e),
                    },
                    Err(e) => Err(e),
                },
                Err(e) => Err(e),
            },
            Err(e) => Err(e),
        }
    }
}

/// Where no clone from `from` on has the name, none of them has it.
pub proof fn lemma_clone_named_none(clones: Seq<CloneView>, name: Seq<char>, from: int)
    requires
        0 <= from,
        clone_named(clones, name, from).is_none(),
    ensures
        forall|i: int| from <= i < clones.len() ==> (#[trigger] clones[i]).name != name,
    decreases clones.len() - from,
{
    if from < clones.len() {
        lemma_clone_named_none(clones, name, from + 1);
    }
}

/// Where no clone has the name, a clone of that name that is added last is
/// the one that is found.
pub proof fn lemma_clone_named_pushed(clones: Seq<CloneView>, new: CloneView, from: int)
    requires
        0 <= from <= clones.len(),
        clone_named(clones, new.name, from).is_none(),
    ensures
        clone_named(clones.push(new), new.name, from) == Some(clones.len() as int),
    decreases clones.len() - from,
{
    if from < clones.len() {
        lemma_clone_named_pushed(clones, new, from + 1);
    }
}

impl Store {
    /// A clone list reads the same, with as much fuel or more, in a
    /// container that has kept every slot of this one but the header's.
    pub proof fn lemma_clone_list_frame(
        self,
        other: Store,
        cursor: Option<ObjectId>,
        fuel: nat,
        more: nat,
    )
        requires
            self.clone_list(cursor, fuel).is_ok(),
            fuel <= more,
            self.len() <= other.len(),
            forall|i: int| 1 <= i < self.len() ==> #[trigger] other.slots[i] == self.slots[i],
        ensures
            other.clone_list(cursor, more) == self.clone_list(cursor, fuel),
        decreases fuel,
    {
        match cursor {
            Some(oid) => {
                match self.get(oid) {
                    Ok(Object::Clone(obj)) => {
                        assert(other.slots[oid.0 as int] == self.slots[oid.0 as int]);
                        self.lemma_payload_from_frame(other, obj.name, self.len());
                        other.lemma_payload_from_more_fuel(obj.name, self.len(), other.len());
                        self.lemma_clone_list_frame(
                            other,
                            obj.next,
                            (fuel - 1) as nat,
                            (more - 1) as nat,
                        );
                    },
                    _ => {},
                }
            },
            None => {},
        }
    }

    /// Clone names are unique and clones are listed in the order of their
    /// creation. Where a clone is created, the clones listed afterwards are
    /// those listed before, in their order, followed by the new one, which
    /// has the trimmed name, the root of the main tree, and is writable as
    /// asked; looking for the name finds the new clone; and creating a clone
    /// of that name again is refused.
    pub proof fn lemma_create_clone(self, name: Seq<char>, is_writable: bool)
        requires
            self.wf(),
            self.create_clone(name, is_writable).is_ok(),
        ensures
            ({
                let after = self.create_clone(name, is_writable).unwrap();
                &&& self.clones() matches Ok(before) && after.clones() matches Ok(now) && {
                    &&& now.len() == before.len() + 1
                    &&& now.subrange(0, before.len() as int) == before
                    &&& now.last().name == trimmed(name)
                    &&& now.last().is_writable == is_writable
                    &&& self.header() matches Ok(header) && now.last().root == header.root
                    &&& after.find_clone(name) == Ok::<CloneView, FsError>(now.last())
                }
                &&& forall|again: bool| #[trigger]
                    after.create_clone(name, again) == Err::<Store, FsError>(FsError::Corrupt)
            }),
    {
        let text = trimmed(name);
        let bytes = vstd::utf8::encode_utf8(text);
        let header = self.header().unwrap();
        let list = self.clone_list(header.clone, self.len()).unwrap();
        let before = self.clones().unwrap();
        let (named, _, first) = self.alloc_payload(false, None, bytes).unwrap();
        let name_oid = first.unwrap();
        self.lemma_alloc_payload_round_trip(false, None, bytes);
        self.lemma_alloc_chunks_appends(None, bytes, 0);
        let obj = CloneObj { name: name_oid, root: header.root, is_writable, next: header.clone };
        let (added, oid) = named.alloc_new(Object::Clone(obj)).unwrap();
        let new_header = HeaderObj { clone: Some(oid), ..header };
        let after = added.set_header(new_header).unwrap();
        Object::lemma_decode_wf(self.slots[0]);
        Object::Header(new_header).lemma_decode_encode();
        Object::Clone(obj).lemma_decode_encode();
        assert(after.header() == Ok::<HeaderObj, FsError>(new_header));
        assert(after.get(oid) == Ok::<Object, FsError>(Object::Clone(obj)));
        named.lemma_payload_from_frame(after, name_oid, named.len());
        after.lemma_payload_from_more_fuel(name_oid, named.len(), after.len());
        assert(after.payload(name_oid) == Ok::<Seq<u8>, FsError>(bytes));
        lemma_text_of_encoded(text);
        self.lemma_clone_list_frame(after, header.clone, self.len(), (after.len() - 1) as nat);
        let new = CloneView { oid, name: text, root: header.root, is_writable };
        assert(after.clone_list(Some(oid), after.len()) == Ok::<Seq<CloneView>, FsError>(
            seq![new] + list,
        ));
        let now = after.clones().unwrap();
        assert(now =~= before.push(new));
        assert(now.subrange(0, before.len() as int) =~= before);
        lemma_clone_named_pushed(before, new, 0);
    }
}

/// A failure to write a kept clone is a failure for every longer run.
pub proof fn lemma_write_kept_err(store: Store, kept: Seq<(CloneObj, ObjectId)>, n: nat, m: nat)
    requires
        n <= m,
        write_kept(store, kept, n).is_err(),
    ensures
        write_kept(store, kept, m) == write_kept(store, kept, n),
    decreases m - n,
{
    if n < m {
        lemma_write_kept_err(store, kept, n, (m - 1) as nat);
    }
}

/// `str::trim`: the text without the whitespace at its start and end.
#[verifier::external_body]
fn trim(name: &str) -> (r: String)
    ensures
        r@ == trimmed(name@),
{
    name.trim().to_owned()
}

/// Creates, deletes and lists the named alternate roots of a container.
#[derive(Debug)]
pub struct CloneController<'a> {
    pub objects: &'a mut Objects,
}

impl<'a> CloneController<'a> {
    pub fn new(objects: &'a mut Objects) -> (r: Self)
        ensures
            *r.objects == *old(objects),
            *final(r.objects) == *final(objects),
    {
        Self { objects }
    }

    pub fn create(&mut self, name: &str, is_writable: bool) -> (r: Result<(), FsError>)
        requires
            old(self).objects.wf(),
        ensures
            final(self).objects.wf(),
            old(self).objects@.single_header() ==> final(self).objects@.single_header(),
            *final(final(self).objects) == *final(old(self).objects),
            match r {
                Ok(_) => old(self).objects@.create_clone(name@, is_writable) == Ok::<Store, FsError>(
                    final(self).objects@,
                ),
                Err(e) => old(self).objects@.create_clone(name@, is_writable) == Err::<
                    Store,
                    FsError,
                >(e),
            },
    {
        let name = trim(name);
        let all = self.all()?;
        if position_of(&all, &name).is_some() {
            return Err(FsError::Corrupt);
        }
        let header = self.objects.get_header()?;
        let name_oid = match self.objects.alloc_payload(None, name.as_str().as_bytes())? {
            Some(oid) => oid,
            None => {
                return Err(FsError::Other);
            },
        };
        let clone = self.objects.allocate(
            None,
            Object::Clone(
                CloneObj { name: name_oid, root: header.root, is_writable, next: header.clone },
            ),
        )?;
        self.objects.set_header(
            HeaderObj { root: header.root, clone: Some(clone), dead: header.dead },
        )?;
        Ok(())
    }

    pub fn delete(&mut self, name: &str) -> (r: Result<(), FsError>)
        requires
            old(self).objects.wf(),
        ensures
            final(self).objects.wf(),
            old(self).objects@.single_header() ==> final(self).objects@.single_header(),
            *final(final(self).objects) == *final(old(self).objects),
            match r {
                Ok(_) => old(self).objects@.delete_clone(name@) == Ok::<Store, FsError>(
                    final(self).objects@,
                ),
                Err(e) => old(self).objects@.delete_clone(name@) == Err::<Store, FsError>(e),
            },
    {
        let header = self.objects.get_header()?;
        let oid_to_delete = self.find(name)?.oid;
        let kept = self.copy_kept(header.clone, oid_to_delete)?;
        self.write_kept(&kept)?;
        let first = if kept.len() > 0 {
            Some(kept[0].1)
        } else {
            None
        };
        self.objects.set_header(HeaderObj { root: header.root, clone: first, dead: header.dead })?;
        Ok(())
    }

    /// Appends a copy of every clone object on the list but the one to
    /// delete.
    fn copy_kept(&mut self, head: Option<ObjectId>, target: ObjectId) -> (r: Result<
        Vec<(CloneObj, ObjectId)>,
        FsError,
    >)
        requires
            old(self).objects.wf(),
        ensures
            final(self).objects.wf(),
            old(self).objects@.single_header() ==> final(self).objects@.single_header(),
            *final(final(self).objects) == *final(old(self).objects),
            match r {
                Ok(kept) => old(self).objects@.copy_kept(head, target, old(self).objects@.len())
                    == Ok::<(Store, Seq<(CloneObj, ObjectId)>), FsError>(
                    (final(self).objects@, kept@),
                ),
                Err(e) => old(self).objects@.copy_kept(head, target, old(self).objects@.len())
                    matches Err(e2) && e2 == e,
            },
    {
        let mut kept: Vec<(CloneObj, ObjectId)> = Vec::new();
        let mut cursor = head;
        let mut fuel = self.objects.len()?;
        proof {
            self.objects.lemma_wf();
            match self.objects@.copy_kept(cursor, target, fuel as nat) {
                Ok((_, rest)) => assert(kept@ + rest =~= rest),
                Err(_) => {},
            }
        }
        while cursor.is_some()
            invariant
                self.objects.wf(),
                old(self).objects@.single_header() ==> self.objects@.single_header(),
                *final(self.objects) == *final(old(self).objects),
                prepend_kept(kept@, self.objects@.copy_kept(cursor, target, fuel as nat))
                    == old(self).objects@.copy_kept(head, target, old(self).objects@.len()),
            decreases fuel,
        {
            let oid = cursor.unwrap();
            if fuel == 0 {
                return Err(FsError::Corrupt);
            }
            let obj = self.objects.get(oid)?.into_clone(oid)?;
            if oid.0 != target.0 {
                let ghost found = kept@;
                let new_oid = self.objects.allocate(None, Object::Clone(obj))?;
                kept.push((obj, new_oid));
                proof {
                    match self.objects@.copy_kept(obj.next, target, (fuel - 1) as nat) {
                        Ok((_, rest)) => assert(found + (seq![(obj, new_oid)] + rest) =~= kept@
                            + rest),
                        Err(_) => {},
                    }
                }
            }
            cursor = obj.next;
            fuel -= 1;
        }
        assert(kept@ + Seq::<(CloneObj, ObjectId)>::empty() =~= kept@);
        Ok(kept)
    }

    /// Links the kept clone objects into a list and writes them.
    fn write_kept(&mut self, kept: &Vec<(CloneObj, ObjectId)>) -> (r: Result<(), FsError>)
        requires
            old(self).objects.wf(),
        ensures
            final(self).objects.wf(),
            old(self).objects@.single_header() ==> final(self).objects@.single_header(),
            *final(final(self).objects) == *final(old(self).objects),
            match r {
                Ok(_) => write_kept(old(self).objects@, kept@, kept@.len()) == Ok::<Store, FsError>(
                    final(self).objects@,
                ),
                Err(e) => write_kept(old(self).objects@, kept@, kept@.len()) == Err::<
                    Store,
                    FsError,
                >(e),
            },
    {
        let mut i: usize = 0;
        while i < kept.len()
            invariant
                self.objects.wf(),
                old(self).objects@.single_header() ==> self.objects@.single_header(),
                *final(self.objects) == *final(old(self).objects),
                i <= kept@.len(),
                write_kept(old(self).objects@, kept@, i as nat) == Ok::<Store, FsError>(
                    self.objects@,
                ),
            decreases kept@.len() - i,
        {
            let next = if i + 1 < kept.len() {
                Some(kept[i + 1].1)
            } else {
                None
            };
            let (curr, oid) = kept[i];
            let done = self.objects.set(
                oid,
                Object::Clone(
                    CloneObj {
                        name: curr.name,
                        root: curr.root,
                        is_writable: curr.is_writable,
                        next,
                    },
                ),
            );
            match done {
                Ok(_) => {},
                Err(e) => {
                    proof {
                        lemma_write_kept_err(
                            old(self).objects@,
                            kept@,
                            (i + 1) as nat,
                            kept@.len(),
                        );
                    }
                    return Err(e);
                },
            }
            i += 1;
        }
        Ok(())
    }

    pub fn find(&mut self, name: &str) -> (r: Result<Clone, FsError>)
        requires
            old(self).objects.wf(),
        ensures
            final(self).objects.wf(),
            *final(self).objects == *old(self).objects,
            *final(final(self).objects) == *final(old(self).objects),
            match r {
                Ok(clone) => old(self).objects@.find_clone(name@) == Ok::<CloneView, FsError>(
                    clone@,
                ),
                Err(e) => old(self).objects@.find_clone(name@) == Err::<CloneView, FsError>(e),
            },
    {
        let name = trim(name);
        let all = self.all()?;
        match position_of(&all, &name) {
            Some(i) => {
                let found = &all[i];
                Ok(
                    Clone {
                        oid: found.oid,
                        name: found.name.clone(),
                        root: found.root,
                        is_writable: found.is_writable,
                    },
                )
            },
            None => Err(FsError::NotFound),
        }
    }

    pub fn all(&mut self) -> (r: Result<Vec<Clone>, FsError>)
        requires
            old(self).objects.wf(),
        ensures
            final(self).objects.wf(),
            *final(self).objects == *old(self).objects,
            *final(final(self).objects) == *final(old(self).objects),
            match r {
                Ok(clones) => old(self).objects@.clones() == Ok::<Seq<CloneView>, FsError>(
                    clone_views(clones@),
                ),
                Err(e) => old(self).objects@.clones() == Err::<Seq<CloneView>, FsError>(e),
            },
    {
        let mut listed = list_clones(self.objects)?;
        let ghost list = clone_views(listed@);
        let mut clones: Vec<Clone> = Vec::new();
        while listed.len() > 0
            invariant
                clone_views(listed@) + clone_views(clones@).reverse() == list,
            decreases listed@.len(),
        {
            let ghost before = listed@;
            let ghost done = clones@;
            let clone = listed.pop().unwrap();
            clones.push(clone);
            assert(clone_views(listed@) + clone_views(clones@).reverse() =~= clone_views(before)
                + clone_views(done).reverse());
        }
        assert(clone_views(clones@) =~= list.reverse());
        Ok(clones)
    }
}

/// The position of the oldest clone named `name`.
fn position_of(clones: &Vec<Clone>, name: &String) -> (r: Option<usize>)
    ensures
        match r {
            Some(i) => clone_named(clone_views(clones@), name@, 0) == Some(i as int) && i
                < clones@.len(),
            None => clone_named(clone_views(clones@), name@, 0).is_none(),
        },
{
    let mut i: usize = 0;
    while i < clones.len()
        invariant
            i <= clones@.len(),
            clone_named(clone_views(clones@), name@, 0) == clone_named(
                clone_views(clones@),
                name@,
                i as int,
            ),
        decreases clones@.len() - i,
    {
        if clones[i].name == *name {
            return Some(i);
        }
        i += 1;
    }
    None
}

/// The clones on the header's list, in list order.
fn list_clones(objects: &Objects) -> (r: Result<Vec<Clone>, FsError>)
    requires
        objects.wf(),
    ensures
        match objects@.header() {
            Ok(header) => match objects@.clone_list(header.clone, objects@.len()) {
                Ok(list) => r matches Ok(clones) && clone_views(clones@) == list,
                Err(e) => r matches Err(e2) && e2 == e,
            },
            Err(e) => r matches Err(e2) && e2 == e,
        },
{
    let mut clones: Vec<Clone> = Vec::new();
    let mut cursor = objects.get_header()?.clone;
    let mut fuel = objects.len()?;
    let ghost head = cursor;
    proof {
        objects.lemma_wf();
        match objects@.clone_list(cursor, fuel as nat) {
            Ok(rest) => assert(clone_views(clones@) + rest =~= rest),
            Err(_) => {},
        }
    }
    while cursor.is_some()
        invariant
            objects.wf(),
            objects@.header() matches Ok(header) && header.clone == head,
            prepend_clones(clone_views(clones@), objects@.clone_list(cursor, fuel as nat))
                == objects@.clone_list(head, objects@.len()),
        decreases fuel,
    {
        let oid = cursor.unwrap();
        if fuel == 0 {
            return Err(FsError::Corrupt);
        }
        let obj = objects.get(oid)?.into_clone(oid)?;
        let name = objects.get_string(obj.name)?;
        let ghost found = clone_views(clones@);
        let clone = Clone { oid, name, root: obj.root, is_writable: obj.is_writable };
        let ghost line = clone@;
        clones.push(clone);
        proof {
            assert(clone_views(clones@) =~= found.push(line));
            match objects@.clone_list(obj.next, (fuel - 1) as nat) {
                Ok(rest) => assert(found + (seq![line] + rest) =~= found.push(line) + rest),
                Err(_) => {},
            }
        }
        cursor = obj.next;
        fuel -= 1;
    }
    assert(clone_views(clones@) + Seq::<CloneView>::empty() =~= clone_views(clones@));
    Ok(clones)
}

} // verus!
