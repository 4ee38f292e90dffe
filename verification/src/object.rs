use crate::object_id::ObjectId;
use crate::object_rw::{
    be16, be32, byte_kind, kind_byte, lemma_be16_round_trip, lemma_be32_round_trip, oid_word, pad32,
    u16_at, u32_at, word_oid, ObjectReader, ObjectWriter,
};
use crate::result::FsError;
use vstd::prelude::*;

verus! {

/// Whether an entry is a directory or a regular file.
#[derive(Clone, Copy, Debug, PartialEq, Eq, Structural)]
pub enum FileKind {
    Directory,
    RegularFile,
}

/// What a 32-byte slot of the container holds.
#[derive(Clone, Copy, Debug)]
pub enum Object {
    Empty,
    Header(HeaderObj),
    Clone(CloneObj),
    Entry(EntryObj),
    Payload(PayloadObj),
    Dead(DeadObj),
}

#[derive(Clone, Copy, Debug)]
pub struct HeaderObj {
    /// Points at the [`EntryObj`] of the root directory
    pub root: ObjectId,
    /// Points at the first [`CloneObj`]
    pub clone: Option<ObjectId>,
    /// Points at the first [`DeadObj`]
    pub dead: Option<ObjectId>,
}

#[derive(Clone, Copy, Debug)]
pub struct CloneObj {
    /// Points at the [`PayloadObj`] that holds the clone's name
    pub name: ObjectId,
    /// Points at the [`EntryObj`] of the clone's root directory
    pub root: ObjectId,
    /// Whether the clone can be written to, or is a snapshot
    pub is_writable: bool,
    /// Points at the next [`CloneObj`] of the list
    pub next: Option<ObjectId>,
}

/// File or directory
#[derive(Clone, Copy, Debug)]
pub struct EntryObj {
    /// Points at the [`PayloadObj`] that holds the entry's name
    pub name: ObjectId,
    /// Points at the first child [`EntryObj`] of a directory, or at the first
    /// [`PayloadObj`] of a file's content
    pub body: Option<ObjectId>,
    /// Points at the next [`EntryObj`] of the directory that holds this one
    pub next: Option<ObjectId>,
    pub kind: FileKind,
    pub size: u32,
    pub mode: u16,
    pub uid: u32,
    pub gid: u32,
}

/// String or binary data
#[derive(Clone, Copy, Debug)]
pub struct PayloadObj {
    pub size: u8,
    pub next: Option<ObjectId>,
    pub data: [u8; 26],
}

/// A collected slot, kept on the free list for the allocator to reuse
#[derive(Clone, Copy, Debug)]
pub struct DeadObj {
    pub next: Option<ObjectId>,
}

/// An array of 26 bytes whose first `n` bytes are those of `s`.
pub open spec fn payload_array_upto(s: Seq<u8>, n: nat) -> [u8; 26]
    decreases n,
{
    if n == 0 {
        vstd::array::spec_array_fill_for_copy_type(0u8)
    } else {
        vstd::array::spec_array_update(payload_array_upto(s, (n - 1) as nat), n - 1, s[n - 1])
    }
}

/// The array of 26 bytes whose content is `s`.
pub open spec fn payload_array(s: Seq<u8>) -> [u8; 26] {
    payload_array_upto(s, 26)
}

proof fn lemma_payload_array_upto(s: Seq<u8>, n: nat)
    requires
        n <= 26,
    ensures
        forall|j: int| 0 <= j < n ==> payload_array_upto(s, n)@[j] == s[j],
    decreases n,
{
    if n > 0 {
        lemma_payload_array_upto(s, (n - 1) as nat);
    }
}

/// An array of 26 bytes is the array of its content.
pub proof fn lemma_payload_array(s: Seq<u8>)
    requires
        s.len() == 26,
    ensures
        payload_array(s)@ == s,
        forall|a: [u8; 26]| a@ == s ==> a == payload_array(s),
{
    lemma_payload_array_upto(s, 26);
    assert(payload_array(s)@ =~= s);
    assert forall|a: [u8; 26]| a@ == s implies a == payload_array(s) by {
        assert(a =~= payload_array(s));
    }
}

/// An optional pointer that its word can tell from none: it does not point at slot 0.
pub open spec fn ptr_wf(p: Option<ObjectId>) -> bool {
    p != Some(ObjectId(0))
}

impl Object {
    pub const SIZE: usize = 32;

    pub const TY_EMPTY: u8 = 0;

    pub const TY_HEADER: u8 = 1;

    pub const TY_CLONE: u8 = 2;

    pub const TY_ENTRY: u8 = 3;

    pub const TY_FILE: u8 = 4;

    pub const TY_PAYLOAD: u8 = 5;

    pub const TY_DEAD: u8 = 6;

    pub const PAYLOAD_LEN: usize = 26;

    /// No optional pointer of the object points at slot 0, so that each
    /// survives a round trip through its word.
    pub open spec fn wf(self) -> bool {
        match self {
            Object::Empty => true,
            Object::Header(o) => ptr_wf(o.dead) && ptr_wf(o.clone),
            Object::Clone(o) => ptr_wf(o.next),
            Object::Entry(o) => ptr_wf(o.body) && ptr_wf(o.next),
            Object::Payload(o) => ptr_wf(o.next),
            Object::Dead(o) => ptr_wf(o.next),
        }
    }

    /// The tag and fields of the object in slot order, without the padding.
    pub open spec fn fields_spec(self) -> Seq<u8> {
        match self {
            Object::Empty => Seq::empty(),
            Object::Header(o) => seq![1u8] + be32(o.root.0) + be32(oid_word(o.dead)) + be32(
                oid_word(o.clone),
            ),
            Object::Clone(o) => seq![2u8] + be32(o.name.0) + be32(o.root.0) + seq![
                if o.is_writable {
                    1u8
                } else {
                    0u8
                },
            ] + be32(oid_word(o.next)),
            Object::Entry(o) => seq![3u8] + be32(o.name.0) + be32(oid_word(o.body)) + be32(
                oid_word(o.next),
            ) + seq![kind_byte(o.kind)] + be32(o.size) + be16(o.mode) + be32(o.uid) + be32(o.gid),
            Object::Payload(o) => seq![5u8, o.size] + be32(oid_word(o.next)) + o.data@,
            Object::Dead(o) => seq![6u8] + be32(oid_word(o.next)),
        }
    }

    /// The 32 bytes that the object is stored as.
    pub open spec fn encode_spec(self) -> Seq<u8> {
        pad32(self.fields_spec())
    }

    /// The object that 32 bytes stand for, by their first byte; an unknown
    /// first byte is corrupt.
    pub open spec fn decode_spec(b: Seq<u8>) -> Result<Object, FsError> {
        if b[0] == 0 {
            Ok(Object::Empty)
        } else if b[0] == 1 {
            Ok(
                Object::Header(
                    HeaderObj {
                        root: ObjectId(u32_at(b, 1)),
                        dead: word_oid(u32_at(b, 5)),
                        clone: word_oid(u32_at(b, 9)),
                    },
                ),
            )
        } else if b[0] == 2 {
            Ok(
                Object::Clone(
                    CloneObj {
                        name: ObjectId(u32_at(b, 1)),
                        root: ObjectId(u32_at(b, 5)),
                        is_writable: b[9] == 1,
                        next: word_oid(u32_at(b, 10)),
                    },
                ),
            )
        } else if b[0] == 3 {
            Ok(
                Object::Entry(
                    EntryObj {
                        name: ObjectId(u32_at(b, 1)),
                        body: word_oid(u32_at(b, 5)),
                        next: word_oid(u32_at(b, 9)),
                        kind: byte_kind(b[13]),
                        size: u32_at(b, 14),
                        mode: u16_at(b, 18),
                        uid: u32_at(b, 20),
                        gid: u32_at(b, 24),
                    },
                ),
            )
        } else if b[0] == 5 {
            Ok(
                Object::Payload(
                    PayloadObj {
                        size: b[1],
                        next: word_oid(u32_at(b, 2)),
                        data: payload_array(b.subrange(6, 32)),
                    },
                ),
            )
        } else if b[0] == 6 {
            Ok(Object::Dead(DeadObj { next: word_oid(u32_at(b, 1)) }))
        } else {
            Err(FsError::Corrupt)
        }
    }

    /// The byte that tells what a slot holds.
    pub open spec fn tag(self) -> u8 {
        match self {
            Object::Empty => 0,
            Object::Header(_) => 1,
            Object::Clone(_) => 2,
            Object::Entry(_) => 3,
            Object::Payload(_) => 5,
            Object::Dead(_) => 6,
        }
    }

    /// An object is stored with its tag in the first byte.
    pub proof fn lemma_encode_tag(self)
        ensures
            self.encode_spec().len() == 32,
            self.encode_spec()[0] == self.tag(),
    {
    }

    /// What is decoded from a slot has the tag that the slot's first byte is.
    pub proof fn lemma_decode_tag(b: Seq<u8>)
        ensures
            Object::decode_spec(b) matches Ok(obj) ==> obj.tag() == b[0],
    {
    }

    /// What is decoded from a slot has no optional pointer at slot 0.
    pub proof fn lemma_decode_wf(b: Seq<u8>)
        ensures
            Object::decode_spec(b) matches Ok(obj) ==> obj.wf(),
    {
    }

    /// Every object is stored as exactly 32 bytes.
    pub proof fn lemma_encode_len(self)
        ensures
            self.encode_spec().len() == 32,
    {
    }

    proof fn lemma_decode_encode_header(o: HeaderObj)
        requires
            Object::Header(o).wf(),
        ensures
            Object::decode_spec(Object::Header(o).encode_spec()) == Ok::<Object, FsError>(
                Object::Header(o),
            ),
    {
        let b = Object::Header(o).encode_spec();
        lemma_be32_round_trip(o.root.0);
        lemma_be32_round_trip(oid_word(o.dead));
        lemma_be32_round_trip(oid_word(o.clone));
        assert(b[0] == 1);
        assert(u32_at(b, 1) == u32_at(be32(o.root.0), 0));
        assert(u32_at(b, 5) == u32_at(be32(oid_word(o.dead)), 0));
        assert(u32_at(b, 9) == u32_at(be32(oid_word(o.clone)), 0));
    }

    proof fn lemma_decode_encode_clone(o: CloneObj)
        requires
            Object::Clone(o).wf(),
        ensures
            Object::decode_spec(Object::Clone(o).encode_spec()) == Ok::<Object, FsError>(
                Object::Clone(o),
            ),
    {
        let b = Object::Clone(o).encode_spec();
        lemma_be32_round_trip(o.name.0);
        lemma_be32_round_trip(o.root.0);
        lemma_be32_round_trip(oid_word(o.next));
        assert(b[0] == 2);
        assert(u32_at(b, 1) == u32_at(be32(o.name.0), 0));
        assert(u32_at(b, 5) == u32_at(be32(o.root.0), 0));
        assert(b[9] == if o.is_writable { 1u8 } else { 0u8 });
        assert(u32_at(b, 10) == u32_at(be32(oid_word(o.next)), 0));
    }

    #[verifier::rlimit(50)]
    proof fn lemma_decode_encode_entry(o: EntryObj)
        requires
            Object::Entry(o).wf(),
        ensures
            Object::decode_spec(Object::Entry(o).encode_spec()) == Ok::<Object, FsError>(
                Object::Entry(o),
            ),
    {
        let b = Object::Entry(o).encode_spec();
        lemma_be32_round_trip(o.name.0);
        lemma_be32_round_trip(oid_word(o.body));
        lemma_be32_round_trip(oid_word(o.next));
        lemma_be32_round_trip(o.size);
        lemma_be16_round_trip(o.mode);
        lemma_be32_round_trip(o.uid);
        lemma_be32_round_trip(o.gid);
        let f = seq![3u8] + be32(o.name.0) + be32(oid_word(o.body)) + be32(oid_word(o.next))
            + seq![kind_byte(o.kind)] + be32(o.size) + be16(o.mode) + be32(o.uid) + be32(o.gid);
        assert(f.len() == 28);
        assert(b =~= pad32(f));
        assert(b[0] == 3);
        assert(u32_at(b, 1) == u32_at(be32(o.name.0), 0));
        assert(u32_at(b, 5) == u32_at(be32(oid_word(o.body)), 0));
        assert(u32_at(b, 9) == u32_at(be32(oid_word(o.next)), 0));
        assert(b[13] == kind_byte(o.kind));
        assert(u32_at(b, 14) == u32_at(be32(o.size), 0));
        assert(u16_at(b, 18) == u16_at(be16(o.mode), 0));
        assert(u32_at(b, 20) == u32_at(be32(o.uid), 0));
        assert(u32_at(b, 24) == u32_at(be32(o.gid), 0));
    }

    proof fn lemma_decode_encode_payload(o: PayloadObj)
        requires
            Object::Payload(o).wf(),
        ensures
            Object::decode_spec(Object::Payload(o).encode_spec()) == Ok::<Object, FsError>(
                Object::Payload(o),
            ),
    {
        let b = Object::Payload(o).encode_spec();
        lemma_be32_round_trip(oid_word(o.next));
        assert(b[0] == 5);
        assert(b[1] == o.size);
        assert(u32_at(b, 2) == u32_at(be32(oid_word(o.next)), 0));
        assert(b.subrange(6, 32) =~= o.data@);
        lemma_payload_array(o.data@);
    }

    proof fn lemma_decode_encode_dead(o: DeadObj)
        requires
            Object::Dead(o).wf(),
        ensures
            Object::decode_spec(Object::Dead(o).encode_spec()) == Ok::<Object, FsError>(
                Object::Dead(o),
            ),
    {
        let b = Object::Dead(o).encode_spec();
        lemma_be32_round_trip(oid_word(o.next));
        assert(b[0] == 6);
        assert(u32_at(b, 1) == u32_at(be32(oid_word(o.next)), 0));
    }

    /// Decoding what an object was stored as gives the object back, for every
    /// object whose optional pointers do not point at slot 0.
    pub proof fn lemma_decode_encode(self)
        requires
            self.wf(),
        ensures
            Object::decode_spec(self.encode_spec()) == Ok::<Object, FsError>(self),
    {
        match self {
            Object::Empty => {},
            Object::Header(o) => Self::lemma_decode_encode_header(o),
            Object::Clone(o) => Self::lemma_decode_encode_clone(o),
            Object::Entry(o) => Self::lemma_decode_encode_entry(o),
            Object::Payload(o) => Self::lemma_decode_encode_payload(o),
            Object::Dead(o) => Self::lemma_decode_encode_dead(o),
        }
    }

    pub fn decode(obj: [u8; 32]) -> (r: Result<Self, FsError>)
        ensures
            r == Self::decode_spec(obj@),
    {
        let mut reader = ObjectReader::new(obj);
        let ty = reader.u8();
        if ty == Self::TY_EMPTY {
            Ok(Object::Empty)
        } else if ty == Self::TY_HEADER {
            let root = reader.oid();
            let dead = reader.oid_opt();
            let clone = reader.oid_opt();
            Ok(Object::Header(HeaderObj { root, dead, clone }))
        } else if ty == Self::TY_CLONE {
            let name = reader.oid();
            let root = reader.oid();
            let is_writable = reader.bool();
            let next = reader.oid_opt();
            Ok(Object::Clone(CloneObj { name, root, is_writable, next }))
        } else if ty == Self::TY_ENTRY {
            let name = reader.oid();
            let body = reader.oid_opt();
            let next = reader.oid_opt();
            let kind = reader.kind();
            let size = reader.u32();
            let mode = reader.u16();
            let uid = reader.u32();
            let gid = reader.u32();
            Ok(Object::Entry(EntryObj { name, body, next, kind, size, mode, uid, gid }))
        } else if ty == Self::TY_PAYLOAD {
            let size = reader.u8();
            let next = reader.oid_opt();
            let data: [u8; 26] = reader.rest();
            proof {
                lemma_payload_array(data@);
            }
            Ok(Object::Payload(PayloadObj { size, next, data }))
        } else if ty == Self::TY_DEAD {
            let next = reader.oid_opt();
            Ok(Object::Dead(DeadObj { next }))
        } else {
            Err(FsError::Corrupt)
        }
    }

    pub fn encode(self) -> (r: [u8; 32])
        ensures
            r@ == self.encode_spec(),
    {
        let mut writer = ObjectWriter::default();
        match self {
            Object::Empty => {},
            Object::Header(HeaderObj { root, dead, clone }) => {
                writer.u8(Self::TY_HEADER);
                writer.oid(root);
                writer.oid_opt(dead);
                writer.oid_opt(clone);
            },
            Object::Clone(CloneObj { root, name, is_writable, next }) => {
                writer.u8(Self::TY_CLONE);
                writer.oid(name);
                writer.oid(root);
                writer.bool(is_writable);
                writer.oid_opt(next);
            },
            Object::Entry(EntryObj { name, body, next, kind, size, mode, uid, gid }) => {
                writer.u8(Self::TY_ENTRY);
                writer.oid(name);
                writer.oid_opt(body);
                writer.oid_opt(next);
                writer.kind(kind);
                writer.u32(size);
                writer.u16(mode);
                writer.u32(uid);
                writer.u32(gid);
            },
            Object::Payload(PayloadObj { size, next, data }) => {
                writer.u8(Self::TY_PAYLOAD);
                writer.u8(size);
                writer.oid_opt(next);
                writer.rest(data.as_slice());
            },
            Object::Dead(DeadObj { next }) => {
                writer.u8(Self::TY_DEAD);
                writer.oid_opt(next);
            },
        }
        assert(writer@ =~= self.fields_spec());
        writer.finish()
    }

    pub fn into_header(self, oid: ObjectId) -> (r: Result<HeaderObj, FsError>)
        ensures
            r == (match self {
                Object::Header(obj) => Ok::<HeaderObj, FsError>(obj),
                _ => Err(FsError::Corrupt),
            }),
    {
        if let Object::Header(obj) = self {
            Ok(obj)
        } else {
            Err(FsError::Corrupt)
        }
    }

    pub fn into_clone(self, oid: ObjectId) -> (r: Result<CloneObj, FsError>)
        ensures
            r == (match self {
                Object::Clone(obj) => Ok::<CloneObj, FsError>(obj),
                _ => Err(FsError::Corrupt),
            }),
    {
        if let Object::Clone(obj) = self {
            Ok(obj)
        } else {
            Err(FsError::Corrupt)
        }
    }

    pub fn into_entry(self, oid: ObjectId) -> (r: Result<EntryObj, FsError>)
        ensures
            r == (match self {
                Object::Entry(obj) => Ok::<EntryObj, FsError>(obj),
                _ => Err(FsError::Corrupt),
            }),
    {
        if let Object::Entry(obj) = self {
            Ok(obj)
        } else {
            Err(FsError::Corrupt)
        }
    }

    pub fn into_payload(self, oid: ObjectId) -> (r: Result<PayloadObj, FsError>)
        ensures
            r == (match self {
                Object::Payload(obj) => Ok::<PayloadObj, FsError>(obj),
                _ => Err(FsError::Corrupt),
            }),
    {
        if let Object::Payload(obj) = self {
            Ok(obj)
        } else {
            Err(FsError::Corrupt)
        }
    }

    pub fn into_dead(self, oid: ObjectId) -> (r: Result<DeadObj, FsError>)
        ensures
            r == (match self {
                Object::Dead(obj) => Ok::<DeadObj, FsError>(obj),
                _ => Err(FsError::Corrupt),
            }),
    {
        if let Object::Dead(obj) = self {
            Ok(obj)
        } else {
            Err(FsError::Corrupt)
        }
    }

    /// A payload record without a successor that holds `data`.
    pub fn payload(data: &[u8]) -> (r: Self)
        requires
            data@.len() <= 26,
        ensures
            r == Object::Payload(PayloadObj::new_spec(data@)),
    {
        Object::Payload(PayloadObj::new(data))
    }
}

impl PayloadObj {
    /// The record that `new` makes of at most 26 bytes: the bytes, then zeros.
    pub open spec fn new_spec(data: Seq<u8>) -> PayloadObj {
        PayloadObj {
            size: data.len() as u8,
            next: None,
            data: payload_array(data + Seq::new((26 - data.len()) as nat, |i: int| 0u8)),
        }
    }

    /// The record made of at most 26 bytes holds exactly those bytes.
    pub proof fn lemma_new_content(data: Seq<u8>)
        requires
            data.len() <= 26,
        ensures
            Self::new_spec(data).content() == data,
            Self::new_spec(data).size == data.len(),
    {
        let padded = data + Seq::new((26 - data.len()) as nat, |i: int| 0u8);
        lemma_payload_array(padded);
        assert(padded.subrange(0, data.len() as int) =~= data);
    }

    /// The meaningful bytes of the record: the first `size` of its 26, where
    /// `size` is at most 26.
    pub open spec fn content(self) -> Seq<u8> {
        self.data@.subrange(0, self.size as int)
    }

    pub fn new(data: &[u8]) -> (r: Self)
        requires
            data@.len() <= 26,
        ensures
            r == Self::new_spec(data@),
            r.content() == data@,
    {
        let mut buf: [u8; 26] = [0u8; 26];
        let mut i: usize = 0;
        while i < data.len()
            invariant
                i <= data@.len() <= 26,
                forall|j: int| 0 <= j < i ==> buf[j] == data@[j],
                forall|j: int| i <= j < 26 ==> buf[j] == 0,
            decreases data@.len() - i,
        {
            buf[i] = data[i];
            i += 1;
        }
        let ghost padded = data@ + Seq::new((26 - data@.len()) as nat, |i: int| 0u8);
        proof {
            assert(buf@ =~= padded);
            lemma_payload_array(padded);
            assert(buf@.subrange(0, data@.len() as int) =~= data@);
        }
        Self { size: data.len() as u8, next: None, data: buf }
    }
}

} // verus!
