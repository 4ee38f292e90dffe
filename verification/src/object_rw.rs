use crate::object::FileKind;
use crate::object_id::ObjectId;
use vstd::prelude::*;

verus! {

/// The two bytes of `v`, most significant first.
pub open spec fn be16(v: u16) -> Seq<u8> {
    seq![(v / 256) as u8, (v % 256) as u8]
}

/// The four bytes of `v`, most significant first.
pub open spec fn be32(v: u32) -> Seq<u8> {
    seq![
        (v / 16777216) as u8,
        (v / 65536 % 256) as u8,
        (v / 256 % 256) as u8,
        (v % 256) as u8,
    ]
}

/// The number whose big-endian bytes are `b0 b1`.
pub open spec fn from_be16(b0: u8, b1: u8) -> u16 {
    (b0 as int * 256 + b1 as int) as u16
}

/// The number whose big-endian bytes are `b0 b1 b2 b3`.
pub open spec fn from_be32(b0: u8, b1: u8, b2: u8, b3: u8) -> u32 {
    (b0 as int * 16777216 + b1 as int * 65536 + b2 as int * 256 + b3 as int) as u32
}

/// The big-endian 16-bit number that starts at byte `i` of `b`.
pub open spec fn u16_at(b: Seq<u8>, i: int) -> u16 {
    from_be16(b[i], b[i + 1])
}

/// The big-endian 32-bit number that starts at byte `i` of `b`.
pub open spec fn u32_at(b: Seq<u8>, i: int) -> u32 {
    from_be32(b[i], b[i + 1], b[i + 2], b[i + 3])
}

/// The word that stands for an optional pointer: zero for none.
pub open spec fn oid_word(oid: Option<ObjectId>) -> u32 {
    match oid {
        Some(oid) => oid.0,
        None => 0,
    }
}

/// The optional pointer that a word stands for: none for zero.
pub open spec fn word_oid(w: u32) -> Option<ObjectId> {
    if w == 0 {
        None
    } else {
        Some(ObjectId(w))
    }
}

/// The byte that stands for a kind: 0 for a directory, 1 for a regular file.
pub open spec fn kind_byte(kind: FileKind) -> u8 {
    match kind {
        FileKind::Directory => 0,
        FileKind::RegularFile => 1,
    }
}

/// The kind that a byte stands for: a directory for 0, a regular file otherwise.
pub open spec fn byte_kind(b: u8) -> FileKind {
    if b == 0 {
        FileKind::Directory
    } else {
        FileKind::RegularFile
    }
}

/// `s` followed by as many zero bytes as a 32-byte slot has left.
pub open spec fn pad32(s: Seq<u8>) -> Seq<u8> {
    s + Seq::new((32 - s.len()) as nat, |i: int| 0u8)
}

pub proof fn lemma_be16_round_trip(v: u16)
    ensures
        be16(v).len() == 2,
        u16_at(be16(v), 0) == v,
{
}

pub proof fn lemma_be32_round_trip(v: u32)
    ensures
        be32(v).len() == 4,
        u32_at(be32(v), 0) == v,
{
}

/// Fills a 32-byte slot front to back; what was not written stays zero.
#[derive(Debug)]
pub struct ObjectWriter {
    data: [u8; 32],
    len: usize,
}

impl View for ObjectWriter {
    type V = Seq<u8>;

    /// The bytes written so far.
    closed spec fn view(&self) -> Seq<u8> {
        self.data@.subrange(0, self.len as int)
    }
}

impl Default for ObjectWriter {
    fn default() -> (r: Self)
        ensures
            r.wf(),
            r@ == Seq::<u8>::empty(),
    {
        let r = ObjectWriter { data: [0u8; 32], len: 0 };
        assert(r@ =~= Seq::<u8>::empty());
        r
    }
}

impl ObjectWriter {
    /// At most 32 bytes are written, and the bytes behind them are zero.
    pub closed spec fn wf(&self) -> bool {
        &&& self.len <= 32
        &&& forall|i: int| self.len <= i < 32 ==> self.data[i] == 0
    }

    pub fn bool(&mut self, val: bool)
        requires
            old(self).wf(),
            old(self)@.len() < 32,
        ensures
            final(self).wf(),
            final(self)@ == old(self)@.push(if val { 1u8 } else { 0u8 }),
    {
        self.u8(if val { 1 } else { 0 });
    }

    pub fn u8(&mut self, val: u8)
        requires
            old(self).wf(),
            old(self)@.len() < 32,
        ensures
            final(self).wf(),
            final(self)@ == old(self)@.push(val),
    {
        self.data[self.len] = val;
        self.len += 1;
        assert(self@ =~= old(self)@.push(val));
    }

    pub fn u16(&mut self, val: u16)
        requires
            old(self).wf(),
            old(self)@.len() + 2 <= 32,
        ensures
            final(self).wf(),
            final(self)@ == old(self)@ + be16(val),
    {
        self.u8((val / 256) as u8);
        self.u8((val % 256) as u8);
        assert(self@ =~= old(self)@ + be16(val));
    }

    pub fn u32(&mut self, val: u32)
        requires
            old(self).wf(),
            old(self)@.len() + 4 <= 32,
        ensures
            final(self).wf(),
            final(self)@ == old(self)@ + be32(val),
    {
        self.u8((val / 16777216) as u8);
        self.u8((val / 65536 % 256) as u8);
        self.u8((val / 256 % 256) as u8);
        self.u8((val % 256) as u8);
        assert(self@ =~= old(self)@ + be32(val));
    }

    pub fn oid(&mut self, oid: ObjectId)
        requires
            old(self).wf(),
            old(self)@.len() + 4 <= 32,
        ensures
            final(self).wf(),
            final(self)@ == old(self)@ + be32(oid.0),
    {
        self.u32(oid.get());
    }

    pub fn oid_opt(&mut self, oid: Option<ObjectId>)
        requires
            old(self).wf(),
            old(self)@.len() + 4 <= 32,
        ensures
            final(self).wf(),
            final(self)@ == old(self)@ + be32(oid_word(oid)),
    {
        match oid {
            Some(oid) => self.u32(oid.get()),
            None => self.u32(0),
        }
    }

    pub fn kind(&mut self, kind: FileKind)
        requires
            old(self).wf(),
            old(self)@.len() < 32,
        ensures
            final(self).wf(),
            final(self)@ == old(self)@.push(kind_byte(kind)),
    {
        match kind {
            FileKind::Directory => self.u8(0),
            FileKind::RegularFile => self.u8(1),
        }
    }

    /// Writes all of `bytes`, which must fit in what is left of the slot.
    pub fn rest(&mut self, bytes: &[u8])
        requires
            old(self).wf(),
            old(self)@.len() + bytes@.len() <= 32,
        ensures
            final(self).wf(),
            final(self)@ == old(self)@ + bytes@,
    {
        let mut i: usize = 0;
        while i < bytes.len()
            invariant
                i <= bytes@.len(),
                self.wf(),
                old(self)@.len() + bytes@.len() <= 32,
                self@ == old(self)@ + bytes@.subrange(0, i as int),
            decreases bytes@.len() - i,
        {
            self.u8(bytes[i]);
            assert(self@ =~= old(self)@ + bytes@.subrange(0, i + 1));
            i += 1;
        }
        assert(bytes@.subrange(0, i as int) =~= bytes@);
    }

    pub fn finish(self) -> (r: [u8; 32])
        requires
            self.wf(),
        ensures
            r@ == pad32(self@),
    {
        assert(self.data@ =~= pad32(self@));
        self.data
    }
}

/// Reads a 32-byte slot front to back.
#[derive(Debug)]
pub struct ObjectReader {
    data: [u8; 32],
    len: usize,
}

impl ObjectReader {
    /// The slot that is being read.
    pub closed spec fn bytes(&self) -> Seq<u8> {
        self.data@
    }

    /// How many bytes have been read.
    pub closed spec fn pos(&self) -> int {
        self.len as int
    }

    pub fn new(data: [u8; 32]) -> (r: Self)
        ensures
            r.bytes() == data@,
            r.pos() == 0,
    {
        Self { data, len: 0 }
    }

    pub fn bool(&mut self) -> (r: bool)
        requires
            old(self).pos() < 32,
        ensures
            final(self).bytes() == old(self).bytes(),
            final(self).pos() == old(self).pos() + 1,
            r == (old(self).bytes()[old(self).pos()] == 1),
    {
        self.u8() == 1
    }

    pub fn u8(&mut self) -> (r: u8)
        requires
            old(self).pos() < 32,
        ensures
            final(self).bytes() == old(self).bytes(),
            final(self).pos() == old(self).pos() + 1,
            r == old(self).bytes()[old(self).pos()],
    {
        let out = self.data[self.len];
        self.len += 1;
        out
    }

    pub fn u16(&mut self) -> (r: u16)
        requires
            old(self).pos() + 2 <= 32,
        ensures
            final(self).bytes() == old(self).bytes(),
            final(self).pos() == old(self).pos() + 2,
            r == u16_at(old(self).bytes(), old(self).pos()),
    {
        let d0 = self.u8();
        let d1 = self.u8();
        (d0 as u16) * 256 + (d1 as u16)
    }

    pub fn u32(&mut self) -> (r: u32)
        requires
            old(self).pos() + 4 <= 32,
        ensures
            final(self).bytes() == old(self).bytes(),
            final(self).pos() == old(self).pos() + 4,
            r == u32_at(old(self).bytes(), old(self).pos()),
    {
        let d0 = self.u8();
        let d1 = self.u8();
        let d2 = self.u8();
        let d3 = self.u8();
        (d0 as u32) * 16777216 + (d1 as u32) * 65536 + (d2 as u32) * 256 + (d3 as u32)
    }

    pub fn oid(&mut self) -> (r: ObjectId)
        requires
            old(self).pos() + 4 <= 32,
        ensures
            final(self).bytes() == old(self).bytes(),
            final(self).pos() == old(self).pos() + 4,
            r.0 == u32_at(old(self).bytes(), old(self).pos()),
    {
        ObjectId::new(self.u32())
    }

    pub fn oid_opt(&mut self) -> (r: Option<ObjectId>)
        requires
            old(self).pos() + 4 <= 32,
        ensures
            final(self).bytes() == old(self).bytes(),
            final(self).pos() == old(self).pos() + 4,
            r == word_oid(u32_at(old(self).bytes(), old(self).pos())),
    {
        let oid = self.u32();
        if oid == 0 {
            None
        } else {
            Some(ObjectId::new(oid))
        }
    }

    pub fn kind(&mut self) -> (r: FileKind)
        requires
            old(self).pos() < 32,
        ensures
            final(self).bytes() == old(self).bytes(),
            final(self).pos() == old(self).pos() + 1,
            r == byte_kind(old(self).bytes()[old(self).pos()]),
    {
        if self.u8() == 0 {
            FileKind::Directory
        } else {
            FileKind::RegularFile
        }
    }

    /// The bytes that have not been read, which must be exactly `N`.
    pub fn rest<const N: usize>(&mut self) -> (r: [u8; N])
        requires
            old(self).pos() + N == 32,
        ensures
            final(self).bytes() == old(self).bytes(),
            final(self).pos() == old(self).pos(),
            r@ == old(self).bytes().subrange(old(self).pos(), 32),
    {
        let mut out: [u8; N] = [0u8; N];
        let mut i: usize = 0;
        while i < N
            invariant
                i <= N,
                self.len + N == 32,
                forall|j: int| 0 <= j < i ==> out[j] == self.data[self.len + j],
            decreases N - i,
        {
            out[i] = self.data[self.len + i];
            i += 1;
        }
        assert(out@ =~= self.bytes().subrange(self.pos(), 32));
        out
    }
}

} // verus!
