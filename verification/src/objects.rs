use crate::object::{HeaderObj, Object, PayloadObj};
use crate::object_id::ObjectId;
use crate::result::FsError;
use crate::storage::{Storage, Store};
use crate::transaction::{Transaction, TxView};
use vstd::prelude::*;

verus! {

/// What `String::from_utf8_lossy` makes of `bytes`.
pub uninterp spec fn utf8_lossy(bytes: Seq<u8>) -> Seq<char>;

/// The text that bytes are read as: for valid UTF-8 the text that they
/// encode, else what `String::from_utf8_lossy` makes of them.
pub open spec fn text_of(bytes: Seq<u8>) -> Seq<char> {
    if vstd::utf8::valid_utf8(bytes) {
        vstd::utf8::decode_utf8(bytes)
    } else {
        utf8_lossy(bytes)
    }
}

/// Text that was stored as its UTF-8 bytes is read back unchanged.
pub proof fn lemma_text_of_encoded(text: Seq<char>)
    ensures
        text_of(vstd::utf8::encode_utf8(text)) == text,
{
    vstd::utf8::encode_utf8_valid_utf8(text);
    vstd::utf8::encode_utf8_decode_utf8(text);
}

/// `rest` behind `prefix`, or the error that came in place of `rest`.
pub open spec fn prepend(prefix: Seq<u8>, rest: Result<Seq<u8>, FsError>) -> Result<
    Seq<u8>,
    FsError,
> {
    match rest {
        Ok(rest) => Ok(prefix + rest),
        Err(e) => Err(e),
    }
}

pub proof fn lemma_prepend_empty(rest: Result<Seq<u8>, FsError>)
    ensures
        prepend(Seq::empty(), rest) == rest,
{
    match rest {
        Ok(r) => assert(Seq::<u8>::empty() + r =~= r),
        Err(_) => {},
    }
}

pub proof fn lemma_prepend_twice(a: Seq<u8>, b: Seq<u8>, rest: Result<Seq<u8>, FsError>)
    ensures
        prepend(a, prepend(b, rest)) == prepend(a + b, rest),
{
    match rest {
        Ok(r) => assert(a + (b + r) =~= (a + b) + r),
        Err(_) => {},
    }
}

/// Appends the meaningful bytes of a payload record to `buf`.
fn push_content(buf: &mut Vec<u8>, obj: &PayloadObj)
    requires
        obj.size <= 26,
    ensures
        final(buf)@ == old(buf)@ + obj.content(),
{
    let mut i: usize = 0;
    while i < obj.size as usize
        invariant
            i <= obj.size <= 26,
            buf@ == old(buf)@ + obj.data@.subrange(0, i as int),
        decreases obj.size - i,
    {
        buf.push(obj.data[i]);
        assert(buf@ =~= old(buf)@ + obj.data@.subrange(0, i + 1));
        i += 1;
    }
}

/// The payload record for the `i`-th piece of `payload`, pointing at `next`.
fn payload_piece(payload: &[u8], i: usize, next: Option<ObjectId>) -> (r: Object)
    requires
        i < chunk_count(payload@.len()),
    ensures
        r == Object::Payload(PayloadObj { next, ..PayloadObj::new_spec(chunk(payload@, i as nat)) }),
{
    let len = payload.len();
    let start = i * 26;
    let end = if len - start > 26 {
        start + 26
    } else {
        len
    };
    let piece = vstd::slice::slice_subrange(payload, start, end);
    let rec = PayloadObj::new(piece);
    Object::Payload(PayloadObj { size: rec.size, next, data: rec.data })
}

/// The number of payload records that hold `len` bytes.
pub open spec fn chunk_count(len: nat) -> nat {
    ((len + 25) / 26) as nat
}

/// The `i`-th piece of 26 bytes of `bytes`; the last piece may be shorter.
pub open spec fn chunk(bytes: Seq<u8>, i: nat) -> Seq<u8> {
    bytes.subrange(
        26 * (i as int),
        if 26 * (i + 1) <= bytes.len() {
            26 * (i as int + 1)
        } else {
            bytes.len() as int
        },
    )
}

impl Store {
    /// The object in slot `oid`. Slot 0 is not read as an ordinary object,
    /// and a slot outside the container cannot be read.
    pub open spec fn get(self, oid: ObjectId) -> Result<Object, FsError> {
        if oid.0 == 0 {
            Err(FsError::Other)
        } else {
            match self.read(oid.0) {
                Ok(bytes) => Object::decode_spec(bytes),
                Err(e) => Err(e),
            }
        }
    }

    /// Exactly one slot holds a header, and it is slot 0.
    pub open spec fn single_header(self) -> bool {
        &&& self.len() >= 1
        &&& self.slots[0][0] == 1
        &&& forall|i: int| 1 <= i < self.len() ==> (#[trigger] self.slots[i])[0] != 1
    }

    /// The header in slot 0; anything else there is corrupt.
    pub open spec fn header(self) -> Result<HeaderObj, FsError> {
        match self.read(0) {
            Ok(bytes) => match Object::decode_spec(bytes) {
                Ok(Object::Header(header)) => Ok(header),
                _ => Err(FsError::Corrupt),
            },
            Err(e) => Err(e),
        }
    }

    /// The container with `obj` in the existing slot `oid`, which is not slot 0.
    pub open spec fn set(self, oid: ObjectId, obj: Object) -> Result<Store, FsError> {
        if oid.0 == 0 {
            Err(FsError::Other)
        } else {
            self.write(oid.0, obj.encode_spec())
        }
    }

    /// The container with `header` in slot 0.
    pub open spec fn set_header(self, header: HeaderObj) -> Result<Store, FsError> {
        self.write(0, Object::Header(header).encode_spec())
    }

    /// All objects with their ids, in slot order; one slot that does not
    /// decode makes the whole listing corrupt.
    pub open spec fn all(self) -> Result<Seq<(ObjectId, Object)>, FsError> {
        if forall|i: int| 0 <= i < self.slots.len() ==> Object::decode_spec(self.slots[i]).is_ok() {
            Ok(
                Seq::new(
                    self.slots.len(),
                    |i: int| (ObjectId(i as u32), Object::decode_spec(self.slots[i]).unwrap()),
                ),
            )
        } else {
            Err(FsError::Corrupt)
        }
    }

    /// The bytes of the payload chain that starts at `oid`, walked for at
    /// most `fuel` records: of each record its first `size` bytes. A slot on
    /// the chain that is no payload record, a `size` above 26, and a chain
    /// longer than `fuel` are corrupt.
    pub open spec fn payload_from(self, oid: ObjectId, fuel: nat) -> Result<Seq<u8>, FsError>
        decreases fuel,
    {
        if fuel == 0 {
            Err(FsError::Corrupt)
        } else {
            match self.get(oid) {
                Ok(Object::Payload(p)) => if p.size > 26 {
                    Err(FsError::Corrupt)
                } else {
                    match p.next {
                        Some(next) => prepend(p.content(), self.payload_from(next, (fuel - 1) as nat)),
                        None => Ok(p.content()),
                    }
                },
                Ok(_) => Err(FsError::Corrupt),
                Err(e) => Err(e),
            }
        }
    }

    /// The bytes of the payload chain that starts at `oid`. A chain of more
    /// records than the container has slots runs in a circle, and is corrupt.
    pub open spec fn payload(self, oid: ObjectId) -> Result<Seq<u8>, FsError> {
        self.payload_from(oid, self.len())
    }

    /// Allocation by appending: the container with `obj` in a new last slot,
    /// and that slot's id.
    pub open spec fn alloc_new(self, obj: Object) -> Result<(Store, ObjectId), FsError> {
        match self.append(obj.encode_spec()) {
            Ok((store, oid)) => Ok((store, ObjectId(oid))),
            Err(e) => Err(e),
        }
    }

    /// Allocation within the transaction `tx`, which must be open. Where the
    /// staged header's free list starts at a dead record, that slot takes
    /// `obj`, the staged list starts at the record's successor, and the
    /// transaction is dirty. Where the list is empty or starts at a live
    /// object, `obj` is appended.
    #[verifier::opaque]
    pub open spec fn alloc_in(self, tx: Option<TxView>, obj: Object) -> Result<
        (Store, Option<TxView>, ObjectId),
        FsError,
    > {
        match tx {
            None => Err(FsError::Other),
            Some(state) => {
                let reused = match state.new_header.dead {
                    Some(oid) => match self.get(oid) {
                        Ok(Object::Dead(dead)) => Some(
                            Ok(
                                (
                                    Store {
                                        slots: self.slots.update(oid.0 as int, obj.encode_spec()),
                                        ..self
                                    },
                                    Some(
                                        TxView {
                                            dirty: true,
                                            new_header: HeaderObj {
                                                dead: dead.next,
                                                ..state.new_header
                                            },
                                            ..state
                                        },
                                    ),
                                    oid,
                                ),
                            ),
                        ),
                        Ok(_) => None,
                        Err(e) => Some(Err(e)),
                    },
                    None => None,
                };
                match reused {
                    Some(r) => r,
                    None => match self.alloc_new(obj) {
                        Ok((store, oid)) => Ok((store, tx, oid)),
                        Err(e) => Err(e),
                    },
                }
            },
        }
    }

    /// Allocation with or without a transaction: within `tx` where `with_tx`
    /// holds, by appending where it does not.
    pub open spec fn allocate(self, with_tx: bool, tx: Option<TxView>, obj: Object) -> Result<
        (Store, Option<TxView>, ObjectId),
        FsError,
    > {
        if with_tx {
            self.alloc_in(tx, obj)
        } else {
            match self.alloc_new(obj) {
                Ok((store, oid)) => Ok((store, tx, oid)),
                Err(e) => Err(e),
            }
        }
    }

    /// The state after the pieces `i`, `i + 1`, ... of `bytes` have been
    /// allocated as payload records, last piece first, each record pointing
    /// at the one allocated before it; with the id of piece `i`'s record, or
    /// none where there is no such piece.
    pub open spec fn alloc_chunks(
        self,
        with_tx: bool,
        tx: Option<TxView>,
        bytes: Seq<u8>,
        i: nat,
    ) -> Result<(Store, Option<TxView>, Option<ObjectId>), FsError>
        decreases chunk_count(bytes.len()) - i,
    {
        if i >= chunk_count(bytes.len()) {
            Ok((self, tx, None))
        } else {
            match self.alloc_chunks(with_tx, tx, bytes, i + 1) {
                Ok((store, tx, next)) => match store.allocate(
                    with_tx,
                    tx,
                    Object::Payload(PayloadObj { next, ..PayloadObj::new_spec(chunk(bytes, i)) }),
                ) {
                    Ok((store, tx, oid)) => Ok((store, tx, Some(oid))),
                    Err(e) => Err(e),
                },
                Err(e) => Err(e),
            }
        }
    }

    /// The state after `bytes` have been stored as a payload chain, with the
    /// id of the chain's first record; none for no bytes.
    pub open spec fn alloc_payload(self, with_tx: bool, tx: Option<TxView>, bytes: Seq<u8>) -> Result<
        (Store, Option<TxView>, Option<ObjectId>),
        FsError,
    > {
        self.alloc_chunks(with_tx, tx, bytes, 0)
    }

    /// An allocation that fails for a later piece fails for the whole chain.
    pub proof fn lemma_alloc_chunks_err(
        self,
        with_tx: bool,
        tx: Option<TxView>,
        bytes: Seq<u8>,
        i: nat,
        j: nat,
    )
        requires
            j <= i,
            self.alloc_chunks(with_tx, tx, bytes, i).is_err(),
        ensures
            self.alloc_chunks(with_tx, tx, bytes, j) == self.alloc_chunks(with_tx, tx, bytes, i),
        decreases i - j,
    {
        if j < i {
            self.lemma_alloc_chunks_err(with_tx, tx, bytes, i, j + 1);
        }
    }
}

/// What of `bytes` lies behind its `i`-th piece.
pub open spec fn rest_behind(bytes: Seq<u8>, i: nat) -> Seq<u8> {
    if i + 1 < chunk_count(bytes.len()) {
        bytes.subrange(26 * (i as int + 1), bytes.len() as int)
    } else {
        Seq::empty()
    }
}

/// A piece has at most 26 bytes, and with what lies behind it makes up what
/// lies behind the piece before it.
pub proof fn lemma_chunk(bytes: Seq<u8>, i: nat)
    requires
        i < chunk_count(bytes.len()),
    ensures
        chunk(bytes, i).len() <= 26,
        chunk(bytes, i) + rest_behind(bytes, i) == bytes.subrange(
            26 * (i as int),
            bytes.len() as int,
        ),
        i > 0 ==> rest_behind(bytes, (i - 1) as nat) == bytes.subrange(
            26 * (i as int),
            bytes.len() as int,
        ),
{
    assert(chunk(bytes, i) + rest_behind(bytes, i) =~= bytes.subrange(
        26 * (i as int),
        bytes.len() as int,
    ));
}

/// How many of the first `n` slots hold a payload record.
pub open spec fn payload_slots(slots: Seq<Seq<u8>>, n: nat) -> nat
    decreases n,
{
    if n == 0 {
        0
    } else {
        payload_slots(slots, (n - 1) as nat) + if slots[n - 1][0] == 5 {
            1nat
        } else {
            0nat
        }
    }
}

proof fn lemma_payload_slots_bound(slots: Seq<Seq<u8>>, n: nat)
    ensures
        payload_slots(slots, n) <= n,
    decreases n,
{
    if n > 0 {
        lemma_payload_slots_bound(slots, (n - 1) as nat);
    }
}

proof fn lemma_payload_slots_update(slots: Seq<Seq<u8>>, d: int, b: Seq<u8>, n: nat)
    requires
        0 <= d < slots.len(),
        n <= slots.len(),
        slots[d][0] != 5,
        b[0] == 5,
    ensures
        payload_slots(slots.update(d, b), n) == payload_slots(slots, n) + if d < n {
            1nat
        } else {
            0nat
        },
    decreases n,
{
    if n > 0 {
        lemma_payload_slots_update(slots, d, b, (n - 1) as nat);
    }
}

proof fn lemma_payload_slots_push(slots: Seq<Seq<u8>>, b: Seq<u8>, n: nat)
    requires
        n <= slots.len(),
    ensures
        payload_slots(slots.push(b), n) == payload_slots(slots, n),
    decreases n,
{
    if n > 0 {
        lemma_payload_slots_push(slots, b, (n - 1) as nat);
    }
}

impl Store {
    /// A chain that was read within `fuel` records reads the same with more.
    pub proof fn lemma_payload_from_more_fuel(self, oid: ObjectId, fuel: nat, more: nat)
        requires
            self.payload_from(oid, fuel).is_ok(),
            fuel <= more,
        ensures
            self.payload_from(oid, more) == self.payload_from(oid, fuel),
        decreases fuel,
    {
        if fuel > 0 {
            match self.get(oid) {
                Ok(Object::Payload(p)) => {
                    if p.size <= 26 {
                        match p.next {
                            Some(next) => {
                                self.lemma_payload_from_more_fuel(
                                    next,
                                    (fuel - 1) as nat,
                                    (more - 1) as nat,
                                );
                            },
                            None => {},
                        }
                    }
                },
                _ => {},
            }
        }
    }

    /// A chain reads the same in a container that has kept every payload
    /// record of this one in its place.
    pub proof fn lemma_payload_from_frame(self, other: Store, oid: ObjectId, fuel: nat)
        requires
            self.payload_from(oid, fuel).is_ok(),
            self.slots.len() <= other.slots.len(),
            forall|i: int|
                1 <= i < self.slots.len() && (#[trigger] self.slots[i])[0] == 5 ==> other.slots[i]
                    == self.slots[i],
        ensures
            other.payload_from(oid, fuel) == self.payload_from(oid, fuel),
        decreases fuel,
    {
        if fuel > 0 {
            match self.get(oid) {
                Ok(Object::Payload(p)) => {
                    assert(self.slots[oid.0 as int][0] == 5);
                    assert(other.get(oid) == self.get(oid));
                    if p.size <= 26 {
                        match p.next {
                            Some(next) => {
                                self.lemma_payload_from_frame(other, next, (fuel - 1) as nat);
                            },
                            None => {},
                        }
                    }
                },
                _ => {},
            }
        }
    }

    /// Whether an allocation takes a slot off the free list: it is made
    /// within an open transaction whose staged free list starts at a dead
    /// record.
    pub open spec fn reuses_dead(self, with_tx: bool, tx: Option<TxView>) -> bool {
        &&& with_tx
        &&& tx matches Some(state)
        &&& state.new_header.dead matches Some(oid)
        &&& self.get(oid) matches Ok(obj)
        &&& obj is Dead
    }

    /// The container grows only where nothing can be reused: a successful
    /// allocation that takes a slot off the free list leaves the length as
    /// it is and the staged list one record shorter, and any other adds
    /// exactly one slot.
    pub proof fn lemma_allocate_growth(self, with_tx: bool, tx: Option<TxView>, obj: Object)
        requires
            self.allocate(with_tx, tx, obj).is_ok(),
        ensures
            ({
                let (after, staged, oid) = self.allocate(with_tx, tx, obj).unwrap();
                if self.reuses_dead(with_tx, tx) {
                    &&& after.len() == self.len()
                    &&& Some(oid) == tx.unwrap().new_header.dead
                    &&& self.get(oid) matches Ok(Object::Dead(dead)) && staged.unwrap().new_header.dead
                        == dead.next
                } else {
                    &&& after.len() == self.len() + 1
                    &&& oid.0 == self.len()
                    &&& staged == tx
                }
            }),
    {
        reveal(Store::alloc_in);
    }

    /// What one successful allocation does to a container that has its
    /// header slot: the object is stored in a slot other than slot 0; that
    /// slot either held a dead record, and the container keeps its length,
    /// or is the one new slot at the end; and every other slot is as before.
    pub proof fn lemma_allocate_effect(
        self,
        with_tx: bool,
        tx: Option<TxView>,
        obj: Object,
    )
        requires
            self.wf(),
            self.len() >= 1,
            obj.wf(),
            self.allocate(with_tx, tx, obj).is_ok(),
        ensures
            ({
                let (after, _, oid) = self.allocate(with_tx, tx, obj).unwrap();
                &&& after.wf()
                &&& after.can_grow == self.can_grow
                &&& oid.0 != 0
                &&& after.get(oid) == Ok::<Object, FsError>(obj)
                &&& forall|k: int|
                    0 <= k < self.len() && k != oid.0 ==> #[trigger] after.slots[k]
                        == self.slots[k]
                &&& oid.0 < self.len() ==> self.get(oid) is Ok && self.get(oid).unwrap() is Dead
                    && after.len() == self.len()
                &&& oid.0 >= self.len() ==> oid.0 == self.len() && after.len() == self.len() + 1
            }),
    {
        reveal(Store::alloc_in);
        obj.lemma_decode_encode();
        obj.lemma_encode_len();
    }

    /// One more record in front of a chain: where a record that holds
    /// `piece` and points at a chain of `k` records is allocated, the chain
    /// that starts at the new record reads `piece` followed by what the old
    /// chain read.
    proof fn lemma_chain_step(
        self,
        with_tx: bool,
        tx: Option<TxView>,
        piece: Seq<u8>,
        next: Option<ObjectId>,
        tail: Seq<u8>,
        k: nat,
    )
        requires
            self.wf(),
            self.len() >= 1,
            piece.len() <= 26,
            payload_slots(self.slots, self.len()) >= k,
            match next {
                Some(oid) => oid.0 != 0 && self.payload_from(oid, k) == Ok::<Seq<u8>, FsError>(tail),
                None => tail.len() == 0,
            },
            self.allocate(
                with_tx,
                tx,
                Object::Payload(PayloadObj { next, ..PayloadObj::new_spec(piece) }),
            ).is_ok(),
        ensures
            ({
                let (after, _, oid) = self.allocate(
                    with_tx,
                    tx,
                    Object::Payload(PayloadObj { next, ..PayloadObj::new_spec(piece) }),
                ).unwrap();
                &&& after.wf()
                &&& after.can_grow == self.can_grow
                &&& self.len() <= after.len() <= self.len() + 1
                &&& payload_slots(after.slots, after.len()) >= k + 1
                &&& oid.0 != 0
                &&& after.payload_from(oid, k + 1) == Ok::<Seq<u8>, FsError>(piece + tail)
            }),
    {
        let rec = PayloadObj { next, ..PayloadObj::new_spec(piece) };
        let obj = Object::Payload(rec);
        PayloadObj::lemma_new_content(piece);
        assert(rec.content() == piece);
        assert(rec.size <= 26);
        self.lemma_allocate_effect(with_tx, tx, obj);
        let (after, _, oid) = self.allocate(with_tx, tx, obj).unwrap();
        obj.lemma_encode_tag();
        assert(after.slots[oid.0 as int][0] == 5) by {
            Object::lemma_decode_tag(after.slots[oid.0 as int]);
        }
        if oid.0 < self.len() {
            assert(self.slots[oid.0 as int][0] == 6) by {
                Object::lemma_decode_tag(self.slots[oid.0 as int]);
            }
            assert(after.slots =~= self.slots.update(oid.0 as int, after.slots[oid.0 as int]));
            lemma_payload_slots_update(
                self.slots,
                oid.0 as int,
                after.slots[oid.0 as int],
                self.len(),
            );
        } else {
            assert(after.slots =~= self.slots.push(after.slots[oid.0 as int]));
            lemma_payload_slots_push(self.slots, after.slots[oid.0 as int], self.len());
        }
        match next {
            Some(nx) => {
                self.lemma_payload_from_frame(after, nx, k);
            },
            None => {
                assert(piece + tail =~= piece);
            },
        }
    }

    proof fn lemma_alloc_chunks_chain(
        self,
        with_tx: bool,
        tx: Option<TxView>,
        bytes: Seq<u8>,
        i: nat,
    )
        requires
            self.wf(),
            self.len() >= 1,
            i <= chunk_count(bytes.len()),
            self.alloc_chunks(with_tx, tx, bytes, i).is_ok(),
        ensures
            ({
                let n = chunk_count(bytes.len());
                let (after, _, first) = self.alloc_chunks(with_tx, tx, bytes, i).unwrap();
                &&& after.wf()
                &&& after.can_grow == self.can_grow
                &&& self.len() <= after.len() <= self.len() + (n - i)
                &&& payload_slots(after.slots, after.len()) >= n - i
                &&& i >= n ==> first.is_none()
                &&& i < n ==> (first matches Some(oid) && oid.0 != 0 && after.payload_from(
                    oid,
                    (n - i) as nat,
                ) == Ok::<Seq<u8>, FsError>(bytes.subrange(26 * (i as int), bytes.len() as int)))
            }),
        decreases chunk_count(bytes.len()) - i,
    {
        let n = chunk_count(bytes.len());
        if i < n {
            let inner = self.alloc_chunks(with_tx, tx, bytes, i + 1);
            assert(inner.is_ok());
            self.lemma_alloc_chunks_chain(with_tx, tx, bytes, i + 1);
            let (mid, tx1, next) = inner.unwrap();
            let piece = chunk(bytes, i);
            let tail = rest_behind(bytes, i);
            let k = (n - i - 1) as nat;
            let obj = Object::Payload(PayloadObj { next, ..PayloadObj::new_spec(piece) });
            assert(self.alloc_chunks(with_tx, tx, bytes, i) == match mid.allocate(with_tx, tx1, obj) {
                Ok((store, tx, oid)) => Ok::<(Store, Option<TxView>, Option<ObjectId>), FsError>(
                    (store, tx, Some(oid)),
                ),
                Err(e) => Err(e),
            });
            lemma_chunk(bytes, i);
            mid.lemma_chain_step(with_tx, tx1, piece, next, tail, k);
        }
    }

    /// Outside a transaction a payload chain is appended: the slots that
    /// the container had are as before.
    pub proof fn lemma_alloc_chunks_appends(self, tx: Option<TxView>, bytes: Seq<u8>, i: nat)
        requires
            self.alloc_chunks(false, tx, bytes, i).is_ok(),
        ensures
            ({
                let (after, _, _) = self.alloc_chunks(false, tx, bytes, i).unwrap();
                &&& self.len() <= after.len()
                &&& forall|k: int| 0 <= k < self.len() ==> #[trigger] after.slots[k] == self.slots[k]
            }),
        decreases chunk_count(bytes.len()) - i,
    {
        if i < chunk_count(bytes.len()) {
            self.lemma_alloc_chunks_appends(tx, bytes, i + 1);
        }
    }

    /// Bytes that were stored as a payload chain read back unchanged: in a
    /// container that has its header slot, a successful `alloc_payload`
    /// gives a chain exactly for a nonempty input, and reading that chain in
    /// the container it leaves gives the input. The container grows by at
    /// most one slot for each record.
    pub proof fn lemma_alloc_payload_round_trip(
        self,
        with_tx: bool,
        tx: Option<TxView>,
        bytes: Seq<u8>,
    )
        requires
            self.wf(),
            self.len() >= 1,
            self.alloc_payload(with_tx, tx, bytes).is_ok(),
        ensures
            ({
                let (after, _, first) = self.alloc_payload(with_tx, tx, bytes).unwrap();
                &&& after.wf()
                &&& after.can_grow == self.can_grow
                &&& self.len() <= after.len() <= self.len() + chunk_count(bytes.len())
                &&& first.is_none() <==> bytes.len() == 0
                &&& first matches Some(oid) ==> oid.0 != 0 && after.payload(oid) == Ok::<
                    Seq<u8>,
                    FsError,
                >(bytes)
            }),
    {
        let n = chunk_count(bytes.len());
        self.lemma_alloc_chunks_chain(with_tx, tx, bytes, 0);
        let (after, _, first) = self.alloc_payload(with_tx, tx, bytes).unwrap();
        match first {
            Some(oid) => {
                lemma_payload_slots_bound(after.slots, after.len());
                after.lemma_payload_from_more_fuel(oid, n, after.len());
                assert(bytes.subrange(0, bytes.len() as int) =~= bytes);
            },
            None => {},
        }
    }
}

/// Distinct slots other than slot 0 of a container of `n` slots are fewer
/// than `n`.
pub proof fn lemma_distinct_bound(list: Seq<ObjectId>, n: nat)
    requires
        list.no_duplicates(),
        forall|i: int| 0 <= i < list.len() ==> 1 <= (#[trigger] list[i]).0 < n,
    ensures
        list.len() == 0 || list.len() < n,
{
    if list.len() > 0 {
        let f = |o: ObjectId| o.0 as int;
        assert(vstd::relations::injective(f));
        list.lemma_no_duplicates_injective(f);
        let numbers = list.map_values(f);
        numbers.unique_seq_to_set();
        assert(1 <= list[0].0 < n);
        vstd::set_lib::lemma_int_range(1, n as int);
        assert forall|x: int| numbers.to_set().contains(x) implies vstd::set_lib::set_int_range(
            1,
            n as int,
        ).contains(x) by {
            let k = choose|k: int| 0 <= k < numbers.len() && numbers[k] == x;
            assert(1 <= list[k].0 < n);
        }
        vstd::set_lib::lemma_len_subset(
            numbers.to_set(),
            vstd::set_lib::set_int_range(1, n as int),
        );
    }
}

/// `first` in front of the records that the rest of a chain has.
pub open spec fn prepend_record(first: ObjectId, rest: Result<Seq<ObjectId>, FsError>) -> Result<
    Seq<ObjectId>,
    FsError,
> {
    match rest {
        Ok(rest) => Ok(seq![first] + rest),
        Err(e) => Err(e),
    }
}

impl Store {
    /// The slots of the records of the payload chain that starts at `oid`,
    /// walked for at most `fuel` records.
    pub open spec fn payload_records(self, oid: ObjectId, fuel: nat) -> Result<Seq<ObjectId>, FsError>
        decreases fuel,
    {
        if fuel == 0 {
            Err(FsError::Corrupt)
        } else {
            match self.get(oid) {
                Ok(Object::Payload(p)) => if p.size > 26 {
                    Err(FsError::Corrupt)
                } else {
                    match p.next {
                        Some(next) => prepend_record(
                            oid,
                            self.payload_records(next, (fuel - 1) as nat),
                        ),
                        None => Ok(seq![oid]),
                    }
                },
                Ok(_) => Err(FsError::Corrupt),
                Err(e) => Err(e),
            }
        }
    }

    /// A chain is read where its records are found, and the other way
    /// round; each record is in a slot of the container other than slot 0.
    pub proof fn lemma_payload_records(self, oid: ObjectId, fuel: nat)
        ensures
            self.payload_records(oid, fuel).is_ok() == self.payload_from(oid, fuel).is_ok(),
            self.payload_records(oid, fuel) matches Ok(records) ==> 1 <= records.len() <= fuel && (
            forall|i: int| 0 <= i < records.len() ==> 1 <= (#[trigger] records[i]).0 < self.len()),
        decreases fuel,
    {
        if fuel > 0 {
            match self.get(oid) {
                Ok(Object::Payload(p)) => {
                    if p.size <= 26 {
                        match p.next {
                            Some(next) => {
                                self.lemma_payload_records(next, (fuel - 1) as nat);
                            },
                            None => {},
                        }
                    }
                },
                _ => {},
            }
        }
    }

    /// With fuel for each of its records, a chain reads as it does with any
    /// fuel that it can be read with.
    pub proof fn lemma_payload_enough_fuel(self, oid: ObjectId, fuel: nat, other: nat)
        requires
            self.payload_records(oid, fuel).is_ok(),
            other >= self.payload_records(oid, fuel).unwrap().len(),
        ensures
            self.payload_records(oid, other) == self.payload_records(oid, fuel),
            self.payload_from(oid, other) == self.payload_from(oid, fuel),
        decreases fuel,
    {
        self.lemma_payload_records(oid, fuel);
        match self.get(oid) {
            Ok(Object::Payload(p)) => {
                match p.next {
                    Some(next) => {
                        self.lemma_payload_records(next, (fuel - 1) as nat);
                        self.lemma_payload_enough_fuel(
                            next,
                            (fuel - 1) as nat,
                            (other - 1) as nat,
                        );
                    },
                    None => {},
                }
            },
            _ => {},
        }
    }

    /// From any record of a chain, the walk finds the rest of the chain.
    proof fn lemma_payload_records_suffix(self, oid: ObjectId, fuel: nat, k: int)
        requires
            self.payload_records(oid, fuel).is_ok(),
            0 <= k < self.payload_records(oid, fuel).unwrap().len(),
        ensures
            k < fuel,
            self.payload_records(self.payload_records(oid, fuel).unwrap()[k], (fuel - k) as nat)
                == Ok::<Seq<ObjectId>, FsError>(
                self.payload_records(oid, fuel).unwrap().subrange(
                    k,
                    self.payload_records(oid, fuel).unwrap().len() as int,
                ),
            ),
        decreases fuel,
    {
        let records = self.payload_records(oid, fuel).unwrap();
        match self.get(oid) {
            Ok(Object::Payload(p)) => {
                match p.next {
                    Some(next) => {
                        let rest = self.payload_records(next, (fuel - 1) as nat).unwrap();
                        assert(records =~= seq![oid] + rest);
                        if k == 0 {
                            assert(records.subrange(0, records.len() as int) =~= records);
                        } else {
                            self.lemma_payload_records_suffix(next, (fuel - 1) as nat, k - 1);
                            assert(rest[k - 1] == records[k]);
                            assert(rest.subrange(k - 1, rest.len() as int) =~= records.subrange(
                                k,
                                records.len() as int,
                            ));
                        }
                    },
                    None => {
                        assert(records.subrange(0, records.len() as int) =~= records);
                    },
                }
            },
            _ => {},
        }
    }

    /// The bound on the walk never cuts a payload chain short: a chain that
    /// ends at all has no record twice, so it has fewer records than the
    /// container has slots, and is read to its end within the bound.
    pub proof fn lemma_payload_bound(self, oid: ObjectId, fuel: nat)
        requires
            self.wf(),
            self.payload_from(oid, fuel).is_ok(),
        ensures
            self.payload(oid) == self.payload_from(oid, fuel),
            self.payload_records(oid, fuel) matches Ok(records) && records.no_duplicates()
                && records.len() < self.len(),
    {
        self.lemma_payload_records(oid, fuel);
        let records = self.payload_records(oid, fuel).unwrap();
        assert forall|i: int, j: int|
            0 <= i < records.len() && 0 <= j < records.len() && i != j implies records[i]
            != records[j] by {
            if records[i] == records[j] {
                let (lo, hi) = if i < j {
                    (i, j)
                } else {
                    (j, i)
                };
                self.lemma_payload_records_suffix(oid, fuel, lo);
                self.lemma_payload_records_suffix(oid, fuel, hi);
                self.lemma_payload_enough_fuel(records[lo], (fuel - hi) as nat, (fuel - lo) as nat);
                assert(records.subrange(lo, records.len() as int).len() == records.subrange(
                    hi,
                    records.len() as int,
                ).len());
            }
        }
        lemma_distinct_bound(records, self.len());
        self.lemma_payload_enough_fuel(oid, fuel, self.len());
    }
}

/// Typed access to the container's slots: objects in and out, the header,
/// payload chains, and allocation with reuse of dead slots.
#[derive(Debug)]
pub struct Objects {
    storage: Storage,
}

impl View for Objects {
    type V = Store;

    closed spec fn view(&self) -> Store {
        self.storage@
    }
}

/// `String::from_utf8_lossy`: for valid UTF-8 the text that the bytes
/// encode; else a text that depends on the bytes alone, in which each
/// invalid sequence is replaced.
#[verifier::external_body]
fn string_from_utf8_lossy(bytes: &[u8]) -> (r: String)
    ensures
        r@ == if vstd::utf8::valid_utf8(bytes@) {
            vstd::utf8::decode_utf8(bytes@)
        } else {
            utf8_lossy(bytes@)
        },
{
    String::from_utf8_lossy(bytes).into_owned()
}

impl Objects {
    pub closed spec fn wf(&self) -> bool {
        self.storage.wf()
    }

    /// Every slot of the container has 32 bytes, and 32 bits number them all.
    pub proof fn lemma_wf(&self)
        requires
            self.wf(),
        ensures
            self@.wf(),
    {
        self.storage.lemma_wf();
    }

    pub fn new(storage: Storage) -> (r: Self)
        requires
            storage.wf(),
        ensures
            r.wf(),
            r@ == storage@,
    {
        Self { storage }
    }

    /// The container, to be written out.
    pub fn storage(&self) -> (r: &Storage)
        requires
            self.wf(),
        ensures
            r.wf(),
            r@ == self@,
    {
        &self.storage
    }

    /// Gives the container back, to be written out.
    pub fn into_storage(self) -> (r: Storage)
        requires
            self.wf(),
        ensures
            r.wf(),
            r@ == self@,
    {
        self.storage
    }

    /// The number of slots.
    pub fn len(&self) -> (r: Result<u32, FsError>)
        requires
            self.wf(),
        ensures
            r == Ok::<u32, FsError>(self@.len() as u32),
    {
        self.storage.len()
    }

    pub fn all(&self) -> (r: Result<Vec<(ObjectId, Object)>, FsError>)
        requires
            self.wf(),
        ensures
            match r {
                Ok(objs) => self@.all() == Ok::<Seq<(ObjectId, Object)>, FsError>(objs@),
                Err(e) => self@.all() == Err::<Seq<(ObjectId, Object)>, FsError>(e),
            },
    {
        let mut objs: Vec<(ObjectId, Object)> = Vec::new();
        let mut oidx: u32 = 0;
        proof {
            self.lemma_wf();
        }
        loop
            invariant
                self.wf(),
                self@.wf(),
                oidx <= self@.len(),
                objs@.len() == oidx,
                forall|i: int|
                    0 <= i < oidx ==> Object::decode_spec(self@.slots[i]) == Ok::<Object, FsError>(
                        (#[trigger] objs@[i]).1,
                    ) && objs@[i].0 == ObjectId(i as u32),
            decreases self@.len() - oidx,
        {
            match self.storage.read(oidx) {
                Ok(object) => {
                    let oid = ObjectId::new(oidx);
                    match Object::decode(object) {
                        Ok(obj) => {
                            objs.push((oid, obj));
                            oidx += 1;
                        },
                        Err(e) => {
                            return Err(e);
                        },
                    }
                },
                Err(_) => {
                    proof {
                        assert forall|i: int| 0 <= i < self@.slots.len() implies Object::decode_spec(
                            self@.slots[i],
                        ).is_ok() by {
                            let _ = objs@[i];
                        }
                        assert(objs@ =~= self@.all().unwrap());
                    }
                    return Ok(objs);
                },
            }
        }
    }

    pub fn get(&self, oid: ObjectId) -> (r: Result<Object, FsError>)
        requires
            self.wf(),
        ensures
            r == self@.get(oid),
    {
        if oid.get() == 0 {
            return Err(FsError::Other);
        }
        match self.storage.read(oid.get()) {
            Ok(obj) => Object::decode(obj),
            Err(e) => Err(e),
        }
    }

    pub fn get_header(&self) -> (r: Result<HeaderObj, FsError>)
        requires
            self.wf(),
        ensures
            r == self@.header(),
    {
        match self.storage.read(0) {
            Ok(obj) => match Object::decode(obj) {
                Ok(obj) => obj.into_header(ObjectId::header()),
                Err(_) => Err(FsError::Corrupt),
            },
            Err(e) => Err(e),
        }
    }

    pub fn get_payload(&self, oid: ObjectId) -> (r: Result<Vec<u8>, FsError>)
        requires
            self.wf(),
        ensures
            match r {
                Ok(bytes) => self@.payload(oid) == Ok::<Seq<u8>, FsError>(bytes@),
                Err(e) => self@.payload(oid) == Err::<Seq<u8>, FsError>(e),
            },
    {
        let mut buf: Vec<u8> = Vec::new();
        let mut cur = oid;
        let mut fuel = self.len()?;
        proof {
            self.lemma_wf();
            lemma_prepend_empty(self@.payload_from(cur, fuel as nat));
        }
        loop
            invariant
                self.wf(),
                prepend(buf@, self@.payload_from(cur, fuel as nat)) == self@.payload(oid),
            decreases fuel,
        {
            if fuel == 0 {
                return Err(FsError::Corrupt);
            }
            let obj = self.get(cur)?.into_payload(cur)?;
            if obj.size > 26 {
                return Err(FsError::Corrupt);
            }
            let ghost before = buf@;
            push_content(&mut buf, &obj);
            match obj.next {
                Some(next) => {
                    proof {
                        lemma_prepend_twice(
                            before,
                            obj.content(),
                            self@.payload_from(next, (fuel - 1) as nat),
                        );
                    }
                    cur = next;
                    fuel -= 1;
                },
                None => {
                    return Ok(buf);
                },
            }
        }
    }

    /// The payload chain at `oid` as text, invalid UTF-8 replaced.
    pub fn get_string(&self, oid: ObjectId) -> (r: Result<String, FsError>)
        requires
            self.wf(),
        ensures
            match r {
                Ok(s) => self@.payload(oid) matches Ok(bytes) && s@ == text_of(bytes),
                Err(e) => self@.payload(oid) == Err::<Seq<u8>, FsError>(e),
            },
    {
        let buf = self.get_payload(oid)?;
        Ok(string_from_utf8_lossy(buf.as_slice()))
    }

    pub fn set(&mut self, oid: ObjectId, obj: Object) -> (r: Result<(), FsError>)
        requires
            old(self).wf(),
        ensures
            final(self).wf(),
            old(self)@.single_header() && !(obj is Header) ==> final(self)@.single_header(),
            match r {
                Ok(_) => old(self)@.set(oid, obj) == Ok::<Store, FsError>(final(self)@),
                Err(e) => old(self)@.set(oid, obj) == Err::<Store, FsError>(e) && final(self)@
                    == old(self)@,
            },
    {
        if oid.get() == 0 {
            return Err(FsError::Other);
        }
        proof {
            obj.lemma_encode_tag();
        }
        self.storage.write(oid.get(), obj.encode())
    }

    pub fn set_header(&mut self, obj: HeaderObj) -> (r: Result<(), FsError>)
        requires
            old(self).wf(),
        ensures
            final(self).wf(),
            old(self)@.single_header() ==> final(self)@.single_header(),
            match r {
                Ok(_) => old(self)@.set_header(obj) == Ok::<Store, FsError>(final(self)@),
                Err(e) => old(self)@.set_header(obj) == Err::<Store, FsError>(e) && final(self)@
                    == old(self)@,
            },
    {
        proof {
            Object::Header(obj).lemma_encode_tag();
        }
        self.storage.write(0, Object::Header(obj).encode())
    }

    /// Allocates a slot for `obj`: within `tx` where `with_tx` holds, by
    /// appending where it does not. A failed allocation changes nothing.
    fn allocate_with(&mut self, tx: &mut Transaction, with_tx: bool, obj: Object) -> (r: Result<
        ObjectId,
        FsError,
    >)
        requires
            old(self).wf(),
        ensures
            final(self).wf(),
            old(self)@.single_header() && !(obj is Header) ==> final(self)@.single_header(),
            match r {
                Ok(oid) => old(self)@.allocate(with_tx, old(tx)@, obj) == Ok::<
                    (Store, Option<TxView>, ObjectId),
                    FsError,
                >((final(self)@, final(tx)@, oid)),
                Err(e) => {
                    &&& old(self)@.allocate(with_tx, old(tx)@, obj) == Err::<
                        (Store, Option<TxView>, ObjectId),
                        FsError,
                    >(e)
                    &&& final(self)@ == old(self)@
                    &&& final(tx)@ == old(tx)@
                },
            },
    {
        proof {
            reveal(Store::alloc_in);
            obj.lemma_encode_tag();
        }
        if with_tx {
            let state = tx.get_mut()?;
            if let Some(oid) = state.new_header.dead {
                let dead_obj = self.get(oid)?;
                if let Ok(dead_obj) = dead_obj.into_dead(oid) {
                    let done = self.storage.write(oid.get(), obj.encode());
                    assert(done.is_ok());
                    state.dirty = true;
                    state.new_header.dead = dead_obj.next;
                    return Ok(oid);
                }
            }
        }
        let oid = self.storage.append(obj.encode())?;
        Ok(ObjectId::new(oid))
    }

    pub fn allocate(&mut self, tx: Option<&mut Transaction>, obj: Object) -> (r: Result<
        ObjectId,
        FsError,
    >)
        requires
            old(self).wf(),
        ensures
            final(self).wf(),
            old(self)@.single_header() && !(obj is Header) ==> final(self)@.single_header(),
            match tx {
                Some(tx) => match r {
                    Ok(oid) => old(self)@.allocate(true, tx@, obj) == Ok::<
                        (Store, Option<TxView>, ObjectId),
                        FsError,
                    >((final(self)@, final(tx)@, oid)),
                    Err(e) => {
                        &&& old(self)@.allocate(true, tx@, obj) == Err::<
                            (Store, Option<TxView>, ObjectId),
                            FsError,
                        >(e)
                        &&& final(self)@ == old(self)@
                        &&& final(tx)@ == tx@
                    },
                },
                None => match r {
                    Ok(oid) => old(self)@.alloc_new(obj) == Ok::<(Store, ObjectId), FsError>(
                        (final(self)@, oid),
                    ),
                    Err(e) => {
                        &&& old(self)@.alloc_new(obj) == Err::<(Store, ObjectId), FsError>(e)
                        &&& final(self)@ == old(self)@
                    },
                },
            },
    {
        match tx {
            Some(tx) => self.allocate_with(tx, true, obj),
            None => {
                let mut closed = Transaction::default();
                self.allocate_with(&mut closed, false, obj)
            },
        }
    }
    /// Stores `payload` as a chain of payload records, last piece first:
    /// within `tx` where `with_tx` holds, by appending where it does not.
    #[verifier::rlimit(40)]
    fn alloc_payload_with(
        &mut self,
        tx: &mut Transaction,
        with_tx: bool,
        payload: &[u8],
    ) -> (r: Result<Option<ObjectId>, FsError>)
        requires
            old(self).wf(),
        ensures
            final(self).wf(),
            old(self)@.single_header() ==> final(self)@.single_header(),
            match r {
                Ok(first) => {
                    &&& old(self)@.alloc_payload(with_tx, old(tx)@, payload@) == Ok::<
                        (Store, Option<TxView>, Option<ObjectId>),
                        FsError,
                    >((final(self)@, final(tx)@, first))
                    &&& first.is_none() <==> payload@.len() == 0
                    &&& old(self)@.len() >= 1 ==> (first matches Some(oid)
                        ==> final(self)@.payload(oid) == Ok::<Seq<u8>, FsError>(payload@))
                },
                Err(e) => old(self)@.alloc_payload(with_tx, old(tx)@, payload@) == Err::<
                    (Store, Option<TxView>, Option<ObjectId>),
                    FsError,
                >(e),
            },
    {
        let len = payload.len();
        let n = len / 26 + if len % 26 != 0 {
            1
        } else {
            0
        };
        let mut next: Option<ObjectId> = None;
        let mut i = n;
        while i > 0
            invariant
                self.wf(),
                old(self)@.single_header() ==> self@.single_header(),
                len == payload@.len(),
                n == chunk_count(payload@.len()),
                i <= n,
                old(self)@.alloc_chunks(with_tx, old(tx)@, payload@, i as nat) == Ok::<
                    (Store, Option<TxView>, Option<ObjectId>),
                    FsError,
                >((self@, tx@, next)),
            decreases i,
        {
            i -= 1;
            let obj = payload_piece(payload, i, next);
            match self.allocate_with(tx, with_tx, obj) {
                Ok(oid) => {
                    next = Some(oid);
                },
                Err(e) => {
                    proof {
                        old(self)@.lemma_alloc_chunks_err(with_tx, old(tx)@, payload@, i as nat, 0);
                    }
                    return Err(e);
                },
            }
        }
        proof {
            old(self).lemma_wf();
            if old(self)@.len() >= 1 {
                old(self)@.lemma_alloc_payload_round_trip(with_tx, old(tx)@, payload@);
            }
        }
        Ok(next)
    }

    pub fn alloc_payload(&mut self, tx: Option<&mut Transaction>, payload: &[u8]) -> (r: Result<
        Option<ObjectId>,
        FsError,
    >)
        requires
            old(self).wf(),
        ensures
            final(self).wf(),
            old(self)@.single_header() ==> final(self)@.single_header(),
            match tx {
                Some(tx) => match r {
                    Ok(first) => old(self)@.alloc_payload(true, tx@, payload@) == Ok::<
                        (Store, Option<TxView>, Option<ObjectId>),
                        FsError,
                    >((final(self)@, final(tx)@, first)),
                    Err(e) => old(self)@.alloc_payload(true, tx@, payload@) == Err::<
                        (Store, Option<TxView>, Option<ObjectId>),
                        FsError,
                    >(e),
                },
                None => match r {
                    Ok(first) => {
                        &&& old(self)@.alloc_payload(false, None, payload@) matches Ok(done)
                        &&& done.0 == final(self)@
                        &&& done.2 == first
                    },
                    Err(e) => old(self)@.alloc_payload(false, None, payload@) == Err::<
                        (Store, Option<TxView>, Option<ObjectId>),
                        FsError,
                    >(e),
                },
            },
            r matches Ok(first) ==> (first.is_none() <==> payload@.len() == 0),
            old(self)@.len() >= 1 ==> (r matches Ok(Some(oid)) ==> final(self)@.payload(oid) == Ok::<
                Seq<u8>,
                FsError,
            >(payload@)),
    {
        match tx {
            Some(tx) => self.alloc_payload_with(tx, true, payload),
            None => {
                let mut closed = Transaction::default();
                self.alloc_payload_with(&mut closed, false, payload)
            },
        }
    }
}

} // verus!
