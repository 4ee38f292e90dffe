use crate::result::FsError;
use vstd::prelude::*;

verus! {

/// The container as a value: its 32-byte slots in order, and whether it may
/// grow by appending.
pub struct Store {
    pub slots: Seq<Seq<u8>>,
    pub can_grow: bool,
}

impl Store {
    /// Every slot has 32 bytes, and the number of slots fits in 32 bits.
    pub open spec fn wf(self) -> bool {
        &&& self.slots.len() <= u32::MAX
        &&& forall|i: int| 0 <= i < self.slots.len() ==> (#[trigger] self.slots[i]).len() == 32
    }

    pub open spec fn len(self) -> nat {
        self.slots.len()
    }

    /// The bytes of slot `oid`, which must exist.
    pub open spec fn read(self, oid: u32) -> Result<Seq<u8>, FsError> {
        if oid < self.slots.len() {
            Ok(self.slots[oid as int])
        } else {
            Err(FsError::Other)
        }
    }

    /// The container with the existing slot `oid` overwritten.
    pub open spec fn write(self, oid: u32, bytes: Seq<u8>) -> Result<Store, FsError> {
        if oid < self.slots.len() {
            Ok(Store { slots: self.slots.update(oid as int, bytes), ..self })
        } else {
            Err(FsError::Other)
        }
    }

    /// The container with one more slot, and that slot's number; a container
    /// of fixed size, or one that holds as many slots as can be numbered, is
    /// out of space.
    pub open spec fn append(self, bytes: Seq<u8>) -> Result<(Store, u32), FsError> {
        if self.can_grow && self.slots.len() < u32::MAX {
            Ok((Store { slots: self.slots.push(bytes), ..self }, self.slots.len() as u32))
        } else {
            Err(FsError::OutOfSpace)
        }
    }

    /// The bytes of all slots, one after the other.
    pub open spec fn image(self) -> Seq<u8> {
        Seq::new(self.slots.len() * 32, |i: int| self.slots[i / 32][i % 32])
    }
}

/// The container's slots held in memory. Reading the backing file into it
/// and writing it back are left to the caller.
#[derive(Debug)]
pub struct Storage {
    slots: Vec<[u8; 32]>,
    can_grow: bool,
}

impl View for Storage {
    type V = Store;

    closed spec fn view(&self) -> Store {
        Store {
            slots: Seq::new(self.slots@.len(), |i: int| self.slots@[i]@),
            can_grow: self.can_grow,
        }
    }
}

impl Storage {
    /// The container never holds more slots than 32 bits can number.
    pub closed spec fn wf(&self) -> bool {
        self.slots@.len() <= u32::MAX
    }

    /// Every slot of a container has 32 bytes, and 32 bits number them all.
    pub proof fn lemma_wf(&self)
        requires
            self.wf(),
        ensures
            self@.wf(),
    {
    }

    /// A new container without slots, which may grow.
    pub fn create() -> (r: Self)
        ensures
            r.wf(),
            r@ == (Store { slots: Seq::empty(), can_grow: true }),
    {
        let r = Self { slots: Vec::new(), can_grow: true };
        assert(r@.slots =~= Seq::empty());
        r
    }

    /// The container whose slots are the 32-byte pieces of `image`. An image
    /// that is not made of whole slots, or holds more than can be numbered,
    /// is corrupt.
    pub fn open(image: &[u8], can_grow: bool) -> (r: Result<Self, FsError>)
        ensures
            match r {
                Ok(s) => {
                    &&& image@.len() % 32 == 0
                    &&& image@.len() / 32 <= u32::MAX
                    &&& s.wf()
                    &&& s@.can_grow == can_grow
                    &&& s@.image() == image@
                },
                Err(e) => {
                    &&& e == FsError::Corrupt
                    &&& (image@.len() % 32 != 0 || image@.len() / 32 > u32::MAX)
                },
            },
    {
        let n = image.len() / 32;
        if image.len() % 32 != 0 || n > 0xffff_ffff {
            return Err(FsError::Corrupt);
        }
        let mut slots: Vec<[u8; 32]> = Vec::new();
        let mut i: usize = 0;
        while i < n
            invariant
                i <= n,
                n * 32 == image@.len(),
                image@.len() <= usize::MAX,
                slots@.len() == i,
                forall|k: int, j: int|
                    0 <= k < i && 0 <= j < 32 ==> (#[trigger] slots@[k][j]) == image@[k * 32 + j],
            decreases n - i,
        {
            let mut slot: [u8; 32] = [0u8; 32];
            let mut j: usize = 0;
            while j < 32
                invariant
                    j <= 32,
                    i < n,
                    n * 32 == image@.len(),
                    image@.len() <= usize::MAX,
                    forall|l: int| 0 <= l < j ==> slot[l] == image@[i * 32 + l],
                decreases 32 - j,
            {
                slot[j] = image[i * 32 + j];
                j += 1;
            }
            slots.push(slot);
            i += 1;
        }
        let r = Self { slots, can_grow };
        assert(r@.image() =~= image@);
        Ok(r)
    }

    /// The bytes of all slots, one after the other.
    pub fn to_bytes(&self) -> (r: Vec<u8>)
        ensures
            r@ == self@.image(),
    {
        let mut out: Vec<u8> = Vec::new();
        let mut i: usize = 0;
        while i < self.slots.len()
            invariant
                i <= self.slots@.len(),
                out@.len() == i * 32,
                forall|k: int| 0 <= k < out@.len() ==> out@[k] == self.slots@[k / 32][k % 32],
            decreases self.slots@.len() - i,
        {
            let mut j: usize = 0;
            while j < 32
                invariant
                    j <= 32,
                    i < self.slots@.len(),
                    out@.len() == i * 32 + j,
                    forall|k: int| 0 <= k < out@.len() ==> out@[k] == self.slots@[k / 32][k % 32],
                decreases 32 - j,
            {
                out.push(self.slots[i][j]);
                j += 1;
            }
            i += 1;
        }
        assert(out@ =~= self@.image());
        out
    }

    /// The number of slots.
    pub fn len(&self) -> (r: Result<u32, FsError>)
        requires
            self.wf(),
        ensures
            r == Ok::<u32, FsError>(self@.len() as u32),
    {
        Ok(self.slots.len() as u32)
    }

    pub fn read(&self, object_id: u32) -> (r: Result<[u8; 32], FsError>)
        requires
            self.wf(),
        ensures
            match r {
                Ok(b) => self@.read(object_id) == Ok::<Seq<u8>, FsError>(b@),
                Err(e) => self@.read(object_id) == Err::<Seq<u8>, FsError>(e),
            },
    {
        if (object_id as usize) < self.slots.len() {
            Ok(self.slots[object_id as usize])
        } else {
            Err(FsError::Other)
        }
    }

    pub fn write(&mut self, object_id: u32, object: [u8; 32]) -> (r: Result<(), FsError>)
        requires
            old(self).wf(),
        ensures
            final(self).wf(),
            match r {
                Ok(_) => old(self)@.write(object_id, object@) == Ok::<Store, FsError>(
                    final(self)@,
                ),
                Err(e) => old(self)@.write(object_id, object@) == Err::<Store, FsError>(e)
                    && final(self)@ == old(self)@,
            },
    {
        if (object_id as usize) < self.slots.len() {
            self.slots[object_id as usize] = object;
            assert(self@.slots =~= old(self)@.slots.update(object_id as int, object@));
            Ok(())
        } else {
            Err(FsError::Other)
        }
    }

    pub fn append(&mut self, object: [u8; 32]) -> (r: Result<u32, FsError>)
        requires
            old(self).wf(),
        ensures
            final(self).wf(),
            match r {
                Ok(oid) => old(self)@.append(object@) == Ok::<(Store, u32), FsError>(
                    (final(self)@, oid),
                ),
                Err(e) => old(self)@.append(object@) == Err::<(Store, u32), FsError>(e)
                    && final(self)@ == old(self)@,
            },
    {
        if !self.can_grow || self.slots.len() >= 0xffff_ffff {
            return Err(FsError::OutOfSpace);
        }
        let pos = self.slots.len() as u32;
        self.slots.push(object);
        assert(self@.slots =~= old(self)@.slots.push(object@));
        Ok(pos)
    }
}

} // verus!
