//! A fixed-capacity byte region: it never grows, and a write that does not
//! fit is refused before any byte changes.
use vstd::prelude::*;
use crate::account::StoreError;

verus! {

/// `buf` with its first bytes replaced by `bytes`; the rest is kept.
pub open spec fn overwrite(buf: Seq<u8>, bytes: Seq<u8>) -> Seq<u8> {
    bytes + buf.subrange(bytes.len() as int, buf.len() as int)
}

/// The byte region that the host hands over for one account.
pub struct AccountBuffer {
    data: Vec<u8>,
}

impl AccountBuffer {
    /// The bytes of the region; its length is the capacity.
    pub closed spec fn view(&self) -> Seq<u8> {
        self.data@
    }

    /// A freshly allocated region of `capacity` zero bytes.
    pub fn zeroed(capacity: usize) -> (r: Self)
        ensures
            r@ == Seq::new(capacity as nat, |i: int| 0u8),
    {
        let mut data: Vec<u8> = Vec::new();
        let mut i: usize = 0;
        while i < capacity
            invariant
                i <= capacity,
                data@ == Seq::new(i as nat, |j: int| 0u8),
            decreases capacity - i,
        {
            data.push(0u8);
            i += 1;
            proof {
                assert(data@ =~= Seq::new(i as nat, |j: int| 0u8));
            }
        }
        AccountBuffer { data }
    }

    /// A region holding exactly `data`; its capacity is `data`'s length.
    pub fn from_bytes(data: Vec<u8>) -> (r: Self)
        ensures
            r@ == data@,
    {
        AccountBuffer { data }
    }

    /// The fixed capacity of the region, in bytes.
    pub fn capacity(&self) -> (r: usize)
        ensures
            r == self@.len(),
    {
        self.data.len()
    }

    /// The bytes of the region.
    pub fn as_slice(&self) -> (r: &[u8])
        ensures
            r@ == self@,
    {
        self.data.as_slice()
    }

    /// Writes `bytes` at the start of the region. Fails with
    /// `CapacityError`, changing nothing, when they do not fit.
    pub fn write_prefix(&mut self, bytes: &[u8]) -> (r: Result<(), StoreError>)
        ensures
            final(self)@.len() == old(self)@.len(),
            bytes@.len() <= old(self)@.len() ==> r is Ok && final(self)@ == overwrite(
                old(self)@,
                bytes@,
            ),
            bytes@.len() > old(self)@.len() ==> r == Err::<(), StoreError>(
                StoreError::CapacityError,
            ) && final(self)@ == old(self)@,
    {
        if bytes.len() > self.data.len() {
            return Err(StoreError::CapacityError);
        }
        let mut i: usize = 0;
        while i < bytes.len()
            invariant
                bytes@.len() <= old(self)@.len(),
                i <= bytes@.len(),
                self.data@.len() == old(self)@.len(),
                forall|j: int| 0 <= j < i ==> self.data@[j] == bytes@[j],
                forall|j: int| i <= j < old(self)@.len() ==> self.data@[j] == old(self)@[j],
            decreases bytes@.len() - i,
        {
            self.data.set(i, bytes[i]);
            i += 1;
        }
        proof {
            assert(self.data@ =~= overwrite(old(self)@, bytes@));
        }
        Ok(())
    }
}

} // verus!
