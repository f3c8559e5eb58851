//! A fixed buffer of up to 63 raw bytes with a one-byte length counter.

use vstd::prelude::*;
use vstd::slice::slice_subrange;

verus! {

/// The number of bytes a buffer can hold.
pub const CAPACITY: u8 = 63;

/// Returned when an append needs more free slots than the buffer has.
#[derive(Debug, PartialEq, Eq, Structural)]
pub struct CapacityError;

/// Up to 63 bytes stored inline.
///
/// The counter holds the number of free slots rather than the length: the
/// occupied prefix is `storage[0..CAPACITY - remaining]`.
#[derive(Clone, Copy, Debug)]
pub struct CacheBuf {
    remaining: u8,
    storage: [u8; 63],
}

impl View for CacheBuf {
    type V = Seq<u8>;

    /// The occupied prefix of the storage.
    closed spec fn view(&self) -> Seq<u8> {
        self.storage@.subrange(0, CAPACITY - self.remaining)
    }
}

impl CacheBuf {
    #[verifier::type_invariant]
    spec fn inv(self) -> bool {
        self.remaining <= CAPACITY
    }

    /// An empty buffer.
    pub fn new() -> (r: Self)
        ensures
            r@ == Seq::<u8>::empty(),
    {
        CacheBuf { remaining: CAPACITY, storage: [0u8; 63] }
    }

    /// The number of bytes held.
    pub fn len(&self) -> (r: usize)
        ensures
            r == self@.len(),
            r <= CAPACITY,
    {
        proof {
            use_type_invariant(self);
        }
        (CAPACITY - self.remaining) as usize
    }

    /// The fixed capacity, 63.
    pub fn capacity(&self) -> (r: usize)
        ensures
            r == CAPACITY,
    {
        CAPACITY as usize
    }

    /// The number of bytes that can still be appended.
    pub fn remaining_capacity(&self) -> (r: usize)
        ensures
            r == CAPACITY - self@.len(),
    {
        self.capacity() - self.len()
    }

    /// Whether no byte can be appended.
    pub fn is_full(&self) -> (r: bool)
        ensures
            r == (self@.len() == CAPACITY),
    {
        proof {
            use_type_invariant(self);
        }
        self.remaining == 0
    }

    /// Whether no byte is held.
    pub fn is_empty(&self) -> (r: bool)
        ensures
            r == (self@.len() == 0),
    {
        proof {
            use_type_invariant(self);
        }
        self.remaining == CAPACITY
    }

    /// The occupied prefix.
    pub fn as_bytes(&self) -> (r: &[u8])
        ensures
            r@ == self@,
    {
        proof {
            use_type_invariant(self);
        }
        let n = self.len();
        slice_subrange(self.storage.as_slice(), 0, n)
    }
}

impl CacheBuf {
    /// Appends one byte; the buffer must not be full. `try_push` is the
    /// checked form.
    pub fn push(&mut self, b: u8)
        requires
            old(self)@.len() < CAPACITY,
        ensures
            final(self)@ == old(self)@.push(b),
    {
        self.try_push(b).unwrap()
    }

    /// Appends one byte, or reports that the buffer is full and leaves it as it
    /// was.
    pub fn try_push(&mut self, b: u8) -> (r: Result<(), CapacityError>)
        ensures
            r is Err <==> old(self)@.len() + 1 > CAPACITY,
            r is Ok ==> final(self)@ == old(self)@.push(b),
            r is Err ==> final(self)@ == old(self)@,
    {
        proof {
            use_type_invariant(&*self);
        }
        if self.is_full() {
            Err(CapacityError)
        } else {
            self.push_unchecked(b);
            Ok(())
        }
    }

    /// Appends one byte; the caller has made sure there is room for it.
    pub fn push_unchecked(&mut self, b: u8)
        requires
            old(self)@.len() < CAPACITY,
        ensures
            final(self)@ == old(self)@.push(b),
    {
        proof {
            use_type_invariant(&*self);
        }
        let index = self.len();
        self.storage[index] = b;
        self.remaining = self.remaining - 1;
        proof {
            assert(self@ =~= old(self)@.push(b));
        }
    }

    /// Appends all of `slice`, which must fit. `try_extend_from_slice` is the
    /// checked form.
    pub fn extend_from_slice(&mut self, slice: &[u8])
        requires
            old(self)@.len() + slice@.len() <= CAPACITY,
        ensures
            final(self)@ == old(self)@ + slice@,
    {
        self.try_extend_from_slice(slice).unwrap()
    }

    /// Appends all of `slice` when it fits; otherwise reports the lack of room
    /// and writes nothing.
    pub fn try_extend_from_slice(&mut self, slice: &[u8]) -> (r: Result<(), CapacityError>)
        ensures
            r is Err <==> old(self)@.len() + slice@.len() > CAPACITY,
            r is Ok ==> final(self)@ == old(self)@ + slice@,
            r is Err ==> final(self)@ == old(self)@,
    {
        if slice.len() > self.remaining_capacity() {
            Err(CapacityError)
        } else {
            self.extend_from_slice_unchecked(slice);
            Ok(())
        }
    }

    /// Appends all of `slice`; the caller has made sure that it fits.
    pub fn extend_from_slice_unchecked(&mut self, slice: &[u8])
        requires
            old(self)@.len() + slice@.len() <= CAPACITY,
        ensures
            final(self)@ == old(self)@ + slice@,
    {
        proof {
            use_type_invariant(&*self);
        }
        let index = self.len();
        let n = slice.len();
        let mut i: usize = 0;
        while i < n
            invariant
                index == old(self)@.len(),
                index + n <= CAPACITY,
                n == slice@.len(),
                i <= n,
                self.remaining == old(self).remaining,
                self.remaining <= CAPACITY,
                self.storage@.len() == CAPACITY,
                self.storage@.subrange(0, index as int) == old(self)@,
                forall|j: int| 0 <= j < i ==> self.storage@[index + j] == slice@[j],
            decreases n - i,
        {
            self.storage[index + i] = slice[i];
            proof {
                assert(self.storage@.subrange(0, index as int) =~= old(self)@);
            }
            i = i + 1;
        }
        self.remaining = self.remaining - n as u8;
        proof {
            assert(self@ =~= old(self)@ + slice@);
        }
    }

    /// Shortens the buffer to its first `new_len` bytes. The bytes past the
    /// new end are not cleared; they only stop being part of the content.
    pub fn truncate(&mut self, new_len: usize)
        requires
            new_len <= old(self)@.len(),
        ensures
            final(self)@ == old(self)@.subrange(0, new_len as int),
    {
        proof {
            use_type_invariant(&*self);
        }
        self.remaining = CAPACITY - new_len as u8;
        proof {
            assert(self@ =~= old(self)@.subrange(0, new_len as int));
        }
    }
}

} // verus!
