//! Destinations that accept bytes in order.
use vstd::prelude::*;

verus! {

/// Why a sink refused bytes.
#[derive(Clone, Copy, Debug, PartialEq, Eq, Structural)]
pub enum SinkError {
    /// The sink has no room left for the bytes.
    Full,
    /// The device behind the sink failed.
    Device,
}

/// A destination that appends exact byte sequences in order, or reports
/// that it could not.
pub trait ByteSink {
    /// The bytes the sink holds so far.
    spec fn contents(&self) -> Seq<u8>;

    /// The sink is sure to take `n` more bytes, in one write or several.
    spec fn accepts(&self, n: nat) -> bool;

    /// A sink that takes `n` more bytes takes any fewer.
    proof fn lemma_accepts_fewer(&self, n: nat, m: nat)
        requires
            self.accepts(n),
            m <= n,
        ensures
            self.accepts(m),
    ;

    /// Appends all of `bytes`. On failure the sink keeps what it held and
    /// may hold any part of `bytes` after it.
    fn write_all(&mut self, bytes: &[u8]) -> (r: Result<(), SinkError>)
        ensures
            old(self).accepts(bytes@.len()) ==> r is Ok,
            old(self).contents().is_prefix_of(final(self).contents()),
            r is Ok ==> final(self).contents() == old(self).contents() + bytes@,
            r is Ok ==> forall|m: nat|
                old(self).accepts(bytes@.len() + m) ==> #[trigger] final(self).accepts(m),
    ;
}

/// A growable in-memory sink: it never refuses.
impl ByteSink for Vec<u8> {
    open spec fn contents(&self) -> Seq<u8> {
        self@
    }

    open spec fn accepts(&self, n: nat) -> bool {
        true
    }

    proof fn lemma_accepts_fewer(&self, n: nat, m: nat) {
    }

    fn write_all(&mut self, bytes: &[u8]) -> (r: Result<(), SinkError>)
        ensures
            r is Ok,
    {
        let mut i: usize = 0;
        while i < bytes.len()
            invariant
                0 <= i <= bytes@.len(),
                self@ == old(self)@ + bytes@.take(i as int),
            decreases bytes@.len() - i,
        {
            self.push(bytes[i]);
            i = i + 1;
            assert(self@ =~= old(self)@ + bytes@.take(i as int));
        }
        assert(bytes@.take(bytes@.len() as int) =~= bytes@);
        assert((old(self)@ + bytes@).take(old(self)@.len() as int) =~= old(self)@);
        Ok(())
    }
}

/// A fixed-capacity in-memory sink, as a mapped GPU buffer is: a write that
/// would pass the capacity is refused whole and leaves the buffer unchanged.
pub struct BoundedBuffer {
    bytes: Vec<u8>,
    capacity: usize,
}

impl View for BoundedBuffer {
    type V = Seq<u8>;

    closed spec fn view(&self) -> Seq<u8> {
        self.bytes@
    }
}

impl BoundedBuffer {
    /// The number of bytes the buffer can hold.
    pub closed spec fn spec_capacity(&self) -> nat {
        self.capacity as nat
    }

    /// An empty buffer that can hold `capacity` bytes.
    pub fn new(capacity: usize) -> (r: BoundedBuffer)
        ensures
            r@ == Seq::<u8>::empty(),
            r.spec_capacity() == capacity,
    {
        BoundedBuffer { bytes: Vec::new(), capacity }
    }

    /// The number of bytes the buffer can hold.
    pub fn capacity(&self) -> (r: usize)
        ensures
            r == self.spec_capacity(),
    {
        self.capacity
    }

    /// The bytes written so far.
    pub fn as_slice(&self) -> (r: &[u8])
        ensures
            r@ == self@,
    {
        self.bytes.as_slice()
    }

    /// Gives up the buffer, returning the bytes written so far.
    pub fn into_bytes(self) -> (r: Vec<u8>)
        ensures
            r@ == self@,
    {
        self.bytes
    }
}

impl ByteSink for BoundedBuffer {
    open spec fn contents(&self) -> Seq<u8> {
        self@
    }

    open spec fn accepts(&self, n: nat) -> bool {
        self@.len() + n <= self.spec_capacity()
    }

    proof fn lemma_accepts_fewer(&self, n: nat, m: nat) {
    }

    fn write_all(&mut self, bytes: &[u8]) -> (r: Result<(), SinkError>)
        ensures
            r is Ok <==> old(self)@.len() + bytes@.len() <= old(self).spec_capacity(),
            r is Err ==> r == Err::<(), SinkError>(SinkError::Full) && *final(self) == *old(self),
            final(self).spec_capacity() == old(self).spec_capacity(),
    {
        if self.bytes.len() > self.capacity || bytes.len() > self.capacity - self.bytes.len() {
            assert(self.bytes@.take(self.bytes@.len() as int) =~= self.bytes@);
            return Err(SinkError::Full);
        }
        let ghost start = self.bytes@;
        let mut i: usize = 0;
        while i < bytes.len()
            invariant
                0 <= i <= bytes@.len(),
                self.bytes@ == start + bytes@.take(i as int),
                self.capacity == old(self).capacity,
                start == old(self)@,
            decreases bytes@.len() - i,
        {
            self.bytes.push(bytes[i]);
            i = i + 1;
            assert(self.bytes@ =~= start + bytes@.take(i as int));
        }
        assert(bytes@.take(bytes@.len() as int) =~= bytes@);
        assert((start + bytes@).take(start.len() as int) =~= start);
        Ok(())
    }
}

} // verus!
