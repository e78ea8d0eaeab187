use vstd::prelude::*;

use crate::transport::{Transport, TransportError};

verus! {

/// A buffered reader over a transport with a peek-then-consume protocol.
///
/// Every byte the transport has produced is recorded in the ghost history
/// `received`; the first `taken` of them have been consumed by the caller, and
/// the rest are exactly the bytes still held in the buffer.
pub struct AccReader<T: Transport> {
    inner: T,
    buf: Vec<u8>,
    pos: usize,
    received: Ghost<Seq<u8>>,
    taken: Ghost<nat>,
    empties: Ghost<nat>,
    failures: Ghost<nat>,
}

impl<T: Transport> AccReader<T> {
    /// All bytes the transport has produced through this reader.
    pub closed spec fn received(&self) -> Seq<u8> {
        self.received@
    }

    /// How many of the received bytes the caller has consumed.
    /// How many reads of the transport returned no bytes (end-of-stream).
    pub closed spec fn empty_reads(&self) -> nat {
        self.empties@
    }

    /// How many reads of the transport failed.
    pub closed spec fn failed_reads(&self) -> nat {
        self.failures@
    }

    pub closed spec fn taken(&self) -> nat {
        self.taken@
    }

    /// The bytes received but not yet consumed.
    pub closed spec fn pending(&self) -> Seq<u8> {
        self.buf@.subrange(self.pos as int, self.buf@.len() as int)
    }

    pub closed spec fn inner_transport(&self) -> T {
        self.inner
    }

    pub closed spec fn wf(&self) -> bool {
        &&& self.pos <= self.buf@.len()
        &&& self.buf@.len() <= usize::MAX
        &&& self.taken@ <= self.received@.len()
        &&& self.pending() == self.received@.subrange(self.taken@ as int, self.received@.len() as int)
    }

    /// Wraps a transport, with an empty buffer of the given initial capacity.
    pub fn with_capacity(capacity: usize, inner: T) -> (r: Self)
        ensures
            r.wf(),
            r.received() == Seq::<u8>::empty(),
            r.taken() == 0,
            r.empty_reads() == 0,
            r.failed_reads() == 0,
            r.pending() == Seq::<u8>::empty(),
            r.inner_transport() == inner,
    {
        AccReader {
            inner,
            buf: Vec::with_capacity(capacity),
            pos: 0,
            received: Ghost(Seq::empty()),
            taken: Ghost(0),
            empties: Ghost(0),
            failures: Ghost(0),
        }
    }

    /// Wraps a transport, with an empty buffer.
    pub fn new(inner: T) -> (r: Self)
        ensures
            r.wf(),
            r.received() == Seq::<u8>::empty(),
            r.taken() == 0,
            r.empty_reads() == 0,
            r.failed_reads() == 0,
            r.pending() == Seq::<u8>::empty(),
            r.inner_transport() == inner,
    {
        Self::with_capacity(0, inner)
    }

    /// The number of buffered, unconsumed bytes.
    pub fn available(&self) -> (r: usize)
        requires
            self.wf(),
        ensures
            r == self.pending().len(),
    {
        self.buf.len() - self.pos
    }

    /// The buffered byte at offset `i` of the unconsumed range.
    pub fn byte_at(&self, i: usize) -> (r: u8)
        requires
            self.wf(),
            i < self.pending().len(),
        ensures
            r == self.pending()[i as int],
    {
        self.buf[self.pos + i]
    }

    /// The unconsumed bytes, valid until the next `fill` or `consume`.
    pub fn buffer(&self) -> (r: &[u8])
        requires
            self.wf(),
        ensures
            r@ == self.pending(),
    {
        vstd::slice::slice_subrange(self.buf.as_slice(), self.pos, self.buf.len())
    }

    /// Performs one read from the transport and appends what it produced.
    /// Returns the number of bytes added; zero signals end-of-stream.
    pub fn fill(&mut self) -> (r: Result<usize, TransportError>)
        requires
            old(self).wf(),
        ensures
            final(self).wf(),
            final(self).taken() == old(self).taken(),
            final(self).empty_reads() == if r matches Ok(0) {
                old(self).empty_reads() + 1
            } else {
                old(self).empty_reads()
            },
            final(self).failed_reads() == if r is Err {
                old(self).failed_reads() + 1
            } else {
                old(self).failed_reads()
            },
            match r {
                Ok(n) => {
                    &&& final(self).received().len() == old(self).received().len() + n
                    &&& final(self).received().subrange(0, old(self).received().len() as int)
                        == old(self).received()
                    &&& final(self).pending() == old(self).pending() + final(self).received().subrange(
                        old(self).received().len() as int,
                        final(self).received().len() as int,
                    )
                },
                Err(_) => {
                    &&& final(self).received() == old(self).received()
                    &&& final(self).pending() == old(self).pending()
                },
            },
    {
        if self.pos == self.buf.len() {
            // Every buffered byte has been consumed: drop them.
            self.buf.clear();
            self.pos = 0;
            assert(self.pending() =~= old(self).pending());
        }
        match self.inner.read_some() {
            Ok(data) => {
                let n = data.len();
                let ghost fresh = data@;
                let ghost old_pending = self.pending();
                let ghost old_buf = self.buf@;
                let mut data = data;
                self.buf.append(&mut data);
                // The buffer's length is a `usize`: this keeps the bound of `wf`.
                let _buffered: usize = self.buf.len();
                proof {
                    self.received@ = self.received@ + fresh;
                    if n == 0 {
                        self.empties@ = self.empties@ + 1;
                    }
                }
                assert(self.buf@ == old_buf + fresh);
                assert(self.pending() =~= old_pending + fresh);
                assert(self.received@.subrange(self.taken@ as int, self.received@.len() as int)
                    =~= old(self).received@.subrange(self.taken@ as int, old(self).received@.len() as int) + fresh);
                assert(self.received@.subrange(0, old(self).received@.len() as int) =~= old(self).received@);
                assert(self.received@.subrange(old(self).received@.len() as int, self.received@.len() as int) =~= fresh);
                Ok(n)
            },
            Err(e) => {
                proof {
                    self.failures@ = self.failures@ + 1;
                }
                Err(e)
            },
        }
    }

    /// Marks the first `n` unconsumed bytes as consumed.
    pub fn consume(&mut self, n: usize)
        requires
            old(self).wf(),
            n <= old(self).pending().len(),
        ensures
            final(self).wf(),
            final(self).received() == old(self).received(),
            final(self).taken() == old(self).taken() + n,
            final(self).empty_reads() == old(self).empty_reads(),
            final(self).failed_reads() == old(self).failed_reads(),
            final(self).pending() == old(self).pending().subrange(n as int, old(self).pending().len() as int),
            final(self).inner_transport() == old(self).inner_transport(),
    {
        self.pos = self.pos + n;
        proof {
            self.taken@ = (self.taken@ + n) as nat;
        }
        assert(self.pending() =~= old(self).pending().subrange(n as int, old(self).pending().len() as int));
        assert(self.received@.subrange(self.taken@ as int, self.received@.len() as int)
            =~= old(self).pending().subrange(n as int, old(self).pending().len() as int));
    }

    /// The unconsumed bytes are always exactly the received bytes past the
    /// consumed prefix: filling never overwrites an unconsumed byte, and
    /// consuming never drops one it was not asked to. At most `usize::MAX`
    /// bytes are ever buffered.
    pub proof fn lemma_pending_is_unconsumed_suffix(&self)
        requires
            self.wf(),
        ensures
            self.taken() <= self.received().len(),
            self.pending() == self.received().subrange(self.taken() as int, self.received().len() as int),
            self.pending().len() <= usize::MAX,
    {
    }

    /// A copy of the first `n` unconsumed bytes; nothing is consumed.
    pub fn peek(&self, n: usize) -> (r: Vec<u8>)
        requires
            self.wf(),
            n <= self.pending().len(),
        ensures
            r@ == self.pending().subrange(0, n as int),
    {
        let s = vstd::slice::slice_subrange(self.buf.as_slice(), self.pos, self.pos + n);
        let mut out: Vec<u8> = Vec::new();
        out.extend_from_slice(s);
        assert(out@ =~= self.pending().subrange(0, n as int));
        out
    }

    /// Appends the first `n` unconsumed bytes to `out` and consumes them.
    pub fn copy_to(&mut self, out: &mut Vec<u8>, n: usize)
        requires
            old(self).wf(),
            n <= old(self).pending().len(),
        ensures
            final(out)@ == old(out)@ + old(self).pending().subrange(0, n as int),
            final(self).wf(),
            final(self).received() == old(self).received(),
            final(self).taken() == old(self).taken() + n,
            final(self).empty_reads() == old(self).empty_reads(),
            final(self).failed_reads() == old(self).failed_reads(),
            final(self).pending() == old(self).pending().subrange(n as int, old(self).pending().len() as int),
            final(self).inner_transport() == old(self).inner_transport(),
    {
        let s = vstd::slice::slice_subrange(self.buf.as_slice(), self.pos, self.pos + n);
        out.extend_from_slice(s);
        assert(s@ =~= old(self).pending().subrange(0, n as int));
        self.consume(n);
    }

    /// Gives back the transport; buffered bytes are dropped.
    pub fn into_inner(self) -> (r: T)
        ensures
            r == self.inner_transport(),
    {
        self.inner
    }
}

} // verus!
