use vstd::prelude::*;
use vstd::slice::slice_subrange;

verus! {

// After login the proxy stops interpreting packets and pumps raw
// bytes in each direction. The loop around the sockets lives with the
// sockets; this buffer carries what was read until it is written, and
// its contract pins the order: bytes leave exactly as they arrived.

/// Bytes read from one peer and not yet written to the other, in
/// arrival order.
pub struct RelayBuffer {
    pub data: Vec<u8>,
    pub pos: usize,
}

impl RelayBuffer {
    pub open spec fn wf(&self) -> bool {
        self.pos <= self.data@.len()
    }

    /// The bytes still owed to the other peer, oldest first.
    pub open spec fn pending(&self) -> Seq<u8> {
        self.data@.skip(self.pos as int)
    }

    pub fn new() -> (b: RelayBuffer)
        ensures
            b.wf(),
            b.pending() == Seq::<u8>::empty(),
    {
        let b = RelayBuffer { data: Vec::new(), pos: 0 };
        proof {
            assert(b.pending() =~= Seq::<u8>::empty());
        }
        b
    }

    /// Queues the first `n` bytes of a freshly filled scratch buffer:
    /// they go behind everything already pending, nothing is lost and
    /// nothing is reordered.
    pub fn push_chunk(&mut self, chunk: &[u8], n: usize)
        requires
            old(self).wf(),
            n <= chunk@.len(),
        ensures
            final(self).wf(),
            final(self).pending() == old(self).pending() + chunk@.take(n as int),
    {
        let mut i: usize = 0;
        while i < n
            invariant
                self.wf(),
                i <= n <= chunk@.len(),
                self.pos == old(self).pos,
                self.data@ == old(self).data@ + chunk@.take(i as int),
            decreases n - i,
        {
            self.data.push(chunk[i]);
            i += 1;
            proof {
                assert(self.data@ =~= old(self).data@ + chunk@.take(i as int));
            }
        }
        proof {
            assert(self.pending() =~= old(self).pending() + chunk@.take(n as int));
        }
    }

    /// Records that the first `n` pending bytes were written out.
    pub fn mark_written(&mut self, n: usize)
        requires
            old(self).wf(),
            n <= old(self).pending().len(),
        ensures
            final(self).wf(),
            final(self).pending() == old(self).pending().skip(n as int),
    {
        let dlen = self.data.len();
        proof {
            assert(old(self).pending().len() == old(self).data@.len() - old(self).pos);
            assert(self.pos + n <= dlen);
        }
        self.pos = self.pos + n;
        proof {
            assert(self.pending() =~= old(self).pending().skip(n as int));
        }
    }

    /// How many bytes are still owed.
    pub fn pending_len(&self) -> (n: usize)
        requires
            self.wf(),
        ensures
            n == self.pending().len(),
    {
        self.data.len() - self.pos
    }

    /// The bytes still owed, for the write call.
    pub fn pending_slice(&self) -> (r: &[u8])
        requires
            self.wf(),
        ensures
            r@ == self.pending(),
    {
        let r = slice_subrange(self.data.as_slice(), self.pos, self.data.len());
        proof {
            assert(r@ =~= self.pending());
        }
        r
    }

    /// Drops the storage of already-written bytes once nothing is
    /// pending, so one buffer can serve a whole session.
    pub fn reset(&mut self)
        requires
            old(self).wf(),
            old(self).pending().len() == 0,
        ensures
            final(self).wf(),
            final(self).pending() == Seq::<u8>::empty(),
    {
        self.data.truncate(0);
        self.pos = 0;
        proof {
            assert(self.pending() =~= Seq::<u8>::empty());
        }
    }
}

} // verus!
