//! The pending echo of one full-duplex channel: what was received and not
//! yet written back. A channel with a backlog stops reading until it is
//! gone, so what is pending stays bounded by one receive burst.
use vstd::prelude::*;
use vstd::slice::slice_subrange;
use crate::bytes;
use crate::reactor::Interest;

verus! {

/// Received bytes that wait to be written back.
pub struct EchoBuffer {
    data: Vec<u8>,
    off: usize,
}

impl EchoBuffer {
    /// The pending bytes.
    pub closed spec fn view(&self) -> Seq<u8> {
        self.data@.skip(self.off as int)
    }

    /// The written part lies within the buffer.
    pub closed spec fn wf(&self) -> bool {
        self.off <= self.data@.len()
    }

    /// Nothing pending.
    pub fn new() -> (b: Self)
        ensures
            b.wf(),
            b@ == Seq::<u8>::empty(),
    {
        let b = EchoBuffer { data: Vec::new(), off: 0 };
        assert(b@ =~= Seq::<u8>::empty());
        b
    }

    /// Bytes were received.
    pub fn received(&mut self, chunk: &[u8])
        requires
            old(self).wf(),
        ensures
            final(self).wf(),
            final(self)@ == old(self)@ + chunk@,
    {
        bytes::put_all(&mut self.data, chunk);
        assert(self@ =~= old(self)@ + chunk@);
    }

    /// The pending bytes, to be written.
    pub fn rest(&self) -> (r: &[u8])
        requires
            self.wf(),
        ensures
            r@ == self@,
    {
        let r = slice_subrange(self.data.as_slice(), self.off, self.data.len());
        assert(r@ =~= self@);
        r
    }

    /// The first `n` pending bytes were written.
    pub fn wrote(&mut self, n: usize)
        requires
            old(self).wf(),
            n <= old(self)@.len(),
        ensures
            final(self).wf(),
            final(self)@ == old(self)@.skip(n as int),
    {
        let ghost before = self@;
        let len: usize = self.data.len();
        self.off = self.off + n;
        assert(self@ =~= before.skip(n as int));
        if self.off == len {
            self.data.clear();
            self.off = 0;
            assert(self@ =~= before.skip(n as int));
        }
    }

    /// Whether nothing is pending, so that the channel may read.
    pub fn is_drained(&self) -> (r: bool)
        requires
            self.wf(),
        ensures
            r == (self@.len() == 0),
    {
        self.off == self.data.len()
    }

    /// What the channel waits for: writability while bytes are pending,
    /// else readability.
    pub fn interest(&self) -> (r: Interest)
        requires
            self.wf(),
        ensures
            r == if self@.len() > 0 {
                Interest::Writable
            } else {
                Interest::Readable
            },
    {
        if self.is_drained() {
            Interest::Readable
        } else {
            Interest::Writable
        }
    }
}

/// What happens to a channel's pending bytes.
pub enum ChannelStep {
    /// [`EchoBuffer::received`] with these bytes.
    Received(Seq<u8>),
    /// [`EchoBuffer::wrote`] with this count.
    Wrote(nat),
}

/// The pending bytes after the steps, from none.
pub open spec fn pending(steps: Seq<ChannelStep>) -> Seq<u8>
    decreases steps.len(),
{
    if steps.len() == 0 {
        Seq::empty()
    } else {
        let before = pending(steps.drop_last());
        match steps.last() {
            ChannelStep::Received(chunk) => before + chunk,
            ChannelStep::Wrote(n) => before.skip(n as int),
        }
    }
}

/// Each count written is at most what was pending then.
pub open spec fn possible(steps: Seq<ChannelStep>) -> bool
    decreases steps.len(),
{
    steps.len() > 0 ==> {
        &&& possible(steps.drop_last())
        &&& steps.last() matches ChannelStep::Wrote(n) ==> n <= pending(steps.drop_last()).len()
    }
}

/// All bytes received, in order.
pub open spec fn all_received(steps: Seq<ChannelStep>) -> Seq<u8>
    decreases steps.len(),
{
    if steps.len() == 0 {
        Seq::empty()
    } else {
        match steps.last() {
            ChannelStep::Received(chunk) => all_received(steps.drop_last()) + chunk,
            ChannelStep::Wrote(_) => all_received(steps.drop_last()),
        }
    }
}

/// All bytes written back, in order: each write takes the front of what is
/// pending, as [`EchoBuffer::rest`] hands it out.
pub open spec fn all_written(steps: Seq<ChannelStep>) -> Seq<u8>
    decreases steps.len(),
{
    if steps.len() == 0 {
        Seq::empty()
    } else {
        match steps.last() {
            ChannelStep::Received(_) => all_written(steps.drop_last()),
            ChannelStep::Wrote(n) => all_written(steps.drop_last()) + pending(
                steps.drop_last(),
            ).take(n as int),
        }
    }
}

/// Bytes leave in the order in which they came, each once: after any
/// receives and writes, what was written followed by what is pending is
/// what was received.
pub proof fn law_bytes_leave_in_order(steps: Seq<ChannelStep>)
    requires
        possible(steps),
    ensures
        all_written(steps) + pending(steps) == all_received(steps),
    decreases steps.len(),
{
    if steps.len() > 0 {
        law_bytes_leave_in_order(steps.drop_last());
    }
    assert(all_written(steps) + pending(steps) =~= all_received(steps));
}

} // verus!
