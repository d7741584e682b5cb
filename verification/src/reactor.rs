//! The readiness model of the epoll reactor: interests, delivered events
//! and poll timeouts. Every registration is edge-triggered, so a handler
//! drains its descriptor until the kernel would block.
use vstd::prelude::*;

verus! {

/// Readable.
pub const EPOLLIN: u32 = 0x1;

/// Writable.
pub const EPOLLOUT: u32 = 0x4;

/// Error.
pub const EPOLLERR: u32 = 0x8;

/// Hang-up.
pub const EPOLLHUP: u32 = 0x10;

/// Edge-triggered.
pub const EPOLLET: u32 = 0x8000_0000;

/// The events that a registration is interested in.
#[derive(Clone, Copy, Debug, PartialEq, Eq, Structural)]
pub enum Interest {
    Readable,
    Writable,
    ReadableWritable,
}

impl Interest {
    /// Interested in reading.
    pub open spec fn reads(self) -> bool {
        self is Readable || self is ReadableWritable
    }

    /// Interested in writing.
    pub open spec fn writes(self) -> bool {
        self is Writable || self is ReadableWritable
    }

    /// The epoll flags: what is asked for, edge-triggered.
    pub fn flags(self) -> (r: u32)
        ensures
            r == (if self.reads() {
                EPOLLIN as int
            } else {
                0
            }) + (if self.writes() {
                EPOLLOUT as int
            } else {
                0
            }) + EPOLLET,
    {
        match self {
            Interest::Readable => EPOLLIN + EPOLLET,
            Interest::Writable => EPOLLOUT + EPOLLET,
            Interest::ReadableWritable => EPOLLIN + EPOLLOUT + EPOLLET,
        }
    }

    /// Interested in reading.
    pub fn wants_read(self) -> (r: bool)
        ensures
            r == self.reads(),
    {
        match self {
            Interest::Readable | Interest::ReadableWritable => true,
            Interest::Writable => false,
        }
    }

    /// Interested in writing.
    pub fn wants_write(self) -> (r: bool)
        ensures
            r == self.writes(),
    {
        match self {
            Interest::Writable | Interest::ReadableWritable => true,
            Interest::Readable => false,
        }
    }
}

/// An event as the kernel delivers it: the token and the ready bits.
#[derive(Clone, Copy, Debug, PartialEq, Eq, Structural)]
pub struct RawEvent {
    pub token: u64,
    pub bits: u32,
}

/// One delivered event: the token and the ready flags.
#[derive(Clone, Copy, Debug, PartialEq, Eq, Structural)]
pub struct EpollEvent {
    pub token: u64,
    pub readable: bool,
    pub writable: bool,
    pub hang_up: bool,
    pub error: bool,
}

/// What a kernel event says.
pub open spec fn event_of(e: RawEvent) -> EpollEvent {
    EpollEvent {
        token: e.token,
        readable: e.bits & EPOLLIN != 0,
        writable: e.bits & EPOLLOUT != 0,
        hang_up: e.bits & EPOLLHUP != 0,
        error: e.bits & EPOLLERR != 0,
    }
}

impl Default for EpollEvent {
    fn default() -> (r: Self)
        ensures
            r == (EpollEvent {
                token: 0,
                readable: false,
                writable: false,
                hang_up: false,
                error: false,
            }),
    {
        EpollEvent { token: 0, readable: false, writable: false, hang_up: false, error: false }
    }
}

impl EpollEvent {
    /// Read a kernel event.
    pub fn from_raw(e: &RawEvent) -> (r: Self)
        ensures
            r == event_of(*e),
    {
        EpollEvent {
            token: e.token,
            readable: e.bits & EPOLLIN != 0,
            writable: e.bits & EPOLLOUT != 0,
            hang_up: e.bits & EPOLLHUP != 0,
            error: e.bits & EPOLLERR != 0,
        }
    }
}

/// The capacity of the event array: at least one.
pub fn event_capacity(max_events: usize) -> (r: usize)
    ensures
        r == if max_events == 0 {
            1
        } else {
            max_events
        },
{
    if max_events == 0 {
        1
    } else {
        max_events
    }
}

/// The first `n` events of the last poll.
pub fn delivered(events: &Vec<RawEvent>, n: usize) -> (out: Vec<EpollEvent>)
    ensures
        out@ == events@.take(
            if n < events@.len() {
                n as int
            } else {
                events@.len() as int
            },
        ).map_values(|e: RawEvent| event_of(e)),
{
    let m: usize = if n < events.len() {
        n
    } else {
        events.len()
    };
    let ghost all = events@.take(m as int).map_values(|e: RawEvent| event_of(e));
    let mut out: Vec<EpollEvent> = Vec::new();
    let mut i: usize = 0;
    while i < m
        invariant
            i <= m,
            m <= events@.len(),
            all == events@.take(m as int).map_values(|e: RawEvent| event_of(e)),
            out@ == all.take(i as int),
        decreases m - i,
    {
        out.push(EpollEvent::from_raw(&events[i]));
        i += 1;
        assert(all.take(i as int) =~= all.take(i - 1).push(all[i - 1]));
    }
    assert(all.take(i as int) =~= all);
    out
}

/// Copy the first `n` delivered events into `out`, as far as both reach,
/// and return how many were copied.
pub fn copy_events(events: &Vec<RawEvent>, n: usize, out: &mut [EpollEvent]) -> (m: usize)
    ensures
        m <= n && m <= events@.len() && m <= old(out)@.len(),
        m == n || m == events@.len() || m == old(out)@.len(),
        final(out)@.len() == old(out)@.len(),
        forall|i: int| 0 <= i < m ==> final(out)@[i] == event_of(#[trigger] events@[i]),
        forall|i: int| m <= i < old(out)@.len() ==> #[trigger] final(out)@[i] == old(out)@[i],
{
    let mut m: usize = n;
    if events.len() < m {
        m = events.len();
    }
    if out.len() < m {
        m = out.len();
    }
    let mut i: usize = 0;
    while i < m
        invariant
            i <= m,
            m <= events@.len(),
            m <= out@.len(),
            out@.len() == old(out)@.len(),
            forall|j: int| 0 <= j < i ==> out@[j] == event_of(#[trigger] events@[j]),
            forall|j: int| i <= j < out@.len() ==> #[trigger] out@[j] == old(out)@[j],
        decreases m - i,
    {
        out[i] = EpollEvent::from_raw(&events[i]);
        i += 1;
    }
    m
}

/// The flags of an interest ask for exactly what it wants, and always for
/// edge triggering.
pub proof fn law_interest_flags(i: Interest, bits: u32)
    requires
        bits == (if i.reads() {
            EPOLLIN as int
        } else {
            0
        }) + (if i.writes() {
            EPOLLOUT as int
        } else {
            0
        }) + EPOLLET,
    ensures
        (bits & EPOLLIN != 0) == i.reads(),
        (bits & EPOLLOUT != 0) == i.writes(),
        bits & EPOLLET != 0,
{
    assert(0x8000_0001u32 & 0x1 != 0 && 0x8000_0001u32 & 0x4 == 0 && 0x8000_0001u32 & 0x8000_0000
        != 0) by (bit_vector);
    assert(0x8000_0004u32 & 0x1 == 0 && 0x8000_0004u32 & 0x4 != 0 && 0x8000_0004u32 & 0x8000_0000
        != 0) by (bit_vector);
    assert(0x8000_0005u32 & 0x1 != 0 && 0x8000_0005u32 & 0x4 != 0 && 0x8000_0005u32 & 0x8000_0000
        != 0) by (bit_vector);
}

} // verus!
