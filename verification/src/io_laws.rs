//! Laws of the decisions around a socket call: what an error number means,
//! how much one call moves, and what is armed.
use vstd::prelude::*;
use crate::api;
use crate::api::{IoUringDriver, PollRequest, Rearm, Registration};
use crate::reactor;
use crate::reactor::{EpollEvent, Interest, RawEvent};
use crate::transport;
use crate::transport::{OnError, Scatter, ScatterStep};

verus! {

/// Error numbers: 11 is nothing to do now; 11, 2 and 42 end an error queue;
/// and 91, 92, 93, 95, 97 and 107 say that SCTP is not to be had.
pub proof fn law_error_numbers(errno: i32, waits: bool, drained: bool, missing: bool)
    requires
        call_ensures(transport::would_block, (errno,), waits),
        call_ensures(transport::queue_drained, (errno,), drained),
        call_ensures(transport::unsupported, (errno,), missing),
    ensures
        waits <==> errno == 11,
        drained <==> errno == 11 || errno == 2 || errno == 42,
        missing <==> errno == 91 || errno == 92 || errno == 93 || errno == 95 || errno == 97
            || errno == 107,
{
}

/// A failed option is an error where it must be set, with every number but 95
/// where it may be unsupported, and never where it does not matter.
pub proof fn law_failed_options(how: OnError, errno: i32, failed: bool)
    requires
        call_ensures(transport::option_failed, (how, errno), failed),
    ensures
        how == OnError::Fail ==> failed,
        how == OnError::IgnoreUnsupported ==> (failed <==> errno != 95),
        how == OnError::Ignore ==> !failed,
{
}

/// A listener's backlog and an array of events are never empty, and else as
/// large as asked for.
pub proof fn law_least_sizes(backlog: i32, b: i32, events: usize, e: usize)
    requires
        call_ensures(transport::listen_backlog, (backlog,), b),
        call_ensures(reactor::event_capacity, (events,), e),
    ensures
        backlog >= 1 ==> b == backlog,
        backlog < 1 ==> b == 1,
        events >= 1 ==> e == events,
        events == 0 ==> e == 1,
{
}

/// One call moves up to 64 datagrams: a receive as many as there are buffers
/// and places for what came, a send as many as there are.
pub proof fn law_batches(bufs: usize, out: usize, n: usize, msgs: usize, m: usize)
    requires
        call_ensures(transport::recv_batch_len, (bufs, out), n),
        call_ensures(transport::send_batch_len, (msgs,), m),
    ensures
        bufs <= out && bufs <= 64 ==> n == bufs,
        out <= bufs && out <= 64 ==> n == out,
        bufs >= 64 && out >= 64 ==> n == 64,
        msgs <= 64 ==> m == msgs,
        msgs > 64 ==> m == 64,
{
}

/// A received datagram is as long as the kernel says, up to its buffer, and
/// is cut where the kernel says so: bit 5 of the flags.
pub proof fn law_received_lengths(len: u32, capacity: usize, flags: i32, r: (usize, bool))
    requires
        call_ensures(transport::recv_length, (len, capacity, flags), r),
    ensures
        len <= capacity ==> r.0 == len,
        len > capacity ==> r.0 == capacity,
        r.1 <==> flags & 0x20 != 0,
{
}

/// Bit 15 of its flags tells a notification from data.
pub proof fn law_notifications(flags: i32, r: bool)
    requires
        call_ensures(transport::is_notification, (flags,), r),
    ensures
        r <==> flags & 0x8000 != 0,
{
}

/// A scattered transfer goes over its buffers from the first on, 16 at a
/// time, and the rest at the end.
pub proof fn law_scattered_transfers(buffers: usize, r: (Scatter, ScatterStep))
    requires
        call_ensures(Scatter::start, (buffers,), r),
    ensures
        buffers == 0 ==> r.1 == ScatterStep::Done(0),
        0 < buffers <= 16 ==> r.1 == (ScatterStep::Transfer { from: 0, to: buffers }),
        buffers > 16 ==> r.1 == (ScatterStep::Transfer { from: 0, to: 16 }),
{
}

/// The rest of a scattered transfer: from where it stands, 16 buffers or what
/// is left of them; at the end, the bytes moved so far.
pub proof fn law_scattered_transfers_go_on(s: Scatter)
    ensures
        s.at >= s.buffers ==> s.chunk() == ScatterStep::Done(s.total),
        s.at < s.buffers && s.buffers - s.at <= 16 ==> s.chunk() == (ScatterStep::Transfer {
            from: s.at,
            to: s.buffers,
        }),
        s.at < s.buffers && s.buffers - s.at > 16 ==> s.chunk() == (ScatterStep::Transfer {
            from: s.at,
            to: (s.at + 16) as usize,
        }),
{
}

/// An interest in reading is bit 0, one in writing bit 2; edges are asked for
/// with bit 31, and a poll asks for errors and hang-ups, bits 3 and 4, too.
pub proof fn law_interests(i: Interest, epoll: u32, poll: u32, reads: bool, writes: bool)
    requires
        call_ensures(Interest::flags, (i,), epoll),
        call_ensures(api::poll_flags, (i,), poll),
        call_ensures(Interest::wants_read, (i,), reads),
        call_ensures(Interest::wants_write, (i,), writes),
    ensures
        i == Interest::Readable ==> epoll == 0x8000_0001 && poll == 25 && reads && !writes,
        i == Interest::Writable ==> epoll == 0x8000_0004 && poll == 28 && !reads && writes,
        i == Interest::ReadableWritable ==> epoll == 0x8000_0005 && poll == 29 && reads && writes,
{
}

/// Events come out in the order in which they came in, each under its token
/// and with its bits, up to the number that the kernel gave.
pub proof fn law_events_are_delivered(events: Vec<RawEvent>, n: usize, out: Vec<EpollEvent>, i: int)
    requires
        call_ensures(reactor::delivered, (&events, n), out),
    ensures
        n <= events@.len() ==> out@.len() == n,
        n > events@.len() ==> out@.len() == events@.len(),
        0 <= i < out@.len() ==> {
            &&& out@[i].token == events@[i].token
            &&& out@[i].readable <==> events@[i].bits & 1 != 0
            &&& out@[i].writable <==> events@[i].bits & 4 != 0
            &&& out@[i].error <==> events@[i].bits & 8 != 0
            &&& out@[i].hang_up <==> events@[i].bits & 16 != 0
        },
{
}

/// A new token is polled for its interest, on its descriptor; a known one is
/// not registered again, but its poll is cancelled and replaced on request.
pub proof fn law_registrations(
    d: IoUringDriver,
    fd: i32,
    token: u64,
    i: Interest,
    bits: u32,
    r: Result<PollRequest, api::AlreadyRegistered>,
    m: Rearm,
    g: Option<Registration>,
)
    requires
        d.wf(),
        call_ensures(api::poll_flags, (i,), bits),
        call_ensures(IoUringDriver::register, (&d, fd, token, i), r),
        call_ensures(IoUringDriver::modify, (&d, fd, token, i), m),
        call_ensures(IoUringDriver::get, (&d, token), g),
    ensures
        d@.contains_key(token) <==> r is Err,
        r matches Ok(p) ==> p.fd == fd && p.token == token && p.flags == bits,
        m.cancel <==> d@.contains_key(token),
        m.poll.fd == fd && m.poll.token == token && m.poll.flags == bits,
        d@.contains_key(token) ==> g == Some(d@[token]),
        !d@.contains_key(token) ==> g is None,
{
}

/// A completion arms the poll again exactly where it was the only one in
/// flight; else one less is left.
pub proof fn law_last_poll_is_armed_again(n: u32)
    requires
        n >= 1,
    ensures
        n == 1 ==> api::rearms(n) && api::left_in_flight(n) == 1,
        n > 1 ==> !api::rearms(n) && api::left_in_flight(n) == n - 1,
{
}

} // verus!
