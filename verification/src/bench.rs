//! The bookkeeping of the loopback benchmarks: their parameters, their
//! totals, and how a sender resumes and a failed call is treated.
use vstd::prelude::*;
use crate::engine;
use crate::engine::RecvResult;
use crate::transport;

verus! {

/// Datagrams per measurement round.
pub const BATCH: usize = 1024;

/// Datagrams per flow-control chunk.
pub const CHUNK: usize = 32;

/// Smallest and largest datagram of the one-way benchmark; the largest is
/// the IPv4 UDP payload maximum.
pub const MIN_DATAGRAM: usize = 64;

pub const MAX_PAYLOAD: usize = 65507;

/// Bytes per message of the SCTP benchmark.
pub const SCTP_MSG: usize = 32768;

/// The duration of a run: at least one second.
pub fn run_seconds(asked: u64) -> (r: u64)
    ensures
        r == if asked < 1 {
            1
        } else {
            asked
        },
{
    if asked < 1 {
        1
    } else {
        asked
    }
}

/// The datagram size of the one-way benchmark, within its limits.
pub fn large_datagram(asked: usize) -> (r: usize)
    ensures
        r == if asked < MIN_DATAGRAM {
            MIN_DATAGRAM
        } else if asked > MAX_PAYLOAD {
            MAX_PAYLOAD
        } else {
            asked
        },
{
    if asked < MIN_DATAGRAM {
        MIN_DATAGRAM
    } else if asked > MAX_PAYLOAD {
        MAX_PAYLOAD
    } else {
        asked
    }
}

/// The payload byte at place `i`.
pub fn payload_byte(i: usize) -> (r: u8)
    ensures
        r == i % 251,
{
    (i % 251) as u8
}

/// Totals of a run.
#[derive(Clone, Copy, Debug, PartialEq, Eq, Structural)]
pub struct Stats {
    pub packets: u64,
    pub bytes: u64,
}

impl Stats {
    /// Nothing counted.
    pub fn new() -> (s: Self)
        ensures
            s == (Stats { packets: 0, bytes: 0 }),
    {
        Stats { packets: 0, bytes: 0 }
    }

    /// Count received datagrams and bytes; the totals wrap.
    pub fn add(&mut self, packets: u64, bytes: u64)
        ensures
            final(self).packets == (old(self).packets + packets) % 0x1_0000_0000_0000_0000,
            final(self).bytes == (old(self).bytes + bytes) % 0x1_0000_0000_0000_0000,
    {
        self.packets = self.packets.wrapping_add(packets);
        self.bytes = self.bytes.wrapping_add(bytes);
    }

    /// Count the whole datagrams among the first `n` of a batch.
    pub fn add_whole(&mut self, out: &[RecvResult], n: usize)
        requires
            n <= out@.len(),
        ensures
            final(self).packets == (old(self).packets + engine::whole(out@, n as int))
                % 0x1_0000_0000_0000_0000,
            final(self).bytes == (old(self).bytes + engine::whole_bytes(out@, n as int))
                % 0x1_0000_0000_0000_0000,
    {
        let plan = engine::plan_echo(out, n, 0);
        proof {
            vstd::arithmetic::div_mod::lemma_add_mod_noop_right(
                self.bytes as int,
                engine::whole_bytes(out@, n as int) as int,
                0x1_0000_0000_0000_0000,
            );
        }
        self.add(plan.packets, plan.bytes);
    }
}

/// The place in the message from which the SCTP sender goes on.
#[derive(Clone, Copy, Debug, PartialEq, Eq, Structural)]
pub struct SctpSender {
    pub off: usize,
}

impl SctpSender {
    /// At the start of a message.
    pub fn new() -> (s: Self)
        ensures
            s.off == 0,
    {
        SctpSender { off: 0 }
    }

    /// `n` bytes of the rest of the message were taken: go on behind them,
    /// or start over when the message is done.
    pub fn took(&mut self, n: usize)
        requires
            old(self).off < SCTP_MSG,
            n <= SCTP_MSG - old(self).off,
        ensures
            final(self).off == (old(self).off + n) % (SCTP_MSG as int),
            final(self).off < SCTP_MSG,
    {
        let next: usize = self.off + n;
        self.off = if next >= SCTP_MSG {
            0
        } else {
            next
        };
    }
}

/// What a benchmark does after a failed call.
#[derive(Clone, Copy, Debug, PartialEq, Eq, Structural)]
pub enum Failure {
    /// Nothing is ready: try again.
    Retry,
    /// SCTP is not supported here: skip the benchmark.
    Skip,
    /// The benchmark failed.
    Fail,
}

/// What an error number means to the SCTP benchmark.
pub fn sctp_failure(errno: i32) -> (r: Failure)
    ensures
        r == if errno == transport::EAGAIN {
            Failure::Retry
        } else if errno == transport::EPROTONOSUPPORT || errno == transport::EAFNOSUPPORT || errno
            == transport::EOPNOTSUPP || errno == transport::ENOPROTOOPT || errno
            == transport::EPROTOTYPE || errno == transport::ENOTCONN {
            Failure::Skip
        } else {
            Failure::Fail
        },
{
    if transport::would_block(errno) {
        Failure::Retry
    } else if transport::unsupported(errno) {
        Failure::Skip
    } else {
        Failure::Fail
    }
}

/// How long calls that find nothing ready are tried again, in milliseconds.
pub const RETRY_MS: u64 = 5000;

/// Whether trying again has failed: nothing was ready, and the time for it
/// is over.
pub fn retry_failed(f: Failure, now: u64, deadline: u64) -> (r: bool)
    ensures
        r == (f == Failure::Retry && now > deadline),
{
    f == Failure::Retry && now > deadline
}

/// The cost of `n` datagrams in one call, with a cost per call and one per
/// datagram.
pub open spec fn batch_cost(per_call: nat, per_datagram: nat, n: nat) -> nat {
    per_call + n * per_datagram
}

/// The cost of `n` datagrams in a call each.
pub open spec fn individual_cost(per_call: nat, per_datagram: nat, n: nat) -> nat {
    n * (per_call + per_datagram)
}

/// Batching is never worse than single calls, and strictly better for more
/// than one datagram when a call costs anything.
pub proof fn law_batching_is_never_worse(h: nat, d: nat, n: nat)
    requires
        n >= 1,
    ensures
        batch_cost(h, d, n) <= individual_cost(h, d, n),
        n > 1 && h > 0 ==> batch_cost(h, d, n) < individual_cost(h, d, n),
{
    assert(n * (h + d) == n * h + n * d) by (nonlinear_arith);
    assert(n * h >= h) by (nonlinear_arith)
        requires
            n >= 1,
    ;
    if n > 1 && h > 0 {
        assert(n * h > h) by (nonlinear_arith)
            requires
                n > 1,
                h > 0,
        ;
    }
}

/// The cost per datagram does not rise with the batch: the costs of `n` and
/// `n + 1` datagrams compare as `cost(n + 1) / (n + 1) <= cost(n) / n`,
/// here multiplied out.
pub proof fn law_amortized_cost_does_not_rise(h: nat, d: nat, n: nat)
    requires
        n >= 1,
    ensures
        batch_cost(h, d, n + 1) * n <= batch_cost(h, d, n) * (n + 1),
{
    assert((h + (n + 1) * d) * n == h * n + n * (n + 1) * d) by (nonlinear_arith);
    assert((h + n * d) * (n + 1) == h * n + h + n * (n + 1) * d) by (nonlinear_arith);
}

/// The cost per datagram tends to the cost of a datagram: the excess over
/// it, times the batch size, is the cost of one call.
pub proof fn law_amortized_cost_tends_to_datagram_cost(h: nat, d: nat, n: nat)
    ensures
        batch_cost(h, d, n) - n * d == h,
{
}

} // verus!
