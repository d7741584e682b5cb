//! Laws of the figures that the datapath shares with the kernel: results,
//! flags, tokens, the receive header and the size of the queue.
use vstd::prelude::*;
use crate::uring;
use crate::uring::Op;
use crate::uring_pool;
use crate::uring_pool::{Outcome, RecvMsgOut};

verus! {

/// A result below zero is an error number with its sign turned, every other
/// one a count.
pub proof fn law_results(res: i32, r: Outcome)
    requires
        call_ensures(uring_pool::result, (res,), r),
        res > i32::MIN,
    ensures
        res >= 0 <==> r is Done,
        r matches Outcome::Done(n) ==> n == res,
        r matches Outcome::Failed(e) ==> e == -res,
{
}

/// The flags of a completion: bit 0 names a buffer, in the upper half, bit 1
/// announces more, and bit 3 marks a notification.
pub proof fn law_completion_flags(id: u16, low: u16, r: Option<u32>)
    requires
        call_ensures(uring_pool::received_buffer, ((id as int * 65536 + low) as u32,), r),
    ensures
        ({
            let flags = (id as int * 65536 + low) as u32;
            &&& low % 2 == 1 && id < uring_pool::POOL_TOTAL ==> r == Some(id as u32)
            &&& low % 2 == 0 ==> r is None
            &&& uring_pool::has_more(flags) <==> low % 4 >= 2
            &&& uring_pool::is_notif(flags) <==> low % 16 >= 8
        }),
{
}

/// A received payload stands behind 16 bytes of header, the name and the
/// control data, and is taken exactly where it ends within the buffer.
pub proof fn law_payloads(h: RecvMsgOut, r: Option<(u16, u16)>)
    requires
        call_ensures(RecvMsgOut::payload, (&h,), r),
    ensures
        ({
            let at = 16 + h.namelen + h.controllen;
            &&& r is Some <==> at + h.payloadlen <= uring_pool::CONN_BUF
            &&& r is Some ==> (r->0).0 == at && (r->0).1 == h.payloadlen
        }),
{
}

/// The multishot operations are there from major number six on.
pub proof fn law_modern_kernels(major: u32, minor: u32, r: bool)
    requires
        call_ensures(uring_pool::modern_capable, ((major, minor),), r),
    ensures
        r <==> major >= 6,
{
}

/// The token of each operation: its class in the upper four bits, under it
/// the slot, or the worker and the slot, or the buffer and the slot.
pub proof fn law_tokens(core: u32, slot: usize, id: u32, op: Op, t: Option<u64>)
    requires
        core < 0x1000_0000,
        slot < 1024,
        id < uring_pool::POOL_TOTAL,
        uring::op_fits(op),
        call_ensures(uring::user_data, (&op, core), t),
    ensures
        ({
            let conn = core as int * 0x1_0000_0000 + slot;
            let sent = id as int * 0x1_0000_0000 + slot;
            let class = 0x1000_0000_0000_0000int;
            &&& op == (Op::UdpRecv { slot }) ==> t is Some && t->0 == class + slot
            &&& (op matches Op::UdpSend { slot: s, .. } && s == slot) ==> t is Some && t->0 == 2
                * class + slot
            &&& op is Accept || op is AcceptMulti ==> t is Some && t->0 == 3 * class
            &&& (op matches Op::RecvMulti { slot: s, .. } && s == slot) ==> t is Some && t->0 == 4
                * class + conn
            &&& (op matches Op::Read { slot: s, .. } && s == slot) ==> t is Some && t->0 == 4
                * class + conn
            &&& op == (Op::CancelRecv { slot }) ==> t is Some && t->0 == 4 * class + conn
            &&& (op matches Op::Send { id: b, slot: s, .. } && b == id && s == slot) ==> t is Some
                && t->0 == 5 * class + sent
            &&& (op matches Op::Write { slot: s, .. } && s == slot) ==> t is Some && t->0 == 5
                * class + conn
            &&& (op matches Op::PollOut { slot: s, .. } && s == slot) ==> t is Some && t->0 == 6
                * class + conn
            &&& (op matches Op::RemoveBuffers { slot: s, .. } && s == slot) ==> t is Some && t->0
                == 7 * class + conn
            &&& op is Provide ==> t is Some && t->0 == 8 * class
            &&& op is PollMetrics ==> t is Some && t->0 == 12 * class
            &&& op is Timeout ==> t is Some && t->0 == 13 * class
            &&& op is CloseFd || op is ServeMetrics || op is Submit ==> t is None
        }),
{
}

/// The queue has room for what was asked for, rounded up to a power of two,
/// and for sixteen operations at least.
pub proof fn law_queue_size(entries: u32, k: nat)
    ensures
        entries <= 12 ==> uring::ring_entries(entries) == 16,
        entries > 12 && vstd::arithmetic::power2::pow2(k) < entries
            <= vstd::arithmetic::power2::pow2(k + 1) ==> uring::ring_entries(entries)
            == vstd::arithmetic::power2::pow2(k + 1),
{
    vstd::arithmetic::power2::lemma2_to64();
    crate::config_model::lemma_least_power_between(12, 3);
    if entries > 12 && vstd::arithmetic::power2::pow2(k) < entries
        <= vstd::arithmetic::power2::pow2(k + 1) {
        crate::config_model::lemma_least_power_between(entries as nat, k);
    }
}

} // verus!
