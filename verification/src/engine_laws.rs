//! Laws of a worker: what its decisions answer, by the values they are given.
use vstd::prelude::*;
use crate::config::{CoreConfig, ReactorConfig};
use crate::engine;
use crate::engine::{
    AfterRead, AfterWrite, EchoConns, EventAction, InFlight, ReadResult, RecvResult, Stall,
    WriteResult, ZcState,
};

verus! {

/// A connection whose peer closed it, or that failed, is closed; data is sent
/// back; an interrupted read is tried again; and nothing to read ends the
/// turn.
pub proof fn law_reads_are_followed_up(r: ReadResult, a: AfterRead, n: usize)
    requires
        call_ensures(engine::after_read, (r,), a),
    ensures
        r == ReadResult::Eof || r == ReadResult::Failed || r == ReadResult::Data(0) ==> a
            == AfterRead::Close,
        n > 0 && r == ReadResult::Data(n) ==> a == AfterRead::Echo(n),
        r == ReadResult::Interrupted ==> a == AfterRead::Again,
        r == ReadResult::WouldBlock ==> a == AfterRead::Drained,
{
}

/// A write that went through is followed by a read, one that would block
/// gives its data up, and one that failed closes the connection.
pub proof fn law_writes_are_followed_up(w: WriteResult, a: AfterWrite)
    requires
        call_ensures(engine::after_write, (w,), a),
    ensures
        w == WriteResult::Done ==> a == AfterWrite::Again,
        w == WriteResult::WouldBlock ==> a == AfterWrite::Drop,
        w == WriteResult::Failed ==> a == AfterWrite::Close,
{
}

/// The three reserved tokens stand for the metrics endpoint, the datagrams
/// and the listener, every other one for its connection. An event with an
/// error is a drop.
pub proof fn law_events_are_told_apart(token: u64, error: bool, live: bool, a: EventAction)
    requires
        call_ensures(engine::on_event, (token, error, live), a),
    ensures
        error ==> a == EventAction::Drop,
        !error && token == u64::MAX ==> a == EventAction::Accept,
        !error && token == u64::MAX - 1 && live ==> a == EventAction::UdpZeroCopy,
        !error && token == u64::MAX - 1 && !live ==> a == EventAction::Udp,
        !error && token == u64::MAX - 2 ==> a == EventAction::Metrics,
        !error && token < u64::MAX - 2 ==> a == EventAction::Connection(token),
{
}

/// A configured number of workers is used, else one per logical CPU, else
/// one; and the first of them alone serves the metrics, where a path is set.
pub proof fn law_workers(cfg: CoreConfig, cpus: Option<usize>, n: usize, path: usize, b: bool)
    requires
        call_ensures(engine::worker_count, (&cfg, cpus), n),
        call_ensures(engine::serves_metrics, (n, path), b),
    ensures
        cfg.threads > 0 ==> n == cfg.threads,
        cfg.threads == 0 && cpus is Some ==> n == cpus->0,
        cfg.threads == 0 && cpus is None ==> n == 1,
        b <==> n == 0 && path > 0,
{
}

/// A worker waits for the configured time, to the millisecond, and not at
/// all while it polls or where the time is negative.
pub proof fn law_waiting_time(cfg: ReactorConfig, r: (i64, i64))
    requires
        call_ensures(engine::poll_timeout, (&cfg,), r),
    ensures
        cfg.busy_poll || cfg.timeout_ms < 0 ==> r == (0i64, 0i64),
        !cfg.busy_poll && cfg.timeout_ms >= 0 ==> r.0 == cfg.timeout_ms / 1000 && r.1 == (
        cfg.timeout_ms % 1000) * 1_000_000,
{
}

/// The next set is taken where it is free, else the other one where that is,
/// else none.
pub proof fn law_free_sets_are_taken(z: ZcState, r: Option<bool>)
    requires
        call_ensures(ZcState::choose_set, (&z,), r),
    ensures
        ({
            let next = if z.next_second {
                z.second
            } else {
                z.first
            };
            let other = if z.next_second {
                z.first
            } else {
                z.second
            };
            &&& next is None ==> r == Some(z.next_second)
            &&& next is Some && other is None ==> r == Some(!z.next_second)
            &&& next is Some && other is Some ==> r is None
        }),
{
}

/// A set in flight stays until every one of its sends was notified.
pub proof fn law_sets_wait_for_all_their_sends(before: u64, count: u64, acked: u64)
    requires
        before + count <= u64::MAX,
    ensures
        acked < before + count ==> engine::recycled(Some(InFlight { before, count }), acked)
            == Some(InFlight { before, count }),
        acked >= before + count ==> engine::recycled(Some(InFlight { before, count }), acked)
            is None,
        engine::recycled(None, acked) is None,
{
}

/// A stall of less than five milliseconds is waited out, a longer one ends
/// sending without a copy for good, and a free set ends the stall.
pub proof fn law_stalls_are_timed(z: ZcState, since: u64, now: u64)
    ensures
        ({
            let both = z.first is Some && z.second is Some;
            let began = ZcState { stall_start: Some(since), ..z };
            let fresh = ZcState { stall_start: None, ..z };
            &&& both && now < since + 5000 ==> began.after_stall(now) == (began, Stall::Retry)
            &&& both && now >= since + 5000 ==> began.after_stall(now) == (
                ZcState { disabled: true, ..began },
                Stall::Disabled,
            )
            &&& both ==> fresh.after_stall(since) == (began, Stall::Retry)
            &&& !both ==> began.after_stall(now) == (fresh, Stall::Retry)
        }),
{
}

/// Every received datagram is counted once: a cut one as a drop, a whole one
/// as a packet with its bytes, and it is sent back with its batch, without a
/// copy from `min` bytes on.
pub proof fn law_datagrams_are_counted(out: Seq<RecvResult>, n: int, min: int)
    requires
        0 <= n < out.len() <= usize::MAX,
    ensures
        engine::whole(out, 0) == 0 && engine::whole_bytes(out, 0) == 0,
        out[n].truncated ==> {
            &&& engine::whole(out, n + 1) == engine::whole(out, n)
            &&& engine::whole_bytes(out, n + 1) == engine::whole_bytes(out, n)
            &&& engine::chosen(out, n + 1, min, true) == engine::chosen(out, n, min, true)
            &&& engine::chosen(out, n + 1, min, false) == engine::chosen(out, n, min, false)
        },
        !out[n].truncated ==> {
            &&& engine::whole(out, n + 1) == engine::whole(out, n) + 1
            &&& engine::whole_bytes(out, n + 1) == engine::whole_bytes(out, n) + out[n].len
            &&& engine::chosen(out, n + 1, min, out[n].len >= min) == engine::chosen(
                out,
                n,
                min,
                out[n].len >= min,
            ).push(n as usize)
            &&& engine::chosen(out, n + 1, min, out[n].len < min) == engine::chosen(
                out,
                n,
                min,
                out[n].len < min,
            )
        },
{
    reveal_with_fuel(engine::whole, 2);
    reveal_with_fuel(engine::whole_bytes, 2);
    reveal_with_fuel(engine::chosen, 2);
}

/// A token leads to the slot in its low half, where the high half names the
/// worker and the slot holds a connection; every other token leads nowhere.
pub proof fn law_tokens_lead_to_slots(c: EchoConns, worker: u32, slot: u32)
    requires
        c.wf(),
    ensures
        ({
            let token = (worker as int * 0x1_0000_0000 + slot) as u64;
            c.slot_of(token) == if worker == c.core_id && slot < 1024 && c.live@[slot as int] {
                Some(slot as int)
            } else {
                None
            }
        }),
{
}

} // verus!
