//! What each completion leads to on the io_uring datapath: received data is
//! sent back, short sends go on, dead connections are closed and their
//! buffers come back, and every operation that must stay armed is queued
//! again. Error numbers and operation classes are the kernel's and the
//! datapath's own figures.
use vstd::prelude::*;
use crate::conn::CONN_CAP;
use crate::uring;
use crate::uring::{Completed, ConnView, Op, PathView};
use crate::uring_pool;
use crate::uring_pool::{BufState, Outcome, POOL_TOTAL};

verus! {

/// `op` was handed out on the way from `s` to `t`.
pub open spec fn handed(s: PathView, t: PathView, op: Op) -> bool {
    exists|k: int| s.ops.len() <= k < t.ops.len() && #[trigger] t.ops[k] == op
}

/// What `s` has handed out, `t` has handed out first.
pub open spec fn follows(s: PathView, t: PathView) -> bool {
    &&& s.ops.len() <= t.ops.len()
    &&& forall|k: int| 0 <= k < s.ops.len() ==> #[trigger] t.ops[k] == s.ops[k]
}

proof fn lemma_handed_on(s: PathView, t: PathView, u: PathView, op: Op)
    requires
        handed(s, t, op),
        follows(t, u),
    ensures
        handed(s, u, op),
{
    let k = choose|k: int| s.ops.len() <= k < t.ops.len() && #[trigger] t.ops[k] == op;
    assert(u.ops[k] == op);
}

proof fn lemma_handed_now(s: PathView, t: PathView, op: Op)
    requires
        s.ops.len() < t.ops.len(),
        t.ops.last() == op,
    ensures
        handed(s, t, op),
{
    assert(t.ops[t.ops.len() - 1] == op);
}

/// A datapath with a place for every slot and every buffer, whose
/// connections list pool buffers only.
pub open spec fn whole(s: PathView) -> bool {
    &&& s.core_id < 0x1000_0000
    &&& s.conns.len() == CONN_CAP
    &&& s.hot.len() == CONN_CAP
    &&& s.cold.len() == CONN_CAP
    &&& s.pool.wf()
    &&& forall|j: int| #[trigger] s.is_open(j) ==> s.at(j).wf()
}

/// The token of an operation of class `kind` on the connection in slot `i`.
pub open spec fn conn_token(s: PathView, kind: int, i: int) -> int {
    kind * 0x1000_0000_0000_0000 + s.core_id * 0x1_0000_0000 + i
}

/// The token of a send of buffer `id` on the connection in slot `i`.
pub open spec fn send_token(id: u32, i: int) -> int {
    0x5000_0000_0000_0000 + id * 0x1_0000_0000 + i
}

proof fn lemma_conn_token(s: PathView, c: Completed, kind: u64, i: int)
    requires
        whole(s),
        0 <= i < CONN_CAP,
        kind < 16,
        c.token == conn_token(s, kind as int, i),
    ensures
        uring_pool::kind_of(c.token) == kind,
        s.slot_of(uring_pool::object_of(c.token)) == i,
{
    uring::law_tokens_lead_back(s, i, kind, 0);
}

proof fn lemma_send_token(s: PathView, c: Completed, id: u32, i: int)
    requires
        whole(s),
        0 <= i < CONN_CAP,
        id < POOL_TOTAL,
        c.token == send_token(id, i),
    ensures
        uring_pool::kind_of(c.token) == 5,
        uring_pool::send_slot(c.token) == i,
        uring_pool::send_buffer(c.token) == id,
{
    uring::law_tokens_lead_back(s, i, 5, id);
    uring_pool::law_token_roundtrip(5, 0, id, i as u32);
}

/// Where one connection changed and lists pool buffers only, the datapath
/// stays whole.
proof fn lemma_one_changed(s: PathView, t: PathView, i: int)
    requires
        whole(s),
        t.core_id == s.core_id,
        t.hot.len() == s.hot.len(),
        t.cold.len() == s.cold.len(),
        t.pool.wf(),
        0 <= i < s.conns.len(),
        t.conns == s.conns.update(i, t.conns[i]),
        t.is_open(i) ==> t.at(i).wf(),
    ensures
        whole(t),
{
    assert forall|j: int| #[trigger] t.is_open(j) implies t.at(j).wf() by {
        if j != i {
            assert(s.is_open(j));
        }
    }
}

/// The datapath with its counters cleared, as every completion starts.
spec fn cleared(s: PathView) -> PathView {
    PathView { tally: uring::Tally { packets: 0, bytes: 0, drops: 0 }, ..s }
}

// ---------------------------------------------------------------------
// Closing
// ---------------------------------------------------------------------

/// What closing an open connection does in the modern mode.
proof fn lemma_closed(s: PathView, i: int)
    requires
        !s.legacy,
        s.is_open(i),
        !s.at(i).closing,
        !s.at(i).recv_armed,
        !s.at(i).draining,
        s.at(i).fd >= 0,
        i < CONN_CAP,
    ensures
        ({
            let t = s.closed(i).0;
            let n = s.at(i).provided.len();
            &&& follows(s, t)
            &&& handed(s, t, Op::CloseFd { fd: s.at(i).fd })
            &&& t.is_open(i) ==> t.at(i).closing && t.at(i).fd < 0 && !t.at(i).recv_armed && t.at(
                i,
            ).to_send.len() == 0
            &&& n > 0 && s.has_room() ==> handed(
                s,
                t,
                Op::RemoveBuffers { count: n as u16, slot: i as usize },
            )
            &&& n == 0 && s.at(i).in_kernel.len() == 0 ==> !t.is_open(i) && t.free_slots
                == s.free_slots.push(i as usize)
            &&& t.tally == s.tally
            &&& forall|j: int| j != i ==> t.is_open(j) == s.is_open(j)
            &&& s.closed(i).1 == (n == 0 || s.has_room())
        }),
{
    let c = s.at(i);
    let (pool, outstanding) = uring::released(s.pool, c.to_send, c.outstanding);
    let u = PathView {
        pool,
        ..s.with(
            i,
            ConnView {
                closing: true,
                to_send: Seq::empty(),
                outstanding,
                fd: -1i32,
                ..c
            },
        )
    }.act(Op::CloseFd { fd: c.fd });
    assert(u.ops.last() == Op::CloseFd { fd: c.fd });
    lemma_handed_now(s, u, Op::CloseFd { fd: c.fd });
    let t = s.closed(i).0;
    assert(s.closed(i) == u.wound_up(i));
    let (d, ok) = u.group_drained(i);
    assert(follows(u, d));
    lemma_handed_on(s, u, d, Op::CloseFd { fd: c.fd });
    if c.provided.len() > 0 && s.has_room() {
        lemma_handed_now(
            s,
            d,
            Op::RemoveBuffers { count: c.provided.len() as u16, slot: i as usize },
        );
    }
    assert(t.ops == d.ops);
}

/// A dead connection is closed: when its receive ends with the end of the
/// stream, or with any error but a cancellation (125) and a lack of buffers
/// (105), its descriptor is closed, and the connection is gone or waits,
/// without a descriptor, for its last buffers. An error counts as a drop.
pub proof fn law_dead_connection_is_closed(s: PathView, c: Completed, i: int)
    requires
        whole(s),
        !s.legacy,
        s.is_open(i),
        !s.at(i).closing,
        !s.at(i).draining,
        s.at(i).fd >= 0,
        c.token == conn_token(s, 4, i),
        match c.res {
            Outcome::Done(n) => n == 0,
            Outcome::Failed(e) => e != 125 && e != 105,
        },
    ensures
        ({
            let t = s.dispatched(c).0;
            &&& handed(s, t, Op::CloseFd { fd: s.at(i).fd })
            &&& t.is_open(i) ==> t.at(i).closing && t.at(i).fd < 0 && !t.at(i).recv_armed
            &&& s.at(i).provided.len() == 0 && s.at(i).in_kernel.len() == 0 ==> !t.is_open(i)
            &&& !t.is_open(i) ==> t.free_slots == s.free_slots.push(i as usize)
            &&& !t.legacy && s.at(i).provided.len() > 0 && s.has_room() ==> handed(
                s,
                t,
                Op::RemoveBuffers { count: s.at(i).provided.len() as u16, slot: i as usize },
            )
            &&& match c.res {
                Outcome::Done(_) => t.tally.drops == 0 && !t.legacy,
                Outcome::Failed(e) => if e == 22 || e == 95 {
                    t.legacy
                } else {
                    t.tally.drops == 1 && !t.legacy
                },
            }
            &&& t.tally.packets == 0
            &&& t.tally.bytes == 0
        }),
{
    reveal(PathView::received);
    lemma_conn_token(s, c, 4, i);
    let z = cleared(s);
    let stopped = z.with(i, ConnView { recv_armed: false, ..z.at(i) });
    match c.res {
        Outcome::Done(_) => {
            lemma_closed(stopped, i);
        },
        Outcome::Failed(e) => {
            if e == 22 || e == 95 {
                let t = s.dispatched(c).0;
                lemma_handed_now(s, t, Op::CloseFd { fd: s.at(i).fd });
            } else {
                lemma_closed(stopped.count(0, 0, 1), i);
            }
        },
    }
}

/// A closing connection is gone once its last buffers are back: when the
/// kernel has returned its whole group and nothing of it is being sent, its
/// slot is free again and the group's buffers are free.
pub proof fn law_closed_connection_is_released(s: PathView, c: Completed, i: int, n: u32)
    requires
        whole(s),
        s.is_open(i),
        s.at(i).closing,
        !s.at(i).recv_armed,
        s.at(i).in_kernel.len() == 0,
        c.token == conn_token(s, 7, i),
        c.res == Outcome::Done(n),
        n >= s.at(i).provided.len(),
    ensures
        ({
            let t = s.dispatched(c).0;
            &&& !t.is_open(i)
            &&& t.free_slots == s.free_slots.push(i as usize)
            &&& t.pool.free == s.pool.free + s.at(i).provided
        }),
{
    lemma_conn_token(s, c, 7, i);
    let ids = s.at(i).provided;
    assert(ids.take(ids.len() as int) =~= ids);
    assert(ids.skip(ids.len() as int) =~= Seq::empty());
    lemma_given_back(s.pool, ids);
}

proof fn lemma_given_back(p: uring_pool::PoolView, ids: Seq<u32>)
    ensures
        uring::all_given_back(p, ids).free == p.free + ids,
    decreases ids.len(),
{
    if ids.len() > 0 {
        lemma_given_back(p, ids.drop_last());
        assert(p.free + ids =~= (p.free + ids.drop_last()).push(ids.last()));
    } else {
        assert(p.free + ids =~= p.free);
    }
}

/// Buffers that the kernel returns are free again, from the front of the
/// group; the others stay in it.
pub proof fn law_returned_buffers_are_free(s: PathView, c: Completed, i: int, n: u32)
    requires
        whole(s),
        s.is_open(i),
        c.token == conn_token(s, 7, i),
        c.res == Outcome::Done(n),
        n < s.at(i).provided.len(),
    ensures
        ({
            let t = s.dispatched(c).0;
            &&& t.is_open(i)
            &&& t.at(i).provided == s.at(i).provided.skip(n as int)
            &&& t.pool.free == s.pool.free + s.at(i).provided.take(n as int)
        }),
{
    lemma_conn_token(s, c, 7, i);
    lemma_given_back(s.pool, s.at(i).provided.take(n as int));
}

// ---------------------------------------------------------------------
// Receiving and sending
// ---------------------------------------------------------------------

/// What flushing does: what was handed out stays, the front of the send
/// queue is sent while there is room, and nothing is lost on the way.
proof fn lemma_flushed(s: PathView, i: int)
    requires
        whole(s),
        s.is_open(i),
    ensures
        ({
            let t = s.flushed(i);
            let c = s.at(i);
            &&& follows(s, t)
            &&& whole(t)
            &&& t.is_open(i)
            &&& t.tally == s.tally
            &&& t.hot == s.hot
            &&& t.at(i) == ConnView {
                to_send: t.at(i).to_send,
                in_kernel: t.at(i).in_kernel,
                ..c
            }
            &&& t.pool.metas == s.pool.metas
            &&& !c.closing && c.to_send.len() > 0 && s.has_room() ==> handed(
                s,
                t,
                Op::Send {
                    fd: c.fd,
                    id: c.to_send[0],
                    off: s.pool.metas[c.to_send[0] as int].off,
                    len: s.pool.metas[c.to_send[0] as int].len,
                    slot: i as usize,
                },
            )
            &&& forall|id: u32|
                c.in_kernel.contains(id) ==> #[trigger] t.at(i).in_kernel.contains(id)
            &&& forall|id: u32|
                #[trigger] c.to_send.contains(id) ==> t.at(i).to_send.contains(id) || t.at(
                    i,
                ).in_kernel.contains(id)
        }),
    decreases s.at(i).to_send.len(),
{
    let c = s.at(i);
    if !c.closing && c.to_send.len() > 0 && s.has_room() {
        let id = c.to_send[0];
        let meta = s.pool.metas[id as int];
        let op = Op::Send { fd: c.fd, id, off: meta.off, len: meta.len, slot: i as usize };
        let sent = s.with(
            i,
            ConnView { to_send: c.to_send.skip(1), in_kernel: c.in_kernel.push(id), ..c },
        );
        let queued = PathView { pool: s.pool.submit_zc(id), ..sent }.push(op);
        assert(queued.ops.last() == op);
        lemma_handed_now(s, queued, op);
        let next = if s.queued >= uring::FLUSH_AT {
            queued.submit()
        } else {
            queued
        };
        assert(follows(s, queued));
        assert(follows(queued, next));
        assert(id < POOL_TOTAL);
        lemma_one_changed(s, next, i);
        lemma_flushed(next, i);
        let t = s.flushed(i);
        assert(t == next.flushed(i));
        lemma_handed_on(s, queued, next, op);
        lemma_handed_on(s, next, t, op);
        let d = next.at(i);
        assert forall|x: u32| c.in_kernel.contains(x) implies #[trigger] t.at(
            i,
        ).in_kernel.contains(x) by {
            let k = choose|k: int| 0 <= k < c.in_kernel.len() && c.in_kernel[k] == x;
            assert(d.in_kernel[k] == x);
            assert(d.in_kernel.contains(x));
        }
        assert forall|x: u32| #[trigger] c.to_send.contains(x) implies t.at(i).to_send.contains(x)
            || t.at(i).in_kernel.contains(x) by {
            let k = choose|k: int| 0 <= k < c.to_send.len() && c.to_send[k] == x;
            if k == 0 {
                assert(d.in_kernel[c.in_kernel.len() as int] == x);
                assert(d.in_kernel.contains(x));
            } else {
                assert(d.to_send[k - 1] == x);
                assert(d.to_send.contains(x));
            }
        }
        assert forall|k: int| 0 <= k < s.ops.len() implies #[trigger] t.ops[k] == s.ops[k] by {
            assert(next.ops[k] == s.ops[k]);
        }
        assert(t.at(i) == ConnView {
            to_send: t.at(i).to_send,
            in_kernel: t.at(i).in_kernel,
            ..c
        });
    } else if !c.closing && c.to_send.len() > 0 {
        assert(s.conns.update(i, s.conns[i]) =~= s.conns);
        lemma_one_changed(s, s.submit(), i);
    }
}

/// Received data is sent back: a receive that filled buffer `id` with `len`
/// bytes at `off`, behind a header of 16 bytes, a name and control data,
/// counts a packet and its bytes, takes the buffer out of the group, and
/// queues it behind what waits; when nothing waits and there is room, a
/// send of exactly these bytes is handed out.
pub proof fn law_received_data_is_sent_back(s: PathView, c: Completed, i: int, id: u32)
    requires
        whole(s),
        !s.legacy,
        s.is_open(i),
        c.token == conn_token(s, 4, i),
        c.res matches Outcome::Done(n) && n > 0,
        c.flags % 2 == 1,
        c.flags / 65536 == id,
        id < 512,
        16 + c.header.namelen + c.header.controllen + c.header.payloadlen <= 8192,
        s.at(i).outstanding < 160 - 1 || s.has_room(),
    ensures
        ({
            let t = s.dispatched(c).0;
            let off = (16 + c.header.namelen + c.header.controllen) as u16;
            let len = c.header.payloadlen as u16;
            &&& s.dispatched(c).1
            &&& t.is_open(i)
            &&& t.tally.packets == 1
            &&& t.tally.bytes == c.header.payloadlen
            &&& t.tally.drops == 0
            &&& t.pool.metas[id as int] == uring_pool::BufMeta { off, len }
            &&& !t.at(i).provided.contains(id)
            &&& t.at(i).to_send.contains(id) || t.at(i).in_kernel.contains(id)
            &&& s.at(i).outstanding < usize::MAX ==> t.at(i).outstanding == s.at(i).outstanding
                + 1
            &&& s.at(i).to_send.len() == 0 && !s.at(i).closing && s.has_room() ==> handed(
                s,
                t,
                Op::Send { fd: s.at(i).fd, id, off, len, slot: i as usize },
            )
            &&& t.hot[i].seq == (s.hot[i].seq + c.header.payloadlen) % 0x1_0000_0000
            &&& t.hot[i].last_activity == c.now
        }),
{
    reveal(PathView::received);
    reveal(Seq::filter);
    lemma_conn_token(s, c, 4, i);
    let z = cleared(s);
    let d = z.at(i);
    let off = (16 + c.header.namelen + c.header.controllen) as u16;
    let len = c.header.payloadlen as u16;
    let outstanding = d.outstanding.wrapping_add(1);
    let armed = d.recv_armed && uring_pool::has_more(c.flags);
    let pause = outstanding >= uring::HWM_BUFS && armed;
    let u = PathView {
        pool: z.pool.mark_owned(id, off, len),
        ..z.with(
            i,
            ConnView {
                provided: uring_pool::without(d.provided, id),
                to_send: d.to_send.push(id),
                outstanding,
                recv_armed: armed && !(pause && z.has_room()),
                ..d
            },
        )
    }.touched(i, len as u32, c.now).count(1, len as u64, 0);
    let v = if pause {
        u.push(Op::CancelRecv { slot: i as usize }).submit()
    } else {
        u
    };
    assert(u.at(i).to_send[d.to_send.len() as int] == id);
    assert(u.at(i).to_send.contains(id));
    lemma_not_in_without(d.provided, id);
    uring_pool::lemma_without_in_pool(d.provided, id);
    lemma_one_changed(s, v, i);
    lemma_flushed(v, i);
    let t = s.dispatched(c).0;
    assert(t == v.flushed(i));
    assert(follows(s, v));
    if s.at(i).to_send.len() == 0 && !s.at(i).closing && s.has_room() {
        let op = Op::Send { fd: s.at(i).fd, id, off, len, slot: i as usize };
        assert(v.at(i).to_send[0] == id);
        if v.has_room() {
            let k = choose|k: int| v.ops.len() <= k < t.ops.len() && #[trigger] t.ops[k] == op;
            assert(t.ops[k] == op);
        }
    }
}

proof fn lemma_not_in_without(ids: Seq<u32>, id: u32)
    ensures
        !uring_pool::without(ids, id).contains(id),
    decreases ids.len(),
{
    reveal(Seq::filter);
    if ids.len() > 0 {
        lemma_not_in_without(ids.drop_last(), id);
        let f = uring_pool::without(ids.drop_last(), id);
        if ids.last() != id {
            assert(uring_pool::without(ids, id) =~= f.push(ids.last()));
            if f.push(ids.last()).contains(id) {
                let k = choose|k: int|
                    0 <= k < f.push(ids.last()).len() && f.push(ids.last())[k] == id;
                assert(f[k] == id);
            }
        }
    }
}

proof fn lemma_swap_in_pool(ids: Seq<u32>, id: u32)
    requires
        uring_pool::in_pool(ids),
        ids.contains(id),
    ensures
        uring_pool::in_pool(uring_pool::swap_removed(ids, id)),
{
    uring_pool::lemma_first_index(ids, id);
    let out = uring_pool::swap_removed(ids, id);
    assert forall|k: int| 0 <= k < out.len() implies #[trigger] out[k] < POOL_TOTAL by {
        if k != uring_pool::first_index(ids, id) {
            assert(out[k] == ids[k]);
        }
    }
}

/// A short send goes on where it stopped: when the kernel took `n` of the
/// bytes of a buffer being sent, the rest stands first in the send queue
/// and, with room, is handed out as the next send.
pub proof fn law_short_send_goes_on(s: PathView, c: Completed, i: int, id: u32, n: u32)
    requires
        whole(s),
        !s.legacy,
        s.is_open(i),
        !s.at(i).closing,
        id < 512,
        c.token == send_token(id, i),
        c.res == Outcome::Done(n),
        c.flags / 8 % 2 == 0,
        s.at(i).in_kernel.contains(id),
        0 < n < s.pool.metas[id as int].len,
        s.pool.metas[id as int].off + s.pool.metas[id as int].len <= 8192,
    ensures
        ({
            let t = s.dispatched(c).0;
            let off = (s.pool.metas[id as int].off + n) as u16;
            let len = (s.pool.metas[id as int].len - n) as u16;
            &&& s.dispatched(c).1
            &&& t.is_open(i)
            &&& t.tally.bytes == n
            &&& t.tally.drops == 0
            &&& t.pool.metas[id as int] == uring_pool::BufMeta { off, len }
            &&& t.at(i).to_send.contains(id) || t.at(i).in_kernel.contains(id)
            &&& s.has_room() ==> handed(
                s,
                t,
                Op::Send { fd: s.at(i).fd, id, off, len, slot: i as usize },
            )
        }),
{
    reveal(PathView::sent);
    lemma_send_token(s, c, id, i);
    let z = cleared(s).count(0, n as u64, 0);
    let meta = s.pool.metas[id as int];
    let u = z.requeued(i, id, (meta.off + n) as u16, (meta.len - n) as u16);
    assert(u.at(i).to_send[0] == id);
    assert(u.at(i).to_send.contains(id));
    lemma_swap_in_pool(z.at(i).in_kernel, id);
    lemma_one_changed(s, u, i);
    lemma_flushed(u, i);
}

/// A send that took nothing waits: on an error 11 (would block) or a send of
/// no bytes, the buffer stands first in the send queue again, unchanged,
/// and the connection is watched until it can be written.
pub proof fn law_blocked_send_waits(s: PathView, c: Completed, i: int, id: u32)
    requires
        whole(s),
        !s.legacy,
        s.is_open(i),
        id < 512,
        c.token == send_token(id, i),
        c.res == Outcome::Failed(11) || c.res == Outcome::Done(0),
        c.flags / 8 % 2 == 0,
        s.at(i).in_kernel.contains(id),
        s.has_room(),
    ensures
        ({
            let t = s.dispatched(c).0;
            &&& s.dispatched(c).1
            &&& t.is_open(i)
            &&& t.at(i).to_send == seq![id] + s.at(i).to_send
            &&& t.pool.metas[id as int] == s.pool.metas[id as int]
            &&& t.at(i).poll_out
            &&& !s.at(i).poll_out ==> handed(
                s,
                t,
                Op::PollOut { fd: s.at(i).fd, slot: i as usize },
            )
            &&& t.tally.drops == 0
        }),
{
    reveal(PathView::sent);
    lemma_send_token(s, c, id, i);
    let t = s.dispatched(c).0;
    let meta = s.pool.metas[id as int];
    assert(s.pool.metas.update(id as int, meta) =~= s.pool.metas);
    if !s.at(i).poll_out {
        lemma_handed_now(s, t, Op::PollOut { fd: s.at(i).fd, slot: i as usize });
    }
}

/// Once a connection can be written, what waits is sent: the first buffer
/// of its send queue is handed out.
pub proof fn law_writable_connection_sends(s: PathView, c: Completed, i: int)
    requires
        whole(s),
        s.is_open(i),
        !s.at(i).closing,
        s.at(i).to_send.len() > 0,
        s.has_room(),
        c.token == conn_token(s, 6, i),
    ensures
        ({
            let t = s.dispatched(c).0;
            let id = s.at(i).to_send[0];
            &&& s.dispatched(c).1
            &&& t.is_open(i)
            &&& !t.at(i).poll_out
            &&& handed(
                s,
                t,
                Op::Send {
                    fd: s.at(i).fd,
                    id,
                    off: s.pool.metas[id as int].off,
                    len: s.pool.metas[id as int].len,
                    slot: i as usize,
                },
            )
        }),
{
    lemma_conn_token(s, c, 6, i);
    let z = cleared(s);
    let u = z.with(i, ConnView { poll_out: false, ..z.at(i) });
    lemma_one_changed(s, u, i);
    lemma_flushed(u, i);
}

/// A send that failed for good closes the connection.
pub proof fn law_failed_send_closes(s: PathView, c: Completed, i: int, id: u32, e: i32)
    requires
        whole(s),
        !s.legacy,
        s.is_open(i),
        !s.at(i).closing,
        !s.at(i).draining,
        s.at(i).fd >= 0,
        id < 512,
        c.token == send_token(id, i),
        c.res == Outcome::Failed(e),
        e != 11,
        c.flags / 8 % 2 == 0,
    ensures
        ({
            let t = s.dispatched(c).0;
            &&& handed(s, t, Op::CloseFd { fd: s.at(i).fd })
            &&& t.is_open(i) ==> t.at(i).closing && t.at(i).fd < 0
            &&& t.tally.drops == 1
        }),
{
    reveal(PathView::sent);
    lemma_send_token(s, c, id, i);
    let z = cleared(s).count(0, 0, 1);
    if !z.at(i).recv_armed {
        lemma_closed(z, i);
    } else {
        let t = s.dispatched(c).0;
        lemma_handed_now(s, t, Op::CloseFd { fd: s.at(i).fd });
    }
}

/// A buffer that was sent whole is recycled: it is neither waiting nor
/// being sent any more, it is free (or already in a group again), and one
/// buffer less is outstanding. A connection then at or below the low
/// watermark of 64 buffers reads again.
pub proof fn law_sent_buffer_is_recycled(s: PathView, c: Completed, i: int, id: u32, n: u32)
    requires
        whole(s),
        !s.legacy,
        s.is_open(i),
        !s.at(i).closing,
        id < 512,
        c.token == send_token(id, i),
        c.res == Outcome::Done(n),
        c.flags / 8 % 2 == 0,
        n > 0,
        n >= s.pool.metas[id as int].len,
        s.pool.inflight[id as int] == 1,
        s.pool.states[id as int] == BufState::InKernel,
        s.at(i).outstanding > 0,
        s.queued + 66 <= s.capacity,
    ensures
        ({
            let t = s.dispatched(c).0;
            &&& s.dispatched(c).1
            &&& t.is_open(i)
            &&& t.tally.bytes == n
            &&& !t.at(i).in_kernel.contains(id)
            &&& t.at(i).to_send == s.at(i).to_send
            &&& t.at(i).outstanding == s.at(i).outstanding - 1
            &&& t.pool.states[id as int] == BufState::Free || t.pool.states[id as int]
                == BufState::InGroup
            &&& t.pool.inflight[id as int] == 0
            &&& s.at(i).outstanding <= 65 ==> t.at(i).recv_armed
            &&& s.at(i).outstanding <= 65 && !s.at(i).recv_armed ==> handed(
                s,
                t,
                Op::RecvMulti { fd: s.at(i).fd, slot: i as usize },
            )
        }),
{
    reveal(PathView::sent);
    lemma_send_token(s, c, id, i);
    let z = cleared(s).count(0, n as u64, 0);
    let u = z.send_ended(i, id);
    lemma_not_in_without(z.at(i).in_kernel, id);
    assert(u.pool.states[id as int] == BufState::Free);
    uring_pool::lemma_without_in_pool(z.at(i).in_kernel, id);
    lemma_one_changed(s, u, i);
    if u.at(i).outstanding <= uring::LWM_BUFS {
        lemma_resumed(u, i);
    }
}

/// A notification that a buffer's last send is over recycles the buffer as a
/// whole send does, and the connection reads again at or below the low
/// watermark.
pub proof fn law_notified_buffer_is_recycled(s: PathView, c: Completed, i: int, id: u32)
    requires
        whole(s),
        !s.legacy,
        s.is_open(i),
        !s.at(i).closing,
        id < 512,
        c.token == send_token(id, i),
        c.flags / 8 % 2 == 1,
        s.pool.inflight[id as int] == 1,
        s.pool.states[id as int] == BufState::InKernel,
        s.at(i).outstanding > 0,
        s.queued + 66 <= s.capacity,
    ensures
        ({
            let t = s.dispatched(c).0;
            &&& s.dispatched(c).1
            &&& t.is_open(i)
            &&& t.tally.packets == 0 && t.tally.bytes == 0 && t.tally.drops == 0
            &&& !t.at(i).in_kernel.contains(id)
            &&& t.at(i).to_send == s.at(i).to_send
            &&& t.at(i).outstanding == s.at(i).outstanding - 1
            &&& t.pool.states[id as int] == BufState::Free || t.pool.states[id as int]
                == BufState::InGroup
            &&& t.pool.inflight[id as int] == 0
            &&& s.at(i).outstanding <= 65 ==> t.at(i).recv_armed
            &&& s.at(i).outstanding <= 65 && !s.at(i).recv_armed ==> handed(
                s,
                t,
                Op::RecvMulti { fd: s.at(i).fd, slot: i as usize },
            )
        }),
{
    reveal(PathView::sent);
    lemma_send_token(s, c, id, i);
    let z = cleared(s);
    let u = z.send_ended(i, id);
    lemma_not_in_without(z.at(i).in_kernel, id);
    assert(u.pool.states[id as int] == BufState::Free);
    uring_pool::lemma_without_in_pool(z.at(i).in_kernel, id);
    lemma_one_changed(s, u, i);
    if u.at(i).outstanding <= uring::LWM_BUFS {
        lemma_resumed(u, i);
    }
}

/// The end of the last send of a closing connection, notified or whole, with
/// no receive and no group left, removes the connection and frees its slot.
pub proof fn law_last_send_ends_a_closing_connection(
    s: PathView,
    c: Completed,
    i: int,
    id: u32,
    n: u32,
)
    requires
        whole(s),
        !s.legacy,
        s.is_open(i),
        s.at(i).closing,
        !s.at(i).recv_armed,
        s.at(i).provided.len() == 0,
        s.at(i).in_kernel == seq![id],
        id < 512,
        c.token == send_token(id, i),
        c.flags / 8 % 2 == 1 || (c.res == Outcome::Done(n) && n > 0 && n
            >= s.pool.metas[id as int].len),
        s.pool.inflight[id as int] == 1,
        s.pool.states[id as int] == BufState::InKernel,
    ensures
        ({
            let t = s.dispatched(c).0;
            &&& s.dispatched(c).1
            &&& !t.is_open(i)
            &&& t.free_slots == s.free_slots.push(i as usize)
            &&& t.pool.states[id as int] == BufState::Free
            &&& t.pool.free == s.pool.free.push(id)
        }),
{
    reveal(PathView::sent);
    lemma_send_token(s, c, id, i);
    lemma_not_in_without(s.at(i).in_kernel, id);
    lemma_without_only(id);
}

proof fn lemma_without_only(id: u32)
    ensures
        uring_pool::without(seq![id], id) == Seq::<u32>::empty(),
{
    reveal(Seq::filter);
    let one = seq![id];
    assert(one.drop_last() =~= Seq::empty());
    assert(uring_pool::without(one.drop_last(), id) =~= Seq::empty());
}

/// A notification for a connection that is gone still frees the buffer.
pub proof fn law_late_notification_frees_the_buffer(s: PathView, c: Completed, i: int, id: u32)
    requires
        whole(s),
        !s.legacy,
        0 <= i < 1024,
        !s.is_open(i),
        id < 512,
        c.token == send_token(id, i),
        c.flags / 8 % 2 == 1,
        s.pool.inflight[id as int] == 1,
        s.pool.states[id as int] == BufState::InKernel || s.pool.states[id as int]
            == BufState::Owned,
    ensures
        ({
            let t = s.dispatched(c).0;
            &&& s.dispatched(c).1
            &&& t.pool.states[id as int] == BufState::Free
            &&& t.pool.free == s.pool.free.push(id)
            &&& t.pool.inflight[id as int] == 0
            &&& t.conns == s.conns && t.ops == s.ops
        }),
{
    reveal(PathView::sent);
    lemma_send_token(s, c, id, i);
}

/// A receive that names no buffer of the pool is a drop and changes nothing
/// else; one whose payload does not lie within its buffer is a drop, too, and
/// the buffer leaves the group and is free.
pub proof fn law_unusable_receives_are_drops(s: PathView, c: Completed, i: int, id: u32, n: u32)
    requires
        whole(s),
        !s.legacy,
        s.is_open(i),
        c.token == conn_token(s, 4, i),
        c.res == Outcome::Done(n),
        n > 0,
    ensures
        ({
            let t = s.dispatched(c).0;
            let h = c.header;
            &&& c.flags % 2 == 0 || c.flags / 65536 >= 512 ==> {
                &&& s.dispatched(c).1
                &&& t.tally.drops == 1 && t.tally.packets == 0 && t.tally.bytes == 0
                &&& t.conns == s.conns && t.pool == s.pool && t.ops == s.ops
            }
            &&& c.flags % 2 == 1 && c.flags / 65536 == id && id < 512 && 16 + h.namelen
                + h.controllen + h.payloadlen > 8192 ==> {
                &&& s.dispatched(c).1
                &&& t.tally.drops == 1 && t.tally.packets == 0 && t.tally.bytes == 0
                &&& t.is_open(i) && !t.at(i).provided.contains(id)
                &&& t.at(i).to_send == s.at(i).to_send
                &&& t.pool.states[id as int] == BufState::Free
                &&& t.pool.free == s.pool.free.push(id)
                &&& t.ops == s.ops
            }
        }),
{
    reveal(PathView::received);
    lemma_conn_token(s, c, 4, i);
    lemma_not_in_without(s.at(i).provided, id);
}

/// What providing buffers to a connection does, with room for all of them.
proof fn lemma_provided(s: PathView, i: int, n: nat)
    requires
        whole(s),
        s.is_open(i),
        s.queued + n < s.capacity,
    ensures
        ({
            let t = s.provided(i, n).0;
            &&& s.provided(i, n).1
            &&& whole(t)
            &&& follows(s, t)
            &&& t.is_open(i)
            &&& t.at(i) == ConnView { provided: t.at(i).provided, ..s.at(i) }
            &&& t.tally == s.tally
            &&& t.capacity == s.capacity
            &&& t.queued <= s.queued + n
            &&& t.pool.inflight == s.pool.inflight
            &&& t.pool.metas == s.pool.metas
            &&& forall|id: int|
                0 <= id < POOL_TOTAL ==> t.pool.states[id] == s.pool.states[id]
                    || #[trigger] t.pool.states[id] == BufState::InGroup
            &&& t.listen_fd == s.listen_fd
            &&& t.legacy == s.legacy
            &&& t.accept_multi == s.accept_multi
            &&& t.cold == s.cold
            &&& t.free_slots == s.free_slots
        }),
    decreases n,
{
    if n > 0 && s.pool.free.len() > 0 {
        let c = s.at(i);
        let id = s.pool.free.last();
        let taken = PathView {
            pool: s.pool.take_free(),
            ..s.with(i, ConnView { provided: c.provided.push(id), ..c })
        };
        let next = taken.push(Op::Provide { id, group: i as usize });
        assert(id < POOL_TOTAL);
        lemma_one_changed(s, next, i);
        assert(follows(s, next));
        lemma_provided(next, i, (n - 1) as nat);
    }
}

/// What resuming the reads of a connection does, with room.
proof fn lemma_resumed(s: PathView, i: int)
    requires
        whole(s),
        s.is_open(i),
        !s.at(i).closing,
        s.at(i).outstanding < 160,
        s.queued + 66 <= s.capacity,
    ensures
        ({
            let t = s.resumed(i).0;
            &&& s.resumed(i).1
            &&& whole(t)
            &&& follows(s, t)
            &&& t.is_open(i)
            &&& t.at(i).recv_armed
            &&& t.at(i) == ConnView {
                provided: t.at(i).provided,
                recv_armed: true,
                ..s.at(i)
            }
            &&& !s.at(i).recv_armed ==> handed(
                s,
                t,
                Op::RecvMulti { fd: s.at(i).fd, slot: i as usize },
            )
            &&& t.tally == s.tally
            &&& t.capacity == s.capacity
            &&& t.queued <= s.queued + 65
            &&& t.pool.inflight == s.pool.inflight
            &&& forall|id: int|
                0 <= id < POOL_TOTAL ==> t.pool.states[id] == s.pool.states[id]
                    || #[trigger] t.pool.states[id] == BufState::InGroup
            &&& t.listen_fd == s.listen_fd
            &&& t.legacy == s.legacy
            &&& t.accept_multi == s.accept_multi
            &&& t.cold == s.cold
            &&& t.free_slots == s.free_slots
        }),
{
    if !s.at(i).recv_armed {
        lemma_provided(s, i, 64);
        let u = s.provided(i, 64).0;
        let t = s.resumed(i).0;
        let op = Op::RecvMulti { fd: s.at(i).fd, slot: i as usize };
        assert(t == u.armed(i).0);
        assert(t.ops == u.ops.push(op));
        lemma_handed_now(s, t, op);
        lemma_one_changed(u, t, i);
    }
}

/// Reads go on after a pause: when a receive was cancelled (125) or found no
/// buffers (105) on a connection that is not closing and is below the high
/// watermark of 160 buffers, buffers are provided and it is armed again.
pub proof fn law_interrupted_reads_go_on(s: PathView, c: Completed, i: int)
    requires
        whole(s),
        !s.legacy,
        s.is_open(i),
        !s.at(i).closing,
        s.at(i).outstanding < 160,
        c.token == conn_token(s, 4, i),
        c.res == Outcome::Failed(125) || c.res == Outcome::Failed(105),
        s.queued + 66 <= s.capacity,
    ensures
        ({
            let t = s.dispatched(c).0;
            &&& s.dispatched(c).1
            &&& t.is_open(i)
            &&& t.at(i).recv_armed
            &&& handed(s, t, Op::RecvMulti { fd: s.at(i).fd, slot: i as usize })
            &&& t.tally.drops == 0
        }),
{
    reveal(PathView::received);
    lemma_conn_token(s, c, 4, i);
    let z = cleared(s);
    let stopped = z.with(i, ConnView { recv_armed: false, ..z.at(i) });
    lemma_one_changed(s, stopped, i);
    lemma_resumed(stopped, i);
}

/// Backpressure: data that brings a connection to 160 outstanding buffers
/// cancels its receive, so no more is read until the echo has drained.
pub proof fn law_full_connection_stops_reading(s: PathView, c: Completed, i: int, id: u32)
    requires
        whole(s),
        !s.legacy,
        s.is_open(i),
        s.at(i).recv_armed,
        c.token == conn_token(s, 4, i),
        c.res matches Outcome::Done(n) && n > 0,
        c.flags % 2 == 1,
        c.flags / 2 % 2 == 1,
        c.flags / 65536 == id,
        id < 512,
        16 + c.header.namelen + c.header.controllen + c.header.payloadlen <= 8192,
        159 <= s.at(i).outstanding < 100_000,
        s.has_room(),
    ensures
        ({
            let t = s.dispatched(c).0;
            &&& t.is_open(i)
            &&& !t.at(i).recv_armed
            &&& handed(s, t, Op::CancelRecv { slot: i as usize })
        }),
{
    reveal(PathView::received);
    lemma_conn_token(s, c, 4, i);
    let z = cleared(s);
    let d = z.at(i);
    let off = (16 + c.header.namelen + c.header.controllen) as u16;
    let len = c.header.payloadlen as u16;
    let u = PathView {
        pool: z.pool.mark_owned(id, off, len),
        ..z.with(
            i,
            ConnView {
                provided: uring_pool::without(d.provided, id),
                to_send: d.to_send.push(id),
                outstanding: d.outstanding.wrapping_add(1),
                recv_armed: false,
                ..d
            },
        )
    }.touched(i, len as u32, c.now).count(1, len as u64, 0);
    let w = u.push(Op::CancelRecv { slot: i as usize });
    let v = w.submit();
    assert(w.ops.last() == Op::CancelRecv { slot: i as usize });
    lemma_handed_now(s, w, Op::CancelRecv { slot: i as usize });
    assert(follows(w, v));
    lemma_handed_on(s, w, v, Op::CancelRecv { slot: i as usize });
    uring_pool::lemma_without_in_pool(d.provided, id);
    lemma_one_changed(s, v, i);
    lemma_flushed(v, i);
    let t = s.dispatched(c).0;
    assert(t == v.flushed(i));
    lemma_handed_on(s, v, t, Op::CancelRecv { slot: i as usize });
}

// ---------------------------------------------------------------------
// Accepting
// ---------------------------------------------------------------------

/// An accepted connection is admitted and read: it stands in the first free
/// slot with its descriptor and peer, and its first receive is handed out.
pub proof fn law_accepted_connection_is_read(s: PathView, c: Completed, fd: u32)
    requires
        whole(s),
        uring_pool::kind_of(c.token) == 3,
        c.res == Outcome::Done(fd),
        fd <= i32::MAX,
        s.free_slots.len() > 0,
        s.free_slots[0] < CONN_CAP,
        s.queued + 68 <= s.capacity,
    ensures
        ({
            let t = s.dispatched(c).0;
            let i = s.free_slots[0] as int;
            &&& s.dispatched(c).1
            &&& t.is_open(i)
            &&& t.at(i).fd == fd
            &&& !t.at(i).closing
            &&& t.at(i).recv_armed
            &&& t.free_slots == s.free_slots.skip(1)
            &&& t.cold[i].peer == c.peer
            &&& t.tally.drops == 0
            &&& handed(
                s,
                t,
                if s.legacy {
                    Op::Read { fd: fd as i32, slot: i as usize }
                } else {
                    Op::RecvMulti { fd: fd as i32, slot: i as usize }
                },
            )
        }),
{
    reveal(PathView::accepted);
    let z = cleared(s);
    let i = s.free_slots[0] as int;
    let u = PathView {
        free_slots: z.free_slots.skip(1),
        cold: z.cold.update(i, crate::conn::ColdState { peer: c.peer, ..z.cold[i] }),
        ..z.with(i, ConnView::fresh(fd as i32))
    };
    lemma_one_changed(s, u, i);
    let v = z.admitted(fd as i32, c.peer).0;
    let op = if s.legacy {
        Op::Read { fd: fd as i32, slot: i as usize }
    } else {
        Op::RecvMulti { fd: fd as i32, slot: i as usize }
    };
    if s.legacy {
        assert(v.ops == s.ops.push(op));
        lemma_handed_now(s, v, op);
    } else {
        lemma_resumed(u, i);
        let k = choose|k: int| u.ops.len() <= k < v.ops.len() && #[trigger] v.ops[k] == op;
        assert(v.ops[k] == op);
    }
    let t = s.dispatched(c).0;
    assert(follows(v, t));
    lemma_handed_on(s, v, t, op);
}

/// A connection that finds no free slot is closed at once and counted.
pub proof fn law_surplus_connection_is_refused(s: PathView, c: Completed, fd: u32)
    requires
        uring_pool::kind_of(c.token) == 3,
        c.res == Outcome::Done(fd),
        fd <= i32::MAX,
        s.free_slots.len() == 0,
    ensures
        ({
            let t = s.dispatched(c).0;
            &&& handed(s, t, Op::CloseFd { fd: fd as i32 })
            &&& t.tally.drops == 1
            &&& t.conns == s.conns
        }),
{
    reveal(PathView::accepted);
    let z = cleared(s);
    let v = z.admitted(fd as i32, c.peer).0;
    assert(v.ops.last() == Op::CloseFd { fd: fd as i32 });
    lemma_handed_now(s, v, Op::CloseFd { fd: fd as i32 });
    let t = s.dispatched(c).0;
    assert(follows(v, t));
    lemma_handed_on(s, v, t, Op::CloseFd { fd: fd as i32 });
}

/// The listener stays watched: after an accept that failed, or that is the
/// last of its operation, the next one is handed out.
pub proof fn law_accept_is_queued_again(s: PathView, c: Completed)
    requires
        uring_pool::kind_of(c.token) == 3,
        c.res is Failed,
        s.listen_fd >= 0,
        s.has_room(),
        !s.accept_multi || c.flags / 2 % 2 == 0,
    ensures
        s.dispatched(c).1,
        handed(
            s,
            s.dispatched(c).0,
            if s.legacy {
                Op::Accept
            } else {
                Op::AcceptMulti
            },
        ),
{
    reveal(PathView::accepted);
    let t = s.dispatched(c).0;
    lemma_handed_now(
        s,
        t,
        if s.legacy {
            Op::Accept
        } else {
            Op::AcceptMulti
        },
    );
}

// ---------------------------------------------------------------------
// Datagrams, timer and metrics
// ---------------------------------------------------------------------

/// A datagram is sent back from the slot that received it, with its length,
/// and counted; after the send, or a failed receive, the slot receives
/// again. A failed receive other than an empty one (11) counts as a drop.
pub proof fn law_datagram_is_sent_back(s: PathView, c: Completed, slot: int)
    requires
        0 <= slot < 4,
        s.phases.len() == 4,
        s.has_room(),
        c.token == 0x1000_0000_0000_0000 + slot || c.token == 0x2000_0000_0000_0000 + slot,
    ensures
        ({
            let t = s.dispatched(c).0;
            let received = c.token < 0x2000_0000_0000_0000;
            &&& s.dispatched(c).1
            &&& if received && c.res is Done {
                &&& handed(s, t, Op::UdpSend { slot: slot as usize, len: c.res->Done_0 })
                &&& t.tally.packets == 1
                &&& t.tally.bytes == c.res->Done_0
                &&& t.tally.drops == 0
            } else {
                &&& handed(s, t, Op::UdpRecv { slot: slot as usize })
                &&& t.tally.packets == 0
                &&& t.tally.bytes == 0
                &&& t.tally.drops == if received && c.res != Outcome::Failed(11) {
                    1u64
                } else {
                    0
                }
            }
        }),
{
    let t = s.dispatched(c).0;
    if c.token < 0x2000_0000_0000_0000 {
        assert(uring_pool::kind_of(c.token) == 1);
        assert(uring_pool::object_of(c.token) == slot);
        match c.res {
            Outcome::Done(n) => {
                lemma_handed_now(s, t, Op::UdpSend { slot: slot as usize, len: n });
            },
            Outcome::Failed(_) => {
                lemma_handed_now(s, t, Op::UdpRecv { slot: slot as usize });
            },
        }
    } else {
        assert(uring_pool::kind_of(c.token) == 2);
        assert(uring_pool::object_of(c.token) == slot);
        lemma_handed_now(s, t, Op::UdpRecv { slot: slot as usize });
    }
}

/// The wake-up timer and the watch on the metrics endpoint are queued again
/// each time, and waiting metrics clients are served.
pub proof fn law_watches_are_queued_again(s: PathView, c: Completed, fd: i32)
    requires
        s.has_room(),
    ensures
        c.token == 0xD000_0000_0000_0000 ==> s.dispatched(c).1 && handed(
            s,
            s.dispatched(c).0,
            Op::Timeout,
        ),
        c.token == 0xC000_0000_0000_0000 ==> handed(s, s.dispatched(c).0, Op::ServeMetrics),
        c.token == 0xC000_0000_0000_0000 && s.metrics_fd == Some(fd) ==> s.dispatched(c).1
            && handed(s, s.dispatched(c).0, Op::PollMetrics { fd }),
{
    let t = s.dispatched(c).0;
    if c.token == 0xD000_0000_0000_0000 {
        assert(uring_pool::kind_of(c.token) == 0xD);
        lemma_handed_now(s, t, Op::Timeout);
    }
    if c.token == 0xC000_0000_0000_0000 {
        assert(uring_pool::kind_of(c.token) == 0xC);
        let u = cleared(s).act(Op::ServeMetrics);
        assert(u.ops.last() == Op::ServeMetrics);
        lemma_handed_now(s, u, Op::ServeMetrics);
        assert(follows(u, t));
        lemma_handed_on(s, u, t, Op::ServeMetrics);
        if s.metrics_fd == Some(fd) {
            lemma_handed_now(s, t, Op::PollMetrics { fd });
        }
    }
}

/// The first operations: a receive for each of the four datagram slots, an
/// accept, the timeout and, where there is an endpoint, its watch; then all of
/// them are submitted. Where they do not all fit the queue, it fails.
pub proof fn law_start(s: PathView)
    requires
        s.queued <= s.capacity,
    ensures
        ({
            let t = s.started().0;
            let first = seq![
                Op::UdpRecv { slot: 0 },
                Op::UdpRecv { slot: 1 },
                Op::UdpRecv { slot: 2 },
                Op::UdpRecv { slot: 3 },
                if s.legacy {
                    Op::Accept
                } else {
                    Op::AcceptMulti
                },
                Op::Timeout,
            ];
            let (all, n) = match s.metrics_fd {
                Some(fd) => (first.push(Op::PollMetrics { fd }), 7int),
                None => (first, 6int),
            };
            &&& s.started().1 <==> s.queued + n <= s.capacity
            &&& s.started().1 ==> t.ops == s.ops + all.push(Op::Submit) && t.queued == 0
        }),
{
    reveal_with_fuel(PathView::receiving, 5);
    let t = s.started().0;
    let first = seq![
        Op::UdpRecv { slot: 0 },
        Op::UdpRecv { slot: 1 },
        Op::UdpRecv { slot: 2 },
        Op::UdpRecv { slot: 3 },
        if s.legacy {
            Op::Accept
        } else {
            Op::AcceptMulti
        },
        Op::Timeout,
    ];
    if s.started().1 {
        match s.metrics_fd {
            Some(fd) => {
                assert(t.ops =~= s.ops + first.push(Op::PollMetrics { fd }).push(Op::Submit));
            },
            None => {
                assert(t.ops =~= s.ops + first.push(Op::Submit));
            },
        }
    }
}

// ---------------------------------------------------------------------
// The legacy mode
// ---------------------------------------------------------------------

/// In the legacy mode what was read is written back, counted, and then the
/// next read is queued.
pub proof fn law_legacy_echo(s: PathView, c: Completed, i: int, n: u32)
    requires
        whole(s),
        s.legacy,
        s.is_open(i),
        !s.at(i).closing,
        s.at(i).fd >= 0,
        c.res == Outcome::Done(n),
        s.has_room(),
    ensures
        c.token == conn_token(s, 4, i) && n > 0 ==> {
            let t = s.dispatched(c).0;
            &&& s.dispatched(c).1
            &&& t.is_open(i)
            &&& !t.at(i).recv_armed
            &&& t.tally.packets == 1
            &&& t.tally.bytes == n
            &&& handed(s, t, Op::Write { fd: s.at(i).fd, slot: i as usize, len: n })
        },
        c.token == conn_token(s, 5, i) && !s.at(i).recv_armed ==> {
            let t = s.dispatched(c).0;
            &&& s.dispatched(c).1
            &&& t.is_open(i)
            &&& t.at(i).recv_armed
            &&& handed(s, t, Op::Read { fd: s.at(i).fd, slot: i as usize })
        },
{
    reveal(PathView::received);
    reveal(PathView::sent);
    let t = s.dispatched(c).0;
    if c.token == conn_token(s, 4, i) && n > 0 {
        lemma_conn_token(s, c, 4, i);
        lemma_handed_now(s, t, Op::Write { fd: s.at(i).fd, slot: i as usize, len: n });
    }
    if c.token == conn_token(s, 5, i) && !s.at(i).recv_armed {
        lemma_conn_token(s, c, 5, i);
        lemma_handed_now(s, t, Op::Read { fd: s.at(i).fd, slot: i as usize });
    }
}

/// In the legacy mode the end of the stream, or a failed read or write,
/// closes the connection and frees its slot at once.
pub proof fn law_legacy_dead_connection_is_closed(s: PathView, c: Completed, i: int)
    requires
        whole(s),
        s.legacy,
        s.is_open(i),
        s.at(i).fd >= 0,
        (c.token == conn_token(s, 4, i) && (c.res == Outcome::Done(0) || c.res is Failed)) || (
        c.token == conn_token(s, 5, i) && c.res is Failed),
    ensures
        ({
            let t = s.dispatched(c).0;
            &&& !t.is_open(i)
            &&& t.free_slots == s.free_slots.push(i as usize)
            &&& handed(s, t, Op::CloseFd { fd: s.at(i).fd })
            &&& t.tally.drops == if c.res is Failed {
                1u64
            } else {
                0
            }
        }),
{
    reveal(PathView::received);
    reveal(PathView::sent);
    let t = s.dispatched(c).0;
    if c.token == conn_token(s, 4, i) {
        lemma_conn_token(s, c, 4, i);
    } else {
        lemma_conn_token(s, c, 5, i);
    }
    lemma_handed_now(s, t, Op::CloseFd { fd: s.at(i).fd });
}

} // verus!
