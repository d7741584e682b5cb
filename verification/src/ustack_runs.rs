//! Laws of whole runs of the userspace TCP endpoint: what holds after any
//! calls, what the timer sends again and when, and that losses are
//! repaired.
use vstd::prelude::*;
use crate::ustack;
use crate::ustack::{HostView, PcbView, Rack, SegView, StackView, TcpState, TH_ACK, TH_PSH, TH_SYN};
use crate::ustack_keeps;
use crate::ustack_laws;

verus! {

// ---------------------------------------------------------------------
// Any calls
// ---------------------------------------------------------------------

/// One call on an endpoint.
pub enum Call {
    SetNow(u64),
    Listen,
    Connect(Seq<u8>, HostView, u16),
    Ingest(Seq<u8>),
    PopTx,
    Write(Seq<u8>),
    /// A read into a buffer of this length.
    Read(nat),
    OnTimer(u64),
}

/// The timer at `now_us`.
pub open spec fn ticked(st: StackView, now_us: u64) -> StackView {
    ustack::retransmitted(ustack::detected(StackView { now_us, ..st }))
}

/// A write of application bytes.
pub open spec fn written(st: StackView, data: Seq<u8>) -> StackView {
    match st.pcb {
        Some(p) => if p.state == TcpState::Established {
            let n = ustack::room_for(data.len(), p.tx_app.len());
            ustack::flushed(
                StackView { pcb: Some(PcbView { tx_app: p.tx_app + data.take(n), ..p }), ..st },
            )
        } else {
            st
        },
        None => st,
    }
}

/// The endpoint after a call.
pub open spec fn after_call(st: StackView, call: Call) -> StackView {
    match call {
        Call::SetNow(us) => StackView { now_us: us, ..st },
        Call::Listen => StackView { listen: true, pcb: None, ..st },
        Call::Connect(mac, remote, port) => ustack::control_sent(
            StackView { pcb: Some(ustack::active_open(mac, remote, port)), ..st },
            TH_SYN,
            true,
        ),
        Call::Ingest(frame) => ustack::ingested(st, frame),
        Call::PopTx => if st.txq.len() > 0 {
            StackView { txq: st.txq.skip(1), ..st }
        } else {
            st
        },
        Call::Write(data) => written(st, data),
        Call::Read(len) => match st.pcb {
            Some(p) => {
                let n = if len < p.rx_app.len() {
                    len as int
                } else {
                    p.rx_app.len() as int
                };
                StackView { pcb: Some(PcbView { rx_app: p.rx_app.skip(n), ..p }), ..st }
            },
            None => st,
        },
        Call::OnTimer(now_us) => ticked(st, now_us),
    }
}

/// The endpoint after calls, in order.
pub open spec fn ran(st: StackView, calls: Seq<Call>) -> StackView
    decreases calls.len(),
{
    if calls.len() == 0 {
        st
    } else {
        after_call(ran(st, calls.drop_last()), calls.last())
    }
}

/// Addresses in calls have their lengths.
pub open spec fn well_formed(call: Call) -> bool {
    match call {
        Call::Connect(mac, remote, _) => mac.len() == 6 && remote.wf(),
        _ => true,
    }
}

/// An endpoint as it is made: no connection, nothing queued.
pub open spec fn fresh(st: StackView) -> bool {
    &&& st.mac.len() == 6
    &&& st.local.wf()
    &&& st.pcb is None
    &&& st.txq.len() == 0
}

/// One call keeps what holds between calls.
proof fn lemma_after_call(st: StackView, call: Call)
    requires
        st.wf(),
        well_formed(call),
    ensures
        after_call(st, call).wf(),
        !(call is PopTx) ==> ustack_keeps::grown(st, after_call(st, call)),
        st.v4_only() && after_call(st, call).local is V4 && !(call matches Call::Connect(_, r, _)
            && r is V6) ==> after_call(st, call).v4_only(),
{
    assert(st.txq.take(st.txq.len() as int) =~= st.txq);
    match call {
        Call::Connect(mac, remote, port) => {
            let open = StackView { pcb: Some(ustack::active_open(mac, remote, port)), ..st };
            assert(open.wf());
            ustack_keeps::lemma_control_sent(open, TH_SYN, true);
        },
        Call::Ingest(frame) => {
            ustack_keeps::lemma_ingested(st, frame);
        },
        Call::Write(data) => {
            if let Some(p) = st.pcb {
                let n = ustack::room_for(data.len(), p.tx_app.len());
                let q = PcbView { tx_app: p.tx_app + data.take(n), ..p };
                assert(p == PcbView { tx_app: Seq::empty(), ..q }) by {
                    assert(p.tx_app =~= Seq::empty());
                }
                let idle = StackView { pcb: None, ..st };
                assert(idle.wf());
                let full = StackView { pcb: Some(q), ..st };
                assert((StackView { pcb: None, ..full }) == idle);
                if p.state == TcpState::Established {
                    ustack_keeps::lemma_flushed(full);
                }
            }
        },
        Call::OnTimer(now_us) => {
            ustack_keeps::lemma_repaired(StackView { now_us, ..st });
        },
        _ => {},
    }
}

/// Whatever calls were made on a new endpoint, its connection (if it has
/// one) is opening or established, never `Closed` or `Listen`, and every
/// queued frame is one that a receiver accepts.
pub proof fn law_reached_endpoint_is_sound(start: StackView, calls: Seq<Call>)
    requires
        fresh(start),
        forall|i: int| 0 <= i < calls.len() ==> well_formed(#[trigger] calls[i]),
    ensures
        ran(start, calls).wf(),
        ran(start, calls).pcb matches Some(p) ==> p.state == TcpState::SynSent || p.state
            == TcpState::SynReceived || p.state == TcpState::Established,
        forall|i: int|
            0 <= i < ran(start, calls).txq.len() ==> ustack::sound_frame(
                #[trigger] ran(start, calls).txq[i],
            ),
    decreases calls.len(),
{
    if calls.len() > 0 {
        let front = calls.drop_last();
        assert forall|i: int| 0 <= i < front.len() implies well_formed(#[trigger] front[i]) by {
            assert(front[i] == calls[i]);
        }
        law_reached_endpoint_is_sound(start, front);
        lemma_after_call(ran(start, front), calls.last());
    }
}

/// An established connection stays established under every call but the two
/// that open a new one.
pub proof fn law_established_is_kept(st: StackView, call: Call)
    requires
        st.wf(),
        st.pcb is Some,
        st.pcb->0.state == TcpState::Established,
        !(call is Listen),
        !(call is Connect),
    ensures
        after_call(st, call).pcb is Some,
        after_call(st, call).pcb->0.state == TcpState::Established,
{
    let p = st.pcb->0;
    match call {
        Call::Ingest(frame) => {
            lemma_ingested_established(st, frame);
        },
        Call::Write(data) => {
            let n = ustack::room_for(data.len(), p.tx_app.len());
            let q = PcbView { tx_app: p.tx_app + data.take(n), ..p };
            lemma_flushed_established(StackView { pcb: Some(q), ..st });
        },
        Call::OnTimer(now_us) => {
            lemma_ticked_pcb(st, now_us);
        },
        _ => {},
    }
}

proof fn lemma_flushed_established(st: StackView)
    requires
        st.pcb is Some,
        st.pcb->0.state == TcpState::Established,
    ensures
        ustack::flushed(st).pcb is Some,
        ustack::flushed(st).pcb->0.state == TcpState::Established,
{
    let p = st.pcb->0;
    let chunks = ustack::chopped(p.mss, p.snd_nxt, p.tx_app);
    let q = PcbView {
        snd_nxt: p.snd_nxt.wrapping_add(p.tx_app.len() as u32),
        inflight: p.inflight + chunks.map_values(
            |c: (u32, Seq<u8>)| ustack::fresh_seg(st.now_us, c),
        ),
        tx_app: Seq::empty(),
        ..p
    };
    ustack::lemma_chunks_sent_frame(StackView { pcb: Some(q), ..st }, q, chunks, chunks.len());
}

/// The timer rewrites the clock, the scoreboard, the queue and the
/// identification counter only.
pub proof fn lemma_ticked_pcb(st: StackView, now_us: u64)
    requires
        st.pcb is Some,
    ensures
        ({
            let p = st.pcb->0;
            let out = ticked(st, now_us);
            &&& out.pcb == Some(
                PcbView {
                    inflight: ustack::all_marked(p.rack, now_us, p.inflight).map_values(
                        |s: SegView| ustack::resent(now_us, s),
                    ),
                    ..p
                },
            )
            &&& out == StackView {
                now_us,
                pcb: out.pcb,
                ip_id: out.ip_id,
                txq: out.txq,
                ..st
            }
        }),
{
    let d = ustack::detected(StackView { now_us, ..st });
    let dp = d.pcb->0;
    let base = StackView {
        pcb: Some(
            PcbView {
                inflight: dp.inflight.map_values(|s: SegView| ustack::resent(d.now_us, s)),
                ..dp
            },
        ),
        ..d
    };
    let chunks = ustack::lost_chunks(dp.inflight, dp.inflight.len());
    ustack::lemma_chunks_sent_frame(base, dp, chunks, chunks.len());
}

proof fn lemma_ingested_established(st: StackView, frame: Seq<u8>)
    requires
        st.pcb is Some,
        st.pcb->0.state == TcpState::Established,
    ensures
        ustack::ingested(st, frame).pcb is Some,
        ustack::ingested(st, frame).pcb->0.state == TcpState::Established,
{
    reveal(ustack::ingested);
    let ip = frame.skip(14);
    let v4_end = 14 + crate::bytes::be16_at(ip, 2);
    let v6_end = 54 + crate::bytes::be16_at(ip, 4);
    lemma_segment_established(
        st,
        HostView::V4(ip.subrange(12, 16)),
        frame.subrange(6, 12),
        frame.subrange(34, v4_end),
    );
    lemma_segment_established(
        st,
        HostView::V6(ip.subrange(8, 24)),
        frame.subrange(6, 12),
        frame.subrange(54, v6_end),
    );
}

proof fn lemma_segment_established(st: StackView, src: HostView, src_mac: Seq<u8>, seg: Seq<u8>)
    requires
        st.pcb is Some,
        st.pcb->0.state == TcpState::Established,
    ensures
        ustack::segment_in(st, src, src_mac, seg).pcb is Some,
        ustack::segment_in(st, src, src_mac, seg).pcb->0.state == TcpState::Established,
{
    let p = st.pcb->0;
    let h = crate::parse::tcp_of(seg);
    let doff = h.data_offset * 4;
    let syn_ack = ustack::flag_set(h.flags, TH_SYN) && ustack::flag_set(h.flags, TH_ACK);
    let st1 = StackView { pcb: Some(p), ..st };
    let st2 = if syn_ack {
        ustack::control_sent(st1, TH_ACK, false)
    } else {
        st1
    };
    let sacks = ustack::first_n(ustack::option_sacks(seg.subrange(20, doff)), 3);
    ustack_laws::lemma_acked_keeps(st2, h.ack, sacks);
    let st3 = ustack::acked(st2, h.ack, sacks);
    lemma_flushed_established(ustack::delivered(st3, h.seq, seg.skip(doff)));
}

/// Every frame that an IPv4 endpoint queues for IPv4 peers is an IPv4 frame
/// that parses back, with both checksums folding to zero.
pub proof fn law_ipv4_endpoint_queues_sound_frames(start: StackView, calls: Seq<Call>)
    requires
        fresh(start),
        forall|i: int| 0 <= i < calls.len() ==> well_formed(#[trigger] calls[i]),
        forall|i: int|
            0 <= i < calls.len() ==> !(#[trigger] calls[i] matches Call::Connect(_, r, _)
                && r is V6),
        forall|k: int| 0 <= k <= calls.len() ==> ran(start, #[trigger] calls.take(k)).local is V4,
    ensures
        ran(start, calls).v4_only(),
    decreases calls.len(),
{
    assert(calls.take(calls.len() as int) =~= calls);
    if calls.len() > 0 {
        let front = calls.drop_last();
        assert forall|i: int| 0 <= i < front.len() implies well_formed(#[trigger] front[i]) && !(
        front[i] matches Call::Connect(_, r, _) && r is V6) by {
            assert(front[i] == calls[i]);
        }
        assert forall|k: int| 0 <= k <= front.len() implies ran(
            start,
            #[trigger] front.take(k),
        ).local is V4 by {
            assert(front.take(k) =~= calls.take(k));
        }
        law_ipv4_endpoint_queues_sound_frames(start, front);
        law_reached_endpoint_is_sound(start, front);
        let last = calls[calls.len() - 1];
        assert(well_formed(last));
        lemma_after_call(ran(start, front), last);
    }
}

/// The frames that calls take out of the queue, in order.
pub open spec fn popped(st: StackView, calls: Seq<Call>) -> Seq<Seq<u8>>
    decreases calls.len(),
{
    if calls.len() == 0 {
        Seq::empty()
    } else {
        let before = ran(st, calls.drop_last());
        let had = popped(st, calls.drop_last());
        if calls.last() is PopTx && before.txq.len() > 0 {
            had.push(before.txq[0])
        } else {
            had
        }
    }
}

/// The frames that calls put behind the queue, in order.
pub open spec fn queued(st: StackView, calls: Seq<Call>) -> Seq<Seq<u8>>
    decreases calls.len(),
{
    if calls.len() == 0 {
        Seq::empty()
    } else {
        let before = ran(st, calls.drop_last());
        let had = queued(st, calls.drop_last());
        if calls.last() is PopTx {
            had
        } else {
            had + ran(st, calls).txq.skip(before.txq.len() as int)
        }
    }
}

/// Frames come out in the order in which they were queued, each once.
pub proof fn law_frames_leave_in_order(start: StackView, calls: Seq<Call>)
    requires
        fresh(start),
        forall|i: int| 0 <= i < calls.len() ==> well_formed(#[trigger] calls[i]),
    ensures
        popped(start, calls) + ran(start, calls).txq == queued(start, calls),
    decreases calls.len(),
{
    if calls.len() == 0 {
        assert(popped(start, calls) + start.txq =~= queued(start, calls));
    } else {
        let front = calls.drop_last();
        assert forall|i: int| 0 <= i < front.len() implies well_formed(#[trigger] front[i]) by {
            assert(front[i] == calls[i]);
        }
        law_frames_leave_in_order(start, front);
        law_reached_endpoint_is_sound(start, front);
        let before = ran(start, front);
        let after = ran(start, calls);
        let last = calls[calls.len() - 1];
        assert(well_formed(last));
        lemma_after_call(before, last);
        if last is PopTx {
            assert(popped(start, calls) + after.txq =~= popped(start, front) + before.txq);
        } else {
            assert(after.txq =~= before.txq + after.txq.skip(before.txq.len() as int));
            assert(popped(start, calls) + after.txq =~= popped(start, front) + before.txq
                + after.txq.skip(before.txq.len() as int));
        }
    }
}

// ---------------------------------------------------------------------
// Control packets and data segments
// ---------------------------------------------------------------------

/// A frame that an endpoint builds carries exactly the payload it was built
/// with, so `pump` may drop it only if that is not empty.
pub proof fn law_built_frames_carry_their_payload(
    from: StackView,
    dst_mac: Seq<u8>,
    dst: HostView,
    dst_port: u16,
    seq: u32,
    ack: u32,
    flags: u8,
    opts: Seq<u8>,
    payload: Seq<u8>,
)
    requires
        from.mac.len() == 6,
        dst_mac.len() == 6,
        ustack_laws::same_family(from.local, dst),
        opts.len() % 4 == 0,
        opts.len() <= 40,
        payload.len() <= 1460,
    ensures
        ({
            let f = ustack::segment_frame(
                from,
                dst_mac,
                dst,
                dst_port,
                seq,
                ack,
                flags,
                opts,
                payload,
            );
            &&& ustack::frame_payload(f) == payload
            &&& ustack::carries_data(f) == (payload.len() > 0)
        }),
{
    let tcp = ustack_laws::tcp_inside(from, dst, dst_port, seq, ack, flags, opts, payload);
    ustack_laws::lemma_tcp_inside(from, dst, dst_port, seq, ack, flags, opts, payload);
    match (from.local, dst) {
        (HostView::V4(s), HostView::V4(d)) => {
            crate::wire::law_ipv4_frame_roundtrip(dst_mac, from.mac, s, d, from.ip_id, tcp);
        },
        (HostView::V6(s), HostView::V6(d)) => {
            crate::wire::law_ipv6_frame_roundtrip(dst_mac, from.mac, s, d, tcp);
        },
        _ => {},
    }
}

// ---------------------------------------------------------------------
// The timer
// ---------------------------------------------------------------------

/// Nothing is sent again before it is overdue: the timer then moves the
/// clock and changes nothing else.
pub proof fn law_nothing_is_resent_early(st: StackView, now_us: u64)
    requires
        st.wf(),
        st.pcb matches Some(p) ==> forall|i: int|
            0 <= i < p.inflight.len() ==> !ustack::overdue(
                p.rack,
                now_us,
                #[trigger] p.inflight[i],
            ),
    ensures
        ticked(st, now_us) == (StackView { now_us, ..st }),
{
    if let Some(p) = st.pcb {
        lemma_quiet_tick(StackView { now_us, ..st });
    }
}

pub proof fn lemma_quiet_tick(st: StackView)
    requires
        st.pcb is Some,
        forall|i: int|
            0 <= i < st.pcb->0.inflight.len() ==> !(#[trigger] st.pcb->0.inflight[i]).lost
                && !ustack::overdue(st.pcb->0.rack, st.now_us, st.pcb->0.inflight[i]),
    ensures
        ustack::retransmitted(ustack::detected(st)) == st,
{
    let p = st.pcb->0;
    let marked = ustack::all_marked(p.rack, st.now_us, p.inflight);
    assert forall|i: int| 0 <= i < p.inflight.len() implies marked[i] == p.inflight[i] by {
        assert(!p.inflight[i].lost);
    }
    assert(marked =~= p.inflight);
    lemma_nothing_lost(p.inflight, p.inflight.len());
    let again = p.inflight.map_values(|s: SegView| ustack::resent(st.now_us, s));
    assert forall|i: int| 0 <= i < p.inflight.len() implies again[i] == p.inflight[i] by {
        assert(!p.inflight[i].lost);
    }
    assert(again =~= p.inflight);
}

proof fn lemma_nothing_lost(segs: Seq<SegView>, k: nat)
    requires
        k <= segs.len(),
        forall|i: int| 0 <= i < segs.len() ==> !(#[trigger] segs[i]).lost,
    ensures
        ustack::lost_chunks(segs, k) == Seq::<(u32, Seq<u8>)>::empty(),
    decreases k,
{
    if k > 0 {
        lemma_nothing_lost(segs, (k - 1) as nat);
    }
}

/// Nothing is sent again twice at one time: a second timer at the same time
/// changes nothing.
pub proof fn law_nothing_is_resent_twice(st: StackView, now_us: u64)
    ensures
        ticked(ticked(st, now_us), now_us) == ticked(st, now_us),
{
    if let Some(p) = st.pcb {
        lemma_ticked_pcb(st, now_us);
        let out = ticked(st, now_us);
        let q = out.pcb->0;
        assert forall|i: int| 0 <= i < q.inflight.len() implies !(#[trigger] q.inflight[i]).lost
            && !ustack::overdue(q.rack, now_us, q.inflight[i]) by {
            let m = ustack::marked(p.rack, now_us, p.inflight[i]);
            assert(q.inflight[i] == ustack::resent(now_us, m));
        }
        lemma_quiet_tick(out);
        assert((StackView { now_us, ..out }) == out);
    }
}

/// `f` is a data segment of `st`'s connection with this chunk, under some
/// identification.
pub open spec fn data_frame(st: StackView, f: Seq<u8>, chunk: (u32, Seq<u8>)) -> bool {
    exists|id: u16| #[trigger] chunk_frame(st, id, chunk) == f
}

/// The data segment of `st`'s connection with this identification and
/// chunk.
pub open spec fn chunk_frame(st: StackView, id: u16, chunk: (u32, Seq<u8>)) -> Seq<u8> {
    let p = st.pcb->0;
    ustack::segment_frame(
        StackView { ip_id: id, ..st },
        p.remote_mac,
        p.remote,
        p.remote_port,
        chunk.0,
        p.rcv_nxt,
        TH_ACK | TH_PSH,
        Seq::empty(),
        chunk.1,
    )
}

/// The frames of chunks sent on `st`'s connection.
proof fn lemma_sent_are_data_frames(
    st: StackView,
    base: StackView,
    p: PcbView,
    chunks: Seq<(u32, Seq<u8>)>,
)
    requires
        st.pcb is Some,
        base.mac == st.mac,
        base.local == st.local,
        base.local_port == st.local_port,
        p.remote_mac == st.pcb->0.remote_mac,
        p.remote == st.pcb->0.remote,
        p.remote_port == st.pcb->0.remote_port,
        p.rcv_nxt == st.pcb->0.rcv_nxt,
    ensures
        ({
            let out = ustack::chunks_sent(base, p, chunks, chunks.len());
            &&& out.txq.len() == base.txq.len() + chunks.len()
            &&& out.txq.take(base.txq.len() as int) == base.txq
            &&& forall|i: int|
                0 <= i < chunks.len() ==> data_frame(
                    st,
                    #[trigger] out.txq[base.txq.len() + i],
                    chunks[i],
                )
        }),
{
    let out = ustack::chunks_sent(base, p, chunks, chunks.len());
    ustack_laws::lemma_chunk_frames(base, p, chunks, chunks.len());
    assert forall|i: int| 0 <= i < chunks.len() implies data_frame(
        st,
        #[trigger] out.txq[base.txq.len() + i],
        chunks[i],
    ) by {
        let from = ustack::chunks_sent(base, p, chunks, i as nat);
        ustack::lemma_chunks_sent_frame(base, p, chunks, i as nat);
        assert(chunk_frame(st, from.ip_id, chunks[i]) == out.txq[base.txq.len() + i]);
    }
}

/// A list of frames behind a queue, one per chunk.
pub open spec fn sends(
    st: StackView,
    before: Seq<Seq<u8>>,
    after: Seq<Seq<u8>>,
    chunks: Seq<(u32, Seq<u8>)>,
) -> bool {
    &&& after.len() == before.len() + chunks.len()
    &&& after.take(before.len() as int) == before
    &&& forall|i: int|
        0 <= i < chunks.len() ==> data_frame(st, #[trigger] after[before.len() + i], chunks[i])
}

/// What a write on an endpoint does: one frame per chunk, each in flight
/// since now.
pub proof fn lemma_written(st: StackView, data: Seq<u8>)
    requires
        st.wf(),
        st.pcb is Some,
        st.pcb->0.state == TcpState::Established,
        0 < data.len() <= 65535,
    ensures
        ({
            let p = st.pcb->0;
            let chunks = ustack::chopped(p.mss, p.snd_nxt, data);
            let out = written(st, data);
            &&& out.pcb == Some(
                PcbView {
                    snd_nxt: p.snd_nxt.wrapping_add(data.len() as u32),
                    inflight: p.inflight + chunks.map_values(
                        |c: (u32, Seq<u8>)| ustack::fresh_seg(st.now_us, c),
                    ),
                    ..p
                },
            )
            &&& out == StackView { pcb: out.pcb, ip_id: out.ip_id, txq: out.txq, ..st }
            &&& sends(st, st.txq, out.txq, chunks)
        }),
{
    let p = st.pcb->0;
    let full = PcbView { tx_app: p.tx_app + data.take(data.len() as int), ..p };
    assert(p.tx_app + data.take(data.len() as int) =~= data);
    let chunks = ustack::chopped(p.mss, p.snd_nxt, data);
    let q = PcbView {
        snd_nxt: p.snd_nxt.wrapping_add(data.len() as u32),
        inflight: p.inflight + chunks.map_values(
            |c: (u32, Seq<u8>)| ustack::fresh_seg(st.now_us, c),
        ),
        tx_app: Seq::empty(),
        ..p
    };
    assert(p.tx_app =~= Seq::empty());
    let base = StackView { pcb: Some(q), ..st };
    ustack::lemma_chunks_sent_frame(base, q, chunks, chunks.len());
    lemma_sent_are_data_frames(st, base, q, chunks);
}

/// What the timer does: one frame per segment that is marked lost.
pub proof fn lemma_ticked(st: StackView, now_us: u64)
    requires
        st.pcb is Some,
    ensures
        ({
            let p = st.pcb->0;
            let marked = ustack::all_marked(p.rack, now_us, p.inflight);
            sends(st, st.txq, ticked(st, now_us).txq, ustack::lost_chunks(marked, marked.len()))
        }),
{
    let d = ustack::detected(StackView { now_us, ..st });
    let dp = d.pcb->0;
    let base = StackView {
        pcb: Some(
            PcbView {
                inflight: dp.inflight.map_values(|s: SegView| ustack::resent(d.now_us, s)),
                ..dp
            },
        ),
        ..d
    };
    lemma_sent_are_data_frames(st, base, dp, ustack::lost_chunks(dp.inflight, dp.inflight.len()));
}

/// Fresh segments that have all waited a timeout are all lost, in order.
pub proof fn lemma_all_fresh_lost(
    rack: Rack,
    old_segs: Seq<SegView>,
    chunks: Seq<(u32, Seq<u8>)>,
    then_us: u64,
    now_us: u64,
    k: nat,
)
    requires
        k <= chunks.len(),
        ustack::elapsed(now_us, then_us) >= ustack::rto(rack.rtt_us),
    ensures
        ({
            let segs = old_segs + chunks.map_values(
                |c: (u32, Seq<u8>)| ustack::fresh_seg(then_us, c),
            );
            let marked = ustack::all_marked(rack, now_us, segs);
            ustack::lost_chunks(marked, old_segs.len() + k) == ustack::lost_chunks(
                marked,
                old_segs.len(),
            ) + chunks.take(k as int)
        }),
    decreases k,
{
    let segs = old_segs + chunks.map_values(|c: (u32, Seq<u8>)| ustack::fresh_seg(then_us, c));
    let marked = ustack::all_marked(rack, now_us, segs);
    let front = ustack::lost_chunks(marked, old_segs.len());
    if k == 0 {
        assert(front + chunks.take(0) =~= front);
    } else {
        lemma_all_fresh_lost(rack, old_segs, chunks, then_us, now_us, (k - 1) as nat);
        let i = old_segs.len() + k - 1;
        assert(segs[i] == ustack::fresh_seg(then_us, chunks[k - 1]));
        assert(marked[i] == ustack::marked(rack, now_us, segs[i]));
        assert(marked[i].lost);
        assert(front + chunks.take(k as int) =~= (front + chunks.take(k - 1)).push(chunks[k - 1]));
        assert((marked[i].seq, marked[i].data) == chunks[k - 1]);
    }
}

/// A write that is never acknowledged is sent again whole, once, when the
/// timeout is over and not before. The endpoint has nothing else in flight
/// and no round-trip sample, so the timeout is the smallest one; `rest` is
/// what is still queued when the timer runs.
pub proof fn law_unacknowledged_write_is_resent(
    st: StackView,
    data: Seq<u8>,
    rest: Seq<Seq<u8>>,
    now_us: u64,
)
    requires
        st.wf(),
        st.pcb is Some,
        st.pcb->0.state == TcpState::Established,
        st.pcb->0.inflight.len() == 0,
        st.pcb->0.rack.rtt_us == 0,
        0 < data.len() <= 65535,
    ensures
        ({
            let p = st.pcb->0;
            let chunks = ustack::chopped(p.mss, p.snd_nxt, data);
            let w = written(st, data);
            let idle = StackView { txq: rest, ..w };
            let out = ticked(idle, now_us);
            &&& ustack_laws::chunk_bytes(chunks) == data
            &&& sends(st, st.txq, w.txq, chunks)
            &&& ustack::elapsed(now_us, st.now_us) < 200_000 ==> out == StackView { now_us, ..idle }
            &&& ustack::elapsed(now_us, st.now_us) >= 200_000 ==> sends(st, rest, out.txq, chunks)
            &&& ticked(out, now_us) == out
            &&& out.now_us == now_us
            &&& out.pcb is Some
            &&& out.pcb->0.state == TcpState::Established
        }),
{
    let p = st.pcb->0;
    let chunks = ustack::chopped(p.mss, p.snd_nxt, data);
    let w = written(st, data);
    let idle = StackView { txq: rest, ..w };
    let q = idle.pcb->0;
    let fresh_segs = chunks.map_values(|c: (u32, Seq<u8>)| ustack::fresh_seg(st.now_us, c));
    ustack_laws::law_chop_preserves_data(p.mss, p.snd_nxt, data);
    lemma_written(st, data);
    lemma_ticked_pcb(idle, now_us);
    law_nothing_is_resent_twice(idle, now_us);
    assert(q.inflight =~= fresh_segs);
    if ustack::elapsed(now_us, st.now_us) < 200_000 {
        lemma_quiet_tick(StackView { now_us, ..idle });
    } else {
        lemma_ticked(idle, now_us);
        lemma_all_fresh_lost(q.rack, p.inflight, chunks, st.now_us, now_us, chunks.len());
        let marked = ustack::all_marked(q.rack, now_us, q.inflight);
        assert(p.inflight =~= Seq::empty());
        assert(chunks.take(chunks.len() as int) =~= chunks);
        assert(ustack::lost_chunks(marked, 0) + chunks =~= chunks);
        let out = ticked(idle, now_us);
        assert forall|i: int| 0 <= i < chunks.len() implies data_frame(
            st,
            #[trigger] out.txq[rest.len() + i],
            chunks[i],
        ) by {
            assert(data_frame(idle, out.txq[rest.len() + i], chunks[i]));
            let id = choose|id: u16| #[trigger]
                chunk_frame(idle, id, chunks[i]) == out.txq[rest.len() + i];
            assert(chunk_frame(st, id, chunks[i]) == out.txq[rest.len() + i]);
        }
    }
}

// ---------------------------------------------------------------------
// Loss repair
// ---------------------------------------------------------------------

/// How many bytes the chunks before the `k`-th hold.
pub open spec fn offset_of(chunks: Seq<(u32, Seq<u8>)>, k: int) -> nat {
    ustack_laws::chunk_bytes(chunks.take(k)).len()
}

/// Later chunks start farther on.
pub proof fn lemma_offsets(base: u32, chunks: Seq<(u32, Seq<u8>)>, i: int, k: int)
    requires
        0 <= i <= k <= chunks.len(),
        ustack_laws::contiguous(base, chunks),
        ustack_laws::chunk_bytes(chunks).len() <= 65535,
        forall|j: int| 0 <= j < chunks.len() ==> 0 < (#[trigger] chunks[j]).1.len(),
    ensures
        offset_of(chunks, k) <= 65535,
        i < k ==> offset_of(chunks, i) < offset_of(chunks, k),
        k < chunks.len() ==> chunks[k].0 == base.wrapping_add(offset_of(chunks, k) as u32),
    decreases k,
{
    if k < chunks.len() {
        ustack_laws::lemma_contiguous_at(base, chunks, k as nat);
    } else {
        assert(chunks.take(k) =~= chunks);
    }
    if i < k {
        lemma_offsets(base, chunks, i, k - 1);
        ustack_laws::lemma_contiguous_at(base, chunks, (k - 1) as nat);
    }
}

/// How many chunks have arrived in order after the first `j` frames, of
/// which the `i`-th carries chunk `index[i]`, when `k` had before.
pub open spec fn arrived(index: Seq<int>, dropped: Seq<bool>, k: int, j: nat) -> int
    decreases j,
{
    if j == 0 {
        k
    } else {
        let had = arrived(index, dropped, k, (j - 1) as nat);
        if !dropped[j - 1] && index[j - 1] == had {
            had + 1
        } else {
            had
        }
    }
}

/// `seq` lies outside the 65535 numbers from `base` on.
pub open spec fn stale(seq: u32, base: u32) -> bool {
    (seq - base) % 0x1_0000_0000 > 65535
}

/// What a receiver has after the first `j` frames, some dropped, some
/// carrying chunks of `chunks` and the others stale.
pub proof fn lemma_arrived(
    b: StackView,
    st: StackView,
    base: u32,
    had: Seq<u8>,
    chunks: Seq<(u32, Seq<u8>)>,
    sent: Seq<(u32, Seq<u8>)>,
    index: Seq<int>,
    frames: Seq<Seq<u8>>,
    dropped: Seq<bool>,
    k: int,
    j: nat,
)
    requires
        st.pcb is Some,
        st.mac.len() == 6,
        st.pcb->0.remote_mac.len() == 6,
        ustack_laws::same_family(st.local, st.pcb->0.remote),
        st.pcb->0.remote_port == b.local_port,
        b.pcb is Some,
        b.pcb->0.state == TcpState::Established,
        b.pcb->0.tx_app.len() == 0,
        b.pcb->0.remote == st.local,
        b.pcb->0.remote_port == st.local_port,
        0 <= k <= chunks.len(),
        b.pcb->0.rx_app == had + ustack_laws::chunk_bytes(chunks.take(k)),
        b.pcb->0.rcv_nxt == base.wrapping_add(offset_of(chunks, k) as u32),
        ustack_laws::contiguous(base, chunks),
        had.len() + ustack_laws::chunk_bytes(chunks).len() <= 65535,
        forall|i: int| 0 <= i < chunks.len() ==> 0 < (#[trigger] chunks[i]).1.len() <= 1460,
        frames.len() == sent.len(),
        index.len() == sent.len(),
        dropped.len() == sent.len(),
        j <= sent.len(),
        forall|i: int| 0 <= i < sent.len() ==> data_frame(st, #[trigger] frames[i], sent[i]),
        forall|i: int| 0 <= i < sent.len() ==> (#[trigger] sent[i]).1.len() <= 1460,
        forall|i: int|
            0 <= i < sent.len() ==> if 0 <= #[trigger] index[i] {
                index[i] < chunks.len() && sent[i] == chunks[index[i]]
            } else {
                stale(sent[i].0, base)
            },
    ensures
        ({
            let out = ustack::ingested_kept(b, frames, dropped, j);
            let q = out.pcb->0;
            let n = arrived(index, dropped, k, j);
            &&& 0 <= n <= chunks.len()
            &&& out.pcb is Some
            &&& out == StackView { pcb: out.pcb, ip_id: out.ip_id, txq: out.txq, ..b }
            &&& q.rx_app == had + ustack_laws::chunk_bytes(chunks.take(n))
            &&& q.rcv_nxt == base.wrapping_add(offset_of(chunks, n) as u32)
            &&& q == PcbView {
                snd_una: q.snd_una,
                inflight: q.inflight,
                rack: q.rack,
                rx_app: q.rx_app,
                rcv_nxt: q.rcv_nxt,
                ..b.pcb->0
            }
        }),
    decreases j,
{
    if j > 0 {
        let i = j - 1;
        lemma_arrived(
            b,
            st,
            base,
            had,
            chunks,
            sent,
            index,
            frames,
            dropped,
            k,
            i as nat,
        );
        let prev = ustack::ingested_kept(b, frames, dropped, i as nat);
        let n = arrived(index, dropped, k, i as nat);
        let p = st.pcb->0;
        if !dropped[i] {
            assert(data_frame(st, frames[i], sent[i]));
            let id = choose|id: u16| #[trigger] chunk_frame(st, id, sent[i]) == frames[i];
            let from = StackView { ip_id: id, ..st };
            lemma_offsets(base, chunks, 0, n);
            assert(if 0 <= index[i] {
                index[i] < chunks.len() && sent[i] == chunks[index[i]]
            } else {
                stale(sent[i].0, base)
            });
            if index[i] == n {
                let data = chunks[n].1;
                ustack_laws::lemma_contiguous_at(base, chunks, n as nat);
                ustack_laws::law_in_order_segment_delivered(
                    prev,
                    from,
                    p.remote_mac,
                    p.remote,
                    p.rcv_nxt,
                    data,
                );
                assert(data.take(data.len() as int) =~= data);
                assert(had + ustack_laws::chunk_bytes(chunks.take(n)) + data =~= had
                    + ustack_laws::chunk_bytes(chunks.take(n + 1)));
            } else {
                if 0 <= index[i] {
                    lemma_offsets(base, chunks, index[i], index[i]);
                    if index[i] < n {
                        lemma_offsets(base, chunks, index[i], n);
                    } else {
                        lemma_offsets(base, chunks, n, index[i]);
                    }
                }
                assert(sent[i].0 != prev.pcb->0.rcv_nxt);
                ustack_laws::law_out_of_order_not_delivered(
                    prev,
                    from,
                    p.remote_mac,
                    p.remote,
                    sent[i].0,
                    p.rcv_nxt,
                    sent[i].1,
                );
            }
        }
    }
}

/// With none dropped, whatever was missing has arrived once the chunks have
/// gone by in order.
proof fn lemma_all_arrived(index: Seq<int>, dropped: Seq<bool>, skip: int, k: int, j: nat)
    requires
        0 <= skip,
        0 <= k,
        j <= index.len(),
        dropped.len() == index.len(),
        forall|i: int| 0 <= i < dropped.len() ==> !(#[trigger] dropped[i]),
        forall|i: int|
            0 <= i < index.len() ==> #[trigger] index[i] == if i < skip {
                -1
            } else {
                i - skip
            },
    ensures
        arrived(index, dropped, k, j) == if j <= skip || j - skip <= k {
            k
        } else {
            j - skip
        },
    decreases j,
{
    if j > 0 {
        lemma_all_arrived(index, dropped, skip, k, (j - 1) as nat);
        assert(index[j - 1] == if j - 1 < skip {
            -1
        } else {
            j - 1 - skip
        });
        assert(!dropped[j - 1]);
    }
}

/// Delivering every frame is delivering with none dropped.
pub proof fn lemma_all_kept(st: StackView, frames: Seq<Seq<u8>>, dropped: Seq<bool>, j: nat)
    requires
        j <= frames.len(),
        dropped.len() == frames.len(),
        forall|i: int| 0 <= i < dropped.len() ==> !(#[trigger] dropped[i]),
    ensures
        ustack::ingested_kept(st, frames, dropped, j) == ustack_laws::ingested_all(
            st,
            frames.take(j as int),
        ),
    decreases j,
{
    if j > 0 {
        lemma_all_kept(st, frames, dropped, (j - 1) as nat);
        assert(frames.take(j as int).drop_last() =~= frames.take(j - 1));
        assert(!dropped[j - 1]);
    }
}

/// Every lost chunk is a segment of the scoreboard.
proof fn lemma_lost_from(segs: Seq<SegView>, k: nat, base: u32)
    requires
        k <= segs.len(),
        forall|i: int| 0 <= i < k ==> stale((#[trigger] segs[i]).seq, base),
        forall|i: int| 0 <= i < k ==> (#[trigger] segs[i]).data.len() <= 1460,
    ensures
        forall|i: int|
            0 <= i < ustack::lost_chunks(segs, k).len() ==> {
                &&& stale((#[trigger] ustack::lost_chunks(segs, k)[i]).0, base)
                &&& ustack::lost_chunks(segs, k)[i].1.len() <= 1460
            },
    decreases k,
{
    if k > 0 {
        lemma_lost_from(segs, (k - 1) as nat, base);
        let had = ustack::lost_chunks(segs, (k - 1) as nat);
        let all = ustack::lost_chunks(segs, k);
        assert(stale(segs[k - 1].seq, base));
        assert(segs[k - 1].data.len() <= 1460);
        assert forall|i: int| 0 <= i < all.len() implies stale((#[trigger] all[i]).0, base)
            && all[i].1.len() <= 1460 by {
            if i < had.len() {
                assert(all[i] == had[i]);
            }
        }
    }
}

/// What the timer sends after a write whose timeout is over: segments from
/// before it, then its chunks.
proof fn lemma_resent_list(a: StackView, data: Seq<u8>, now_us: u64) -> (lost: Seq<
    (u32, Seq<u8>),
>)
    requires
        a.wf(),
        a.pcb is Some,
        a.pcb->0.state == TcpState::Established,
        0 < data.len() <= 65535,
        forall|i: int|
            0 <= i < a.pcb->0.inflight.len() ==> ustack::before(
                (#[trigger] a.pcb->0.inflight[i]).seq,
                a.pcb->0.snd_nxt,
            ),
        ustack::elapsed(now_us, a.now_us) >= ustack::rto(a.pcb->0.rack.rtt_us),
    ensures
        ({
            let p = a.pcb->0;
            let a2 = written(a, data);
            let chunks = ustack::chopped(p.mss, p.snd_nxt, data);
            &&& sends(a2, a2.txq, ticked(a2, now_us).txq, lost + chunks)
            &&& forall|i: int|
                0 <= i < lost.len() ==> {
                    &&& stale((#[trigger] lost[i]).0, p.snd_nxt)
                    &&& lost[i].1.len() <= 1460
                }
        }),
{
    let p = a.pcb->0;
    let base = p.snd_nxt;
    let a2 = written(a, data);
    let chunks = ustack::chopped(p.mss, base, data);
    let n = chunks.len();
    lemma_written(a, data);
    let q = a2.pcb->0;
    let marked = ustack::all_marked(q.rack, now_us, q.inflight);
    let lost = ustack::lost_chunks(marked, p.inflight.len());
    lemma_ticked(a2, now_us);
    lemma_all_fresh_lost(q.rack, p.inflight, chunks, a.now_us, now_us, n);
    assert(chunks.take(n as int) =~= chunks);
    assert(marked.len() == p.inflight.len() + n);
    assert(ustack::lost_chunks(marked, marked.len()) == lost + chunks);
    assert forall|i: int| 0 <= i < p.inflight.len() implies stale((#[trigger] marked[i]).seq, base)
        && marked[i].data.len() <= 1460 by {
        assert(q.inflight[i] == p.inflight[i]);
        assert(ustack::before(p.inflight[i].seq, base));
    }
    lemma_lost_from(marked, p.inflight.len(), base);
    lost
}

/// After stale segments and all chunks in order, everything has arrived.
proof fn lemma_rest_arrives(
    b: StackView,
    st: StackView,
    base: u32,
    had: Seq<u8>,
    chunks: Seq<(u32, Seq<u8>)>,
    lost: Seq<(u32, Seq<u8>)>,
    again: Seq<Seq<u8>>,
    k: int,
)
    requires
        st.pcb is Some,
        st.mac.len() == 6,
        st.pcb->0.remote_mac.len() == 6,
        ustack_laws::same_family(st.local, st.pcb->0.remote),
        st.pcb->0.remote_port == b.local_port,
        b.pcb is Some,
        b.pcb->0.state == TcpState::Established,
        b.pcb->0.tx_app.len() == 0,
        b.pcb->0.remote == st.local,
        b.pcb->0.remote_port == st.local_port,
        0 <= k <= chunks.len(),
        b.pcb->0.rx_app == had + ustack_laws::chunk_bytes(chunks.take(k)),
        b.pcb->0.rcv_nxt == base.wrapping_add(offset_of(chunks, k) as u32),
        ustack_laws::contiguous(base, chunks),
        had.len() + ustack_laws::chunk_bytes(chunks).len() <= 65535,
        forall|i: int| 0 <= i < chunks.len() ==> 0 < (#[trigger] chunks[i]).1.len() <= 1460,
        again.len() == lost.len() + chunks.len(),
        forall|i: int|
            0 <= i < again.len() ==> data_frame(st, #[trigger] again[i], (lost + chunks)[i]),
        forall|i: int|
            0 <= i < lost.len() ==> stale((#[trigger] lost[i]).0, base) && lost[i].1.len() <= 1460,
    ensures
        ({
            let out = ustack_laws::ingested_all(b, again);
            let q = out.pcb->0;
            let data = ustack_laws::chunk_bytes(chunks);
            &&& out.pcb is Some
            &&& out == StackView { pcb: out.pcb, ip_id: out.ip_id, txq: out.txq, ..b }
            &&& q.rx_app == had + data
            &&& q.rcv_nxt == base.wrapping_add(data.len() as u32)
            &&& q == PcbView {
                snd_una: q.snd_una,
                inflight: q.inflight,
                rack: q.rack,
                rx_app: q.rx_app,
                rcv_nxt: q.rcv_nxt,
                ..b.pcb->0
            }
        }),
{
    let n = chunks.len();
    let sent = lost + chunks;
    let index = Seq::new(
        sent.len(),
        |i: int|
            if i < lost.len() {
                -1
            } else {
                i - lost.len()
            },
    );
    let none = Seq::new(sent.len(), |i: int| false);
    assert forall|i: int| 0 <= i < sent.len() implies if 0 <= #[trigger] index[i] {
        index[i] < n && sent[i] == chunks[index[i]]
    } else {
        stale(sent[i].0, base)
    } by {
        if i < lost.len() {
            assert(sent[i] == lost[i]);
        }
    }
    assert forall|i: int| 0 <= i < sent.len() implies (#[trigger] sent[i]).1.len() <= 1460 by {
        if i < lost.len() {
            assert(sent[i] == lost[i]);
        } else {
            assert(sent[i] == chunks[i - lost.len()]);
        }
    }
    lemma_arrived(b, st, base, had, chunks, sent, index, again, none, k, sent.len());
    lemma_all_arrived(index, none, lost.len() as int, k, sent.len());
    lemma_all_kept(b, again, none, sent.len());
    assert(again.take(sent.len() as int) =~= again);
    assert(chunks.take(n as int) =~= chunks);
}

/// Losses are repaired: whichever frames of a write are dropped on the way,
/// once the sender's timeout is over the timer's frames, delivered in
/// order, leave the receiver with exactly the written bytes behind what it
/// had, and the two in step again. What the sender has in flight from
/// before starts before the write.
pub proof fn law_losses_are_repaired(
    a: StackView,
    b: StackView,
    data: Seq<u8>,
    dropped: Seq<bool>,
    now_us: u64,
)
    requires
        ustack_laws::in_step(a, b),
        b.pcb->0.rx_app.len() + data.len() <= 65535,
        data.len() > 0,
        forall|i: int|
            0 <= i < a.pcb->0.inflight.len() ==> ustack::before(
                (#[trigger] a.pcb->0.inflight[i]).seq,
                a.pcb->0.snd_nxt,
            ),
        dropped.len() == written(a, data).txq.len() - a.txq.len(),
        ustack::elapsed(now_us, a.now_us) >= ustack::rto(a.pcb->0.rack.rtt_us),
    ensures
        ({
            let a2 = written(a, data);
            let frames = a2.txq.skip(a.txq.len() as int);
            let b2 = ustack::ingested_kept(b, frames, dropped, frames.len());
            let a3 = ticked(a2, now_us);
            let again = a3.txq.skip(a2.txq.len() as int);
            let b3 = ustack_laws::ingested_all(b2, again);
            &&& b3.pcb is Some
            &&& b3.pcb->0.rx_app == b.pcb->0.rx_app + data
            &&& ustack_laws::linked(a3, b3)
        }),
{
    let p = a.pcb->0;
    let base = p.snd_nxt;
    let had = b.pcb->0.rx_app;
    let a2 = written(a, data);
    let chunks = ustack::chopped(p.mss, base, data);
    let frames = a2.txq.skip(a.txq.len() as int);
    let n = chunks.len();
    ustack_laws::law_chop_preserves_data(p.mss, base, data);
    ustack::law_chunks_fit_mss(p.mss, base, data);
    lemma_written(a, data);
    // The first delivery.
    let index = Seq::new(n, |i: int| i);
    assert forall|i: int| 0 <= i < n implies data_frame(a, #[trigger] frames[i], chunks[i]) by {
        assert(frames[i] == a2.txq[a.txq.len() + i]);
    }
    assert(chunks.take(0) =~= Seq::empty());
    assert(had + ustack_laws::chunk_bytes(chunks.take(0)) =~= had);
    lemma_arrived(b, a, base, had, chunks, chunks, index, frames, dropped, 0, n);
    let b2 = ustack::ingested_kept(b, frames, dropped, n);
    let k = arrived(index, dropped, 0, n);
    // The timer and the second delivery.
    let lost = lemma_resent_list(a, data, now_us);
    let a3 = ticked(a2, now_us);
    lemma_ticked_pcb(a2, now_us);
    let again = a3.txq.skip(a2.txq.len() as int);
    assert forall|i: int| 0 <= i < again.len() implies data_frame(
        a2,
        #[trigger] again[i],
        (lost + chunks)[i],
    ) by {
        assert(again[i] == a3.txq[a2.txq.len() + i]);
    }
    lemma_rest_arrives(b2, a2, base, had, chunks, lost, again, k);
}

} // verus!
