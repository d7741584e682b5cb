//! Loss repair when the receiver's acknowledgements come back before the
//! timer: what was acknowledged is not sent again, and the rest arrives.
use vstd::prelude::*;
use crate::ustack;
use crate::ustack::{PcbView, Rack, SegView, StackView, TcpState, TH_ACK, TH_PSH};
use crate::ustack_laws;
use crate::ustack_runs;

verus! {

/// `f` is an acknowledgement of `st`'s connection up to `ack`, under some
/// identification.
pub open spec fn is_ack(st: StackView, f: Seq<u8>, ack: u32) -> bool {
    exists|id: u16| #[trigger] ack_frame(st, id, ack) == f
}

/// The acknowledgement of `st`'s connection with this identification.
pub open spec fn ack_frame(st: StackView, id: u16, ack: u32) -> Seq<u8> {
    let p = st.pcb->0;
    ustack::segment_frame(
        StackView { ip_id: id, ..st },
        p.remote_mac,
        p.remote,
        p.remote_port,
        p.snd_nxt,
        ack,
        TH_ACK,
        Seq::empty(),
        Seq::empty(),
    )
}

/// With nothing in flight an acknowledgement moves the acknowledged number
/// at most.
pub proof fn lemma_ack_on_nothing(st: StackView, ack: u32, sacks: Seq<(u32, u32)>)
    requires
        st.pcb is Some,
        st.pcb->0.inflight.len() == 0,
    ensures
        ({
            let out = ustack::acked(st, ack, sacks);
            let q = out.pcb->0;
            &&& out == StackView { pcb: out.pcb, ..st }
            &&& out.pcb is Some
            &&& q == PcbView { snd_una: q.snd_una, ..st.pcb->0 }
        }),
{
    let p = st.pcb->0;
    if !ustack::before(p.snd_nxt, ack) {
        ustack_laws::lemma_sacks_on_nothing(p.rack, st.now_us, p.inflight, sacks, sacks.len());
        assert(p.inflight.skip(0) =~= p.inflight);
        assert(ustack::acked_to(p.inflight, ack, 0) == 0);
        let q = ustack::pcb_acked(p, st.now_us, ack, sacks);
        assert(q == PcbView { snd_una: q.snd_una, ..p });
        ustack_runs::lemma_quiet_tick(StackView { pcb: Some(q), ..st });
    }
}

/// What a quiet receiver makes of a data segment of its peer: in order, it
/// takes the bytes and queues one acknowledgement; out of order, it queues
/// nothing.
proof fn lemma_quiet_receiver(
    b: StackView,
    from: StackView,
    dst_mac: Seq<u8>,
    dst: ustack::HostView,
    seq: u32,
    ack: u32,
    data: Seq<u8>,
)
    requires
        b.pcb is Some,
        b.pcb->0.state == TcpState::Established,
        b.pcb->0.tx_app.len() == 0,
        b.pcb->0.inflight.len() == 0,
        b.pcb->0.remote == from.local,
        b.pcb->0.remote_port == from.local_port,
        b.pcb->0.rx_app.len() + data.len() <= 65535,
        from.mac.len() == 6,
        dst_mac.len() == 6,
        ustack_laws::same_family(from.local, dst),
        data.len() <= 1460,
        seq == b.pcb->0.rcv_nxt ==> data.len() > 0,
    ensures
        ({
            let out = ustack::ingested(
                b,
                ustack::segment_frame(
                    from,
                    dst_mac,
                    dst,
                    b.local_port,
                    seq,
                    ack,
                    TH_ACK | TH_PSH,
                    Seq::empty(),
                    data,
                ),
            );
            let q = out.pcb->0;
            let next = b.pcb->0.rcv_nxt.wrapping_add(data.len() as u32);
            &&& out.pcb is Some
            &&& q.inflight.len() == 0
            &&& if seq == b.pcb->0.rcv_nxt {
                &&& out.txq.len() == b.txq.len() + 1
                &&& out.txq.take(b.txq.len() as int) == b.txq
                &&& is_ack(b, out.txq.last(), next)
            } else {
                out.txq == b.txq
            }
        }),
{
    let p = b.pcb->0;
    ustack_laws::lemma_frame_in(
        b,
        from,
        dst_mac,
        dst,
        b.local_port,
        seq,
        ack,
        TH_ACK | TH_PSH,
        Seq::empty(),
        data,
    );
    ustack_laws::lemma_flags();
    let tcp = ustack_laws::tcp_inside(
        from,
        dst,
        b.local_port,
        seq,
        ack,
        TH_ACK | TH_PSH,
        Seq::empty(),
        data,
    );
    let sacks = ustack::first_n(ustack::option_sacks(tcp.subrange(20, 20)), 3);
    assert((StackView { pcb: Some(p), ..b }) == b);
    lemma_ack_on_nothing(b, ack, sacks);
    let st = ustack::acked(b, ack, sacks);
    let out = ustack::flushed(ustack::delivered(st, seq, data));
    if seq == p.rcv_nxt {
        let next = p.rcv_nxt.wrapping_add(data.len() as u32);
        assert(data.take(data.len() as int) =~= data);
        assert(out.txq.last() == ack_frame(b, b.ip_id, next));
        assert(out.txq.take(b.txq.len() as int) =~= b.txq);
    }
}

/// One frame with the `i`-th chunk at a quiet receiver that has `n` of them.
proof fn lemma_receiver_step(
    b: StackView,
    prev: StackView,
    st: StackView,
    base: u32,
    had: Seq<u8>,
    chunks: Seq<(u32, Seq<u8>)>,
    frame: Seq<u8>,
    n: int,
    i: int,
)
    requires
        st.pcb is Some,
        st.mac.len() == 6,
        st.pcb->0.remote_mac.len() == 6,
        ustack_laws::same_family(st.local, st.pcb->0.remote),
        st.pcb->0.remote_port == b.local_port,
        b.pcb is Some,
        b.pcb->0.state == TcpState::Established,
        b.pcb->0.tx_app.len() == 0,
        b.pcb->0.remote == st.local,
        b.pcb->0.remote_port == st.local_port,
        prev.pcb is Some,
        prev == (StackView { pcb: prev.pcb, ip_id: prev.ip_id, txq: prev.txq, ..b }),
        prev.pcb->0 == (PcbView {
            snd_una: prev.pcb->0.snd_una,
            inflight: prev.pcb->0.inflight,
            rack: prev.pcb->0.rack,
            rx_app: prev.pcb->0.rx_app,
            rcv_nxt: prev.pcb->0.rcv_nxt,
            ..b.pcb->0
        }),
        prev.pcb->0.inflight.len() == 0,
        prev.pcb->0.rx_app == had + ustack_laws::chunk_bytes(chunks.take(n)),
        prev.pcb->0.rcv_nxt == base.wrapping_add(ustack_runs::offset_of(chunks, n) as u32),
        ustack_laws::contiguous(base, chunks),
        had.len() + ustack_laws::chunk_bytes(chunks).len() <= 65535,
        forall|j: int| 0 <= j < chunks.len() ==> 0 < (#[trigger] chunks[j]).1.len() <= 1460,
        0 <= n <= i < chunks.len(),
        ustack_runs::data_frame(st, frame, chunks[i]),
    ensures
        ({
            let out = ustack::ingested(prev, frame);
            let ack = base.wrapping_add(ustack_runs::offset_of(chunks, n + 1) as u32);
            &&& out.pcb is Some
            &&& out.pcb->0.inflight.len() == 0
            &&& if n == i {
                &&& out.txq.len() == prev.txq.len() + 1
                &&& out.txq.take(prev.txq.len() as int) == prev.txq
                &&& is_ack(b, out.txq.last(), ack)
            } else {
                out.txq == prev.txq
            }
        }),
{
    let p = st.pcb->0;
    let id = choose|id: u16| #[trigger] ustack_runs::chunk_frame(st, id, chunks[i]) == frame;
    let from = StackView { ip_id: id, ..st };
    let out = ustack::ingested(prev, frame);
    ustack_runs::lemma_offsets(base, chunks, i, i);
    ustack_runs::lemma_offsets(base, chunks, n, n);
    ustack_runs::lemma_offsets(base, chunks, n, i);
    ustack_laws::lemma_contiguous_at(base, chunks, i as nat);
    lemma_quiet_receiver(
        prev,
        from,
        p.remote_mac,
        p.remote,
        chunks[i].0,
        p.rcv_nxt,
        chunks[i].1,
    );
    if n == i {
        let ack = base.wrapping_add(ustack_runs::offset_of(chunks, n + 1) as u32);
        assert(is_ack(prev, out.txq.last(), ack));
        let id2 = choose|id2: u16| #[trigger] ack_frame(prev, id2, ack) == out.txq.last();
        assert(ack_frame(b, id2, ack) == out.txq.last());
    }
}

/// What a quiet receiver has queued after the first `j` frames, some
/// dropped: one acknowledgement for each chunk that arrived in order.
proof fn lemma_acks_queued(
    b: StackView,
    st: StackView,
    base: u32,
    had: Seq<u8>,
    chunks: Seq<(u32, Seq<u8>)>,
    index: Seq<int>,
    frames: Seq<Seq<u8>>,
    dropped: Seq<bool>,
    j: nat,
)
    requires
        st.pcb is Some,
        st.mac.len() == 6,
        st.pcb->0.remote_mac.len() == 6,
        ustack_laws::same_family(st.local, st.pcb->0.remote),
        st.pcb->0.remote_port == b.local_port,
        b.pcb is Some,
        b.pcb->0.state == TcpState::Established,
        b.pcb->0.tx_app.len() == 0,
        b.pcb->0.inflight.len() == 0,
        b.pcb->0.remote == st.local,
        b.pcb->0.remote_port == st.local_port,
        b.pcb->0.rx_app == had,
        b.pcb->0.rcv_nxt == base,
        ustack_laws::contiguous(base, chunks),
        had.len() + ustack_laws::chunk_bytes(chunks).len() <= 65535,
        forall|i: int| 0 <= i < chunks.len() ==> 0 < (#[trigger] chunks[i]).1.len() <= 1460,
        frames.len() == chunks.len(),
        index == Seq::new(chunks.len(), |i: int| i),
        dropped.len() == chunks.len(),
        j <= chunks.len(),
        forall|i: int|
            0 <= i < chunks.len() ==> ustack_runs::data_frame(
                st,
                #[trigger] frames[i],
                chunks[i],
            ),
    ensures
        ({
            let out = ustack::ingested_kept(b, frames, dropped, j);
            let n = ustack_runs::arrived(index, dropped, 0, j);
            &&& out.pcb is Some
            &&& out.pcb->0.inflight.len() == 0
            &&& 0 <= n <= j
            &&& out.txq.len() == b.txq.len() + n
            &&& out.txq.take(b.txq.len() as int) == b.txq
            &&& forall|i: int|
                0 <= i < n ==> is_ack(
                    b,
                    #[trigger] out.txq[b.txq.len() + i],
                    base.wrapping_add(ustack_runs::offset_of(chunks, i + 1) as u32),
                )
        }),
    decreases j,
{
    if j == 0 {
        assert(b.txq.take(b.txq.len() as int) =~= b.txq);
    } else {
        let i = j - 1;
        lemma_acks_queued(b, st, base, had, chunks, index, frames, dropped, i as nat);
        let prev = ustack::ingested_kept(b, frames, dropped, i as nat);
        let out = ustack::ingested_kept(b, frames, dropped, j);
        let n = ustack_runs::arrived(index, dropped, 0, i as nat);
        assert(chunks.take(0) =~= Seq::empty());
        assert(had + ustack_laws::chunk_bytes(chunks.take(0)) =~= had);
        ustack_runs::lemma_arrived(
            b,
            st,
            base,
            had,
            chunks,
            chunks,
            index,
            frames,
            dropped,
            0,
            i as nat,
        );
        if !dropped[i] {
            assert(ustack_runs::data_frame(st, frames[i], chunks[i]));
            lemma_receiver_step(b, prev, st, base, had, chunks, frames[i], n, i);
            assert(out.txq.take(b.txq.len() as int) =~= prev.txq.take(b.txq.len() as int));
            assert forall|m: int| 0 <= m < ustack_runs::arrived(
                index,
                dropped,
                0,
                j,
            ) implies is_ack(
                b,
                #[trigger] out.txq[b.txq.len() + m],
                base.wrapping_add(ustack_runs::offset_of(chunks, m + 1) as u32),
            ) by {
                if m < n {
                    assert(out.txq[b.txq.len() + m] == prev.txq[b.txq.len() + m]);
                }
            }
        }
    }
}

/// The scoreboard of chunks sent at `now` from the `m`-th on.
pub open spec fn unacked(
    chunks: Seq<(u32, Seq<u8>)>,
    m: int,
    now: u64,
) -> Seq<SegView> {
    chunks.skip(m).map_values(|c: (u32, Seq<u8>)| ustack::fresh_seg(now, c))
}

/// The sender after the first `m` chunks were acknowledged at the time of
/// sending.
pub open spec fn sender_at(
    st: StackView,
    out: StackView,
    chunks: Seq<(u32, Seq<u8>)>,
    m: int,
) -> bool {
    let q = out.pcb->0;
    &&& out.pcb is Some
    &&& out == StackView { pcb: out.pcb, ..st }
    &&& q == PcbView {
        snd_una: q.snd_una,
        rack: q.rack,
        inflight: unacked(chunks, m, st.now_us),
        ..st.pcb->0
    }
    &&& q.rack.rtt_us == st.pcb->0.rack.rtt_us
}

/// A cumulative acknowledgement covers the chunks before it.
proof fn lemma_covers(
    base: u32,
    chunks: Seq<(u32, Seq<u8>)>,
    now: u64,
    m: int,
    to: int,
    i: int,
)
    requires
        0 <= m <= m + i <= to <= chunks.len(),
        ustack_laws::contiguous(base, chunks),
        ustack_laws::chunk_bytes(chunks).len() <= 65535,
        forall|j: int| 0 <= j < chunks.len() ==> 0 < (#[trigger] chunks[j]).1.len() <= 1460,
        i >= 0,
    ensures
        ustack::acked_to(
            unacked(chunks, m, now),
            base.wrapping_add(ustack_runs::offset_of(chunks, to) as u32),
            i as nat,
        ) == to - m,
    decreases to - m - i,
{
    let segs = unacked(chunks, m, now);
    let ack = base.wrapping_add(ustack_runs::offset_of(chunks, to) as u32);
    ustack_runs::lemma_offsets(base, chunks, to, to);
    if m + i < chunks.len() {
        let k = m + i;
        assert(segs[i] == ustack::fresh_seg(now, chunks[k]));
        ustack_runs::lemma_offsets(base, chunks, k, k);
        ustack_runs::lemma_offsets(base, chunks, k, k + 1);
        ustack_laws::lemma_contiguous_at(base, chunks, k as nat);
        assert(ustack::seg_end(segs[i]) == base.wrapping_add(
            ustack_runs::offset_of(chunks, k + 1) as u32,
        ));
        if k < to {
            ustack_runs::lemma_offsets(base, chunks, k + 1, to);
            lemma_covers(base, chunks, now, m, to, i + 1);
        } else {
            ustack_runs::lemma_offsets(base, chunks, to, k + 1);
        }
    }
}

/// Deliveries at the time of sending give no round-trip sample.
proof fn lemma_no_sample(rack: Rack, now: u64, segs: Seq<SegView>, k: nat)
    requires
        k <= segs.len(),
        forall|i: int| 0 <= i < segs.len() ==> (#[trigger] segs[i]).xmit_ts_us == now,
    ensures
        ustack::rack_acked(rack, now, segs, k).rtt_us == rack.rtt_us,
    decreases k,
{
    if k > 0 {
        lemma_no_sample(rack, now, segs, (k - 1) as nat);
        assert(segs[k - 1].xmit_ts_us == now);
    }
}

/// An acknowledgement without data is taken as such.
proof fn lemma_ack_ingested(out: StackView, b: StackView, frame: Seq<u8>, ack: u32)
    requires
        out.pcb is Some,
        out.pcb->0.state == TcpState::Established,
        out.pcb->0.tx_app.len() == 0,
        b.pcb is Some,
        b.mac.len() == 6,
        b.pcb->0.remote_mac.len() == 6,
        ustack_laws::same_family(b.local, b.pcb->0.remote),
        b.pcb->0.remote_port == out.local_port,
        out.pcb->0.remote == b.local,
        out.pcb->0.remote_port == b.local_port,
        is_ack(b, frame, ack),
    ensures
        ustack::ingested(out, frame) == ustack::acked(out, ack, Seq::empty()),
{
    let id = choose|id: u16| #[trigger] ack_frame(b, id, ack) == frame;
    let from = StackView { ip_id: id, ..b };
    let bp = b.pcb->0;
    let p = out.pcb->0;
    let none = Seq::<u8>::empty();
    ustack_laws::lemma_frame_in(
        out,
        from,
        bp.remote_mac,
        bp.remote,
        bp.remote_port,
        bp.snd_nxt,
        ack,
        TH_ACK,
        none,
        none,
    );
    ustack_laws::lemma_flags();
    let tcp = ustack_laws::tcp_inside(
        from,
        bp.remote,
        bp.remote_port,
        bp.snd_nxt,
        ack,
        TH_ACK,
        none,
        none,
    );
    let sacks = ustack::first_n(ustack::option_sacks(tcp.subrange(20, 20)), 3);
    assert(tcp.subrange(20, 20) =~= none);
    assert(sacks =~= Seq::empty());
    assert((StackView { pcb: Some(p), ..out }) == out);
    ustack_laws::lemma_acked_keeps(out, ack, sacks);
}

/// What an acknowledgement does to the scoreboard, at the time of sending.
proof fn lemma_scoreboard(
    out: StackView,
    base: u32,
    chunks: Seq<(u32, Seq<u8>)>,
    m: int,
    to: int,
)
    requires
        out.pcb is Some,
        0 <= m <= to <= chunks.len(),
        out.pcb->0.inflight == unacked(chunks, m, out.now_us),
        out.pcb->0.snd_nxt == base.wrapping_add(ustack_laws::chunk_bytes(chunks).len() as u32),
        ustack_laws::contiguous(base, chunks),
        ustack_laws::chunk_bytes(chunks).len() <= 65535,
        forall|i: int| 0 <= i < chunks.len() ==> 0 < (#[trigger] chunks[i]).1.len() <= 1460,
    ensures
        ({
            let ack = base.wrapping_add(ustack_runs::offset_of(chunks, to) as u32);
            let s = ustack::acked(out, ack, Seq::empty());
            let q = s.pcb->0;
            &&& s.pcb is Some
            &&& s == StackView { pcb: s.pcb, ..out }
            &&& q == PcbView {
                snd_una: q.snd_una,
                rack: q.rack,
                inflight: unacked(chunks, to, out.now_us),
                ..out.pcb->0
            }
            &&& q.rack.rtt_us == out.pcb->0.rack.rtt_us
        }),
{
    let ack = base.wrapping_add(ustack_runs::offset_of(chunks, to) as u32);
    let p = out.pcb->0;
    let sacks = Seq::<(u32, u32)>::empty();
    // The number acknowledged is one that was sent.
    ustack_runs::lemma_offsets(base, chunks, to, chunks.len() as int);
    assert(chunks.take(chunks.len() as int) =~= chunks);
    assert(!ustack::before(p.snd_nxt, ack));
    let segs = unacked(chunks, m, out.now_us);
    lemma_covers(base, chunks, out.now_us, m, to, 0);
    lemma_no_sample(p.rack, out.now_us, segs, (to - m) as nat);
    let q = ustack::pcb_acked(p, out.now_us, ack, sacks);
    assert(segs.skip(to - m) =~= unacked(chunks, to, out.now_us));
    assert(q.inflight == unacked(chunks, to, out.now_us));
    let s = StackView { pcb: Some(q), ..out };
    assert forall|i: int| 0 <= i < q.inflight.len() implies !(#[trigger] q.inflight[i]).lost
        && !ustack::overdue(q.rack, s.now_us, q.inflight[i]) by {
        assert(q.inflight[i].xmit_ts_us == s.now_us);
    }
    ustack_runs::lemma_quiet_tick(s);
}

/// One acknowledgement from the peer, at the time of sending.
proof fn lemma_ack_taken(
    st: StackView,
    out: StackView,
    b: StackView,
    frame: Seq<u8>,
    base: u32,
    chunks: Seq<(u32, Seq<u8>)>,
    m: int,
    to: int,
)
    requires
        sender_at(st, out, chunks, m),
        0 <= m <= to <= chunks.len(),
        st.pcb is Some,
        st.pcb->0.state == TcpState::Established,
        st.pcb->0.tx_app.len() == 0,
        st.pcb->0.snd_nxt == base.wrapping_add(ustack_laws::chunk_bytes(chunks).len() as u32),
        b.pcb is Some,
        b.mac.len() == 6,
        b.pcb->0.remote_mac.len() == 6,
        ustack_laws::same_family(b.local, b.pcb->0.remote),
        b.pcb->0.remote_port == st.local_port,
        st.pcb->0.remote == b.local,
        st.pcb->0.remote_port == b.local_port,
        ustack_laws::contiguous(base, chunks),
        ustack_laws::chunk_bytes(chunks).len() <= 65535,
        forall|i: int| 0 <= i < chunks.len() ==> 0 < (#[trigger] chunks[i]).1.len() <= 1460,
        is_ack(
            b,
            frame,
            base.wrapping_add(ustack_runs::offset_of(chunks, to) as u32),
        ),
    ensures
        sender_at(st, ustack::ingested(out, frame), chunks, to),
{
    let ack = base.wrapping_add(ustack_runs::offset_of(chunks, to) as u32);
    lemma_ack_ingested(out, b, frame, ack);
    lemma_scoreboard(out, base, chunks, m, to);
}

/// All acknowledgements, in order.
proof fn lemma_acks_taken(
    st: StackView,
    b: StackView,
    frames: Seq<Seq<u8>>,
    base: u32,
    chunks: Seq<(u32, Seq<u8>)>,
    k: nat,
)
    requires
        sender_at(st, st, chunks, 0),
        k <= frames.len() <= chunks.len(),
        st.pcb is Some,
        st.pcb->0.state == TcpState::Established,
        st.pcb->0.tx_app.len() == 0,
        st.pcb->0.snd_nxt == base.wrapping_add(ustack_laws::chunk_bytes(chunks).len() as u32),
        b.pcb is Some,
        b.mac.len() == 6,
        b.pcb->0.remote_mac.len() == 6,
        ustack_laws::same_family(b.local, b.pcb->0.remote),
        b.pcb->0.remote_port == st.local_port,
        st.pcb->0.remote == b.local,
        st.pcb->0.remote_port == b.local_port,
        ustack_laws::contiguous(base, chunks),
        ustack_laws::chunk_bytes(chunks).len() <= 65535,
        forall|i: int| 0 <= i < chunks.len() ==> 0 < (#[trigger] chunks[i]).1.len() <= 1460,
        forall|i: int|
            0 <= i < frames.len() ==> is_ack(
                b,
                #[trigger] frames[i],
                base.wrapping_add(ustack_runs::offset_of(chunks, i + 1) as u32),
            ),
    ensures
        sender_at(st, ustack_laws::ingested_all(st, frames.take(k as int)), chunks, k as int),
    decreases k,
{
    if k > 0 {
        lemma_acks_taken(st, b, frames, base, chunks, (k - 1) as nat);
        let prev = ustack_laws::ingested_all(st, frames.take(k - 1));
        assert(frames.take(k as int).drop_last() =~= frames.take(k - 1));
        assert(frames.take(k as int).last() == frames[k - 1]);
        assert(is_ack(
            b,
            frames[k - 1],
            base.wrapping_add(ustack_runs::offset_of(chunks, k as int) as u32),
        ));
        lemma_ack_taken(st, prev, b, frames[k - 1], base, chunks, k - 1, k as int);
    } else {
        assert(frames.take(0) =~= Seq::empty());
    }
}

/// The chunks from the first missing one on, in order, complete the data.
proof fn lemma_tail_arrives(index: Seq<int>, dropped: Seq<bool>, k: int, j: nat)
    requires
        j <= index.len(),
        dropped.len() == index.len(),
        forall|i: int| 0 <= i < dropped.len() ==> !(#[trigger] dropped[i]),
        forall|i: int| 0 <= i < index.len() ==> #[trigger] index[i] == k + i,
    ensures
        ustack_runs::arrived(index, dropped, k, j) == k + j,
    decreases j,
{
    if j > 0 {
        lemma_tail_arrives(index, dropped, k, (j - 1) as nat);
        assert(!dropped[j - 1]);
        assert(index[j - 1] == k + (j - 1));
    }
}

/// Losses are repaired also when acknowledgements come back first:
/// whichever frames of a write are dropped on the way, the receiver's
/// acknowledgements reach the sender, and once the timeout is over the
/// timer's frames, delivered in order, leave the receiver with exactly the
/// written bytes behind what it had. The timer then sends only what did
/// not arrive in order.
pub proof fn law_losses_are_repaired_after_acks(
    a: StackView,
    b: StackView,
    data: Seq<u8>,
    dropped: Seq<bool>,
    now_us: u64,
)
    requires
        ustack_laws::in_step(a, b),
        ustack_laws::in_step(b, a),
        a.pcb->0.inflight.len() == 0,
        b.pcb->0.inflight.len() == 0,
        b.pcb->0.rx_app.len() + data.len() <= 65535,
        data.len() > 0,
        dropped.len() == ustack_runs::written(a, data).txq.len() - a.txq.len(),
        ustack::elapsed(now_us, a.now_us) >= ustack::rto(a.pcb->0.rack.rtt_us),
    ensures
        ({
            let a2 = ustack_runs::written(a, data);
            let frames = a2.txq.skip(a.txq.len() as int);
            let b2 = ustack::ingested_kept(b, frames, dropped, frames.len());
            let acks = b2.txq.skip(b.txq.len() as int);
            let a3 = ustack_laws::ingested_all(a2, acks);
            let a4 = ustack_runs::ticked(a3, now_us);
            let again = a4.txq.skip(a3.txq.len() as int);
            let b3 = ustack_laws::ingested_all(b2, again);
            &&& b3.pcb is Some
            &&& b3.pcb->0.rx_app == b.pcb->0.rx_app + data
            &&& ustack_laws::linked(a4, b3)
            &&& again.len() == frames.len() - acks.len()
        }),
{
    let p = a.pcb->0;
    let base = p.snd_nxt;
    let had = b.pcb->0.rx_app;
    let a2 = ustack_runs::written(a, data);
    let chunks = ustack::chopped(p.mss, base, data);
    let frames = a2.txq.skip(a.txq.len() as int);
    let n = chunks.len();
    ustack_laws::law_chop_preserves_data(p.mss, base, data);
    ustack::law_chunks_fit_mss(p.mss, base, data);
    ustack_runs::lemma_written(a, data);
    // The first delivery.
    let index = Seq::new(n, |i: int| i);
    assert forall|i: int| 0 <= i < n implies ustack_runs::data_frame(
        a,
        #[trigger] frames[i],
        chunks[i],
    ) by {
        assert(frames[i] == a2.txq[a.txq.len() + i]);
    }
    assert(chunks.take(0) =~= Seq::empty());
    assert(had + ustack_laws::chunk_bytes(chunks.take(0)) =~= had);
    ustack_runs::lemma_arrived(b, a, base, had, chunks, chunks, index, frames, dropped, 0, n);
    lemma_acks_queued(b, a, base, had, chunks, index, frames, dropped, n);
    let b2 = ustack::ingested_kept(b, frames, dropped, n);
    let k = ustack_runs::arrived(index, dropped, 0, n);
    // The acknowledgements.
    let acks = b2.txq.skip(b.txq.len() as int);
    assert forall|i: int| 0 <= i < acks.len() implies is_ack(
        b,
        #[trigger] acks[i],
        base.wrapping_add(ustack_runs::offset_of(chunks, i + 1) as u32),
    ) by {
        assert(acks[i] == b2.txq[b.txq.len() + i]);
    }
    assert(chunks.skip(0) =~= chunks);
    assert(a2.pcb->0.inflight =~= unacked(chunks, 0, a2.now_us));
    assert(sender_at(a2, a2, chunks, 0));
    lemma_acks_taken(a2, b, acks, base, chunks, k as nat);
    assert(acks.take(k) =~= acks);
    let a3 = ustack_laws::ingested_all(a2, acks);
    lemma_repair_tail(a2, a3, b2, base, had, data, chunks, k, now_us);
}

/// The timer and the last delivery.
proof fn lemma_repair_tail(
    a2: StackView,
    a3: StackView,
    b2: StackView,
    base: u32,
    had: Seq<u8>,
    data: Seq<u8>,
    chunks: Seq<(u32, Seq<u8>)>,
    k: int,
    now_us: u64,
)
    requires
        sender_at(a2, a3, chunks, k),
        0 <= k <= chunks.len(),
        ustack::elapsed(now_us, a2.now_us) >= ustack::rto(a2.pcb->0.rack.rtt_us),
        a2.pcb is Some,
        a2.pcb->0.state == TcpState::Established,
        a2.mac.len() == 6,
        a2.pcb->0.remote_mac.len() == 6,
        ustack_laws::same_family(a2.local, a2.pcb->0.remote),
        a2.pcb->0.remote_port == b2.local_port,
        a2.pcb->0.snd_nxt == base.wrapping_add(data.len() as u32),
        b2.pcb is Some,
        b2.pcb->0.state == TcpState::Established,
        b2.pcb->0.tx_app.len() == 0,
        b2.pcb->0.remote == a2.local,
        b2.pcb->0.remote_port == a2.local_port,
        b2.pcb->0.rx_app == had + ustack_laws::chunk_bytes(chunks.take(k)),
        b2.pcb->0.rcv_nxt == base.wrapping_add(ustack_runs::offset_of(chunks, k) as u32),
        ustack_laws::contiguous(base, chunks),
        ustack_laws::chunk_bytes(chunks) == data,
        had.len() + data.len() <= 65535,
        forall|i: int| 0 <= i < chunks.len() ==> 0 < (#[trigger] chunks[i]).1.len() <= 1460,
    ensures
        ({
            let a4 = ustack_runs::ticked(a3, now_us);
            let again = a4.txq.skip(a3.txq.len() as int);
            let b3 = ustack_laws::ingested_all(b2, again);
            &&& b3.pcb is Some
            &&& b3.pcb->0.rx_app == had + data
            &&& ustack_laws::linked(a4, b3)
            &&& again.len() == chunks.len() - k
        }),
{
    let tail = chunks.skip(k);
    let q = a3.pcb->0;
    let a4 = ustack_runs::ticked(a3, now_us);
    let again = a4.txq.skip(a3.txq.len() as int);
    let nothing = Seq::<SegView>::empty();
    ustack_runs::lemma_ticked(a3, now_us);
    ustack_runs::lemma_ticked_pcb(a3, now_us);
    ustack_runs::lemma_all_fresh_lost(q.rack, nothing, tail, a2.now_us, now_us, tail.len());
    assert(nothing + unacked(chunks, k, a2.now_us) =~= q.inflight);
    let marked = ustack::all_marked(q.rack, now_us, q.inflight);
    assert(ustack::lost_chunks(marked, 0) + tail.take(tail.len() as int) =~= tail);
    assert(ustack::lost_chunks(marked, marked.len()) == tail);
    let index = Seq::new(tail.len(), |i: int| k + i);
    let none = Seq::new(tail.len(), |i: int| false);
    assert forall|i: int| 0 <= i < tail.len() implies ustack_runs::data_frame(
        a3,
        #[trigger] again[i],
        tail[i],
    ) by {
        assert(again[i] == a4.txq[a3.txq.len() + i]);
    }
    assert forall|i: int| 0 <= i < tail.len() implies (#[trigger] tail[i]).1.len() <= 1460 by {
        assert(tail[i] == chunks[k + i]);
    }
    ustack_runs::lemma_arrived(
        b2,
        a3,
        base,
        had,
        chunks,
        tail,
        index,
        again,
        none,
        k,
        tail.len(),
    );
    lemma_tail_arrives(index, none, k, tail.len());
    ustack_runs::lemma_all_kept(b2, again, none, tail.len());
    assert(again.take(tail.len() as int) =~= again);
    assert(chunks.take(chunks.len() as int) =~= chunks);
}

} // verus!
