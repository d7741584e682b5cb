//! Laws of the userspace TCP endpoint: sequence order, segmentation, the
//! handshake, in-order delivery and loss repair.
use vstd::prelude::*;
use crate::ustack;
use crate::ustack::{HostView, PcbView, Rack, SegView, StackView, TcpState, CLIENT_ISS, SERVER_ISS, TH_ACK, TH_PSH, TH_SYN};

verus! {

/// Moving ahead by at most half the number space is moving forward.
pub proof fn law_seq_advance(a: u32, n: u32)
    requires
        0 < n <= 0x8000_0000,
    ensures
        ustack::before(a, a.wrapping_add(n)),
        !ustack::before(a, a),
{
}

/// Two numbers are ordered one way only, unless they are exactly half the
/// number space apart.
pub proof fn law_seq_trichotomy(a: u32, b: u32)
    requires
        (b - a) % 0x1_0000_0000 != 0x8000_0000,
    ensures
        ustack::before(a, b) || a == b || ustack::before(b, a),
        !(ustack::before(a, b) && ustack::before(b, a)),
        ustack::before(a, b) ==> a != b,
{
}

/// The bytes of a list of chunks, end to end.
pub open spec fn chunk_bytes(chunks: Seq<(u32, Seq<u8>)>) -> Seq<u8>
    decreases chunks.len(),
{
    if chunks.len() == 0 {
        Seq::empty()
    } else {
        chunks[0].1 + chunk_bytes(chunks.skip(1))
    }
}

/// Each chunk starts where the one before it ended.
pub open spec fn contiguous(seq: u32, chunks: Seq<(u32, Seq<u8>)>) -> bool
    decreases chunks.len(),
{
    chunks.len() > 0 ==> {
        &&& chunks[0].0 == seq
        &&& contiguous(seq.wrapping_add(chunks[0].1.len() as u32), chunks.skip(1))
    }
}

/// Segmentation loses nothing: the pieces put end to end are the data,
/// their sequence numbers are contiguous, and all but the last are full.
pub proof fn law_chop_preserves_data(mss: nat, seq: u32, data: Seq<u8>)
    requires
        mss > 0,
    ensures
        chunk_bytes(ustack::chopped(mss, seq, data)) == data,
        contiguous(seq, ustack::chopped(mss, seq, data)),
        forall|i: int|
            0 <= i < ustack::chopped(mss, seq, data).len() - 1 ==> (#[trigger] ustack::chopped(
                mss,
                seq,
                data,
            )[i]).1.len() == mss,
    decreases data.len(),
{
    let out = ustack::chopped(mss, seq, data);
    if data.len() > 0 {
        let n = if data.len() < mss {
            data.len()
        } else {
            mss
        };
        let rest = ustack::chopped(mss, seq.wrapping_add(n as u32), data.skip(n as int));
        law_chop_preserves_data(mss, seq.wrapping_add(n as u32), data.skip(n as int));
        assert(out.skip(1) =~= rest);
        assert(data.take(n as int) + data.skip(n as int) =~= data);
        assert forall|i: int| 0 <= i < out.len() - 1 implies (#[trigger] out[i]).1.len() == mss by {
            if i > 0 {
                assert(out[i] == rest[i - 1]);
            }
        }
    }
}

/// The two addresses can talk to each other.
pub open spec fn same_family(a: HostView, b: HostView) -> bool {
    a.wf() && b.wf() && (a is V4 <==> b is V4)
}

/// The TCP segment inside a frame.
pub open spec fn tcp_inside(
    from: StackView,
    dst: HostView,
    dst_port: u16,
    seq: u32,
    ack: u32,
    flags: u8,
    opts: Seq<u8>,
    payload: Seq<u8>,
) -> Seq<u8> {
    match (from.local, dst) {
        (HostView::V4(s), HostView::V4(d)) => crate::wire::tcp_over_v4(
            s,
            d,
            from.local_port,
            dst_port,
            seq,
            ack,
            flags,
            opts,
            payload,
        ),
        (HostView::V6(s), HostView::V6(d)) => crate::wire::tcp_over_v6(
            s,
            d,
            from.local_port,
            dst_port,
            seq,
            ack,
            flags,
            opts,
            payload,
        ),
        _ => Seq::empty(),
    }
}

/// The fields of that segment.
pub proof fn lemma_tcp_inside(
    from: StackView,
    dst: HostView,
    dst_port: u16,
    seq: u32,
    ack: u32,
    flags: u8,
    opts: Seq<u8>,
    payload: Seq<u8>,
)
    requires
        same_family(from.local, dst),
        opts.len() % 4 == 0,
        opts.len() <= 40,
    ensures
        ({
            let tcp = tcp_inside(from, dst, dst_port, seq, ack, flags, opts, payload);
            let h = crate::parse::tcp_of(tcp);
            &&& tcp.len() == 20 + opts.len() + payload.len()
            &&& crate::parse::tcp_error(tcp) is None
            &&& h.src_port == from.local_port
            &&& h.dst_port == dst_port
            &&& h.seq == seq
            &&& h.ack == ack
            &&& h.flags == flags
            &&& h.data_offset * 4 == 20 + opts.len()
            &&& tcp.subrange(20, 20 + opts.len() as int) == opts
            &&& tcp.skip(20 + opts.len() as int) == payload
        }),
{
    let port = from.local_port;
    let zero = crate::wire::tcp_bytes(port, dst_port, seq, ack, flags, 0, opts, payload);
    let pseudo = match (from.local, dst) {
        (HostView::V4(s), HostView::V4(d)) => crate::checksum::pseudo_v4(s, d, 6, zero.len()),
        (HostView::V6(s), HostView::V6(d)) => crate::checksum::pseudo_v6(s, d, 6, zero.len()),
        _ => 0,
    };
    let c = crate::simd::checksum_of(pseudo + crate::simd::word_sum(zero)) as u16;
    let tcp = tcp_inside(from, dst, dst_port, seq, ack, flags, opts, payload);
    assert(tcp == crate::wire::tcp_bytes(port, dst_port, seq, ack, flags, c, opts, payload));
    crate::wire::law_tcp_roundtrip(port, dst_port, seq, ack, flags, c, opts, payload);
    crate::wire::lemma_tcp_head_fields(
        port,
        dst_port,
        seq,
        ack,
        crate::wire::offset_byte(opts.len()),
        flags,
        c,
    );
}

/// What a receiver makes of a frame an endpoint built.
pub proof fn lemma_frame_in(
    st: StackView,
    from: StackView,
    dst_mac: Seq<u8>,
    dst: HostView,
    dst_port: u16,
    seq: u32,
    ack: u32,
    flags: u8,
    opts: Seq<u8>,
    payload: Seq<u8>,
)
    requires
        from.mac.len() == 6,
        dst_mac.len() == 6,
        same_family(from.local, dst),
        opts.len() % 4 == 0,
        opts.len() <= 40,
        payload.len() <= 1460,
    ensures
        ({
            let frame = ustack::segment_frame(
                from,
                dst_mac,
                dst,
                dst_port,
                seq,
                ack,
                flags,
                opts,
                payload,
            );
            let tcp = tcp_inside(from, dst, dst_port, seq, ack, flags, opts, payload);
            let h = crate::parse::tcp_of(tcp);
            let own = if st.listen && st.pcb is None {
                StackView { mac: dst_mac, local: dst, ..st }
            } else {
                st
            };
            &&& ustack::ingested(st, frame) == ustack::segment_in(own, from.local, from.mac, tcp)
            &&& crate::parse::tcp_error(tcp) is None
            &&& h.src_port == from.local_port
            &&& h.dst_port == dst_port
            &&& h.seq == seq
            &&& h.ack == ack
            &&& h.flags == flags
            &&& h.data_offset * 4 == 20 + opts.len()
            &&& tcp.subrange(20, 20 + opts.len() as int) == opts
            &&& tcp.skip(20 + opts.len() as int) == payload
        }),
{
    reveal(ustack::ingested);
    let tcp = tcp_inside(from, dst, dst_port, seq, ack, flags, opts, payload);
    lemma_tcp_inside(from, dst, dst_port, seq, ack, flags, opts, payload);
    match (from.local, dst) {
        (HostView::V4(s), HostView::V4(d)) => {
            crate::wire::law_ipv4_frame_roundtrip(dst_mac, from.mac, s, d, from.ip_id, tcp);
        },
        (HostView::V6(s), HostView::V6(d)) => {
            crate::wire::law_ipv6_frame_roundtrip(dst_mac, from.mac, s, d, tcp);
        },
        _ => {},
    }
}

/// Flag arithmetic of the handshake and of data segments.
pub proof fn lemma_flags()
    ensures
        ustack::flag_set(TH_SYN, TH_SYN),
        !ustack::flag_set(TH_SYN, TH_ACK),
        ustack::flag_set(TH_SYN | TH_ACK, TH_SYN),
        ustack::flag_set(TH_SYN | TH_ACK, TH_ACK),
        ustack::flag_set(TH_ACK, TH_ACK),
        !ustack::flag_set(TH_ACK, TH_SYN),
        ustack::flag_set(TH_ACK | TH_PSH, TH_ACK),
        !ustack::flag_set(TH_ACK | TH_PSH, TH_SYN),
{
    assert(2u8 & 2u8 != 0 && 2u8 & 0x10u8 == 0 && (2u8 | 0x10u8) & 2u8 != 0 && (2u8 | 0x10u8)
        & 0x10u8 != 0 && 0x10u8 & 0x10u8 != 0 && 0x10u8 & 2u8 == 0 && (0x10u8 | 8u8) & 0x10u8 != 0
        && (0x10u8 | 8u8) & 2u8 == 0) by (bit_vector);
}

/// What acknowledgement processing, loss detection and retransmission keep:
/// everything but the send side of the connection, the queue and the
/// identification counter.
pub proof fn lemma_acked_keeps(st: StackView, ack: u32, sacks: Seq<(u32, u32)>)
    requires
        st.pcb is Some,
    ensures
        ({
            let out = ustack::acked(st, ack, sacks);
            let p = st.pcb->0;
            let q = out.pcb->0;
            &&& out.pcb is Some
            &&& out == StackView { pcb: out.pcb, ip_id: out.ip_id, txq: out.txq, ..st }
            &&& q == PcbView { snd_una: q.snd_una, inflight: q.inflight, rack: q.rack, ..p }
        }),
{
    let p = st.pcb->0;
    let a = StackView { pcb: Some(ustack::pcb_acked(p, st.now_us, ack, sacks)), ..st };
    let d = ustack::detected(a);
    let dp = d.pcb->0;
    let b = StackView {
        pcb: Some(
            PcbView { inflight: dp.inflight.map_values(|s: SegView| ustack::resent(d.now_us, s)), ..dp },
        ),
        ..d
    };
    let chunks = ustack::lost_chunks(dp.inflight, dp.inflight.len());
    ustack::lemma_chunks_sent_frame(b, dp, chunks, chunks.len());
}

/// An in-order data segment from the peer of an established connection
/// reaches the application: as many of its bytes as the receive buffer
/// holds are appended, and the next expected number moves past them.
pub proof fn law_in_order_segment_delivered(
    st: StackView,
    from: StackView,
    dst_mac: Seq<u8>,
    dst: HostView,
    ack: u32,
    payload: Seq<u8>,
)
    requires
        st.pcb is Some,
        st.pcb->0.state == TcpState::Established,
        st.pcb->0.tx_app.len() == 0,
        st.pcb->0.remote == from.local,
        st.pcb->0.remote_port == from.local_port,
        from.mac.len() == 6,
        dst_mac.len() == 6,
        same_family(from.local, dst),
        0 < payload.len() <= 1460,
    ensures
        ({
            let p = st.pcb->0;
            let n = ustack::room_for(payload.len(), p.rx_app.len());
            let out = ustack::ingested(
                st,
                ustack::segment_frame(
                    from,
                    dst_mac,
                    dst,
                    st.local_port,
                    p.rcv_nxt,
                    ack,
                    TH_ACK | TH_PSH,
                    Seq::empty(),
                    payload,
                ),
            );
            let q = out.pcb->0;
            &&& out.pcb is Some
            &&& out == StackView { pcb: out.pcb, ip_id: out.ip_id, txq: out.txq, ..st }
            &&& q.rx_app == p.rx_app + payload.take(n)
            &&& q.rcv_nxt == p.rcv_nxt.wrapping_add(n as u32)
            &&& q == PcbView {
                snd_una: q.snd_una,
                inflight: q.inflight,
                rack: q.rack,
                rx_app: q.rx_app,
                rcv_nxt: q.rcv_nxt,
                ..p
            }
        }),
{
    let p = st.pcb->0;
    lemma_frame_in(
        st,
        from,
        dst_mac,
        dst,
        st.local_port,
        p.rcv_nxt,
        ack,
        TH_ACK | TH_PSH,
        Seq::empty(),
        payload,
    );
    lemma_flags();
    let tcp = tcp_inside(
        from,
        dst,
        st.local_port,
        p.rcv_nxt,
        ack,
        TH_ACK | TH_PSH,
        Seq::empty(),
        payload,
    );
    let sacks = ustack::first_n(ustack::option_sacks(tcp.subrange(20, 20)), 3);
    let st1 = StackView { pcb: Some(p), ..st };
    assert(st1 == st);
    lemma_acked_keeps(st, ack, sacks);
}

/// A data segment that does not start at the next expected number leaves
/// what the application has received as it is.
pub proof fn law_out_of_order_not_delivered(
    st: StackView,
    from: StackView,
    dst_mac: Seq<u8>,
    dst: HostView,
    seq: u32,
    ack: u32,
    payload: Seq<u8>,
)
    requires
        st.pcb is Some,
        st.pcb->0.state == TcpState::Established,
        st.pcb->0.tx_app.len() == 0,
        from.mac.len() == 6,
        dst_mac.len() == 6,
        same_family(from.local, dst),
        payload.len() <= 1460,
        seq != st.pcb->0.rcv_nxt,
    ensures
        ({
            let out = ustack::ingested(
                st,
                ustack::segment_frame(
                    from,
                    dst_mac,
                    dst,
                    st.local_port,
                    seq,
                    ack,
                    TH_ACK | TH_PSH,
                    Seq::empty(),
                    payload,
                ),
            );
            let q = out.pcb->0;
            &&& out.pcb is Some
            &&& q.rx_app == st.pcb->0.rx_app
            &&& q.rcv_nxt == st.pcb->0.rcv_nxt
            &&& out == StackView { pcb: out.pcb, ip_id: out.ip_id, txq: out.txq, ..st }
            &&& q == PcbView {
                snd_una: q.snd_una,
                inflight: q.inflight,
                rack: q.rack,
                ..st.pcb->0
            }
        }),
{
    let p = st.pcb->0;
    lemma_frame_in(
        st,
        from,
        dst_mac,
        dst,
        st.local_port,
        seq,
        ack,
        TH_ACK | TH_PSH,
        Seq::empty(),
        payload,
    );
    lemma_flags();
    let tcp = tcp_inside(
        from,
        dst,
        st.local_port,
        seq,
        ack,
        TH_ACK | TH_PSH,
        Seq::empty(),
        payload,
    );
    let sacks = ustack::first_n(ustack::option_sacks(tcp.subrange(20, 20)), 3);
    assert((StackView { pcb: Some(p), ..st }) == st);
    lemma_acked_keeps(st, ack, sacks);
}

/// The connection from `a` to `b` is open, and `b` expects exactly what `a`
/// sends next.
pub open spec fn in_step(a: StackView, b: StackView) -> bool {
    &&& a.wf()
    &&& b.wf()
    &&& linked(a, b)
}

/// The two ends of a connection from `a` to `b` fit together.
pub open spec fn linked(a: StackView, b: StackView) -> bool {
    &&& a.pcb is Some
    &&& b.pcb is Some
    &&& same_family(a.local, a.pcb->0.remote)
    &&& a.pcb->0.state == TcpState::Established
    &&& b.pcb->0.state == TcpState::Established
    &&& a.pcb->0.remote_port == b.local_port
    &&& b.pcb->0.remote == a.local
    &&& b.pcb->0.remote_port == a.local_port
    &&& a.pcb->0.snd_nxt == b.pcb->0.rcv_nxt
}

/// The endpoint after a list of frames, in order.
pub open spec fn ingested_all(st: StackView, frames: Seq<Seq<u8>>) -> StackView
    decreases frames.len(),
{
    if frames.len() == 0 {
        st
    } else {
        ustack::ingested(ingested_all(st, frames.drop_last()), frames.last())
    }
}

/// The frames that carry the first `k` chunks, one each, in order.
pub proof fn lemma_chunk_frames(st: StackView, p: PcbView, chunks: Seq<(u32, Seq<u8>)>, k: nat)
    requires
        k <= chunks.len(),
    ensures
        ({
            let out = ustack::chunks_sent(st, p, chunks, k);
            &&& out.txq.len() == st.txq.len() + k
            &&& out.txq.take(st.txq.len() as int) == st.txq
            &&& forall|i: int|
                0 <= i < k ==> #[trigger] out.txq[st.txq.len() + i] == ustack::segment_frame(
                    ustack::chunks_sent(st, p, chunks, i as nat),
                    p.remote_mac,
                    p.remote,
                    p.remote_port,
                    chunks[i].0,
                    p.rcv_nxt,
                    TH_ACK | TH_PSH,
                    Seq::empty(),
                    chunks[i].1,
                )
        }),
    decreases k,
{
    if k > 0 {
        lemma_chunk_frames(st, p, chunks, (k - 1) as nat);
        let prev = ustack::chunks_sent(st, p, chunks, (k - 1) as nat);
        let out = ustack::chunks_sent(st, p, chunks, k);
        assert(out.txq.take(st.txq.len() as int) =~= prev.txq.take(st.txq.len() as int));
        assert forall|i: int| 0 <= i < k implies #[trigger] out.txq[st.txq.len() + i]
            == ustack::segment_frame(
            ustack::chunks_sent(st, p, chunks, i as nat),
            p.remote_mac,
            p.remote,
            p.remote_port,
            chunks[i].0,
            p.rcv_nxt,
            TH_ACK | TH_PSH,
            Seq::empty(),
            chunks[i].1,
        ) by {
            if i < k - 1 {
                assert(out.txq[st.txq.len() + i] == prev.txq[st.txq.len() + i]);
            }
        }
    } else {
        assert(st.txq.take(st.txq.len() as int) =~= st.txq);
    }
}

/// The chunks before the `k`-th carry the data before it, and the `k`-th
/// starts at the sequence number after them.
pub proof fn lemma_contiguous_at(seq: u32, chunks: Seq<(u32, Seq<u8>)>, k: nat)
    requires
        contiguous(seq, chunks),
        k < chunks.len(),
        chunk_bytes(chunks).len() <= 65535,
    ensures
        chunk_bytes(chunks.take(k as int)).len() <= 65535,
        chunks[k as int].0 == seq.wrapping_add(chunk_bytes(chunks.take(k as int)).len() as u32),
        chunk_bytes(chunks.take(k as int + 1)) == chunk_bytes(chunks.take(k as int))
            + chunks[k as int].1,
        chunk_bytes(chunks.take(k as int + 1)).len() <= chunk_bytes(chunks).len(),
    decreases k,
{
    let tail = chunks.skip(1);
    if k == 0 {
        assert(chunks.take(0) =~= Seq::empty());
        assert(chunks.take(1).skip(1) =~= Seq::empty());
        assert(chunk_bytes(chunks.take(1)) =~= chunks[0].1);
        assert(chunk_bytes(chunks.take(0)) + chunks[0].1 =~= chunks[0].1);
    } else {
        lemma_contiguous_at(seq.wrapping_add(chunks[0].1.len() as u32), tail, (k - 1) as nat);
        assert(chunks.take(k as int).skip(1) =~= tail.take(k - 1));
        assert(chunks.take(k as int + 1).skip(1) =~= tail.take(k as int));
        assert(chunks.take(k as int)[0] == chunks[0]);
        assert(chunks.take(k as int + 1)[0] == chunks[0]);
        assert(chunk_bytes(chunks.take(k as int + 1)) =~= chunk_bytes(chunks.take(k as int))
            + chunks[k as int].1);
    }
}

/// Delivery of the first `k` chunks.
proof fn lemma_chunks_delivered(
    b: StackView,
    st: StackView,
    p: PcbView,
    chunks: Seq<(u32, Seq<u8>)>,
    frames: Seq<Seq<u8>>,
    k: nat,
)
    requires
        k <= chunks.len(),
        k <= frames.len(),
        frames.len() == chunks.len(),
        b.pcb is Some,
        b.pcb->0.state == TcpState::Established,
        b.pcb->0.tx_app.len() == 0,
        b.pcb->0.remote == st.local,
        b.pcb->0.remote_port == st.local_port,
        b.pcb->0.rx_app.len() + chunk_bytes(chunks).len() <= 65535,
        st.mac.len() == 6,
        p.remote_mac.len() == 6,
        same_family(st.local, p.remote),
        p.remote_port == b.local_port,
        contiguous(b.pcb->0.rcv_nxt, chunks),
        forall|i: int| 0 <= i < chunks.len() ==> 0 < (#[trigger] chunks[i]).1.len() <= 1460,
        forall|i: int|
            0 <= i < chunks.len() ==> #[trigger] frames[i] == ustack::segment_frame(
                ustack::chunks_sent(st, p, chunks, i as nat),
                p.remote_mac,
                p.remote,
                p.remote_port,
                chunks[i].0,
                p.rcv_nxt,
                TH_ACK | TH_PSH,
                Seq::empty(),
                chunks[i].1,
            ),
    ensures
        ({
            let out = ingested_all(b, frames.take(k as int));
            let q = out.pcb->0;
            let got = chunk_bytes(chunks.take(k as int));
            &&& out.pcb is Some
            &&& out == StackView { pcb: out.pcb, ip_id: out.ip_id, txq: out.txq, ..b }
            &&& q.rx_app == b.pcb->0.rx_app + got
            &&& q.rcv_nxt == b.pcb->0.rcv_nxt.wrapping_add(got.len() as u32)
            &&& q == PcbView {
                snd_una: q.snd_una,
                inflight: q.inflight,
                rack: q.rack,
                rx_app: q.rx_app,
                rcv_nxt: q.rcv_nxt,
                ..b.pcb->0
            }
        }),
    decreases k,
{
    if k == 0 {
        assert(frames.take(0) =~= Seq::empty());
        assert(chunks.take(0) =~= Seq::empty());
        assert(b.pcb->0.rx_app + chunk_bytes(chunks.take(0)) =~= b.pcb->0.rx_app);
    } else {
        let j = (k - 1) as nat;
        lemma_chunks_delivered(b, st, p, chunks, frames, j);
        lemma_contiguous_at(b.pcb->0.rcv_nxt, chunks, j);
        ustack::lemma_chunks_sent_frame(st, p, chunks, j);
        let prev = ingested_all(b, frames.take(j as int));
        let from = ustack::chunks_sent(st, p, chunks, j);
        assert(frames.take(k as int).drop_last() =~= frames.take(j as int));
        law_in_order_segment_delivered(
            prev,
            from,
            p.remote_mac,
            p.remote,
            p.rcv_nxt,
            chunks[j as int].1,
        );
        let data = chunks[j as int].1;
        assert(data.take(data.len() as int) =~= data);
        assert(b.pcb->0.rx_app + chunk_bytes(chunks.take(j as int)) + data =~= b.pcb->0.rx_app
            + chunk_bytes(chunks.take(k as int)));
    }
}

/// What one endpoint writes, its peer reads: the frames of a write,
/// delivered in order, append exactly the written bytes to what the peer
/// has received, and the two stay in step.
pub proof fn law_write_is_delivered(a: StackView, b: StackView, data: Seq<u8>)
    requires
        in_step(a, b),
        b.pcb->0.rx_app.len() + data.len() <= 65535,
    ensures
        ({
            let a2 = ustack::flushed(
                StackView { pcb: Some(PcbView { tx_app: data, ..a.pcb->0 }), ..a },
            );
            let frames = a2.txq.skip(a.txq.len() as int);
            let b2 = ingested_all(b, frames);
            &&& a2.txq.take(a.txq.len() as int) == a.txq
            &&& b2.pcb is Some
            &&& b2.pcb->0.rx_app == b.pcb->0.rx_app + data
            &&& b2.pcb->0.rcv_nxt == a2.pcb->0.snd_nxt
            &&& a2.pcb->0.state == TcpState::Established
            &&& b2.pcb->0.state == TcpState::Established
        }),
{
    let p = PcbView { tx_app: data, ..a.pcb->0 };
    let a1 = StackView { pcb: Some(p), ..a };
    let a2 = ustack::flushed(a1);
    let frames = a2.txq.skip(a.txq.len() as int);
    if data.len() == 0 {
        assert(frames =~= Seq::empty());
        assert(b.pcb->0.rx_app + data =~= b.pcb->0.rx_app);
        assert(a2.txq.take(a.txq.len() as int) =~= a.txq);
    } else {
        let chunks = ustack::chopped(p.mss, p.snd_nxt, data);
        let q = PcbView {
            snd_nxt: p.snd_nxt.wrapping_add(data.len() as u32),
            inflight: p.inflight + chunks.map_values(
                |c: (u32, Seq<u8>)| ustack::fresh_seg(a.now_us, c),
            ),
            tx_app: Seq::empty(),
            ..p
        };
        let st = StackView { pcb: Some(q), ..a1 };
        assert(a2 == ustack::chunks_sent(st, q, chunks, chunks.len()));
        law_chop_preserves_data(p.mss, p.snd_nxt, data);
        ustack::law_chunks_fit_mss(p.mss, p.snd_nxt, data);
        lemma_chunk_frames(st, q, chunks, chunks.len());
        ustack::lemma_chunks_sent_frame(st, q, chunks, chunks.len());
        assert forall|i: int| 0 <= i < chunks.len() implies #[trigger] frames[i] == ustack::segment_frame(
            ustack::chunks_sent(st, q, chunks, i as nat),
            q.remote_mac,
            q.remote,
            q.remote_port,
            chunks[i].0,
            q.rcv_nxt,
            TH_ACK | TH_PSH,
            Seq::empty(),
            chunks[i].1,
        ) by {
            assert(frames[i] == a2.txq[st.txq.len() + i]);
        }
        lemma_chunks_delivered(b, st, q, chunks, frames, chunks.len());
        assert(frames.take(chunks.len() as int) =~= frames);
        assert(chunks.take(chunks.len() as int) =~= chunks);
    }
}

/// The three segments of the handshake link both ends.
#[verifier::spinoff_prover]
#[verifier::rlimit(40)]
proof fn lemma_handshake(
    cli: StackView,
    srv: StackView,
    mac: Seq<u8>,
    remote: HostView,
)
    requires
        cli.mac.len() == 6,
        srv.mac.len() == 6,
        srv.listen,
        srv.pcb is None,
        mac.len() == 6,
        same_family(cli.local, remote),
    ensures
        ({
            let c1 = ustack::control_sent(
                StackView { pcb: Some(ustack::active_open(mac, remote, srv.local_port)), ..cli },
                TH_SYN,
                true,
            );
            let s1 = ustack::ingested(srv, c1.txq.last());
            let c2 = ustack::ingested(c1, s1.txq.last());
            let s2 = ustack::ingested(s1, c2.txq.last());
            &&& c1.txq.len() == cli.txq.len() + 1
            &&& s1.txq.len() == srv.txq.len() + 1
            &&& c2.txq.len() == c1.txq.len() + 1
            &&& linked(c2, s2)
            &&& linked(s2, c2)
            &&& s2.local == remote
        }),
{
    lemma_flags();
    let port = srv.local_port;
    let c0 = StackView { pcb: Some(ustack::active_open(mac, remote, port)), ..cli };
    let c1 = ustack::control_sent(c0, TH_SYN, true);
    // SYN
    lemma_frame_in(
        srv,
        c0,
        mac,
        remote,
        port,
        CLIENT_ISS,
        0,
        TH_SYN,
        ustack::syn_options(remote),
        Seq::empty(),
    );
    let s1 = ustack::ingested(srv, c1.txq.last());
    let sp = s1.pcb->0;
    let s0 = StackView { pcb: s1.pcb, mac: mac, local: remote, ..srv };
    assert(s1 == ustack::control_sent(s0, TH_SYN | TH_ACK, true));
    // SYN+ACK
    lemma_frame_in(
        c1,
        s0,
        cli.mac,
        cli.local,
        cli.local_port,
        SERVER_ISS,
        1001,
        TH_SYN | TH_ACK,
        ustack::syn_options(cli.local),
        Seq::empty(),
    );
    let c2 = ustack::ingested(c1, s1.txq.last());
    let tcp2 = tcp_inside(
        s0,
        cli.local,
        cli.local_port,
        SERVER_ISS,
        1001,
        TH_SYN | TH_ACK,
        ustack::syn_options(cli.local),
        Seq::empty(),
    );
    let cp1 = PcbView {
        irs: SERVER_ISS,
        rcv_nxt: 2001,
        snd_una: 1001,
        state: TcpState::Established,
        ..ustack::active_open(mac, remote, port)
    };
    let c1e = StackView { pcb: Some(cp1), ..c1 };
    assert(ustack::handshaken(c1.pcb->0, crate::parse::tcp_of(tcp2)) == Some(cp1));
    let c1a = ustack::control_sent(c1e, TH_ACK, false);
    let sacks2 = ustack::first_n(ustack::option_sacks(tcp2.subrange(20, 28)), 3);
    lemma_quiet_ack(c1a, 1001, sacks2);
    assert(ustack::acked(c1a, 1001, sacks2) == c1a);
    assert(c2 == c1a);
    // ACK
    lemma_frame_in(
        s1,
        c1e,
        mac,
        remote,
        port,
        1001,
        2001,
        TH_ACK,
        Seq::empty(),
        Seq::empty(),
    );
    let tcp3 = tcp_inside(
        c1e,
        remote,
        port,
        1001,
        2001,
        TH_ACK,
        Seq::empty(),
        Seq::empty(),
    );
    let s2 = ustack::ingested(s1, c2.txq.last());
    let sp2 = PcbView { snd_una: 2001, state: TcpState::Established, ..sp };
    assert(ustack::handshaken(sp, crate::parse::tcp_of(tcp3)) == Some(sp2));
    let s1e = StackView { pcb: Some(sp2), ..s1 };
    let sacks3 = ustack::first_n(ustack::option_sacks(tcp3.subrange(20, 20)), 3);
    lemma_quiet_ack(s1e, 2001, sacks3);
    assert(s2 == s1e);
}

/// The three-way handshake: a client's SYN, the listener's answer and the
/// client's acknowledgement leave both ends established and in step, in
/// both directions. The listener answers under the address the client
/// used.
pub proof fn law_handshake_establishes(
    cli: StackView,
    srv: StackView,
    mac: Seq<u8>,
    remote: HostView,
)
    requires
        cli.wf(),
        srv.wf(),
        srv.listen,
        srv.pcb is None,
        mac.len() == 6,
        same_family(cli.local, remote),
    ensures
        ({
            let c1 = ustack::control_sent(
                StackView { pcb: Some(ustack::active_open(mac, remote, srv.local_port)), ..cli },
                TH_SYN,
                true,
            );
            let s1 = ustack::ingested(srv, c1.txq.last());
            let c2 = ustack::ingested(c1, s1.txq.last());
            let s2 = ustack::ingested(s1, c2.txq.last());
            &&& c1.txq.len() == cli.txq.len() + 1
            &&& s1.txq.len() == srv.txq.len() + 1
            &&& c2.txq.len() == c1.txq.len() + 1
            &&& in_step(c2, s2)
            &&& in_step(s2, c2)
            &&& s2.local == remote
        }),
{
    lemma_handshake(cli, srv, mac, remote);
    let c0 = StackView { pcb: Some(ustack::active_open(mac, remote, srv.local_port)), ..cli };
    let c1 = ustack::control_sent(c0, TH_SYN, true);
    let s1 = ustack::ingested(srv, c1.txq.last());
    let c2 = ustack::ingested(c1, s1.txq.last());
    assert(c0.wf());
    crate::ustack_keeps::lemma_control_sent(c0, TH_SYN, true);
    crate::ustack_keeps::lemma_ingested(srv, c1.txq.last());
    crate::ustack_keeps::lemma_ingested(c1, s1.txq.last());
    crate::ustack_keeps::lemma_ingested(s1, c2.txq.last());
}

/// An acknowledgement of everything sent, with nothing in flight, changes
/// nothing.
pub proof fn lemma_quiet_ack(st: StackView, ack: u32, sacks: Seq<(u32, u32)>)
    requires
        st.pcb is Some,
        st.pcb->0.inflight.len() == 0,
        st.pcb->0.snd_nxt == ack,
        st.pcb->0.snd_una == ack,
    ensures
        ustack::acked(st, ack, sacks) == st,
{
    let p = st.pcb->0;
    lemma_sacks_on_nothing(p.rack, st.now_us, p.inflight, sacks, sacks.len());
    assert(p.inflight.skip(0) =~= p.inflight);
    let q = ustack::pcb_acked(p, st.now_us, ack, sacks);
    assert(q == p);
    assert(ustack::all_marked(p.rack, st.now_us, p.inflight) =~= p.inflight);
    assert(p.inflight.map_values(|s: SegView| ustack::resent(st.now_us, s)) =~= p.inflight);
    assert(ustack::lost_chunks(p.inflight, 0) =~= Seq::empty());
}

pub proof fn lemma_sacks_on_nothing(
    rack: Rack,
    now: u64,
    segs: Seq<SegView>,
    blocks: Seq<(u32, u32)>,
    k: nat,
)
    requires
        segs.len() == 0,
    ensures
        ustack::sacked_all(rack, now, segs, blocks, k) == (rack, segs),
    decreases k,
{
    if k > 0 {
        lemma_sacks_on_nothing(rack, now, segs, blocks, (k - 1) as nat);
        assert(ustack::sacked_by(segs, blocks[k - 1]) =~= segs);
    }
}

/// A segment that has waited a whole retransmission timeout is sent again:
/// after the timer, a frame with its number and bytes is queued, and the
/// segment's clock restarts.
pub proof fn law_timeout_retransmits(st: StackView, now_us: u64, i: int)
    requires
        st.pcb is Some,
        0 <= i < st.pcb->0.inflight.len(),
        ustack::elapsed(now_us, st.pcb->0.inflight[i].xmit_ts_us) >= ustack::rto(st.pcb->0.rack.rtt_us),
    ensures
        ({
            let p = st.pcb->0;
            let out = ustack::retransmitted(ustack::detected(StackView { now_us, ..st }));
            &&& out.pcb is Some
            &&& out.pcb->0.inflight.len() == p.inflight.len()
            &&& out.pcb->0.inflight[i] == ustack::fresh_seg(
                now_us,
                (p.inflight[i].seq, p.inflight[i].data),
            )
            &&& exists|k: int, from: StackView|
                {
                    &&& st.txq.len() <= k < out.txq.len()
                    &&& from == StackView { ip_id: from.ip_id, txq: from.txq, ..out }
                    &&& #[trigger] out.txq[k] == #[trigger] ustack::segment_frame(
                        from,
                        p.remote_mac,
                        p.remote,
                        p.remote_port,
                        p.inflight[i].seq,
                        p.rcv_nxt,
                        TH_ACK | TH_PSH,
                        Seq::empty(),
                        p.inflight[i].data,
                    )
                }
        }),
{
    let p = st.pcb->0;
    let d = ustack::detected(StackView { now_us, ..st });
    let dp = d.pcb->0;
    let out = ustack::retransmitted(d);
    assert(dp.inflight[i] == ustack::marked(p.rack, now_us, p.inflight[i]));
    assert(dp.inflight[i].lost);
    let chunks = ustack::lost_chunks(dp.inflight, dp.inflight.len());
    let base = StackView {
        pcb: Some(
            PcbView { inflight: dp.inflight.map_values(|s: SegView| ustack::resent(d.now_us, s)), ..dp },
        ),
        ..d
    };
    assert(out == ustack::chunks_sent(base, dp, chunks, chunks.len()));
    ustack::lemma_chunks_sent_frame(base, dp, chunks, chunks.len());
    lemma_chunk_frames(base, dp, chunks, chunks.len());
    let at = lemma_lost_in_chunks(dp.inflight, dp.inflight.len(), i);
    let from = ustack::chunks_sent(base, dp, chunks, at as nat);
    ustack::lemma_chunks_sent_frame(base, dp, chunks, at as nat);
    let k = st.txq.len() + at;
    assert(out.txq[base.txq.len() + at] == ustack::segment_frame(
        from,
        p.remote_mac,
        p.remote,
        p.remote_port,
        p.inflight[i].seq,
        p.rcv_nxt,
        TH_ACK | TH_PSH,
        Seq::empty(),
        p.inflight[i].data,
    ));
    assert(from == StackView { ip_id: from.ip_id, txq: from.txq, ..out });
}

pub proof fn lemma_lost_in_chunks(segs: Seq<SegView>, k: nat, i: int) -> (at: int)
    requires
        0 <= i < k <= segs.len(),
        segs[i].lost,
    ensures
        0 <= at < ustack::lost_chunks(segs, k).len(),
        ustack::lost_chunks(segs, k)[at] == (segs[i].seq, segs[i].data),
    decreases k,
{
    if i == k - 1 {
        ustack::lost_chunks(segs, k).len() - 1
    } else {
        lemma_lost_in_chunks(segs, (k - 1) as nat, i)
    }
}

/// A cumulative acknowledgement of everything in flight empties the
/// scoreboard.
pub proof fn law_full_ack_clears_inflight(
    p: PcbView,
    now: u64,
    ack: u32,
    sacks: Seq<(u32, u32)>,
)
    requires
        forall|i: int|
            0 <= i < p.inflight.len() ==> ustack::seg_end(#[trigger] p.inflight[i]) == ack || ustack::before(
                ustack::seg_end(p.inflight[i]),
                ack,
            ),
    ensures
        ustack::pcb_acked(p, now, ack, sacks).inflight.len() == 0,
{
    lemma_all_acked(p.inflight, ack, 0);
    let rest = p.inflight.skip(p.inflight.len() as int);
    lemma_sacks_on_nothing(
        ustack::rack_acked(p.rack, now, p.inflight, p.inflight.len()),
        now,
        rest,
        sacks,
        sacks.len(),
    );
}

proof fn lemma_all_acked(segs: Seq<SegView>, ack: u32, i: nat)
    requires
        i <= segs.len(),
        forall|j: int|
            0 <= j < segs.len() ==> ustack::seg_end(#[trigger] segs[j]) == ack || ustack::before(
                ustack::seg_end(segs[j]),
                ack,
            ),
    ensures
        ustack::acked_to(segs, ack, i) == segs.len(),
    decreases segs.len() - i,
{
    if i < segs.len() {
        assert(ustack::seg_end(segs[i as int]) == ack || ustack::before(ustack::seg_end(segs[i as int]), ack));
        lemma_all_acked(segs, ack, i + 1);
    }
}

} // verus!
