//! What every step of the userspace TCP endpoint keeps: the state of its
//! connection between calls, and the soundness of every frame it queues.
use vstd::prelude::*;
use crate::ustack;
use crate::ustack::{HostView, PcbView, SegView, StackView, TcpState, TH_ACK, TH_PSH};

verus! {

/// A frame that an endpoint builds parses back, and its checksums fold to
/// zero.
pub proof fn lemma_segment_frame_sound(
    st: StackView,
    dst_mac: Seq<u8>,
    dst: HostView,
    dst_port: u16,
    seq: u32,
    ack: u32,
    flags: u8,
    opts: Seq<u8>,
    payload: Seq<u8>,
)
    requires
        st.mac.len() == 6,
        st.local.wf(),
        dst_mac.len() == 6,
        dst.wf(),
        opts.len() % 4 == 0,
        opts.len() <= 40,
        payload.len() <= 1460,
    ensures
        ({
            let f = ustack::segment_frame(
                st,
                dst_mac,
                dst,
                dst_port,
                seq,
                ack,
                flags,
                opts,
                payload,
            );
            &&& ustack::sound_frame(f)
            &&& st.local is V4 && dst is V4 ==> ustack::sound_v4(f)
        }),
{
    let f = ustack::segment_frame(st, dst_mac, dst, dst_port, seq, ack, flags, opts, payload);
    let zero = crate::wire::tcp_bytes(st.local_port, dst_port, seq, ack, flags, 0, opts, payload);
    crate::wire::lemma_tcp_head_fields(
        st.local_port,
        dst_port,
        seq,
        ack,
        crate::wire::offset_byte(opts.len()),
        flags,
        0,
    );
    assert(zero.len() == 20 + opts.len() + payload.len());
    match (st.local, dst) {
        (HostView::V4(s), HostView::V4(d)) => {
            let c = crate::simd::checksum_of(
                crate::checksum::pseudo_v4(s, d, 6, zero.len()) + crate::simd::word_sum(zero),
            ) as u16;
            let tcp = crate::wire::tcp_over_v4(
                s,
                d,
                st.local_port,
                dst_port,
                seq,
                ack,
                flags,
                opts,
                payload,
            );
            crate::wire::lemma_tcp_head_fields(
                st.local_port,
                dst_port,
                seq,
                ack,
                crate::wire::offset_byte(opts.len()),
                flags,
                c,
            );
            assert(tcp.len() == 20 + opts.len() + payload.len());
            crate::wire::law_tcp_roundtrip(
                st.local_port,
                dst_port,
                seq,
                ack,
                flags,
                c,
                opts,
                payload,
            );
            crate::wire::law_tcp_over_v4_verifies(
                s,
                d,
                st.local_port,
                dst_port,
                seq,
                ack,
                flags,
                opts,
                payload,
            );
            crate::wire::law_ipv4_frame_roundtrip(dst_mac, st.mac, s, d, st.ip_id, tcp);
            let total = (20 + tcp.len()) as u16;
            crate::wire::law_ipv4_head_verifies(s, d, st.ip_id, total);
            let head = crate::wire::ipv4_head(
                s,
                d,
                st.ip_id,
                total,
                crate::wire::ipv4_head_checksum(s, d, st.ip_id, total),
            );
            assert(f.subrange(14, 34) =~= head);
            assert(f.skip(34) =~= f.subrange(34, 34 + tcp.len() as int));
            reveal(ustack::sound_v4);
        },
        (HostView::V6(s), HostView::V6(d)) => {
            let c = crate::simd::checksum_of(
                crate::checksum::pseudo_v6(s, d, 6, zero.len()) + crate::simd::word_sum(zero),
            ) as u16;
            let tcp = crate::wire::tcp_over_v6(
                s,
                d,
                st.local_port,
                dst_port,
                seq,
                ack,
                flags,
                opts,
                payload,
            );
            crate::wire::lemma_tcp_head_fields(
                st.local_port,
                dst_port,
                seq,
                ack,
                crate::wire::offset_byte(opts.len()),
                flags,
                c,
            );
            assert(tcp.len() == 20 + opts.len() + payload.len());
            crate::wire::law_tcp_roundtrip(
                st.local_port,
                dst_port,
                seq,
                ack,
                flags,
                c,
                opts,
                payload,
            );
            crate::wire::law_tcp_over_v6_verifies(
                s,
                d,
                st.local_port,
                dst_port,
                seq,
                ack,
                flags,
                opts,
                payload,
            );
            crate::wire::law_ipv6_frame_roundtrip(dst_mac, st.mac, s, d, tcp);
            assert(f.skip(54) =~= f.subrange(54, 54 + tcp.len() as int));
            reveal(ustack::sound_v6);
        },
        _ => {},
    }
}

/// What was queued stays queued, in order; what is new comes behind it.
pub open spec fn grown(before: StackView, after: StackView) -> bool {
    &&& before.txq.len() <= after.txq.len()
    &&& after.txq.take(before.txq.len() as int) == before.txq
}

pub proof fn lemma_grown(a: StackView, b: StackView, c: StackView)
    requires
        grown(a, b),
        grown(b, c),
    ensures
        grown(a, c),
{
    assert(c.txq.take(a.txq.len() as int) =~= b.txq.take(a.txq.len() as int));
}

/// Queueing one segment keeps what holds between calls.
pub proof fn lemma_sent(
    st: StackView,
    dst_mac: Seq<u8>,
    dst: HostView,
    dst_port: u16,
    seq: u32,
    ack: u32,
    flags: u8,
    opts: Seq<u8>,
    payload: Seq<u8>,
)
    requires
        st.wf(),
        dst_mac.len() == 6,
        dst.wf(),
        opts.len() % 4 == 0,
        opts.len() <= 40,
        payload.len() <= 1460,
    ensures
        ({
            let out = ustack::sent(st, dst_mac, dst, dst_port, seq, ack, flags, opts, payload);
            &&& out.wf()
            &&& st.v4_only() && dst is V4 ==> out.v4_only()
            &&& grown(st, out)
        }),
{
    let out = ustack::sent(st, dst_mac, dst, dst_port, seq, ack, flags, opts, payload);
    assert(out.txq.take(st.txq.len() as int) =~= st.txq);
    lemma_segment_frame_sound(st, dst_mac, dst, dst_port, seq, ack, flags, opts, payload);
}

/// Queueing a control segment keeps what holds between calls.
pub proof fn lemma_control_sent(st: StackView, flags: u8, with_mss: bool)
    requires
        st.wf(),
    ensures
        ustack::control_sent(st, flags, with_mss).wf(),
        st.v4_only() ==> ustack::control_sent(st, flags, with_mss).v4_only(),
        grown(st, ustack::control_sent(st, flags, with_mss)),
{
    assert(st.txq.take(st.txq.len() as int) =~= st.txq);
    if let Some(p) = st.pcb {
        let opts = if with_mss {
            ustack::syn_options(p.remote)
        } else {
            Seq::empty()
        };
        lemma_sent(
            st,
            p.remote_mac,
            p.remote,
            p.remote_port,
            if ustack::flag_set(flags, ustack::TH_SYN) {
                p.iss
            } else {
                p.snd_nxt
            },
            p.rcv_nxt,
            flags,
            opts,
            Seq::empty(),
        );
    }
}

/// Queueing data segments keeps what holds between calls.
pub proof fn lemma_chunks_sent(
    st: StackView,
    p: PcbView,
    chunks: Seq<(u32, Seq<u8>)>,
    k: nat,
)
    requires
        st.wf(),
        p.remote_mac.len() == 6,
        p.remote.wf(),
        k <= chunks.len(),
        forall|i: int| 0 <= i < chunks.len() ==> (#[trigger] chunks[i]).1.len() <= 1460,
    ensures
        ustack::chunks_sent(st, p, chunks, k).wf(),
        st.v4_only() && p.remote is V4 ==> ustack::chunks_sent(st, p, chunks, k).v4_only(),
        grown(st, ustack::chunks_sent(st, p, chunks, k)),
    decreases k,
{
    assert(st.txq.take(st.txq.len() as int) =~= st.txq);
    if k > 0 {
        lemma_chunks_sent(st, p, chunks, (k - 1) as nat);
        lemma_sent(
            ustack::chunks_sent(st, p, chunks, (k - 1) as nat),
            p.remote_mac,
            p.remote,
            p.remote_port,
            chunks[k - 1].0,
            p.rcv_nxt,
            TH_ACK | TH_PSH,
            Seq::empty(),
            chunks[k - 1].1,
        );
        lemma_grown(
            st,
            ustack::chunks_sent(st, p, chunks, (k - 1) as nat),
            ustack::chunks_sent(st, p, chunks, k),
        );
    }
}

/// Loss detection and retransmission keep what holds between calls.
pub proof fn lemma_repaired(st: StackView)
    requires
        st.wf(),
    ensures
        ustack::retransmitted(ustack::detected(st)).wf(),
        st.v4_only() ==> ustack::retransmitted(ustack::detected(st)).v4_only(),
        grown(st, ustack::retransmitted(ustack::detected(st))),
{
    assert(st.txq.take(st.txq.len() as int) =~= st.txq);
    if let Some(p) = st.pcb {
        let d = ustack::detected(st);
        let dp = d.pcb->0;
        let base = StackView {
            pcb: Some(
                PcbView {
                    inflight: dp.inflight.map_values(|s: SegView| ustack::resent(d.now_us, s)),
                    ..dp
                },
            ),
            ..d
        };
        let chunks = ustack::lost_chunks(dp.inflight, dp.inflight.len());
        ustack::lemma_lost_chunks_bound(dp.inflight, dp.inflight.len());
        assert(base.wf());
        lemma_chunks_sent(base, dp, chunks, chunks.len());
    }
}

/// Transmission leaves nothing waiting.
pub proof fn lemma_flushed(st: StackView)
    requires
        (StackView { pcb: None, ..st }).wf(),
        st.pcb matches Some(p) ==> {
            &&& p.tx_app.len() <= 65535
            &&& p.tx_app.len() > 0 ==> p.state == TcpState::Established
            &&& (PcbView { tx_app: Seq::empty(), ..p }).wf()
        },
    ensures
        ustack::flushed(st).wf(),
        st.v4_only() ==> ustack::flushed(st).v4_only(),
        grown(st, ustack::flushed(st)),
{
    assert(st.txq.take(st.txq.len() as int) =~= st.txq);
    let idle = StackView { pcb: None, ..st };
    assert(idle.txq == st.txq);
    assert(forall|i: int| 0 <= i < st.txq.len() ==> ustack::sound_frame(#[trigger] st.txq[i]));
    if let Some(p) = st.pcb {
        if p.tx_app.len() > 0 {
            let chunks = ustack::chopped(p.mss, p.snd_nxt, p.tx_app);
            let q = PcbView {
                snd_nxt: p.snd_nxt.wrapping_add(p.tx_app.len() as u32),
                inflight: p.inflight + chunks.map_values(
                    |c: (u32, Seq<u8>)| ustack::fresh_seg(st.now_us, c),
                ),
                tx_app: Seq::empty(),
                ..p
            };
            ustack::law_chunks_fit_mss(p.mss, p.snd_nxt, p.tx_app);
            let base = StackView { pcb: Some(q), ..st };
            let same = (PcbView { tx_app: Seq::empty(), ..p }).inflight;
            assert(same == p.inflight);
            assert forall|i: int| 0 <= i < q.inflight.len() implies q.inflight[i].data.len() <= 1460
                && !(#[trigger] q.inflight[i]).lost by {
                if i < p.inflight.len() {
                    assert(q.inflight[i] == same[i]);
                } else {
                    assert(chunks[i - p.inflight.len()].1.len() <= p.mss);
                }
            }
            assert(q.wf());
            lemma_chunks_sent(base, q, chunks, chunks.len());
        } else {
            assert(p.tx_app =~= Seq::empty());
            assert(p == PcbView { tx_app: Seq::empty(), ..p });
        }
    }
}

/// Acknowledgement processing keeps what holds between calls.
pub proof fn lemma_acked(st: StackView, ack: u32, sacks: Seq<(u32, u32)>)
    requires
        st.wf(),
    ensures
        ustack::acked(st, ack, sacks).wf(),
        st.v4_only() ==> ustack::acked(st, ack, sacks).v4_only(),
        grown(st, ustack::acked(st, ack, sacks)),
{
    assert(st.txq.take(st.txq.len() as int) =~= st.txq);
    if let Some(p) = st.pcb {
        let q = ustack::pcb_acked(p, st.now_us, ack, sacks);
        let k = ustack::acked_to(p.inflight, ack, 0);
        ustack::lemma_acked_to_bound(p.inflight, ack, 0);
        let rest = p.inflight.skip(k as int);
        ustack::lemma_sacked_all_data(
            ustack::rack_acked(p.rack, st.now_us, p.inflight, k),
            st.now_us,
            rest,
            sacks,
            sacks.len(),
        );
        ustack::lemma_pcb_acked_bounded(p, st.now_us, ack, sacks);
        assert forall|i: int| 0 <= i < q.inflight.len() implies !(#[trigger] q.inflight[i]).lost by {
            assert(q.inflight[i].lost == rest[i].lost);
            assert(rest[i] == p.inflight[i + k]);
        }
        lemma_repaired(StackView { pcb: Some(q), ..st });
    }
}

/// Delivery keeps what holds between calls.
pub proof fn lemma_delivered(st: StackView, seq: u32, payload: Seq<u8>)
    requires
        st.wf(),
    ensures
        ustack::delivered(st, seq, payload).wf(),
        st.v4_only() ==> ustack::delivered(st, seq, payload).v4_only(),
        grown(st, ustack::delivered(st, seq, payload)),
{
    assert(st.txq.take(st.txq.len() as int) =~= st.txq);
    if let Some(p) = st.pcb {
        if payload.len() > 0 && seq == p.rcv_nxt {
            let n = ustack::room_for(payload.len(), p.rx_app.len());
            let q = PcbView {
                rx_app: p.rx_app + payload.take(n),
                rcv_nxt: p.rcv_nxt.wrapping_add(n as u32),
                ..p
            };
            let base = StackView { pcb: Some(q), ..st };
            assert(base.wf());
            lemma_control_sent(base, TH_ACK, false);
        }
    }
}

/// A TCP segment keeps what holds between calls. An IPv4 endpoint stays one
/// if the segment came over IPv4 or a connection was there.
pub proof fn lemma_segment_in(st: StackView, src: HostView, src_mac: Seq<u8>, seg: Seq<u8>)
    requires
        st.wf(),
        src.wf(),
        src_mac.len() == 6,
    ensures
        ustack::segment_in(st, src, src_mac, seg).wf(),
        ustack::segment_in(st, src, src_mac, seg).local == st.local,
        grown(st, ustack::segment_in(st, src, src_mac, seg)),
        st.v4_only() && (src is V4 || st.pcb is Some) ==> ustack::segment_in(
            st,
            src,
            src_mac,
            seg,
        ).v4_only(),
{
    assert(st.txq.take(st.txq.len() as int) =~= st.txq);
    let h = crate::parse::tcp_of(seg);
    let syn_ack = ustack::flag_set(h.flags, ustack::TH_SYN) && ustack::flag_set(h.flags, TH_ACK);
    let doff = h.data_offset * 4;
    if crate::parse::tcp_error(seg) is Some || h.dst_port != st.local_port {
    } else {
        match st.pcb {
            None => {
                let open = StackView { pcb: Some(ustack::passive_open(src, src_mac, h)), ..st };
                lemma_control_sent(open, ustack::TH_SYN | TH_ACK, true);
            },
            Some(p) => {
                if p.remote == src && p.remote_port == h.src_port {
                    if let Some(q) = ustack::handshaken(p, h) {
                        let st1 = StackView { pcb: Some(q), ..st };
                        assert(st1.wf());
                        if q.state == TcpState::Established {
                            lemma_control_sent(st1, TH_ACK, false);
                            let st2 = if syn_ack {
                                ustack::control_sent(st1, TH_ACK, false)
                            } else {
                                st1
                            };
                            let sacks = ustack::first_n(
                                ustack::option_sacks(seg.subrange(20, doff)),
                                3,
                            );
                            lemma_acked(st2, h.ack, sacks);
                            let st3 = ustack::acked(st2, h.ack, sacks);
                            lemma_acked_local(st2, h.ack, sacks);
                            lemma_delivered(st3, h.seq, seg.skip(doff));
                            let st4 = ustack::delivered(st3, h.seq, seg.skip(doff));
                            lemma_grown(st, st2, st3);
                            lemma_grown(st, st3, st4);
                            lemma_unsent(st4);
                        }
                    }
                }
            },
        }
    }
}

/// With nothing waiting, transmission changes nothing.
proof fn lemma_unsent(st: StackView)
    requires
        st.wf(),
    ensures
        ustack::flushed(st) == st,
{
}

/// Acknowledgement processing leaves the endpoint's address alone.
proof fn lemma_acked_local(st: StackView, ack: u32, sacks: Seq<(u32, u32)>)
    ensures
        ustack::acked(st, ack, sacks).local == st.local,
{
    if let Some(p) = st.pcb {
        let a = StackView { pcb: Some(ustack::pcb_acked(p, st.now_us, ack, sacks)), ..st };
        let d = ustack::detected(a);
        let dp = d.pcb->0;
        let b = StackView {
            pcb: Some(
                PcbView {
                    inflight: dp.inflight.map_values(|s: SegView| ustack::resent(d.now_us, s)),
                    ..dp
                },
            ),
            ..d
        };
        let chunks = ustack::lost_chunks(dp.inflight, dp.inflight.len());
        ustack::lemma_chunks_sent_frame(b, dp, chunks, chunks.len());
    }
}

/// A frame keeps what holds between calls. An IPv4 endpoint that is still
/// one afterwards has queued IPv4 frames only.
pub proof fn lemma_ingested(st: StackView, frame: Seq<u8>)
    requires
        st.wf(),
    ensures
        ustack::ingested(st, frame).wf(),
        grown(st, ustack::ingested(st, frame)),
        st.v4_only() && ustack::ingested(st, frame).local is V4 ==> ustack::ingested(
            st,
            frame,
        ).v4_only(),
{
    reveal(ustack::ingested);
    assert(st.txq.take(st.txq.len() as int) =~= st.txq);
    if frame.len() >= 54 {
        let ip = frame.skip(14);
        if crate::bytes::be16_at(frame, 12) == 0x0800 {
            let end = 14 + crate::bytes::be16_at(ip, 2);
            let st1 = ustack::adopted(st, frame, HostView::V4(ip.subrange(16, 20)));
            assert(st1.wf());
            if 34 <= end <= frame.len() {
                lemma_segment_in(
                    st1,
                    HostView::V4(ip.subrange(12, 16)),
                    frame.subrange(6, 12),
                    frame.subrange(34, end),
                );
            }
        } else if crate::bytes::be16_at(frame, 12) == 0x86dd && frame.len() >= 54 {
            let end = 54 + crate::bytes::be16_at(ip, 4);
            if crate::parse::ipv6_error(ip) is None {
                let st1 = ustack::adopted(st, frame, HostView::V6(ip.subrange(24, 40)));
                assert(st1.wf());
                if 74 <= end <= frame.len() {
                    lemma_segment_in(
                        st1,
                        HostView::V6(ip.subrange(8, 24)),
                        frame.subrange(6, 12),
                        frame.subrange(54, end),
                    );
                }
            }
        }
    }
}

} // verus!
