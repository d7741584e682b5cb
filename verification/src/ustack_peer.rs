//! What an endpoint makes of the frames of any TCP peer, by their bytes:
//! whatever flags, options and window a segment has, and whoever built it.
use vstd::prelude::*;
use crate::ustack;
use crate::ustack::{HostView, PcbView, SegView, StackView, TcpState};
use crate::ustack_keeps;
use crate::ustack_laws;
use crate::ustack_runs;

verus! {

/// A TCP segment: where it comes from, its header fields and its payload.
pub struct Segment {
    pub src: HostView,
    pub sport: u16,
    pub dport: u16,
    pub seq: u32,
    pub ack: u32,
    pub flags: u8,
    pub opts: Seq<u8>,
    pub payload: Seq<u8>,
}

/// The two bytes at `i`, the higher one first.
pub open spec fn word_at(f: Seq<u8>, i: int) -> int {
    f[i] * 256 + f[i + 1]
}

/// The TCP header at `t` of frame `f`, up to `end`, has the fields of `s`.
pub open spec fn segment_at(f: Seq<u8>, t: int, end: int, s: Segment) -> bool {
    let head = (f[t + 12] / 16) * 4;
    &&& t + 20 <= t + head <= end <= f.len()
    &&& word_at(f, t) == s.sport
    &&& word_at(f, t + 2) == s.dport
    &&& word_at(f, t + 4) * 65536 + word_at(f, t + 6) == s.seq
    &&& word_at(f, t + 8) * 65536 + word_at(f, t + 10) == s.ack
    &&& f[t + 13] == s.flags
    &&& f.subrange(t + 20, t + head) == s.opts
    &&& f.subrange(t + head, end) == s.payload
}

/// Frame `f` is an Ethernet frame with an IPv4 packet (of 20 header bytes)
/// or an IPv6 packet that carries the segment `s`. Bytes behind the packet
/// are padding.
#[verifier::opaque]
pub open spec fn carries(f: Seq<u8>, s: Segment) -> bool {
    match s.src {
        HostView::V4(a) => {
            &&& f.len() >= 54
            &&& word_at(f, 12) == 0x0800
            &&& f[14] == 0x45
            &&& f[23] == 6
            &&& f.subrange(26, 30) == a
            &&& segment_at(f, 34, 14 + word_at(f, 16), s)
        },
        HostView::V6(a) => {
            &&& f.len() >= 74
            &&& word_at(f, 12) == 0x86dd
            &&& f[14] / 16 == 6
            &&& f[20] == 6
            &&& f.subrange(22, 38) == a
            &&& segment_at(f, 54, 54 + word_at(f, 18), s)
        },
    }
}

/// The header fields of a segment, as the parser reads them.
proof fn lemma_segment_at(f: Seq<u8>, t: int, end: int, s: Segment)
    requires
        0 <= t,
        segment_at(f, t, end, s),
    ensures
        ({
            let seg = f.subrange(t, end);
            let h = crate::parse::tcp_of(seg);
            &&& crate::parse::tcp_error(seg) is None
            &&& h.src_port == s.sport
            &&& h.dst_port == s.dport
            &&& h.seq == s.seq
            &&& h.ack == s.ack
            &&& h.flags == s.flags
            &&& h.data_offset * 4 == 20 + s.opts.len()
            &&& seg.skip(20 + s.opts.len() as int) == s.payload
            &&& seg.subrange(20, 20 + s.opts.len() as int) == s.opts
        }),
{
    let seg = f.subrange(t, end);
    let head = (f[t + 12] / 16) * 4;
    assert(seg[0] == f[t] && seg[1] == f[t + 1] && seg[2] == f[t + 2] && seg[3] == f[t + 3]);
    assert(seg[4] == f[t + 4] && seg[5] == f[t + 5] && seg[6] == f[t + 6] && seg[7] == f[t + 7]);
    assert(seg[8] == f[t + 8] && seg[9] == f[t + 9] && seg[10] == f[t + 10] && seg[11] == f[t
        + 11]);
    assert(seg[12] == f[t + 12] && seg[13] == f[t + 13]);
    assert(seg.skip(head as int) =~= f.subrange(t + head, end));
    assert(seg.subrange(20, head as int) =~= f.subrange(t + 20, t + head));
}

/// The bytes of the segment inside a frame.
spec fn inside(f: Seq<u8>, s: Segment) -> Seq<u8> {
    if s.src is V4 {
        f.subrange(34, 14 + word_at(f, 16))
    } else {
        f.subrange(54, 54 + word_at(f, 18))
    }
}

/// The address that a frame is sent to.
pub open spec fn destination(f: Seq<u8>, s: Segment) -> HostView {
    if s.src is V4 {
        HostView::V4(f.subrange(30, 34))
    } else {
        HostView::V6(f.subrange(38, 54))
    }
}

/// The endpoint after a segment.
#[verifier::opaque]
spec fn entered(st: StackView, src: HostView, src_mac: Seq<u8>, seg: Seq<u8>) -> StackView {
    ustack::segment_in(st, src, src_mac, seg)
}

/// What a receiver reads from such a frame.
proof fn lemma_carried(st: StackView, f: Seq<u8>, s: Segment)
    requires
        carries(f, s),
    ensures
        ({
            let seg = inside(f, s);
            let h = crate::parse::tcp_of(seg);
            let own = if st.listen && st.pcb is None {
                StackView { mac: f.subrange(0, 6), local: destination(f, s), ..st }
            } else {
                st
            };
            &&& ustack::ingested(st, f) == entered(own, s.src, f.subrange(6, 12), seg)
            &&& crate::parse::tcp_error(seg) is None
            &&& h.src_port == s.sport
            &&& h.dst_port == s.dport
            &&& h.seq == s.seq
            &&& h.ack == s.ack
            &&& h.flags == s.flags
            &&& h.data_offset * 4 == 20 + s.opts.len()
            &&& seg.skip(20 + s.opts.len() as int) == s.payload
            &&& seg.subrange(20, 20 + s.opts.len() as int) == s.opts
            &&& s.src.wf()
            &&& f.subrange(0, 6).len() == 6
            &&& f.subrange(6, 12).len() == 6
            &&& destination(f, s).wf()
        }),
{
    reveal(carries);
    let ip = f.skip(14);
    if s.src is V4 {
        lemma_segment_at(f, 34, 14 + word_at(f, 16), s);
        assert(ip[0] == f[14] && ip[2] == f[16] && ip[3] == f[17] && ip[9] == f[23]);
        assert(ip.subrange(12, 16) =~= f.subrange(26, 30));
        assert(ip.subrange(16, 20) =~= f.subrange(30, 34));
        lemma_v4_in(st, f);
    } else {
        lemma_segment_at(f, 54, 54 + word_at(f, 18), s);
        assert(ip[0] == f[14] && ip[4] == f[18] && ip[5] == f[19] && ip[6] == f[20]);
        assert(ip.subrange(8, 24) =~= f.subrange(22, 38));
        assert(ip.subrange(24, 40) =~= f.subrange(38, 54));
        lemma_v6_in(st, f);
    }
}

proof fn lemma_v4_in(st: StackView, f: Seq<u8>)
    requires
        f.len() >= 54,
        word_at(f, 12) == 0x0800,
        f[14] == 0x45,
        f[23] == 6,
        34 <= 14 + word_at(f, 16) <= f.len(),
    ensures
        ({
            let own = if st.listen && st.pcb is None {
                StackView { mac: f.subrange(0, 6), local: HostView::V4(f.subrange(30, 34)), ..st }
            } else {
                st
            };
            ustack::ingested(st, f) == entered(
                own,
                HostView::V4(f.subrange(26, 30)),
                f.subrange(6, 12),
                f.subrange(34, 14 + word_at(f, 16)),
            )
        }),
{
    reveal(ustack::ingested);
    reveal(entered);
    let ip = f.skip(14);
    assert(ip[0] == f[14] && ip[2] == f[16] && ip[3] == f[17] && ip[9] == f[23]);
    assert(ip.subrange(12, 16) =~= f.subrange(26, 30));
    assert(ip.subrange(16, 20) =~= f.subrange(30, 34));
}

proof fn lemma_v6_in(st: StackView, f: Seq<u8>)
    requires
        f.len() >= 74,
        word_at(f, 12) == 0x86dd,
        f[14] / 16 == 6,
        f[20] == 6,
        74 <= 54 + word_at(f, 18) <= f.len(),
    ensures
        ({
            let own = if st.listen && st.pcb is None {
                StackView { mac: f.subrange(0, 6), local: HostView::V6(f.subrange(38, 54)), ..st }
            } else {
                st
            };
            ustack::ingested(st, f) == entered(
                own,
                HostView::V6(f.subrange(22, 38)),
                f.subrange(6, 12),
                f.subrange(54, 54 + word_at(f, 18)),
            )
        }),
{
    reveal(ustack::ingested);
    reveal(entered);
    let ip = f.skip(14);
    assert(ip[0] == f[14] && ip[4] == f[18] && ip[5] == f[19] && ip[6] == f[20]);
    assert(ip.subrange(8, 24) =~= f.subrange(22, 38));
    assert(ip.subrange(24, 40) =~= f.subrange(38, 54));
}

/// The frame that an endpoint builds carries the segment it was built from.
pub proof fn law_built_frame_carries(
    st: StackView,
    dst_mac: Seq<u8>,
    dst: HostView,
    dst_port: u16,
    seq: u32,
    ack: u32,
    flags: u8,
    opts: Seq<u8>,
    payload: Seq<u8>,
)
    requires
        st.mac.len() == 6,
        dst_mac.len() == 6,
        ustack_laws::same_family(st.local, dst),
        opts.len() % 4 == 0,
        opts.len() <= 40,
        payload.len() <= 1460,
    ensures
        carries(
            ustack::segment_frame(st, dst_mac, dst, dst_port, seq, ack, flags, opts, payload),
            Segment {
                src: st.local,
                sport: st.local_port,
                dport: dst_port,
                seq,
                ack,
                flags,
                opts,
                payload,
            },
        ),
        ustack::segment_frame(
            st,
            dst_mac,
            dst,
            dst_port,
            seq,
            ack,
            flags,
            opts,
            payload,
        ).subrange(0, 6) == dst_mac,
        ustack::segment_frame(
            st,
            dst_mac,
            dst,
            dst_port,
            seq,
            ack,
            flags,
            opts,
            payload,
        ).subrange(6, 12) == st.mac,
{
    reveal(carries);
    let f = ustack::segment_frame(st, dst_mac, dst, dst_port, seq, ack, flags, opts, payload);
    let tcp = ustack_laws::tcp_inside(st, dst, dst_port, seq, ack, flags, opts, payload);
    ustack_laws::lemma_tcp_inside(st, dst, dst_port, seq, ack, flags, opts, payload);
    let t = if st.local is V4 {
        34int
    } else {
        54
    };
    let ip = f.skip(14);
    match (st.local, dst) {
        (HostView::V4(s), HostView::V4(d)) => {
            crate::wire::law_ipv4_frame_roundtrip(dst_mac, st.mac, s, d, st.ip_id, tcp);
            assert(ip[2] == f[16] && ip[3] == f[17] && ip[9] == f[23] && ip[0] == f[14]);
            assert(f.subrange(26, 30) =~= ip.subrange(12, 16));
            crate::wire::lemma_ipv4_first_byte(dst_mac, st.mac, s, d, st.ip_id, tcp);
        },
        (HostView::V6(s), HostView::V6(d)) => {
            crate::wire::law_ipv6_frame_roundtrip(dst_mac, st.mac, s, d, tcp);
            assert(ip[4] == f[18] && ip[5] == f[19] && ip[6] == f[20] && ip[0] == f[14]);
            assert(f.subrange(22, 38) =~= ip.subrange(8, 24));
        },
        _ => {},
    }
    let end = t + tcp.len();
    assert(f.len() == end);
    assert forall|i: int| 0 <= i < tcp.len() implies tcp[i] == #[trigger] f[t + i] by {
        assert(f.subrange(t, end)[i] == tcp[i]);
    }
    assert(tcp[0] == f[t] && tcp[1] == f[t + 1] && tcp[2] == f[t + 2] && tcp[3] == f[t + 3]);
    assert(tcp[4] == f[t + 4] && tcp[5] == f[t + 5] && tcp[6] == f[t + 6] && tcp[7] == f[t + 7]);
    assert(tcp[8] == f[t + 8] && tcp[9] == f[t + 9] && tcp[10] == f[t + 10] && tcp[11] == f[t
        + 11]);
    assert(tcp[12] == f[t + 12] && tcp[13] == f[t + 13]);
    let head = 20 + opts.len();
    assert(f.subrange(t + 20, t + head) =~= tcp.subrange(20, head as int));
    assert(f.subrange(t + head, end) =~= tcp.skip(head as int));
}

// ---------------------------------------------------------------------
// Data
// ---------------------------------------------------------------------

/// The segment is from the peer of `st`'s connection, to its port.
pub open spec fn from_peer(st: StackView, s: Segment) -> bool {
    &&& st.pcb is Some
    &&& s.src == st.pcb->0.remote
    &&& s.sport == st.pcb->0.remote_port
    &&& s.dport == st.local_port
}

/// An endpoint with an established connection to a peer of its own address
/// family.
pub open spec fn connected(st: StackView) -> bool {
    &&& st.wf()
    &&& st.pcb is Some
    &&& st.pcb->0.state == TcpState::Established
    &&& ustack_laws::same_family(st.local, st.pcb->0.remote)
}

/// Frame `f` is an acknowledgement from `st` to its peer: no payload, only
/// the ACK flag, the next number to send and the number acknowledged.
pub open spec fn acknowledges(st: StackView, f: Seq<u8>, ack: u32) -> bool {
    carries(
        f,
        Segment {
            src: st.local,
            sport: st.local_port,
            dport: st.pcb->0.remote_port,
            seq: st.pcb->0.snd_nxt,
            ack,
            flags: 0x10,
            opts: Seq::empty(),
            payload: Seq::empty(),
        },
    ) && f.subrange(0, 6) == st.pcb->0.remote_mac
}

/// What an established endpoint does with any segment of its peer: the
/// acknowledgement touches the send side only, then the payload is
/// delivered.
proof fn lemma_peer_segment(st: StackView, f: Seq<u8>, s: Segment) -> (mid: StackView)
    requires
        connected(st),
        carries(f, s),
        from_peer(st, s),
    ensures
        ustack::ingested(st, f) == ustack::delivered(mid, s.seq, s.payload),
        mid.wf(),
        ustack_keeps::grown(st, mid),
        mid == (StackView { pcb: mid.pcb, ip_id: mid.ip_id, txq: mid.txq, ..st }),
        mid.pcb is Some,
        mid.pcb->0 == (PcbView {
            snd_una: mid.pcb->0.snd_una,
            inflight: mid.pcb->0.inflight,
            rack: mid.pcb->0.rack,
            ..st.pcb->0
        }),
        ustack::before(st.pcb->0.snd_nxt, s.ack) ==> mid.pcb == st.pcb,
        !ustack::before(st.pcb->0.snd_nxt, s.ack) ==> settled(
            st.pcb->0,
            mid.pcb->0,
            s.ack,
            ustack::acked_to(st.pcb->0.inflight, s.ack, 0) as int,
        ),
{
    let p = st.pcb->0;
    lemma_carried(st, f, s);
    reveal(entered);
    let sacks = ustack::first_n(ustack::option_sacks(s.opts), 3);
    let st2 = if ustack::flag_set(s.flags, ustack::TH_SYN) && ustack::flag_set(
        s.flags,
        ustack::TH_ACK,
    ) {
        ustack::control_sent(st, ustack::TH_ACK, false)
    } else {
        st
    };
    assert((StackView { pcb: Some(p), ..st }) == st);
    assert(st.txq.take(st.txq.len() as int) =~= st.txq);
    ustack_keeps::lemma_control_sent(st, ustack::TH_ACK, false);
    ustack_keeps::lemma_acked(st2, s.ack, sacks);
    ustack_laws::lemma_acked_keeps(st2, s.ack, sacks);
    ustack::lemma_acked_to_bound(p.inflight, s.ack, 0);
    if !ustack::before(p.snd_nxt, s.ack) {
        lemma_acked_scoreboard(st2, s.ack, sacks);
    }
    let mid = ustack::acked(st2, s.ack, sacks);
    ustack_keeps::lemma_delivered(mid, s.seq, s.payload);
    ustack_keeps::lemma_grown(st, st2, mid);
    mid
}

/// The first `k` segments have left the scoreboard; the others stand in
/// order, with their numbers and bytes.
spec fn settled(p: PcbView, q: PcbView, ack: u32, k: int) -> bool {
    &&& q.inflight.len() == p.inflight.len() - k
    &&& forall|i: int|
        0 <= i < q.inflight.len() ==> (#[trigger] q.inflight[i]).seq == p.inflight[k + i].seq
            && q.inflight[i].data == p.inflight[k + i].data
    &&& q.snd_una == if ustack::before(p.snd_una, ack) {
        ack
    } else {
        p.snd_una
    }
}

/// Delivery of in-order payload.
proof fn lemma_taken(mid: StackView, payload: Seq<u8>)
    requires
        mid.wf(),
        mid.pcb is Some,
        ustack_laws::same_family(mid.local, mid.pcb->0.remote),
        payload.len() > 0,
    ensures
        ({
            let p = mid.pcb->0;
            let room = 65535 - p.rx_app.len();
            let n = if payload.len() <= room {
                payload.len() as int
            } else {
                room
            };
            let out = ustack::delivered(mid, p.rcv_nxt, payload);
            let q = out.pcb->0;
            &&& out.pcb is Some
            &&& q == PcbView { rx_app: q.rx_app, rcv_nxt: q.rcv_nxt, ..p }
            &&& q.rx_app == p.rx_app + payload.take(n)
            &&& q.rcv_nxt == (p.rcv_nxt + n) % 0x1_0000_0000
            &&& out.txq.len() == mid.txq.len() + 1
            &&& acknowledges(mid, out.txq.last(), q.rcv_nxt)
        }),
{
    let p = mid.pcb->0;
    let n = ustack::room_for(payload.len(), p.rx_app.len());
    let q = PcbView {
        rx_app: p.rx_app + payload.take(n),
        rcv_nxt: p.rcv_nxt.wrapping_add(n as u32),
        ..p
    };
    let st = StackView { pcb: Some(q), ..mid };
    ustack_laws::lemma_flags();
    law_built_frame_carries(
        st,
        p.remote_mac,
        p.remote,
        p.remote_port,
        p.snd_nxt,
        q.rcv_nxt,
        ustack::TH_ACK,
        Seq::empty(),
        Seq::empty(),
    );
}

/// In-order data reaches the application: of any segment of the peer that
/// starts at the next expected number, whatever its flags, options and
/// acknowledgement, as many payload bytes as the receive buffer has room
/// for are appended to what `read` returns; the next expected number moves
/// past them, and an acknowledgement of it is queued.
pub proof fn law_in_order_payload_is_taken(st: StackView, f: Seq<u8>, s: Segment)
    requires
        connected(st),
        carries(f, s),
        from_peer(st, s),
        s.seq == st.pcb->0.rcv_nxt,
        s.payload.len() > 0,
    ensures
        ({
            let p = st.pcb->0;
            let room = 65535 - p.rx_app.len();
            let n = if s.payload.len() <= room {
                s.payload.len() as int
            } else {
                room
            };
            let out = ustack::ingested(st, f);
            let q = out.pcb->0;
            &&& out.pcb is Some
            &&& q.state == TcpState::Established
            &&& q.rx_app == p.rx_app + s.payload.take(n)
            &&& q.rcv_nxt == (p.rcv_nxt + n) % 0x1_0000_0000
            &&& out.txq.len() > st.txq.len()
            &&& acknowledges(st, out.txq.last(), q.rcv_nxt)
        }),
{
    let mid = lemma_peer_segment(st, f, s);
    lemma_taken(mid, s.payload);
}

/// Data out of order is not delivered: a segment of the peer that does not
/// start at the next expected number, or has no payload, leaves what `read`
/// returns and the next expected number as they are.
pub proof fn law_other_segments_deliver_nothing(st: StackView, f: Seq<u8>, s: Segment)
    requires
        connected(st),
        carries(f, s),
        from_peer(st, s),
        s.seq != st.pcb->0.rcv_nxt || s.payload.len() == 0,
    ensures
        ({
            let out = ustack::ingested(st, f);
            &&& out.pcb is Some
            &&& out.pcb->0.state == TcpState::Established
            &&& out.pcb->0.rx_app == st.pcb->0.rx_app
            &&& out.pcb->0.rcv_nxt == st.pcb->0.rcv_nxt
        }),
{
    let _mid = lemma_peer_segment(st, f, s);
}

/// Segments of others are ignored: while there is a connection, one from
/// another address or port than its peer's, or to another port, changes
/// nothing.
pub proof fn law_foreign_segments_are_ignored(st: StackView, f: Seq<u8>, s: Segment)
    requires
        st.pcb is Some,
        carries(f, s),
        !from_peer(st, s),
    ensures
        ustack::ingested(st, f) == st,
{
    lemma_carried(st, f, s);
    reveal(entered);
}

/// Frames that are no IP packets are ignored.
pub proof fn law_other_frames_are_ignored(st: StackView, f: Seq<u8>)
    requires
        f.len() < 54 || (word_at(f, 12) != 0x0800 && word_at(f, 12) != 0x86dd),
    ensures
        ustack::ingested(st, f) == st,
{
    reveal(ustack::ingested);
}

// ---------------------------------------------------------------------
// Acknowledgements
// ---------------------------------------------------------------------

/// `a` is `b` or comes before it, at most half the number space away.
pub open spec fn up_to(a: u32, b: u32) -> bool {
    (b - a) % 0x1_0000_0000 <= 0x8000_0000
}

/// The number after a segment's last byte.
pub open spec fn end_of(g: SegView) -> u32 {
    ((g.seq + g.data.len()) % 0x1_0000_0000) as u32
}

/// The first `k` segments end at or before `ack`, and the next does not.
pub open spec fn covers(segs: Seq<SegView>, ack: u32, k: int) -> bool {
    &&& 0 <= k <= segs.len()
    &&& forall|i: int| 0 <= i < k ==> up_to(end_of(#[trigger] segs[i]), ack)
    &&& k < segs.len() ==> !up_to(end_of(segs[k]), ack)
}

/// An acknowledgement settles exactly what it covers: any segment of the
/// peer whose acknowledgement is of something that was sent removes from
/// the scoreboard the segments in front that end at or before it; the
/// others stay, in order, with their numbers and bytes. Nothing else of
/// what is to be sent changes.
pub proof fn law_acknowledged_segments_leave(st: StackView, f: Seq<u8>, s: Segment, k: int)
    requires
        connected(st),
        carries(f, s),
        from_peer(st, s),
        up_to(s.ack, st.pcb->0.snd_nxt),
        s.ack == st.pcb->0.snd_nxt || !up_to(st.pcb->0.snd_nxt, s.ack),
        covers(st.pcb->0.inflight, s.ack, k),
    ensures
        ({
            let p = st.pcb->0;
            let q = ustack::ingested(st, f).pcb->0;
            &&& q.inflight.len() == p.inflight.len() - k
            &&& forall|i: int|
                0 <= i < q.inflight.len() ==> (#[trigger] q.inflight[i]).seq == p.inflight[k
                    + i].seq && q.inflight[i].data == p.inflight[k + i].data
            &&& q.snd_nxt == p.snd_nxt
            &&& q.snd_una == if s.ack != p.snd_una && up_to(p.snd_una, s.ack) {
                s.ack
            } else {
                p.snd_una
            }
        }),
{
    let p = st.pcb->0;
    let mid = lemma_peer_segment(st, f, s);
    lemma_covered(p.inflight, s.ack, k, 0);
    lemma_send_side_kept(mid, s.seq, s.payload);
}

/// Delivery leaves the send side alone.
proof fn lemma_send_side_kept(mid: StackView, seq: u32, payload: Seq<u8>)
    requires
        mid.pcb is Some,
    ensures
        ({
            let p = mid.pcb->0;
            let q = ustack::delivered(mid, seq, payload).pcb->0;
            q == PcbView { rx_app: q.rx_app, rcv_nxt: q.rcv_nxt, ..p }
        }),
{
}

proof fn lemma_covered(segs: Seq<SegView>, ack: u32, k: int, i: nat)
    requires
        covers(segs, ack, k),
        i <= k,
        forall|j: int| 0 <= j < segs.len() ==> (#[trigger] segs[j]).data.len() <= 1460,
    ensures
        ustack::acked_to(segs, ack, i) == k,
    decreases k - i,
{
    if i < segs.len() {
        let g = segs[i as int];
        assert(g.data.len() <= 1460);
        assert(ustack::seg_end(g) == end_of(g));
        assert((ustack::seg_end(g) == ack || ustack::before(ustack::seg_end(g), ack)) == up_to(
            end_of(g),
            ack,
        ));
    }
    if i < k {
        assert(up_to(end_of(segs[i as int]), ack));
        lemma_covered(segs, ack, k, i + 1);
    }
}

/// The scoreboard after an acknowledgement: what it does not cover stays.
proof fn lemma_acked_scoreboard(st: StackView, ack: u32, sacks: Seq<(u32, u32)>)
    requires
        st.pcb is Some,
        !ustack::before(st.pcb->0.snd_nxt, ack),
    ensures
        settled(
            st.pcb->0,
            ustack::acked(st, ack, sacks).pcb->0,
            ack,
            ustack::acked_to(st.pcb->0.inflight, ack, 0) as int,
        ),
{
    let p = st.pcb->0;
    let k = ustack::acked_to(p.inflight, ack, 0) as int;
    ustack::lemma_acked_to_bound(p.inflight, ack, 0);
    let rest = p.inflight.skip(k);
    let rack = ustack::rack_acked(p.rack, st.now_us, p.inflight, k as nat);
    ustack::lemma_sacked_all_data(rack, st.now_us, rest, sacks, sacks.len());
    let a = StackView { pcb: Some(ustack::pcb_acked(p, st.now_us, ack, sacks)), ..st };
    let d = ustack::detected(a);
    let dp = d.pcb->0;
    let b = StackView {
        pcb: Some(
            PcbView {
                inflight: dp.inflight.map_values(|s: SegView| ustack::resent(d.now_us, s)),
                ..dp
            },
        ),
        ..d
    };
    let chunks = ustack::lost_chunks(dp.inflight, dp.inflight.len());
    ustack::lemma_chunks_sent_frame(b, dp, chunks, chunks.len());
    let q = ustack::acked(st, ack, sacks).pcb->0;
    assert(q == b.pcb->0);
    assert forall|i: int| 0 <= i < q.inflight.len() implies (#[trigger] q.inflight[i]).seq
        == p.inflight[k + i].seq && q.inflight[i].data == p.inflight[k + i].data by {
        assert(a.pcb->0.inflight[i].seq == rest[i].seq);
        assert(a.pcb->0.inflight[i].data == rest[i].data);
        assert(rest[i] == p.inflight[k + i]);
    }
}

/// An acknowledgement of something that was never sent settles nothing.
pub proof fn law_acknowledgement_beyond_is_ignored(st: StackView, f: Seq<u8>, s: Segment)
    requires
        connected(st),
        carries(f, s),
        from_peer(st, s),
        s.ack != st.pcb->0.snd_nxt,
        up_to(st.pcb->0.snd_nxt, s.ack),
    ensures
        ({
            let p = st.pcb->0;
            let q = ustack::ingested(st, f).pcb->0;
            q.inflight == p.inflight && q.snd_una == p.snd_una && q.rack == p.rack
        }),
{
    let mid = lemma_peer_segment(st, f, s);
    lemma_send_side_kept(mid, s.seq, s.payload);
}

// ---------------------------------------------------------------------
// Opening
// ---------------------------------------------------------------------

/// A control segment that an endpoint queues.
proof fn lemma_control_carries(st: StackView, flags: u8, with_mss: bool)
    requires
        st.wf(),
        st.pcb is Some,
        ustack_laws::same_family(st.local, st.pcb->0.remote),
    ensures
        ({
            let p = st.pcb->0;
            let out = ustack::control_sent(st, flags, with_mss);
            &&& out == StackView { ip_id: out.ip_id, txq: out.txq, ..st }
            &&& out.txq.len() == st.txq.len() + 1
            &&& out.txq.last().subrange(0, 6) == p.remote_mac
            &&& carries(
                out.txq.last(),
                Segment {
                    src: st.local,
                    sport: st.local_port,
                    dport: p.remote_port,
                    seq: if ustack::flag_set(flags, ustack::TH_SYN) {
                        p.iss
                    } else {
                        p.snd_nxt
                    },
                    ack: p.rcv_nxt,
                    flags,
                    opts: if with_mss {
                        ustack::syn_options(p.remote)
                    } else {
                        Seq::empty()
                    },
                    payload: Seq::empty(),
                },
            )
        }),
{
    let p = st.pcb->0;
    law_built_frame_carries(
        st,
        p.remote_mac,
        p.remote,
        p.remote_port,
        if ustack::flag_set(flags, ustack::TH_SYN) {
            p.iss
        } else {
            p.snd_nxt
        },
        p.rcv_nxt,
        flags,
        if with_mss {
            ustack::syn_options(p.remote)
        } else {
            Seq::empty()
        },
        Seq::empty(),
    );
}

/// What a listener opens on a SYN.
proof fn lemma_listener_opens(st: StackView, f: Seq<u8>, s: Segment) -> (own: StackView)
    requires
        st.wf(),
        st.listen,
        st.pcb is None,
        carries(f, s),
        s.dport == st.local_port,
        s.flags & 2 != 0,
        s.flags & 0x10 == 0,
    ensures
        ustack::ingested(st, f) == ustack::control_sent(own, 0x12, true),
        own.wf(),
        own == (StackView {
            mac: f.subrange(0, 6),
            local: destination(f, s),
            pcb: own.pcb,
            ..st
        }),
        own.pcb is Some,
        own.pcb->0.state == TcpState::SynReceived,
        own.pcb->0.remote == s.src,
        own.pcb->0.remote_port == s.sport,
        own.pcb->0.remote_mac == f.subrange(6, 12),
        own.pcb->0.rcv_nxt == (s.seq + 1) % 0x1_0000_0000,
        own.pcb->0.rx_app.len() == 0,
        own.pcb->0.snd_nxt == (own.pcb->0.iss + 1) % 0x1_0000_0000,
        ustack_laws::same_family(own.local, s.src),
{
    lemma_carried(st, f, s);
    let h = crate::parse::tcp_of(inside(f, s));
    let own = StackView { mac: f.subrange(0, 6), local: destination(f, s), ..st };
    lemma_entered_listener(own, s.src, f.subrange(6, 12), inside(f, s));
    StackView { pcb: Some(ustack::passive_open(s.src, f.subrange(6, 12), h)), ..own }
}

proof fn lemma_entered_listener(own: StackView, src: HostView, mac: Seq<u8>, seg: Seq<u8>)
    requires
        own.pcb is None,
        own.listen,
        crate::parse::tcp_error(seg) is None,
        crate::parse::tcp_of(seg).dst_port == own.local_port,
        crate::parse::tcp_of(seg).flags & 2 != 0,
        crate::parse::tcp_of(seg).flags & 0x10 == 0,
    ensures
        entered(own, src, mac, seg) == ustack::control_sent(
            StackView {
                pcb: Some(ustack::passive_open(src, mac, crate::parse::tcp_of(seg))),
                ..own
            },
            0x12,
            true,
        ),
{
    reveal(entered);
    assert(2u8 | 0x10u8 == 0x12u8) by (bit_vector);
}

/// What the peer's answer makes of a connection that is opening: it is
/// established, and the acknowledgement finds nothing in flight.
proof fn lemma_opened(
    st: StackView,
    f: Seq<u8>,
    s: Segment,
    q: PcbView,
    answered: bool,
) -> (mid: StackView)
    requires
        st.wf(),
        from_peer(st, s),
        carries(f, s),
        st.pcb->0.inflight.len() == 0,
        answered == (s.flags & 2 != 0 && s.flags & 0x10 != 0),
        ustack::handshaken(st.pcb->0, crate::parse::tcp_of(inside(f, s))) == Some(q),
        q.state == TcpState::Established,
        q.inflight.len() == 0,
        q.tx_app.len() == 0,
        q.snd_una == s.ack,
        q.snd_nxt == s.ack,
    ensures
        ustack::ingested(st, f) == ustack::delivered(mid, s.seq, s.payload),
        mid == if answered {
            ustack::control_sent(StackView { pcb: Some(q), ..st }, 0x10, false)
        } else {
            StackView { pcb: Some(q), ..st }
        },
{
    lemma_carried(st, f, s);
    reveal(entered);
    let st1 = StackView { pcb: Some(q), ..st };
    let mid = if answered {
        ustack::control_sent(st1, 0x10, false)
    } else {
        st1
    };
    let sacks = ustack::first_n(ustack::option_sacks(s.opts), 3);
    ustack_laws::lemma_quiet_ack(mid, s.ack, sacks);
    mid
}

/// The options of a SYN: a maximum segment size of 1460 bytes over IPv4 and
/// 1440 over IPv6, selective acknowledgements permitted, and two bytes of
/// padding.
pub open spec fn opening_options(peer: HostView) -> Seq<u8> {
    if peer is V4 {
        seq![2u8, 4, 0x05, 0xb4, 4, 2, 1, 1]
    } else {
        seq![2u8, 4, 0x05, 0xa0, 4, 2, 1, 1]
    }
}

proof fn lemma_opening_options(peer: HostView)
    ensures
        ustack::syn_options(peer) == opening_options(peer),
{
    assert(ustack::syn_options(peer) =~= opening_options(peer));
}

/// An active open queues a SYN to the remote host and waits for its answer.
pub proof fn law_connect_sends_a_syn(st: StackView, mac: Seq<u8>, remote: HostView, port: u16)
    requires
        st.wf(),
        mac.len() == 6,
        ustack_laws::same_family(st.local, remote),
    ensures
        ({
            let out = ustack_runs::after_call(st, ustack_runs::Call::Connect(mac, remote, port));
            let q = out.pcb->0;
            &&& out.pcb is Some
            &&& q.state == TcpState::SynSent
            &&& q.remote == remote
            &&& q.remote_port == port
            &&& q.remote_mac == mac
            &&& q.snd_nxt == (q.iss + 1) % 0x1_0000_0000
            &&& out.txq.len() == st.txq.len() + 1
            &&& out.txq.last().subrange(0, 6) == mac
            &&& carries(
                out.txq.last(),
                Segment {
                    src: st.local,
                    sport: st.local_port,
                    dport: port,
                    seq: q.iss,
                    ack: 0,
                    flags: 2,
                    opts: opening_options(remote),
                    payload: Seq::empty(),
                },
            )
        }),
{
    let own = StackView { pcb: Some(ustack::active_open(mac, remote, port)), ..st };
    assert(own.wf());
    assert(2u8 & 2u8 != 0) by (bit_vector);
    lemma_opening_options(remote);
    lemma_control_carries(own, 2, true);
}

/// A write is sent at once: one frame per segment, none longer than the
/// family's segment size and all but the last full, numbered one after the
/// other from the next number to send, with the ACK and PSH flags and the
/// acknowledgement of everything received; their payloads put end to end
/// are the bytes written.
pub proof fn law_written_bytes_are_sent(st: StackView, data: Seq<u8>) -> (chunks: Seq<
    (u32, Seq<u8>),
>)
    requires
        connected(st),
        0 < data.len() <= 65535,
    ensures
        ({
            let p = st.pcb->0;
            let out = ustack_runs::written(st, data);
            let mss: nat = if p.remote is V4 {
                1460
            } else {
                1440
            };
            &&& ustack_laws::chunk_bytes(chunks) == data
            &&& ustack_laws::contiguous(p.snd_nxt, chunks)
            &&& forall|i: int| 0 <= i < chunks.len() ==> 0 < (#[trigger] chunks[i]).1.len() <= mss
            &&& forall|i: int|
                0 <= i < chunks.len() - 1 ==> (#[trigger] chunks[i]).1.len() == mss
            &&& out.txq.len() == st.txq.len() + chunks.len()
            &&& out.txq.take(st.txq.len() as int) == st.txq
            &&& forall|i: int|
                0 <= i < chunks.len() ==> carries(
                    #[trigger] out.txq[st.txq.len() + i],
                    data_segment(st, chunks[i]),
                )
            &&& out.pcb is Some
            &&& out.pcb->0.snd_nxt == (p.snd_nxt + data.len()) % 0x1_0000_0000
            &&& out.pcb->0.inflight.len() == p.inflight.len() + chunks.len()
            &&& out.pcb->0.inflight.take(p.inflight.len() as int) == p.inflight
            &&& forall|i: int|
                0 <= i < chunks.len() ==> {
                    let g = #[trigger] out.pcb->0.inflight[p.inflight.len() + i];
                    g.seq == chunks[i].0 && g.data == chunks[i].1 && g.xmit_ts_us == st.now_us
                        && !g.sacked
                }
        }),
{
    let p = st.pcb->0;
    let chunks = ustack::chopped(p.mss, p.snd_nxt, data);
    let out = ustack_runs::written(st, data);
    ustack_laws::law_chop_preserves_data(p.mss, p.snd_nxt, data);
    ustack::law_chunks_fit_mss(p.mss, p.snd_nxt, data);
    ustack_runs::lemma_written(st, data);
    assert forall|i: int| 0 <= i < chunks.len() implies carries(
        #[trigger] out.txq[st.txq.len() + i],
        data_segment(st, chunks[i]),
    ) by {
        assert(ustack_runs::data_frame(st, out.txq[st.txq.len() + i], chunks[i]));
        assert(0 < chunks[i].1.len() <= p.mss);
        lemma_data_frame_carries(st, out.txq[st.txq.len() + i], chunks[i]);
    }
    assert(out.pcb->0.inflight.take(p.inflight.len() as int) =~= p.inflight);
    chunks
}

/// A data segment of `st`'s connection.
pub open spec fn data_segment(st: StackView, chunk: (u32, Seq<u8>)) -> Segment {
    Segment {
        src: st.local,
        sport: st.local_port,
        dport: st.pcb->0.remote_port,
        seq: chunk.0,
        ack: st.pcb->0.rcv_nxt,
        flags: 0x18,
        opts: Seq::empty(),
        payload: chunk.1,
    }
}

proof fn lemma_data_frame_carries(st: StackView, f: Seq<u8>, chunk: (u32, Seq<u8>))
    requires
        connected(st),
        chunk.1.len() <= 1460,
        ustack_runs::data_frame(st, f, chunk),
    ensures
        carries(f, data_segment(st, chunk)),
{
    let id = choose|id: u16| #[trigger] ustack_runs::chunk_frame(st, id, chunk) == f;
    let p = st.pcb->0;
    assert(0x10u8 | 8u8 == 0x18u8) by (bit_vector);
    law_built_frame_carries(
        StackView { ip_id: id, ..st },
        p.remote_mac,
        p.remote,
        p.remote_port,
        chunk.0,
        p.rcv_nxt,
        ustack::TH_ACK | ustack::TH_PSH,
        Seq::empty(),
        chunk.1,
    );
}

/// What the timer sends: for every segment in flight that has waited a whole
/// timeout (twice the measured round trip, at least 200 milliseconds) a
/// frame with its number and its bytes is queued.
pub proof fn law_timer_resends_what_waited(st: StackView, now_us: u64, i: int)
    requires
        connected(st),
        0 <= i < st.pcb->0.inflight.len(),
        now_us >= st.pcb->0.inflight[i].xmit_ts_us + 200_000,
        now_us >= st.pcb->0.inflight[i].xmit_ts_us + 2 * st.pcb->0.rack.rtt_us,
    ensures
        ({
            let p = st.pcb->0;
            let out = ustack_runs::ticked(st, now_us);
            exists|k: int|
                st.txq.len() <= k < out.txq.len() && carries(
                    #[trigger] out.txq[k],
                    data_segment(st, (p.inflight[i].seq, p.inflight[i].data)),
                )
        }),
{
    let p = st.pcb->0;
    let chunk = (p.inflight[i].seq, p.inflight[i].data);
    let marked = ustack::all_marked(p.rack, now_us, p.inflight);
    assert(marked[i] == ustack::marked(p.rack, now_us, p.inflight[i]));
    assert(marked[i].lost);
    ustack_runs::lemma_ticked(st, now_us);
    let at = ustack_laws::lemma_lost_in_chunks(marked, marked.len(), i);
    let out = ustack_runs::ticked(st, now_us);
    assert(ustack_runs::data_frame(st, out.txq[st.txq.len() + at], chunk));
    assert(p.inflight[i].data.len() <= 1460);
    lemma_data_frame_carries(st, out.txq[st.txq.len() + at], chunk);
}

/// A segment that was overtaken is sent again sooner: when a later one is
/// known delivered, it is not, and it has waited a round trip and the
/// reordering window (a quarter of the smallest round trip, at least a
/// millisecond).
pub proof fn law_timer_resends_what_was_overtaken(st: StackView, now_us: u64, i: int)
    requires
        connected(st),
        0 <= i < st.pcb->0.inflight.len(),
        !st.pcb->0.inflight[i].sacked,
        st.pcb->0.rack.rtt_us > 0,
        end_of(st.pcb->0.inflight[i]) != st.pcb->0.rack.end_seq,
        !up_to(st.pcb->0.rack.end_seq, end_of(st.pcb->0.inflight[i])),
        now_us >= st.pcb->0.inflight[i].xmit_ts_us + st.pcb->0.rack.rtt_us + 1_000,
        now_us >= st.pcb->0.inflight[i].xmit_ts_us + st.pcb->0.rack.rtt_us
            + st.pcb->0.rack.min_rtt_us / 4,
    ensures
        ({
            let p = st.pcb->0;
            let out = ustack_runs::ticked(st, now_us);
            exists|k: int|
                st.txq.len() <= k < out.txq.len() && carries(
                    #[trigger] out.txq[k],
                    data_segment(st, (p.inflight[i].seq, p.inflight[i].data)),
                )
        }),
{
    let p = st.pcb->0;
    let chunk = (p.inflight[i].seq, p.inflight[i].data);
    let marked = ustack::all_marked(p.rack, now_us, p.inflight);
    assert(marked[i] == ustack::marked(p.rack, now_us, p.inflight[i]));
    assert(p.inflight[i].data.len() <= 1460);
    assert(ustack::seg_end(p.inflight[i]) == end_of(p.inflight[i]));
    assert(marked[i].lost);
    ustack_runs::lemma_ticked(st, now_us);
    let at = ustack_laws::lemma_lost_in_chunks(marked, marked.len(), i);
    let out = ustack_runs::ticked(st, now_us);
    assert(ustack_runs::data_frame(st, out.txq[st.txq.len() + at], chunk));
    lemma_data_frame_carries(st, out.txq[st.txq.len() + at], chunk);
}

/// The timer sends nothing needlessly: when every segment in flight has
/// waited less than the timeout, and less than a round trip and the
/// reordering window, it moves the clock only.
pub proof fn law_timer_is_patient(st: StackView, now_us: u64)
    requires
        connected(st),
        now_us < u64::MAX,
        forall|i: int|
            0 <= i < st.pcb->0.inflight.len() ==> {
                let waited = now_us - (#[trigger] st.pcb->0.inflight[i]).xmit_ts_us;
                let rack = st.pcb->0.rack;
                &&& waited < 200_000 || waited < 2 * rack.rtt_us
                &&& rack.rtt_us > 0 ==> waited < rack.rtt_us + 1_000 || waited < rack.rtt_us
                    + rack.min_rtt_us / 4
            },
    ensures
        ustack_runs::ticked(st, now_us) == (StackView { now_us, ..st }),
{
    let p = st.pcb->0;
    assert forall|i: int| 0 <= i < p.inflight.len() implies !ustack::overdue(
        p.rack,
        now_us,
        #[trigger] p.inflight[i],
    ) by {
        let waited = now_us - p.inflight[i].xmit_ts_us;
        assert(waited < 200_000 || waited < 2 * p.rack.rtt_us);
    }
    ustack_runs::law_nothing_is_resent_early(st, now_us);
}

/// A listener answers the first SYN: whatever its options and window, the
/// connection is half open towards the sender, and a SYN with an
/// acknowledgement of it is queued, under the address that the SYN was
/// sent to.
pub proof fn law_listener_answers_a_syn(st: StackView, f: Seq<u8>, s: Segment)
    requires
        st.wf(),
        st.listen,
        st.pcb is None,
        carries(f, s),
        s.dport == st.local_port,
        s.flags & 2 != 0,
        s.flags & 0x10 == 0,
    ensures
        ({
            let out = ustack::ingested(st, f);
            let q = out.pcb->0;
            let reply = out.txq.last();
            &&& out.pcb is Some
            &&& q.state == TcpState::SynReceived
            &&& q.remote == s.src
            &&& q.remote_port == s.sport
            &&& q.remote_mac == f.subrange(6, 12)
            &&& q.rcv_nxt == (s.seq + 1) % 0x1_0000_0000
            &&& q.rx_app.len() == 0
            &&& out.mac == f.subrange(0, 6)
            &&& out.local == destination(f, s)
            &&& out.txq.len() == st.txq.len() + 1
            &&& carries(
                reply,
                Segment {
                    src: out.local,
                    sport: st.local_port,
                    dport: s.sport,
                    seq: q.iss,
                    ack: q.rcv_nxt,
                    flags: 0x12,
                    opts: opening_options(s.src),
                    payload: Seq::empty(),
                },
            )
            &&& q.snd_nxt == (q.iss + 1) % 0x1_0000_0000
        }),
{
    let own = lemma_listener_opens(st, f, s);
    lemma_opening_options(s.src);
    assert(0x12u8 & 2u8 != 0) by (bit_vector);
    lemma_control_carries(own, 0x12, true);
}

/// A listener opens nothing on any other segment.
pub proof fn law_listener_ignores_other_segments(st: StackView, f: Seq<u8>, s: Segment)
    requires
        st.pcb is None,
        carries(f, s),
        !st.listen || s.dport != st.local_port || s.flags & 2 == 0 || s.flags & 0x10 != 0,
    ensures
        ustack::ingested(st, f).pcb is None,
        ustack::ingested(st, f).txq == st.txq,
{
    lemma_carried(st, f, s);
    reveal(entered);
}

/// An active open is completed by the peer's SYN with an acknowledgement of
/// its own SYN, whatever its options: the connection is established, the
/// peer's first byte is expected next, and an acknowledgement is queued.
pub proof fn law_syn_ack_establishes(st: StackView, f: Seq<u8>, s: Segment)
    requires
        st.wf(),
        from_peer(st, s),
        carries(f, s),
        ustack_laws::same_family(st.local, st.pcb->0.remote),
        st.pcb->0.state == TcpState::SynSent,
        st.pcb->0.inflight.len() == 0,
        st.pcb->0.snd_nxt == (st.pcb->0.iss + 1) % 0x1_0000_0000,
        s.flags & 2 != 0,
        s.flags & 0x10 != 0,
        s.ack == st.pcb->0.snd_nxt,
        s.payload.len() == 0,
    ensures
        ({
            let out = ustack::ingested(st, f);
            let q = out.pcb->0;
            &&& out.pcb is Some
            &&& q.state == TcpState::Established
            &&& q.rcv_nxt == (s.seq + 1) % 0x1_0000_0000
            &&& q.snd_nxt == st.pcb->0.snd_nxt
            &&& q.snd_una == s.ack
            &&& q.rx_app == st.pcb->0.rx_app
            &&& out.txq.len() == st.txq.len() + 1
            &&& acknowledges(st, out.txq.last(), q.rcv_nxt)
        }),
{
    let p = st.pcb->0;
    let q = PcbView {
        irs: s.seq,
        rcv_nxt: s.seq.wrapping_add(1),
        snd_una: s.ack,
        state: TcpState::Established,
        ..p
    };
    lemma_carried(st, f, s);
    let mid = lemma_opened(st, f, s, q, true);
    let st1 = StackView { pcb: Some(q), ..st };
    assert(st1.wf());
    assert(0x10u8 & 2u8 == 0) by (bit_vector);
    lemma_control_carries(st1, 0x10, false);
}

/// A passive open is completed by the peer's acknowledgement of the SYN that
/// answered it; data that comes with it is delivered.
pub proof fn law_final_ack_establishes(st: StackView, f: Seq<u8>, s: Segment)
    requires
        st.wf(),
        from_peer(st, s),
        carries(f, s),
        ustack_laws::same_family(st.local, st.pcb->0.remote),
        st.pcb->0.state == TcpState::SynReceived,
        st.pcb->0.inflight.len() == 0,
        st.pcb->0.snd_nxt == (st.pcb->0.iss + 1) % 0x1_0000_0000,
        s.flags & 2 == 0,
        s.flags & 0x10 != 0,
        s.ack == st.pcb->0.snd_nxt,
    ensures
        ({
            let p = st.pcb->0;
            let out = ustack::ingested(st, f);
            let q = out.pcb->0;
            &&& out.pcb is Some
            &&& q.state == TcpState::Established
            &&& q.snd_una == s.ack
            &&& q.snd_nxt == p.snd_nxt
            &&& if s.seq == p.rcv_nxt && p.rx_app.len() + s.payload.len() <= 65535 {
                &&& q.rx_app == p.rx_app + s.payload
                &&& q.rcv_nxt == (p.rcv_nxt + s.payload.len()) % 0x1_0000_0000
            } else {
                s.seq != p.rcv_nxt ==> q.rx_app == p.rx_app && q.rcv_nxt == p.rcv_nxt
            }
        }),
{
    let p = st.pcb->0;
    let q = PcbView { snd_una: s.ack, state: TcpState::Established, ..p };
    lemma_carried(st, f, s);
    let mid = lemma_opened(st, f, s, q, false);
    assert(mid.wf());
    if s.seq == p.rcv_nxt && s.payload.len() > 0 {
        lemma_taken(mid, s.payload);
        assert(s.payload.take(s.payload.len() as int) =~= s.payload);
    }
    if s.payload.len() == 0 {
        assert(p.rx_app + s.payload =~= p.rx_app);
    }
}

/// A half-open connection stays half open on a segment that does not
/// acknowledge its SYN.
pub proof fn law_without_ack_nothing_is_established(st: StackView, f: Seq<u8>, s: Segment)
    requires
        from_peer(st, s),
        carries(f, s),
        st.pcb->0.state == TcpState::SynSent || st.pcb->0.state == TcpState::SynReceived,
        s.flags & 0x10 == 0,
    ensures
        ustack::ingested(st, f) == st,
{
    lemma_carried(st, f, s);
    reveal(entered);
}

// ---------------------------------------------------------------------
// Selective acknowledgements and round trips
// ---------------------------------------------------------------------

/// The four bytes at `i` as a number, the highest first.
pub open spec fn number_at(o: Seq<u8>, i: int) -> u32 {
    (((o[i] * 256 + o[i + 1]) * 256 + o[i + 2]) * 256 + o[i + 3]) as u32
}

/// How options are read for selective acknowledgements: option 5 holds up to
/// three pairs of numbers (10, 18 or 26 bytes in all), option 1 is one byte
/// of padding, option 0 ends the list, any other option is skipped by its
/// length, and a length that does not fit ends the list.
pub proof fn law_sack_options(o: Seq<u8>)
    requires
        o.len() > 0,
    ensures
        o[0] == 0 ==> ustack::option_sacks(o).len() == 0,
        o[0] == 1 ==> ustack::option_sacks(o) == ustack::option_sacks(o.skip(1)),
        o[0] > 1 && o.len() == 1 ==> ustack::option_sacks(o).len() == 0,
        o[0] > 1 && o.len() >= 2 && (o[1] < 2 || o[1] > o.len()) ==> ustack::option_sacks(o).len()
            == 0,
        o[0] > 1 && o[0] != 5 && o.len() >= 2 && 2 <= o[1] <= o.len() ==> ustack::option_sacks(o)
            == ustack::option_sacks(o.skip(o[1] as int)),
        o[0] == 5 && o.len() >= 10 && o[1] == 10 ==> ustack::option_sacks(o) == seq![
            (number_at(o, 2), number_at(o, 6)),
        ] + ustack::option_sacks(o.skip(10)),
        o[0] == 5 && o.len() >= 18 && o[1] == 18 ==> ustack::option_sacks(o) == seq![
            (number_at(o, 2), number_at(o, 6)),
            (number_at(o, 10), number_at(o, 14)),
        ] + ustack::option_sacks(o.skip(18)),
        o[0] == 5 && o.len() >= 26 && o[1] == 26 ==> ustack::option_sacks(o) == seq![
            (number_at(o, 2), number_at(o, 6)),
            (number_at(o, 10), number_at(o, 14)),
            (number_at(o, 18), number_at(o, 22)),
        ] + ustack::option_sacks(o.skip(26)),
{
    let none = Seq::<(u32, u32)>::empty();
    if o[0] > 1 && o[0] != 5 && o.len() >= 2 && 2 <= o[1] <= o.len() {
        let rest = ustack::option_sacks(o.skip(o[1] as int));
        assert(none + rest =~= rest);
    }
    if o[0] == 5 && o.len() >= 10 && o[1] == 10 {
        lemma_pair(o, 2, 10);
        assert(ustack::sack_pairs(o.subrange(10, 10)) =~= none);
        assert(seq![(number_at(o, 2), number_at(o, 6))] + none =~= seq![
            (number_at(o, 2), number_at(o, 6)),
        ]);
    }
    if o[0] == 5 && o.len() >= 18 && o[1] == 18 {
        lemma_pair(o, 2, 18);
        lemma_pair(o, 10, 18);
        assert(ustack::sack_pairs(o.subrange(18, 18)) =~= none);
        assert(ustack::sack_pairs(o.subrange(2, 18)) =~= seq![
            (number_at(o, 2), number_at(o, 6)),
            (number_at(o, 10), number_at(o, 14)),
        ]);
    }
    if o[0] == 5 && o.len() >= 26 && o[1] == 26 {
        lemma_pair(o, 2, 26);
        lemma_pair(o, 10, 26);
        lemma_pair(o, 18, 26);
        assert(ustack::sack_pairs(o.subrange(26, 26)) =~= none);
        assert(ustack::sack_pairs(o.subrange(2, 26)) =~= seq![
            (number_at(o, 2), number_at(o, 6)),
            (number_at(o, 10), number_at(o, 14)),
            (number_at(o, 18), number_at(o, 22)),
        ]);
    }
}

proof fn lemma_pair(o: Seq<u8>, i: int, end: int)
    requires
        0 <= i,
        i + 8 <= end <= o.len(),
    ensures
        ustack::sack_pairs(o.subrange(i, end)) == seq![(number_at(o, i), number_at(o, i + 4))]
            + ustack::sack_pairs(o.subrange(i + 8, end)),
{
    let b = o.subrange(i, end);
    assert(b.skip(8) =~= o.subrange(i + 8, end));
    assert(b[0] == o[i] && b[1] == o[i + 1] && b[2] == o[i + 2] && b[3] == o[i + 3]);
    assert(b[4] == o[i + 4] && b[5] == o[i + 5] && b[6] == o[i + 6] && b[7] == o[i + 7]);
}

/// A selective acknowledgement marks what it covers: a block from `l` to `r`
/// marks exactly the segments in flight that lie inside it as delivered,
/// and takes none off the scoreboard. (Stated at the time of sending, where
/// nothing is overdue.)
pub proof fn law_sack_marks_what_it_covers(
    st: StackView,
    f: Seq<u8>,
    s: Segment,
    l: u32,
    r: u32,
)
    requires
        connected(st),
        carries(f, s),
        from_peer(st, s),
        ustack::option_sacks(s.opts) == seq![(l, r)],
        s.flags & 2 == 0,
        up_to(s.ack, st.pcb->0.snd_nxt),
        s.ack == st.pcb->0.snd_nxt || !up_to(st.pcb->0.snd_nxt, s.ack),
        covers(st.pcb->0.inflight, s.ack, 0),
        forall|i: int|
            0 <= i < st.pcb->0.inflight.len() ==> (#[trigger] st.pcb->0.inflight[i]).xmit_ts_us
                == st.now_us,
    ensures
        ({
            let p = st.pcb->0;
            let q = ustack::ingested(st, f).pcb->0;
            &&& q.inflight.len() == p.inflight.len()
            &&& forall|i: int|
                0 <= i < p.inflight.len() ==> {
                    let g = p.inflight[i];
                    #[trigger] q.inflight[i] == SegView {
                        sacked: g.sacked || (up_to(l, g.seq) && up_to(end_of(g), r)),
                        ..g
                    }
                }
        }),
{
    let p = st.pcb->0;
    let sacks = ustack::option_sacks(s.opts);
    lemma_carried(st, f, s);
    assert((StackView { pcb: Some(p), ..st }) == st);
    assert(ustack::ingested(st, f) == ustack::flushed(
        ustack::delivered(ustack::acked(st, s.ack, sacks), s.seq, s.payload),
    )) by {
        reveal(entered);
    }
    lemma_covered(p.inflight, s.ack, 0, 0);
    lemma_marks(st, s.ack, l, r);
    let mid = ustack::acked(st, s.ack, sacks);
    ustack_laws::lemma_acked_keeps(st, s.ack, sacks);
    lemma_send_side_kept(mid, s.seq, s.payload);
    assert(seq![(l, r)] =~= sacks);
}

proof fn lemma_marks(st: StackView, ack: u32, l: u32, r: u32)
    requires
        st.wf(),
        st.pcb is Some,
        !ustack::before(st.pcb->0.snd_nxt, ack),
        ustack::acked_to(st.pcb->0.inflight, ack, 0) == 0,
        forall|i: int|
            0 <= i < st.pcb->0.inflight.len() ==> (#[trigger] st.pcb->0.inflight[i]).xmit_ts_us
                == st.now_us,
    ensures
        ({
            let p = st.pcb->0;
            let q = ustack::acked(st, ack, seq![(l, r)]).pcb->0;
            &&& q.inflight.len() == p.inflight.len()
            &&& forall|i: int|
                0 <= i < p.inflight.len() ==> {
                    let g = p.inflight[i];
                    #[trigger] q.inflight[i] == SegView {
                        sacked: g.sacked || (up_to(l, g.seq) && up_to(end_of(g), r)),
                        ..g
                    }
                }
        }),
{
    let p = st.pcb->0;
    let sacks = seq![(l, r)];
    assert(p.inflight.skip(0) =~= p.inflight);
    let q = ustack::pcb_acked(p, st.now_us, ack, sacks);
    reveal_with_fuel(ustack::sacked_all, 2);
    assert(q.inflight == ustack::sacked_by(p.inflight, (l, r)));
    assert forall|i: int| 0 <= i < p.inflight.len() implies #[trigger] q.inflight[i] == (SegView {
        sacked: p.inflight[i].sacked || (up_to(l, p.inflight[i].seq) && up_to(
            end_of(p.inflight[i]),
            r,
        )),
        ..p.inflight[i]
    }) by {
        let g = p.inflight[i];
        assert(g.data.len() <= 1460);
        assert(ustack::seg_end(g) == end_of(g));
    }
    let a = StackView { pcb: Some(q), ..st };
    assert forall|i: int| 0 <= i < q.inflight.len() implies !(#[trigger] q.inflight[i]).lost
        && !ustack::overdue(q.rack, a.now_us, q.inflight[i]) by {
        assert(p.inflight[i].xmit_ts_us == st.now_us);
        assert(!p.inflight[i].lost);
    }
    ustack_runs::lemma_quiet_tick(a);
}

/// The round trip is measured: an acknowledgement that covers exactly the
/// first segment in flight, some time after it was sent, makes that time the
/// round trip, and the smallest one if it is. The segment becomes the newest
/// delivered one if it is the first or ends behind the one before.
pub proof fn law_round_trip_is_measured(st: StackView, f: Seq<u8>, s: Segment)
    requires
        connected(st),
        carries(f, s),
        from_peer(st, s),
        s.opts.len() == 0,
        s.flags & 2 == 0,
        up_to(s.ack, st.pcb->0.snd_nxt),
        s.ack == st.pcb->0.snd_nxt || !up_to(st.pcb->0.snd_nxt, s.ack),
        st.pcb->0.inflight.len() > 0,
        covers(st.pcb->0.inflight, s.ack, 1),
        st.pcb->0.inflight[0].xmit_ts_us < st.now_us,
    ensures
        ({
            let p = st.pcb->0;
            let q = ustack::ingested(st, f).pcb->0;
            let rtt = st.now_us - p.inflight[0].xmit_ts_us;
            &&& q.rack.rtt_us == rtt
            &&& q.rack.min_rtt_us == if p.rack.min_rtt_us == 0 || rtt < p.rack.min_rtt_us {
                rtt
            } else {
                p.rack.min_rtt_us as int
            }
            &&& ({
                let end = end_of(p.inflight[0]);
                if p.rack.xmit_ts_us == 0 || (end != p.rack.end_seq && up_to(
                    p.rack.end_seq,
                    end,
                )) {
                    q.rack.end_seq == end && q.rack.xmit_ts_us == p.inflight[0].xmit_ts_us
                } else {
                    q.rack.end_seq == p.rack.end_seq && q.rack.xmit_ts_us == p.rack.xmit_ts_us
                }
            })
        }),
{
    let p = st.pcb->0;
    let sacks = ustack::option_sacks(s.opts);
    assert(sacks.len() == 0);
    assert(s.opts =~= Seq::empty());
    lemma_carried(st, f, s);
    assert((StackView { pcb: Some(p), ..st }) == st);
    let few = ustack::first_n(sacks, 3);
    assert(ustack::ingested(st, f) == ustack::flushed(
        ustack::delivered(ustack::acked(st, s.ack, few), s.seq, s.payload),
    )) by {
        reveal(entered);
    }
    lemma_covered(p.inflight, s.ack, 1, 0);
    let mid = ustack::acked(st, s.ack, few);
    ustack_laws::lemma_acked_keeps(st, s.ack, few);
    lemma_send_side_kept(mid, s.seq, s.payload);
    lemma_rack_of(st, s.ack, few);
    lemma_newest(p.rack, st.now_us, p.inflight[0]);
}

proof fn lemma_newest(rack: ustack::Rack, now: u64, g: SegView)
    requires
        g.data.len() <= u32::MAX,
    ensures
        ({
            let r = ustack::rack_after(rack, now, g);
            let end = end_of(g);
            if rack.xmit_ts_us == 0 || (end != rack.end_seq && up_to(rack.end_seq, end)) {
                r.end_seq == end && r.xmit_ts_us == g.xmit_ts_us
            } else {
                r.end_seq == rack.end_seq && r.xmit_ts_us == rack.xmit_ts_us
            }
        }),
{
    assert(ustack::seg_end(g) == end_of(g));
}

proof fn lemma_rack_of(st: StackView, ack: u32, sacks: Seq<(u32, u32)>)
    requires
        st.pcb is Some,
        sacks.len() == 0,
        !ustack::before(st.pcb->0.snd_nxt, ack),
        st.pcb->0.inflight.len() > 0,
        ustack::acked_to(st.pcb->0.inflight, ack, 0) == 1,
    ensures
        ustack::acked(st, ack, sacks).pcb->0.rack == ustack::rack_after(
            st.pcb->0.rack,
            st.now_us,
            st.pcb->0.inflight[0],
        ),
{
    let p = st.pcb->0;
    reveal_with_fuel(ustack::rack_acked, 2);
    let a = StackView { pcb: Some(ustack::pcb_acked(p, st.now_us, ack, sacks)), ..st };
    let d = ustack::detected(a);
    let dp = d.pcb->0;
    let b = StackView {
        pcb: Some(
            PcbView {
                inflight: dp.inflight.map_values(|s: SegView| ustack::resent(d.now_us, s)),
                ..dp
            },
        ),
        ..d
    };
    let chunks = ustack::lost_chunks(dp.inflight, dp.inflight.len());
    ustack::lemma_chunks_sent_frame(b, dp, chunks, chunks.len());
}

// ---------------------------------------------------------------------
// Frames
// ---------------------------------------------------------------------

/// A data segment is one with a payload, whoever built it and whatever its
/// flags: `pump` may drop it, and nothing else.
pub proof fn law_data_is_told_from_control(f: Seq<u8>, s: Segment)
    requires
        carries(f, s),
    ensures
        ustack::frame_payload(f) == s.payload,
        ustack::carries_data(f) == (s.payload.len() > 0),
{
    reveal(carries);
    let ip = f.skip(14);
    if s.src is V4 {
        lemma_segment_at(f, 34, 14 + word_at(f, 16), s);
        assert(ip[0] == f[14] && ip[2] == f[16] && ip[3] == f[17] && ip[9] == f[23]);
    } else {
        lemma_segment_at(f, 54, 54 + word_at(f, 18), s);
        assert(ip[0] == f[14] && ip[4] == f[18] && ip[5] == f[19] && ip[6] == f[20]);
    }
}

proof fn lemma_tcp_window(
    sport: u16,
    dport: u16,
    seq: u32,
    ack: u32,
    flags: u8,
    csum: u16,
    opts: Seq<u8>,
    payload: Seq<u8>,
)
    ensures
        ({
            let t = crate::wire::tcp_bytes(sport, dport, seq, ack, flags, csum, opts, payload);
            t.len() >= 20 && t[14] == 255 && t[15] == 255
        }),
{
    let o = crate::wire::offset_byte(opts.len());
    let h = crate::wire::tcp_head(sport, dport, seq, ack, o, flags, csum);
    assert(h.len() == 20 && h[14] == 255 && h[15] == 255);
    let t = crate::wire::tcp_bytes(sport, dport, seq, ack, flags, csum, opts, payload);
    assert(t[14] == h[14] && t[15] == h[15]);
}

proof fn lemma_ipv4_limits(eth: Seq<u8>, src: Seq<u8>, dst: Seq<u8>, id: u16, total: u16, csum: u16, tcp: Seq<u8>)
    requires
        eth.len() == 14,
        src.len() == 4,
        dst.len() == 4,
        tcp.len() >= 20,
    ensures
        ({
            let f = eth + crate::wire::ipv4_head(src, dst, id, total, csum) + tcp;
            f[22] == 64 && f[48] == tcp[14] && f[49] == tcp[15] && word_at(f, 18) == id
        }),
{
    let h = crate::wire::ipv4_head(src, dst, id, total, csum);
    assert(h.len() == 20 && h[8] == 64);
    assert(h[4] == (id / 256) as u8 && h[5] == (id % 256) as u8);
    let f = eth + h + tcp;
    assert(f[22] == h[8] && f[18] == h[4] && f[19] == h[5]);
    assert(f[48] == tcp[14] && f[49] == tcp[15]);
}

proof fn lemma_ipv6_limits(eth: Seq<u8>, src: Seq<u8>, dst: Seq<u8>, len: u16, tcp: Seq<u8>)
    requires
        eth.len() == 14,
        src.len() == 16,
        dst.len() == 16,
        tcp.len() >= 20,
    ensures
        ({
            let f = eth + crate::wire::ipv6_head(src, dst, len) + tcp;
            f[21] == 64 && f[68] == tcp[14] && f[69] == tcp[15]
        }),
{
    let h = crate::wire::ipv6_head(src, dst, len);
    assert(h.len() == 40 && h[7] == 64);
    let f = eth + h + tcp;
    assert(f[21] == h[7]);
    assert(f[68] == tcp[14] && f[69] == tcp[15]);
}

/// Every frame that an endpoint builds may live for 64 hops and advertises
/// the largest window.
pub proof fn law_built_frame_limits(
    st: StackView,
    dst_mac: Seq<u8>,
    dst: HostView,
    dst_port: u16,
    seq: u32,
    ack: u32,
    flags: u8,
    opts: Seq<u8>,
    payload: Seq<u8>,
)
    requires
        st.mac.len() == 6,
        dst_mac.len() == 6,
        ustack_laws::same_family(st.local, dst),
    ensures
        ({
            let f = ustack::segment_frame(
                st,
                dst_mac,
                dst,
                dst_port,
                seq,
                ack,
                flags,
                opts,
                payload,
            );
            if st.local is V4 {
                f[22] == 64 && f[48] == 255 && f[49] == 255 && word_at(f, 18) == st.ip_id
            } else {
                f[21] == 64 && f[68] == 255 && f[69] == 255
            }
        }),
{
    let sp = st.local_port;
    match (st.local, dst) {
        (HostView::V4(s), HostView::V4(d)) => {
            let zero = crate::wire::tcp_bytes(sp, dst_port, seq, ack, flags, 0, opts, payload);
            let c = crate::simd::checksum_of(
                crate::checksum::pseudo_v4(s, d, 6, zero.len()) + crate::simd::word_sum(zero),
            );
            lemma_tcp_window(sp, dst_port, seq, ack, flags, c as u16, opts, payload);
            let tcp = crate::wire::tcp_over_v4(
                s,
                d,
                sp,
                dst_port,
                seq,
                ack,
                flags,
                opts,
                payload,
            );
            let total = (20 + tcp.len()) as u16;
            let eth = crate::wire::eth_head(dst_mac, st.mac, crate::wire::ETHERTYPE_V4);
            let csum = crate::wire::ipv4_head_checksum(s, d, st.ip_id, total);
            lemma_ipv4_limits(eth, s, d, st.ip_id, total, csum, tcp);
        },
        (HostView::V6(s), HostView::V6(d)) => {
            let zero = crate::wire::tcp_bytes(sp, dst_port, seq, ack, flags, 0, opts, payload);
            let c = crate::simd::checksum_of(
                crate::checksum::pseudo_v6(s, d, 6, zero.len()) + crate::simd::word_sum(zero),
            );
            lemma_tcp_window(sp, dst_port, seq, ack, flags, c as u16, opts, payload);
            let tcp = crate::wire::tcp_over_v6(
                s,
                d,
                sp,
                dst_port,
                seq,
                ack,
                flags,
                opts,
                payload,
            );
            let eth = crate::wire::eth_head(dst_mac, st.mac, crate::wire::ETHERTYPE_V6);
            lemma_ipv6_limits(eth, s, d, tcp.len() as u16, tcp);
        },
        _ => {},
    }
}

} // verus!
