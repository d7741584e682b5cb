//! Ethernet, IPv4, IPv6 and TCP framing of outbound segments.
use vstd::prelude::*;
use crate::bytes::{put_all, put_be16, put_be32};
use crate::checksum::{ip_checksum, tcp_checksum, tcp_checksum_v6};

verus! {

/// Ethernet type of IPv4.
pub const ETHERTYPE_V4: u16 = 0x0800;

/// Ethernet type of IPv6.
pub const ETHERTYPE_V6: u16 = 0x86dd;

/// Protocol number of TCP.
pub const PROTO_TCP: u8 = 6;

/// Hop budget of every outbound packet.
pub const DEFAULT_TTL: u8 = 64;

/// The window every segment advertises.
pub const WINDOW: u16 = 65535;

/// The fixed part of a TCP header on the wire.
pub open spec fn tcp_head(
    sport: u16,
    dport: u16,
    seq: u32,
    ack: u32,
    offset: u8,
    flags: u8,
    csum: u16,
) -> Seq<u8> {
    crate::bytes::be16_bytes(sport) + crate::bytes::be16_bytes(dport) + crate::bytes::be32_bytes(
        seq,
    ) + crate::bytes::be32_bytes(ack) + seq![offset, flags] + crate::bytes::be16_bytes(WINDOW)
        + crate::bytes::be16_bytes(csum) + seq![0u8, 0u8]
}

/// The data-offset byte of a header followed by `opt_len` option bytes.
pub open spec fn offset_byte(opt_len: nat) -> u8 {
    ((20 + opt_len) / 4 * 16) as u8
}

/// A TCP segment on the wire.
pub open spec fn tcp_bytes(
    sport: u16,
    dport: u16,
    seq: u32,
    ack: u32,
    flags: u8,
    csum: u16,
    opts: Seq<u8>,
    payload: Seq<u8>,
) -> Seq<u8> {
    tcp_head(sport, dport, seq, ack, offset_byte(opts.len()), flags, csum) + opts + payload
}

/// An Ethernet header.
pub open spec fn eth_head(dst: Seq<u8>, src: Seq<u8>, ethertype: u16) -> Seq<u8> {
    dst + src + crate::bytes::be16_bytes(ethertype)
}

/// A 20-byte IPv4 header carrying TCP.
pub open spec fn ipv4_head(src: Seq<u8>, dst: Seq<u8>, id: u16, total: u16, csum: u16) -> Seq<u8> {
    seq![0x45u8, 0u8] + crate::bytes::be16_bytes(total) + crate::bytes::be16_bytes(id)
        + seq![0u8, 0u8, DEFAULT_TTL, PROTO_TCP] + crate::bytes::be16_bytes(csum) + src + dst
}

/// A 40-byte IPv6 header carrying TCP.
pub open spec fn ipv6_head(src: Seq<u8>, dst: Seq<u8>, len: u16) -> Seq<u8> {
    seq![0x60u8, 0u8, 0u8, 0u8] + crate::bytes::be16_bytes(len) + seq![PROTO_TCP, DEFAULT_TTL]
        + src + dst
}

/// The header checksum of [`ipv4_head`].
pub open spec fn ipv4_head_checksum(src: Seq<u8>, dst: Seq<u8>, id: u16, total: u16) -> u16 {
    crate::simd::checksum_of(crate::simd::word_sum(ipv4_head(src, dst, id, total, 0))) as u16
}

/// A whole IPv4 frame around a TCP segment.
pub open spec fn ipv4_frame(
    dst_mac: Seq<u8>,
    src_mac: Seq<u8>,
    src: Seq<u8>,
    dst: Seq<u8>,
    id: u16,
    tcp: Seq<u8>,
) -> Seq<u8> {
    let total = (20 + tcp.len()) as u16;
    eth_head(dst_mac, src_mac, ETHERTYPE_V4) + ipv4_head(
        src,
        dst,
        id,
        total,
        ipv4_head_checksum(src, dst, id, total),
    ) + tcp
}

/// A whole IPv6 frame around a TCP segment.
pub open spec fn ipv6_frame(
    dst_mac: Seq<u8>,
    src_mac: Seq<u8>,
    src: Seq<u8>,
    dst: Seq<u8>,
    tcp: Seq<u8>,
) -> Seq<u8> {
    eth_head(dst_mac, src_mac, ETHERTYPE_V6) + ipv6_head(src, dst, tcp.len() as u16) + tcp
}

/// A TCP segment with its checksum over the IPv4 pseudo-header.
pub open spec fn tcp_over_v4(
    src: Seq<u8>,
    dst: Seq<u8>,
    sport: u16,
    dport: u16,
    seq: u32,
    ack: u32,
    flags: u8,
    opts: Seq<u8>,
    payload: Seq<u8>,
) -> Seq<u8> {
    let zero = tcp_bytes(sport, dport, seq, ack, flags, 0, opts, payload);
    let c = crate::simd::checksum_of(
        crate::checksum::pseudo_v4(src, dst, 6, zero.len()) + crate::simd::word_sum(zero),
    );
    tcp_bytes(sport, dport, seq, ack, flags, c as u16, opts, payload)
}

/// A TCP segment with its checksum over the IPv6 pseudo-header.
pub open spec fn tcp_over_v6(
    src: Seq<u8>,
    dst: Seq<u8>,
    sport: u16,
    dport: u16,
    seq: u32,
    ack: u32,
    flags: u8,
    opts: Seq<u8>,
    payload: Seq<u8>,
) -> Seq<u8> {
    let zero = tcp_bytes(sport, dport, seq, ack, flags, 0, opts, payload);
    let c = crate::simd::checksum_of(
        crate::checksum::pseudo_v6(src, dst, 6, zero.len()) + crate::simd::word_sum(zero),
    );
    tcp_bytes(sport, dport, seq, ack, flags, c as u16, opts, payload)
}

/// The fields of a TCP header at their offsets.
pub proof fn lemma_tcp_head_fields(
    sport: u16,
    dport: u16,
    seq: u32,
    ack: u32,
    offset: u8,
    flags: u8,
    csum: u16,
)
    ensures
        ({
            let s = tcp_head(sport, dport, seq, ack, offset, flags, csum);
            &&& s.len() == 20
            &&& crate::bytes::be16_at(s, 0) == sport
            &&& crate::bytes::be16_at(s, 2) == dport
            &&& crate::bytes::be32_at(s, 4) == seq
            &&& crate::bytes::be32_at(s, 8) == ack
            &&& s[12] == offset
            &&& s[13] == flags
            &&& crate::bytes::be16_at(s, 14) == WINDOW
            &&& crate::bytes::be16_at(s, 16) == csum
            &&& crate::bytes::be16_at(s, 18) == 0
        }),
{
    crate::bytes::law_be32_roundtrip(seq);
    crate::bytes::law_be32_roundtrip(ack);
    let s = tcp_head(sport, dport, seq, ack, offset, flags, csum);
    let a = crate::bytes::be32_bytes(seq);
    let b = crate::bytes::be32_bytes(ack);
    assert(s[4] == a[0] && s[5] == a[1] && s[6] == a[2] && s[7] == a[3]);
    assert(s[8] == b[0] && s[9] == b[1] && s[10] == b[2] && s[11] == b[3]);
}

/// Storing a checksum rewrites the two checksum bytes only.
proof fn lemma_tcp_store_checksum(
    sport: u16,
    dport: u16,
    seq: u32,
    ack: u32,
    flags: u8,
    csum: u16,
    opts: Seq<u8>,
    payload: Seq<u8>,
)
    ensures
        tcp_bytes(sport, dport, seq, ack, flags, csum, opts, payload) == tcp_bytes(
            sport,
            dport,
            seq,
            ack,
            flags,
            0,
            opts,
            payload,
        ).update(16, (csum / 256) as u8).update(17, (csum % 256) as u8),
        tcp_bytes(sport, dport, seq, ack, flags, csum, opts, payload).len() == 20 + opts.len()
            + payload.len(),
{
    let off = offset_byte(opts.len());
    let front = crate::bytes::be16_bytes(sport) + crate::bytes::be16_bytes(dport)
        + crate::bytes::be32_bytes(seq) + crate::bytes::be32_bytes(ack) + seq![off, flags]
        + crate::bytes::be16_bytes(WINDOW);
    assert(front.len() == 16);
    assert(tcp_bytes(sport, dport, seq, ack, flags, csum, opts, payload) =~= tcp_bytes(
        sport,
        dport,
        seq,
        ack,
        flags,
        0,
        opts,
        payload,
    ).update(16, (csum / 256) as u8).update(17, (csum % 256) as u8));
}

/// The bytes of a segment with a zero checksum field.
fn tcp_unsummed(
    sport: u16,
    dport: u16,
    seq: u32,
    ack: u32,
    flags: u8,
    opts: &[u8],
    payload: &[u8],
) -> (tcp: Vec<u8>)
    requires
        opts@.len() <= 40,
        20 + opts@.len() + payload@.len() <= 65535,
    ensures
        tcp@ == tcp_bytes(sport, dport, seq, ack, flags, 0, opts@, payload@),
        tcp@.len() == 20 + opts@.len() + payload@.len(),
{
    let mut tcp: Vec<u8> = Vec::new();
    put_be16(&mut tcp, sport);
    put_be16(&mut tcp, dport);
    put_be32(&mut tcp, seq);
    put_be32(&mut tcp, ack);
    let hdr_len: usize = 20 + opts.len();
    tcp.push((hdr_len / 4 * 16) as u8);
    tcp.push(flags);
    put_be16(&mut tcp, WINDOW);
    put_be16(&mut tcp, 0);
    put_be16(&mut tcp, 0);
    assert(tcp@ =~= tcp_head(sport, dport, seq, ack, offset_byte(opts@.len()), flags, 0));
    put_all(&mut tcp, opts);
    put_all(&mut tcp, payload);
    tcp
}

/// Build a TCP segment with its IPv4 checksum.
pub fn build_tcp_v4(
    src: [u8; 4],
    dst: [u8; 4],
    sport: u16,
    dport: u16,
    seq: u32,
    ack: u32,
    flags: u8,
    opts: &[u8],
    payload: &[u8],
) -> (tcp: Vec<u8>)
    requires
        opts@.len() <= 40,
        20 + opts@.len() + payload@.len() <= 65535,
    ensures
        tcp@ == tcp_over_v4(src@, dst@, sport, dport, seq, ack, flags, opts@, payload@),
        tcp@.len() == 20 + opts@.len() + payload@.len(),
{
    let mut tcp: Vec<u8> = tcp_unsummed(sport, dport, seq, ack, flags, opts, payload);
    let c: u16 = tcp_checksum(src, dst, tcp.len() as u16, tcp.as_slice());
    tcp.set(16, (c / 256) as u8);
    tcp.set(17, (c % 256) as u8);
    proof {
        lemma_tcp_store_checksum(sport, dport, seq, ack, flags, c, opts@, payload@);
    }
    tcp
}

/// Build a TCP segment with its IPv6 checksum.
pub fn build_tcp_v6(
    src: [u8; 16],
    dst: [u8; 16],
    sport: u16,
    dport: u16,
    seq: u32,
    ack: u32,
    flags: u8,
    opts: &[u8],
    payload: &[u8],
) -> (tcp: Vec<u8>)
    requires
        opts@.len() <= 40,
        20 + opts@.len() + payload@.len() <= 65535,
    ensures
        tcp@ == tcp_over_v6(src@, dst@, sport, dport, seq, ack, flags, opts@, payload@),
        tcp@.len() == 20 + opts@.len() + payload@.len(),
{
    let mut tcp: Vec<u8> = tcp_unsummed(sport, dport, seq, ack, flags, opts, payload);
    let c: u16 = tcp_checksum_v6(src, dst, tcp.len() as u32, tcp.as_slice());
    tcp.set(16, (c / 256) as u8);
    tcp.set(17, (c % 256) as u8);
    proof {
        lemma_tcp_store_checksum(sport, dport, seq, ack, flags, c, opts@, payload@);
    }
    tcp
}

/// Wrap a TCP segment into an IPv4 Ethernet frame.
pub fn wrap_v4(
    dst_mac: [u8; 6],
    src_mac: [u8; 6],
    src: [u8; 4],
    dst: [u8; 4],
    id: u16,
    tcp: &[u8],
) -> (f: Vec<u8>)
    requires
        tcp@.len() <= 65515,
    ensures
        f@ == ipv4_frame(dst_mac@, src_mac@, src@, dst@, id, tcp@),
{
    let total: u16 = (20 + tcp.len()) as u16;
    let mut ip: Vec<u8> = Vec::new();
    ip.push(0x45);
    ip.push(0);
    put_be16(&mut ip, total);
    put_be16(&mut ip, id);
    put_be16(&mut ip, 0);
    ip.push(DEFAULT_TTL);
    ip.push(PROTO_TCP);
    put_be16(&mut ip, 0);
    put_all(&mut ip, src.as_slice());
    put_all(&mut ip, dst.as_slice());
    assert(ip@ =~= ipv4_head(src@, dst@, id, total, 0));
    let c: u16 = ip_checksum(ip.as_slice());
    ip.set(10, (c / 256) as u8);
    ip.set(11, (c % 256) as u8);
    assert(ip@ =~= ipv4_head(src@, dst@, id, total, c));
    let mut f: Vec<u8> = Vec::new();
    put_all(&mut f, dst_mac.as_slice());
    put_all(&mut f, src_mac.as_slice());
    put_be16(&mut f, ETHERTYPE_V4);
    assert(f@ =~= eth_head(dst_mac@, src_mac@, ETHERTYPE_V4));
    put_all(&mut f, ip.as_slice());
    put_all(&mut f, tcp);
    f
}

/// Wrap a TCP segment into an IPv6 Ethernet frame.
pub fn wrap_v6(
    dst_mac: [u8; 6],
    src_mac: [u8; 6],
    src: [u8; 16],
    dst: [u8; 16],
    tcp: &[u8],
) -> (f: Vec<u8>)
    requires
        tcp@.len() <= 65535,
    ensures
        f@ == ipv6_frame(dst_mac@, src_mac@, src@, dst@, tcp@),
{
    let mut f: Vec<u8> = Vec::new();
    put_all(&mut f, dst_mac.as_slice());
    put_all(&mut f, src_mac.as_slice());
    put_be16(&mut f, ETHERTYPE_V6);
    assert(f@ =~= eth_head(dst_mac@, src_mac@, ETHERTYPE_V6));
    let ghost eth = f@;
    f.push(0x60);
    f.push(0);
    put_be16(&mut f, 0);
    put_be16(&mut f, tcp.len() as u16);
    f.push(PROTO_TCP);
    f.push(DEFAULT_TTL);
    put_all(&mut f, src.as_slice());
    put_all(&mut f, dst.as_slice());
    assert(f@ =~= eth + ipv6_head(src@, dst@, tcp@.len() as u16));
    put_all(&mut f, tcp);
    f
}

/// A built segment parses back to what it was built from: ports, numbers,
/// flags, options and payload.
pub proof fn law_tcp_roundtrip(
    sport: u16,
    dport: u16,
    seq: u32,
    ack: u32,
    flags: u8,
    csum: u16,
    opts: Seq<u8>,
    payload: Seq<u8>,
)
    requires
        opts.len() % 4 == 0,
        opts.len() <= 40,
    ensures
        ({
            let s = tcp_bytes(sport, dport, seq, ack, flags, csum, opts, payload);
            let h = crate::parse::tcp_of(s);
            &&& crate::parse::tcp_error(s) is None
            &&& h.src_port == sport
            &&& h.dst_port == dport
            &&& h.seq == seq
            &&& h.ack == ack
            &&& h.flags == flags
            &&& h.window == WINDOW
            &&& h.checksum == csum
            &&& h.data_offset * 4 == 20 + opts.len()
            &&& s.subrange(20, 20 + opts.len() as int) == opts
            &&& s.skip(20 + opts.len() as int) == payload
        }),
{
    let off = offset_byte(opts.len());
    let head = tcp_head(sport, dport, seq, ack, off, flags, csum);
    let s = tcp_bytes(sport, dport, seq, ack, flags, csum, opts, payload);
    lemma_tcp_head_fields(sport, dport, seq, ack, off, flags, csum);
    assert forall|i: int| 0 <= i < 20 implies s[i] == head[i] by {}
    assert(s.subrange(20, 20 + opts.len() as int) =~= opts);
    assert(s.skip(20 + opts.len() as int) =~= payload);
}

/// A frame built for IPv4 parses back to its addresses and its segment.
pub proof fn law_ipv4_frame_roundtrip(
    dst_mac: Seq<u8>,
    src_mac: Seq<u8>,
    src: Seq<u8>,
    dst: Seq<u8>,
    id: u16,
    tcp: Seq<u8>,
)
    requires
        dst_mac.len() == 6,
        src_mac.len() == 6,
        src.len() == 4,
        dst.len() == 4,
        tcp.len() <= 65515,
    ensures
        ({
            let f = ipv4_frame(dst_mac, src_mac, src, dst, id, tcp);
            let ip = f.skip(14);
            &&& f.len() == 34 + tcp.len()
            &&& f.subrange(0, 6) == dst_mac
            &&& f.subrange(6, 12) == src_mac
            &&& crate::bytes::be16_at(f, 12) == ETHERTYPE_V4
            &&& crate::parse::ipv4_error(ip) is None
            &&& crate::bytes::be16_at(ip, 2) == 20 + tcp.len()
            &&& crate::bytes::be16_at(ip, 4) == id
            &&& ip[9] == PROTO_TCP
            &&& ip.subrange(12, 16) == src
            &&& ip.subrange(16, 20) == dst
            &&& f.subrange(34, 34 + tcp.len() as int) == tcp
        }),
{
    let total = (20 + tcp.len()) as u16;
    let eth = eth_head(dst_mac, src_mac, ETHERTYPE_V4);
    let head = ipv4_head(src, dst, id, total, ipv4_head_checksum(src, dst, id, total));
    let f = ipv4_frame(dst_mac, src_mac, src, dst, id, tcp);
    let ip = f.skip(14);
    assert(eth.len() == 14 && head.len() == 20);
    assert(f == eth + head + tcp);
    assert forall|i: int| 0 <= i < 14 implies f[i] == eth[i] by {}
    assert forall|i: int| 0 <= i < 20 implies ip[i] == head[i] by {}
    assert(f.subrange(0, 6) =~= dst_mac);
    assert(f.subrange(6, 12) =~= src_mac);
    assert(ip.subrange(12, 16) =~= src);
    assert(ip.subrange(16, 20) =~= dst);
    assert(f.subrange(34, 34 + tcp.len() as int) =~= tcp);
}

/// The IP header of such a frame has version 4 and no options.
pub proof fn lemma_ipv4_first_byte(
    dst_mac: Seq<u8>,
    src_mac: Seq<u8>,
    src: Seq<u8>,
    dst: Seq<u8>,
    id: u16,
    tcp: Seq<u8>,
)
    requires
        dst_mac.len() == 6,
        src_mac.len() == 6,
    ensures
        ipv4_frame(dst_mac, src_mac, src, dst, id, tcp)[14] == 0x45,
{
    let eth = eth_head(dst_mac, src_mac, ETHERTYPE_V4);
    assert(eth.len() == 14);
}

/// A frame built for IPv6 parses back to its addresses and its segment.
pub proof fn law_ipv6_frame_roundtrip(
    dst_mac: Seq<u8>,
    src_mac: Seq<u8>,
    src: Seq<u8>,
    dst: Seq<u8>,
    tcp: Seq<u8>,
)
    requires
        dst_mac.len() == 6,
        src_mac.len() == 6,
        src.len() == 16,
        dst.len() == 16,
        tcp.len() <= 65535,
    ensures
        ({
            let f = ipv6_frame(dst_mac, src_mac, src, dst, tcp);
            let ip = f.skip(14);
            &&& f.len() == 54 + tcp.len()
            &&& f.subrange(0, 6) == dst_mac
            &&& f.subrange(6, 12) == src_mac
            &&& crate::bytes::be16_at(f, 12) == ETHERTYPE_V6
            &&& crate::parse::ipv6_error(ip) is None
            &&& crate::bytes::be16_at(ip, 4) == tcp.len()
            &&& ip[6] == PROTO_TCP
            &&& ip.subrange(8, 24) == src
            &&& ip.subrange(24, 40) == dst
            &&& f.subrange(54, 54 + tcp.len() as int) == tcp
        }),
{
    let eth = eth_head(dst_mac, src_mac, ETHERTYPE_V6);
    let head = ipv6_head(src, dst, tcp.len() as u16);
    let f = ipv6_frame(dst_mac, src_mac, src, dst, tcp);
    let ip = f.skip(14);
    assert(eth.len() == 14 && head.len() == 40);
    assert forall|i: int| 0 <= i < 14 implies f[i] == eth[i] by {}
    assert forall|i: int| 0 <= i < 40 implies ip[i] == head[i] by {}
    assert(f.subrange(0, 6) =~= dst_mac);
    assert(f.subrange(6, 12) =~= src_mac);
    assert(ip.subrange(8, 24) =~= src);
    assert(ip.subrange(24, 40) =~= dst);
    assert(f.subrange(54, 54 + tcp.len() as int) =~= tcp);
}

/// Every segment sent over IPv4 carries a checksum that the receiver's sum
/// folds to zero.
pub proof fn law_tcp_over_v4_verifies(
    src: Seq<u8>,
    dst: Seq<u8>,
    sport: u16,
    dport: u16,
    seq: u32,
    ack: u32,
    flags: u8,
    opts: Seq<u8>,
    payload: Seq<u8>,
)
    requires
        src.len() == 4,
        dst.len() == 4,
        opts.len() <= 40,
        20 + opts.len() + payload.len() <= 65535,
    ensures
        ({
            let s = tcp_over_v4(src, dst, sport, dport, seq, ack, flags, opts, payload);
            crate::simd::checksum_of(
                crate::checksum::pseudo_v4(src, dst, 6, s.len()) + crate::simd::word_sum(s),
            ) == 0
        }),
{
    let zero = tcp_bytes(sport, dport, seq, ack, flags, 0, opts, payload);
    let pseudo = crate::checksum::pseudo_v4(src, dst, 6, zero.len());
    let c = crate::simd::checksum_of(pseudo + crate::simd::word_sum(zero)) as u16;
    crate::simd::law_word_sum_bound(src);
    crate::simd::law_word_sum_bound(dst);
    lemma_tcp_sum_bound(sport, dport, seq, ack, flags, opts, payload);
    lemma_tcp_store_checksum(sport, dport, seq, ack, flags, c, opts, payload);
    crate::simd::law_stored_checksum_verifies(zero, 16, pseudo, c);
}

/// Every segment sent over IPv6 carries a checksum that the receiver's sum
/// folds to zero.
pub proof fn law_tcp_over_v6_verifies(
    src: Seq<u8>,
    dst: Seq<u8>,
    sport: u16,
    dport: u16,
    seq: u32,
    ack: u32,
    flags: u8,
    opts: Seq<u8>,
    payload: Seq<u8>,
)
    requires
        src.len() == 16,
        dst.len() == 16,
        opts.len() <= 40,
        20 + opts.len() + payload.len() <= 65535,
    ensures
        ({
            let s = tcp_over_v6(src, dst, sport, dport, seq, ack, flags, opts, payload);
            crate::simd::checksum_of(
                crate::checksum::pseudo_v6(src, dst, 6, s.len()) + crate::simd::word_sum(s),
            ) == 0
        }),
{
    let zero = tcp_bytes(sport, dport, seq, ack, flags, 0, opts, payload);
    let pseudo = crate::checksum::pseudo_v6(src, dst, 6, zero.len());
    let c = crate::simd::checksum_of(pseudo + crate::simd::word_sum(zero)) as u16;
    crate::simd::law_word_sum_bound(src);
    crate::simd::law_word_sum_bound(dst);
    lemma_tcp_sum_bound(sport, dport, seq, ack, flags, opts, payload);
    lemma_tcp_store_checksum(sport, dport, seq, ack, flags, c, opts, payload);
    crate::simd::law_stored_checksum_verifies(zero, 16, pseudo, c);
}

/// The word sum of a segment stays far below the accumulator's range, and
/// its checksum bytes are zero when the field is.
proof fn lemma_tcp_sum_bound(
    sport: u16,
    dport: u16,
    seq: u32,
    ack: u32,
    flags: u8,
    opts: Seq<u8>,
    payload: Seq<u8>,
)
    requires
        opts.len() <= 40,
        20 + opts.len() + payload.len() <= 65535,
    ensures
        ({
            let zero = tcp_bytes(sport, dport, seq, ack, flags, 0, opts, payload);
            &&& zero.len() == 20 + opts.len() + payload.len()
            &&& crate::simd::word_sum(zero) <= 32768 * 65535
            &&& zero[16] == 0
            &&& zero[17] == 0
        }),
{
    let zero = tcp_bytes(sport, dport, seq, ack, flags, 0, opts, payload);
    lemma_tcp_store_checksum(sport, dport, seq, ack, flags, 0, opts, payload);
    crate::simd::law_word_sum_bound(zero);
}

/// The header checksum of every IPv4 frame sent folds to zero.
pub proof fn law_ipv4_head_verifies(src: Seq<u8>, dst: Seq<u8>, id: u16, total: u16)
    requires
        src.len() == 4,
        dst.len() == 4,
    ensures
        crate::simd::checksum_of(
            crate::simd::word_sum(
                ipv4_head(src, dst, id, total, ipv4_head_checksum(src, dst, id, total)),
            ),
        ) == 0,
{
    let zero = ipv4_head(src, dst, id, total, 0);
    let c = ipv4_head_checksum(src, dst, id, total);
    crate::simd::law_word_sum_bound(zero);
    assert(zero.len() == 20);
    crate::simd::law_stored_checksum_verifies(zero, 10, 0, c);
    assert(ipv4_head(src, dst, id, total, c) =~= zero.update(10, (c / 256) as u8).update(
        11,
        (c % 256) as u8,
    ));
}

} // verus!
