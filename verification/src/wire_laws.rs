//! Laws of headers and checksums, over the bytes on the wire.
use vstd::prelude::*;
use crate::checksum;
use crate::parse;
use crate::parse::{Ipv4Header, Ipv6Header, ParseError};
use crate::simd;

verus! {

/// The 16-bit number at a place, high byte first.
pub open spec fn two(s: Seq<u8>, i: int) -> int {
    256 * s[i] + s[i + 1]
}

/// The 32-bit number at a place, high byte first.
pub open spec fn four(s: Seq<u8>, i: int) -> int {
    65536 * two(s, i) + two(s, i + 2)
}

/// An IPv4 header is taken exactly where 20 bytes are there, the first byte
/// is `0x45` to `0x4f`, and all of its words are there; too few bytes are
/// found first, then another version. Its fields stand at their places.
pub proof fn law_ipv4_headers(s: Seq<u8>, h: Ipv4Header)
    ensures
        s.len() < 20 <==> parse::ipv4_error(s) == Some(ParseError::Truncated),
        s.len() >= 20 ==> (parse::ipv4_error(s) == Some(ParseError::BadVersion) <==> !(0x40 <= s[0]
            <= 0x4f)),
        s.len() >= 20 ==> (parse::ipv4_error(s) is None <==> 0x45 <= s[0] <= 0x4f && 4 * (s[0]
            - 0x40) <= s.len()),
        s.len() >= 20 && parse::ipv4_fields(s, h) ==> {
            &&& h.total_len == two(s, 2)
            &&& h.identification == two(s, 4)
            &&& h.flags_fragment == two(s, 6)
            &&& h.ttl == s[8]
            &&& h.protocol == s[9]
            &&& forall|i: int| 0 <= i < 4 ==> #[trigger] h.src@[i] == s[12 + i]
            &&& forall|i: int| 0 <= i < 4 ==> #[trigger] h.dst@[i] == s[16 + i]
        },
{
}

/// An IPv6 header is taken exactly where 40 bytes are there and the first
/// one is `0x60` to `0x6f`. Its fields stand at their places.
pub proof fn law_ipv6_headers(s: Seq<u8>, h: Ipv6Header)
    ensures
        s.len() < 40 <==> parse::ipv6_error(s) == Some(ParseError::Truncated),
        s.len() >= 40 ==> (parse::ipv6_error(s) == Some(ParseError::BadVersion) <==> !(0x60 <= s[0]
            <= 0x6f)),
        s.len() >= 40 ==> (parse::ipv6_error(s) is None <==> 0x60 <= s[0] <= 0x6f),
        s.len() >= 40 && parse::ipv6_fields(s, h) ==> {
            &&& h.payload_len == two(s, 4)
            &&& h.next_header == s[6]
            &&& h.hop_limit == s[7]
            &&& forall|i: int| 0 <= i < 16 ==> #[trigger] h.src@[i] == s[8 + i]
            &&& forall|i: int| 0 <= i < 16 ==> #[trigger] h.dst@[i] == s[24 + i]
        },
{
}

/// A UDP header is taken exactly where 8 bytes are there and its length is
/// not below 8. Its fields stand at their places.
pub proof fn law_udp_headers(s: Seq<u8>)
    ensures
        s.len() < 8 <==> parse::udp_error(s) == Some(ParseError::Truncated),
        s.len() >= 8 ==> (parse::udp_error(s) == Some(ParseError::BadLength) <==> s[4] == 0 && s[5]
            < 8),
        s.len() >= 8 ==> (parse::udp_error(s) is None <==> !(s[4] == 0 && s[5] < 8)),
        s.len() >= 8 ==> {
            let h = parse::udp_of(s);
            h.src_port == two(s, 0) && h.dst_port == two(s, 2) && h.len == two(s, 4)
        },
{
}

/// A TCP header is taken exactly where 20 bytes are there, and 5 to 15 words
/// as its data offset says. Its fields stand at their places.
pub proof fn law_tcp_headers(s: Seq<u8>)
    ensures
        s.len() < 20 <==> parse::tcp_error(s) == Some(ParseError::Truncated),
        s.len() >= 20 ==> (parse::tcp_error(s) is None <==> s[12] >= 0x50 && 4 * (s[12] / 16)
            <= s.len()),
        s.len() >= 20 && parse::tcp_error(s) is Some ==> parse::tcp_error(s) == Some(
            ParseError::BadLength,
        ),
        s.len() >= 20 ==> {
            let h = parse::tcp_of(s);
            &&& h.src_port == two(s, 0)
            &&& h.dst_port == two(s, 2)
            &&& h.seq == four(s, 4)
            &&& h.ack == four(s, 8)
            &&& 16 * h.data_offset <= s[12] < 16 * h.data_offset + 16
            &&& h.flags == s[13]
            &&& h.window == two(s, 14)
            &&& h.checksum == two(s, 16)
            &&& h.urgent_ptr == two(s, 18)
        },
{
}

/// The sum of words: two bytes are one word, high byte first; one byte alone
/// is a high byte; and the words behind an even number of bytes are summed on
/// their own.
pub proof fn law_words_are_summed(a: u8, b: u8, s: Seq<u8>)
    ensures
        simd::word_sum(Seq::empty()) == 0,
        simd::word_sum(seq![a]) == 256 * a,
        simd::word_sum(seq![a, b] + s) == 256 * a + b + simd::word_sum(s),
{
    let x = seq![a];
    let y = seq![a, b];
    assert(x.drop_last() =~= Seq::empty());
    assert(simd::word_sum(x.drop_last()) == 0);
    assert(y.drop_last() =~= x);
    assert(simd::byte_weight(0) == 256 && simd::byte_weight(1) == 1);
    assert(simd::word_sum(x) == 256 * a);
    assert(y.len() == 2 && y.last() == b);
    assert(simd::word_sum(y) == 256 * a + b);
    simd::law_word_sum_concat(y, s);
}

/// A checksum, added to the sum it was made of, gives a multiple of 65535;
/// it is 65535 for the sum 0 alone, and below it for every other.
pub proof fn law_checksums_complete_the_sum(n: nat)
    requires
        n < 0x1_0000_0000,
    ensures
        (n + simd::checksum_of(n)) % 65535 == 0,
        0 <= simd::checksum_of(n) <= 65535,
        simd::checksum_of(n) == 65535 <==> n == 0,
{
    if n > 0 {
        let q = (n - 1) / 65535;
        let r = (n - 1) % 65535;
        assert(n - 1 == 65535 * q + r);
        assert(n + simd::checksum_of(n) == 65535 * (q + 1));
        assert((65535 * (q + 1)) % 65535 == 0) by (nonlinear_arith);
    }
}

/// The sum over a pseudo-header is the sum over its bytes: for IPv4 both
/// addresses, a zero byte, the protocol and the length.
pub proof fn law_pseudo_header_v4(src: Seq<u8>, dst: Seq<u8>, proto: u8, len: u16)
    requires
        src.len() == 4,
        dst.len() == 4,
    ensures
        checksum::pseudo_v4(src, dst, proto as nat, len as nat) == simd::word_sum(
            src + dst + seq![0u8, proto, (len / 256) as u8, (len % 256) as u8],
        ),
{
    let end = seq![(len / 256) as u8, (len % 256) as u8];
    let none = Seq::<u8>::empty();
    law_words_are_summed(0, proto, end);
    law_words_are_summed((len / 256) as u8, (len % 256) as u8, none);
    assert(end + none =~= end);
    let tail = seq![0u8, proto, (len / 256) as u8, (len % 256) as u8];
    assert(seq![0u8, proto] + end =~= tail);
    simd::law_word_sum_concat(src, dst);
    simd::law_word_sum_concat(src + dst, tail);
}

/// For IPv6 the bytes are both addresses, the length in four bytes, three
/// zero bytes and the next header.
pub proof fn law_pseudo_header_v6(src: Seq<u8>, dst: Seq<u8>, next: u8, len: u32)
    requires
        src.len() == 16,
        dst.len() == 16,
    ensures
        checksum::pseudo_v6(src, dst, next as nat, len as nat) == simd::word_sum(
            src + dst + seq![
                (len / 0x100_0000) as u8,
                (len / 0x1_0000 % 256) as u8,
                (len / 0x100 % 256) as u8,
                (len % 256) as u8,
                0u8,
                0u8,
                0u8,
                next,
            ],
        ),
{
    let a = (len / 0x100_0000) as u8;
    let b = (len / 0x1_0000 % 256) as u8;
    let c = (len / 0x100 % 256) as u8;
    let d = (len % 256) as u8;
    let none = Seq::<u8>::empty();
    let last = seq![0u8, next];
    let zeros = seq![0u8, 0u8] + last;
    let low = seq![c, d] + zeros;
    law_words_are_summed(0, next, none);
    assert(last + none =~= last);
    law_words_are_summed(0, 0, last);
    law_words_are_summed(c, d, zeros);
    law_words_are_summed(a, b, low);
    let tail = seq![a, b, c, d, 0u8, 0u8, 0u8, next];
    assert(seq![a, b] + low =~= tail);
    assert(256 * a + b == len / 0x1_0000);
    assert(256 * c + d == len % 0x1_0000);
    simd::law_word_sum_concat(src, dst);
    simd::law_word_sum_concat(src + dst, tail);
}

} // verus!
