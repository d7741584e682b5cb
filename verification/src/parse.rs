//! Header parsers: total functions from byte slices to parsed headers,
//! every length checked before any indexing.
use vstd::prelude::*;
use crate::bytes::{get_be16, get_be32};

verus! {

/// The ways a header can be malformed.
#[derive(Clone, Copy, Debug, PartialEq, Eq, Structural)]
pub enum ParseError {
    /// Fewer bytes than the header requires.
    Truncated,
    /// A length field (IHL, payload length, ...) is inconsistent.
    BadLength,
    /// Version/next-header field is not what this parser handles.
    BadVersion,
}

/// Parsed IPv4 header (fixed 20-byte form).
#[derive(Clone, Copy, Debug, PartialEq, Eq)]
pub struct Ipv4Header {
    pub total_len: u16,
    pub identification: u16,
    pub flags_fragment: u16,
    pub ttl: u8,
    pub protocol: u8,
    pub src: [u8; 4],
    pub dst: [u8; 4],
}

/// Parsed IPv6 header (fixed 40-byte form; extension headers are not
/// walked).
#[derive(Clone, Copy, Debug, PartialEq, Eq)]
pub struct Ipv6Header {
    pub payload_len: u16,
    pub next_header: u8,
    pub hop_limit: u8,
    pub src: [u8; 16],
    pub dst: [u8; 16],
}

/// Parsed UDP header (8 bytes).
#[derive(Clone, Copy, Debug, PartialEq, Eq, Structural)]
pub struct UdpHeader {
    pub src_port: u16,
    pub dst_port: u16,
    pub len: u16,
}

/// Parsed TCP header (fixed 20-byte form).
#[derive(Clone, Copy, Debug, PartialEq, Eq, Structural)]
pub struct TcpHeader {
    pub src_port: u16,
    pub dst_port: u16,
    pub seq: u32,
    pub ack: u32,
    pub data_offset: u8,
    pub flags: u8,
    pub window: u16,
    pub checksum: u16,
    pub urgent_ptr: u16,
}

/// Why `s` is not an IPv4 header, if it is not one.
pub open spec fn ipv4_error(s: Seq<u8>) -> Option<ParseError> {
    if s.len() < 20 {
        Some(ParseError::Truncated)
    } else if s[0] / 16 != 4 {
        Some(ParseError::BadVersion)
    } else if s[0] % 16 < 5 || (s[0] % 16) * 4 > s.len() {
        Some(ParseError::BadLength)
    } else {
        None
    }
}

/// `h` holds the fields of the IPv4 header at the start of `s`.
pub open spec fn ipv4_fields(s: Seq<u8>, h: Ipv4Header) -> bool {
    &&& h.total_len == crate::bytes::be16_at(s, 2)
    &&& h.identification == crate::bytes::be16_at(s, 4)
    &&& h.flags_fragment == crate::bytes::be16_at(s, 6)
    &&& h.ttl == s[8]
    &&& h.protocol == s[9]
    &&& h.src@ == s.subrange(12, 16)
    &&& h.dst@ == s.subrange(16, 20)
}

/// Why `s` is not an IPv6 header, if it is not one.
pub open spec fn ipv6_error(s: Seq<u8>) -> Option<ParseError> {
    if s.len() < 40 {
        Some(ParseError::Truncated)
    } else if s[0] / 16 != 6 {
        Some(ParseError::BadVersion)
    } else {
        None
    }
}

/// `h` holds the fields of the IPv6 header at the start of `s`.
pub open spec fn ipv6_fields(s: Seq<u8>, h: Ipv6Header) -> bool {
    &&& h.payload_len == crate::bytes::be16_at(s, 4)
    &&& h.next_header == s[6]
    &&& h.hop_limit == s[7]
    &&& h.src@ == s.subrange(8, 24)
    &&& h.dst@ == s.subrange(24, 40)
}

/// Why `s` is not a UDP header, if it is not one.
pub open spec fn udp_error(s: Seq<u8>) -> Option<ParseError> {
    if s.len() < 8 {
        Some(ParseError::Truncated)
    } else if crate::bytes::be16_at(s, 4) < 8 {
        Some(ParseError::BadLength)
    } else {
        None
    }
}

/// The UDP header at the start of `s`.
pub open spec fn udp_of(s: Seq<u8>) -> UdpHeader {
    UdpHeader {
        src_port: crate::bytes::be16_at(s, 0) as u16,
        dst_port: crate::bytes::be16_at(s, 2) as u16,
        len: crate::bytes::be16_at(s, 4) as u16,
    }
}

/// Why `s` is not a TCP header, if it is not one.
pub open spec fn tcp_error(s: Seq<u8>) -> Option<ParseError> {
    if s.len() < 20 {
        Some(ParseError::Truncated)
    } else if s[12] / 16 < 5 || (s[12] / 16) * 4 > s.len() {
        Some(ParseError::BadLength)
    } else {
        None
    }
}

/// The TCP header at the start of `s`; of the nine flag bits the eight
/// classic ones are kept.
pub open spec fn tcp_of(s: Seq<u8>) -> TcpHeader {
    TcpHeader {
        src_port: crate::bytes::be16_at(s, 0) as u16,
        dst_port: crate::bytes::be16_at(s, 2) as u16,
        seq: crate::bytes::be32_at(s, 4) as u32,
        ack: crate::bytes::be32_at(s, 8) as u32,
        data_offset: s[12] / 16,
        flags: s[13],
        window: crate::bytes::be16_at(s, 14) as u16,
        checksum: crate::bytes::be16_at(s, 16) as u16,
        urgent_ptr: crate::bytes::be16_at(s, 18) as u16,
    }
}

/// Parse an IPv4 header: at least 20 bytes, version 4, an IHL of at least
/// five words that the input covers.
pub fn parse_ipv4(input: &[u8]) -> (r: Result<Ipv4Header, ParseError>)
    ensures
        match r {
            Ok(h) => ipv4_error(input@) is None && ipv4_fields(input@, h),
            Err(e) => ipv4_error(input@) == Some(e),
        },
{
    if input.len() < 20 {
        return Err(ParseError::Truncated);
    }
    if input[0] / 16 != 4 {
        return Err(ParseError::BadVersion);
    }
    let ihl: usize = (input[0] % 16) as usize;
    if ihl < 5 || ihl * 4 > input.len() {
        return Err(ParseError::BadLength);
    }
    let h = Ipv4Header {
        total_len: get_be16(input, 2),
        identification: get_be16(input, 4),
        flags_fragment: get_be16(input, 6),
        ttl: input[8],
        protocol: input[9],
        src: [input[12], input[13], input[14], input[15]],
        dst: [input[16], input[17], input[18], input[19]],
    };
    assert(h.src@ =~= input@.subrange(12, 16));
    assert(h.dst@ =~= input@.subrange(16, 20));
    Ok(h)
}

/// The sixteen bytes of `input` from offset `i`.
pub fn array16(input: &[u8], i: usize) -> (r: [u8; 16])
    requires
        i + 16 <= input@.len(),
    ensures
        r@ == input@.subrange(i as int, i + 16),
{
    let r = [
        input[i],
        input[i + 1],
        input[i + 2],
        input[i + 3],
        input[i + 4],
        input[i + 5],
        input[i + 6],
        input[i + 7],
        input[i + 8],
        input[i + 9],
        input[i + 10],
        input[i + 11],
        input[i + 12],
        input[i + 13],
        input[i + 14],
        input[i + 15],
    ];
    assert(r@ =~= input@.subrange(i as int, i + 16));
    r
}

/// Parse an IPv6 header: at least 40 bytes and version 6. `next_header`
/// is returned as on the wire.
pub fn parse_ipv6(input: &[u8]) -> (r: Result<Ipv6Header, ParseError>)
    ensures
        match r {
            Ok(h) => ipv6_error(input@) is None && ipv6_fields(input@, h),
            Err(e) => ipv6_error(input@) == Some(e),
        },
{
    if input.len() < 40 {
        return Err(ParseError::Truncated);
    }
    if input[0] / 16 != 6 {
        return Err(ParseError::BadVersion);
    }
    Ok(
        Ipv6Header {
            payload_len: get_be16(input, 4),
            next_header: input[6],
            hop_limit: input[7],
            src: array16(input, 8),
            dst: array16(input, 24),
        },
    )
}

/// Parse a UDP header: at least 8 bytes and a length field that covers
/// them.
pub fn parse_udp(input: &[u8]) -> (r: Result<UdpHeader, ParseError>)
    ensures
        r == match udp_error(input@) {
            Some(e) => Err::<UdpHeader, ParseError>(e),
            None => Ok(udp_of(input@)),
        },
{
    if input.len() < 8 {
        return Err(ParseError::Truncated);
    }
    let len: u16 = get_be16(input, 4);
    if len < 8 {
        return Err(ParseError::BadLength);
    }
    Ok(UdpHeader { src_port: get_be16(input, 0), dst_port: get_be16(input, 2), len })
}

/// Parse a TCP header: at least 20 bytes and a data offset of at least
/// five words that the input covers.
pub fn parse_tcp(input: &[u8]) -> (r: Result<TcpHeader, ParseError>)
    ensures
        r == match tcp_error(input@) {
            Some(e) => Err::<TcpHeader, ParseError>(e),
            None => Ok(tcp_of(input@)),
        },
{
    if input.len() < 20 {
        return Err(ParseError::Truncated);
    }
    let data_offset: usize = (input[12] / 16) as usize;
    if data_offset < 5 || data_offset * 4 > input.len() {
        return Err(ParseError::BadLength);
    }
    Ok(
        TcpHeader {
            src_port: get_be16(input, 0),
            dst_port: get_be16(input, 2),
            seq: get_be32(input, 4),
            ack: get_be32(input, 8),
            data_offset: data_offset as u8,
            flags: input[13],
            window: get_be16(input, 14),
            checksum: get_be16(input, 16),
            urgent_ptr: get_be16(input, 18),
        },
    )
}

/// What a parser reports depends on its header alone: bytes after the
/// fixed header and its options never change the result.
pub proof fn law_parsers_ignore_trailing_bytes(s: Seq<u8>, tail: Seq<u8>)
    ensures
        ipv4_error(s) is None ==> ipv4_error(s + tail) is None,
        ipv6_error(s) is None ==> ipv6_error(s + tail) is None,
        udp_error(s) is None ==> udp_error(s + tail) is None && udp_of(s + tail) == udp_of(s),
        tcp_error(s) is None ==> tcp_error(s + tail) is None && tcp_of(s + tail) == tcp_of(s),
        forall|h: Ipv4Header|
            ipv4_error(s) is None && #[trigger] ipv4_fields(s, h) ==> ipv4_fields(s + tail, h),
        forall|h: Ipv6Header|
            ipv6_error(s) is None && #[trigger] ipv6_fields(s, h) ==> ipv6_fields(s + tail, h),
{
    let t = s + tail;
    if s.len() >= 20 {
        assert(t.subrange(12, 16) =~= s.subrange(12, 16));
        assert(t.subrange(16, 20) =~= s.subrange(16, 20));
    }
    if s.len() >= 40 {
        assert(t.subrange(8, 24) =~= s.subrange(8, 24));
        assert(t.subrange(24, 40) =~= s.subrange(24, 40));
    }
}

} // verus!
