//! Socket addresses and their kernel encoding: `sockaddr_in` (16 bytes) and
//! `sockaddr_in6` (28 bytes) inside a 128-byte `sockaddr_storage`. Port and
//! IP address stand in network byte order; family, flow info and scope id
//! in the machine's own, which is little-endian.
use vstd::prelude::*;
use crate::bytes;

verus! {

/// Address family of IPv4.
pub const AF_INET: u16 = 2;

/// Address family of IPv6.
pub const AF_INET6: u16 = 10;

/// Size of a `sockaddr_storage`.
pub const STORAGE_LEN: usize = 128;

/// Size of a `sockaddr_in`.
pub const V4_LEN: usize = 16;

/// Size of a `sockaddr_in6`.
pub const V6_LEN: usize = 28;

/// An IP address with a port.
#[derive(Clone, Copy, Debug, PartialEq, Eq)]
pub enum SockAddr {
    V4 { ip: [u8; 4], port: u16 },
    V6 { ip: [u8; 16], port: u16, flowinfo: u32, scope_id: u32 },
}

/// Why an address cannot be encoded or decoded.
#[derive(Clone, Copy, Debug, PartialEq, Eq, Structural)]
pub enum AddrError {
    /// Fewer bytes than a `sockaddr_in`.
    ShortV4,
    /// Fewer bytes than a `sockaddr_in6`.
    ShortV6,
    /// Neither IPv4 nor IPv6.
    Family,
    /// An IPv6 address on an IPv4-only socket.
    V6Rejected,
}

impl AddrError {
    /// The error in words.
    pub open spec fn words(self) -> Seq<char> {
        match self {
            AddrError::ShortV4 => "short sockaddr_in"@,
            AddrError::ShortV6 => "short sockaddr_in6"@,
            AddrError::Family => "unsupported address family"@,
            AddrError::V6Rejected => "UdpSocket is IPv4-only; IPv6 address rejected"@,
        }
    }

    /// The error in words.
    pub fn message(self) -> (r: &'static str)
        ensures
            r@ == self.words(),
    {
        match self {
            AddrError::ShortV4 => "short sockaddr_in",
            AddrError::ShortV6 => "short sockaddr_in6",
            AddrError::Family => "unsupported address family",
            AddrError::V6Rejected => "UdpSocket is IPv4-only; IPv6 address rejected",
        }
    }
}

/// The 16-bit little-endian field at `i`.
pub open spec fn le16_at(s: Seq<u8>, i: int) -> int {
    s[i] + s[i + 1] * 256
}

/// The 32-bit little-endian field at `i`.
pub open spec fn le32_at(s: Seq<u8>, i: int) -> int {
    s[i] + s[i + 1] * 256 + s[i + 2] * 65536 + s[i + 3] * 16777216
}

/// The two bytes of a little-endian value.
pub open spec fn le16_bytes(x: u16) -> Seq<u8> {
    seq![(x % 256) as u8, (x / 256) as u8]
}

/// The four bytes of a little-endian value.
pub open spec fn le32_bytes(x: u32) -> Seq<u8> {
    seq![
        (x % 256) as u8,
        (x / 256 % 256) as u8,
        (x / 65536 % 256) as u8,
        (x / 16777216) as u8,
    ]
}

/// The kernel encoding of an address.
pub open spec fn encoded(a: SockAddr) -> Seq<u8> {
    match a {
        SockAddr::V4 { ip, port } => le16_bytes(AF_INET) + bytes::be16_bytes(port) + ip@
            + Seq::new(8, |i: int| 0u8),
        SockAddr::V6 { ip, port, flowinfo, scope_id } => le16_bytes(AF_INET6)
            + bytes::be16_bytes(port) + le32_bytes(flowinfo) + ip@ + le32_bytes(scope_id),
    }
}

/// Whether 16 address bytes are an IPv4 address mapped into IPv6.
pub open spec fn v4_mapped(ip: Seq<u8>) -> bool {
    (forall|i: int| 0 <= i < 10 ==> #[trigger] ip[i] == 0) && ip[10] == 255 && ip[11] == 255
}

/// Append a 32-bit value in little-endian order.
pub fn put_le32(v: &mut Vec<u8>, x: u32)
    ensures
        final(v)@ == old(v)@ + le32_bytes(x),
{
    let ghost before = v@;
    v.push((x % 256) as u8);
    v.push((x / 256 % 256) as u8);
    v.push((x / 65536 % 256) as u8);
    v.push((x / 16777216) as u8);
    assert(v@ =~= before + le32_bytes(x));
}

fn put_le16(v: &mut Vec<u8>, x: u16)
    ensures
        final(v)@ == old(v)@ + le16_bytes(x),
{
    let ghost before = v@;
    v.push((x % 256) as u8);
    v.push((x / 256) as u8);
    assert(v@ =~= before + le16_bytes(x));
}

fn get_le16(s: &[u8], i: usize) -> (r: u16)
    requires
        i + 2 <= s@.len(),
    ensures
        r == le16_at(s@, i as int),
{
    s[i] as u16 + s[i + 1] as u16 * 256
}

/// Read the 32-bit little-endian field at `i`.
pub fn get_le32(s: &[u8], i: usize) -> (r: u32)
    requires
        i + 4 <= s@.len(),
    ensures
        r == le32_at(s@, i as int),
{
    s[i] as u32 + s[i + 1] as u32 * 256 + s[i + 2] as u32 * 65536 + s[i + 3] as u32 * 16777216
}

fn array4(s: &[u8], i: usize) -> (r: [u8; 4])
    requires
        i + 4 <= s@.len(),
    ensures
        r@ == s@.subrange(i as int, i + 4),
{
    let r: [u8; 4] = [s[i], s[i + 1], s[i + 2], s[i + 3]];
    assert(r@ =~= s@.subrange(i as int, i + 4));
    r
}

/// The encoding of an address; its length is the address length to hand to
/// the kernel.
pub fn sockaddr_of(addr: &SockAddr) -> (v: Vec<u8>)
    ensures
        v@ == encoded(*addr),
        v@.len() == match *addr {
            SockAddr::V4 { .. } => V4_LEN,
            SockAddr::V6 { .. } => V6_LEN,
        },
{
    let mut v: Vec<u8> = Vec::new();
    match addr {
        SockAddr::V4 { ip, port } => {
            put_le16(&mut v, AF_INET);
            bytes::put_be16(&mut v, *port);
            bytes::put_all(&mut v, ip.as_slice());
            let mut i: usize = 0;
            let ghost head = v@;
            while i < 8
                invariant
                    i <= 8,
                    v@ == head + Seq::new(i as nat, |j: int| 0u8),
                decreases 8 - i,
            {
                v.push(0);
                i += 1;
                assert(v@ =~= head + Seq::new(i as nat, |j: int| 0u8));
            }
            assert(v@ =~= encoded(*addr));
        },
        SockAddr::V6 { ip, port, flowinfo, scope_id } => {
            put_le16(&mut v, AF_INET6);
            bytes::put_be16(&mut v, *port);
            put_le32(&mut v, *flowinfo);
            bytes::put_all(&mut v, ip.as_slice());
            put_le32(&mut v, *scope_id);
            assert(v@ =~= encoded(*addr));
        },
    }
    v
}

/// The address to bind a TCP listener to: no flow info.
pub fn listen_sockaddr(addr: &SockAddr) -> (v: Vec<u8>)
    ensures
        v@ == encoded(
            match *addr {
                SockAddr::V4 { ip, port } => SockAddr::V4 { ip, port },
                SockAddr::V6 { ip, port, flowinfo, scope_id } => SockAddr::V6 {
                    ip,
                    port,
                    flowinfo: 0,
                    scope_id,
                },
            },
        ),
{
    match *addr {
        SockAddr::V4 { ip, port } => sockaddr_of(&SockAddr::V4 { ip, port }),
        SockAddr::V6 { ip, port, flowinfo: _, scope_id } => sockaddr_of(
            &SockAddr::V6 { ip, port, flowinfo: 0, scope_id },
        ),
    }
}

/// The address in `ss`, read as a `sockaddr_in`.
pub open spec fn v4_in(ss: Seq<u8>, a: SockAddr) -> bool {
    match a {
        SockAddr::V4 { ip, port } => ip@ == ss.subrange(4, 8) && port == bytes::be16_at(ss, 2),
        _ => false,
    }
}

/// The address in `ss`, read as a `sockaddr_in6`.
pub open spec fn v6_in(ss: Seq<u8>, a: SockAddr) -> bool {
    match a {
        SockAddr::V6 { ip, port, flowinfo, scope_id } => {
            &&& ip@ == ss.subrange(8, 24)
            &&& port == bytes::be16_at(ss, 2)
            &&& flowinfo == le32_at(ss, 4)
            &&& scope_id == le32_at(ss, 24)
        },
        _ => false,
    }
}

/// The address that the kernel wrote into `ss`, of which `len` bytes are
/// valid.
pub fn sockaddr_to_addr(ss: &[u8], len: usize) -> (r: Result<SockAddr, AddrError>)
    requires
        ss@.len() == STORAGE_LEN,
    ensures
        ({
            let family = le16_at(ss@, 0);
            match r {
                Ok(a) => {
                    ||| family == AF_INET && len >= V4_LEN && v4_in(ss@, a)
                    ||| family == AF_INET6 && len >= V6_LEN && v6_in(ss@, a)
                },
                Err(AddrError::ShortV4) => family == AF_INET && len < V4_LEN,
                Err(AddrError::ShortV6) => family == AF_INET6 && len < V6_LEN,
                Err(AddrError::Family) => family != AF_INET && family != AF_INET6,
                Err(AddrError::V6Rejected) => false,
            }
        }),
{
    let family: u16 = get_le16(ss, 0);
    if family == AF_INET {
        if len < V4_LEN {
            return Err(AddrError::ShortV4);
        }
        Ok(SockAddr::V4 { ip: array4(ss, 4), port: bytes::get_be16(ss, 2) })
    } else if family == AF_INET6 {
        if len < V6_LEN {
            return Err(AddrError::ShortV6);
        }
        Ok(
            SockAddr::V6 {
                ip: crate::parse::array16(ss, 8),
                port: bytes::get_be16(ss, 2),
                flowinfo: get_le32(ss, 4),
                scope_id: get_le32(ss, 24),
            },
        )
    } else {
        Err(AddrError::Family)
    }
}

/// The address of a TCP peer or listener. An IPv4 address mapped into IPv6
/// is given as IPv4, and an IPv6 address without flow info and scope.
pub fn sockaddr_to_socket_addr(ss: &[u8]) -> (r: SockAddr)
    requires
        ss@.len() == STORAGE_LEN,
        le16_at(ss@, 0) == AF_INET || le16_at(ss@, 0) == AF_INET6,
    ensures
        ({
            let port = bytes::be16_at(ss@, 2);
            match r {
                SockAddr::V4 { ip, port: p } => {
                    &&& p == port
                    &&& if le16_at(ss@, 0) == AF_INET {
                        ip@ == ss@.subrange(4, 8)
                    } else {
                        v4_mapped(ss@.subrange(8, 24)) && ip@ == ss@.subrange(20, 24)
                    }
                },
                SockAddr::V6 { ip, port: p, flowinfo, scope_id } => {
                    &&& le16_at(ss@, 0) == AF_INET6
                    &&& !v4_mapped(ss@.subrange(8, 24))
                    &&& p == port
                    &&& ip@ == ss@.subrange(8, 24)
                    &&& flowinfo == 0
                    &&& scope_id == 0
                },
            }
        }),
{
    let port: u16 = bytes::get_be16(ss, 2);
    if get_le16(ss, 0) == AF_INET {
        return SockAddr::V4 { ip: array4(ss, 4), port };
    }
    let ip: [u8; 16] = crate::parse::array16(ss, 8);
    let mut zeros: usize = 0;
    while zeros < 10 && ip[zeros] == 0
        invariant
            zeros <= 10,
            forall|i: int| 0 <= i < zeros ==> #[trigger] ip@[i] == 0,
        decreases 10 - zeros,
    {
        zeros += 1;
    }
    if zeros == 10 && ip[10] == 255 && ip[11] == 255 {
        let v4: [u8; 4] = [ip[12], ip[13], ip[14], ip[15]];
        assert(v4@ =~= ss@.subrange(20, 24));
        SockAddr::V4 { ip: v4, port }
    } else {
        SockAddr::V6 { ip, port, flowinfo: 0, scope_id: 0 }
    }
}

/// The source address of a datagram on an IPv4 socket.
pub fn addr_from_storage(ss: &[u8]) -> (r: SockAddr)
    requires
        ss@.len() == STORAGE_LEN,
        le16_at(ss@, 0) == AF_INET,
    ensures
        v4_in(ss@, r),
{
    SockAddr::V4 { ip: array4(ss, 4), port: bytes::get_be16(ss, 2) }
}

/// The encoding of an address for an IPv4-only socket.
pub fn sockaddr_in_from(addr: &SockAddr) -> (r: Result<Vec<u8>, AddrError>)
    ensures
        match r {
            Ok(v) => addr is V4 && v@ == encoded(*addr),
            Err(e) => addr is V6 && e == AddrError::V6Rejected,
        },
{
    match addr {
        SockAddr::V4 { .. } => Ok(sockaddr_of(addr)),
        SockAddr::V6 { .. } => Err(AddrError::V6Rejected),
    }
}

/// An encoded address, whatever bytes follow it in the storage, is decoded
/// as what was encoded.
pub proof fn law_address_roundtrip(a: SockAddr, tail: Seq<u8>)
    requires
        encoded(a).len() + tail.len() == STORAGE_LEN,
    ensures
        ({
            let ss = encoded(a) + tail;
            match a {
                SockAddr::V4 { .. } => le16_at(ss, 0) == AF_INET && v4_in(ss, a),
                SockAddr::V6 { .. } => le16_at(ss, 0) == AF_INET6 && v6_in(ss, a),
            }
        }),
{
    let ss = encoded(a) + tail;
    match a {
        SockAddr::V4 { ip, port } => {
            assert(ss.subrange(4, 8) =~= ip@);
            bytes::law_be16_roundtrip(port);
            assert(ss[2] == bytes::be16_bytes(port)[0]);
            assert(ss[3] == bytes::be16_bytes(port)[1]);
        },
        SockAddr::V6 { ip, port, flowinfo, scope_id } => {
            assert(ss.subrange(8, 24) =~= ip@);
            bytes::law_be16_roundtrip(port);
            assert(ss[2] == bytes::be16_bytes(port)[0]);
            assert(ss[3] == bytes::be16_bytes(port)[1]);
            lemma_le32_roundtrip(flowinfo);
            lemma_le32_roundtrip(scope_id);
            assert(ss[4] == le32_bytes(flowinfo)[0]);
            assert(ss[5] == le32_bytes(flowinfo)[1]);
            assert(ss[6] == le32_bytes(flowinfo)[2]);
            assert(ss[7] == le32_bytes(flowinfo)[3]);
            assert(ss[24] == le32_bytes(scope_id)[0]);
            assert(ss[25] == le32_bytes(scope_id)[1]);
            assert(ss[26] == le32_bytes(scope_id)[2]);
            assert(ss[27] == le32_bytes(scope_id)[3]);
        },
    }
}

proof fn lemma_le32_roundtrip(x: u32)
    ensures
        le32_at(le32_bytes(x), 0) == x,
{
    let a = x / 16777216;
    let b = x / 65536;
    let c = x / 256;
    assert(b == a * 256 + b % 256);
    assert(c == b * 256 + c % 256);
    assert(x == c * 256 + x % 256);
}

/// Decoding pins the address: two addresses read from the same bytes are
/// the same.
pub proof fn law_decoding_is_unique(ss: Seq<u8>, a: SockAddr, b: SockAddr)
    requires
        v4_in(ss, a) && v4_in(ss, b) || v6_in(ss, a) && v6_in(ss, b),
    ensures
        match (a, b) {
            (SockAddr::V4 { ip: x, port: p }, SockAddr::V4 { ip: y, port: q }) => x@ == y@ && p
                == q,
            (
                SockAddr::V6 { ip: x, port: p, flowinfo: f, scope_id: s },
                SockAddr::V6 { ip: y, port: q, flowinfo: g, scope_id: t },
            ) => x@ == y@ && p == q && f == g && s == t,
            _ => false,
        },
{
}

} // verus!
