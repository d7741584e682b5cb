//! Laws of the addresses that the kernel hands over, by their bytes.
use vstd::prelude::*;
use crate::sockaddr;
use crate::sockaddr::{AddrError, SockAddr};

verus! {

/// The family in the first two bytes, low byte first.
pub open spec fn family(ss: Seq<u8>) -> int {
    ss[0] + 256 * ss[1]
}

/// An address is read exactly where its family is 2 and 16 bytes are there,
/// or 10 and 28 bytes; else the error says which was short, or that the
/// family is another.
pub proof fn law_addresses_are_read(ss: &[u8], len: usize, r: Result<SockAddr, AddrError>)
    requires
        ss@.len() == sockaddr::STORAGE_LEN,
        call_ensures(sockaddr::sockaddr_to_addr, (ss, len), r),
    ensures
        family(ss@) == 2 && len >= 16 ==> (r matches Ok(SockAddr::V4 { ip, port }) && ip@
            == ss@.subrange(4, 8) && port == 256 * ss@[2] + ss@[3]),
        family(ss@) == 2 && len < 16 ==> r == Err::<SockAddr, AddrError>(AddrError::ShortV4),
        family(ss@) == 10 && len >= 28 ==> (r matches Ok(SockAddr::V6 { ip, port, .. }) && ip@
            == ss@.subrange(8, 24) && port == 256 * ss@[2] + ss@[3]),
        family(ss@) == 10 && len < 28 ==> r == Err::<SockAddr, AddrError>(AddrError::ShortV6),
        family(ss@) != 2 && family(ss@) != 10 ==> r == Err::<SockAddr, AddrError>(
            AddrError::Family,
        ),
{
}

/// The address of a peer: one of family 2, and one that is mapped into IPv6,
/// is an IPv4 address; every other one is an IPv6 address without flow
/// information and scope.
pub proof fn law_peers_are_read(ss: &[u8], r: SockAddr)
    requires
        ss@.len() == sockaddr::STORAGE_LEN,
        family(ss@) == 2 || family(ss@) == 10,
        call_ensures(sockaddr::sockaddr_to_socket_addr, (ss,), r),
    ensures
        ({
            let mapped = ss@.subrange(8, 20) == seq![0u8, 0, 0, 0, 0, 0, 0, 0, 0, 0, 255, 255];
            let number = 256 * ss@[2] + ss@[3];
            &&& family(ss@) == 2 ==> (r matches SockAddr::V4 { ip, port } && port == number && ip@
                == ss@.subrange(4, 8))
            &&& family(ss@) == 10 && mapped ==> (r matches SockAddr::V4 { ip, port } && port
                == number && ip@ == ss@.subrange(20, 24))
            &&& family(ss@) == 10 && !mapped ==> (r matches SockAddr::V6 {
                ip,
                port,
                flowinfo,
                scope_id,
            } && port == number && ip@ == ss@.subrange(8, 24) && flowinfo == 0 && scope_id == 0)
        }),
{
    let ip = ss@.subrange(8, 24);
    crate::kernel_laws::law_address_is_read(ss@, r, ip);
    assert(ip.take(12) =~= ss@.subrange(8, 20));
}

/// A listener is bound to its address with its flow information cleared; an
/// IPv4 address as it is.
pub proof fn law_listeners_are_bound(a: SockAddr, b: SockAddr, v: Vec<u8>, w: Vec<u8>)
    requires
        call_ensures(sockaddr::listen_sockaddr, (&a,), v),
        call_ensures(sockaddr::sockaddr_of, (&b,), w),
        b == match a {
            SockAddr::V4 { ip, port } => a,
            SockAddr::V6 { ip, port, flowinfo, scope_id } => SockAddr::V6 {
                ip,
                port,
                flowinfo: 0,
                scope_id,
            },
        },
    ensures
        v@ == w@,
{
}

} // verus!
