//! The figures that the library and the kernel share, as numbers and bytes:
//! socket options, socket addresses, and event bits.
use vstd::prelude::*;
use crate::api;
use crate::config::{SctpConfig, TcpConfig, UdpConfig};
use crate::reactor;
use crate::reactor::{Interest, RawEvent};
use crate::sockaddr;
use crate::sockaddr::SockAddr;
use crate::transport;
use crate::transport::{OnError, OptView, ValueView};

verus! {

// ---------------------------------------------------------------------
// Socket options
// ---------------------------------------------------------------------

/// Among the options is this one, with this number.
pub open spec fn sets(opts: Seq<OptView>, level: i32, opt: i32, value: int) -> bool {
    exists|k: int|
        {
            &&& 0 <= k < opts.len()
            &&& (#[trigger] opts[k]).level == level
            &&& opts[k].opt == opt
            &&& opts[k].value == ValueView::Int(value)
        }
}

/// Among the options is this one, with these bytes.
pub open spec fn sets_bytes(opts: Seq<OptView>, level: i32, opt: i32, value: Seq<u8>) -> bool {
    exists|k: int|
        {
            &&& 0 <= k < opts.len()
            &&& (#[trigger] opts[k]).level == level
            &&& opts[k].opt == opt
            &&& opts[k].value == ValueView::Bytes(value)
        }
}

/// Among the options is none of this name.
pub open spec fn leaves(opts: Seq<OptView>, level: i32, opt: i32) -> bool {
    forall|k: int| 0 <= k < opts.len() ==> (#[trigger] opts[k]).level != level || opts[k].opt != opt
}

/// One if `b`, else zero.
pub open spec fn one_if(b: bool) -> int {
    if b {
        1
    } else {
        0
    }
}

/// What a UDP socket is given: address reuse (1, 2), port reuse (1, 15),
/// receive and send buffers (1, 8 and 7) up to the largest 31-bit number,
/// segmentation (17, 103), coalescing (17, 104), the steering CPU (1, 49)
/// where it is known, and zero-copy (1, 60), each exactly when configured,
/// and nothing else.
#[verifier::spinoff_prover]
#[verifier::rlimit(60)]
pub proof fn law_udp_options(cfg: UdpConfig, cpu: i32)
    ensures
        ({
            let o = transport::udp_opts(cfg, cpu);
            let max = 0x7fff_ffffint;
            &&& sets(o, 1, 2, 1)
            &&& if cfg.reuseport {
                sets(o, 1, 15, 1)
            } else {
                leaves(o, 1, 15)
            }
            &&& sets(
                o,
                1,
                8,
                if cfg.rcvbuf <= max {
                    cfg.rcvbuf as int
                } else {
                    max
                },
            )
            &&& sets(
                o,
                1,
                7,
                if cfg.sndbuf <= max {
                    cfg.sndbuf as int
                } else {
                    max
                },
            )
            &&& if cfg.gso_segment_size > 0 {
                sets(
                    o,
                    17,
                    103,
                    if cfg.gso_segment_size <= max {
                        cfg.gso_segment_size as int
                    } else {
                        max
                    },
                )
            } else {
                leaves(o, 17, 103)
            }
            &&& if cfg.gro {
                sets(o, 17, 104, 1)
            } else {
                leaves(o, 17, 104)
            }
            &&& if cfg.incoming_cpu && cpu >= 0 {
                sets(o, 1, 49, cpu as int)
            } else {
                leaves(o, 1, 49)
            }
            &&& if cfg.zerocopy {
                sets(o, 1, 60, 1)
            } else {
                leaves(o, 1, 60)
            }
            &&& o.len() == 3 + one_if(cfg.reuseport) + one_if(cfg.gso_segment_size > 0) + one_if(
                cfg.gro,
            ) + one_if(cfg.incoming_cpu && cpu >= 0) + one_if(cfg.zerocopy)
            &&& forall|k: int| 0 <= k < o.len() ==> (#[trigger] o[k]).on_error == OnError::Fail
        }),
{
    let o = transport::udp_opts(cfg, cpu);
    let a = one_if(cfg.reuseport);
    let b = one_if(cfg.gso_segment_size > 0);
    let c = one_if(cfg.gro);
    let d = one_if(cfg.incoming_cpu && cpu >= 0);
    let e = one_if(cfg.zerocopy);
    assert(o.len() == 3 + a + b + c + d + e);
    assert(o[0].opt == 2 && o[0].level == 1);
    assert(cfg.reuseport ==> o[1].opt == 15);
    assert(o[1 + a].opt == 8);
    assert(o[2 + a].opt == 7);
    assert(b == 1 ==> o[3 + a].opt == 103);
    assert(c == 1 ==> o[3 + a + b].opt == 104);
    assert(d == 1 ==> o[3 + a + b + c].opt == 49);
    assert(e == 1 ==> o[3 + a + b + c + d].opt == 60);
}

/// What a TCP listener is given: address reuse (1, 2), port reuse (1, 15),
/// both buffers (1, 8 and 7), fast open (6, 23) where a kernel without it is
/// tolerated, and for IPv6 whether IPv4 clients are shut out (41, 26), each
/// exactly when configured, and nothing else.
pub proof fn law_listener_options(cfg: TcpConfig, v6: bool)
    requires
        cfg.rcvbuf <= 0x7fff_ffff_ffff_ffff,
        cfg.sndbuf <= 0x7fff_ffff_ffff_ffff,
    ensures
        ({
            let o = transport::listen_opts(cfg, v6);
            &&& sets(o, 1, 2, 1)
            &&& if cfg.reuseport {
                sets(o, 1, 15, 1)
            } else {
                leaves(o, 1, 15)
            }
            &&& sets(o, 1, 8, cfg.rcvbuf as int)
            &&& sets(o, 1, 7, cfg.sndbuf as int)
            &&& if cfg.fastopen > 0 {
                0 < cfg.fastopen < 0x8000_0000 ==> sets(o, 6, 23, cfg.fastopen as int)
            } else {
                leaves(o, 6, 23)
            }
            &&& if v6 {
                sets(o, 41, 26, one_if(cfg.ipv6_only))
            } else {
                leaves(o, 41, 26)
            }
            &&& o.len() == 3 + one_if(cfg.reuseport) + one_if(cfg.fastopen > 0) + one_if(v6)
            &&& forall|k: int|
                0 <= k < o.len() ==> (#[trigger] o[k]).on_error == if o[k].level == 6 {
                    OnError::IgnoreUnsupported
                } else {
                    OnError::Fail
                }
        }),
{
    let o = transport::listen_opts(cfg, v6);
    let a = one_if(cfg.reuseport);
    let b = one_if(cfg.fastopen > 0);
    assert(o[0].opt == 2 && o[0].level == 1);
    assert(cfg.reuseport ==> o[1].opt == 15);
    assert(o[1 + a].opt == 8);
    assert(o[2 + a].opt == 7);
    assert(b == 1 ==> o[3 + a].opt == 23);
    assert(v6 ==> o[3 + a + b].opt == 26);
}

/// What an accepted connection is given: no delay (6, 1), quick
/// acknowledgements (6, 12), deferred accept (6, 9) and corking (6, 3), each
/// exactly when configured, and nothing else.
pub proof fn law_stream_options(cfg: TcpConfig)
    ensures
        ({
            let o = transport::stream_opts(cfg);
            &&& if cfg.nodelay {
                sets(o, 6, 1, 1)
            } else {
                leaves(o, 6, 1)
            }
            &&& if cfg.quickack {
                sets(o, 6, 12, 1)
            } else {
                leaves(o, 6, 12)
            }
            &&& if cfg.defer_accept {
                sets(o, 6, 9, 1)
            } else {
                leaves(o, 6, 9)
            }
            &&& if cfg.cork {
                sets(o, 6, 3, 1)
            } else {
                leaves(o, 6, 3)
            }
            &&& o.len() == one_if(cfg.nodelay) + one_if(cfg.quickack) + one_if(cfg.defer_accept)
                + one_if(cfg.cork)
        }),
{
    let o = transport::stream_opts(cfg);
    let a = one_if(cfg.nodelay);
    let b = one_if(cfg.quickack);
    let c = one_if(cfg.defer_accept);
    assert(cfg.nodelay ==> o[0].opt == 1);
    assert(cfg.quickack ==> o[a].opt == 12);
    assert(cfg.defer_accept ==> o[a + b].opt == 9);
    assert(cfg.cork ==> o[a + b + c].opt == 3);
}

/// The four bytes of a number, the lowest first.
pub open spec fn low_first(n: u32) -> Seq<u8> {
    seq![
        (n % 256) as u8,
        (n / 256 % 256) as u8,
        (n / 65536 % 256) as u8,
        (n / 16777216) as u8,
    ]
}

/// What an SCTP socket is given: address reuse (1, 2), port reuse (1, 15),
/// no delay (132, 3), the stream count both ways (132, 2), the partial
/// delivery point (132, 19) and the burst limit (132, 20) where they are not
/// zero, and the events for data, associations and shutdowns (132, 11),
/// whose refusal is tolerated.
pub proof fn law_sctp_options(cfg: SctpConfig)
    ensures
        ({
            let o = transport::sctp_opts(cfg);
            let n = cfg.init_max_streams;
            let lo = (n % 256) as u8;
            let hi = (n / 256) as u8;
            &&& sets(o, 1, 2, 1)
            &&& if cfg.reuseport {
                sets(o, 1, 15, 1)
            } else {
                leaves(o, 1, 15)
            }
            &&& if cfg.nodelay {
                sets(o, 132, 3, 1)
            } else {
                leaves(o, 132, 3)
            }
            &&& sets_bytes(o, 132, 2, seq![lo, hi, lo, hi, 0, 0, 0, 0])
            &&& if cfg.partial_delivery_point > 0 {
                sets_bytes(o, 132, 19, low_first(cfg.partial_delivery_point))
            } else {
                leaves(o, 132, 19)
            }
            &&& if cfg.max_burst > 0 {
                sets_bytes(o, 132, 20, low_first(cfg.max_burst))
            } else {
                leaves(o, 132, 20)
            }
            &&& sets_bytes(o, 132, 11, seq![1, 1, 0, 0, 0, 1, 0, 0, 0, 0, 0, 0, 0, 0])
            &&& o.len() == 3 + one_if(cfg.reuseport) + one_if(cfg.nodelay) + one_if(
                cfg.partial_delivery_point > 0,
            ) + one_if(cfg.max_burst > 0)
            &&& forall|k: int|
                0 <= k < o.len() ==> (#[trigger] o[k]).on_error == if o[k].level == 132 && o[k].opt
                    == 11 {
                    OnError::Ignore
                } else {
                    OnError::Fail
                }
        }),
{
    let o = transport::sctp_opts(cfg);
    let n = cfg.init_max_streams;
    let lo = (n % 256) as u8;
    let hi = (n / 256) as u8;
    let a = one_if(cfg.reuseport);
    let b = one_if(cfg.nodelay);
    let c = one_if(cfg.partial_delivery_point > 0);
    let d = one_if(cfg.max_burst > 0);
    assert(transport::initmsg(n) =~= seq![lo, hi, lo, hi, 0, 0, 0, 0]);
    assert(transport::event_mask() =~= seq![1u8, 1, 0, 0, 0, 1, 0, 0, 0, 0, 0, 0, 0, 0]);
    assert(sockaddr::le32_bytes(cfg.partial_delivery_point) =~= low_first(
        cfg.partial_delivery_point,
    ));
    assert(sockaddr::le32_bytes(cfg.max_burst) =~= low_first(cfg.max_burst));
    assert(o[0].opt == 2 && o[0].level == 1);
    assert(cfg.reuseport ==> o[1].opt == 15);
    assert(cfg.nodelay ==> o[1 + a].opt == 3);
    assert(o[1 + a + b].opt == 2 && o[1 + a + b].level == 132);
    assert(c == 1 ==> o[2 + a + b].opt == 19);
    assert(d == 1 ==> o[2 + a + b + c].opt == 20);
    assert(o[2 + a + b + c + d].opt == 11);
}

// ---------------------------------------------------------------------
// Socket addresses
// ---------------------------------------------------------------------

/// The bytes of an address: the family (2 or 10) lowest byte first, the port
/// highest byte first, then for IPv4 the address and eight zeros, for IPv6
/// the flow info, the address and the scope.
pub proof fn law_address_bytes(a: SockAddr)
    ensures
        match a {
            SockAddr::V4 { ip, port } => sockaddr::encoded(a) == seq![
                2u8,
                0,
                (port / 256) as u8,
                (port % 256) as u8,
            ] + ip@ + seq![0u8, 0, 0, 0, 0, 0, 0, 0],
            SockAddr::V6 { ip, port, flowinfo, scope_id } => sockaddr::encoded(a) == seq![
                10u8,
                0,
                (port / 256) as u8,
                (port % 256) as u8,
            ] + low_first(flowinfo) + ip@ + low_first(scope_id),
        },
{
    match a {
        SockAddr::V4 { ip, port } => {
            assert(sockaddr::encoded(a) =~= seq![
                2u8,
                0,
                (port / 256) as u8,
                (port % 256) as u8,
            ] + ip@ + seq![0u8, 0, 0, 0, 0, 0, 0, 0]);
        },
        SockAddr::V6 { ip, port, flowinfo, scope_id } => {
            assert(sockaddr::encoded(a) =~= seq![
                10u8,
                0,
                (port / 256) as u8,
                (port % 256) as u8,
            ] + low_first(flowinfo) + ip@ + low_first(scope_id));
        },
    }
}

/// What is read from the kernel's bytes: the port at 2, highest byte first,
/// and the address at 4 (IPv4) or 8 (IPv6); an address counts as a mapped
/// IPv4 one exactly when ten zeros and two 255 stand in front of it.
pub proof fn law_address_is_read(ss: Seq<u8>, a: SockAddr, ip: Seq<u8>)
    requires
        ss.len() >= 28,
        ip.len() == 16,
    ensures
        sockaddr::v4_in(ss, a) ==> (a matches SockAddr::V4 { ip, port } && ip@ == ss.subrange(4, 8)
            && port == ss[2] * 256 + ss[3]),
        sockaddr::v6_in(ss, a) ==> (a matches SockAddr::V6 { ip, port, flowinfo, scope_id } && ip@
            == ss.subrange(8, 24) && port == ss[2] * 256 + ss[3] && flowinfo == ss[4] + ss[5] * 256
            + ss[6] * 65536 + ss[7] * 16777216 && scope_id == ss[24] + ss[25] * 256 + ss[26] * 65536
            + ss[27] * 16777216),
        sockaddr::v4_mapped(ip) == (ip.take(12) == seq![0u8, 0, 0, 0, 0, 0, 0, 0, 0, 0, 255, 255]),
{
    let front = seq![0u8, 0, 0, 0, 0, 0, 0, 0, 0, 0, 255, 255];
    if sockaddr::v4_mapped(ip) {
        assert(ip.take(12) =~= front);
    }
    if ip.take(12) == front {
        assert forall|i: int| 0 <= i < 10 implies #[trigger] ip[i] == 0 by {
            assert(ip.take(12)[i] == front[i]);
        }
        assert(ip.take(12)[10] == 255 && ip.take(12)[11] == 255);
    }
}

// ---------------------------------------------------------------------
// Events
// ---------------------------------------------------------------------

/// What the bits of an event say: 1 readable, 4 writable, 8 an error, 16 a
/// hang-up; the token is handed through.
pub proof fn law_event_bits(e: RawEvent)
    ensures
        reactor::event_of(e).token == e.token,
        reactor::event_of(e).readable == (e.bits % 2 == 1),
        reactor::event_of(e).writable == (e.bits / 4 % 2 == 1),
        reactor::event_of(e).error == (e.bits / 8 % 2 == 1),
        reactor::event_of(e).hang_up == (e.bits / 16 % 2 == 1),
{
    let b = e.bits;
    assert((b & 1u32 != 0) == (b % 2 == 1)) by (bit_vector);
    assert((b & 4u32 != 0) == (b / 4 % 2 == 1)) by (bit_vector);
    assert((b & 8u32 != 0) == (b / 8 % 2 == 1)) by (bit_vector);
    assert((b & 16u32 != 0) == (b / 16 % 2 == 1)) by (bit_vector);
}

/// What a poll asks for: 1 to read, 4 to write, both for both, and always 8
/// for errors and 16 for hang-ups.
pub proof fn law_poll_bits()
    ensures
        api::poll_bits(Interest::Readable) == 8 + 16 + 1,
        api::poll_bits(Interest::Writable) == 8 + 16 + 4,
        api::poll_bits(Interest::ReadableWritable) == 8 + 16 + 1 + 4,
        Interest::Readable.reads() && !Interest::Readable.writes(),
        !Interest::Writable.reads() && Interest::Writable.writes(),
        Interest::ReadableWritable.reads() && Interest::ReadableWritable.writes(),
{
}

} // verus!
