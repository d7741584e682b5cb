//! The decisions of the socket transports: which options a socket gets, how
//! batches and scattered buffers are cut, and what a kernel error means.
use vstd::prelude::*;
use crate::config::{SctpConfig, TcpConfig, UdpConfig};
use crate::sockaddr;

verus! {

/// Error numbers.
pub const ENOENT: i32 = 2;

pub const EAGAIN: i32 = 11;

pub const ENOMSG: i32 = 42;

pub const EPROTOTYPE: i32 = 91;

pub const ENOPROTOOPT: i32 = 92;

pub const EPROTONOSUPPORT: i32 = 93;

pub const EOPNOTSUPP: i32 = 95;

pub const EAFNOSUPPORT: i32 = 97;

pub const ENOTCONN: i32 = 107;

/// Option levels.
pub const SOL_SOCKET: i32 = 1;

pub const IPPROTO_TCP: i32 = 6;

pub const SOL_UDP: i32 = 17;

pub const IPPROTO_IPV6: i32 = 41;

pub const SOL_SCTP: i32 = 132;

/// Socket options.
pub const SO_REUSEADDR: i32 = 2;

pub const SO_SNDBUF: i32 = 7;

pub const SO_RCVBUF: i32 = 8;

pub const SO_REUSEPORT: i32 = 15;

pub const SO_INCOMING_CPU: i32 = 49;

pub const SO_ZEROCOPY: i32 = 60;

/// TCP options.
pub const TCP_NODELAY: i32 = 1;

pub const TCP_CORK: i32 = 3;

pub const TCP_DEFER_ACCEPT: i32 = 9;

pub const TCP_QUICKACK: i32 = 12;

pub const TCP_FASTOPEN: i32 = 23;

/// UDP options: segmentation and receive coalescing.
pub const UDP_SEGMENT: i32 = 103;

pub const UDP_GRO: i32 = 104;

/// IPv6 options.
pub const IPV6_V6ONLY: i32 = 26;

/// SCTP options.
pub const SCTP_INITMSG: i32 = 2;

pub const SCTP_NODELAY: i32 = 3;

pub const SCTP_EVENTS: i32 = 11;

pub const SCTP_PARTIAL_DELIVERY_POINT: i32 = 19;

pub const SCTP_MAX_BURST: i32 = 20;

/// Message flags: a truncated datagram, an SCTP notification.
pub const MSG_TRUNC: i32 = 0x20;

pub const MSG_NOTIFICATION: i32 = 0x8000;

/// Maximum datagrams per batch call.
pub const MAX_BATCH: usize = 64;

/// Buffers per scattered read or gathered write.
pub const IOV_CHUNK: usize = 16;

/// A receive buffer of this size fits any datagram whole.
pub const MAX_DATAGRAM: usize = 65536;

// ---------------------------------------------------------------------
// Socket options
// ---------------------------------------------------------------------

/// A failing option.
#[derive(Clone, Copy, Debug, PartialEq, Eq, Structural)]
pub enum OnError {
    /// Every failure is an error.
    Fail,
    /// A kernel without the option is tolerated.
    IgnoreUnsupported,
    /// Every failure is tolerated.
    Ignore,
}

/// The value of a socket option.
pub enum OptValue {
    /// An integer, which the kernel takes as 32 bits with a sign; a larger
    /// one is refused.
    Int(i64),
    /// A structure, by its bytes.
    Bytes(Vec<u8>),
}

/// One socket option to set.
pub struct SockOpt {
    pub level: i32,
    pub opt: i32,
    pub value: OptValue,
    pub on_error: OnError,
}

/// The value of a socket option, as mathematics.
pub enum ValueView {
    Int(int),
    Bytes(Seq<u8>),
}

/// A socket option, as mathematics.
pub struct OptView {
    pub level: i32,
    pub opt: i32,
    pub value: ValueView,
    pub on_error: OnError,
}

/// What a socket option stands for.
pub open spec fn opt_view(o: SockOpt) -> OptView {
    OptView {
        level: o.level,
        opt: o.opt,
        value: match o.value {
            OptValue::Int(n) => ValueView::Int(n as int),
            OptValue::Bytes(b) => ValueView::Bytes(b@),
        },
        on_error: o.on_error,
    }
}

/// What a list of options stands for.
pub open spec fn opt_views(v: Seq<SockOpt>) -> Seq<OptView> {
    v.map_values(|o: SockOpt| opt_view(o))
}

/// An integer option whose failure is an error.
pub open spec fn int_opt(level: i32, opt: i32, value: int) -> OptView {
    OptView { level, opt, value: ValueView::Int(value), on_error: OnError::Fail }
}

/// `o` if `on`, else nothing.
pub open spec fn when(on: bool, o: OptView) -> Seq<OptView> {
    if on {
        seq![o]
    } else {
        Seq::empty()
    }
}

/// A size clamped to what the kernel takes.
pub open spec fn clamped(n: usize) -> int {
    if n > i32::MAX {
        i32::MAX as int
    } else {
        n as int
    }
}

fn push_int(v: &mut Vec<SockOpt>, level: i32, opt: i32, value: i64)
    ensures
        opt_views(final(v)@) == opt_views(old(v)@) + seq![int_opt(level, opt, value as int)],
{
    let ghost before = opt_views(v@);
    v.push(SockOpt { level, opt, value: OptValue::Int(value), on_error: OnError::Fail });
    assert(opt_views(v@) =~= before + seq![int_opt(level, opt, value as int)]);
}

fn push_when(v: &mut Vec<SockOpt>, on: bool, level: i32, opt: i32, value: i64)
    ensures
        opt_views(final(v)@) == opt_views(old(v)@) + when(on, int_opt(level, opt, value as int)),
{
    let ghost before = opt_views(v@);
    if on {
        push_int(v, level, opt, value);
    } else {
        assert(before + when(on, int_opt(level, opt, value as int)) =~= before);
    }
}

fn clamp_size(n: usize) -> (r: i64)
    ensures
        r == clamped(n),
{
    if n > 0x7fff_ffff {
        0x7fff_ffff
    } else {
        n as i64
    }
}

/// The options of a UDP socket, in the order in which they are set, all
/// before the bind. `cpu` is the CPU that the thread runs on, negative when
/// unknown.
pub open spec fn udp_opts(cfg: UdpConfig, cpu: i32) -> Seq<OptView> {
    seq![int_opt(SOL_SOCKET, SO_REUSEADDR, 1)] + when(
        cfg.reuseport,
        int_opt(SOL_SOCKET, SO_REUSEPORT, 1),
    ) + seq![int_opt(SOL_SOCKET, SO_RCVBUF, clamped(cfg.rcvbuf))] + seq![
        int_opt(SOL_SOCKET, SO_SNDBUF, clamped(cfg.sndbuf)),
    ] + when(
        cfg.gso_segment_size > 0,
        int_opt(SOL_UDP, UDP_SEGMENT, clamped(cfg.gso_segment_size)),
    ) + when(cfg.gro, int_opt(SOL_UDP, UDP_GRO, 1)) + when(
        cfg.incoming_cpu && cpu >= 0,
        int_opt(SOL_SOCKET, SO_INCOMING_CPU, cpu as int),
    ) + when(cfg.zerocopy, int_opt(SOL_SOCKET, SO_ZEROCOPY, 1))
}

/// The options of a UDP socket.
pub fn udp_options(cfg: &UdpConfig, cpu: i32) -> (v: Vec<SockOpt>)
    ensures
        opt_views(v@) == udp_opts(*cfg, cpu),
{
    let mut v: Vec<SockOpt> = Vec::new();
    push_int(&mut v, SOL_SOCKET, SO_REUSEADDR, 1);
    push_when(&mut v, cfg.reuseport, SOL_SOCKET, SO_REUSEPORT, 1);
    push_int(&mut v, SOL_SOCKET, SO_RCVBUF, clamp_size(cfg.rcvbuf));
    push_int(&mut v, SOL_SOCKET, SO_SNDBUF, clamp_size(cfg.sndbuf));
    push_when(
        &mut v,
        cfg.gso_segment_size > 0,
        SOL_UDP,
        UDP_SEGMENT,
        clamp_size(cfg.gso_segment_size),
    );
    push_when(&mut v, cfg.gro, SOL_UDP, UDP_GRO, 1);
    push_when(&mut v, cfg.incoming_cpu && cpu >= 0, SOL_SOCKET, SO_INCOMING_CPU, cpu as i64);
    push_when(&mut v, cfg.zerocopy, SOL_SOCKET, SO_ZEROCOPY, 1);
    assert(opt_views(v@) =~= udp_opts(*cfg, cpu));
    v
}

/// A 32-bit pattern read with a sign.
pub open spec fn signed32(n: u32) -> int {
    if n < 0x8000_0000 {
        n as int
    } else {
        n - 0x1_0000_0000
    }
}

/// The options of a TCP listener: those of every socket, fast open where
/// it is configured, and for IPv6 whether IPv4 clients are shut out.
pub open spec fn listen_opts(cfg: TcpConfig, v6: bool) -> Seq<OptView> {
    seq![int_opt(SOL_SOCKET, SO_REUSEADDR, 1)] + when(
        cfg.reuseport,
        int_opt(SOL_SOCKET, SO_REUSEPORT, 1),
    ) + seq![int_opt(SOL_SOCKET, SO_RCVBUF, clamped64(cfg.rcvbuf))] + seq![
        int_opt(SOL_SOCKET, SO_SNDBUF, clamped64(cfg.sndbuf)),
    ] + when(
        cfg.fastopen > 0,
        OptView {
            level: IPPROTO_TCP,
            opt: TCP_FASTOPEN,
            value: ValueView::Int(signed32(cfg.fastopen)),
            on_error: OnError::IgnoreUnsupported,
        },
    ) + when(
        v6,
        int_opt(
            IPPROTO_IPV6,
            IPV6_V6ONLY,
            if cfg.ipv6_only {
                1
            } else {
                0
            },
        ),
    )
}

/// A size as an option value: sizes that the kernel cannot take stay too
/// large, so setting them fails.
pub open spec fn clamped64(n: usize) -> int {
    if n > 0x7fff_ffff_ffff_ffff {
        0x7fff_ffff_ffff_ffff
    } else {
        n as int
    }
}

fn size_value(n: usize) -> (r: i64)
    ensures
        r == clamped64(n),
{
    if n as u64 > 0x7fff_ffff_ffff_ffff {
        0x7fff_ffff_ffff_ffff
    } else {
        n as i64
    }
}

/// The options of a TCP listener, in the order in which they are set, all
/// before the bind.
pub fn listen_options(cfg: &TcpConfig, v6: bool) -> (v: Vec<SockOpt>)
    ensures
        opt_views(v@) == listen_opts(*cfg, v6),
{
    let mut v: Vec<SockOpt> = Vec::new();
    push_int(&mut v, SOL_SOCKET, SO_REUSEADDR, 1);
    push_when(&mut v, cfg.reuseport, SOL_SOCKET, SO_REUSEPORT, 1);
    push_int(&mut v, SOL_SOCKET, SO_RCVBUF, size_value(cfg.rcvbuf));
    push_int(&mut v, SOL_SOCKET, SO_SNDBUF, size_value(cfg.sndbuf));
    if cfg.fastopen > 0 {
        let n: i64 = if cfg.fastopen < 0x8000_0000 {
            cfg.fastopen as i64
        } else {
            cfg.fastopen as i64 - 0x1_0000_0000
        };
        v.push(
            SockOpt {
                level: IPPROTO_TCP,
                opt: TCP_FASTOPEN,
                value: OptValue::Int(n),
                on_error: OnError::IgnoreUnsupported,
            },
        );
    }
    push_when(
        &mut v,
        v6,
        IPPROTO_IPV6,
        IPV6_V6ONLY,
        if cfg.ipv6_only {
            1
        } else {
            0
        },
    );
    assert(opt_views(v@) =~= listen_opts(*cfg, v6));
    v
}

/// The options of an accepted TCP connection.
pub open spec fn stream_opts(cfg: TcpConfig) -> Seq<OptView> {
    when(cfg.nodelay, int_opt(IPPROTO_TCP, TCP_NODELAY, 1)) + when(
        cfg.quickack,
        int_opt(IPPROTO_TCP, TCP_QUICKACK, 1),
    ) + when(cfg.defer_accept, int_opt(IPPROTO_TCP, TCP_DEFER_ACCEPT, 1)) + when(
        cfg.cork,
        int_opt(IPPROTO_TCP, TCP_CORK, 1),
    )
}

/// The options of an accepted TCP connection.
pub fn stream_options(cfg: &TcpConfig) -> (v: Vec<SockOpt>)
    ensures
        opt_views(v@) == stream_opts(*cfg),
{
    let mut v: Vec<SockOpt> = Vec::new();
    push_when(&mut v, cfg.nodelay, IPPROTO_TCP, TCP_NODELAY, 1);
    push_when(&mut v, cfg.quickack, IPPROTO_TCP, TCP_QUICKACK, 1);
    push_when(&mut v, cfg.defer_accept, IPPROTO_TCP, TCP_DEFER_ACCEPT, 1);
    push_when(&mut v, cfg.cork, IPPROTO_TCP, TCP_CORK, 1);
    assert(opt_views(v@) =~= stream_opts(*cfg));
    v
}

/// The backlog of a listener: at least one.
pub fn listen_backlog(backlog: i32) -> (r: i32)
    ensures
        r == if backlog < 1 {
            1
        } else {
            backlog
        },
{
    if backlog < 1 {
        1
    } else {
        backlog
    }
}

/// `struct sctp_initmsg`: the same number of streams both ways, kernel
/// defaults for attempts and timeout.
pub open spec fn initmsg(streams: u16) -> Seq<u8> {
    sockaddr::le16_bytes(streams) + sockaddr::le16_bytes(streams) + seq![0u8, 0u8, 0u8, 0u8]
}

/// `struct sctp_event_subscribe`: message data, association and shutdown
/// events.
pub open spec fn event_mask() -> Seq<u8> {
    seq![1u8, 1u8, 0u8, 0u8, 0u8, 1u8, 0u8, 0u8, 0u8, 0u8, 0u8, 0u8, 0u8, 0u8]
}

/// The options of an SCTP socket, all before the bind.
pub open spec fn sctp_opts(cfg: SctpConfig) -> Seq<OptView> {
    seq![int_opt(SOL_SOCKET, SO_REUSEADDR, 1)] + when(
        cfg.reuseport,
        int_opt(SOL_SOCKET, SO_REUSEPORT, 1),
    ) + when(cfg.nodelay, int_opt(SOL_SCTP, SCTP_NODELAY, 1)) + seq![
        OptView {
            level: SOL_SCTP,
            opt: SCTP_INITMSG,
            value: ValueView::Bytes(initmsg(cfg.init_max_streams)),
            on_error: OnError::Fail,
        },
    ] + when(
        cfg.partial_delivery_point > 0,
        OptView {
            level: SOL_SCTP,
            opt: SCTP_PARTIAL_DELIVERY_POINT,
            value: ValueView::Bytes(sockaddr::le32_bytes(cfg.partial_delivery_point)),
            on_error: OnError::Fail,
        },
    ) + when(
        cfg.max_burst > 0,
        OptView {
            level: SOL_SCTP,
            opt: SCTP_MAX_BURST,
            value: ValueView::Bytes(sockaddr::le32_bytes(cfg.max_burst)),
            on_error: OnError::Fail,
        },
    ) + seq![
        OptView {
            level: SOL_SCTP,
            opt: SCTP_EVENTS,
            value: ValueView::Bytes(event_mask()),
            on_error: OnError::Ignore,
        },
    ]
}

fn push_bytes(v: &mut Vec<SockOpt>, opt: i32, value: Vec<u8>, on_error: OnError)
    ensures
        opt_views(final(v)@) == opt_views(old(v)@) + seq![
            OptView {
                level: SOL_SCTP,
                opt,
                value: ValueView::Bytes(value@),
                on_error,
            },
        ],
{
    let ghost before = opt_views(v@);
    v.push(SockOpt { level: SOL_SCTP, opt, value: OptValue::Bytes(value), on_error });
    assert(opt_views(v@) =~= before + seq![
        OptView { level: SOL_SCTP, opt, value: ValueView::Bytes(value@), on_error },
    ]);
}

fn le32_vec(x: u32) -> (b: Vec<u8>)
    ensures
        b@ == sockaddr::le32_bytes(x),
{
    let mut b: Vec<u8> = Vec::new();
    sockaddr::put_le32(&mut b, x);
    assert(b@ =~= sockaddr::le32_bytes(x));
    b
}

/// The options of an SCTP socket, in the order in which they are set.
pub fn sctp_options(cfg: &SctpConfig) -> (v: Vec<SockOpt>)
    ensures
        opt_views(v@) == sctp_opts(*cfg),
{
    let mut v: Vec<SockOpt> = Vec::new();
    push_int(&mut v, SOL_SOCKET, SO_REUSEADDR, 1);
    push_when(&mut v, cfg.reuseport, SOL_SOCKET, SO_REUSEPORT, 1);
    push_when(&mut v, cfg.nodelay, SOL_SCTP, SCTP_NODELAY, 1);
    let lo: u8 = (cfg.init_max_streams % 256) as u8;
    let hi: u8 = (cfg.init_max_streams / 256) as u8;
    let init: Vec<u8> = vec![lo, hi, lo, hi, 0, 0, 0, 0];
    assert(init@ =~= initmsg(cfg.init_max_streams));
    push_bytes(&mut v, SCTP_INITMSG, init, OnError::Fail);
    if cfg.partial_delivery_point > 0 {
        push_bytes(
            &mut v,
            SCTP_PARTIAL_DELIVERY_POINT,
            le32_vec(cfg.partial_delivery_point),
            OnError::Fail,
        );
    }
    if cfg.max_burst > 0 {
        push_bytes(&mut v, SCTP_MAX_BURST, le32_vec(cfg.max_burst), OnError::Fail);
    }
    let events: Vec<u8> = vec![1, 1, 0, 0, 0, 1, 0, 0, 0, 0, 0, 0, 0, 0];
    assert(events@ =~= event_mask());
    push_bytes(&mut v, SCTP_EVENTS, events, OnError::Ignore);
    assert(opt_views(v@) =~= sctp_opts(*cfg));
    v
}

// ---------------------------------------------------------------------
// Kernel errors
// ---------------------------------------------------------------------

/// Whether an error number says that the queue is momentarily empty or
/// full.
pub fn would_block(errno: i32) -> (r: bool)
    ensures
        r == (errno == EAGAIN),
{
    errno == EAGAIN
}

/// Whether an error number ends the draining of an error queue without a
/// failure.
pub fn queue_drained(errno: i32) -> (r: bool)
    ensures
        r == (errno == EAGAIN || errno == ENOENT || errno == ENOMSG),
{
    errno == EAGAIN || errno == ENOENT || errno == ENOMSG
}

/// Whether an error number says that SCTP is not supported here.
pub fn unsupported(errno: i32) -> (r: bool)
    ensures
        r == (errno == EPROTONOSUPPORT || errno == EAFNOSUPPORT || errno == EOPNOTSUPP || errno
            == ENOPROTOOPT || errno == EPROTOTYPE || errno == ENOTCONN),
{
    errno == EPROTONOSUPPORT || errno == EAFNOSUPPORT || errno == EOPNOTSUPP || errno
        == ENOPROTOOPT || errno == EPROTOTYPE || errno == ENOTCONN
}

/// Whether the failure of an option is an error.
pub fn option_failed(on_error: OnError, errno: i32) -> (r: bool)
    ensures
        r == match on_error {
            OnError::Fail => true,
            OnError::IgnoreUnsupported => errno != EOPNOTSUPP,
            OnError::Ignore => false,
        },
{
    match on_error {
        OnError::Fail => true,
        OnError::IgnoreUnsupported => errno != EOPNOTSUPP,
        OnError::Ignore => false,
    }
}

/// Whether a received SCTP message is a notification, not user data.
pub fn is_notification(msg_flags: i32) -> (r: bool)
    ensures
        r == (msg_flags & MSG_NOTIFICATION != 0),
{
    msg_flags & MSG_NOTIFICATION != 0
}

// ---------------------------------------------------------------------
// Batches
// ---------------------------------------------------------------------

/// How many datagrams one receive call asks for.
pub fn recv_batch_len(bufs: usize, out: usize) -> (n: usize)
    ensures
        n <= bufs && n <= out && n <= MAX_BATCH,
        n == bufs || n == out || n == MAX_BATCH,
{
    let mut n: usize = bufs;
    if out < n {
        n = out;
    }
    if MAX_BATCH < n {
        n = MAX_BATCH;
    }
    n
}

/// How many datagrams one send call carries.
pub fn send_batch_len(msgs: usize) -> (n: usize)
    ensures
        n == if msgs < MAX_BATCH {
            msgs
        } else {
            MAX_BATCH
        },
{
    if msgs < MAX_BATCH {
        msgs
    } else {
        MAX_BATCH
    }
}

/// The bytes of a received datagram that the buffer holds, and whether it
/// was larger than the buffer.
pub fn recv_length(msg_len: u32, capacity: usize, msg_flags: i32) -> (r: (usize, bool))
    ensures
        r.0 == if msg_len < capacity {
            msg_len as int
        } else {
            capacity as int
        },
        r.1 == (msg_flags & MSG_TRUNC != 0),
{
    let n: usize = if (msg_len as u64) < capacity as u64 {
        msg_len as usize
    } else {
        capacity
    };
    (n, msg_flags & MSG_TRUNC != 0)
}

/// What one scattered read or gathered write returned.
#[derive(Clone, Copy, Debug, PartialEq, Eq, Structural)]
pub enum IoResult {
    Bytes(usize),
    WouldBlock,
    Failed,
}

/// What a scattered transfer does next.
#[derive(Clone, Copy, Debug, PartialEq, Eq, Structural)]
pub enum ScatterStep {
    /// Transfer the buffers from `from` to before `to`.
    Transfer { from: usize, to: usize },
    /// Finished, with this many bytes.
    Done(usize),
    /// Nothing was transferred and the kernel would block.
    WouldBlock,
    /// The kernel refused.
    Failed,
}

/// A scattered transfer over many buffers, in chunks of `IOV_CHUNK`.
#[derive(Clone, Copy, Debug, PartialEq, Eq, Structural)]
pub struct Scatter {
    pub buffers: usize,
    pub at: usize,
    pub total: usize,
}

impl Scatter {
    /// The next chunk.
    pub open spec fn chunk(self) -> ScatterStep {
        if self.at < self.buffers {
            ScatterStep::Transfer {
                from: self.at,
                to: if self.buffers - self.at < IOV_CHUNK {
                    self.buffers
                } else {
                    (self.at + IOV_CHUNK) as usize
                },
            }
        } else {
            ScatterStep::Done(self.total)
        }
    }

    /// Start over `buffers` buffers.
    pub fn start(buffers: usize) -> (r: (Scatter, ScatterStep))
        ensures
            r.0 == (Scatter { buffers, at: 0, total: 0 }),
            r.1 == r.0.chunk(),
    {
        let s = Scatter { buffers, at: 0, total: 0 };
        let step = s.next_chunk();
        (s, step)
    }

    fn next_chunk(&self) -> (r: ScatterStep)
        ensures
            r == self.chunk(),
    {
        if self.at < self.buffers {
            let to: usize = if self.buffers - self.at < IOV_CHUNK {
                self.buffers
            } else {
                self.at + IOV_CHUNK
            };
            ScatterStep::Transfer { from: self.at, to }
        } else {
            ScatterStep::Done(self.total)
        }
    }

    /// Take the result of the chunk that was asked for. What was already
    /// transferred counts when the kernel would block; nothing transferred
    /// in a chunk ends the transfer.
    pub fn after(&mut self, result: IoResult) -> (r: ScatterStep)
        requires
            old(self).at < old(self).buffers,
            result matches IoResult::Bytes(n) ==> old(self).total + n <= usize::MAX,
        ensures
            match result {
                IoResult::WouldBlock => *final(self) == *old(self) && r == if old(self).total
                    > 0 {
                    ScatterStep::Done(old(self).total)
                } else {
                    ScatterStep::WouldBlock
                },
                IoResult::Failed => *final(self) == *old(self) && r == ScatterStep::Failed,
                IoResult::Bytes(n) => {
                    &&& final(self).buffers == old(self).buffers
                    &&& final(self).total == old(self).total + n
                    &&& n == 0 ==> final(self).at == old(self).at && r == ScatterStep::Done(
                        old(self).total,
                    )
                    &&& n > 0 ==> r == final(self).chunk() && old(self).chunk()
                        == (ScatterStep::Transfer { from: old(self).at, to: final(self).at })
                },
            },
    {
        match result {
            IoResult::WouldBlock => if self.total > 0 {
                ScatterStep::Done(self.total)
            } else {
                ScatterStep::WouldBlock
            },
            IoResult::Failed => ScatterStep::Failed,
            IoResult::Bytes(n) => {
                self.total = self.total + n;
                if n == 0 {
                    return ScatterStep::Done(self.total);
                }
                self.at = if self.buffers - self.at < IOV_CHUNK {
                    self.buffers
                } else {
                    self.at + IOV_CHUNK
                };
                self.next_chunk()
            },
        }
    }
}

/// A transfer makes progress: a chunk is never empty, holds at most
/// `IOV_CHUNK` buffers, and the next one starts where it ended.
pub proof fn law_scatter_chunks_cover_buffers(s: Scatter)
    requires
        s.at < s.buffers,
    ensures
        s.chunk() matches ScatterStep::Transfer { from, to } && from == s.at && from < to
            <= s.buffers && to - from <= IOV_CHUNK,
{
}

} // verus!
