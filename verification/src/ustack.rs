//! Userspace TCP: three-way handshake, software segmentation, RACK loss
//! detection (RFC 8985) and retransmission, over IPv4 and IPv6.
//!
//! One connection per endpoint: a listener accepts the first SYN, a client
//! has one active open. Frames go in through [`TcpStack::ingest`] and come
//! out of [`TcpStack::pop_tx`].
use vstd::prelude::*;
use std::collections::VecDeque;
use crate::bytes::{get_be16, get_be32, put_all, to_vec};
use crate::parse::{array16, parse_ipv4, parse_ipv6, parse_tcp};
use crate::wire::{build_tcp_v4, build_tcp_v6, wrap_v4, wrap_v6};
use vstd::slice::slice_subrange;

verus! {

/// Ethernet header length.
pub const ETH_LEN: usize = 14;

/// IPv4 header length (no options).
pub const IPV4_LEN: usize = 20;

/// IPv6 header length.
pub const IPV6_LEN: usize = 40;

/// TCP header length without options.
pub const TCP_LEN: usize = 20;

/// Default IPv4 MSS (1500 - 20 - 20).
pub const MSS_V4: usize = 1460;

/// Default IPv6 MSS (1500 - 40 - 20).
pub const MSS_V6: usize = 1440;

pub const TH_FIN: u8 = 0x01;

pub const TH_SYN: u8 = 0x02;

pub const TH_RST: u8 = 0x04;

pub const TH_PSH: u8 = 0x08;

pub const TH_ACK: u8 = 0x10;

/// Option kind: maximum segment size.
pub const OPT_MSS: u8 = 2;

/// Option kind: selective acknowledgement permitted.
pub const OPT_SACK_PERM: u8 = 4;

/// Option kind: selective acknowledgement blocks.
pub const OPT_SACK: u8 = 5;

/// Smallest RACK reordering window.
pub const REO_WND_MIN_US: u64 = 1_000;

/// Smallest retransmission timeout.
pub const RTO_MIN_US: u64 = 200_000;

/// Send buffer capacity.
pub const SND_CAP: usize = 65535;

/// Receive buffer capacity.
pub const RCV_CAP: usize = 65535;

/// SACK blocks read from one segment.
pub const MAX_SACK_BLOCKS: usize = 3;

/// Initial send sequence number of an active open.
pub const CLIENT_ISS: u32 = 1_000;

/// Initial send sequence number of a passive open.
pub const SERVER_ISS: u32 = 2_000;

/// IPv4 or IPv6 host address (no port).
#[derive(Clone, Copy, Debug, PartialEq, Eq, Hash)]
pub enum HostAddr {
    V4([u8; 4]),
    V6([u8; 16]),
}

/// A host address as its bytes.
pub enum HostView {
    V4(Seq<u8>),
    V6(Seq<u8>),
}

impl HostView {
    /// Four bytes for IPv4, sixteen for IPv6.
    pub open spec fn wf(self) -> bool {
        match self {
            HostView::V4(a) => a.len() == 4,
            HostView::V6(a) => a.len() == 16,
        }
    }
}

impl View for HostAddr {
    type V = HostView;

    open spec fn view(&self) -> HostView {
        match *self {
            HostAddr::V4(a) => HostView::V4(a@),
            HostAddr::V6(a) => HostView::V6(a@),
        }
    }
}

impl HostAddr {
    /// True for an IPv4 address.
    pub fn is_v4(self) -> (r: bool)
        ensures
            r == (self@ is V4),
    {
        matches!(self, HostAddr::V4(_))
    }

    /// True when both are the same address.
    fn same(&self, other: &HostAddr) -> (r: bool)
        ensures
            r == (self@ == other@),
    {
        match (self, other) {
            (HostAddr::V4(a), HostAddr::V4(b)) => eq_bytes(a.as_slice(), b.as_slice()),
            (HostAddr::V6(a), HostAddr::V6(b)) => eq_bytes(a.as_slice(), b.as_slice()),
            _ => false,
        }
    }
}

/// Byte-wise equality of two slices.
fn eq_bytes(a: &[u8], b: &[u8]) -> (r: bool)
    ensures
        r == (a@ == b@),
{
    if a.len() != b.len() {
        return false;
    }
    let mut i: usize = 0;
    while i < a.len()
        invariant
            i <= a@.len(),
            a@.len() == b@.len(),
            forall|j: int| 0 <= j < i ==> a@[j] == b@[j],
        decreases a@.len() - i,
    {
        if a[i] != b[i] {
            return false;
        }
        i += 1;
    }
    assert(a@ =~= b@);
    true
}

/// TCP state (RFC 793 subset).
#[derive(Clone, Copy, Debug, PartialEq, Eq, Structural)]
pub enum TcpState {
    Closed,
    Listen,
    SynSent,
    SynReceived,
    Established,
}

/// RACK state (RFC 8985 section 7).
#[derive(Clone, Copy, Debug, PartialEq, Eq, Structural)]
pub struct Rack {
    pub xmit_ts_us: u64,
    pub end_seq: u32,
    pub rtt_us: u64,
    pub min_rtt_us: u64,
}

/// One in-flight segment (the RACK scoreboard).
struct TxSeg {
    seq: u32,
    data: Vec<u8>,
    xmit_ts_us: u64,
    sacked: bool,
    lost: bool,
}

/// An in-flight segment as a value.
pub struct SegView {
    pub seq: u32,
    pub data: Seq<u8>,
    pub xmit_ts_us: u64,
    pub sacked: bool,
    pub lost: bool,
}

impl TxSeg {
    spec fn view(self) -> SegView {
        SegView {
            seq: self.seq,
            data: self.data@,
            xmit_ts_us: self.xmit_ts_us,
            sacked: self.sacked,
            lost: self.lost,
        }
    }

    /// The sequence number after the segment's last byte.
    fn end(&self) -> (r: u32)
        ensures
            r == seg_end(self.view()),
    {
        self.seq.wrapping_add(self.data.len() as u32)
    }
}

spec fn seg_views(s: Seq<TxSeg>) -> Seq<SegView> {
    s.map_values(|t: TxSeg| t.view())
}

/// One connection.
struct Pcb {
    state: TcpState,
    remote_mac: [u8; 6],
    remote: HostAddr,
    remote_port: u16,
    snd_una: u32,
    snd_nxt: u32,
    rcv_nxt: u32,
    mss: usize,
    iss: u32,
    irs: u32,
    inflight: Vec<TxSeg>,
    tx_app: Vec<u8>,
    rx_app: Vec<u8>,
    rack: Rack,
}

/// A connection as a value.
pub struct PcbView {
    pub state: TcpState,
    pub remote_mac: Seq<u8>,
    pub remote: HostView,
    pub remote_port: u16,
    pub snd_una: u32,
    pub snd_nxt: u32,
    pub rcv_nxt: u32,
    pub mss: nat,
    pub iss: u32,
    pub irs: u32,
    pub inflight: Seq<SegView>,
    pub tx_app: Seq<u8>,
    pub rx_app: Seq<u8>,
    pub rack: Rack,
}

impl PcbView {
    /// The bounds that a connection keeps at every moment.
    pub open spec fn bounded(self) -> bool {
        &&& self.remote_mac.len() == 6
        &&& self.remote.wf()
        &&& 0 < self.mss <= 1460
        &&& self.tx_app.len() <= SND_CAP
        &&& self.rx_app.len() <= RCV_CAP
        &&& forall|i: int| 0 <= i < self.inflight.len() ==> self.inflight[i].data.len() <= 1460
    }

    /// What holds of a connection between calls: it is opening or open, its
    /// segment size is that of its address family, and nothing waits to be
    /// sent or sent again.
    pub open spec fn wf(self) -> bool {
        &&& self.bounded()
        &&& self.state != TcpState::Closed
        &&& self.state != TcpState::Listen
        &&& self.mss == mss_for(self.remote)
        &&& self.tx_app.len() == 0
        &&& forall|i: int| 0 <= i < self.inflight.len() ==> !(#[trigger] self.inflight[i]).lost
    }
}

impl Pcb {
    spec fn view(self) -> PcbView {
        PcbView {
            state: self.state,
            remote_mac: self.remote_mac@,
            remote: self.remote@,
            remote_port: self.remote_port,
            snd_una: self.snd_una,
            snd_nxt: self.snd_nxt,
            rcv_nxt: self.rcv_nxt,
            mss: self.mss as nat,
            iss: self.iss,
            irs: self.irs,
            inflight: seg_views(self.inflight@),
            tx_app: self.tx_app@,
            rx_app: self.rx_app@,
            rack: self.rack,
        }
    }
}

/// Userspace TCP endpoint.
pub struct TcpStack {
    mac: [u8; 6],
    local: HostAddr,
    local_port: u16,
    now_us: u64,
    ip_id: u16,
    listen: bool,
    pcb: Option<Pcb>,
    txq: VecDeque<Vec<u8>>,
}

/// An endpoint as a value.
pub struct StackView {
    pub mac: Seq<u8>,
    pub local: HostView,
    pub local_port: u16,
    pub now_us: u64,
    pub ip_id: u16,
    pub listen: bool,
    pub pcb: Option<PcbView>,
    pub txq: Seq<Seq<u8>>,
}

impl StackView {
    /// The bounds that an endpoint keeps at every moment.
    pub open spec fn bounded(self) -> bool {
        &&& self.mac.len() == 6
        &&& self.local.wf()
        &&& (self.pcb matches Some(p) ==> p.bounded())
    }

    /// What holds of an endpoint between calls: its connection's part, and
    /// every queued frame is one that a receiver accepts.
    pub open spec fn wf(self) -> bool {
        &&& self.mac.len() == 6
        &&& self.local.wf()
        &&& (self.pcb matches Some(p) ==> p.wf())
        &&& forall|i: int| 0 <= i < self.txq.len() ==> sound_frame(#[trigger] self.txq[i])
    }

    /// The endpoint and its peer are IPv4, and so is every queued frame.
    pub open spec fn v4_only(self) -> bool {
        &&& self.local is V4
        &&& (self.pcb matches Some(p) ==> p.remote is V4)
        &&& forall|i: int| 0 <= i < self.txq.len() ==> sound_v4(#[trigger] self.txq[i])
    }
}

/// An IPv4 frame that parses back: a whole TCP packet whose two checksums
/// fold to zero.
#[verifier::opaque]
pub open spec fn sound_v4(f: Seq<u8>) -> bool {
    let ip = f.skip(14);
    &&& f.len() >= 54
    &&& crate::bytes::be16_at(f, 12) == 0x0800
    &&& crate::parse::ipv4_error(ip) is None
    &&& ip[9] == 6
    &&& crate::bytes::be16_at(ip, 2) == f.len() - 14
    &&& crate::simd::checksum_of(crate::simd::word_sum(f.subrange(14, 34))) == 0
    &&& crate::parse::tcp_error(f.skip(34)) is None
    &&& crate::simd::checksum_of(
        crate::checksum::pseudo_v4(
            ip.subrange(12, 16),
            ip.subrange(16, 20),
            6,
            (f.len() - 34) as nat,
        ) + crate::simd::word_sum(f.skip(34)),
    ) == 0
}

/// An IPv6 frame that parses back: a whole TCP packet whose checksum folds
/// to zero.
#[verifier::opaque]
pub open spec fn sound_v6(f: Seq<u8>) -> bool {
    let ip = f.skip(14);
    &&& f.len() >= 74
    &&& crate::bytes::be16_at(f, 12) == 0x86dd
    &&& crate::parse::ipv6_error(ip) is None
    &&& ip[6] == 6
    &&& crate::bytes::be16_at(ip, 4) == f.len() - 54
    &&& crate::parse::tcp_error(f.skip(54)) is None
    &&& crate::simd::checksum_of(
        crate::checksum::pseudo_v6(
            ip.subrange(8, 24),
            ip.subrange(24, 40),
            6,
            (f.len() - 54) as nat,
        ) + crate::simd::word_sum(f.skip(54)),
    ) == 0
}

/// A frame as an endpoint queues it; empty where its own address and its
/// peer's are of different families.
pub open spec fn sound_frame(f: Seq<u8>) -> bool {
    f.len() == 0 || sound_v4(f) || sound_v6(f)
}

impl View for TcpStack {
    type V = StackView;

    closed spec fn view(&self) -> StackView {
        StackView {
            mac: self.mac@,
            local: self.local@,
            local_port: self.local_port,
            now_us: self.now_us,
            ip_id: self.ip_id,
            listen: self.listen,
            pcb: match self.pcb {
                Some(p) => Some(p.view()),
                None => None,
            },
            txq: self.txq@.map_values(|f: Vec<u8>| f@),
        }
    }
}

// ---------------------------------------------------------------------
// Sequence numbers
// ---------------------------------------------------------------------

/// Serial-number order (RFC 1982): `b` lies at most half the number space
/// ahead of `a`.
pub open spec fn before(a: u32, b: u32) -> bool {
    0 < (b - a) % 0x1_0000_0000 <= 0x8000_0000
}

/// `a < b` in serial-number order.
pub fn seq_lt(a: u32, b: u32) -> (r: bool)
    ensures
        r == before(a, b),
{
    a.wrapping_sub(b) > 0x7fff_ffff && a != b
}

/// `a <= b` in serial-number order.
pub fn seq_leq(a: u32, b: u32) -> (r: bool)
    ensures
        r == (a == b || before(a, b)),
{
    a == b || seq_lt(a, b)
}

/// `a > b` in serial-number order.
pub fn seq_gt(a: u32, b: u32) -> (r: bool)
    ensures
        r == before(b, a),
{
    seq_lt(b, a)
}

/// `a >= b` in serial-number order.
pub fn seq_geq(a: u32, b: u32) -> (r: bool)
    ensures
        r == (a == b || before(b, a)),
{
    a == b || seq_gt(a, b)
}

// ---------------------------------------------------------------------
// Segmentation
// ---------------------------------------------------------------------

/// `data` cut into pieces of at most `mss` bytes, each with the sequence
/// number of its first byte.
pub open spec fn chopped(mss: nat, seq: u32, data: Seq<u8>) -> Seq<(u32, Seq<u8>)>
    decreases data.len(),
{
    if data.len() == 0 || mss == 0 {
        Seq::empty()
    } else {
        let n = if data.len() < mss {
            data.len()
        } else {
            mss
        };
        seq![(seq, data.take(n as int))] + chopped(
            mss,
            seq.wrapping_add(n as u32),
            data.skip(n as int),
        )
    }
}

/// Software segmentation: cut `data` into MSS-sized pieces starting at
/// `seq`. An MSS of zero counts as one.
pub fn tso_chop(mss: usize, seq: u32, data: &[u8]) -> (out: Vec<(u32, &[u8])>)
    ensures
        out@.map_values(|c: (u32, &[u8])| (c.0, c.1@)) == chopped(
            if mss == 0 {
                1
            } else {
                mss as nat
            },
            seq,
            data@,
        ),
{
    let mss: usize = if mss == 0 {
        1
    } else {
        mss
    };
    let mut out: Vec<(u32, &[u8])> = Vec::new();
    let mut off: usize = 0;
    let mut s: u32 = seq;
    let ghost f = |c: (u32, &[u8])| (c.0, c.1@);
    assert(data@.skip(0) =~= data@);
    assert(out@.map_values(f) + chopped(mss as nat, s, data@) =~= chopped(mss as nat, seq, data@));
    while off < data.len()
        invariant
            mss > 0,
            off <= data@.len(),
            f == (|c: (u32, &[u8])| (c.0, c.1@)),
            out@.map_values(f) + chopped(mss as nat, s, data@.skip(off as int)) == chopped(
                mss as nat,
                seq,
                data@,
            ),
        decreases data@.len() - off,
    {
        let left: usize = data.len() - off;
        let n: usize = if left < mss {
            left
        } else {
            mss
        };
        let piece = slice_subrange(data, off, off + n);
        let ghost before_out = out@;
        let ghost rest = data@.skip(off as int);
        out.push((s, piece));
        proof {
            assert(piece@ =~= rest.take(n as int));
            assert(rest.skip(n as int) =~= data@.skip(off + n));
            assert(out@.map_values(f) =~= before_out.map_values(f).push((s, piece@)));
            assert(out@.map_values(f) + chopped(
                mss as nat,
                s.wrapping_add(n as u32),
                data@.skip(off + n),
            ) =~= before_out.map_values(f) + chopped(mss as nat, s, rest));
        }
        s = s.wrapping_add(n as u32);
        off += n;
    }
    assert(out@.map_values(f) + chopped(mss as nat, s, data@.skip(off as int)) =~= out@.map_values(
        f,
    ));
    out
}

// ---------------------------------------------------------------------
// TCP options
// ---------------------------------------------------------------------

/// The pairs of sequence numbers in the body of a SACK option.
pub open spec fn sack_pairs(body: Seq<u8>) -> Seq<(u32, u32)>
    decreases body.len(),
{
    if body.len() < 8 {
        Seq::empty()
    } else {
        seq![
            (
                crate::bytes::be32_at(body, 0) as u32,
                crate::bytes::be32_at(body, 4) as u32,
            ),
        ] + sack_pairs(body.skip(8))
    }
}

/// All SACK pairs of an option list, read until its end marker or the
/// first malformed option.
pub open spec fn option_sacks(opts: Seq<u8>) -> Seq<(u32, u32)>
    decreases opts.len(),
{
    if opts.len() == 0 || opts[0] == 0 {
        Seq::empty()
    } else if opts[0] == 1 {
        option_sacks(opts.skip(1))
    } else if opts.len() < 2 || opts[1] < 2 || opts[1] > opts.len() {
        Seq::empty()
    } else {
        (if opts[0] == OPT_SACK {
            sack_pairs(opts.subrange(2, opts[1] as int))
        } else {
            Seq::empty()
        }) + option_sacks(opts.skip(opts[1] as int))
    }
}

/// The first `n` elements, or all of them.
pub open spec fn first_n(s: Seq<(u32, u32)>, n: int) -> Seq<(u32, u32)> {
    if s.len() <= n {
        s
    } else {
        s.take(n)
    }
}

proof fn lemma_first_n_full(a: Seq<(u32, u32)>, b: Seq<(u32, u32)>, n: int)
    requires
        a.len() == n,
    ensures
        first_n(a + b, n) == a,
{
    assert(first_n(a + b, n) =~= a);
}

/// Read at most [`MAX_SACK_BLOCKS`] SACK blocks from a segment's options.
pub fn parse_sack(opts: &[u8]) -> (out: Vec<(u32, u32)>)
    ensures
        out@ == first_n(option_sacks(opts@), 3),
{
    let mut i: usize = 0;
    let mut out: Vec<(u32, u32)> = Vec::new();
    let n: usize = opts.len();
    proof {
        assert(opts@.skip(0) =~= opts@);
        assert(out@ + option_sacks(opts@) =~= option_sacks(opts@));
    }
    while i < n
        invariant_except_break
            n == opts@.len(),
            i <= n,
            out@.len() <= 3,
            first_n(out@ + option_sacks(opts@.skip(i as int)), 3) == first_n(
                option_sacks(opts@),
                3,
            ),
        ensures
            out@ == first_n(option_sacks(opts@), 3),
        decreases n - i,
    {
        let ghost here = opts@.skip(i as int);
        let kind: u8 = opts[i];
        assert(kind == here[0]);
        if kind == 0 {
            assert(out@ + option_sacks(here) =~= out@);
            break;
        }
        if kind == 1 {
            assert(here.skip(1) =~= opts@.skip(i + 1));
            i += 1;
            if i == n {
                assert(out@ + option_sacks(opts@.skip(i as int)) =~= out@);
            }
            continue;
        }
        if n - i < 2 {
            assert(out@ + option_sacks(here) =~= out@);
            break;
        }
        let len: usize = opts[i + 1] as usize;
        assert(len == here[1]);
        if len < 2 || len > n - i {
            assert(out@ + option_sacks(here) =~= out@);
            break;
        }
        let ghost rest = option_sacks(here.skip(len as int));
        assert(here.skip(len as int) =~= opts@.skip(i + len));
        if kind == OPT_SACK {
            let mut o: usize = i + 2;
            let end: usize = i + len;
            let ghost body = here.subrange(2, len as int);
            proof {
                assert(body =~= opts@.subrange(o as int, end as int));
                assert(out@ + option_sacks(here) =~= out@ + sack_pairs(body) + rest);
            }
            while end - o >= 8 && out.len() < MAX_SACK_BLOCKS
                invariant
                    n == opts@.len(),
                    o <= end <= n,
                    out@.len() <= 3,
                    first_n(
                        out@ + sack_pairs(opts@.subrange(o as int, end as int)) + rest,
                        3,
                    ) == first_n(option_sacks(opts@), 3),
                decreases end - o,
            {
                let ghost had = out@;
                let ghost sub = opts@.subrange(o as int, end as int);
                let left: u32 = get_be32(opts, o);
                let right: u32 = get_be32(opts, o + 4);
                out.push((left, right));
                proof {
                    assert(sub.skip(8) =~= opts@.subrange(o + 8, end as int));
                    assert(had + sack_pairs(sub) =~= out@ + sack_pairs(sub.skip(8)));
                }
                o += 8;
            }
            proof {
                let sub = opts@.subrange(o as int, end as int);
                if out@.len() == 3 {
                    lemma_first_n_full(out@, sack_pairs(sub) + rest, 3);
                    lemma_first_n_full(out@, rest, 3);
                    assert(out@ + sack_pairs(sub) + rest =~= out@ + (sack_pairs(sub) + rest));
                } else {
                    assert(out@ + sack_pairs(sub) + rest =~= out@ + rest);
                }
            }
        } else {
            assert(out@ + option_sacks(here) =~= out@ + rest);
        }
        i += len;
        if i == n {
            assert(out@ + option_sacks(opts@.skip(i as int)) =~= out@);
        }
    }
    out
}

// ---------------------------------------------------------------------
// RACK
// ---------------------------------------------------------------------

/// The sequence number after a segment's last byte.
pub open spec fn seg_end(s: SegView) -> u32 {
    s.seq.wrapping_add(s.data.len() as u32)
}

/// Microseconds from `since` to `now`, zero if the clock ran backwards.
pub open spec fn elapsed(now: u64, since: u64) -> int {
    if now >= since {
        now - since
    } else {
        0
    }
}

/// The RACK state after the delivery of `seg` is learnt at `now`: the
/// round-trip time of that delivery, the smallest one seen, and the
/// farthest segment known delivered.
pub open spec fn rack_after(rack: Rack, now: u64, seg: SegView) -> Rack {
    let rtt = elapsed(now, seg.xmit_ts_us) as u64;
    let newer = before(rack.end_seq, seg_end(seg)) || rack.xmit_ts_us == 0;
    Rack {
        rtt_us: if rtt > 0 {
            rtt
        } else {
            rack.rtt_us
        },
        min_rtt_us: if rtt > 0 && (rack.min_rtt_us == 0 || rtt < rack.min_rtt_us) {
            rtt
        } else {
            rack.min_rtt_us
        },
        xmit_ts_us: if newer {
            seg.xmit_ts_us
        } else {
            rack.xmit_ts_us
        },
        end_seq: if newer {
            seg_end(seg)
        } else {
            rack.end_seq
        },
    }
}

/// RACK's reordering window: a quarter of the smallest round trip, at
/// least a millisecond.
pub open spec fn reo_wnd(min_rtt_us: u64) -> int {
    if min_rtt_us / 4 > REO_WND_MIN_US {
        (min_rtt_us / 4) as int
    } else {
        REO_WND_MIN_US as int
    }
}

/// The retransmission timeout: twice the round trip, at least
/// [`RTO_MIN_US`].
pub open spec fn rto(rtt_us: u64) -> int {
    let twice = if 2 * rtt_us > u64::MAX {
        u64::MAX as int
    } else {
        2 * rtt_us
    };
    if twice > RTO_MIN_US {
        twice
    } else {
        RTO_MIN_US as int
    }
}

/// A segment counts as lost when a later one was delivered and it is
/// overdue by a round trip plus the reordering window, or when it has
/// waited a whole retransmission timeout.
pub open spec fn overdue(rack: Rack, now: u64, seg: SegView) -> bool {
    let waited = elapsed(now, seg.xmit_ts_us);
    let deadline = if rack.rtt_us + reo_wnd(rack.min_rtt_us) > u64::MAX {
        u64::MAX as int
    } else {
        rack.rtt_us + reo_wnd(rack.min_rtt_us)
    };
    ||| {
        &&& rack.rtt_us > 0
        &&& !seg.sacked
        &&& seg_end(seg) != rack.end_seq
        &&& !before(rack.end_seq, seg_end(seg))
        &&& waited >= deadline
    }
    ||| waited >= rto(rack.rtt_us)
}

/// The scoreboard entry after loss detection.
pub open spec fn marked(rack: Rack, now: u64, seg: SegView) -> SegView {
    SegView { lost: seg.lost || overdue(rack, now, seg), ..seg }
}

/// The whole scoreboard after loss detection.
pub open spec fn all_marked(rack: Rack, now: u64, segs: Seq<SegView>) -> Seq<SegView> {
    segs.map_values(|s: SegView| marked(rack, now, s))
}

/// How many segments, from entry `i` on, a cumulative `ack` covers in a
/// row; the result is the index of the first uncovered one.
pub open spec fn acked_to(segs: Seq<SegView>, ack: u32, i: nat) -> nat
    decreases segs.len() - i,
{
    if i < segs.len() && (seg_end(segs[i as int]) == ack || before(seg_end(segs[i as int]), ack)) {
        acked_to(segs, ack, i + 1)
    } else {
        i
    }
}

/// The RACK state after the first `k` segments were delivered.
pub open spec fn rack_acked(rack: Rack, now: u64, segs: Seq<SegView>, k: nat) -> Rack
    decreases k,
{
    if k == 0 {
        rack
    } else {
        rack_after(rack_acked(rack, now, segs, (k - 1) as nat), now, segs[k - 1])
    }
}

/// `seg` lies inside the SACK block `[left, right)` and was not known
/// delivered before.
pub open spec fn newly_sacked(seg: SegView, block: (u32, u32)) -> bool {
    &&& (seg.seq == block.0 || before(block.0, seg.seq))
    &&& (seg_end(seg) == block.1 || before(seg_end(seg), block.1))
    &&& !seg.sacked
}

/// The scoreboard after one SACK block.
pub open spec fn sacked_by(segs: Seq<SegView>, block: (u32, u32)) -> Seq<SegView> {
    segs.map_values(
        |s: SegView|
            if newly_sacked(s, block) {
                SegView { sacked: true, ..s }
            } else {
                s
            },
    )
}

/// The RACK state after the newly sacked among the first `k` segments.
pub open spec fn rack_sacked(
    rack: Rack,
    now: u64,
    segs: Seq<SegView>,
    block: (u32, u32),
    k: nat,
) -> Rack
    decreases k,
{
    if k == 0 {
        rack
    } else {
        let r = rack_sacked(rack, now, segs, block, (k - 1) as nat);
        if newly_sacked(segs[k - 1], block) {
            rack_after(r, now, segs[k - 1])
        } else {
            r
        }
    }
}

/// RACK state and scoreboard after the first `k` SACK blocks.
pub open spec fn sacked_all(
    rack: Rack,
    now: u64,
    segs: Seq<SegView>,
    blocks: Seq<(u32, u32)>,
    k: nat,
) -> (Rack, Seq<SegView>)
    decreases k,
{
    if k == 0 {
        (rack, segs)
    } else {
        let (r, s) = sacked_all(rack, now, segs, blocks, (k - 1) as nat);
        (rack_sacked(r, now, s, blocks[k - 1], s.len()), sacked_by(s, blocks[k - 1]))
    }
}

/// A scoreboard entry after retransmission at `now`.
pub open spec fn resent(now: u64, seg: SegView) -> SegView {
    if seg.lost {
        SegView { lost: false, sacked: false, xmit_ts_us: now, ..seg }
    } else {
        seg
    }
}

/// The lost segments among the first `k`, in order.
pub open spec fn lost_chunks(segs: Seq<SegView>, k: nat) -> Seq<(u32, Seq<u8>)>
    decreases k,
{
    if k == 0 {
        Seq::empty()
    } else if segs[k - 1].lost {
        lost_chunks(segs, (k - 1) as nat).push((segs[k - 1].seq, segs[k - 1].data))
    } else {
        lost_chunks(segs, (k - 1) as nat)
    }
}

// ---------------------------------------------------------------------
// The state machine
// ---------------------------------------------------------------------

/// True when `flags` holds the flag `bit`.
pub open spec fn flag_set(flags: u8, bit: u8) -> bool {
    flags & bit != 0
}

/// The segment size towards a host.
pub open spec fn mss_for(host: HostView) -> nat {
    if host is V4 {
        MSS_V4 as nat
    } else {
        MSS_V6 as nat
    }
}

/// The options of a SYN: segment size, SACK permitted, padding.
pub open spec fn syn_options(host: HostView) -> Seq<u8> {
    seq![
        OPT_MSS,
        4u8,
        (mss_for(host) / 256) as u8,
        (mss_for(host) % 256) as u8,
        OPT_SACK_PERM,
        2u8,
        1u8,
        1u8,
    ]
}

/// The frame that carries one segment from `st` to a peer; empty when the
/// two addresses are of different families.
pub open spec fn segment_frame(
    st: StackView,
    dst_mac: Seq<u8>,
    dst: HostView,
    dst_port: u16,
    seq: u32,
    ack: u32,
    flags: u8,
    opts: Seq<u8>,
    payload: Seq<u8>,
) -> Seq<u8> {
    match (st.local, dst) {
        (HostView::V4(s), HostView::V4(d)) => crate::wire::ipv4_frame(
            dst_mac,
            st.mac,
            s,
            d,
            st.ip_id,
            crate::wire::tcp_over_v4(s, d, st.local_port, dst_port, seq, ack, flags, opts, payload),
        ),
        (HostView::V6(s), HostView::V6(d)) => crate::wire::ipv6_frame(
            dst_mac,
            st.mac,
            s,
            d,
            crate::wire::tcp_over_v6(s, d, st.local_port, dst_port, seq, ack, flags, opts, payload),
        ),
        _ => Seq::empty(),
    }
}

/// The identification counter moves with each IPv4 frame.
pub open spec fn next_ip_id(st: StackView, dst: HostView) -> u16 {
    if st.local is V4 && dst is V4 {
        st.ip_id.wrapping_add(1)
    } else {
        st.ip_id
    }
}

/// The endpoint after queueing one segment.
pub open spec fn sent(
    st: StackView,
    dst_mac: Seq<u8>,
    dst: HostView,
    dst_port: u16,
    seq: u32,
    ack: u32,
    flags: u8,
    opts: Seq<u8>,
    payload: Seq<u8>,
) -> StackView {
    StackView {
        ip_id: next_ip_id(st, dst),
        txq: st.txq.push(
            segment_frame(st, dst_mac, dst, dst_port, seq, ack, flags, opts, payload),
        ),
        ..st
    }
}

/// The endpoint after queueing a control segment of its connection.
pub open spec fn control_sent(st: StackView, flags: u8, with_mss: bool) -> StackView {
    match st.pcb {
        None => st,
        Some(p) => sent(
            st,
            p.remote_mac,
            p.remote,
            p.remote_port,
            if flag_set(flags, TH_SYN) {
                p.iss
            } else {
                p.snd_nxt
            },
            p.rcv_nxt,
            flags,
            if with_mss {
                syn_options(p.remote)
            } else {
                Seq::empty()
            },
            Seq::empty(),
        ),
    }
}

/// The endpoint after queueing the first `k` data chunks for `p`'s peer.
pub open spec fn chunks_sent(
    st: StackView,
    p: PcbView,
    chunks: Seq<(u32, Seq<u8>)>,
    k: nat,
) -> StackView
    decreases k,
{
    if k == 0 {
        st
    } else {
        sent(
            chunks_sent(st, p, chunks, (k - 1) as nat),
            p.remote_mac,
            p.remote,
            p.remote_port,
            chunks[k - 1].0,
            p.rcv_nxt,
            TH_ACK | TH_PSH,
            Seq::empty(),
            chunks[k - 1].1,
        )
    }
}

/// Loss detection at the endpoint's clock.
pub open spec fn detected(st: StackView) -> StackView {
    match st.pcb {
        None => st,
        Some(p) => StackView {
            pcb: Some(PcbView { inflight: all_marked(p.rack, st.now_us, p.inflight), ..p }),
            ..st
        },
    }
}

/// Retransmission of every segment marked lost.
pub open spec fn retransmitted(st: StackView) -> StackView {
    match st.pcb {
        None => st,
        Some(p) => {
            let chunks = lost_chunks(p.inflight, p.inflight.len());
            chunks_sent(
                StackView {
                    pcb: Some(
                        PcbView {
                            inflight: p.inflight.map_values(|s: SegView| resent(st.now_us, s)),
                            ..p
                        },
                    ),
                    ..st
                },
                p,
                chunks,
                chunks.len(),
            )
        },
    }
}

/// The scoreboard entry of a chunk sent at `now`.
pub open spec fn fresh_seg(now: u64, chunk: (u32, Seq<u8>)) -> SegView {
    SegView { seq: chunk.0, data: chunk.1, xmit_ts_us: now, sacked: false, lost: false }
}

/// Transmission of everything the application has queued.
pub open spec fn flushed(st: StackView) -> StackView {
    match st.pcb {
        None => st,
        Some(p) => if p.state != TcpState::Established || p.tx_app.len() == 0 {
            st
        } else {
            let chunks = chopped(p.mss, p.snd_nxt, p.tx_app);
            let q = PcbView {
                snd_nxt: p.snd_nxt.wrapping_add(p.tx_app.len() as u32),
                inflight: p.inflight + chunks.map_values(
                    |c: (u32, Seq<u8>)| fresh_seg(st.now_us, c),
                ),
                tx_app: Seq::empty(),
                ..p
            };
            chunks_sent(StackView { pcb: Some(q), ..st }, q, chunks, chunks.len())
        },
    }
}

/// A connection after a valid acknowledgement and its SACK blocks.
pub open spec fn pcb_acked(p: PcbView, now: u64, ack: u32, sacks: Seq<(u32, u32)>) -> PcbView {
    let k = acked_to(p.inflight, ack, 0);
    let (rack, segs) = sacked_all(
        rack_acked(p.rack, now, p.inflight, k),
        now,
        p.inflight.skip(k as int),
        sacks,
        sacks.len(),
    );
    PcbView {
        snd_una: if before(p.snd_una, ack) {
            ack
        } else {
            p.snd_una
        },
        inflight: segs,
        rack,
        ..p
    }
}

/// The endpoint after an acknowledgement: one of data never sent is
/// ignored, any other updates the scoreboard and repairs losses.
pub open spec fn acked(st: StackView, ack: u32, sacks: Seq<(u32, u32)>) -> StackView {
    match st.pcb {
        None => st,
        Some(p) => if before(p.snd_nxt, ack) {
            st
        } else {
            retransmitted(
                detected(StackView { pcb: Some(pcb_acked(p, st.now_us, ack, sacks)), ..st }),
            )
        },
    }
}

/// The connection a listener opens on a SYN.
pub open spec fn passive_open(
    src: HostView,
    src_mac: Seq<u8>,
    h: crate::parse::TcpHeader,
) -> PcbView {
    PcbView {
        state: TcpState::SynReceived,
        remote_mac: src_mac,
        remote: src,
        remote_port: h.src_port,
        snd_una: SERVER_ISS,
        snd_nxt: SERVER_ISS.wrapping_add(1),
        rcv_nxt: h.seq.wrapping_add(1),
        mss: mss_for(src),
        iss: SERVER_ISS,
        irs: h.seq,
        inflight: Seq::empty(),
        tx_app: Seq::empty(),
        rx_app: Seq::empty(),
        rack: no_rack(),
    }
}

/// The RACK state before any delivery.
pub open spec fn no_rack() -> Rack {
    Rack { xmit_ts_us: 0, end_seq: 0, rtt_us: 0, min_rtt_us: 0 }
}

/// The connection an active open starts.
pub open spec fn active_open(mac: Seq<u8>, remote: HostView, port: u16) -> PcbView {
    PcbView {
        state: TcpState::SynSent,
        remote_mac: mac,
        remote,
        remote_port: port,
        snd_una: CLIENT_ISS,
        snd_nxt: CLIENT_ISS.wrapping_add(1),
        rcv_nxt: 0,
        mss: mss_for(remote),
        iss: CLIENT_ISS,
        irs: 0,
        inflight: Seq::empty(),
        tx_app: Seq::empty(),
        rx_app: Seq::empty(),
        rack: no_rack(),
    }
}

/// The handshake's part of a segment: the connection after it, or `None`
/// when the segment does not fit the state.
pub open spec fn handshaken(p: PcbView, h: crate::parse::TcpHeader) -> Option<PcbView> {
    let acks_syn = h.ack == p.iss.wrapping_add(1) || before(p.iss.wrapping_add(1), h.ack);
    match p.state {
        TcpState::SynSent => if flag_set(h.flags, TH_SYN) && flag_set(h.flags, TH_ACK) {
            let q = PcbView { irs: h.seq, rcv_nxt: h.seq.wrapping_add(1), ..p };
            Some(
                if acks_syn {
                    PcbView { snd_una: h.ack, state: TcpState::Established, ..q }
                } else {
                    q
                },
            )
        } else {
            None
        },
        TcpState::SynReceived => if flag_set(h.flags, TH_ACK) {
            Some(
                if acks_syn {
                    PcbView { snd_una: h.ack, state: TcpState::Established, ..p }
                } else {
                    p
                },
            )
        } else {
            None
        },
        TcpState::Established => Some(p),
        _ => None,
    }
}

/// In-order payload goes to the application, as much as its buffer holds,
/// and is acknowledged; anything else is not taken.
pub open spec fn delivered(st: StackView, seq: u32, payload: Seq<u8>) -> StackView {
    match st.pcb {
        None => st,
        Some(p) => if payload.len() == 0 || seq != p.rcv_nxt {
            st
        } else {
            let n = room_for(payload.len(), p.rx_app.len());
            control_sent(
                StackView {
                    pcb: Some(
                        PcbView {
                            rx_app: p.rx_app + payload.take(n),
                            rcv_nxt: p.rcv_nxt.wrapping_add(n as u32),
                            ..p
                        },
                    ),
                    ..st
                },
                TH_ACK,
                false,
            )
        },
    }
}

/// How many of `want` bytes a 65535-byte buffer holding `held` can take.
pub open spec fn room_for(want: nat, held: nat) -> int {
    if held >= 65535 {
        0
    } else if want <= 65535 - held {
        want as int
    } else {
        65535 - held
    }
}

/// The endpoint after one TCP segment from `src`.
pub open spec fn segment_in(st: StackView, src: HostView, src_mac: Seq<u8>, seg: Seq<u8>) -> StackView {
    let h = crate::parse::tcp_of(seg);
    let syn_ack = flag_set(h.flags, TH_SYN) && flag_set(h.flags, TH_ACK);
    let doff = h.data_offset * 4;
    if crate::parse::tcp_error(seg) is Some || h.dst_port != st.local_port {
        st
    } else {
        match st.pcb {
            None => if st.listen && flag_set(h.flags, TH_SYN) && !flag_set(h.flags, TH_ACK) {
                control_sent(
                    StackView { pcb: Some(passive_open(src, src_mac, h)), ..st },
                    TH_SYN | TH_ACK,
                    true,
                )
            } else {
                st
            },
            Some(p) => if p.remote != src || p.remote_port != h.src_port {
                st
            } else {
                match handshaken(p, h) {
                    None => st,
                    Some(q) => {
                        let st1 = StackView { pcb: Some(q), ..st };
                        if q.state != TcpState::Established {
                            st1
                        } else {
                            let st2 = if syn_ack {
                                control_sent(st1, TH_ACK, false)
                            } else {
                                st1
                            };
                            let st3 = acked(
                                st2,
                                h.ack,
                                first_n(option_sacks(seg.subrange(20, doff)), 3),
                            );
                            flushed(delivered(st3, h.seq, seg.skip(doff)))
                        }
                    },
                }
            },
        }
    }
}

/// A listener without a connection takes the frame's destination as its
/// own address.
pub open spec fn adopted(st: StackView, frame: Seq<u8>, dst: HostView) -> StackView {
    if st.listen && st.pcb is None {
        StackView { mac: frame.subrange(0, 6), local: dst, ..st }
    } else {
        st
    }
}

/// The endpoint after one IPv4 frame.
pub open spec fn ipv4_in(st: StackView, frame: Seq<u8>) -> StackView {
    let ip = frame.skip(14);
    let end = 14 + crate::bytes::be16_at(ip, 2);
    if crate::parse::ipv4_error(ip) is Some || ip[9] != 6 {
        st
    } else {
        let st1 = adopted(st, frame, HostView::V4(ip.subrange(16, 20)));
        if end > frame.len() || end < 34 {
            st1
        } else {
            segment_in(
                st1,
                HostView::V4(ip.subrange(12, 16)),
                frame.subrange(6, 12),
                frame.subrange(34, end),
            )
        }
    }
}

/// The endpoint after one IPv6 frame.
pub open spec fn ipv6_in(st: StackView, frame: Seq<u8>) -> StackView {
    let ip = frame.skip(14);
    let end = 54 + crate::bytes::be16_at(ip, 4);
    if crate::parse::ipv6_error(ip) is Some || ip[6] != 6 {
        st
    } else {
        let st1 = adopted(st, frame, HostView::V6(ip.subrange(24, 40)));
        if end > frame.len() || end < 74 {
            st1
        } else {
            segment_in(
                st1,
                HostView::V6(ip.subrange(8, 24)),
                frame.subrange(6, 12),
                frame.subrange(54, end),
            )
        }
    }
}

/// The endpoint after one Ethernet frame; short frames and foreign
/// ethertypes change nothing.
#[verifier::opaque]
pub open spec fn ingested(st: StackView, frame: Seq<u8>) -> StackView {
    if frame.len() < 54 {
        st
    } else if crate::bytes::be16_at(frame, 12) == 0x0800 {
        ipv4_in(st, frame)
    } else if crate::bytes::be16_at(frame, 12) == 0x86dd {
        ipv6_in(st, frame)
    } else {
        st
    }
}

// ---------------------------------------------------------------------
// Implementation
// ---------------------------------------------------------------------

fn rack_reo_wnd(min_rtt_us: u64) -> (r: u64)
    ensures
        r == reo_wnd(min_rtt_us),
{
    if min_rtt_us / 4 > REO_WND_MIN_US {
        min_rtt_us / 4
    } else {
        REO_WND_MIN_US
    }
}

fn rack_update(rack: &mut Rack, now: u64, seg: &TxSeg)
    ensures
        *final(rack) == rack_after(*old(rack), now, seg.view()),
{
    let rtt: u64 = now.saturating_sub(seg.xmit_ts_us);
    if rtt > 0 {
        rack.rtt_us = rtt;
        if rack.min_rtt_us == 0 || rtt < rack.min_rtt_us {
            rack.min_rtt_us = rtt;
        }
    }
    if seq_gt(seg.end(), rack.end_seq) || rack.xmit_ts_us == 0 {
        rack.xmit_ts_us = seg.xmit_ts_us;
        rack.end_seq = seg.end();
    }
}

/// Remove the segments a cumulative `ack` covers, feeding RACK.
fn take_acked(inflight: &mut Vec<TxSeg>, rack: &mut Rack, now: u64, ack: u32)
    ensures
        ({
            let segs = seg_views(old(inflight)@);
            let k = acked_to(segs, ack, 0);
            &&& seg_views(final(inflight)@) == segs.skip(k as int)
            &&& *final(rack) == rack_acked(*old(rack), now, segs, k)
        }),
{
    let ghost segs = seg_views(inflight@);
    let ghost rack0 = *rack;
    let mut k: usize = 0;
    let n: usize = inflight.len();
    while k < n && seq_leq(inflight[k].end(), ack)
        invariant
            n == inflight@.len(),
            k <= n,
            segs == seg_views(inflight@),
            acked_to(segs, ack, k as nat) == acked_to(segs, ack, 0),
            *rack == rack_acked(rack0, now, segs, k as nat),
        decreases n - k,
    {
        assert(segs[k as int] == inflight@[k as int].view());
        rack_update(rack, now, &inflight[k]);
        k += 1;
    }
    proof {
        if k < n {
            assert(segs[k as int] == inflight@[k as int].view());
        }
        assert(acked_to(segs, ack, k as nat) == k);
    }
    let rest = inflight.split_off(k);
    assert(seg_views(rest@) =~= segs.skip(k as int));
    *inflight = rest;
}

/// Apply one SACK block to the scoreboard, feeding RACK.
fn apply_sack(inflight: &mut Vec<TxSeg>, rack: &mut Rack, now: u64, block: (u32, u32))
    ensures
        ({
            let segs = seg_views(old(inflight)@);
            &&& seg_views(final(inflight)@) == sacked_by(segs, block)
            &&& *final(rack) == rack_sacked(*old(rack), now, segs, block, segs.len())
        }),
{
    let ghost segs = seg_views(inflight@);
    let ghost rack0 = *rack;
    let ghost all = sacked_by(segs, block);
    let mut i: usize = 0;
    let n: usize = inflight.len();
    while i < n
        invariant
            n == inflight@.len(),
            n == segs.len(),
            i <= n,
            all == sacked_by(segs, block),
            forall|j: int| 0 <= j < i ==> #[trigger] inflight@[j].view() == all[j],
            forall|j: int| i <= j < n ==> #[trigger] inflight@[j].view() == segs[j],
            *rack == rack_sacked(rack0, now, segs, block, i as nat),
        decreases n - i,
    {
        assert(inflight@[i as int].view() == segs[i as int]);
        if seq_geq(inflight[i].seq, block.0) && seq_leq(inflight[i].end(), block.1)
            && !inflight[i].sacked {
            rack_update(rack, now, &inflight[i]);
            inflight[i].sacked = true;
        }
        i += 1;
    }
    assert(seg_views(inflight@) =~= all);
}

/// Apply every SACK block in turn.
fn apply_sacks(inflight: &mut Vec<TxSeg>, rack: &mut Rack, now: u64, sacks: &Vec<(u32, u32)>)
    ensures
        (*final(rack), seg_views(final(inflight)@)) == sacked_all(
            *old(rack),
            now,
            seg_views(old(inflight)@),
            sacks@,
            sacks@.len(),
        ),
{
    let ghost segs = seg_views(inflight@);
    let ghost rack0 = *rack;
    let mut i: usize = 0;
    while i < sacks.len()
        invariant
            i <= sacks@.len(),
            (*rack, seg_views(inflight@)) == sacked_all(rack0, now, segs, sacks@, i as nat),
        decreases sacks@.len() - i,
    {
        apply_sack(inflight, rack, now, sacks[i]);
        i += 1;
    }
}

/// Mark every overdue segment lost.
fn mark_lost(inflight: &mut Vec<TxSeg>, rack: Rack, now: u64)
    ensures
        seg_views(final(inflight)@) == all_marked(rack, now, seg_views(old(inflight)@)),
{
    let ghost segs = seg_views(inflight@);
    let ghost all = all_marked(rack, now, segs);
    let reo: u64 = rack_reo_wnd(rack.min_rtt_us);
    let deadline: u64 = rack.rtt_us.saturating_add(reo);
    let twice: u64 = if rack.rtt_us > u64::MAX / 2 {
        u64::MAX
    } else {
        2 * rack.rtt_us
    };
    let rto_us: u64 = if twice > RTO_MIN_US {
        twice
    } else {
        RTO_MIN_US
    };
    let mut i: usize = 0;
    let n: usize = inflight.len();
    while i < n
        invariant
            n == inflight@.len(),
            n == segs.len(),
            i <= n,
            all == all_marked(rack, now, segs),
            rto_us == rto(rack.rtt_us),
            deadline == if rack.rtt_us + reo_wnd(rack.min_rtt_us) > u64::MAX {
                u64::MAX as int
            } else {
                rack.rtt_us + reo_wnd(rack.min_rtt_us)
            },
            forall|j: int| 0 <= j < i ==> #[trigger] inflight@[j].view() == all[j],
            forall|j: int| i <= j < n ==> #[trigger] inflight@[j].view() == segs[j],
        decreases n - i,
    {
        assert(inflight@[i as int].view() == segs[i as int]);
        let waited: u64 = now.saturating_sub(inflight[i].xmit_ts_us);
        let reordered: bool = rack.rtt_us > 0 && !inflight[i].sacked && !seq_geq(
            inflight[i].end(),
            rack.end_seq,
        ) && waited >= deadline;
        if reordered || waited >= rto_us {
            inflight[i].lost = true;
        }
        i += 1;
    }
    assert(seg_views(inflight@) =~= all);
}

spec fn chunk_views(v: Seq<(u32, Vec<u8>)>) -> Seq<(u32, Seq<u8>)> {
    v.map_values(|c: (u32, Vec<u8>)| (c.0, c.1@))
}

/// Reset the segments marked lost and hand out copies of them.
fn take_lost(inflight: &mut Vec<TxSeg>, now: u64) -> (lost: Vec<(u32, Vec<u8>)>)
    ensures
        ({
            let segs = seg_views(old(inflight)@);
            &&& seg_views(final(inflight)@) == segs.map_values(|s: SegView| resent(now, s))
            &&& chunk_views(lost@) == lost_chunks(segs, segs.len())
        }),
{
    let ghost segs = seg_views(inflight@);
    let ghost all = segs.map_values(|s: SegView| resent(now, s));
    let mut lost: Vec<(u32, Vec<u8>)> = Vec::new();
    let mut i: usize = 0;
    let n: usize = inflight.len();
    assert(chunk_views(lost@) =~= lost_chunks(segs, 0));
    while i < n
        invariant
            n == inflight@.len(),
            n == segs.len(),
            i <= n,
            all == segs.map_values(|s: SegView| resent(now, s)),
            chunk_views(lost@) == lost_chunks(segs, i as nat),
            forall|j: int| 0 <= j < i ==> #[trigger] inflight@[j].view() == all[j],
            forall|j: int| i <= j < n ==> #[trigger] inflight@[j].view() == segs[j],
        decreases n - i,
    {
        assert(inflight@[i as int].view() == segs[i as int]);
        if inflight[i].lost {
            let ghost had = lost@;
            let copy = to_vec(inflight[i].data.as_slice());
            lost.push((inflight[i].seq, copy));
            assert(chunk_views(lost@) =~= chunk_views(had).push((inflight[i as int].seq, copy@)));
            inflight[i].lost = false;
            inflight[i].sacked = false;
            inflight[i].xmit_ts_us = now;
        }
        i += 1;
    }
    assert(seg_views(inflight@) =~= all);
    lost
}

/// Cut the queued bytes into chunks, each recorded as in flight.
fn take_chunks(pcb: &mut Pcb, now: u64) -> (chunks: Vec<(u32, Vec<u8>)>)
    requires
        old(pcb).mss > 0,
    ensures
        ({
            let p = old(pcb).view();
            let cs = chopped(p.mss, p.snd_nxt, p.tx_app);
            &&& chunk_views(chunks@) == cs
            &&& final(pcb).view() == PcbView {
                snd_nxt: p.snd_nxt.wrapping_add(p.tx_app.len() as u32),
                inflight: p.inflight + cs.map_values(|c: (u32, Seq<u8>)| fresh_seg(now, c)),
                tx_app: Seq::empty(),
                ..p
            }
        }),
{
    let ghost p = pcb.view();
    let ghost cs = chopped(p.mss, p.snd_nxt, p.tx_app);
    let ghost fresh = cs.map_values(|c: (u32, Seq<u8>)| fresh_seg(now, c));
    let mut chunks: Vec<(u32, Vec<u8>)> = Vec::new();
    {
        let pieces = tso_chop(pcb.mss, pcb.snd_nxt, pcb.tx_app.as_slice());
        let ghost pv = pieces@.map_values(|c: (u32, &[u8])| (c.0, c.1@));
        let mut i: usize = 0;
        while i < pieces.len()
            invariant
                i <= pieces@.len(),
                pv == pieces@.map_values(|c: (u32, &[u8])| (c.0, c.1@)),
                chunk_views(chunks@) == pv.take(i as int),
            decreases pieces@.len() - i,
        {
            let ghost had = chunks@;
            let copy = to_vec(pieces[i].1);
            chunks.push((pieces[i].0, copy));
            i += 1;
            proof {
                assert(chunk_views(chunks@) =~= chunk_views(had).push(pv[i - 1]));
                assert(pv.take(i as int) =~= pv.take(i - 1).push(pv[i - 1]));
            }
        }
        assert(pv.take(i as int) =~= pv);
    }
    let mut j: usize = 0;
    let nxt: u32 = pcb.snd_nxt.wrapping_add(pcb.tx_app.len() as u32);
    while j < chunks.len()
        invariant
            j <= chunks@.len(),
            cs == chopped(p.mss, p.snd_nxt, p.tx_app),
            fresh == cs.map_values(|c: (u32, Seq<u8>)| fresh_seg(now, c)),
            chunk_views(chunks@) == cs,
            pcb.view() == (PcbView { inflight: p.inflight + fresh.take(j as int), ..p }),
        decreases chunks@.len() - j,
    {
        let ghost had = pcb.inflight@;
        let copy = to_vec(chunks[j].1.as_slice());
        let seg = TxSeg { seq: chunks[j].0, data: copy, xmit_ts_us: now, sacked: false, lost: false };
        proof {
            assert(chunk_views(chunks@)[j as int] == cs[j as int]);
            assert(seg.view() == fresh[j as int]);
        }
        pcb.inflight.push(seg);
        j += 1;
        proof {
            assert(seg_views(pcb.inflight@) =~= seg_views(had).push(fresh[j - 1]));
            assert(fresh.take(j as int) =~= fresh.take(j - 1).push(fresh[j - 1]));
            assert(seg_views(pcb.inflight@) =~= p.inflight + fresh.take(j as int));
        }
    }
    assert(fresh.take(j as int) =~= fresh);
    pcb.snd_nxt = nxt;
    pcb.tx_app = Vec::new();
    chunks
}

/// The bytes of a MAC address inside a frame.
fn mac_at(frame: &[u8], i: usize) -> (r: [u8; 6])
    requires
        i + 6 <= frame@.len(),
    ensures
        r@ == frame@.subrange(i as int, i + 6),
{
    let r = [frame[i], frame[i + 1], frame[i + 2], frame[i + 3], frame[i + 4], frame[i + 5]];
    assert(r@ =~= frame@.subrange(i as int, i + 6));
    r
}

/// The segment size towards a host.
fn mss_of(host: HostAddr) -> (r: usize)
    ensures
        r == mss_for(host@),
{
    if host.is_v4() {
        MSS_V4
    } else {
        MSS_V6
    }
}

/// An empty RACK state.
fn new_rack() -> (r: Rack)
    ensures
        r == no_rack(),
{
    Rack { xmit_ts_us: 0, end_seq: 0, rtt_us: 0, min_rtt_us: 0 }
}

impl Pcb {
    /// The handshake's part of a segment. False when the segment does not
    /// fit the state.
    fn handshake(&mut self, h: &crate::parse::TcpHeader) -> (fits: bool)
        ensures
            match handshaken(old(self).view(), *h) {
                None => !fits && *final(self) == *old(self),
                Some(q) => fits && final(self).view() == q,
            },
    {
        let syn: bool = h.flags & TH_SYN != 0;
        let ack: bool = h.flags & TH_ACK != 0;
        match self.state {
            TcpState::SynSent => {
                if !(syn && ack) {
                    return false;
                }
                self.irs = h.seq;
                self.rcv_nxt = h.seq.wrapping_add(1);
                if seq_geq(h.ack, self.iss.wrapping_add(1)) {
                    self.snd_una = h.ack;
                    self.state = TcpState::Established;
                }
                true
            },
            TcpState::SynReceived => {
                if !ack {
                    return false;
                }
                if seq_geq(h.ack, self.iss.wrapping_add(1)) {
                    self.snd_una = h.ack;
                    self.state = TcpState::Established;
                }
                true
            },
            TcpState::Established => true,
            _ => false,
        }
    }

    /// A valid acknowledgement and its SACK blocks.
    fn acknowledge(&mut self, now: u64, ack: u32, sacks: &Vec<(u32, u32)>)
        ensures
            final(self).view() == pcb_acked(old(self).view(), now, ack, sacks@),
    {
        if seq_gt(ack, self.snd_una) {
            self.snd_una = ack;
        }
        take_acked(&mut self.inflight, &mut self.rack, now, ack);
        apply_sacks(&mut self.inflight, &mut self.rack, now, sacks);
    }

    /// Append in-order payload, as much as the receive buffer holds.
    fn accept(&mut self, payload: &[u8])
        requires
            old(self).view().bounded(),
        ensures
            ({
                let p = old(self).view();
                let n = room_for(payload@.len(), p.rx_app.len());
                final(self).view() == PcbView {
                    rx_app: p.rx_app + payload@.take(n),
                    rcv_nxt: p.rcv_nxt.wrapping_add(n as u32),
                    ..p
                }
            }),
    {
        let room: usize = RCV_CAP - self.rx_app.len();
        let n: usize = if payload.len() < room {
            payload.len()
        } else {
            room
        };
        put_all(&mut self.rx_app, slice_subrange(payload, 0, n));
        assert(payload@.subrange(0, n as int) =~= payload@.take(n as int));
        self.rcv_nxt = self.rcv_nxt.wrapping_add(n as u32);
    }
}

/// The bounds survive loss detection and acknowledgement processing: those
/// only drop scoreboard entries and rewrite their marks.
pub proof fn lemma_sacked_all_data(
    rack: Rack,
    now: u64,
    segs: Seq<SegView>,
    blocks: Seq<(u32, u32)>,
    k: nat,
)
    ensures
        ({
            let out = sacked_all(rack, now, segs, blocks, k).1;
            &&& out.len() == segs.len()
            &&& forall|i: int| 0 <= i < segs.len() ==> (#[trigger] out[i]).data == segs[i].data
            &&& forall|i: int| 0 <= i < segs.len() ==> (#[trigger] out[i]).seq == segs[i].seq
            &&& forall|i: int| 0 <= i < segs.len() ==> (#[trigger] out[i]).lost == segs[i].lost
            &&& forall|i: int|
                0 <= i < segs.len() ==> (#[trigger] out[i]).xmit_ts_us == segs[i].xmit_ts_us
        }),
    decreases k,
{
    if k > 0 {
        lemma_sacked_all_data(rack, now, segs, blocks, (k - 1) as nat);
    }
}

pub proof fn lemma_acked_to_bound(segs: Seq<SegView>, ack: u32, i: nat)
    requires
        i <= segs.len(),
    ensures
        i <= acked_to(segs, ack, i) <= segs.len(),
    decreases segs.len() - i,
{
    if i < segs.len() && (seg_end(segs[i as int]) == ack || before(seg_end(segs[i as int]), ack)) {
        lemma_acked_to_bound(segs, ack, i + 1);
    }
}

pub proof fn lemma_pcb_acked_bounded(p: PcbView, now: u64, ack: u32, sacks: Seq<(u32, u32)>)
    requires
        p.bounded(),
    ensures
        pcb_acked(p, now, ack, sacks).bounded(),
{
    let k = acked_to(p.inflight, ack, 0);
    lemma_acked_to_bound(p.inflight, ack, 0);
    let rack = rack_acked(p.rack, now, p.inflight, k);
    let rest = p.inflight.skip(k as int);
    lemma_sacked_all_data(rack, now, rest, sacks, sacks.len());
    let q = pcb_acked(p, now, ack, sacks);
    assert forall|i: int| 0 <= i < q.inflight.len() implies q.inflight[i].data.len() <= 1460 by {
        assert(q.inflight[i].data == rest[i].data);
        assert(rest[i] == p.inflight[i + k]);
    }
}

pub proof fn lemma_lost_chunks_bound(segs: Seq<SegView>, k: nat)
    requires
        k <= segs.len(),
        forall|i: int| 0 <= i < segs.len() ==> (#[trigger] segs[i]).data.len() <= 1460,
    ensures
        forall|i: int|
            0 <= i < lost_chunks(segs, k).len() ==> (#[trigger] lost_chunks(segs, k)[i]).1.len()
                <= 1460,
    decreases k,
{
    if k > 0 {
        lemma_lost_chunks_bound(segs, (k - 1) as nat);
        let had = lost_chunks(segs, (k - 1) as nat);
        assert forall|i: int| 0 <= i < lost_chunks(segs, k).len() implies (#[trigger] lost_chunks(
            segs,
            k,
        )[i]).1.len() <= 1460 by {
            if i < had.len() {
                assert(lost_chunks(segs, k)[i] == had[i]);
            } else {
                assert(segs[k - 1].data.len() <= 1460);
            }
        }
    }
}

/// Every piece is at most one MSS long.
pub proof fn law_chunks_fit_mss(mss: nat, seq: u32, data: Seq<u8>)
    ensures
        forall|i: int|
            0 <= i < chopped(mss, seq, data).len() ==> 0 < (#[trigger] chopped(
                mss,
                seq,
                data,
            )[i]).1.len() <= mss,
    decreases data.len(),
{
    if data.len() > 0 && mss > 0 {
        let n = if data.len() < mss {
            data.len()
        } else {
            mss
        };
        let rest = chopped(mss, seq.wrapping_add(n as u32), data.skip(n as int));
        law_chunks_fit_mss(mss, seq.wrapping_add(n as u32), data.skip(n as int));
        assert forall|i: int| 0 <= i < chopped(mss, seq, data).len() implies 0 < (
        #[trigger] chopped(mss, seq, data)[i]).1.len() <= mss by {
            if i > 0 {
                assert(chopped(mss, seq, data)[i] == rest[i - 1]);
            }
        }
    }
}

/// Sending changes the queue and the identification counter only.
pub proof fn lemma_chunks_sent_frame(
    st: StackView,
    p: PcbView,
    chunks: Seq<(u32, Seq<u8>)>,
    k: nat,
)
    ensures
        ({
            let out = chunks_sent(st, p, chunks, k);
            out == StackView { ip_id: out.ip_id, txq: out.txq, ..st }
        }),
    decreases k,
{
    if k > 0 {
        lemma_chunks_sent_frame(st, p, chunks, (k - 1) as nat);
    }
}

impl TcpStack {
    /// What holds of the endpoint between calls; every call keeps it.
    pub open spec fn wf(&self) -> bool {
        self@.wf()
    }

    /// The endpoint's bounds; every step keeps them.
    spec fn bounded(&self) -> bool {
        self@.bounded()
    }

    /// IPv4 endpoint bound to `port`.
    pub fn new_v4(mac: [u8; 6], ip: [u8; 4], port: u16) -> (r: Self)
        ensures
            r.wf(),
            r@ == (StackView {
                mac: mac@,
                local: HostView::V4(ip@),
                local_port: port,
                now_us: 0,
                ip_id: 1,
                listen: false,
                pcb: None,
                txq: Seq::empty(),
            }),
    {
        let r = TcpStack {
            mac,
            local: HostAddr::V4(ip),
            local_port: port,
            now_us: 0,
            ip_id: 1,
            listen: false,
            pcb: None,
            txq: VecDeque::new(),
        };
        assert(r@.txq =~= Seq::empty());
        r
    }

    /// IPv6 endpoint bound to `port`.
    pub fn new_v6(mac: [u8; 6], ip: [u8; 16], port: u16) -> (r: Self)
        ensures
            r.wf(),
            r@ == (StackView {
                mac: mac@,
                local: HostView::V6(ip@),
                local_port: port,
                now_us: 0,
                ip_id: 1,
                listen: false,
                pcb: None,
                txq: Seq::empty(),
            }),
    {
        let r = TcpStack {
            mac,
            local: HostAddr::V6(ip),
            local_port: port,
            now_us: 0,
            ip_id: 1,
            listen: false,
            pcb: None,
            txq: VecDeque::new(),
        };
        assert(r@.txq =~= Seq::empty());
        r
    }

    /// Set the endpoint's clock (microseconds); loss detection reads it.
    pub fn set_now(&mut self, us: u64)
        ensures
            final(self)@ == (StackView { now_us: us, ..old(self)@ }),
            old(self).wf() ==> final(self).wf(),
    {
        self.now_us = us;
    }

    /// Current clock.
    pub fn now_us(&self) -> (r: u64)
        ensures
            r == self@.now_us,
    {
        self.now_us
    }

    /// Passive open: forget any connection and wait for a SYN.
    pub fn listen(&mut self)
        ensures
            final(self)@ == (StackView { listen: true, pcb: None, ..old(self)@ }),
            old(self).wf() ==> final(self).wf(),
    {
        self.listen = true;
        self.pcb = None;
    }

    /// Active open: queue a SYN to `remote`.
    pub fn connect(&mut self, remote_mac: [u8; 6], remote: HostAddr, remote_port: u16)
        requires
            old(self).wf(),
        ensures
            final(self).wf(),
            final(self)@ == control_sent(
                StackView {
                    pcb: Some(active_open(remote_mac@, remote@, remote_port)),
                    ..old(self)@
                },
                TH_SYN,
                true,
            ),
    {
        let pcb = Pcb {
            state: TcpState::SynSent,
            remote_mac,
            remote,
            remote_port,
            snd_una: CLIENT_ISS,
            snd_nxt: CLIENT_ISS.wrapping_add(1),
            rcv_nxt: 0,
            mss: mss_of(remote),
            iss: CLIENT_ISS,
            irs: 0,
            inflight: Vec::new(),
            tx_app: Vec::new(),
            rx_app: Vec::new(),
            rack: new_rack(),
        };
        proof {
            assert(seg_views(pcb.inflight@) =~= Seq::empty());
            assert(pcb.view() == active_open(remote_mac@, remote@, remote_port));
        }
        self.pcb = Some(pcb);
        proof {
            crate::ustack_keeps::lemma_control_sent(self@, TH_SYN, true);
        }
        self.emit_control(TH_SYN, true);
    }

    /// True when the connection is established.
    pub fn established(&self) -> (r: bool)
        ensures
            r == (self@.pcb matches Some(p) && p.state == TcpState::Established),
    {
        match &self.pcb {
            Some(p) => p.state == TcpState::Established,
            None => false,
        }
    }

    /// Current state, if there is a connection.
    pub fn state(&self) -> (r: Option<TcpState>)
        ensures
            r == match self@.pcb {
                Some(p) => Some(p.state),
                None => None,
            },
    {
        match &self.pcb {
            Some(p) => Some(p.state),
            None => None,
        }
    }

    /// Ingest one Ethernet frame. Invalid frames are dropped.
    pub fn ingest(&mut self, frame: &[u8])
        requires
            old(self).wf(),
        ensures
            final(self).wf(),
            final(self)@ == ingested(old(self)@, frame@),
    {
        reveal(ingested);
        proof {
            crate::ustack_keeps::lemma_ingested(self@, frame@);
        }
        if frame.len() < ETH_LEN + TCP_LEN + IPV4_LEN {
            return;
        }
        let ethertype: u16 = get_be16(frame, 12);
        if ethertype == 0x0800 {
            self.ingest_v4(frame);
        } else if ethertype == 0x86dd {
            self.ingest_v6(frame);
        }
    }

    /// Pop the next outbound Ethernet frame, if any.
    pub fn pop_tx(&mut self) -> (r: Option<Vec<u8>>)
        ensures
            match r {
                Some(f) => {
                    &&& old(self)@.txq.len() > 0
                    &&& f@ == old(self)@.txq[0]
                    &&& final(self)@ == StackView { txq: old(self)@.txq.skip(1), ..old(self)@ }
                },
                None => old(self)@.txq.len() == 0 && final(self)@ == old(self)@,
            },
            old(self).wf() ==> final(self).wf(),
    {
        let ghost q = self.txq@;
        let r = self.txq.pop_front();
        proof {
            let f = |f: Vec<u8>| f@;
            if q.len() > 0 {
                assert(self.txq@.map_values(f) =~= q.map_values(f).skip(1));
            } else {
                assert(self.txq@.map_values(f) =~= q.map_values(f));
            }
        }
        r
    }

    /// Queue application bytes on an established connection and transmit
    /// them in MSS-sized segments. Returns the number accepted, bounded by
    /// the send buffer.
    pub fn write(&mut self, data: &[u8]) -> (n: usize)
        requires
            old(self).wf(),
        ensures
            final(self).wf(),
            match old(self)@.pcb {
                Some(p) => if p.state == TcpState::Established {
                    &&& n == room_for(data@.len(), p.tx_app.len())
                    &&& final(self)@ == flushed(
                        StackView {
                            pcb: Some(PcbView { tx_app: p.tx_app + data@.take(n as int), ..p }),
                            ..old(self)@
                        },
                    )
                } else {
                    n == 0 && final(self)@ == old(self)@
                },
                None => n == 0 && final(self)@ == old(self)@,
            },
    {
        let mut n: usize = 0;
        match &mut self.pcb {
            None => {
                return 0;
            },
            Some(pcb) => {
                if pcb.state != TcpState::Established {
                    return 0;
                }
                let room: usize = SND_CAP - pcb.tx_app.len();
                n = if data.len() < room {
                    data.len()
                } else {
                    room
                };
                put_all(&mut pcb.tx_app, slice_subrange(data, 0, n));
                assert(data@.subrange(0, n as int) =~= data@.take(n as int));
            },
        }
        proof {
            crate::ustack_keeps::lemma_flushed(self@);
        }
        self.flush_tx();
        n
    }

    /// Move received application bytes into `buf`. Returns the count.
    pub fn read(&mut self, buf: &mut [u8]) -> (n: usize)
        ensures
            match old(self)@.pcb {
                Some(p) => {
                    &&& n == if old(buf)@.len() < p.rx_app.len() {
                        old(buf)@.len()
                    } else {
                        p.rx_app.len()
                    }
                    &&& final(buf)@ == p.rx_app.take(n as int) + old(buf)@.skip(n as int)
                    &&& final(self)@ == StackView {
                        pcb: Some(PcbView { rx_app: p.rx_app.skip(n as int), ..p }),
                        ..old(self)@
                    }
                },
                None => n == 0 && final(buf)@ == old(buf)@ && final(self)@ == old(self)@,
            },
            old(self).wf() ==> final(self).wf(),
    {
        match &mut self.pcb {
            None => 0,
            Some(pcb) => {
                let len: usize = buf.len();
                let n: usize = if len < pcb.rx_app.len() {
                    len
                } else {
                    pcb.rx_app.len()
                };
                let ghost was = buf@;
                let mut i: usize = 0;
                while i < n
                    invariant
                        i <= n,
                        n <= len,
                        n <= pcb.rx_app@.len(),
                        buf@.len() == len,
                        buf@ == pcb.rx_app@.take(i as int) + was.skip(i as int),
                        was.len() == len,
                    decreases n - i,
                {
                    buf[i] = pcb.rx_app[i];
                    i += 1;
                    assert(buf@ =~= pcb.rx_app@.take(i as int) + was.skip(i as int));
                }
                let rest = pcb.rx_app.split_off(n);
                assert(rest@ =~= old(self)@.pcb->0.rx_app.skip(n as int));
                pcb.rx_app = rest;
                n
            },
        }
    }

    /// Advance the clock, detect losses and retransmit what was lost.
    pub fn on_timer(&mut self, now_us: u64)
        requires
            old(self).wf(),
        ensures
            final(self).wf(),
            final(self)@ == retransmitted(detected(StackView { now_us, ..old(self)@ })),
    {
        self.now_us = now_us;
        proof {
            crate::ustack_keeps::lemma_repaired(self@);
        }
        self.rack_detect();
        self.retransmit_lost();
    }

    fn ingest_v4(&mut self, frame: &[u8])
        requires
            old(self).bounded(),
            frame@.len() >= 54,
        ensures
            final(self).bounded(),
            final(self)@ == ipv4_in(old(self)@, frame@),
    {
        let input = slice_subrange(frame, ETH_LEN, frame.len());
        assert(input@ =~= frame@.skip(14));
        let ip = match parse_ipv4(input) {
            Ok(h) => h,
            Err(_) => {
                return;
            },
        };
        if ip.protocol != 6 {
            return;
        }
        if self.listen && self.pcb.is_none() {
            self.mac = mac_at(frame, 0);
            self.local = HostAddr::V4(ip.dst);
        }
        let tcp_off: usize = ETH_LEN + IPV4_LEN;
        let ip_end: usize = ETH_LEN + ip.total_len as usize;
        if ip_end > frame.len() || ip_end < tcp_off {
            return;
        }
        let src_mac = mac_at(frame, 6);
        self.ingest_tcp(HostAddr::V4(ip.src), src_mac, slice_subrange(frame, tcp_off, ip_end));
    }

    fn ingest_v6(&mut self, frame: &[u8])
        requires
            old(self).bounded(),
            frame@.len() >= 54,
        ensures
            final(self).bounded(),
            final(self)@ == ipv6_in(old(self)@, frame@),
    {
        let input = slice_subrange(frame, ETH_LEN, frame.len());
        assert(input@ =~= frame@.skip(14));
        let ip = match parse_ipv6(input) {
            Ok(h) => h,
            Err(_) => {
                return;
            },
        };
        if ip.next_header != 6 {
            return;
        }
        if self.listen && self.pcb.is_none() {
            self.mac = mac_at(frame, 0);
            self.local = HostAddr::V6(ip.dst);
        }
        let tcp_off: usize = ETH_LEN + IPV6_LEN;
        let ip_end: usize = tcp_off + ip.payload_len as usize;
        if ip_end > frame.len() || ip_end < tcp_off + TCP_LEN {
            return;
        }
        let src_mac = mac_at(frame, 6);
        self.ingest_tcp(HostAddr::V6(ip.src), src_mac, slice_subrange(frame, tcp_off, ip_end));
    }

    fn ingest_tcp(&mut self, src: HostAddr, src_mac: [u8; 6], seg: &[u8])
        requires
            old(self).bounded(),
        ensures
            final(self).bounded(),
            final(self)@ == segment_in(old(self)@, src@, src_mac@, seg@),
    {
        let hdr = match parse_tcp(seg) {
            Ok(h) => h,
            Err(_) => {
                return;
            },
        };
        if hdr.dst_port != self.local_port {
            return;
        }
        let doff: usize = hdr.data_offset as usize * 4;
        let payload = slice_subrange(seg, doff, seg.len());
        assert(payload@ =~= seg@.skip(doff as int));
        let sacks: Vec<(u32, u32)> = parse_sack(slice_subrange(seg, TCP_LEN, doff));
        let syn: bool = hdr.flags & TH_SYN != 0;
        let ack: bool = hdr.flags & TH_ACK != 0;
        let fits: bool = match &mut self.pcb {
            None => {
                if self.listen && syn && !ack {
                    let pcb = Pcb {
                        state: TcpState::SynReceived,
                        remote_mac: src_mac,
                        remote: src,
                        remote_port: hdr.src_port,
                        snd_una: SERVER_ISS,
                        snd_nxt: SERVER_ISS.wrapping_add(1),
                        rcv_nxt: hdr.seq.wrapping_add(1),
                        mss: mss_of(src),
                        iss: SERVER_ISS,
                        irs: hdr.seq,
                        inflight: Vec::new(),
                        tx_app: Vec::new(),
                        rx_app: Vec::new(),
                        rack: new_rack(),
                    };
                    assert(seg_views(pcb.inflight@) =~= Seq::empty());
                    assert(pcb.view() == passive_open(src@, src_mac@, hdr));
                    self.pcb = Some(pcb);
                    self.emit_control(TH_SYN | TH_ACK, true);
                }
                return;
            },
            Some(pcb) => {
                if !pcb.remote.same(&src) || pcb.remote_port != hdr.src_port {
                    return;
                }
                pcb.handshake(&hdr)
            },
        };
        if !fits {
            return;
        }
        if !self.established() {
            return;
        }
        if syn && ack {
            self.emit_control(TH_ACK, false);
        }
        self.on_ack(hdr.ack, &sacks);
        self.deliver(hdr.seq, payload);
        self.flush_tx();
    }

    /// Take in-order payload and acknowledge it.
    fn deliver(&mut self, seq: u32, payload: &[u8])
        requires
            old(self).bounded(),
        ensures
            final(self).bounded(),
            final(self)@ == delivered(old(self)@, seq, payload@),
    {
        match &mut self.pcb {
            None => {
                return;
            },
            Some(pcb) => {
                if payload.len() == 0 || seq != pcb.rcv_nxt {
                    return;
                }
                pcb.accept(payload);
            },
        }
        self.emit_control(TH_ACK, false);
    }

    fn on_ack(&mut self, ack: u32, sacks: &Vec<(u32, u32)>)
        requires
            old(self).bounded(),
        ensures
            final(self).bounded(),
            final(self)@ == acked(old(self)@, ack, sacks@),
    {
        let now: u64 = self.now_us;
        match &mut self.pcb {
            None => {
                return;
            },
            Some(pcb) => {
                if seq_gt(ack, pcb.snd_nxt) {
                    return;
                }
                proof {
                    lemma_pcb_acked_bounded(pcb.view(), now, ack, sacks@);
                }
                pcb.acknowledge(now, ack, sacks);
            },
        }
        self.rack_detect();
        self.retransmit_lost();
    }

    fn rack_detect(&mut self)
        requires
            old(self).bounded(),
        ensures
            final(self).bounded(),
            final(self)@ == detected(old(self)@),
    {
        let now: u64 = self.now_us;
        match &mut self.pcb {
            None => {},
            Some(pcb) => {
                mark_lost(&mut pcb.inflight, pcb.rack, now);
            },
        }
    }

    fn retransmit_lost(&mut self)
        requires
            old(self).bounded(),
        ensures
            final(self).bounded(),
            final(self)@ == retransmitted(old(self)@),
    {
        let now: u64 = self.now_us;
        match &mut self.pcb {
            None => {},
            Some(pcb) => {
                let ghost p = pcb.view();
                proof {
                    lemma_lost_chunks_bound(p.inflight, p.inflight.len());
                }
                let lost = take_lost(&mut pcb.inflight, now);
                let mac = pcb.remote_mac;
                let remote = pcb.remote;
                let port: u16 = pcb.remote_port;
                let rcv_nxt: u32 = pcb.rcv_nxt;
                self.send_chunks(mac, remote, port, rcv_nxt, &lost, Ghost(p));
            },
        }
    }

    fn flush_tx(&mut self)
        requires
            old(self).bounded(),
        ensures
            final(self).bounded(),
            final(self)@ == flushed(old(self)@),
    {
        let now: u64 = self.now_us;
        match &mut self.pcb {
            None => {},
            Some(pcb) => {
                if pcb.state != TcpState::Established || pcb.tx_app.len() == 0 {
                    return;
                }
                proof {
                    law_chunks_fit_mss(pcb.view().mss, pcb.snd_nxt, pcb.tx_app@);
                }
                let chunks = take_chunks(pcb, now);
                let ghost q = pcb.view();
                let mac = pcb.remote_mac;
                let remote = pcb.remote;
                let port: u16 = pcb.remote_port;
                let rcv_nxt: u32 = pcb.rcv_nxt;
                self.send_chunks(mac, remote, port, rcv_nxt, &chunks, Ghost(q));
            },
        }
    }

    /// Queue one data segment per chunk.
    fn send_chunks(
        &mut self,
        mac: [u8; 6],
        remote: HostAddr,
        port: u16,
        rcv_nxt: u32,
        chunks: &Vec<(u32, Vec<u8>)>,
        Ghost(p): Ghost<PcbView>,
    )
        requires
            old(self).bounded(),
            p.remote_mac == mac@,
            p.remote == remote@,
            p.remote_port == port,
            p.rcv_nxt == rcv_nxt,
            forall|i: int|
                0 <= i < chunks@.len() ==> (#[trigger] chunk_views(chunks@)[i]).1.len() <= 1460,
        ensures
            final(self).bounded(),
            final(self)@ == chunks_sent(old(self)@, p, chunk_views(chunks@), chunks@.len()),
    {
        let mut i: usize = 0;
        let ghost st = self@;
        let ghost cs = chunk_views(chunks@);
        while i < chunks.len()
            invariant
                i <= chunks@.len(),
                cs == chunk_views(chunks@),
                self.bounded(),
                p.remote_mac == mac@,
                p.remote == remote@,
                p.remote_port == port,
                p.rcv_nxt == rcv_nxt,
                self@ == chunks_sent(st, p, cs, i as nat),
                forall|i: int| 0 <= i < chunks@.len() ==> (#[trigger] cs[i]).1.len() <= 1460,
            decreases chunks@.len() - i,
        {
            let data = chunks[i].1.as_slice();
            assert(cs[i as int] == (chunks@[i as int].0, data@));
            self.push_segment(
                mac,
                remote,
                port,
                chunks[i].0,
                rcv_nxt,
                TH_ACK | TH_PSH,
                &Vec::new(),
                data,
            );
            i += 1;
        }
    }

    fn emit_control(&mut self, flags: u8, with_mss: bool)
        requires
            old(self).bounded(),
        ensures
            final(self).bounded(),
            final(self)@ == control_sent(old(self)@, flags, with_mss),
    {
        match &self.pcb {
            None => {},
            Some(pcb) => {
                let seq: u32 = if flags & TH_SYN != 0 {
                    pcb.iss
                } else {
                    pcb.snd_nxt
                };
                let mac = pcb.remote_mac;
                let remote = pcb.remote;
                let port: u16 = pcb.remote_port;
                let rcv_nxt: u32 = pcb.rcv_nxt;
                let mut opts: Vec<u8> = Vec::new();
                if with_mss {
                    let mss: usize = mss_of(remote);
                    opts.push(OPT_MSS);
                    opts.push(4);
                    opts.push((mss / 256) as u8);
                    opts.push((mss % 256) as u8);
                    opts.push(OPT_SACK_PERM);
                    opts.push(2);
                    opts.push(1);
                    opts.push(1);
                    assert(opts@ =~= syn_options(remote@));
                }
                let none: Vec<u8> = Vec::new();
                self.push_segment(mac, remote, port, seq, rcv_nxt, flags, &opts, none.as_slice());
            },
        }
    }

    /// Build one segment and queue its frame.
    fn push_segment(
        &mut self,
        dst_mac: [u8; 6],
        dst: HostAddr,
        dst_port: u16,
        seq: u32,
        ack: u32,
        flags: u8,
        opts: &Vec<u8>,
        payload: &[u8],
    )
        requires
            opts@.len() <= 40,
            payload@.len() <= 1460,
        ensures
            final(self)@ == sent(
                old(self)@,
                dst_mac@,
                dst@,
                dst_port,
                seq,
                ack,
                flags,
                opts@,
                payload@,
            ),
    {
        let ghost st = self@;
        let ghost q = self.txq@;
        let frame = self.build_segment(dst_mac, dst, dst_port, seq, ack, flags, opts, payload);
        self.txq.push_back(frame);
        proof {
            let f = |f: Vec<u8>| f@;
            assert(self.txq@.map_values(f) =~= q.map_values(f).push(frame@));
        }
    }

    /// Build the frame of one segment.
    fn build_segment(
        &mut self,
        dst_mac: [u8; 6],
        dst: HostAddr,
        dst_port: u16,
        seq: u32,
        ack: u32,
        flags: u8,
        opts: &Vec<u8>,
        payload: &[u8],
    ) -> (frame: Vec<u8>)
        requires
            opts@.len() <= 40,
            payload@.len() <= 1460,
        ensures
            frame@ == segment_frame(
                old(self)@,
                dst_mac@,
                dst@,
                dst_port,
                seq,
                ack,
                flags,
                opts@,
                payload@,
            ),
            final(self).txq == old(self).txq,
            final(self)@ == (StackView { ip_id: next_ip_id(old(self)@, dst@), ..old(self)@ }),
    {
        match (self.local, dst) {
            (HostAddr::V4(s), HostAddr::V4(d)) => {
                let tcp = build_tcp_v4(
                    s,
                    d,
                    self.local_port,
                    dst_port,
                    seq,
                    ack,
                    flags,
                    opts.as_slice(),
                    payload,
                );
                let id: u16 = self.ip_id;
                self.ip_id = self.ip_id.wrapping_add(1);
                wrap_v4(dst_mac, self.mac, s, d, id, tcp.as_slice())
            },
            (HostAddr::V6(s), HostAddr::V6(d)) => {
                let tcp = build_tcp_v6(
                    s,
                    d,
                    self.local_port,
                    dst_port,
                    seq,
                    ack,
                    flags,
                    opts.as_slice(),
                    payload,
                );
                wrap_v6(dst_mac, self.mac, s, d, tcp.as_slice())
            },
            _ => Vec::new(),
        }
    }
}

/// The TCP payload of a frame, as its receiver reads it; empty where the
/// frame is not a whole TCP packet.
pub open spec fn frame_payload(f: Seq<u8>) -> Seq<u8> {
    let ip = f.skip(14);
    let v4_end = 14 + crate::bytes::be16_at(ip, 2);
    let v6_end = 54 + crate::bytes::be16_at(ip, 4);
    if f.len() < 54 {
        Seq::empty()
    } else if crate::bytes::be16_at(f, 12) == 0x0800 {
        if crate::parse::ipv4_error(ip) is Some || ip[9] != 6 || v4_end > f.len() || v4_end < 34 {
            Seq::empty()
        } else {
            segment_payload(f.subrange(34, v4_end))
        }
    } else if crate::bytes::be16_at(f, 12) == 0x86dd {
        if crate::parse::ipv6_error(ip) is Some || ip[6] != 6 || v6_end > f.len() || v6_end < 74 {
            Seq::empty()
        } else {
            segment_payload(f.subrange(54, v6_end))
        }
    } else {
        Seq::empty()
    }
}

/// The payload of a TCP segment; empty where its header is malformed.
pub open spec fn segment_payload(seg: Seq<u8>) -> Seq<u8> {
    if crate::parse::tcp_error(seg) is Some {
        Seq::empty()
    } else {
        seg.skip(crate::parse::tcp_of(seg).data_offset * 4)
    }
}

/// A data segment: a frame with a TCP payload. The others (SYN, ACK-only)
/// are control packets.
pub open spec fn carries_data(f: Seq<u8>) -> bool {
    frame_payload(f).len() > 0
}

/// Whether a frame is a data segment.
pub fn is_data(f: &[u8]) -> (r: bool)
    ensures
        r == carries_data(f@),
{
    if f.len() < ETH_LEN + TCP_LEN + IPV4_LEN {
        return false;
    }
    let ethertype: u16 = get_be16(f, 12);
    let input = slice_subrange(f, ETH_LEN, f.len());
    assert(input@ =~= f@.skip(14));
    let (start, end): (usize, usize) = if ethertype == 0x0800 {
        match parse_ipv4(input) {
            Ok(h) => {
                if h.protocol != 6 {
                    return false;
                }
                (ETH_LEN + IPV4_LEN, ETH_LEN + h.total_len as usize)
            },
            Err(_) => {
                return false;
            },
        }
    } else if ethertype == 0x86dd {
        match parse_ipv6(input) {
            Ok(h) => {
                if h.next_header != 6 || h.payload_len < 20 {
                    return false;
                }
                (ETH_LEN + IPV6_LEN, ETH_LEN + IPV6_LEN + h.payload_len as usize)
            },
            Err(_) => {
                return false;
            },
        }
    } else {
        return false;
    };
    if end > f.len() || end < start {
        return false;
    }
    let seg = slice_subrange(f, start, end);
    match parse_tcp(seg) {
        Ok(h) => (h.data_offset as usize) * 4 < seg.len(),
        Err(_) => false,
    }
}

/// Whether `f` can answer `b` on the bytes `frame`.
pub open spec fn answers<F: Fn(&[u8]) -> bool>(f: F, frame: Seq<u8>, b: bool) -> bool {
    exists|s: &[u8]| s@ == frame && #[trigger] call_ensures(f, (s,), b)
}

/// Whether dropping a frame (or not) is what `pump` may do: only a data
/// segment for which `drop` answers `true` is dropped, and only control
/// packets and those for which it answers `false` are kept.
pub open spec fn may_drop<F: Fn(&[u8]) -> bool>(drop: F, frame: Seq<u8>, dropped: bool) -> bool {
    if dropped {
        carries_data(frame) && answers(drop, frame, true)
    } else {
        !carries_data(frame) || answers(drop, frame, false)
    }
}

/// The endpoint after those of the first `k` frames that were not dropped.
pub open spec fn ingested_kept(
    st: StackView,
    frames: Seq<Seq<u8>>,
    dropped: Seq<bool>,
    k: nat,
) -> StackView
    decreases k,
{
    if k == 0 {
        st
    } else {
        let prev = ingested_kept(st, frames, dropped, (k - 1) as nat);
        if dropped[k - 1] {
            prev
        } else {
            ingested(prev, frames[k - 1])
        }
    }
}

/// Deliver every queued frame of `src` to `dst` in order, optionally
/// dropping the data segments that `drop` answers `true` for. Control
/// packets (SYN, ACK-only) are never dropped, so the handshake stays
/// reliable; data loss is what RACK repairs.
pub fn pump<F: Fn(&[u8]) -> bool>(src: &mut TcpStack, dst: &mut TcpStack, drop: F)
    requires
        old(dst).wf(),
        forall|s: &[u8]| call_requires(drop, (s,)),
    ensures
        final(src)@ == (StackView { txq: Seq::empty(), ..old(src)@ }),
        old(src).wf() ==> final(src).wf(),
        final(dst).wf(),
        exists|dropped: Seq<bool>|
            {
                &&& dropped.len() == old(src)@.txq.len()
                &&& forall|i: int|
                    0 <= i < dropped.len() ==> may_drop(
                        drop,
                        old(src)@.txq[i],
                        #[trigger] dropped[i],
                    )
                &&& final(dst)@ == #[trigger] ingested_kept(
                    old(dst)@,
                    old(src)@.txq,
                    dropped,
                    dropped.len(),
                )
            },
{
    let ghost frames = src@.txq;
    let ghost src0 = src@;
    let ghost dst0 = dst@;
    let ghost mut dropped: Seq<bool> = Seq::empty();
    proof {
        assert(frames.skip(0) =~= frames);
    }
    loop
        invariant
            dst.wf(),
            forall|s: &[u8]| call_requires(drop, (s,)),
            dropped.len() <= frames.len(),
            src@ == (StackView { txq: frames.skip(dropped.len() as int), ..src0 }),
            forall|i: int|
                0 <= i < dropped.len() ==> may_drop(drop, frames[i], #[trigger] dropped[i]),
            dst@ == ingested_kept(dst0, frames, dropped, dropped.len()),
        ensures
            dropped.len() == frames.len(),
        decreases frames.len() - dropped.len(),
    {
        match src.pop_tx() {
            None => {
                break;
            },
            Some(f) => {
                let gone: bool = is_data(f.as_slice()) && drop(f.as_slice());
                let ghost had = dropped;
                proof {
                    assert(frames.skip(had.len() as int).skip(1) =~= frames.skip(
                        had.len() as int + 1,
                    ));
                    dropped = dropped.push(gone);
                    if carries_data(f@) {
                        assert(answers(drop, frames[had.len() as int], gone));
                    }
                    assert(may_drop(drop, frames[had.len() as int], gone));
                    lemma_ingested_kept_prefix(dst0, frames, had, dropped, had.len());
                }
                if !gone {
                    dst.ingest(f.as_slice());
                }
            },
        }
    }
    proof {
        assert(frames.skip(frames.len() as int) =~= Seq::empty());
    }
}

proof fn lemma_ingested_kept_prefix(
    st: StackView,
    frames: Seq<Seq<u8>>,
    a: Seq<bool>,
    b: Seq<bool>,
    k: nat,
)
    requires
        k <= a.len(),
        k <= b.len(),
        forall|i: int| 0 <= i < k ==> a[i] == b[i],
    ensures
        ingested_kept(st, frames, a, k) == ingested_kept(st, frames, b, k),
    decreases k,
{
    if k > 0 {
        lemma_ingested_kept_prefix(st, frames, a, b, (k - 1) as nat);
    }
}

} // verus!
