//! The decisions of the echo engine's workers: who gets an event, which
//! datagrams are echoed and how, when a zero-copy buffer set may be reused,
//! and what a TCP connection does after each read and write.
use vstd::prelude::*;
use crate::config::{CoreConfig, ReactorConfig};
use crate::conn;
use crate::conn::{ColdState, ConnTable, Connection, HotState, CONN_CAP};
use crate::sockaddr::SockAddr;
use crate::uring;

verus! {

/// Reserved event tokens; all others are packed connection ids.
pub const TOKEN_METRICS: u64 = 0xffff_ffff_ffff_fffd;

pub const TOKEN_UDP: u64 = 0xffff_ffff_ffff_fffe;

pub const TOKEN_TCP_LISTENER: u64 = 0xffff_ffff_ffff_ffff;

/// Smallest datagram that is worth a zero-copy send.
pub const ZC_MIN_DATAGRAM: usize = 4096;

/// How long both buffer sets may be in flight before zero-copy is given up,
/// in microseconds.
pub const ZC_STALL_US: u64 = 5000;

/// What an event is about.
#[derive(Clone, Copy, PartialEq, Eq, Debug, Structural)]
pub enum Source {
    Udp,
    Listener,
    Metrics,
    Connection(u64),
}

/// What an event token stands for.
pub fn source_of(token: u64) -> (r: Source)
    ensures
        r == if token == TOKEN_UDP {
            Source::Udp
        } else if token == TOKEN_TCP_LISTENER {
            Source::Listener
        } else if token == TOKEN_METRICS {
            Source::Metrics
        } else {
            Source::Connection(token)
        },
{
    if token == TOKEN_UDP {
        Source::Udp
    } else if token == TOKEN_TCP_LISTENER {
        Source::Listener
    } else if token == TOKEN_METRICS {
        Source::Metrics
    } else {
        Source::Connection(token)
    }
}

/// What a worker does on an event.
#[derive(Clone, Copy, PartialEq, Eq, Debug, Structural)]
pub enum EventAction {
    /// Count a drop.
    Drop,
    /// Echo the waiting datagrams, copying them.
    Udp,
    /// Echo the waiting datagrams, the large ones without a copy.
    UdpZeroCopy,
    /// Accept the waiting connections.
    Accept,
    /// Serve the metrics endpoint.
    Metrics,
    /// Echo what a connection sent.
    Connection(u64),
}

/// What a worker does on an event: an error counts as a drop, whatever it is
/// about; datagrams go without a copy while that is live.
pub fn on_event(token: u64, error: bool, zc_live: bool) -> (a: EventAction)
    ensures
        a == if error {
            EventAction::Drop
        } else if token == TOKEN_UDP {
            if zc_live {
                EventAction::UdpZeroCopy
            } else {
                EventAction::Udp
            }
        } else if token == TOKEN_TCP_LISTENER {
            EventAction::Accept
        } else if token == TOKEN_METRICS {
            EventAction::Metrics
        } else {
            EventAction::Connection(token)
        },
{
    if error {
        return EventAction::Drop;
    }
    match source_of(token) {
        Source::Udp => if zc_live {
            EventAction::UdpZeroCopy
        } else {
            EventAction::Udp
        },
        Source::Listener => EventAction::Accept,
        Source::Metrics => EventAction::Metrics,
        Source::Connection(t) => EventAction::Connection(t),
    }
}

/// No connection id is a reserved token, below the last worker id.
pub proof fn law_connection_tokens_are_not_reserved(core_id: u32, slot: u32)
    requires
        core_id < u32::MAX,
    ensures
        core_id as int * 0x1_0000_0000 + slot != TOKEN_UDP,
        core_id as int * 0x1_0000_0000 + slot != TOKEN_TCP_LISTENER,
        core_id as int * 0x1_0000_0000 + slot != TOKEN_METRICS,
{
}

/// Worker count: the configured one, or one per logical CPU, or one where
/// that is unknown.
pub fn worker_count(cfg: &CoreConfig, logical_cpus: Option<usize>) -> (r: usize)
    ensures
        r == if cfg.threads > 0 {
            cfg.threads
        } else {
            match logical_cpus {
                Some(n) => n,
                None => 1,
            }
        },
{
    if cfg.threads > 0 {
        cfg.threads
    } else {
        match logical_cpus {
            Some(n) => n,
            None => 1,
        }
    }
}

/// Whether a worker serves the metrics endpoint: the first one, when a
/// path is configured.
pub fn serves_metrics(worker: usize, path_len: usize) -> (r: bool)
    ensures
        r == (worker == 0 && path_len > 0),
{
    worker == 0 && path_len > 0
}

/// The poll timeout in milliseconds: none when busy-polling, and never
/// negative.
pub open spec fn timeout_of(cfg: ReactorConfig) -> int {
    if cfg.busy_poll || cfg.timeout_ms < 0 {
        0
    } else {
        cfg.timeout_ms as int
    }
}

/// The poll timeout in seconds and nanoseconds.
pub fn poll_timeout(cfg: &ReactorConfig) -> (r: (i64, i64))
    ensures
        r.0 * 1000 + r.1 / 1_000_000 == timeout_of(*cfg),
        0 <= r.0,
        0 <= r.1 < 1_000_000_000,
        r.1 % 1_000_000 == 0,
{
    let ms: i32 = if cfg.busy_poll || cfg.timeout_ms < 0 {
        0
    } else {
        cfg.timeout_ms
    };
    ((ms / 1000) as i64, (ms % 1000) as i64 * 1_000_000)
}

// ---------------------------------------------------------------------
// UDP echo
// ---------------------------------------------------------------------

/// One received datagram: how many bytes the buffer holds, its source, and
/// whether it was larger than the buffer.
#[derive(Clone, Copy, Debug)]
pub struct RecvResult {
    pub len: usize,
    pub src: SockAddr,
    pub truncated: bool,
}

/// What a received batch gives: the datagrams to echo, by index, and what
/// to count.
pub struct EchoPlan {
    /// Echo through the batched copying send.
    pub copy: Vec<usize>,
    /// Echo with a zero-copy send each.
    pub zero_copy: Vec<usize>,
    pub packets: u64,
    pub bytes: u64,
    pub drops: u64,
}

/// The datagrams among the first `n` that are sent by copying, or without
/// copying. A truncated one is not echoed.
pub open spec fn chosen(out: Seq<RecvResult>, n: int, min_zc: int, zc: bool) -> Seq<usize>
    decreases n,
{
    if n <= 0 {
        Seq::empty()
    } else {
        let before = chosen(out, n - 1, min_zc, zc);
        let r = out[n - 1];
        if !r.truncated && (r.len >= min_zc) == zc {
            before.push((n - 1) as usize)
        } else {
            before
        }
    }
}

/// How many of the first `n` datagrams are whole.
pub open spec fn whole(out: Seq<RecvResult>, n: int) -> nat
    decreases n,
{
    if n <= 0 {
        0
    } else {
        whole(out, n - 1) + if out[n - 1].truncated {
            0nat
        } else {
            1nat
        }
    }
}

/// The bytes of the whole datagrams among the first `n`.
pub open spec fn whole_bytes(out: Seq<RecvResult>, n: int) -> nat
    decreases n,
{
    if n <= 0 {
        0
    } else {
        whole_bytes(out, n - 1) + if out[n - 1].truncated {
            0nat
        } else {
            out[n - 1].len as nat
        }
    }
}

/// Plan the echo of the first `n` received datagrams. Datagrams of at least
/// `min_zc` bytes are sent without copying.
pub fn plan_echo(out: &[RecvResult], n: usize, min_zc: usize) -> (p: EchoPlan)
    requires
        n <= out@.len(),
    ensures
        p.copy@ == chosen(out@, n as int, min_zc as int, false),
        p.zero_copy@ == chosen(out@, n as int, min_zc as int, true),
        p.packets == whole(out@, n as int),
        p.drops == n - whole(out@, n as int),
        p.bytes == whole_bytes(out@, n as int) % 0x1_0000_0000_0000_0000,
        p.copy@.len() + p.zero_copy@.len() == p.packets,
{
    let mut copy: Vec<usize> = Vec::new();
    let mut zero_copy: Vec<usize> = Vec::new();
    let mut packets: u64 = 0;
    let mut bytes: u64 = 0;
    let mut drops: u64 = 0;
    let mut i: usize = 0;
    while i < n
        invariant
            i <= n,
            n <= out@.len(),
            copy@ == chosen(out@, i as int, min_zc as int, false),
            zero_copy@ == chosen(out@, i as int, min_zc as int, true),
            packets == whole(out@, i as int),
            packets + drops == i,
            bytes == whole_bytes(out@, i as int) % 0x1_0000_0000_0000_0000,
            copy@.len() + zero_copy@.len() == packets,
        decreases n - i,
    {
        let r: RecvResult = out[i];
        if r.truncated {
            drops += 1;
        } else {
            proof {
                vstd::arithmetic::div_mod::lemma_add_mod_noop(
                    whole_bytes(out@, i as int) as int,
                    r.len as int,
                    0x1_0000_0000_0000_0000,
                );
                vstd::arithmetic::div_mod::lemma_small_mod(
                    r.len as nat,
                    0x1_0000_0000_0000_0000,
                );
            }
            packets += 1;
            bytes = bytes.wrapping_add(r.len as u64);
            if r.len >= min_zc {
                zero_copy.push(i);
            } else {
                copy.push(i);
            }
        }
        i += 1;
    }
    EchoPlan { copy, zero_copy, packets, bytes, drops }
}

/// Every whole datagram is echoed exactly once, by one way or the other;
/// truncated ones never.
pub proof fn law_whole_datagrams_are_echoed_once(
    out: Seq<RecvResult>,
    n: int,
    min_zc: int,
    i: int,
)
    requires
        0 <= i < n <= out.len(),
        n <= usize::MAX,
    ensures
        chosen(out, n, min_zc, false).contains(i as usize) <==> !out[i].truncated && out[i].len
            < min_zc,
        chosen(out, n, min_zc, true).contains(i as usize) <==> !out[i].truncated && out[i].len
            >= min_zc,
        chosen(out, n, min_zc, false).no_duplicates(),
        chosen(out, n, min_zc, true).no_duplicates(),
{
    lemma_chosen(out, n, min_zc, false);
    lemma_chosen(out, n, min_zc, true);
    lemma_chosen_has(out, n, min_zc, false, i);
    lemma_chosen_has(out, n, min_zc, true, i);
}

proof fn lemma_chosen(out: Seq<RecvResult>, n: int, min_zc: int, zc: bool)
    requires
        0 <= n <= out.len(),
        n <= usize::MAX,
    ensures
        chosen(out, n, min_zc, zc).no_duplicates(),
        forall|k: int|
            0 <= k < chosen(out, n, min_zc, zc).len() ==> {
                let x = #[trigger] chosen(out, n, min_zc, zc)[k];
                x < n && !out[x as int].truncated && (out[x as int].len >= min_zc) == zc
            },
    decreases n,
{
    if n > 0 {
        lemma_chosen(out, n - 1, min_zc, zc);
        let before = chosen(out, n - 1, min_zc, zc);
        let now = chosen(out, n, min_zc, zc);
        assert forall|k: int| 0 <= k < now.len() implies {
            let x = #[trigger] now[k];
            x < n && !out[x as int].truncated && (out[x as int].len >= min_zc) == zc
        } by {
            if k < before.len() {
                assert(now[k] == before[k]);
            }
        }
    }
}

proof fn lemma_chosen_has(out: Seq<RecvResult>, n: int, min_zc: int, zc: bool, i: int)
    requires
        0 <= i < n <= out.len(),
        n <= usize::MAX,
    ensures
        chosen(out, n, min_zc, zc).contains(i as usize) <==> !out[i].truncated && (out[i].len
            >= min_zc) == zc,
    decreases n,
{
    let now = chosen(out, n, min_zc, zc);
    lemma_chosen(out, n, min_zc, zc);
    if !out[i].truncated && (out[i].len >= min_zc) == zc {
        if i == n - 1 {
            assert(now[now.len() - 1] == i as usize);
        } else {
            lemma_chosen_has(out, n - 1, min_zc, zc, i);
            let before = chosen(out, n - 1, min_zc, zc);
            let k = choose|k: int| 0 <= k < before.len() && before[k] == i as usize;
            assert(now[k] == i as usize);
        }
    }
}

// ---------------------------------------------------------------------
// Zero-copy buffer sets
// ---------------------------------------------------------------------

/// The sends of a buffer set that the kernel still refers to: how many
/// sends came before them, and how many they are.
#[derive(Clone, Copy, PartialEq, Eq, Debug, Structural)]
pub struct InFlight {
    pub before: u64,
    pub count: u64,
}

/// Two receive buffer sets in turn. The kernel refers to the pages of a
/// zero-copy send until its notification; notifications carry no range,
/// come in order, and so are counted.
#[derive(Clone, Copy, PartialEq, Eq, Debug, Structural)]
pub struct ZcState {
    pub first: Option<InFlight>,
    pub second: Option<InFlight>,
    /// Notifications so far.
    pub acked: u64,
    /// Zero-copy sends so far.
    pub sent_total: u64,
    /// The second set is next.
    pub next_second: bool,
    /// Notifications stopped coming, so zero-copy was given up.
    pub disabled: bool,
    /// When both sets were first found in flight.
    pub stall_start: Option<u64>,
}

/// What to do when both sets are in flight.
#[derive(Clone, Copy, PartialEq, Eq, Debug, Structural)]
pub enum Stall {
    /// A set is free again, or time is left: go on.
    Retry,
    /// Zero-copy is given up.
    Disabled,
}

/// A set's sends have all been notified.
pub open spec fn settled(set: Option<InFlight>, acked: u64) -> bool {
    match set {
        Some(f) => acked >= f.before + f.count,
        None => true,
    }
}

/// A set after notifications.
pub open spec fn recycled(set: Option<InFlight>, acked: u64) -> Option<InFlight> {
    if settled(set, acked) {
        None
    } else {
        set
    }
}

impl ZcState {
    /// Each set in flight has sends, all of them among those sent so far.
    pub open spec fn wf(self) -> bool {
        &&& self.first matches Some(f) ==> f.count > 0 && f.before + f.count <= self.sent_total
        &&& self.second matches Some(f) ==> f.count > 0 && f.before + f.count <= self.sent_total
    }

    /// The state of the set that is next, and of the other one.
    pub open spec fn set(self, second: bool) -> Option<InFlight> {
        if second {
            self.second
        } else {
            self.first
        }
    }

    /// Both sets free.
    pub fn new() -> (z: Self)
        ensures
            z.wf(),
            z == (ZcState {
                first: None,
                second: None,
                acked: 0,
                sent_total: 0,
                next_second: false,
                disabled: false,
                stall_start: None,
            }),
    {
        ZcState {
            first: None,
            second: None,
            acked: 0,
            sent_total: 0,
            next_second: false,
            disabled: false,
            stall_start: None,
        }
    }

    /// Count notifications, and free each set whose sends have all been
    /// notified.
    pub fn recycle(&mut self, notifications: u64)
        requires
            old(self).wf(),
            old(self).acked + notifications <= u64::MAX,
        ensures
            final(self).wf(),
            ({
                let acked = (old(self).acked + notifications) as u64;
                *final(self) == (ZcState {
                    acked,
                    first: recycled(old(self).first, acked),
                    second: recycled(old(self).second, acked),
                    ..*old(self)
                })
            }),
    {
        self.acked = self.acked + notifications;
        if let Some(f) = self.first {
            if self.acked >= f.before + f.count {
                self.first = None;
            }
        }
        if let Some(f) = self.second {
            if self.acked >= f.before + f.count {
                self.second = None;
            }
        }
    }

    /// The set to receive into: the next one if it is free, else the other
    /// if that is free. `true` is the second set.
    pub fn choose_set(&self) -> (r: Option<bool>)
        ensures
            match r {
                Some(second) => self.set(second) is None && (second == self.next_second
                    || self.set(self.next_second) is Some),
                None => self.first is Some && self.second is Some,
            },
    {
        let next_free: bool = if self.next_second {
            self.second.is_none()
        } else {
            self.first.is_none()
        };
        let other_free: bool = if self.next_second {
            self.first.is_none()
        } else {
            self.second.is_none()
        };
        if next_free {
            Some(self.next_second)
        } else if other_free {
            Some(!self.next_second)
        } else {
            None
        }
    }

    /// What follows when both sets were in flight and notifications have
    /// been counted since: while both still are, the wait is timed, and
    /// after the grace time zero-copy is given up.
    pub open spec fn after_stall(self, now_us: u64) -> (ZcState, Stall) {
        let both = self.first is Some && self.second is Some;
        let since = match self.stall_start {
            Some(t) => t,
            None => now_us,
        };
        let over = both && now_us >= since && now_us - since >= ZC_STALL_US;
        (
            ZcState {
                stall_start: if both {
                    Some(since)
                } else {
                    None
                },
                disabled: self.disabled || over,
                ..self
            },
            if over {
                Stall::Disabled
            } else {
                Stall::Retry
            },
        )
    }

    /// Both sets were in flight; notifications have been counted since.
    pub fn stalled(&mut self, now_us: u64) -> (r: Stall)
        requires
            old(self).wf(),
        ensures
            final(self).wf(),
            (*final(self), r) == old(self).after_stall(now_us),
    {
        if self.first.is_some() && self.second.is_some() {
            let since: u64 = match self.stall_start {
                Some(t) => t,
                None => now_us,
            };
            self.stall_start = Some(since);
            if now_us >= since && now_us - since >= ZC_STALL_US {
                self.disabled = true;
                return Stall::Disabled;
            }
        } else {
            self.stall_start = None;
        }
        Stall::Retry
    }

    /// A batch received into a set was echoed with `count` zero-copy sends;
    /// the other set is next.
    pub fn sent(&mut self, second: bool, count: u64)
        requires
            old(self).wf(),
            old(self).sent_total + count <= u64::MAX,
            old(self).set(second) is None,
        ensures
            final(self).wf(),
            ({
                let f = if count > 0 {
                    Some(InFlight { before: old(self).sent_total, count })
                } else {
                    None
                };
                *final(self) == (ZcState {
                    first: if second {
                        old(self).first
                    } else {
                        f
                    },
                    second: if second {
                        f
                    } else {
                        old(self).second
                    },
                    sent_total: (old(self).sent_total + count) as u64,
                    next_second: !second,
                    ..*old(self)
                })
            }),
    {
        let f: Option<InFlight> = if count > 0 {
            Some(InFlight { before: self.sent_total, count })
        } else {
            None
        };
        self.sent_total = self.sent_total + count;
        if second {
            self.second = f;
        } else {
            self.first = f;
        }
        self.next_second = !second;
    }
}

/// Counting is exact: a set is free again exactly when the notifications
/// cover all its sends, whatever the other set does.
pub proof fn law_set_is_free_when_all_its_sends_are_notified(
    before: u64,
    count: u64,
    acked: u64,
    more: u64,
)
    requires
        count > 0,
        before + count <= u64::MAX,
        acked + more <= u64::MAX,
        acked < before + count,
    ensures
        recycled(Some(InFlight { before, count }), (acked + more) as u64) is None <==> acked + more
            >= before + count,
{
}

/// A worker never waits forever on notifications: two looks at a stall
/// that are the grace time apart, with both sets in flight at each, end it.
pub proof fn law_stall_ends(z: ZcState, t0: u64, now: u64)
    requires
        z.first is Some,
        z.second is Some,
        z.stall_start is None,
        now >= t0 + ZC_STALL_US,
    ensures
        z.after_stall(t0).1 == Stall::Retry,
        z.after_stall(t0).0.after_stall(now).1 == Stall::Disabled,
        z.after_stall(t0).0.after_stall(now).0.disabled,
{
}

// ---------------------------------------------------------------------
// TCP echo
// ---------------------------------------------------------------------

/// The outcome of a read.
#[derive(Clone, Copy, PartialEq, Eq, Debug, Structural)]
pub enum ReadResult {
    Data(usize),
    Eof,
    WouldBlock,
    Interrupted,
    Failed,
}

/// The outcome of an echo write.
#[derive(Clone, Copy, PartialEq, Eq, Debug, Structural)]
pub enum WriteResult {
    Done,
    WouldBlock,
    Failed,
}

/// What to do after a read.
#[derive(Clone, Copy, PartialEq, Eq, Debug, Structural)]
pub enum AfterRead {
    /// Write this many bytes back.
    Echo(usize),
    /// Read again.
    Again,
    /// The connection is drained.
    Drained,
    /// Close the connection.
    Close,
}

/// What to do after an echo write.
#[derive(Clone, Copy, PartialEq, Eq, Debug, Structural)]
pub enum AfterWrite {
    /// Read again.
    Again,
    /// Count a drop, discard the rest of the burst, and read again.
    Drop,
    /// Close the connection.
    Close,
}

/// What to do after a read.
pub fn after_read(r: ReadResult) -> (a: AfterRead)
    ensures
        a == match r {
            ReadResult::Data(n) => if n == 0 {
                AfterRead::Close
            } else {
                AfterRead::Echo(n)
            },
            ReadResult::Eof => AfterRead::Close,
            ReadResult::WouldBlock => AfterRead::Drained,
            ReadResult::Interrupted => AfterRead::Again,
            ReadResult::Failed => AfterRead::Close,
        },
{
    match r {
        ReadResult::Data(n) => if n == 0 {
            AfterRead::Close
        } else {
            AfterRead::Echo(n)
        },
        ReadResult::Eof => AfterRead::Close,
        ReadResult::WouldBlock => AfterRead::Drained,
        ReadResult::Interrupted => AfterRead::Again,
        ReadResult::Failed => AfterRead::Close,
    }
}

/// What to do after an echo write.
pub fn after_write(w: WriteResult) -> (a: AfterWrite)
    ensures
        a == match w {
            WriteResult::Done => AfterWrite::Again,
            WriteResult::WouldBlock => AfterWrite::Drop,
            WriteResult::Failed => AfterWrite::Close,
        },
{
    match w {
        WriteResult::Done => AfterWrite::Again,
        WriteResult::WouldBlock => AfterWrite::Drop,
        WriteResult::Failed => AfterWrite::Close,
    }
}

/// The connections of one worker: a table slot is held from accept to
/// close.
pub struct EchoConns {
    pub core_id: u32,
    pub table: ConnTable<CONN_CAP>,
    /// Whether a slot holds a connection.
    pub live: Vec<bool>,
}

impl EchoConns {
    /// The table is consistent, every slot has its state, and a slot that
    /// holds a connection is taken.
    pub open spec fn wf(&self) -> bool {
        &&& self.table.wf()
        &&& forall|i: int| 0 <= i < CONN_CAP ==> #[trigger] self.table.conns()[i] is Some
        &&& self.live@.len() == CONN_CAP
        &&& forall|i: int| 0 <= i < CONN_CAP && #[trigger] self.live@[i] ==> self.table.taken(i as nat)
    }

    /// The slot of a connection token of this worker.
    pub open spec fn slot_of(&self, token: u64) -> Option<int> {
        if token as int / 0x1_0000_0000 == self.core_id && token as int % 0x1_0000_0000 < CONN_CAP
            && self.live@[token as int % 0x1_0000_0000] {
            Some(token as int % 0x1_0000_0000)
        } else {
            None
        }
    }

    /// No connections.
    pub fn new(core_id: u32) -> (r: Self)
        ensures
            r.wf(),
            r.core_id == core_id,
            r.table.free_list() == Seq::new(CONN_CAP as nat, |i: int| i as usize),
            r.table.flag_bytes() == Seq::new(CONN_CAP as nat, |i: int| 0u8),
            forall|i: int| 0 <= i < CONN_CAP ==> conn::unused(#[trigger] r.table.conns()[i]->0),
            r.live@ == Seq::new(CONN_CAP as nat, |i: int| false),
    {
        proof {
            vstd::arithmetic::power2::lemma2_to64();
            assert(CONN_CAP as nat == vstd::arithmetic::power2::pow2(10));
        }
        let mut table: ConnTable<CONN_CAP> = ConnTable::new();
        let mut live: Vec<bool> = Vec::new();
        let ip: [u8; 4] = [0, 0, 0, 0];
        assert(ip@ =~= seq![0u8, 0, 0, 0]);
        let any = SockAddr::V4 { ip, port: 0 };
        let mut i: usize = 0;
        assert(live@ =~= Seq::new(0, |j: int| false));
        proof {
            table.law_one_place_per_slot();
        }
        while i < CONN_CAP
            invariant
                i <= CONN_CAP,
                table.wf(),
                table.conns().len() == CONN_CAP,
                table.free_list() == Seq::new(CONN_CAP as nat, |j: int| j as usize),
                any matches SockAddr::V4 { ip, port } && ip@ == seq![0u8, 0, 0, 0] && port == 0,
                table.flag_bytes() == Seq::new(CONN_CAP as nat, |j: int| 0u8),
                forall|j: int| 0 <= j < i ==> #[trigger] table.conns()[j] is Some,
                forall|j: int| 0 <= j < i ==> conn::unused(#[trigger] table.conns()[j]->0),
                live@ == Seq::new(i as nat, |j: int| false),
            decreases CONN_CAP - i,
        {
            table.initialize(i, Connection::new(any, 0));
            live.push(false);
            i += 1;
            assert(live@ =~= Seq::new(i as nat, |j: int| false));
        }
        EchoConns { core_id, table, live }
    }

    /// Admit a connection: its token, or nothing when the table is full.
    pub fn accept(&mut self, peer: SockAddr) -> (r: Option<u64>)
        requires
            old(self).wf(),
        ensures
            final(self).wf(),
            final(self).core_id == old(self).core_id,
            final(self).table.flag_bytes() == old(self).table.flag_bytes(),
            uring::hot_views(final(self).table.conns()) == uring::hot_views(
                old(self).table.conns(),
            ),
            match r {
                Some(token) => {
                    let i = old(self).table.free_list()[0] as int;
                    &&& old(self).table.free_list().len() > 0
                    &&& token == old(self).core_id * 0x1_0000_0000 + i
                    &&& final(self).table.free_list() == old(self).table.free_list().skip(1)
                    &&& final(self).slot_of(token) == Some(i)
                    &&& final(self).live@ == old(self).live@.update(i, true)
                    &&& ({
                        let cold = uring::cold_views(old(self).table.conns());
                        uring::cold_views(final(self).table.conns()) == cold.update(
                            i,
                            ColdState { peer, ..cold[i] },
                        )
                    })
                },
                None => {
                    &&& old(self).table.free_list().len() == 0
                    &&& final(self).table.free_list() == old(self).table.free_list()
                    &&& final(self).table.conns() == old(self).table.conns()
                    &&& final(self).live@ == old(self).live@
                },
            },
    {
        let ghost before = *self;
        proof {
            self.table.law_one_place_per_slot();
        }
        match self.table.acquire_index() {
            None => None,
            Some(i) => {
                proof {
                    self.table.law_one_place_per_slot();
                }
                let conn = self.table.conn_mut(i);
                let cold: ColdState = conn.cold.value;
                conn.cold.value = ColdState {
                    peer,
                    established_at: cold.established_at,
                    flags: cold.flags,
                };
                self.live.set(i, true);
                proof {
                    let f = before.table.free_list();
                    assert forall|j: int| 0 <= j < CONN_CAP
                        && #[trigger] self.live@[j] implies self.table.taken(j as nat) by {
                        if j != i {
                            assert(before.live@[j]);
                            assert(before.table.taken(j as nat));
                            if f.skip(1).contains(j as usize) {
                                let k = choose|k: int|
                                    0 <= k < f.skip(1).len() && f.skip(1)[k] == j as usize;
                                assert(f[k + 1] == j as usize);
                            }
                        }
                    }
                    assert forall|j: int| 0 <= j < CONN_CAP implies #[trigger] self.table.conns()[j]
                        is Some by {
                        assert(before.table.conns()[j] is Some);
                    }
                    assert(uring::hot_views(self.table.conns()) =~= uring::hot_views(
                        before.table.conns(),
                    ));
                    let cold = uring::cold_views(before.table.conns());
                    assert(uring::cold_views(self.table.conns()) =~= cold.update(
                        i as int,
                        ColdState { peer, ..cold[i as int] },
                    ));
                    assert((self.core_id * 0x1_0000_0000 + i) / 0x1_0000_0000 == self.core_id);
                    assert((self.core_id * 0x1_0000_0000 + i) % 0x1_0000_0000 == i);
                }
                Some(self.core_id as u64 * 0x1_0000_0000 + i as u64)
            },
        }
    }

    /// The slot of a token.
    fn slot(&self, token: u64) -> (i: usize)
        requires
            self.slot_of(token) is Some,
        ensures
            self.slot_of(token) == Some(i as int),
            i < CONN_CAP,
    {
        (token % 0x1_0000_0000) as usize
    }

    /// `n` bytes arrived on a connection: its sequence and activity advance.
    pub fn received(&mut self, token: u64, n: usize, now: u64)
        requires
            old(self).wf(),
            old(self).slot_of(token) is Some,
        ensures
            final(self).wf(),
            final(self).core_id == old(self).core_id,
            final(self).table.free_list() == old(self).table.free_list(),
            final(self).live@ == old(self).live@,
            final(self).table.flag_bytes() == old(self).table.flag_bytes(),
            uring::cold_views(final(self).table.conns()) == uring::cold_views(
                old(self).table.conns(),
            ),
            ({
                let i = old(self).slot_of(token)->0;
                let hot = uring::hot_views(old(self).table.conns());
                uring::hot_views(final(self).table.conns()) == hot.update(
                    i,
                    HotState {
                        seq: hot[i].seq.wrapping_add(n as u32),
                        last_activity: now,
                        ..hot[i]
                    },
                )
            }),
    {
        let ghost before = *self;
        let i: usize = self.slot(token);
        proof {
            self.table.law_one_place_per_slot();
        }
        let conn = self.table.conn_mut(i);
        let hot: HotState = conn.hot.value;
        #[verifier::truncate]
        let low: u32 = n as u32;
        conn.hot.value = HotState {
            seq: hot.seq.wrapping_add(low),
            last_activity: now,
            in_flight: hot.in_flight,
            fd: hot.fd,
        };
        proof {
            assert forall|j: int| 0 <= j < CONN_CAP implies #[trigger] self.table.conns()[j]
                is Some by {
                assert(before.table.conns()[j] is Some);
            }
            assert forall|j: int| 0 <= j < CONN_CAP
                && #[trigger] self.live@[j] implies self.table.taken(j as nat) by {
                assert(before.live@[j]);
                assert(before.table.taken(j as nat));
            }
            let hv = uring::hot_views(before.table.conns());
            assert(uring::hot_views(self.table.conns()) =~= hv.update(
                i as int,
                HotState {
                    seq: hv[i as int].seq.wrapping_add(n as u32),
                    last_activity: now,
                    ..hv[i as int]
                },
            ));
            assert(uring::cold_views(self.table.conns()) =~= uring::cold_views(
                before.table.conns(),
            ));
        }
    }

    /// A connection closed: its slot is free again.
    pub fn close(&mut self, token: u64)
        requires
            old(self).wf(),
            old(self).slot_of(token) is Some,
        ensures
            final(self).wf(),
            final(self).core_id == old(self).core_id,
            final(self).table.conns() == old(self).table.conns(),
            final(self).table.flag_bytes() == old(self).table.flag_bytes(),
            final(self).table.free_list() == old(self).table.free_list().push(
                (old(self).slot_of(token)->0) as usize,
            ),
            final(self).live@ == old(self).live@.update(old(self).slot_of(token)->0, false),
    {
        let ghost before = *self;
        let i: usize = self.slot(token);
        self.live.set(i, false);
        self.table.release_slot(i);
        proof {
            let f = before.table.free_list();
            assert forall|j: int| 0 <= j < CONN_CAP
                && #[trigger] self.live@[j] implies self.table.taken(j as nat) by {
                assert(j != i);
                assert(before.live@[j]);
                assert(before.table.taken(j as nat));
                if f.push(i).contains(j as usize) {
                    let k = choose|k: int| 0 <= k < f.push(i).len() && f.push(i)[k] == j as usize;
                    if k < f.len() {
                        assert(f[k] == j as usize);
                    }
                }
            }
        }
    }

    /// Whether a token names a connection of this worker.
    pub fn holds(&self, token: u64) -> (r: bool)
        requires
            self.wf(),
        ensures
            r == self.slot_of(token) is Some,
    {
        let slot: u64 = token % 0x1_0000_0000;
        if token / 0x1_0000_0000 != self.core_id as u64 || slot >= CONN_CAP as u64 {
            return false;
        }
        self.live[slot as usize]
    }
}

} // verus!
