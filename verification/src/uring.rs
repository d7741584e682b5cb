//! The completion-driven UDP and TCP echo datapath on io_uring, as a state
//! machine: each completion advances a slot or a connection and yields the
//! operations to hand to the ring.
//!
//! TCP runs in one of two modes. The modern mode keeps a multishot receive
//! armed per connection, which fills buffers of a shared pool; each filled
//! buffer is sent back and then recycled. When the buffers outstanding on a
//! connection reach the high watermark, its receive is cancelled; at the
//! low watermark buffers are provided and the receive is armed again. The
//! legacy mode keeps one read or one write in flight per connection.
use vstd::prelude::*;
use std::collections::VecDeque;
use crate::config_model;
use crate::conn;
use crate::conn::{ColdState, ConnTable, Connection, HotState, CONN_CAP};
use crate::sockaddr::SockAddr;
use crate::uring_pool;
use crate::uring_pool::{
    retain_other, swap_remove_id, BufMeta, BufferPool, Outcome, PoolView, RecvMsgOut,
    KIND_ACCEPT, KIND_POLL, KIND_PROVIDE, KIND_TCP_CLOSE, KIND_TCP_POLLOUT, KIND_TCP_READ,
    KIND_TCP_SEND, KIND_TIMEOUT, KIND_UDP_RECV, KIND_UDP_SEND, KIND_UNIT, POOL_TOTAL,
};

verus! {

/// UDP slots, each with one operation in flight.
pub const UDP_SLOTS: usize = 4;

/// Buffers provided each time a receive is armed.
pub const INIT_PROVIDE: usize = 64;

/// Buffers outstanding at which a connection's reads stop.
pub const HWM_BUFS: usize = 160;

/// Buffers outstanding at which reads resume.
pub const LWM_BUFS: usize = 64;

/// Queued operations at which the batch is submitted.
pub const FLUSH_AT: u64 = 64;

/// Error numbers.
pub const EAGAIN: i32 = 11;

pub const EINVAL: i32 = 22;

pub const EOPNOTSUPP: i32 = 95;

pub const ENOBUFS: i32 = 105;

pub const ECANCELED: i32 = 125;

/// What a UDP slot waits for.
#[derive(Clone, Copy, PartialEq, Eq, Debug, Structural)]
pub enum UdpPhase {
    Idle,
    RecvPending,
    SendPending,
}

/// An operation for the ring, or an action between operations.
#[derive(Clone, Copy, PartialEq, Eq, Debug, Structural)]
pub enum Op {
    /// Receive a datagram into a slot.
    UdpRecv { slot: usize },
    /// Send the datagram in a slot back to its source.
    UdpSend { slot: usize, len: u32 },
    /// Accept connections until the listener closes.
    AcceptMulti,
    /// Accept one connection.
    Accept,
    /// Provide a buffer to the group of a connection.
    Provide { id: u32, group: usize },
    /// Receive from a connection into its group until cancelled.
    RecvMulti { fd: i32, slot: usize },
    /// Send part of a buffer on a connection.
    Send { fd: i32, id: u32, off: u16, len: u16, slot: usize },
    /// Cancel the receive of a connection.
    CancelRecv { slot: usize },
    /// Wait until a connection can be written.
    PollOut { fd: i32, slot: usize },
    /// Take buffers back from the group of a connection.
    RemoveBuffers { count: u16, slot: usize },
    /// Wait until the metrics endpoint has a client.
    PollMetrics { fd: i32 },
    /// Wake up after a while.
    Timeout,
    /// Read once from a connection into its own buffer.
    Read { fd: i32, slot: usize },
    /// Write the front of a connection's own buffer.
    Write { fd: i32, slot: usize, len: u32 },
    /// Close a descriptor, at once.
    CloseFd { fd: i32 },
    /// Serve waiting metrics clients, at once.
    ServeMetrics,
    /// Submit what is queued.
    Submit,
}

/// The submission queue has no room for an operation.
#[derive(Clone, Copy, PartialEq, Eq, Debug, Structural)]
pub struct QueueFull;

/// What one completion adds to the counters.
#[derive(Clone, Copy, PartialEq, Eq, Debug, Structural)]
pub struct Tally {
    pub packets: u64,
    pub bytes: u64,
    pub drops: u64,
}

/// One accepted TCP connection.
pub struct TcpRingConn {
    pub fd: i32,
    /// Buffers in the group, in the order in which they were provided.
    pub provided: VecDeque<u32>,
    /// Received data awaiting a send.
    pub to_send: VecDeque<u32>,
    /// Buffers being sent.
    pub in_kernel: Vec<u32>,
    /// The flow-control measure.
    pub outstanding: usize,
    pub recv_armed: bool,
    pub poll_out: bool,
    /// Buffers are being taken back from the group.
    pub draining: bool,
    pub closing: bool,
}

/// One accepted TCP connection, as mathematics.
pub struct ConnView {
    pub fd: i32,
    pub provided: Seq<u32>,
    pub to_send: Seq<u32>,
    pub in_kernel: Seq<u32>,
    pub outstanding: usize,
    pub recv_armed: bool,
    pub poll_out: bool,
    pub draining: bool,
    pub closing: bool,
}

impl ConnView {
    /// A connection just accepted.
    pub open spec fn fresh(fd: i32) -> ConnView {
        ConnView {
            fd,
            provided: Seq::empty(),
            to_send: Seq::empty(),
            in_kernel: Seq::empty(),
            outstanding: 0,
            recv_armed: false,
            poll_out: false,
            draining: false,
            closing: false,
        }
    }

    /// Only pool buffers are listed.
    pub open spec fn wf(self) -> bool {
        uring_pool::in_pool(self.provided) && uring_pool::in_pool(self.to_send)
            && uring_pool::in_pool(self.in_kernel)
    }
}

impl TcpRingConn {
    /// The connection as mathematics.
    pub open spec fn view(&self) -> ConnView {
        ConnView {
            fd: self.fd,
            provided: self.provided@,
            to_send: self.to_send@,
            in_kernel: self.in_kernel@,
            outstanding: self.outstanding,
            recv_armed: self.recv_armed,
            poll_out: self.poll_out,
            draining: self.draining,
            closing: self.closing,
        }
    }

    fn new(fd: i32) -> (c: Self)
        ensures
            c@ == ConnView::fresh(fd),
    {
        TcpRingConn {
            fd,
            provided: VecDeque::new(),
            to_send: VecDeque::new(),
            in_kernel: Vec::new(),
            outstanding: 0,
            recv_armed: false,
            poll_out: false,
            draining: false,
            closing: false,
        }
    }
}

/// The datapath of one worker.
pub struct Datapath {
    pub core_id: u32,
    pub udp_fd: i32,
    pub listen_fd: i32,
    pub metrics_fd: Option<i32>,
    pub legacy: bool,
    /// A multishot accept is armed.
    pub accept_multi: bool,
    pub phases: Vec<UdpPhase>,
    pub conns: Vec<Option<TcpRingConn>>,
    pub table: ConnTable<CONN_CAP>,
    pub pool: BufferPool,
    /// What to hand to the ring, in order.
    pub ops: Vec<Op>,
    /// Operations queued since the last submission.
    pub queued: u64,
    /// Room of the submission queue.
    pub capacity: u64,
    pub tally: Tally,
}

/// The datapath of one worker, as mathematics.
pub struct PathView {
    pub core_id: u32,
    pub udp_fd: i32,
    pub listen_fd: i32,
    pub metrics_fd: Option<i32>,
    pub legacy: bool,
    pub accept_multi: bool,
    pub phases: Seq<UdpPhase>,
    /// Connections by slot.
    pub conns: Seq<Option<ConnView>>,
    /// Free slots, in the order in which they are handed out.
    pub free_slots: Seq<usize>,
    /// Hot state by slot.
    pub hot: Seq<HotState>,
    /// Cold state by slot.
    pub cold: Seq<ColdState>,
    /// Transport flags by slot.
    pub slot_flags: Seq<u8>,
    pub pool: PoolView,
    pub ops: Seq<Op>,
    pub queued: u64,
    pub capacity: u64,
    pub tally: Tally,
}

/// A completion, with what goes with it: the receive header of the buffer
/// that it filled, the peer of the connection that it accepted, and the
/// time in ticks.
#[derive(Clone, Copy)]
pub struct Completed {
    pub token: u64,
    pub res: Outcome,
    pub flags: u32,
    pub header: RecvMsgOut,
    pub peer: SockAddr,
    pub now: u64,
}

// ---------------------------------------------------------------------
// The transitions, as mathematics
// ---------------------------------------------------------------------

impl PathView {
    /// A connection stands in slot `i`.
    pub open spec fn is_open(self, i: int) -> bool {
        0 <= i < self.conns.len() && self.conns[i] is Some
    }

    /// The connection in slot `i`.
    pub open spec fn at(self, i: int) -> ConnView {
        self.conns[i]->0
    }

    /// With the connection in slot `i` replaced.
    pub open spec fn with(self, i: int, c: ConnView) -> PathView {
        PathView { conns: self.conns.update(i, Some(c)), ..self }
    }

    /// The slot of a connection token; one past the last when it is none of
    /// this worker's.
    pub open spec fn slot_of(self, object: u64) -> int {
        if object / 0x1_0000_0000 == self.core_id && object % 0x1_0000_0000 < CONN_CAP {
            (object % 0x1_0000_0000) as int
        } else {
            CONN_CAP as int
        }
    }

    /// Counters added.
    pub open spec fn count(self, packets: u64, bytes: u64, drops: u64) -> PathView {
        PathView {
            tally: Tally {
                packets: self.tally.packets.wrapping_add(packets),
                bytes: self.tally.bytes.wrapping_add(bytes),
                drops: self.tally.drops.wrapping_add(drops),
            },
            ..self
        }
    }

    /// An action appended.
    pub open spec fn act(self, op: Op) -> PathView {
        PathView { ops: self.ops.push(op), ..self }
    }

    /// What is queued is submitted.
    pub open spec fn submit(self) -> PathView {
        PathView { ops: self.ops.push(Op::Submit), queued: 0, ..self }
    }

    /// The queue has room.
    pub open spec fn has_room(self) -> bool {
        self.queued < self.capacity
    }

    /// An operation queued, if there is room.
    pub open spec fn push(self, op: Op) -> PathView {
        if self.has_room() {
            PathView { ops: self.ops.push(op), queued: (self.queued + 1) as u64, ..self }
        } else {
            self
        }
    }

    /// Every waiting buffer of connection `i` is sent, until the queue is
    /// full; a full queue is submitted, and the rest waits.
    pub open spec fn flushed(self, i: int) -> PathView
        decreases self.at(i).to_send.len(),
    {
        if !self.is_open(i) || self.at(i).closing || self.at(i).to_send.len() == 0 {
            self
        } else if !self.has_room() {
            self.submit()
        } else {
            let c = self.at(i);
            let id = c.to_send[0];
            let meta = self.pool.metas[id as int];
            let sent = self.with(
                i,
                ConnView { to_send: c.to_send.skip(1), in_kernel: c.in_kernel.push(id), ..c },
            );
            let queued = PathView { pool: self.pool.submit_zc(id), ..sent }.push(
                Op::Send { fd: c.fd, id, off: meta.off, len: meta.len, slot: i as usize },
            );
            if self.queued >= FLUSH_AT {
                queued.submit().flushed(i)
            } else {
                queued.flushed(i)
            }
        }
    }

    /// Up to `n` free buffers provided to connection `i`.
    pub open spec fn provided(self, i: int, n: nat) -> (PathView, bool)
        decreases n,
    {
        if n == 0 || self.pool.free.len() == 0 {
            (self, true)
        } else {
            let c = self.at(i);
            let id = self.pool.free.last();
            let taken = PathView {
                pool: self.pool.take_free(),
                ..self.with(i, ConnView { provided: c.provided.push(id), ..c })
            };
            if taken.has_room() {
                taken.push(Op::Provide { id, group: i as usize }).provided(i, (n - 1) as nat)
            } else {
                (taken, false)
            }
        }
    }

    /// The multishot receive of connection `i` armed.
    pub open spec fn armed(self, i: int) -> (PathView, bool) {
        if !self.is_open(i) || self.at(i).recv_armed || self.at(i).closing {
            (self, true)
        } else if self.has_room() {
            (
                self.push(Op::RecvMulti { fd: self.at(i).fd, slot: i as usize }).with(
                    i,
                    ConnView { recv_armed: true, ..self.at(i) },
                ),
                true,
            )
        } else {
            (self, false)
        }
    }

    /// Buffers provided to connection `i` and its receive armed, unless it
    /// is closing, armed already, or over the high watermark.
    pub open spec fn resumed(self, i: int) -> (PathView, bool) {
        if !self.is_open(i) || self.at(i).closing || self.at(i).recv_armed
            || self.at(i).outstanding >= HWM_BUFS {
            (self, true)
        } else {
            let (s, ok) = self.provided(i, INIT_PROVIDE as nat);
            if ok {
                s.armed(i)
            } else {
                (s, false)
            }
        }
    }

    /// The group of a closing connection is taken back, once its receive
    /// is dead.
    pub open spec fn group_drained(self, i: int) -> (PathView, bool) {
        if !self.is_open(i) || !self.at(i).closing || self.at(i).recv_armed || self.at(
            i,
        ).draining || self.at(i).provided.len() == 0 {
            (self, true)
        } else {
            let s = self.with(i, ConnView { draining: true, ..self.at(i) });
            (
                s.push(
                    Op::RemoveBuffers {
                        count: self.at(i).provided.len() as u16,
                        slot: i as usize,
                    },
                ),
                s.has_room(),
            )
        }
    }

    /// A closing connection is removed and its slot released, once no
    /// operation refers to it.
    pub open spec fn finished(self, i: int) -> PathView {
        if self.is_open(i) && self.at(i).closing && !self.at(i).recv_armed && self.at(
            i,
        ).provided.len() == 0 && self.at(i).in_kernel.len() == 0 {
            PathView {
                conns: self.conns.update(i, None),
                free_slots: self.free_slots.push(i as usize),
                ..self
            }
        } else {
            self
        }
    }

    /// The group taken back, then the connection finished.
    pub open spec fn wound_up(self, i: int) -> (PathView, bool) {
        let (s, ok) = self.group_drained(i);
        if ok {
            (s.finished(i), true)
        } else {
            (s, false)
        }
    }

    /// Connection `i` closed: waiting buffers are recycled, the descriptor
    /// is closed, and the group is taken back.
    pub open spec fn closed(self, i: int) -> (PathView, bool) {
        if self.legacy {
            (self.closed_legacy(i), true)
        } else if !self.is_open(i) || self.at(i).closing {
            (self, true)
        } else {
            let c = self.at(i);
            let (pool, outstanding) = released(self.pool, c.to_send, c.outstanding);
            let s = PathView {
                pool,
                ..self.with(
                    i,
                    ConnView {
                        closing: true,
                        to_send: Seq::empty(),
                        outstanding,
                        fd: if c.fd >= 0 {
                            -1i32
                        } else {
                            c.fd
                        },
                        ..c
                    },
                )
            };
            let t = if c.fd >= 0 {
                s.act(Op::CloseFd { fd: c.fd })
            } else {
                s
            };
            if c.recv_armed {
                (t.finished(i), true)
            } else {
                t.wound_up(i)
            }
        }
    }

    /// Connection `i` closed and removed at once.
    pub open spec fn closed_legacy(self, i: int) -> PathView {
        if self.is_open(i) {
            let s = if self.at(i).fd >= 0 {
                self.act(Op::CloseFd { fd: self.at(i).fd })
            } else {
                self
            };
            PathView {
                conns: s.conns.update(i, None),
                free_slots: s.free_slots.push(i as usize),
                ..s
            }
        } else {
            self
        }
    }

    /// A single read of connection `i` queued.
    pub open spec fn read_queued(self, i: int) -> (PathView, bool) {
        if !self.is_open(i) || self.at(i).recv_armed || self.at(i).closing || self.at(i).fd < 0 {
            (self, true)
        } else if self.has_room() {
            (
                self.push(Op::Read { fd: self.at(i).fd, slot: i as usize }).with(
                    i,
                    ConnView { recv_armed: true, ..self.at(i) },
                ),
                true,
            )
        } else {
            (self, false)
        }
    }

    /// `n` bytes arrived on connection `i`.
    pub open spec fn touched(self, i: int, n: u32, now: u64) -> PathView {
        PathView {
            hot: self.hot.update(
                i,
                HotState {
                    seq: self.hot[i].seq.wrapping_add(n),
                    last_activity: now,
                    ..self.hot[i]
                },
            ),
            ..self
        }
    }

    /// A single read of connection `i` completed.
    pub open spec fn read_done(self, i: int, res: Outcome, now: u64) -> (PathView, bool) {
        if !self.is_open(i) {
            (self, true)
        } else {
            let s = self.with(i, ConnView { recv_armed: false, ..self.at(i) });
            match res {
                Outcome::Done(n) => if n > 0 {
                    let t = s.count(1, n as u64, 0).touched(i, n, now);
                    (
                        t.push(Op::Write { fd: self.at(i).fd, slot: i as usize, len: n }),
                        t.has_room(),
                    )
                } else {
                    s.closed(i)
                },
                Outcome::Failed(_) => s.count(0, 0, 1).closed(i),
            }
        }
    }

    /// A filled buffer of connection `i` is queued for sending; at the high
    /// watermark, or when the receive has ended, reads stop.
    pub open spec fn buffered(
        self,
        i: int,
        id: u32,
        off: u16,
        len: u16,
        more: bool,
        now: u64,
    ) -> (PathView, bool) {
        let c = self.at(i);
        let outstanding = c.outstanding.wrapping_add(1);
        let armed = c.recv_armed && more;
        let pause = outstanding >= HWM_BUFS && armed;
        let s = PathView {
            pool: self.pool.mark_owned(id, off, len),
            ..self.with(
                i,
                ConnView {
                    provided: uring_pool::without(c.provided, id),
                    to_send: c.to_send.push(id),
                    outstanding,
                    recv_armed: armed && !(pause && self.has_room()),
                    ..c
                },
            )
        }.touched(i, len as u32, now).count(1, len as u64, 0);
        if !pause {
            (s.flushed(i), true)
        } else if self.has_room() {
            (s.push(Op::CancelRecv { slot: i as usize }).submit().flushed(i), true)
        } else {
            (s, false)
        }
    }

    /// A receive of connection `i` completed.
    #[verifier::opaque]
    pub open spec fn received(self, i: int, c: Completed) -> (PathView, bool) {
        if self.legacy {
            self.read_done(i, c.res, c.now)
        } else if !self.is_open(i) {
            (self, true)
        } else {
            let stopped = self.with(i, ConnView { recv_armed: false, ..self.at(i) });
            match c.res {
                Outcome::Done(n) => if n == 0 {
                    stopped.closed(i)
                } else if !uring_pool::has_buffer(c.flags) || uring_pool::buffer_id(c.flags)
                    >= POOL_TOTAL {
                    (self.count(0, 0, 1), true)
                } else {
                    let id = uring_pool::buffer_id(c.flags);
                    match c.header.payload_in() {
                        None => (
                            PathView {
                                pool: self.pool.give_back(id),
                                ..self.with(
                                    i,
                                    ConnView {
                                        provided: uring_pool::without(self.at(i).provided, id),
                                        ..self.at(i)
                                    },
                                )
                            }.count(0, 0, 1),
                            true,
                        ),
                        Some((off, len)) => self.buffered(
                            i,
                            id,
                            off,
                            len,
                            uring_pool::has_more(c.flags),
                            c.now,
                        ),
                    }
                },
                Outcome::Failed(e) => if e == ECANCELED || e == ENOBUFS {
                    if self.at(i).closing {
                        stopped.wound_up(i)
                    } else {
                        stopped.resumed(i)
                    }
                } else if e == EINVAL || e == EOPNOTSUPP {
                    PathView { legacy: true, accept_multi: false, ..self }.closed(i)
                } else {
                    stopped.count(0, 0, 1).closed(i)
                },
            }
        }
    }

    /// A buffer goes back to the front of the send queue, with its payload
    /// at a new place, if it was being sent.
    pub open spec fn requeued(self, i: int, id: u32, off: u16, len: u16) -> PathView {
        let c = self.at(i);
        if c.in_kernel.contains(id) {
            PathView {
                pool: self.pool.cancel_zc(id).mark_owned(id, off, len),
                ..self.with(
                    i,
                    ConnView {
                        in_kernel: uring_pool::swap_removed(c.in_kernel, id),
                        to_send: seq![id] + c.to_send,
                        ..c
                    },
                )
            }
        } else {
            self
        }
    }

    /// Connection `i` waits until it can be written.
    pub open spec fn awaiting_write(self, i: int) -> (PathView, bool) {
        if self.at(i).poll_out {
            (self, true)
        } else if self.has_room() {
            (
                self.push(Op::PollOut { fd: self.at(i).fd, slot: i as usize }).with(
                    i,
                    ConnView { poll_out: true, ..self.at(i) },
                ),
                true,
            )
        } else {
            (self, false)
        }
    }

    /// A send of a buffer ended; a recycled buffer is outstanding no more.
    pub open spec fn send_ended(self, i: int, id: u32) -> PathView {
        let c = self.at(i);
        let s = PathView { pool: self.pool.notify_zc(id), ..self };
        if self.pool.recycles(id) {
            s.with(
                i,
                ConnView {
                    in_kernel: uring_pool::without(c.in_kernel, id),
                    outstanding: c.outstanding.saturating_sub(1),
                    ..c
                },
            )
        } else {
            s
        }
    }

    /// After a buffer was recycled: a closing connection winds up, and one
    /// at the low watermark resumes.
    pub open spec fn relieved(self, i: int) -> (PathView, bool) {
        if self.at(i).closing {
            self.wound_up(i)
        } else if self.at(i).outstanding <= LWM_BUFS {
            self.resumed(i)
        } else {
            (self, true)
        }
    }

    /// A send completed. A short one is continued from where it stopped;
    /// one that took nothing waits until the connection can be written.
    #[verifier::opaque]
    pub open spec fn sent(self, c: Completed) -> (PathView, bool) {
        if self.legacy {
            let i = self.slot_of(uring_pool::object_of(c.token));
            match c.res {
                Outcome::Done(_) => self.read_queued(i),
                Outcome::Failed(_) => self.count(0, 0, 1).closed(i),
            }
        } else {
            let i = uring_pool::send_slot(c.token) as int;
            let id = uring_pool::send_buffer(c.token);
            if !self.is_open(i) {
                if uring_pool::is_notif(c.flags) && id < POOL_TOTAL {
                    (PathView { pool: self.pool.notify_zc(id), ..self }, true)
                } else {
                    (self, true)
                }
            } else if uring_pool::is_notif(c.flags) {
                self.send_ended(i, id).relieved(i)
            } else {
                let meta = self.pool.metas[id as int];
                match c.res {
                    Outcome::Done(n) => {
                        let s = self.count(0, n as u64, 0);
                        if n == 0 {
                            s.requeued(i, id, meta.off, meta.len).awaiting_write(i)
                        } else if n < meta.len {
                            (
                                s.requeued(
                                    i,
                                    id,
                                    (meta.off + n) as u16,
                                    (meta.len - n) as u16,
                                ).flushed(i),
                                true,
                            )
                        } else if self.pool.recycles(id) {
                            s.send_ended(i, id).relieved(i)
                        } else {
                            (s.send_ended(i, id), true)
                        }
                    },
                    Outcome::Failed(e) => if e == EAGAIN {
                        self.requeued(i, id, meta.off, meta.len).awaiting_write(i)
                    } else {
                        self.count(0, 0, 1).closed(i)
                    },
                }
            }
        }
    }

    /// An accept queued: multishot in the modern mode.
    pub open spec fn accept_queued(self) -> (PathView, bool) {
        if !self.has_room() {
            (self, false)
        } else if self.legacy {
            (self.push(Op::Accept), true)
        } else {
            (PathView { accept_multi: true, ..self.push(Op::AcceptMulti) }, true)
        }
    }

    /// A connection accepted into the next free slot; without one it is
    /// dropped.
    pub open spec fn admitted(self, fd: i32, peer: SockAddr) -> (PathView, bool) {
        if self.free_slots.len() == 0 {
            (self.count(0, 0, 1).act(Op::CloseFd { fd }), true)
        } else {
            let i = self.free_slots[0] as int;
            let s = PathView {
                free_slots: self.free_slots.skip(1),
                cold: self.cold.update(i, ColdState { peer, ..self.cold[i] }),
                ..self.with(i, ConnView::fresh(fd))
            };
            if self.legacy {
                s.read_queued(i)
            } else {
                s.resumed(i)
            }
        }
    }

    /// An accept completed; it is queued again unless more will follow.
    #[verifier::opaque]
    pub open spec fn accepted(self, c: Completed) -> (PathView, bool) {
        let (s, ok) = match c.res {
            Outcome::Done(fd) => self.admitted(fd as i32, c.peer),
            Outcome::Failed(_) => (self, true),
        };
        if !ok {
            (s, false)
        } else if s.listen_fd >= 0 && !(s.accept_multi && uring_pool::has_more(c.flags)) {
            s.accept_queued()
        } else {
            (s, true)
        }
    }

    /// A datagram receive queued for a slot.
    pub open spec fn udp_recv_queued(self, slot: int) -> (PathView, bool) {
        let s = PathView { phases: self.phases.update(slot, UdpPhase::RecvPending), ..self };
        (s.push(Op::UdpRecv { slot: slot as usize }), s.has_room())
    }

    /// A datagram receive completed: it is sent back; an empty or failed
    /// one is received again.
    pub open spec fn udp_received(self, slot: int, res: Outcome) -> (PathView, bool) {
        match res {
            Outcome::Done(n) => {
                let s = PathView {
                    phases: self.phases.update(slot, UdpPhase::SendPending),
                    ..self.count(1, n as u64, 0)
                };
                (s.push(Op::UdpSend { slot: slot as usize, len: n }), s.has_room())
            },
            Outcome::Failed(e) => if e == EAGAIN {
                self.udp_recv_queued(slot)
            } else {
                self.count(0, 0, 1).udp_recv_queued(slot)
            },
        }
    }

    /// Buffers were taken back from the group of connection `i`, from its
    /// front.
    pub open spec fn taken_back(self, i: int, res: Outcome) -> PathView {
        if !self.is_open(i) {
            self
        } else {
            let c = self.at(i);
            let removed: int = match res {
                Outcome::Done(n) => n as int,
                Outcome::Failed(_) => 0,
            };
            let n = if removed < c.provided.len() {
                removed
            } else {
                c.provided.len() as int
            };
            PathView {
                pool: all_given_back(self.pool, c.provided.take(n)),
                ..self.with(i, ConnView { draining: false, provided: c.provided.skip(n), ..c })
            }.finished(i)
        }
    }

    /// The metrics endpoint is watched, if there is one.
    pub open spec fn metrics_watched(self) -> (PathView, bool) {
        match self.metrics_fd {
            Some(fd) => (self.push(Op::PollMetrics { fd }), self.has_room()),
            None => (self, true),
        }
    }

    /// Receives queued for the first `n` UDP slots.
    pub open spec fn receiving(self, n: nat) -> (PathView, bool)
        decreases n,
    {
        if n == 0 {
            (self, true)
        } else {
            let (s, ok) = self.receiving((n - 1) as nat);
            if ok {
                s.udp_recv_queued(n - 1)
            } else {
                (s, false)
            }
        }
    }

    /// The first operations queued and submitted.
    pub open spec fn started(self) -> (PathView, bool) {
        let (s1, ok1) = self.receiving(UDP_SLOTS as nat);
        let (s2, ok2) = s1.accept_queued();
        let s3 = s2.push(Op::Timeout);
        let (s4, ok4) = s3.metrics_watched();
        if !ok1 {
            (s1, false)
        } else if !ok2 {
            (s2, false)
        } else if !s2.has_room() {
            (s2, false)
        } else if !ok4 {
            (s4, false)
        } else {
            (s4.submit(), true)
        }
    }

    /// One completion.
    pub open spec fn dispatched(self, c: Completed) -> (PathView, bool) {
        let s = PathView { tally: Tally { packets: 0, bytes: 0, drops: 0 }, ..self };
        let kind = uring_pool::kind_of(c.token);
        let object = uring_pool::object_of(c.token);
        let i = s.slot_of(object);
        if kind == KIND_UDP_RECV {
            s.udp_received(object as int, c.res)
        } else if kind == KIND_UDP_SEND {
            s.udp_recv_queued(object as int)
        } else if kind == KIND_ACCEPT {
            s.accepted(c)
        } else if kind == KIND_TCP_READ {
            s.received(i, c)
        } else if kind == KIND_TCP_SEND {
            s.sent(c)
        } else if kind == KIND_TCP_POLLOUT {
            if s.is_open(i) {
                (s.with(i, ConnView { poll_out: false, ..s.at(i) }).flushed(i), true)
            } else {
                (s, true)
            }
        } else if kind == KIND_TCP_CLOSE {
            (s.taken_back(i, c.res), true)
        } else if kind == KIND_POLL {
            s.act(Op::ServeMetrics).metrics_watched()
        } else if kind == KIND_TIMEOUT {
            (s.push(Op::Timeout), s.has_room())
        } else {
            (s, true)
        }
    }

    /// The token names a UDP slot, or a pool buffer of an open connection,
    /// where it must.
    pub open spec fn knows(self, token: u64) -> bool {
        let kind = uring_pool::kind_of(token);
        &&& kind == KIND_UDP_RECV || kind == KIND_UDP_SEND ==> uring_pool::object_of(token)
            < UDP_SLOTS
        &&& kind == KIND_TCP_SEND && !self.legacy && self.is_open(
            uring_pool::send_slot(token) as int,
        ) ==> uring_pool::send_buffer(token) < POOL_TOTAL
    }
}

/// The buffers of a send queue returned to the pool, as far as none of
/// their sends is in flight, and the outstanding count that is left.
pub open spec fn released(pool: PoolView, queue: Seq<u32>, outstanding: usize) -> (PoolView, usize)
    decreases queue.len(),
{
    if queue.len() == 0 {
        (pool, outstanding)
    } else {
        let id = queue[0];
        if pool.inflight[id as int] == 0 {
            released(pool.give_back(id), queue.skip(1), outstanding.saturating_sub(1))
        } else {
            released(pool, queue.skip(1), outstanding)
        }
    }
}

/// Buffers returned to the pool, in order.
pub open spec fn all_given_back(pool: PoolView, ids: Seq<u32>) -> PoolView
    decreases ids.len(),
{
    if ids.len() == 0 {
        pool
    } else {
        all_given_back(pool, ids.drop_last()).give_back(ids.last())
    }
}

// ---------------------------------------------------------------------
// The machine
// ---------------------------------------------------------------------

/// What the connections stand for.
pub open spec fn conn_views(v: Seq<Option<TcpRingConn>>) -> Seq<Option<ConnView>> {
    v.map_values(
        |c: Option<TcpRingConn>|
            match c {
                Some(x) => Some(x@),
                None => None,
            },
    )
}

/// The hot states of a table.
pub open spec fn hot_views(v: Seq<Option<Connection>>) -> Seq<HotState> {
    v.map_values(|c: Option<Connection>| (c->0).hot.value)
}

/// The cold states of a table.
pub open spec fn cold_views(v: Seq<Option<Connection>>) -> Seq<ColdState> {
    v.map_values(|c: Option<Connection>| (c->0).cold.value)
}

impl Datapath {
    /// The datapath as mathematics.
    pub open spec fn view(&self) -> PathView {
        PathView {
            core_id: self.core_id,
            udp_fd: self.udp_fd,
            listen_fd: self.listen_fd,
            metrics_fd: self.metrics_fd,
            legacy: self.legacy,
            accept_multi: self.accept_multi,
            phases: self.phases@,
            conns: conn_views(self.conns@),
            free_slots: self.table.free_list(),
            hot: hot_views(self.table.conns()),
            cold: cold_views(self.table.conns()),
            slot_flags: self.table.flag_bytes(),
            pool: self.pool@,
            ops: self.ops@,
            queued: self.queued,
            capacity: self.capacity,
            tally: self.tally,
        }
    }

    /// Every slot has its place, every connection holds a taken slot, and
    /// only pool buffers are listed.
    pub open spec fn wf(&self) -> bool {
        &&& self.table.wf()
        &&& self.pool@.wf()
        &&& self.phases@.len() == UDP_SLOTS
        &&& self.conns@.len() == CONN_CAP
        &&& self.core_id < 0x1000_0000
        &&& forall|i: int| 0 <= i < CONN_CAP ==> #[trigger] self.table.conns()[i] is Some
        &&& forall|i: int|
            0 <= i < CONN_CAP && (#[trigger] self.conns@[i]) is Some ==> self.table.taken(i as nat)
                && (self.conns@[i]->0)@.wf()
    }

    /// The datapath of worker `core_id`, with all buffers free and no
    /// connections. `modern` says whether the kernel has the multishot
    /// operations and the buffers are registered.
    pub fn new(
        core_id: u32,
        udp_fd: i32,
        listen_fd: i32,
        metrics_fd: Option<i32>,
        entries: u32,
        modern: bool,
    ) -> (d: Self)
        requires
            core_id < 0x1000_0000,
        ensures
            d.wf(),
            d@.core_id == core_id,
            d@.udp_fd == udp_fd,
            d@.listen_fd == listen_fd,
            d@.metrics_fd == metrics_fd,
            d@.legacy == !modern,
            !d@.accept_multi,
            d@.phases == Seq::new(UDP_SLOTS as nat, |i: int| UdpPhase::Idle),
            d@.conns == Seq::new(CONN_CAP as nat, |i: int| None::<ConnView>),
            d@.free_slots == Seq::new(CONN_CAP as nat, |i: int| i as usize),
            forall|i: int| 0 <= i < CONN_CAP ==> conn::unused(#[trigger] d.table.conns()[i]->0),
            d@.slot_flags == Seq::new(CONN_CAP as nat, |i: int| 0u8),
            d@.pool == PoolView::initial(),
            d@.ops == Seq::<Op>::empty(),
            d@.queued == 0,
            d@.capacity == ring_entries(entries),
            d@.tally == (Tally { packets: 0, bytes: 0, drops: 0 }),
    {
        proof {
            vstd::arithmetic::power2::lemma2_to64();
            assert(CONN_CAP as nat == vstd::arithmetic::power2::pow2(10));
        }
        let mut table: ConnTable<CONN_CAP> = ConnTable::new();
        let mut conns: Vec<Option<TcpRingConn>> = Vec::new();
        let mut i: usize = 0;
        let ip: [u8; 4] = [0, 0, 0, 0];
        assert(ip@ =~= seq![0u8, 0, 0, 0]);
        let any = SockAddr::V4 { ip, port: 0 };
        proof {
            table.law_one_place_per_slot();
        }
        while i < CONN_CAP
            invariant
                i <= CONN_CAP,
                table.wf(),
                table.conns().len() == CONN_CAP,
                table.free_list() == Seq::new(CONN_CAP as nat, |j: int| j as usize),
                any matches SockAddr::V4 { ip, port } && ip@ == seq![0u8, 0, 0, 0] && port == 0,
                table.flag_bytes() == Seq::new(CONN_CAP as nat, |j: int| 0u8),
                forall|j: int| 0 <= j < i ==> #[trigger] table.conns()[j] is Some,
                forall|j: int| 0 <= j < i ==> conn::unused(#[trigger] table.conns()[j]->0),
                conns@.len() == i,
                forall|j: int| 0 <= j < i ==> #[trigger] conns@[j] is None,
            decreases CONN_CAP - i,
        {
            table.initialize(i, Connection::new(any, 0));
            conns.push(None);
            i += 1;
        }
        let idle = UdpPhase::Idle;
        let phases: Vec<UdpPhase> = vec![idle, idle, idle, idle];
        let d = Datapath {
            core_id,
            udp_fd,
            listen_fd,
            metrics_fd,
            legacy: !modern,
            accept_multi: false,
            phases,
            conns,
            table,
            pool: BufferPool::new(),
            ops: Vec::new(),
            queued: 0,
            capacity: ring_capacity(entries),
            tally: Tally { packets: 0, bytes: 0, drops: 0 },
        };
        proof {
            assert(d@.phases =~= Seq::new(UDP_SLOTS as nat, |j: int| UdpPhase::Idle));
            assert(d@.conns =~= Seq::new(CONN_CAP as nat, |j: int| None::<ConnView>));
        }
        d
    }

    // -- lookups ---------------------------------------------------------

    fn has_conn(&self, i: usize) -> (r: bool)
        requires
            self.wf(),
        ensures
            r == self@.is_open(i as int),
    {
        if i >= CONN_CAP {
            return false;
        }
        match &self.conns[i] {
            Some(_) => true,
            None => false,
        }
    }

    /// Take a connection out of its slot, to be put back.
    fn take_conn(&mut self, i: usize) -> (c: TcpRingConn)
        requires
            old(self).wf(),
            old(self)@.is_open(i as int),
        ensures
            final(self).wf(),
            c@ == old(self)@.at(i as int),
            c@.wf(),
            final(self)@ == (PathView {
                conns: old(self)@.conns.update(i as int, None),
                ..old(self)@
            }),
            final(self).table == old(self).table,
    {
        let ghost before = self@;
        match self.conns[i].take() {
            Some(c) => {
                assert(self@.conns =~= before.conns.update(i as int, None));
                c
            },
            None => vstd::pervasive::unreached(),
        }
    }

    /// Put a connection into its empty slot.
    fn put_conn(&mut self, i: usize, c: TcpRingConn)
        requires
            old(self).wf(),
            i < CONN_CAP,
            c@.wf(),
            old(self).table.taken(i as nat),
        ensures
            final(self).wf(),
            final(self)@ == old(self)@.with(i as int, c@),
            final(self).table == old(self).table,
    {
        let ghost before = self@;
        self.conns.set(i, Some(c));
        assert(self@.conns =~= before.conns.update(i as int, Some(c@)));
    }

    fn slot_of(&self, object: u64) -> (i: usize)
        ensures
            i == self@.slot_of(object),
    {
        let slot: u64 = object % 0x1_0000_0000;
        if object / 0x1_0000_0000 == self.core_id as u64 && slot < CONN_CAP as u64 {
            slot as usize
        } else {
            CONN_CAP
        }
    }

    // -- queue -----------------------------------------------------------

    fn act(&mut self, op: Op)
        requires
            old(self).wf(),
        ensures
            final(self).wf(),
            final(self)@ == old(self)@.act(op),
            final(self).table == old(self).table,
    {
        self.ops.push(op);
    }

    fn push(&mut self, op: Op) -> (r: Result<(), QueueFull>)
        requires
            old(self).wf(),
        ensures
            final(self).wf(),
            r is Ok == old(self)@.has_room(),
            final(self)@ == old(self)@.push(op),
            final(self).table == old(self).table,
    {
        if self.queued < self.capacity {
            self.ops.push(op);
            self.queued += 1;
            Ok(())
        } else {
            Err(QueueFull)
        }
    }

    /// Submit what is queued.
    pub fn submit(&mut self)
        requires
            old(self).wf(),
        ensures
            final(self).wf(),
            final(self)@ == old(self)@.submit(),
    {
        self.ops.push(Op::Submit);
        self.queued = 0;
    }

    /// Submit when a whole batch is queued.
    pub fn flush_batch(&mut self)
        requires
            old(self).wf(),
        ensures
            final(self).wf(),
            final(self)@ == if old(self)@.queued >= FLUSH_AT {
                old(self)@.submit()
            } else {
                old(self)@
            },
    {
        if self.queued >= FLUSH_AT {
            self.submit();
        }
    }

    /// Hand over the operations, in order.
    pub fn take_ops(&mut self) -> (ops: Vec<Op>)
        requires
            old(self).wf(),
        ensures
            final(self).wf(),
            ops@ == old(self)@.ops,
            final(self)@ == (PathView { ops: Seq::empty(), ..old(self)@ }),
    {
        let mut ops: Vec<Op> = Vec::new();
        ops.append(&mut self.ops);
        assert(ops@ =~= old(self)@.ops);
        assert(self@.ops =~= Seq::<Op>::empty());
        ops
    }

    fn count(&mut self, packets: u64, bytes: u64, drops: u64)
        requires
            old(self).wf(),
        ensures
            final(self).wf(),
            final(self)@ == old(self)@.count(packets, bytes, drops),
            final(self).table == old(self).table,
    {
        self.tally = Tally {
            packets: self.tally.packets.wrapping_add(packets),
            bytes: self.tally.bytes.wrapping_add(bytes),
            drops: self.tally.drops.wrapping_add(drops),
        };
    }

    // -- modern TCP --------------------------------------------------------

    /// Send every waiting buffer of connection `i`.
    fn flush_sends(&mut self, i: usize)
        requires
            old(self).wf(),
        ensures
            final(self).wf(),
            final(self)@ == old(self)@.flushed(i as int),
    {
        if !self.has_conn(i) {
            return;
        }
        let ghost start = self@;
        loop
            invariant_except_break
                self.wf(),
                self@.is_open(i as int),
                self@.flushed(i as int) == start.flushed(i as int),
            ensures
                self.wf(),
                self@ == start.flushed(i as int),
            decreases self@.at(i as int).to_send.len(),
        {
            let ghost s = self@;
            let mut c = self.take_conn(i);
            if c.closing || c.to_send.len() == 0 {
                self.put_conn(i, c);
                assert(self@.conns =~= s.conns);
                break;
            }
            let id: u32 = c.to_send[0];
            if self.queued >= self.capacity {
                self.put_conn(i, c);
                assert(self@.conns =~= s.conns);
                self.submit();
                break;
            }
            let meta: BufMeta = self.pool.metas[id as usize];
            let due: bool = self.queued >= FLUSH_AT;
            let fd: i32 = c.fd;
            let _front = c.to_send.pop_front();
            c.in_kernel.push(id);
            self.pool.submit_zc(id);
            proof {
                assert(c.to_send@ =~= s.at(i as int).to_send.skip(1));
            }
            self.put_conn(i, c);
            let _queued = self.push(
                Op::Send { fd, id, off: meta.off, len: meta.len, slot: i },
            );
            assert(self@.conns =~= s.conns.update(i as int, Some(c@)));
            if due {
                self.submit();
            }
        }
    }

    /// Provide free buffers to connection `i`.
    fn provide(&mut self, i: usize) -> (r: Result<(), QueueFull>)
        requires
            old(self).wf(),
            old(self)@.is_open(i as int),
        ensures
            final(self).wf(),
            (final(self)@, r is Ok) == old(self)@.provided(i as int, INIT_PROVIDE as nat),
            final(self)@.is_open(i as int),
    {
        let ghost start = self@;
        let mut n: usize = INIT_PROVIDE;
        while n > 0
            invariant
                self.wf(),
                self@.is_open(i as int),
                n <= INIT_PROVIDE,
                start == old(self)@,
                self@.provided(i as int, n as nat) == start.provided(
                    i as int,
                    INIT_PROVIDE as nat,
                ),
            decreases n,
        {
            let ghost s = self@;
            match self.pool.take_free() {
                None => {
                    return Ok(());
                },
                Some(id) => {
                    let mut c = self.take_conn(i);
                    c.provided.push_back(id);
                    self.put_conn(i, c);
                    assert(self@.conns =~= s.conns.update(i as int, Some(c@)));
                    match self.push(Op::Provide { id, group: i }) {
                        Ok(_) => {},
                        Err(e) => {
                            return Err(e);
                        },
                    }
                },
            }
            n -= 1;
        }
        Ok(())
    }

    /// Arm the multishot receive of connection `i`.
    fn arm_recv(&mut self, i: usize) -> (r: Result<(), QueueFull>)
        requires
            old(self).wf(),
        ensures
            final(self).wf(),
            (final(self)@, r is Ok) == old(self)@.armed(i as int),
    {
        if !self.has_conn(i) {
            return Ok(());
        }
        let ghost s = self@;
        let mut c = self.take_conn(i);
        if c.recv_armed || c.closing {
            self.put_conn(i, c);
            assert(self@.conns =~= s.conns);
            return Ok(());
        }
        match self.push(Op::RecvMulti { fd: c.fd, slot: i }) {
            Ok(_) => {
                c.recv_armed = true;
                self.put_conn(i, c);
                assert(self@.conns =~= s.conns.update(i as int, Some(c@)));
                Ok(())
            },
            Err(e) => {
                self.put_conn(i, c);
                assert(self@.conns =~= s.conns);
                Err(e)
            },
        }
    }

    /// Provide buffers to connection `i` and arm its receive, when it may
    /// read.
    fn provide_and_arm_recv(&mut self, i: usize) -> (r: Result<(), QueueFull>)
        requires
            old(self).wf(),
        ensures
            final(self).wf(),
            (final(self)@, r is Ok) == old(self)@.resumed(i as int),
    {
        if !self.has_conn(i) {
            return Ok(());
        }
        let ghost s = self@;
        let c = self.take_conn(i);
        let stays: bool = c.closing || c.recv_armed || c.outstanding >= HWM_BUFS;
        self.put_conn(i, c);
        assert(self@.conns =~= s.conns);
        if stays {
            return Ok(());
        }
        match self.provide(i) {
            Ok(_) => self.arm_recv(i),
            Err(e) => Err(e),
        }
    }

    /// Take back the group of a closing connection.
    fn maybe_drain_group(&mut self, i: usize) -> (r: Result<(), QueueFull>)
        requires
            old(self).wf(),
        ensures
            final(self).wf(),
            (final(self)@, r is Ok) == old(self)@.group_drained(i as int),
    {
        if !self.has_conn(i) {
            return Ok(());
        }
        let ghost s = self@;
        let mut c = self.take_conn(i);
        if !c.closing || c.recv_armed || c.draining || c.provided.len() == 0 {
            self.put_conn(i, c);
            assert(self@.conns =~= s.conns);
            return Ok(());
        }
        c.draining = true;
        let count: u16 = c.provided.len() as u16;
        self.put_conn(i, c);
        assert(self@.conns =~= s.conns.update(i as int, Some(c@)));
        self.push(Op::RemoveBuffers { count, slot: i })
    }

    /// Release the slot of a connection that was taken out.
    fn release(&mut self, i: usize)
        requires
            old(self).wf(),
            i < CONN_CAP,
            old(self)@.conns[i as int] is None,
            old(self).table.taken(i as nat),
        ensures
            final(self).wf(),
            final(self)@ == (PathView {
                free_slots: old(self)@.free_slots.push(i),
                ..old(self)@
            }),
    {
        let ghost before = *self;
        self.table.release_slot(i);
        proof {
            assert forall|j: int| 0 <= j < CONN_CAP && (#[trigger] self.conns@[j])
                is Some implies self.table.taken(j as nat) by {
                assert(before.table.taken(j as nat));
                assert(self@.conns[i as int] is None);
                assert(j != i);
                let f = before.table.free_list();
                if f.push(i).contains(j as usize) {
                    let k = choose|k: int| 0 <= k < f.push(i).len() && f.push(i)[k] == j as usize;
                    if k < f.len() {
                        assert(f[k] == j as usize);
                    }
                }
            }
        }
    }

    /// Remove a closing connection to which no operation refers.
    fn try_finish_close(&mut self, i: usize)
        requires
            old(self).wf(),
        ensures
            final(self).wf(),
            final(self)@ == old(self)@.finished(i as int),
    {
        if !self.has_conn(i) {
            return;
        }
        let ghost s = self@;
        let c = self.take_conn(i);
        if c.closing && !c.recv_armed && c.provided.len() == 0 && c.in_kernel.len() == 0 {
            self.release(i);
        } else {
            self.put_conn(i, c);
            assert(self@.conns =~= s.conns);
        }
    }

    fn wind_up(&mut self, i: usize) -> (r: Result<(), QueueFull>)
        requires
            old(self).wf(),
        ensures
            final(self).wf(),
            (final(self)@, r is Ok) == old(self)@.wound_up(i as int),
    {
        match self.maybe_drain_group(i) {
            Ok(_) => {
                self.try_finish_close(i);
                Ok(())
            },
            Err(e) => Err(e),
        }
    }

    /// Recycle the waiting buffers of a connection that was taken out.
    fn release_queue(&mut self, c: &mut TcpRingConn)
        requires
            old(self).wf(),
            old(c)@.wf(),
        ensures
            final(self).wf(),
            final(self).table == old(self).table,
            final(c)@.wf(),
            ({
                let (pool, outstanding) = released(
                    old(self)@.pool,
                    old(c)@.to_send,
                    old(c)@.outstanding,
                );
                &&& final(self)@ == (PathView { pool, ..old(self)@ })
                &&& final(c)@ == (ConnView {
                    to_send: Seq::empty(),
                    outstanding,
                    ..old(c)@
                })
            }),
    {
        let ghost start = released(self@.pool, c@.to_send, c@.outstanding);
        let ghost path = self@;
        let ghost conn = c@;
        while c.to_send.len() > 0
            invariant
                self.wf(),
                self.table == old(self).table,
                c@.wf(),
                released(self@.pool, c@.to_send, c@.outstanding) == start,
                self@ == (PathView { pool: self@.pool, ..path }),
                c@ == (ConnView {
                    to_send: c@.to_send,
                    outstanding: c@.outstanding,
                    ..conn
                }),
            decreases c@.to_send.len(),
        {
            let ghost queue = c@.to_send;
            let id: u32 = c.to_send[0];
            let _front = c.to_send.pop_front();
            assert(c@.to_send =~= queue.skip(1));
            if self.pool.zc_settled(id) {
                self.pool.give_back(id);
                c.outstanding = c.outstanding.saturating_sub(1);
            }
        }
        assert(c@.to_send =~= Seq::<u32>::empty());
    }

    /// Close connection `i`.
    fn close_tcp(&mut self, i: usize) -> (r: Result<(), QueueFull>)
        requires
            old(self).wf(),
        ensures
            final(self).wf(),
            (final(self)@, r is Ok) == old(self)@.closed(i as int),
    {
        if self.legacy {
            self.close_legacy_tcp(i);
            return Ok(());
        }
        if !self.has_conn(i) {
            return Ok(());
        }
        let ghost s = self@;
        let mut c = self.take_conn(i);
        if c.closing {
            self.put_conn(i, c);
            assert(self@.conns =~= s.conns);
            return Ok(());
        }
        c.closing = true;
        self.release_queue(&mut c);
        let fd: i32 = c.fd;
        let armed: bool = c.recv_armed;
        if fd >= 0 {
            c.fd = -1;
        }
        self.put_conn(i, c);
        assert(self@.conns =~= s.conns.update(i as int, Some(c@)));
        if fd >= 0 {
            self.act(Op::CloseFd { fd });
        }
        if armed {
            self.try_finish_close(i);
            Ok(())
        } else {
            self.wind_up(i)
        }
    }

    // -- legacy TCP --------------------------------------------------------

    fn close_legacy_tcp(&mut self, i: usize)
        requires
            old(self).wf(),
        ensures
            final(self).wf(),
            final(self)@ == old(self)@.closed_legacy(i as int),
    {
        if !self.has_conn(i) {
            return;
        }
        let c = self.take_conn(i);
        if c.fd >= 0 {
            self.act(Op::CloseFd { fd: c.fd });
        }
        self.release(i);
    }

    fn submit_legacy_tcp_read(&mut self, i: usize) -> (r: Result<(), QueueFull>)
        requires
            old(self).wf(),
        ensures
            final(self).wf(),
            (final(self)@, r is Ok) == old(self)@.read_queued(i as int),
    {
        if !self.has_conn(i) {
            return Ok(());
        }
        let ghost s = self@;
        let mut c = self.take_conn(i);
        if c.recv_armed || c.closing || c.fd < 0 {
            self.put_conn(i, c);
            assert(self@.conns =~= s.conns);
            return Ok(());
        }
        match self.push(Op::Read { fd: c.fd, slot: i }) {
            Ok(_) => {
                c.recv_armed = true;
                self.put_conn(i, c);
                assert(self@.conns =~= s.conns.update(i as int, Some(c@)));
                Ok(())
            },
            Err(e) => {
                self.put_conn(i, c);
                assert(self@.conns =~= s.conns);
                Err(e)
            },
        }
    }

    fn touch(&mut self, i: usize, n: u32, now: u64)
        requires
            old(self).wf(),
            i < CONN_CAP,
        ensures
            final(self).wf(),
            final(self)@ == old(self)@.touched(i as int, n, now),
    {
        let ghost before = *self;
        proof {
            self.table.law_one_place_per_slot();
        }
        let conn = self.table.conn_mut(i);
        let hot: HotState = conn.hot.value;
        conn.hot.value = HotState {
            seq: hot.seq.wrapping_add(n),
            last_activity: now,
            in_flight: hot.in_flight,
            fd: hot.fd,
        };
        proof {
            assert(self@.hot =~= before@.touched(i as int, n, now).hot);
            assert(self@.cold =~= before@.cold);
            assert forall|j: int| 0 <= j < CONN_CAP implies #[trigger] self.table.conns()[j]
                is Some by {
                assert(before.table.conns()[j] is Some);
            }
            assert forall|j: int| 0 <= j < CONN_CAP && (#[trigger] self.conns@[j])
                is Some implies self.table.taken(j as nat) by {
                assert(before.table.taken(j as nat));
            }
        }
    }

    fn dispatch_legacy_tcp_recv(&mut self, i: usize, res: Outcome, now: u64) -> (r: Result<
        (),
        QueueFull,
    >)
        requires
            old(self).wf(),
        ensures
            final(self).wf(),
            (final(self)@, r is Ok) == old(self)@.read_done(i as int, res, now),
    {
        if !self.has_conn(i) {
            return Ok(());
        }
        let ghost s = self@;
        let mut c = self.take_conn(i);
        c.recv_armed = false;
        let fd: i32 = c.fd;
        self.put_conn(i, c);
        assert(self@.conns =~= s.conns.update(i as int, Some(c@)));
        match res {
            Outcome::Done(n) => if n > 0 {
                self.count(1, n as u64, 0);
                self.touch(i, n, now);
                self.push(Op::Write { fd, slot: i, len: n })
            } else {
                self.close_tcp(i)
            },
            Outcome::Failed(_) => {
                self.count(0, 0, 1);
                self.close_tcp(i)
            },
        }
    }

    // -- completions -------------------------------------------------------

    /// A buffer of connection `i` was filled.
    fn buffer_filled(
        &mut self,
        i: usize,
        id: u32,
        off: u16,
        len: u16,
        more: bool,
        now: u64,
    ) -> (r: Result<(), QueueFull>)
        requires
            old(self).wf(),
            old(self)@.is_open(i as int),
            id < POOL_TOTAL,
        ensures
            final(self).wf(),
            (final(self)@, r is Ok) == old(self)@.buffered(i as int, id, off, len, more, now),
    {
        let ghost s = self@;
        self.pool.mark_owned(id, off, len);
        let mut c = self.take_conn(i);
        proof {
            uring_pool::lemma_without_in_pool(c@.provided, id);
        }
        retain_deque(&mut c.provided, id);
        c.to_send.push_back(id);
        c.outstanding = c.outstanding.wrapping_add(1);
        if !more {
            c.recv_armed = false;
        }
        let pause: bool = c.outstanding >= HWM_BUFS && c.recv_armed;
        let room: bool = self.queued < self.capacity;
        if pause && room {
            c.recv_armed = false;
        }
        self.put_conn(i, c);
        assert(self@.conns =~= s.conns.update(i as int, Some(c@)));
        self.touch(i, len as u32, now);
        self.count(1, len as u64, 0);
        if pause {
            match self.push(Op::CancelRecv { slot: i }) {
                Ok(_) => {
                    self.submit();
                },
                Err(e) => {
                    return Err(e);
                },
            }
        }
        self.flush_sends(i);
        Ok(())
    }

    /// A receive of connection `i` completed.
    fn dispatch_tcp_recv(&mut self, i: usize, done: &Completed) -> (r: Result<(), QueueFull>)
        requires
            old(self).wf(),
        ensures
            final(self).wf(),
            (final(self)@, r is Ok) == old(self)@.received(i as int, *done),
    {
        reveal(PathView::received);
        if self.legacy {
            return self.dispatch_legacy_tcp_recv(i, done.res, done.now);
        }
        if !self.has_conn(i) {
            return Ok(());
        }
        let ghost s = self@;
        match done.res {
            Outcome::Done(n) => {
                if n == 0 {
                    self.disarm(i);
                    return self.close_tcp(i);
                }
                let id: u32 = done.flags / 65536;
                if done.flags % 2 != 1 || id as usize >= POOL_TOTAL {
                    self.count(0, 0, 1);
                    return Ok(());
                }
                match done.header.payload() {
                    None => {
                        self.pool.give_back(id);
                        let mut c = self.take_conn(i);
                        proof {
                            uring_pool::lemma_without_in_pool(c@.provided, id);
                        }
                        retain_deque(&mut c.provided, id);
                        self.put_conn(i, c);
                        assert(self@.conns =~= s.conns.update(i as int, Some(c@)));
                        self.count(0, 0, 1);
                        Ok(())
                    },
                    Some((off, len)) => self.buffer_filled(
                        i,
                        id,
                        off,
                        len,
                        done.flags / 2 % 2 == 1,
                        done.now,
                    ),
                }
            },
            Outcome::Failed(e) => {
                if e == ECANCELED || e == ENOBUFS {
                    let closing: bool = self.disarm(i);
                    if closing {
                        self.wind_up(i)
                    } else {
                        self.provide_and_arm_recv(i)
                    }
                } else if e == EINVAL || e == EOPNOTSUPP {
                    self.legacy = true;
                    self.accept_multi = false;
                    self.close_tcp(i)
                } else {
                    self.disarm(i);
                    self.count(0, 0, 1);
                    self.close_tcp(i)
                }
            },
        }
    }

    /// The receive of connection `i` is no longer armed; whether the
    /// connection is closing.
    fn disarm(&mut self, i: usize) -> (closing: bool)
        requires
            old(self).wf(),
            old(self)@.is_open(i as int),
        ensures
            final(self).wf(),
            closing == old(self)@.at(i as int).closing,
            final(self)@ == old(self)@.with(
                i as int,
                (ConnView { recv_armed: false, ..old(self)@.at(i as int) }),
            ),
    {
        let ghost s = self@;
        let mut c = self.take_conn(i);
        c.recv_armed = false;
        let closing: bool = c.closing;
        self.put_conn(i, c);
        assert(self@.conns =~= s.conns.update(i as int, Some(c@)));
        closing
    }

    fn requeue(&mut self, i: usize, id: u32, off: u16, len: u16)
        requires
            old(self).wf(),
            old(self)@.is_open(i as int),
            id < POOL_TOTAL,
        ensures
            final(self).wf(),
            final(self)@ == old(self)@.requeued(i as int, id, off, len),
            final(self)@.is_open(i as int),
    {
        let ghost s = self@;
        let mut c = self.take_conn(i);
        let ghost kernel = c@.in_kernel;
        let found: bool = swap_remove_id(&mut c.in_kernel, id);
        if found {
            proof {
                uring_pool::lemma_first_index(kernel, id);
            }
            c.to_send.push_front(id);
            self.pool.cancel_zc(id);
            self.pool.mark_owned(id, off, len);
            assert(c@.to_send =~= seq![id] + s.at(i as int).to_send);
        }
        self.put_conn(i, c);
        proof {
            if found {
                assert(self@.conns =~= s.conns.update(i as int, Some(c@)));
            } else {
                assert(self@.conns =~= s.conns);
            }
        }
    }

    fn await_write(&mut self, i: usize) -> (r: Result<(), QueueFull>)
        requires
            old(self).wf(),
            old(self)@.is_open(i as int),
        ensures
            final(self).wf(),
            (final(self)@, r is Ok) == old(self)@.awaiting_write(i as int),
    {
        let ghost s = self@;
        let mut c = self.take_conn(i);
        if c.poll_out {
            self.put_conn(i, c);
            assert(self@.conns =~= s.conns);
            return Ok(());
        }
        match self.push(Op::PollOut { fd: c.fd, slot: i }) {
            Ok(_) => {
                c.poll_out = true;
                self.put_conn(i, c);
                assert(self@.conns =~= s.conns.update(i as int, Some(c@)));
                Ok(())
            },
            Err(e) => {
                self.put_conn(i, c);
                assert(self@.conns =~= s.conns);
                Err(e)
            },
        }
    }

    fn end_send(&mut self, i: usize, id: u32) -> (recycled: bool)
        requires
            old(self).wf(),
            old(self)@.is_open(i as int),
            id < POOL_TOTAL,
        ensures
            final(self).wf(),
            recycled == old(self)@.pool.recycles(id),
            final(self)@ == old(self)@.send_ended(i as int, id),
            final(self)@.is_open(i as int),
    {
        let ghost s = self@;
        let recycled: bool = self.pool.notify_zc(id);
        if recycled {
            let mut c = self.take_conn(i);
            proof {
                uring_pool::lemma_without_in_pool(c@.in_kernel, id);
            }
            retain_other(&mut c.in_kernel, id);
            c.outstanding = c.outstanding.saturating_sub(1);
            self.put_conn(i, c);
            assert(self@.conns =~= s.conns.update(i as int, Some(c@)));
        }
        recycled
    }

    fn relieve(&mut self, i: usize) -> (r: Result<(), QueueFull>)
        requires
            old(self).wf(),
            old(self)@.is_open(i as int),
        ensures
            final(self).wf(),
            (final(self)@, r is Ok) == old(self)@.relieved(i as int),
    {
        let ghost s = self@;
        let c = self.take_conn(i);
        let closing: bool = c.closing;
        let low: bool = c.outstanding <= LWM_BUFS;
        self.put_conn(i, c);
        assert(self@.conns =~= s.conns);
        if closing {
            self.wind_up(i)
        } else if low {
            self.provide_and_arm_recv(i)
        } else {
            Ok(())
        }
    }

    /// A send completed.
    fn dispatch_tcp_send(&mut self, done: &Completed) -> (r: Result<(), QueueFull>)
        requires
            old(self).wf(),
            !old(self).legacy && old(self)@.is_open(uring_pool::send_slot(done.token) as int)
                ==> uring_pool::send_buffer(done.token) < POOL_TOTAL,
        ensures
            final(self).wf(),
            (final(self)@, r is Ok) == old(self)@.sent(*done),
    {
        reveal(PathView::sent);
        if self.legacy {
            let i: usize = self.slot_of(done.token % KIND_UNIT);
            return match done.res {
                Outcome::Done(_) => self.submit_legacy_tcp_read(i),
                Outcome::Failed(_) => {
                    self.count(0, 0, 1);
                    self.close_tcp(i)
                },
            };
        }
        let i: usize = (done.token % 0x1_0000_0000) as usize;
        let id: u32 = (done.token / 0x1_0000_0000 % 65536) as u32;
        let notif: bool = done.flags / 8 % 2 == 1;
        if !self.has_conn(i) {
            if notif && (id as usize) < POOL_TOTAL {
                let _recycled = self.pool.notify_zc(id);
            }
            return Ok(());
        }
        if notif {
            let _recycled = self.end_send(i, id);
            return self.relieve(i);
        }
        let meta: BufMeta = self.pool.metas[id as usize];
        match done.res {
            Outcome::Done(n) => {
                self.count(0, n as u64, 0);
                if n == 0 {
                    self.requeue(i, id, meta.off, meta.len);
                    self.await_write(i)
                } else if n < meta.len as u32 {
                    self.requeue(
                        i,
                        id,
                        (meta.off as u32 + n) as u16,
                        (meta.len as u32 - n) as u16,
                    );
                    self.flush_sends(i);
                    Ok(())
                } else if self.end_send(i, id) {
                    self.relieve(i)
                } else {
                    Ok(())
                }
            },
            Outcome::Failed(e) => if e == EAGAIN {
                self.requeue(i, id, meta.off, meta.len);
                self.await_write(i)
            } else {
                self.count(0, 0, 1);
                self.close_tcp(i)
            },
        }
    }

    fn submit_accept(&mut self) -> (r: Result<(), QueueFull>)
        requires
            old(self).wf(),
        ensures
            final(self).wf(),
            (final(self)@, r is Ok) == old(self)@.accept_queued(),
    {
        if self.legacy {
            return self.push(Op::Accept);
        }
        match self.push(Op::AcceptMulti) {
            Ok(_) => {
                self.accept_multi = true;
                Ok(())
            },
            Err(e) => Err(e),
        }
    }

    /// Admit an accepted connection.
    fn take_in(&mut self, fd: i32, peer: SockAddr) -> (r: Result<(), QueueFull>)
        requires
            old(self).wf(),
        ensures
            final(self).wf(),
            (final(self)@, r is Ok) == old(self)@.admitted(fd, peer),
    {
        let ghost before = *self;
        proof {
            self.table.law_one_place_per_slot();
        }
        match self.table.acquire_index() {
            None => {
                self.count(0, 0, 1);
                self.act(Op::CloseFd { fd });
                Ok(())
            },
            Some(i) => {
                proof {
                    self.table.law_one_place_per_slot();
                    assert forall|j: int| 0 <= j < CONN_CAP && (#[trigger] self.conns@[j])
                        is Some implies self.table.taken(j as nat) by {
                        assert(before.table.taken(j as nat));
                        let f = before.table.free_list();
                        if f.skip(1).contains(j as usize) {
                            let k = choose|k: int|
                                0 <= k < f.skip(1).len() && f.skip(1)[k] == j as usize;
                            assert(f[k + 1] == j as usize);
                        }
                    }
                    assert(self.wf());
                }
                let ghost mid = *self;
                let conn = self.table.conn_mut(i);
                let cold: ColdState = conn.cold.value;
                conn.cold.value = ColdState {
                    peer,
                    established_at: cold.established_at,
                    flags: cold.flags,
                };
                proof {
                    assert(self@.hot =~= before@.hot);
                    assert(self@.cold =~= before@.cold.update(
                        i as int,
                        ColdState { peer, ..before@.cold[i as int] },
                    ));
                    assert forall|j: int| 0 <= j < CONN_CAP implies #[trigger] self.table.conns()[j]
                        is Some by {
                        assert(mid.table.conns()[j] is Some);
                    }
                    assert forall|j: int| 0 <= j < CONN_CAP && (#[trigger] self.conns@[j])
                        is Some implies self.table.taken(j as nat) by {
                        assert(mid.table.taken(j as nat));
                    }
                    assert(self.wf());
                    assert(self.table.taken(i as nat));
                }
                self.put_conn(i, TcpRingConn::new(fd));
                if self.legacy {
                    self.submit_legacy_tcp_read(i)
                } else {
                    self.provide_and_arm_recv(i)
                }
            },
        }
    }

    /// An accept completed.
    fn dispatch_accept(&mut self, done: &Completed) -> (r: Result<(), QueueFull>)
        requires
            old(self).wf(),
        ensures
            final(self).wf(),
            (final(self)@, r is Ok) == old(self)@.accepted(*done),
    {
        reveal(PathView::accepted);
        match done.res {
            Outcome::Done(fd) => {
                let admitted = self.take_in(fd as i32, done.peer);
                match admitted {
                    Ok(_) => {},
                    Err(e) => {
                        return Err(e);
                    },
                }
            },
            Outcome::Failed(_) => {},
        }
        if self.listen_fd >= 0 && !(self.accept_multi && done.flags / 2 % 2 == 1) {
            self.submit_accept()
        } else {
            Ok(())
        }
    }

    fn submit_udp_recv(&mut self, slot: usize) -> (r: Result<(), QueueFull>)
        requires
            old(self).wf(),
            slot < UDP_SLOTS,
        ensures
            final(self).wf(),
            (final(self)@, r is Ok) == old(self)@.udp_recv_queued(slot as int),
    {
        self.phases.set(slot, UdpPhase::RecvPending);
        self.push(Op::UdpRecv { slot })
    }

    fn dispatch_udp_recv(&mut self, slot: usize, res: Outcome) -> (r: Result<(), QueueFull>)
        requires
            old(self).wf(),
            slot < UDP_SLOTS,
        ensures
            final(self).wf(),
            (final(self)@, r is Ok) == old(self)@.udp_received(slot as int, res),
    {
        match res {
            Outcome::Done(n) => {
                self.count(1, n as u64, 0);
                self.phases.set(slot, UdpPhase::SendPending);
                self.push(Op::UdpSend { slot, len: n })
            },
            Outcome::Failed(e) => {
                if e != EAGAIN {
                    self.count(0, 0, 1);
                }
                self.submit_udp_recv(slot)
            },
        }
    }

    /// Buffers were taken back from the group of connection `i`.
    fn dispatch_removed(&mut self, i: usize, res: Outcome)
        requires
            old(self).wf(),
        ensures
            final(self).wf(),
            final(self)@ == old(self)@.taken_back(i as int, res),
    {
        if !self.has_conn(i) {
            return;
        }
        let ghost s = self@;
        let mut c = self.take_conn(i);
        c.draining = false;
        let removed: usize = match res {
            Outcome::Done(n) => n as usize,
            Outcome::Failed(_) => 0,
        };
        let n: usize = if removed < c.provided.len() {
            removed
        } else {
            c.provided.len()
        };
        let ghost group = c@.provided;
        let ghost conn = c@;
        let ghost path = self@;
        let mut k: usize = 0;
        assert(group.take(0) =~= Seq::empty());
        assert(group.skip(0) =~= group);
        while k < n
            invariant
                k <= n,
                n <= group.len(),
                self.wf(),
                self.table.taken(i as nat),
                i < CONN_CAP,
                c@.wf(),
                c@ == (ConnView { provided: group.skip(k as int), ..conn }),
                self@ == (PathView {
                    pool: all_given_back(s.pool, group.take(k as int)),
                    ..path
                }),
                path.pool == s.pool,
            decreases n - k,
        {
            let id: u32 = c.provided[0];
            let _front = c.provided.pop_front();
            self.pool.give_back(id);
            k += 1;
            proof {
                assert(group.take(k as int).drop_last() =~= group.take(k - 1));
                assert(group.take(k as int).last() == id);
                assert(c@.provided =~= group.skip(k as int));
            }
        }
        self.put_conn(i, c);
        assert(self@.conns =~= s.conns.update(i as int, Some(c@)));
        self.try_finish_close(i);
    }

    fn submit_poll(&mut self) -> (r: Result<(), QueueFull>)
        requires
            old(self).wf(),
        ensures
            final(self).wf(),
            (final(self)@, r is Ok) == old(self)@.metrics_watched(),
    {
        match self.metrics_fd {
            Some(fd) => self.push(Op::PollMetrics { fd }),
            None => Ok(()),
        }
    }

    /// Queue the first operations: a receive per UDP slot, an accept, the
    /// periodic wake-up and the metrics endpoint; and submit them.
    pub fn start(&mut self) -> (r: Result<(), QueueFull>)
        requires
            old(self).wf(),
        ensures
            final(self).wf(),
            (final(self)@, r is Ok) == old(self)@.started(),
    {
        let ghost s0 = self@;
        let mut slot: usize = 0;
        assert(s0.receiving(0) == (s0, true));
        while slot < UDP_SLOTS
            invariant
                slot <= UDP_SLOTS,
                self.wf(),
                s0 == old(self)@,
                s0.receiving(slot as nat) == (self@, true),
            decreases UDP_SLOTS - slot,
        {
            match self.submit_udp_recv(slot) {
                Ok(_) => {},
                Err(e) => {
                    proof {
                        lemma_receiving_stops(s0, (slot + 1) as nat);
                    }
                    return Err(e);
                },
            }
            slot += 1;
        }
        match self.submit_accept() {
            Ok(_) => {},
            Err(e) => {
                return Err(e);
            },
        }
        match self.push(Op::Timeout) {
            Ok(_) => {},
            Err(e) => {
                return Err(e);
            },
        }
        match self.submit_poll() {
            Ok(_) => {},
            Err(e) => {
                return Err(e);
            },
        }
        self.submit();
        Ok(())
    }

    /// The descriptors of the connections that are still open, to be closed
    /// when the datapath ends.
    pub fn open_fds(&self) -> (fds: Vec<i32>)
        requires
            self.wf(),
        ensures
            fds@ == fds_of(self@.conns),
    {
        let mut fds: Vec<i32> = Vec::new();
        let ghost cv = self@.conns;
        let mut i: usize = 0;
        assert(fds@ =~= fds_of(cv.take(0)));
        while i < CONN_CAP
            invariant
                i <= CONN_CAP,
                self.conns@.len() == CONN_CAP,
                cv == conn_views(self.conns@),
                fds@ == fds_of(cv.take(i as int)),
            decreases CONN_CAP - i,
        {
            proof {
                assert(cv.take(i + 1).drop_last() =~= cv.take(i as int));
                assert(cv.take(i + 1).last() == cv[i as int]);
            }
            match &self.conns[i] {
                Some(c) => {
                    if c.fd >= 0 {
                        fds.push(c.fd);
                    }
                },
                None => {},
            }
            i += 1;
        }
        assert(cv.take(i as int) =~= cv);
        fds
    }

    /// Whether a token may be dispatched.
    pub fn accepts(&self, token: u64) -> (r: bool)
        ensures
            r == self@.knows(token),
    {
        let kind: u64 = token / KIND_UNIT;
        let udp: bool = kind == KIND_UDP_RECV || kind == KIND_UDP_SEND;
        if udp && token % KIND_UNIT >= UDP_SLOTS as u64 {
            return false;
        }
        let id: u32 = (token / 0x1_0000_0000 % 65536) as u32;
        let i: u64 = token % 0x1_0000_0000;
        if kind != KIND_TCP_SEND || self.legacy || (id as usize) < POOL_TOTAL || i
            >= self.conns.len() as u64 {
            return true;
        }
        assert(conn_views(self.conns@)[i as int] is Some == self.conns@[i as int] is Some);
        match &self.conns[i as usize] {
            Some(_) => false,
            None => true,
        }
    }

    /// One completion: advance its slot or connection, count it, and queue
    /// the next operations.
    pub fn dispatch(&mut self, done: &Completed) -> (r: Result<(), QueueFull>)
        requires
            old(self).wf(),
            old(self)@.knows(done.token),
        ensures
            final(self).wf(),
            (final(self)@, r is Ok) == old(self)@.dispatched(*done),
    {
        self.tally = Tally { packets: 0, bytes: 0, drops: 0 };
        let kind: u64 = done.token / KIND_UNIT;
        let object: u64 = done.token % KIND_UNIT;
        let i: usize = self.slot_of(object);
        if kind == KIND_UDP_RECV {
            self.dispatch_udp_recv(object as usize, done.res)
        } else if kind == KIND_UDP_SEND {
            self.submit_udp_recv(object as usize)
        } else if kind == KIND_ACCEPT {
            self.dispatch_accept(done)
        } else if kind == KIND_TCP_READ {
            self.dispatch_tcp_recv(i, done)
        } else if kind == KIND_TCP_SEND {
            self.dispatch_tcp_send(done)
        } else if kind == KIND_TCP_POLLOUT {
            if self.has_conn(i) {
                let ghost s = self@;
                let mut c = self.take_conn(i);
                c.poll_out = false;
                self.put_conn(i, c);
                assert(self@.conns =~= s.conns.update(i as int, Some(c@)));
                self.flush_sends(i);
            }
            Ok(())
        } else if kind == KIND_TCP_CLOSE {
            self.dispatch_removed(i, done.res);
            Ok(())
        } else if kind == KIND_POLL {
            self.act(Op::ServeMetrics);
            self.submit_poll()
        } else if kind == KIND_TIMEOUT {
            self.push(Op::Timeout)
        } else {
            Ok(())
        }
    }
}

/// Queueing receives stops at the first that finds no room.
proof fn lemma_receiving_stops(s: PathView, n: nat)
    requires
        n <= UDP_SLOTS,
        !s.receiving(n).1,
    ensures
        s.receiving(UDP_SLOTS as nat) == s.receiving(n),
    decreases UDP_SLOTS - n,
{
    if n < UDP_SLOTS {
        assert(s.receiving((n + 1) as nat) == s.receiving(n));
        lemma_receiving_stops(s, (n + 1) as nat);
    }
}

/// The open descriptors of a list of connections.
pub open spec fn fds_of(conns: Seq<Option<ConnView>>) -> Seq<i32>
    decreases conns.len(),
{
    if conns.len() == 0 {
        Seq::empty()
    } else {
        let before = fds_of(conns.drop_last());
        match conns.last() {
            Some(c) => if c.fd >= 0 {
                before.push(c.fd)
            } else {
                before
            },
            None => before,
        }
    }
}

/// The token of the connection in slot `i` of worker `core_id`.
pub open spec fn conn_object(core_id: u32, i: int) -> int {
    core_id * 0x1_0000_0000 + i
}

/// The token of an operation; for a cancellation, the token of what it
/// cancels. An action has none.
pub open spec fn op_token(op: Op, core_id: u32) -> Option<int> {
    match op {
        Op::UdpRecv { slot } => Some(uring_pool::tagged(KIND_UDP_RECV, slot as int)),
        Op::UdpSend { slot, .. } => Some(uring_pool::tagged(KIND_UDP_SEND, slot as int)),
        Op::AcceptMulti | Op::Accept => Some(uring_pool::tagged(KIND_ACCEPT, 0)),
        Op::Provide { .. } => Some(uring_pool::tagged(KIND_PROVIDE, 0)),
        Op::RecvMulti { slot, .. } | Op::Read { slot, .. } | Op::CancelRecv { slot } => Some(
            uring_pool::tagged(KIND_TCP_READ, conn_object(core_id, slot as int)),
        ),
        Op::Send { id, slot, .. } => Some(
            uring_pool::tagged(KIND_TCP_SEND, uring_pool::send_object(id, slot as int)),
        ),
        Op::Write { slot, .. } => Some(
            uring_pool::tagged(KIND_TCP_SEND, conn_object(core_id, slot as int)),
        ),
        Op::PollOut { slot, .. } => Some(
            uring_pool::tagged(KIND_TCP_POLLOUT, conn_object(core_id, slot as int)),
        ),
        Op::RemoveBuffers { slot, .. } => Some(
            uring_pool::tagged(KIND_TCP_CLOSE, conn_object(core_id, slot as int)),
        ),
        Op::PollMetrics { .. } => Some(uring_pool::tagged(KIND_POLL, 0)),
        Op::Timeout => Some(uring_pool::tagged(KIND_TIMEOUT, 0)),
        Op::CloseFd { .. } | Op::ServeMetrics | Op::Submit => None,
    }
}

/// The slots and buffers of an operation are ones that exist.
pub open spec fn op_fits(op: Op) -> bool {
    match op {
        Op::UdpRecv { slot } => slot < UDP_SLOTS,
        Op::UdpSend { slot, .. } => slot < UDP_SLOTS,
        Op::Send { id, slot, .. } => id < POOL_TOTAL && slot < CONN_CAP,
        Op::RecvMulti { slot, .. } | Op::Read { slot, .. } | Op::CancelRecv { slot }
        | Op::Write { slot, .. } | Op::PollOut { slot, .. } | Op::RemoveBuffers { slot, .. } => slot
            < CONN_CAP,
        _ => true,
    }
}

/// The token of an operation.
pub fn user_data(op: &Op, core_id: u32) -> (r: Option<u64>)
    requires
        core_id < 0x1000_0000,
        op_fits(*op),
    ensures
        match r {
            Some(t) => op_token(*op, core_id) == Some(t as int),
            None => op_token(*op, core_id) is None,
        },
{
    let base: u64 = core_id as u64 * 0x1_0000_0000;
    match op {
        Op::UdpRecv { slot } => Some(KIND_UDP_RECV * KIND_UNIT + *slot as u64),
        Op::UdpSend { slot, .. } => Some(KIND_UDP_SEND * KIND_UNIT + *slot as u64),
        Op::AcceptMulti | Op::Accept => Some(KIND_ACCEPT * KIND_UNIT),
        Op::Provide { .. } => Some(KIND_PROVIDE * KIND_UNIT),
        Op::RecvMulti { slot, .. } | Op::Read { slot, .. } | Op::CancelRecv { slot } => Some(
            KIND_TCP_READ * KIND_UNIT + base + *slot as u64,
        ),
        Op::Send { id, slot, .. } => Some(
            KIND_TCP_SEND * KIND_UNIT + *id as u64 * 0x1_0000_0000 + *slot as u64,
        ),
        Op::Write { slot, .. } => Some(KIND_TCP_SEND * KIND_UNIT + base + *slot as u64),
        Op::PollOut { slot, .. } => Some(KIND_TCP_POLLOUT * KIND_UNIT + base + *slot as u64),
        Op::RemoveBuffers { slot, .. } => Some(KIND_TCP_CLOSE * KIND_UNIT + base + *slot as u64),
        Op::PollMetrics { .. } => Some(KIND_POLL * KIND_UNIT),
        Op::Timeout => Some(KIND_TIMEOUT * KIND_UNIT),
        Op::CloseFd { .. } | Op::ServeMetrics | Op::Submit => None,
    }
}

/// The completion of an operation on a connection finds that connection:
/// its token leads back to the slot.
pub proof fn law_tokens_lead_back(s: PathView, i: int, kind: u64, id: u32)
    requires
        s.core_id < 0x1000_0000,
        0 <= i < CONN_CAP,
        kind < 16,
        id < POOL_TOTAL,
    ensures
        ({
            let t = uring_pool::tagged(kind, conn_object(s.core_id, i));
            &&& t <= u64::MAX
            &&& uring_pool::kind_of(t as u64) == kind
            &&& s.slot_of(uring_pool::object_of(t as u64)) == i
        }),
        ({
            let t = uring_pool::tagged(KIND_TCP_SEND, uring_pool::send_object(id, i));
            &&& t <= u64::MAX
            &&& uring_pool::send_slot(t as u64) == i
            &&& uring_pool::send_buffer(t as u64) == id
        }),
{
    let object = conn_object(s.core_id, i);
    assert(object < KIND_UNIT);
    uring_pool::law_token_roundtrip(kind, object as u64, id, i as u32);
    assert(object as u64 / 0x1_0000_0000 == s.core_id);
    assert(object as u64 % 0x1_0000_0000 == i);
}

/// The room of the submission queue for a configured number of entries: at
/// least the slots and the fixed operations, rounded up to a power of two
/// as the kernel does.
pub open spec fn ring_entries(entries: u32) -> nat {
    if entries < UDP_SLOTS + 8 {
        config_model::least_power((UDP_SLOTS + 8) as nat)
    } else {
        config_model::least_power(entries as nat)
    }
}

/// The room of the submission queue.
pub fn ring_capacity(entries: u32) -> (r: u64)
    ensures
        r == ring_entries(entries),
        12 <= r,
        entries <= r,
{
    let n: u32 = if entries < (UDP_SLOTS + 8) as u32 {
        (UDP_SLOTS + 8) as u32
    } else {
        entries
    };
    config_model::next_power_of_two(n)
}

/// Remove every occurrence of an id from a queue.
fn retain_deque(v: &mut VecDeque<u32>, id: u32)
    ensures
        final(v)@ == uring_pool::without(old(v)@, id),
{
    let ghost all = v@;
    let mut kept: VecDeque<u32> = VecDeque::new();
    let mut i: usize = 0;
    proof {
        reveal(Seq::filter);
        assert(kept@ =~= uring_pool::without(all.take(0), id));
    }
    let n: usize = v.len();
    while i < n
        invariant
            i <= n,
            n == v@.len(),
            v@ == all,
            kept@ == uring_pool::without(all.take(i as int), id),
        decreases n - i,
    {
        proof {
            reveal(Seq::filter);
            assert(all.take(i + 1).drop_last() =~= all.take(i as int));
        }
        if v[i] != id {
            kept.push_back(v[i]);
        }
        i += 1;
    }
    assert(all.take(i as int) =~= all);
    *v = kept;
}

} // verus!
