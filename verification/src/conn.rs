//! Connection state: hot fields (touched on every step) and cold fields
//! (rarely touched) in separate cache lines, in a preallocated table
//! indexed by a packed connection id.
use vstd::prelude::*;
use crate::buffer::{Pool, PoolGuard};
use crate::layout::CachePadded;
use crate::sockaddr::SockAddr;

verus! {

/// A packed connection id: core in the high 32 bits, slot index in the low
/// 32 bits. It serves as an event token.
#[derive(Clone, Copy, PartialEq, Eq, Debug, Structural)]
pub struct ConnectionId(pub u64);

impl ConnectionId {
    /// Pack a core and a slot.
    pub fn new(core: u32, slot: u32) -> (r: Self)
        ensures
            r.0 == core as int * 0x1_0000_0000 + slot,
    {
        ConnectionId(core as u64 * 0x1_0000_0000 + slot as u64)
    }

    /// The core.
    pub fn core_id(&self) -> (r: u32)
        ensures
            r == self.0 as int / 0x1_0000_0000,
    {
        (self.0 / 0x1_0000_0000) as u32
    }

    /// The slot index.
    pub fn slot(&self) -> (r: u32)
        ensures
            r == self.0 as int % 0x1_0000_0000,
    {
        (self.0 % 0x1_0000_0000) as u32
    }

    /// The id as an event token.
    pub fn as_u64(&self) -> (r: u64)
        ensures
            r == self.0,
    {
        self.0
    }

    /// The id of an event token.
    pub fn from_u64(token: u64) -> (r: Self)
        ensures
            r == ConnectionId(token),
    {
        ConnectionId(token)
    }
}

/// Packing loses nothing: core and slot come back, and every token is the
/// packing of its core and slot.
pub proof fn law_id_packing_roundtrip(core: u32, slot: u32, token: u64)
    ensures
        (core as int * 0x1_0000_0000 + slot) / 0x1_0000_0000 == core,
        (core as int * 0x1_0000_0000 + slot) % 0x1_0000_0000 == slot,
        (token as int / 0x1_0000_0000) * 0x1_0000_0000 + token as int % 0x1_0000_0000 == token,
{
}

/// Hot connection fields: read or written on every step.
#[derive(Clone, Copy, Debug)]
pub struct HotState {
    /// Protocol sequence number or stream offset.
    pub seq: u32,
    /// Last activity in coarse monotonic ticks (seconds since start).
    pub last_activity: u64,
    /// Bytes in flight.
    pub in_flight: u32,
    /// Transport descriptor.
    pub fd: i32,
}

impl Default for HotState {
    fn default() -> (r: Self)
        ensures
            r == (HotState { seq: 0, last_activity: 0, in_flight: 0, fd: 0 }),
    {
        HotState { seq: 0, last_activity: 0, in_flight: 0, fd: 0 }
    }
}

/// Cold connection fields: setup, teardown, peer info.
#[derive(Clone, Copy, Debug)]
pub struct ColdState {
    pub peer: SockAddr,
    pub established_at: u64,
    /// Protocol-specific cold flags.
    pub flags: u32,
}

/// A connection: hot and cold halves, each alone on a cache line.
pub struct Connection {
    pub hot: CachePadded<HotState>,
    pub cold: CachePadded<ColdState>,
}

/// Connection table capacity per worker.
pub const CONN_CAP: usize = 1024;

impl Connection {
    /// A fresh connection without a descriptor.
    pub fn new(peer: SockAddr, established_at: u64) -> (r: Self)
        ensures
            r.hot.value == (HotState {
                seq: 0,
                last_activity: established_at,
                in_flight: 0,
                fd: -1i32,
            }),
            r.cold.value == (ColdState { peer, established_at, flags: 0 }),
    {
        Connection {
            hot: CachePadded::new(
                HotState { seq: 0, last_activity: established_at, in_flight: 0, fd: -1 },
            ),
            cold: CachePadded::new(ColdState { peer, established_at, flags: 0 }),
        }
    }
}

/// A place that no connection has used yet.
pub open spec fn unused(c: Connection) -> bool {
    &&& c.hot.value == HotState { seq: 0, last_activity: 0, in_flight: 0, fd: -1i32 }
    &&& c.cold.value.established_at == 0
    &&& c.cold.value.flags == 0
    &&& c.cold.value.peer matches SockAddr::V4 { ip, port } && ip@ == seq![0u8, 0, 0, 0] && port
        == 0
}

/// A preallocated connection table of `CAP` slots with per-slot transport
/// flags.
pub struct ConnTable<const CAP: usize> {
    pool: Pool<Connection, CAP>,
    flags: Vec<u8>,
}

/// An acquired table slot. It is given back with [`ConnTable::release`].
pub struct ConnectionSlot {
    guard: PoolGuard,
}

impl ConnectionSlot {
    /// The slot index, as a value.
    pub closed spec fn slot(&self) -> nat {
        self.guard.slot()
    }

    /// The slot index (low 32 bits of the [`ConnectionId`]).
    pub fn index(&self) -> (r: usize)
        ensures
            r == self.slot(),
    {
        self.guard.index()
    }
}

impl<const CAP: usize> ConnTable<CAP> {
    /// The connections, by slot; `None` where a slot was never initialized.
    pub closed spec fn conns(&self) -> Seq<Option<Connection>> {
        self.pool.values()
    }

    /// The free slots, in the order in which they will be handed out.
    pub closed spec fn free_list(&self) -> Seq<usize> {
        self.pool.free_list()
    }

    /// The flag byte of every slot.
    pub closed spec fn flag_bytes(&self) -> Seq<u8> {
        self.flags@
    }

    /// The pool is consistent, and every slot has a flag byte.
    pub closed spec fn wf(&self) -> bool {
        self.pool.wf() && self.flags@.len() == CAP
    }

    /// Slot `i` is taken.
    pub open spec fn taken(&self, i: nat) -> bool {
        i < CAP && !self.free_list().contains(i as usize)
    }

    /// There is one connection place and one flag byte per slot.
    pub proof fn law_one_place_per_slot(&self)
        requires
            self.wf(),
        ensures
            self.conns().len() == CAP,
            self.flag_bytes().len() == CAP,
    {
        self.pool.law_one_value_per_slot();
    }

    /// The free list holds slot numbers, each at most once, so no slot is
    /// handed out twice.
    pub proof fn law_free_list_is_sound(&self)
        requires
            self.wf(),
        ensures
            self.free_list().no_duplicates(),
            self.free_list().len() <= CAP,
            forall|i: int|
                0 <= i < self.free_list().len() ==> #[trigger] self.free_list()[i] < CAP,
    {
        self.pool.law_free_list_is_sound();
    }

    /// A new table with every slot free and every flag clear. The caller
    /// fills each slot with [`ConnTable::initialize`].
    pub fn new() -> (t: Self)
        requires
            crate::ring::power_of_two(CAP as nat),
        ensures
            t.wf(),
            t.conns() == Seq::new(CAP as nat, |i: int| None::<Connection>),
            t.free_list() == Seq::new(CAP as nat, |i: int| i as usize),
            t.flag_bytes() == Seq::new(CAP as nat, |i: int| 0u8),
    {
        let mut flags: Vec<u8> = Vec::new();
        while flags.len() < CAP
            invariant
                flags@.len() <= CAP,
                flags@ == Seq::new(flags@.len(), |i: int| 0u8),
            decreases CAP - flags@.len(),
        {
            flags.push(0);
            assert(flags@ =~= Seq::new(flags@.len(), |i: int| 0u8));
        }
        ConnTable { pool: Pool::new(), flags }
    }

    /// Give slot `i` its connection.
    pub fn initialize(&mut self, i: usize, conn: Connection)
        requires
            old(self).wf(),
            i < CAP,
        ensures
            final(self).wf(),
            final(self).conns() == old(self).conns().update(i as int, Some(conn)),
            final(self).free_list() == old(self).free_list(),
            final(self).flag_bytes() == old(self).flag_bytes(),
    {
        self.pool.initialize(i, conn);
    }

    /// Acquire a free slot, or `None` when the table is full.
    pub fn try_acquire(&mut self) -> (r: Option<ConnectionSlot>)
        requires
            old(self).wf(),
        ensures
            final(self).wf(),
            final(self).conns() == old(self).conns(),
            final(self).flag_bytes() == old(self).flag_bytes(),
            match r {
                Some(s) => {
                    &&& old(self).free_list().len() > 0
                    &&& s.slot() == old(self).free_list()[0]
                    &&& final(self).free_list() == old(self).free_list().skip(1)
                    &&& final(self).taken(s.slot())
                    &&& !old(self).taken(s.slot())
                },
                None => {
                    &&& old(self).free_list().len() == 0
                    &&& final(self).free_list() == old(self).free_list()
                },
            },
    {
        match self.pool.try_alloc() {
            Some(guard) => Some(ConnectionSlot { guard }),
            None => None,
        }
    }

    /// Acquire a slot by its index; the caller gives it back once with
    /// [`ConnTable::release_slot`].
    pub fn acquire_index(&mut self) -> (r: Option<usize>)
        requires
            old(self).wf(),
        ensures
            final(self).wf(),
            final(self).conns() == old(self).conns(),
            final(self).flag_bytes() == old(self).flag_bytes(),
            match r {
                Some(i) => {
                    &&& old(self).free_list().len() > 0
                    &&& i == old(self).free_list()[0]
                    &&& final(self).free_list() == old(self).free_list().skip(1)
                    &&& final(self).taken(i as nat)
                    &&& !old(self).taken(i as nat)
                },
                None => {
                    &&& old(self).free_list().len() == 0
                    &&& final(self).free_list() == old(self).free_list()
                },
            },
    {
        self.pool.try_alloc_index()
    }

    /// Number of slots in use.
    pub fn in_use(&self) -> (r: usize)
        requires
            self.wf(),
        ensures
            r == CAP - self.free_list().len(),
    {
        self.pool.in_use()
    }

    /// Release a slot that the caller owns. Its connection stays in place
    /// for the next owner.
    pub fn release_slot(&mut self, slot: usize)
        requires
            old(self).wf(),
            old(self).taken(slot as nat),
        ensures
            final(self).wf(),
            final(self).conns() == old(self).conns(),
            final(self).flag_bytes() == old(self).flag_bytes(),
            final(self).free_list() == old(self).free_list().push(slot),
    {
        self.pool.release_index(slot);
    }

    /// Release an acquired slot.
    pub fn release(&mut self, slot: ConnectionSlot)
        requires
            old(self).wf(),
            old(self).taken(slot.slot()),
        ensures
            final(self).wf(),
            final(self).conns() == old(self).conns(),
            final(self).flag_bytes() == old(self).flag_bytes(),
            final(self).free_list() == old(self).free_list().push(slot.slot() as usize),
    {
        self.pool.release(slot.guard);
    }

    /// The connection in a slot.
    pub fn conn(&self, slot: usize) -> (r: &Connection)
        requires
            self.wf(),
            slot < CAP,
            self.conns()[slot as int] is Some,
        ensures
            Some(*r) == self.conns()[slot as int],
    {
        self.pool.get(slot)
    }

    /// The connection in a slot that the caller owns, mutable.
    pub fn conn_mut(&mut self, slot: usize) -> (r: &mut Connection)
        requires
            old(self).wf(),
            slot < CAP,
            old(self).conns()[slot as int] is Some,
        ensures
            Some(*r) == old(self).conns()[slot as int],
            final(self).wf(),
            final(self).conns() == old(self).conns().update(slot as int, Some(*final(r))),
            final(self).free_list() == old(self).free_list(),
            final(self).flag_bytes() == old(self).flag_bytes(),
    {
        self.pool.get_mut(slot)
    }

    /// Capacity.
    pub fn capacity() -> (r: usize)
        ensures
            r == CAP,
    {
        CAP
    }

    /// Set or clear transport flags of a slot.
    pub fn set_flag(&mut self, slot: usize, bit: u8, on: bool)
        requires
            old(self).wf(),
            slot < CAP,
        ensures
            final(self).wf(),
            final(self).conns() == old(self).conns(),
            final(self).free_list() == old(self).free_list(),
            final(self).flag_bytes() == old(self).flag_bytes().update(
                slot as int,
                if on {
                    old(self).flag_bytes()[slot as int] | bit
                } else {
                    old(self).flag_bytes()[slot as int] & !bit
                },
            ),
    {
        let f: u8 = self.flags[slot];
        self.flags.set(
            slot,
            if on {
                f | bit
            } else {
                f & !bit
            },
        );
    }

    /// Whether any of the given transport flags of a slot is set.
    pub fn flag(&self, slot: usize, bit: u8) -> (r: bool)
        requires
            self.wf(),
            slot < CAP,
        ensures
            r == (self.flag_bytes()[slot as int] & bit != 0),
    {
        self.flags[slot] & bit != 0
    }
}

/// What was set is read as set, what was cleared as clear, and flags that
/// share no bit with it stay as they were.
pub proof fn law_flag_set_then_read(f: u8, bit: u8, other: u8)
    requires
        bit != 0,
        bit & other == 0,
    ensures
        (f | bit) & bit != 0,
        (f & !bit) & bit == 0,
        (f | bit) & other == f & other,
        (f & !bit) & other == f & other,
{
    assert((f | bit) & bit != 0) by (bit_vector)
        requires
            bit != 0,
    ;
    assert((f & !bit) & bit == 0) by (bit_vector);
    assert((f | bit) & other == f & other) by (bit_vector)
        requires
            bit & other == 0,
    ;
    assert((f & !bit) & other == f & other) by (bit_vector)
        requires
            bit & other == 0,
    ;
}

} // verus!
