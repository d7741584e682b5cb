//! Building blocks of the io_uring datapath: completion results and flags,
//! operation tokens, the receive header, and the pool of registered
//! buffers.
use vstd::prelude::*;
use crate::sockaddr;
use crate::text;

verus! {

// ---------------------------------------------------------------------
// Completions
// ---------------------------------------------------------------------

/// The result of an operation: a count, or an error number.
#[derive(Clone, Copy, Debug, PartialEq, Eq, Structural)]
pub enum Outcome {
    Done(u32),
    Failed(i32),
}

/// What a completion's result number stands for: negative is an error
/// number, anything else a count.
pub fn result(res: i32) -> (r: Outcome)
    ensures
        res >= 0 ==> r == Outcome::Done(res as u32),
        i32::MIN < res < 0 ==> r == Outcome::Failed((-res) as i32),
        res == i32::MIN ==> r == Outcome::Failed(i32::MIN),
{
    if res >= 0 {
        Outcome::Done(res as u32)
    } else if res == i32::MIN {
        Outcome::Failed(res)
    } else {
        Outcome::Failed(-res)
    }
}

/// The completion carries a buffer id.
pub open spec fn has_buffer(flags: u32) -> bool {
    flags % 2 == 1
}

/// More completions of the operation will follow.
pub open spec fn has_more(flags: u32) -> bool {
    flags / 2 % 2 == 1
}

/// The completion is the notification of a zero-copy send.
pub open spec fn is_notif(flags: u32) -> bool {
    flags / 8 % 2 == 1
}

/// The buffer id of a completion.
pub open spec fn buffer_id(flags: u32) -> u32 {
    flags / 65536
}

/// The pool buffer that a receive completion filled, if it names one.
pub fn received_buffer(flags: u32) -> (r: Option<u32>)
    ensures
        r == if has_buffer(flags) && buffer_id(flags) < POOL_TOTAL {
            Some(buffer_id(flags))
        } else {
            None
        },
{
    let id: u32 = flags / 65536;
    if flags % 2 == 1 && (id as usize) < POOL_TOTAL {
        Some(id)
    } else {
        None
    }
}

/// The `io_uring_recvmsg_out` header that the kernel puts before the
/// payload of a multishot receive: four 32-bit numbers.
#[derive(Clone, Copy, Debug, PartialEq, Eq, Structural)]
pub struct RecvMsgOut {
    pub namelen: u32,
    pub controllen: u32,
    pub payloadlen: u32,
    pub flags: u32,
}

/// Size of the receive header.
pub const RECV_HEADER: usize = 16;

impl RecvMsgOut {
    /// Read the header at the front of a buffer.
    pub fn parse(buf: &[u8]) -> (h: Self)
        requires
            buf@.len() >= RECV_HEADER,
        ensures
            h.namelen == sockaddr::le32_at(buf@, 0),
            h.controllen == sockaddr::le32_at(buf@, 4),
            h.payloadlen == sockaddr::le32_at(buf@, 8),
            h.flags == sockaddr::le32_at(buf@, 12),
    {
        RecvMsgOut {
            namelen: sockaddr::get_le32(buf, 0),
            controllen: sockaddr::get_le32(buf, 4),
            payloadlen: sockaddr::get_le32(buf, 8),
            flags: sockaddr::get_le32(buf, 12),
        }
    }

    /// Where the payload starts: behind the header, name and control data.
    pub open spec fn payload_at(self) -> int {
        RECV_HEADER + self.namelen + self.controllen
    }

    /// The payload's place and length, when both lie within the buffer.
    pub open spec fn payload_in(self) -> Option<(u16, u16)> {
        if self.payload_at() + self.payloadlen > CONN_BUF {
            None
        } else {
            Some((self.payload_at() as u16, self.payloadlen as u16))
        }
    }

    /// The payload's place and length, when both lie within the buffer.
    pub fn payload(&self) -> (r: Option<(u16, u16)>)
        ensures
            r == self.payload_in(),
    {
        let off: u64 = RECV_HEADER as u64 + self.namelen as u64 + self.controllen as u64;
        if off + self.payloadlen as u64 > CONN_BUF as u64 {
            None
        } else {
            Some((off as u16, self.payloadlen as u16))
        }
    }
}

/// The number at the front of a dotted release, or zero.
pub open spec fn release_part(release: Seq<char>, i: int) -> u32 {
    let parts = text::pieces(release, '.');
    if i < parts.len() {
        match text::unsigned_value(parts[i]) {
            Some(n) => if n <= u32::MAX {
                n as u32
            } else {
                0
            },
            None => 0,
        }
    } else {
        0
    }
}

/// Kernel major and minor number of a release such as `6.1.0`; a part that
/// is no number counts as zero.
pub fn kernel_version(release: &str) -> (r: (u32, u32))
    ensures
        r == (release_part(release@, 0), release_part(release@, 1)),
{
    let cs = text::to_chars(release);
    let parts = text::split(cs.as_slice(), '.');
    let ghost pv = text::pieces(release@, '.');
    assert(pv.len() == parts@.len());
    let mut major: u32 = 0;
    let mut minor: u32 = 0;
    if parts.len() > 0 {
        assert(pv[0] == parts@[0]@);
        if let Some(n) = text::parse_u32(parts[0]) {
            major = n;
        }
    }
    if parts.len() > 1 {
        assert(pv[1] == parts@[1]@);
        if let Some(n) = text::parse_u32(parts[1]) {
            minor = n;
        }
    }
    (major, minor)
}

/// Whether the kernel has the multishot operations: from 6.0 on.
pub fn modern_capable(version: (u32, u32)) -> (r: bool)
    ensures
        r == (version.0 >= 6),
{
    version.0 >= 6
}

// ---------------------------------------------------------------------
// Operation tokens
// ---------------------------------------------------------------------

/// A token's high nibble is the class of the operation; the rest names the
/// object.
pub const KIND_UNIT: u64 = 0x1000_0000_0000_0000;

pub const KIND_UDP_RECV: u64 = 0x1;

pub const KIND_UDP_SEND: u64 = 0x2;

pub const KIND_ACCEPT: u64 = 0x3;

pub const KIND_TCP_READ: u64 = 0x4;

pub const KIND_TCP_SEND: u64 = 0x5;

pub const KIND_TCP_POLLOUT: u64 = 0x6;

pub const KIND_TCP_CLOSE: u64 = 0x7;

pub const KIND_PROVIDE: u64 = 0x8;

pub const KIND_POLL: u64 = 0xC;

pub const KIND_TIMEOUT: u64 = 0xD;

/// The token of an object for a class of operations.
pub open spec fn tagged(kind: u64, object: int) -> int {
    kind * KIND_UNIT + object
}

/// The class of a token.
pub open spec fn kind_of(token: u64) -> u64 {
    token / KIND_UNIT
}

/// The object of a token.
pub open spec fn object_of(token: u64) -> u64 {
    token % KIND_UNIT
}

/// The object of a send: the buffer id above the connection slot.
pub open spec fn send_object(id: u32, slot: int) -> int {
    id * 0x1_0000_0000 + slot
}

/// The buffer id of a send token.
pub open spec fn send_buffer(token: u64) -> u32 {
    (token / 0x1_0000_0000 % 65536) as u32
}

/// The connection slot of a send token.
pub open spec fn send_slot(token: u64) -> u32 {
    (token % 0x1_0000_0000) as u32
}

/// Tokens are unambiguous: class and object come back, and of a send token
/// the buffer and the connection slot.
pub proof fn law_token_roundtrip(kind: u64, object: u64, id: u32, slot: u32)
    requires
        kind < 16,
        object < KIND_UNIT,
        id < 65536,
    ensures
        tagged(kind, object as int) <= u64::MAX,
        kind_of(tagged(kind, object as int) as u64) == kind,
        object_of(tagged(kind, object as int) as u64) == object,
        send_buffer(tagged(KIND_TCP_SEND, send_object(id, slot as int)) as u64) == id,
        send_slot(tagged(KIND_TCP_SEND, send_object(id, slot as int)) as u64) == slot,
        kind_of(tagged(KIND_TCP_SEND, send_object(id, slot as int)) as u64) == KIND_TCP_SEND,
{
    let t = tagged(KIND_TCP_SEND, send_object(id, slot as int));
    assert(t == 0x5000_0000_0000_0000 + id * 0x1_0000_0000 + slot);
    assert(t / 0x1_0000_0000 == 0x5000_0000 + id);
    assert((0x5000_0000 + id) % 65536 == id as int % 65536);
}

// ---------------------------------------------------------------------
// Lists of buffer ids
// ---------------------------------------------------------------------

/// Every id names a pool buffer.
pub open spec fn in_pool(s: Seq<u32>) -> bool {
    forall|i: int| 0 <= i < s.len() ==> #[trigger] s[i] < POOL_TOTAL
}

/// The list without an id.
pub open spec fn without(s: Seq<u32>, id: u32) -> Seq<u32> {
    s.filter(|x: u32| x != id)
}

/// Where an id first stands; the length when it does not.
pub open spec fn first_index(s: Seq<u32>, id: u32) -> int
    decreases s.len(),
{
    if s.len() == 0 || s[0] == id {
        0
    } else {
        1 + first_index(s.skip(1), id)
    }
}

/// The list with its first occurrence of an id replaced by its last item.
pub open spec fn swap_removed(s: Seq<u32>, id: u32) -> Seq<u32> {
    s.update(first_index(s, id), s.last()).drop_last()
}

/// An id that occurs stands where `first_index` says, and not before.
pub proof fn lemma_first_index(s: Seq<u32>, id: u32)
    ensures
        0 <= first_index(s, id) <= s.len(),
        first_index(s, id) < s.len() <==> s.contains(id),
        first_index(s, id) < s.len() ==> s[first_index(s, id)] == id,
    decreases s.len(),
{
    if s.len() > 0 && s[0] != id {
        let rest = s.skip(1);
        lemma_first_index(rest, id);
        if s.contains(id) {
            let i = choose|i: int| 0 <= i < s.len() && s[i] == id;
            assert(rest[i - 1] == id);
        }
        if rest.contains(id) {
            let i = choose|i: int| 0 <= i < rest.len() && rest[i] == id;
            assert(s[i + 1] == id);
        }
    }
}

/// Removing an id leaves pool ids.
pub proof fn lemma_without_in_pool(s: Seq<u32>, id: u32)
    requires
        in_pool(s),
    ensures
        in_pool(without(s, id)),
    decreases s.len(),
{
    reveal(Seq::filter);
    if s.len() > 0 {
        lemma_without_in_pool(s.drop_last(), id);
    }
}

/// Remove the first occurrence of an id; whether there was one.
pub fn swap_remove_id(v: &mut Vec<u32>, id: u32) -> (found: bool)
    ensures
        found == old(v)@.contains(id),
        final(v)@ == if old(v)@.contains(id) {
            swap_removed(old(v)@, id)
        } else {
            old(v)@
        },
{
    let ghost all = v@;
    let mut i: usize = 0;
    assert(all.skip(0) =~= all);
    while i < v.len() && v[i] != id
        invariant
            i <= v@.len(),
            v@ == all,
            i + first_index(all.skip(i as int), id) == first_index(all, id),
        decreases v@.len() - i,
    {
        assert(all.skip(i as int).skip(1) =~= all.skip(i + 1));
        assert(all.skip(i as int)[0] == all[i as int]);
        i += 1;
    }
    proof {
        lemma_first_index(all, id);
        if i < all.len() {
            assert(all.skip(i as int)[0] == all[i as int]);
        }
    }
    if i < v.len() {
        let _gone = v.swap_remove(i);
        true
    } else {
        false
    }
}

/// Remove every occurrence of an id.
pub fn retain_other(v: &mut Vec<u32>, id: u32)
    ensures
        final(v)@ == without(old(v)@, id),
{
    let ghost all = v@;
    let mut kept: Vec<u32> = Vec::new();
    let mut i: usize = 0;
    proof {
        reveal(Seq::filter);
        assert(kept@ =~= without(all.take(0), id));
    }
    while i < v.len()
        invariant
            i <= v@.len(),
            v@ == all,
            kept@ == without(all.take(i as int), id),
        decreases v@.len() - i,
    {
        proof {
            reveal(Seq::filter);
            assert(all.take(i + 1).drop_last() =~= all.take(i as int));
        }
        if v[i] != id {
            kept.push(v[i]);
        }
        i += 1;
    }
    assert(all.take(i as int) =~= all);
    *v = kept;
}

// ---------------------------------------------------------------------
// The buffer pool
// ---------------------------------------------------------------------

/// Total registered buffers: the bound on echo data in flight.
pub const POOL_TOTAL: usize = 512;

/// Bytes per buffer.
pub const CONN_BUF: usize = 8192;

/// Who holds a buffer; a buffer is in exactly one state.
#[derive(Clone, Copy, PartialEq, Eq, Debug, Structural)]
pub enum BufState {
    /// In the free list.
    Free,
    /// Provided to the kernel for a connection's receives.
    InGroup,
    /// Received data awaiting a send.
    Owned,
    /// Being sent.
    InKernel,
}

/// Where in a buffer the payload starts, and its length.
#[derive(Clone, Copy, PartialEq, Eq, Debug, Structural)]
pub struct BufMeta {
    pub off: u16,
    pub len: u16,
}

/// The bookkeeping of the registered buffers.
pub struct BufferPool {
    pub states: Vec<BufState>,
    pub metas: Vec<BufMeta>,
    /// Sends in flight per buffer.
    pub inflight: Vec<u32>,
    /// Free buffers; the last one is taken first.
    pub free: Vec<u32>,
}

/// The bookkeeping of the registered buffers, as mathematics.
pub struct PoolView {
    pub states: Seq<BufState>,
    pub metas: Seq<BufMeta>,
    pub inflight: Seq<u32>,
    pub free: Seq<u32>,
}

impl PoolView {
    /// One entry per buffer, and only pool buffers in the free list.
    pub open spec fn wf(self) -> bool {
        &&& self.states.len() == POOL_TOTAL
        &&& self.metas.len() == POOL_TOTAL
        &&& self.inflight.len() == POOL_TOTAL
        &&& in_pool(self.free)
    }

    /// All buffers free; the lowest id is taken first.
    pub open spec fn initial() -> PoolView {
        PoolView {
            states: Seq::new(POOL_TOTAL as nat, |i: int| BufState::Free),
            metas: Seq::new(POOL_TOTAL as nat, |i: int| BufMeta { off: 0, len: 0 }),
            inflight: Seq::new(POOL_TOTAL as nat, |i: int| 0u32),
            free: Seq::new(POOL_TOTAL as nat, |i: int| (POOL_TOTAL - 1 - i) as u32),
        }
    }

    /// The last free buffer moves to a group.
    pub open spec fn take_free(self) -> PoolView {
        PoolView {
            states: self.states.update(self.free.last() as int, BufState::InGroup),
            free: self.free.drop_last(),
            ..self
        }
    }

    /// A buffer becomes free.
    pub open spec fn give_back(self, id: u32) -> PoolView {
        PoolView {
            states: self.states.update(id as int, BufState::Free),
            free: self.free.push(id),
            ..self
        }
    }

    /// A buffer holds received data.
    pub open spec fn mark_owned(self, id: u32, off: u16, len: u16) -> PoolView {
        PoolView {
            states: self.states.update(id as int, BufState::Owned),
            metas: self.metas.update(id as int, BufMeta { off, len }),
            ..self
        }
    }

    /// A buffer is being sent, once more.
    pub open spec fn submit_zc(self, id: u32) -> PoolView {
        PoolView {
            states: self.states.update(id as int, BufState::InKernel),
            inflight: self.inflight.update(
                id as int,
                ((self.inflight[id as int] + 1) % 0x1_0000_0000) as u32,
            ),
            ..self
        }
    }

    /// One send of a buffer less is in flight.
    pub open spec fn cancel_zc(self, id: u32) -> PoolView {
        if self.inflight[id as int] > 0 {
            PoolView {
                inflight: self.inflight.update(
                    id as int,
                    (self.inflight[id as int] - 1) as u32,
                ),
                ..self
            }
        } else {
            self
        }
    }

    /// Whether a buffer is recycled by the end of one of its sends: it was
    /// the last in flight, and the buffer is held for sending.
    pub open spec fn recycles(self, id: u32) -> bool {
        let state = self.states[id as int];
        self.inflight[id as int] <= 1 && (state == BufState::Owned || state == BufState::InKernel)
    }

    /// One of a buffer's sends ended.
    pub open spec fn notify_zc(self, id: u32) -> PoolView {
        if self.recycles(id) {
            self.cancel_zc(id).give_back(id)
        } else {
            self.cancel_zc(id)
        }
    }
}

impl BufferPool {
    /// The bookkeeping as mathematics.
    pub open spec fn view(&self) -> PoolView {
        PoolView {
            states: self.states@,
            metas: self.metas@,
            inflight: self.inflight@,
            free: self.free@,
        }
    }

    /// All buffers free.
    pub fn new() -> (p: Self)
        ensures
            p@ == PoolView::initial(),
            p@.wf(),
    {
        let mut states: Vec<BufState> = Vec::new();
        let mut metas: Vec<BufMeta> = Vec::new();
        let mut inflight: Vec<u32> = Vec::new();
        let mut free: Vec<u32> = Vec::new();
        let mut i: usize = 0;
        while i < POOL_TOTAL
            invariant
                i <= POOL_TOTAL,
                states@ == Seq::new(i as nat, |j: int| BufState::Free),
                metas@ == Seq::new(i as nat, |j: int| BufMeta { off: 0, len: 0 }),
                inflight@ == Seq::new(i as nat, |j: int| 0u32),
                free@ == Seq::new(i as nat, |j: int| (POOL_TOTAL - 1 - j) as u32),
            decreases POOL_TOTAL - i,
        {
            states.push(BufState::Free);
            metas.push(BufMeta { off: 0, len: 0 });
            inflight.push(0);
            free.push((POOL_TOTAL - 1 - i) as u32);
            i += 1;
            proof {
                assert(states@ =~= Seq::new(i as nat, |j: int| BufState::Free));
                assert(metas@ =~= Seq::new(i as nat, |j: int| BufMeta { off: 0, len: 0 }));
                assert(inflight@ =~= Seq::new(i as nat, |j: int| 0u32));
                assert(free@ =~= Seq::new(i as nat, |j: int| (POOL_TOTAL - 1 - j) as u32));
            }
        }
        BufferPool { states, metas, inflight, free }
    }

    /// Take a free buffer for a group.
    pub fn take_free(&mut self) -> (r: Option<u32>)
        requires
            old(self)@.wf(),
        ensures
            final(self)@.wf(),
            match r {
                Some(id) => {
                    &&& old(self)@.free.len() > 0
                    &&& id == old(self)@.free.last()
                    &&& id < POOL_TOTAL
                    &&& final(self)@ == old(self)@.take_free()
                },
                None => old(self)@.free.len() == 0 && final(self)@ == old(self)@,
            },
    {
        let ghost before = self@;
        match self.free.pop() {
            None => None,
            Some(id) => {
                assert(before.free[before.free.len() - 1] == id);
                self.states.set(id as usize, BufState::InGroup);
                assert(self@ == before.take_free());
                Some(id)
            },
        }
    }

    /// Return a buffer to the free list.
    pub fn give_back(&mut self, id: u32)
        requires
            old(self)@.wf(),
            id < POOL_TOTAL,
        ensures
            final(self)@.wf(),
            final(self)@ == old(self)@.give_back(id),
    {
        self.states.set(id as usize, BufState::Free);
        self.free.push(id);
    }

    /// Record received data in a buffer.
    pub fn mark_owned(&mut self, id: u32, off: u16, len: u16)
        requires
            old(self)@.wf(),
            id < POOL_TOTAL,
        ensures
            final(self)@.wf(),
            final(self)@ == old(self)@.mark_owned(id, off, len),
    {
        self.states.set(id as usize, BufState::Owned);
        self.metas.set(id as usize, BufMeta { off, len });
    }

    /// Record a send of a buffer.
    pub fn submit_zc(&mut self, id: u32)
        requires
            old(self)@.wf(),
            id < POOL_TOTAL,
        ensures
            final(self)@.wf(),
            final(self)@ == old(self)@.submit_zc(id),
    {
        let n: u32 = self.inflight[id as usize];
        self.states.set(id as usize, BufState::InKernel);
        self.inflight.set(id as usize, n.wrapping_add(1));
    }

    /// Record the end of a send; whether the buffer was recycled.
    pub fn notify_zc(&mut self, id: u32) -> (r: bool)
        requires
            old(self)@.wf(),
            id < POOL_TOTAL,
        ensures
            final(self)@.wf(),
            r == old(self)@.recycles(id),
            final(self)@ == old(self)@.notify_zc(id),
    {
        self.cancel_zc(id);
        let state: BufState = self.states[id as usize];
        if self.inflight[id as usize] == 0 && (state == BufState::Owned || state
            == BufState::InKernel) {
            self.give_back(id);
            return true;
        }
        false
    }

    /// Forget a send that never referenced the buffer.
    pub fn cancel_zc(&mut self, id: u32)
        requires
            old(self)@.wf(),
            id < POOL_TOTAL,
        ensures
            final(self)@.wf(),
            final(self)@ == old(self)@.cancel_zc(id),
    {
        let n: u32 = self.inflight[id as usize];
        if n > 0 {
            self.inflight.set(id as usize, n - 1);
        }
    }

    /// Whether no send of a buffer is in flight.
    pub fn zc_settled(&self, id: u32) -> (r: bool)
        requires
            self@.wf(),
            id < POOL_TOTAL,
        ensures
            r == (self@.inflight[id as int] == 0),
    {
        self.inflight[id as usize] == 0
    }
}

/// A buffer that was taken and given back is the next one to be taken, and
/// nothing else changed.
pub proof fn law_take_and_give_back(p: PoolView)
    requires
        p.wf(),
        p.free.len() > 0,
        p.states[p.free.last() as int] == BufState::Free,
    ensures
        p.take_free().give_back(p.free.last()) == p,
{
    let id = p.free.last();
    assert(p.free[p.free.len() - 1] == id);
    let q = p.take_free().give_back(id);
    assert(q.free =~= p.free);
    assert(q.states =~= p.states);
}

/// A buffer is recycled exactly when its last send has ended.
pub proof fn law_recycled_after_last_send(p: PoolView, id: u32)
    requires
        p.wf(),
        id < POOL_TOTAL,
        p.inflight[id as int] < u32::MAX,
    ensures
        p.submit_zc(id).recycles(id) <==> p.inflight[id as int] == 0,
        p.submit_zc(id).cancel_zc(id).inflight[id as int] == p.inflight[id as int],
{
}

// ---------------------------------------------------------------------
// Pending tokens
// ---------------------------------------------------------------------

/// The tokens of operations that were submitted and not yet completed.
pub struct PendingTokens {
    pub tokens: Vec<u64>,
}

impl PendingTokens {
    /// None pending.
    pub fn new() -> (r: Self)
        ensures
            r.tokens@ == Seq::<u64>::empty(),
    {
        PendingTokens { tokens: Vec::new() }
    }

    /// An operation was submitted.
    pub fn submitted(&mut self, token: u64)
        ensures
            final(self).tokens@ == old(self).tokens@.push(token),
    {
        self.tokens.push(token);
    }

    /// An operation completed: its token is pending once less.
    pub fn completed(&mut self, token: u64)
        ensures
            final(self).tokens@.to_multiset() == old(self).tokens@.to_multiset().remove(token),
    {
        let ghost all = self.tokens@;
        let mut i: usize = 0;
        while i < self.tokens.len() && self.tokens[i] != token
            invariant
                i <= self.tokens@.len(),
                self.tokens@ == all,
                forall|j: int| 0 <= j < i ==> all[j] != token,
            decreases self.tokens@.len() - i,
        {
            i += 1;
        }
        proof {
            broadcast use vstd::seq_lib::group_to_multiset_ensures;

        }
        if i < self.tokens.len() {
            let _gone = self.tokens.swap_remove(i);
            proof {
                lemma_swap_removed_multiset(all, i as int);
            }
        } else {
            assert(all.to_multiset().count(token) == 0) by {
                if all.to_multiset().count(token) > 0 {
                    assert(all.contains(token));
                }
            }
            assert(all.to_multiset().remove(token) =~= all.to_multiset());
        }
    }
}

/// Replacing an item by the last and dropping the last removes that item.
proof fn lemma_swap_removed_multiset(s: Seq<u64>, i: int)
    requires
        0 <= i < s.len(),
    ensures
        s.update(i, s.last()).drop_last().to_multiset() == s.to_multiset().remove(s[i]),
{
    broadcast use vstd::seq_lib::group_to_multiset_ensures;

    let r = s.update(i, s.last()).drop_last();
    if i == s.len() - 1 {
        assert(r =~= s.remove(i));
    } else {
        let a = s.remove(i);
        assert(a.last() == s.last());
        assert(r =~= a.drop_last().insert(i, s.last()));
        assert(a =~= a.drop_last().push(s.last()));
        assert(r.to_multiset() =~= a.to_multiset());
    }
}

} // verus!
