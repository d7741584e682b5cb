//! Bounded FIFO rings of power-of-two capacity.
//!
//! [`SpscRing`] keeps one slot free, so at most `CAP - 1` items are in
//! flight and equal masked indices mean empty. [`MpmcRing`] holds up to
//! `CAP` items: every cell carries a sequence number whose distance to the
//! index tells a free cell from a taken one. Both are driven by one owner
//! at a time; the read and write indices wrap freely.
use vstd::prelude::*;
use crate::layout::CachePadded;

verus! {

/// `n` is a power of two.
pub open spec fn power_of_two(n: nat) -> bool {
    exists|k: nat| n == #[trigger] vstd::arithmetic::power2::pow2(k)
}

/// The slot of the `i`-th position from index `start`.
pub open spec fn slot(start: int, i: int, cap: int) -> int {
    (start + i) % cap
}

/// Items between the read index and the write index.
pub open spec fn occupancy(head: usize, tail: usize) -> nat {
    head.wrapping_sub(tail) as nat
}

/// The index range is a multiple of every power-of-two capacity.
proof fn lemma_range_multiple(cap: usize) -> (q: int)
    requires
        power_of_two(cap as nat),
    ensures
        cap > 0,
        usize::MAX + 1 == q * cap,
        q > 0,
{
    let k = choose|k: nat| cap as nat == #[trigger] vstd::arithmetic::power2::pow2(k);
    vstd::arithmetic::power2::lemma_pow2_pos(k);
    vstd::arithmetic::power2::lemma2_to64();
    vstd::arithmetic::power2::lemma2_to64_rest();
    let w: nat = if usize::MAX == 0xffff_ffff {
        32
    } else {
        64
    };
    assert(usize::MAX + 1 == vstd::arithmetic::power2::pow2(w));
    if k >= w {
        if k > w {
            vstd::arithmetic::power2::lemma_pow2_strictly_increases(w, k);
        }
        assert(false);
    }
    vstd::arithmetic::power2::lemma_pow2_adds((w - k) as nat, k);
    vstd::arithmetic::power2::lemma_pow2_pos((w - k) as nat);
    vstd::arithmetic::power2::pow2((w - k) as nat) as int
}

/// Slots of one lap are distinct and in range; position `cap` is position
/// zero again.
proof fn lemma_slots(start: int, cap: int)
    requires
        cap > 0,
        start >= 0,
    ensures
        forall|i: int| 0 <= #[trigger] slot(start, i, cap) < cap,
        forall|i: int, j: int|
            0 <= i < j < cap ==> #[trigger] slot(start, i, cap) != #[trigger] slot(start, j, cap),
        slot(start, cap, cap) == slot(start, 0, cap),
{
    assert forall|i: int| 0 <= #[trigger] slot(start, i, cap) < cap by {
        vstd::arithmetic::div_mod::lemma_mod_bound(start + i, cap);
    }
    assert forall|i: int, j: int| 0 <= i < j < cap implies #[trigger] slot(start, i, cap)
        != #[trigger] slot(start, j, cap) by {
        if slot(start, i, cap) == slot(start, j, cap) {
            let a = start + i;
            let b = start + j;
            vstd::arithmetic::div_mod::lemma_fundamental_div_mod(a, cap);
            vstd::arithmetic::div_mod::lemma_fundamental_div_mod(b, cap);
            let d = b / cap - a / cap;
            assert(cap * d == j - i) by (nonlinear_arith)
                requires
                    d == b / cap - a / cap,
                    a == cap * (a / cap) + a % cap,
                    b == cap * (b / cap) + b % cap,
                    a % cap == b % cap,
                    b - a == j - i,
            ;
            assert(false) by (nonlinear_arith)
                requires
                    cap * d == j - i,
                    0 < j - i < cap,
                    cap > 0,
            ;
        }
    }
    vstd::arithmetic::div_mod::lemma_mod_add_multiples_vanish(start, cap);
}

/// Wrapping an index does not move its slot.
proof fn lemma_wrap_slot(start: usize, n: usize, cap: usize)
    requires
        power_of_two(cap as nat),
    ensures
        cap > 0,
        start.wrapping_add(n) % cap == slot(start as int, n as int, cap as int),
        forall|i: int|
            0 <= i ==> #[trigger] slot(start.wrapping_add(n) as int, i, cap as int) == slot(
                start as int,
                n + i,
                cap as int,
            ),
{
    let q = lemma_range_multiple(cap);
    let c = cap as int;
    let w = start.wrapping_add(n) as int;
    assert forall|i: int| 0 <= i implies #[trigger] slot(w, i, c) == slot(
        start as int,
        n + i,
        c,
    ) by {
        if start + n > usize::MAX {
            assert(w + i == (start + n + i) - q * c);
            vstd::arithmetic::div_mod::lemma_mod_multiples_vanish(-q, start + n + i, c);
            assert(c * (-q) + (start + n + i) == w + i) by (nonlinear_arith)
                requires
                    w + i == (start + n + i) - q * c,
            ;
        }
    }
    assert(slot(w, 0, c) == slot(start as int, n as int, c));
}

// ---------------------------------------------------------------------
// One free slot
// ---------------------------------------------------------------------

/// Ring with at most `CAP - 1` items in flight.
pub struct SpscRing<T, const CAP: usize> {
    buffer: Vec<Option<T>>,
    /// Write index, on its own cache line.
    pub head: CachePadded<usize>,
    /// Read index, on its own cache line.
    pub tail: CachePadded<usize>,
}

impl<T, const CAP: usize> View for SpscRing<T, CAP> {
    type V = Seq<T>;

    /// The items in flight, oldest first.
    closed spec fn view(&self) -> Seq<T> {
        Seq::new(
            occupancy(self.head.value, self.tail.value),
            |i: int| self.buffer@[slot(self.tail.value as int, i, CAP as int)]->0,
        )
    }
}

impl<T, const CAP: usize> SpscRing<T, CAP> {
    /// The capacity is a power of two, at most `CAP - 1` items are in
    /// flight, and exactly the slots in flight are filled.
    pub closed spec fn wf(&self) -> bool {
        &&& power_of_two(CAP as nat)
        &&& self.buffer@.len() == CAP
        &&& occupancy(self.head.value, self.tail.value) + 1 <= CAP
        &&& forall|i: int|
            0 <= i < CAP ==> (#[trigger] self.buffer@[slot(
                self.tail.value as int,
                i,
                CAP as int,
            )] is Some <==> i < occupancy(self.head.value, self.tail.value))
    }

    /// A new empty ring. `CAP` must be a power of two.
    pub fn new() -> (r: Self)
        requires
            power_of_two(CAP as nat),
        ensures
            r.wf(),
            r@ == Seq::<T>::empty(),
    {
        proof {
            let q = lemma_range_multiple(CAP);
            lemma_slots(0, CAP as int);
        }
        let mut buffer: Vec<Option<T>> = Vec::new();
        let mut i: usize = 0;
        while i < CAP
            invariant
                i <= CAP,
                buffer@.len() == i,
                forall|j: int| 0 <= j < i ==> buffer@[j] is None,
            decreases CAP - i,
        {
            buffer.push(None);
            i += 1;
        }
        let r = SpscRing { buffer, head: CachePadded::new(0), tail: CachePadded::new(0) };
        assert(r@ =~= Seq::<T>::empty());
        r
    }

    /// Push one item; returns it back if the ring is full.
    pub fn try_push(&mut self, value: T) -> (r: Result<(), T>)
        requires
            old(self).wf(),
        ensures
            final(self).wf(),
            r == if old(self)@.len() == CAP - 1 {
                Err(value)
            } else {
                Ok::<(), T>(())
            },
            final(self)@ == if old(self)@.len() == CAP - 1 {
                old(self)@
            } else {
                old(self)@.push(value)
            },
    {
        let head: usize = self.head.value;
        let tail: usize = self.tail.value;
        let ghost n = occupancy(head, tail);
        proof {
            lemma_wrap_slot(tail, n as usize, CAP);
            lemma_wrap_slot(tail, (n + 1) as usize, CAP);
            lemma_slots(tail as int, CAP as int);
            assert(head == tail.wrapping_add(n as usize));
            assert(head.wrapping_add(1) == tail.wrapping_add((n + 1) as usize));
            lemma_wrap_slot(tail, 0, CAP);
        }
        if head.wrapping_add(1) % CAP == tail % CAP {
            return Err(value);
        }
        let at: usize = head % CAP;
        let ghost old_buf = self.buffer@;
        self.buffer.set(at, Some(value));
        self.head.value = head.wrapping_add(1);
        proof {
            assert(occupancy(self.head.value, tail) == n + 1);
            assert forall|i: int| 0 <= i < CAP && i != n implies #[trigger] self.buffer@[slot(
                tail as int,
                i,
                CAP as int,
            )] == old_buf[slot(tail as int, i, CAP as int)] by {
                assert(slot(tail as int, i, CAP as int) != slot(tail as int, n as int, CAP as int));
            }
            assert(self@ =~= old(self)@.push(value));
        }
        Ok(())
    }

    /// Pop the oldest item, or `None` if empty.
    pub fn try_pop(&mut self) -> (r: Option<T>)
        requires
            old(self).wf(),
        ensures
            final(self).wf(),
            r == if old(self)@.len() == 0 {
                None
            } else {
                Some(old(self)@[0])
            },
            final(self)@ == if old(self)@.len() == 0 {
                old(self)@
            } else {
                old(self)@.skip(1)
            },
    {
        let head: usize = self.head.value;
        let tail: usize = self.tail.value;
        if tail == head {
            return None;
        }
        let ghost n = occupancy(head, tail);
        let ghost old_buf = self.buffer@;
        proof {
            lemma_wrap_slot(tail, 0, CAP);
            lemma_wrap_slot(tail, 1, CAP);
            lemma_slots(tail as int, CAP as int);
            assert(old_buf[slot(tail as int, 0, CAP as int)] is Some);
        }
        let at: usize = tail % CAP;
        let v = self.buffer[at].take();
        self.tail.value = tail.wrapping_add(1);
        proof {
            let t = self.tail.value;
            assert(occupancy(head, t) == n - 1);
            assert forall|i: int| 0 <= i < CAP implies (#[trigger] self.buffer@[slot(
                t as int,
                i,
                CAP as int,
            )] is Some <==> i < n - 1) by {
                assert(slot(t as int, i, CAP as int) == slot(tail as int, 1 + i, CAP as int));
                if i < CAP - 1 {
                    assert(slot(tail as int, 0, CAP as int) != slot(
                        tail as int,
                        1 + i,
                        CAP as int,
                    ));
                }
            }
            assert forall|i: int| 0 <= i < n - 1 implies self@[i] == old(self)@.skip(1)[i] by {
                assert(slot(t as int, i, CAP as int) == slot(tail as int, 1 + i, CAP as int));
                assert(slot(tail as int, 0, CAP as int) != slot(tail as int, 1 + i, CAP as int));
            }
            assert(self@ =~= old(self)@.skip(1));
        }
        v
    }

    /// Number of in-flight items.
    pub fn len(&self) -> (r: usize)
        ensures
            r == self@.len(),
    {
        self.head.value.wrapping_sub(self.tail.value)
    }

    /// Capacity (always `CAP`).
    pub fn capacity(&self) -> (r: usize)
        ensures
            r == CAP,
    {
        CAP
    }

    /// Empty check.
    pub fn is_empty(&self) -> (r: bool)
        ensures
            r == (self@.len() == 0),
    {
        self.len() == 0
    }

    /// Never more than `CAP - 1` items are in flight.
    pub proof fn law_occupancy_bound(&self)
        requires
            self.wf(),
        ensures
            self@.len() + 1 <= CAP,
            power_of_two(CAP as nat),
    {
    }
}

// ---------------------------------------------------------------------
// Sequence-numbered cells
// ---------------------------------------------------------------------

struct Cell<T> {
    seq: usize,
    data: Option<T>,
}

/// Ring with up to `CAP` items in flight, one sequence number per cell: a
/// cell is free for the write index equal to its number, and taken for the
/// read index one below it.
pub struct MpmcRing<T, const CAP: usize> {
    cells: Vec<Cell<T>>,
    /// Write index, on its own cache line.
    pub head: CachePadded<usize>,
    /// Read index, on its own cache line.
    pub tail: CachePadded<usize>,
}

impl<T, const CAP: usize> View for MpmcRing<T, CAP> {
    type V = Seq<T>;

    /// The items in flight, oldest first.
    closed spec fn view(&self) -> Seq<T> {
        Seq::new(
            occupancy(self.head.value, self.tail.value),
            |i: int| self.cells@[slot(self.tail.value as int, i, CAP as int)].data->0,
        )
    }
}

impl<T, const CAP: usize> MpmcRing<T, CAP> {
    /// The state of the cell at position `i` from the read index.
    closed spec fn cell_ok(&self, i: int) -> bool {
        let c = self.cells@[slot(self.tail.value as int, i, CAP as int)];
        let taken = i < occupancy(self.head.value, self.tail.value);
        &&& (c.data is Some <==> taken)
        &&& c.seq == if taken {
            self.tail.value.wrapping_add((i + 1) as usize)
        } else {
            self.tail.value.wrapping_add(i as usize)
        }
    }

    /// The capacity is a power of two, at most `CAP` items are in flight,
    /// and every cell's number tells whether it is taken.
    pub closed spec fn wf(&self) -> bool {
        &&& power_of_two(CAP as nat)
        &&& self.cells@.len() == CAP
        &&& occupancy(self.head.value, self.tail.value) <= CAP
        &&& forall|i: int| 0 <= i < CAP ==> #[trigger] self.cell_ok(i)
    }

    /// A new empty ring. `CAP` must be a power of two.
    pub fn new() -> (r: Self)
        requires
            power_of_two(CAP as nat),
        ensures
            r.wf(),
            r@ == Seq::<T>::empty(),
    {
        proof {
            let q = lemma_range_multiple(CAP);
        }
        let mut cells: Vec<Cell<T>> = Vec::new();
        let mut i: usize = 0;
        while i < CAP
            invariant
                i <= CAP,
                cells@.len() == i,
                forall|j: int| 0 <= j < i ==> cells@[j].data is None && cells@[j].seq == j,
            decreases CAP - i,
        {
            cells.push(Cell { seq: i, data: None });
            i += 1;
        }
        let r = MpmcRing { cells, head: CachePadded::new(0), tail: CachePadded::new(0) };
        proof {
            assert forall|i: int| 0 <= i < CAP implies #[trigger] r.cell_ok(i) by {
                vstd::arithmetic::div_mod::lemma_small_mod(i as nat, CAP as nat);
                assert(slot(0, i, CAP as int) == i);
            }
            assert(r@ =~= Seq::<T>::empty());
        }
        r
    }

    /// Push one item; returns it back if the ring is full.
    pub fn try_push(&mut self, value: T) -> (r: Result<(), T>)
        requires
            old(self).wf(),
        ensures
            final(self).wf(),
            r == if old(self)@.len() == CAP {
                Err(value)
            } else {
                Ok::<(), T>(())
            },
            final(self)@ == if old(self)@.len() == CAP {
                old(self)@
            } else {
                old(self)@.push(value)
            },
    {
        let head: usize = self.head.value;
        let tail: usize = self.tail.value;
        let ghost n = occupancy(head, tail);
        proof {
            lemma_wrap_slot(tail, n as usize, CAP);
            lemma_slots(tail as int, CAP as int);
            assert(head == tail.wrapping_add(n as usize));
            if n < CAP {
                assert(self.cell_ok(n as int));
            } else {
                assert(self.cell_ok(0));
            }
        }
        let at: usize = head % CAP;
        // With a single cell the numbers of a taken and a free cell agree,
        // so the indices decide.
        if self.cells[at].seq != head || (CAP == 1 && head != tail) {
            return Err(value);
        }
        let ghost old_cells = self.cells@;
        assert(n < CAP) by {
            if n == CAP && CAP > 1 {
                assert(tail.wrapping_add(1) != tail.wrapping_add(CAP));
            }
        }
        self.cells.set(at, Cell { seq: head.wrapping_add(1), data: Some(value) });
        self.head.value = head.wrapping_add(1);
        proof {
            assert(occupancy(self.head.value, tail) == n + 1);
            assert forall|i: int| 0 <= i < CAP implies #[trigger] self.cell_ok(i) by {
                assert(old(self).cell_ok(i));
                if i != n {
                    assert(slot(tail as int, i, CAP as int) != slot(
                        tail as int,
                        n as int,
                        CAP as int,
                    ));
                }
            }
            assert forall|i: int| 0 <= i < n implies self@[i] == old(self)@[i] by {
                assert(slot(tail as int, i, CAP as int) != slot(tail as int, n as int, CAP as int));
            }
            assert(self@ =~= old(self)@.push(value));
        }
        Ok(())
    }

    /// Pop the oldest item, or `None` if empty.
    pub fn try_pop(&mut self) -> (r: Option<T>)
        requires
            old(self).wf(),
        ensures
            final(self).wf(),
            r == if old(self)@.len() == 0 {
                None
            } else {
                Some(old(self)@[0])
            },
            final(self)@ == if old(self)@.len() == 0 {
                old(self)@
            } else {
                old(self)@.skip(1)
            },
    {
        let head: usize = self.head.value;
        let tail: usize = self.tail.value;
        let ghost n = occupancy(head, tail);
        let ghost old_cells = self.cells@;
        proof {
            lemma_wrap_slot(tail, 0, CAP);
            lemma_wrap_slot(tail, 1, CAP);
            lemma_slots(tail as int, CAP as int);
            assert(self.cell_ok(0));
        }
        let at: usize = tail % CAP;
        if self.cells[at].seq != tail.wrapping_add(1) {
            return None;
        }
        let v = self.cells[at].data.take();
        self.cells[at].seq = tail.wrapping_add(CAP);
        self.tail.value = tail.wrapping_add(1);
        proof {
            let t = self.tail.value;
            assert(n > 0);
            assert(occupancy(head, t) == n - 1);
            assert forall|i: int| 0 <= i < CAP implies #[trigger] self.cell_ok(i) by {
                assert(slot(t as int, i, CAP as int) == slot(tail as int, 1 + i, CAP as int));
                assert(t.wrapping_add(i as usize) == tail.wrapping_add((i + 1) as usize));
                if i < CAP - 1 {
                    assert(old(self).cell_ok(i + 1));
                    assert(t.wrapping_add((i + 1) as usize) == tail.wrapping_add((i + 2) as usize));
                    assert(slot(tail as int, 0, CAP as int) != slot(
                        tail as int,
                        1 + i,
                        CAP as int,
                    ));
                }
            }
            assert forall|i: int| 0 <= i < n - 1 implies self@[i] == old(self)@.skip(1)[i] by {
                assert(slot(t as int, i, CAP as int) == slot(tail as int, 1 + i, CAP as int));
                assert(slot(tail as int, 0, CAP as int) != slot(tail as int, 1 + i, CAP as int));
            }
            assert(self@ =~= old(self)@.skip(1));
        }
        v
    }

    /// Number of in-flight items.
    pub fn len(&self) -> (r: usize)
        ensures
            r == self@.len(),
    {
        self.head.value.wrapping_sub(self.tail.value)
    }

    /// Whether the ring is empty.
    pub fn is_empty(&self) -> (r: bool)
        ensures
            r == (self@.len() == 0),
    {
        self.len() == 0
    }

    /// Capacity (always `CAP`).
    pub fn capacity(&self) -> (r: usize)
        ensures
            r == CAP,
    {
        CAP
    }

    /// Never more than `CAP` items are in flight.
    pub proof fn law_occupancy_bound(&self)
        requires
            self.wf(),
        ensures
            self@.len() <= CAP,
            power_of_two(CAP as nat),
    {
    }
}

/// A FIFO is not a stack: on nonempty content, a pop after a push gives
/// the oldest item, and the pushed one stays behind.
pub proof fn law_fifo_pops_the_oldest<T>(s: Seq<T>, v: T)
    requires
        s.len() > 0,
    ensures
        s.push(v)[0] == s[0],
        s.push(v).skip(1) == s.skip(1).push(v),
{
    assert(s.push(v).skip(1) =~= s.skip(1).push(v));
}

} // verus!
