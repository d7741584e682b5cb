//! Fixed-capacity byte buffers and an object pool with a FIFO free list.
use vstd::prelude::*;
use crate::ring::MpmcRing;

verus! {

/// A fixed-capacity byte buffer (one packet slot).
pub struct Buffer<const N: usize> {
    data: [u8; N],
    len: usize,
}

/// The requested length exceeds the buffer's capacity.
#[derive(Clone, Copy, Debug, PartialEq, Eq, Structural)]
pub struct SetLenError;

impl<const N: usize> Buffer<N> {
    /// All `N` bytes.
    pub closed spec fn full(&self) -> Seq<u8> {
        self.data@
    }

    /// The published length.
    pub closed spec fn length(&self) -> nat {
        self.len as nat
    }

    /// The published length never exceeds the capacity.
    pub open spec fn wf(&self) -> bool {
        self.length() <= N && self.full().len() == N
    }

    /// A zeroed buffer with length 0.
    pub fn new() -> (b: Self)
        ensures
            b.wf(),
            b.length() == 0,
            b.full() == Seq::new(N as nat, |i: int| 0u8),
    {
        let b = Buffer { data: vstd::array::array_fill_for_copy_types::<u8, N>(0), len: 0 };
        assert(b.full() =~= Seq::new(N as nat, |i: int| 0u8));
        b
    }

    /// The buffer contents.
    pub fn as_slice(&self) -> (r: &[u8])
        requires
            self.wf(),
        ensures
            r@ == self.full().take(self.length() as int),
    {
        let full = self.data.as_slice();
        let r = vstd::slice::slice_subrange(full, 0, self.len);
        assert(r@ =~= self.full().take(self.length() as int));
        r
    }

    /// The buffer contents, mutable.
    pub fn as_mut_slice(&mut self) -> (r: &mut [u8])
        requires
            old(self).wf(),
        ensures
            r@ == old(self).full().take(old(self).length() as int),
            final(r)@.len() == r@.len() ==> {
                &&& final(self).full() == final(r)@ + old(self).full().skip(
                    old(self).length() as int,
                )
                &&& final(self).length() == old(self).length()
                &&& final(self).wf()
            },
    {
        let n: usize = self.len;
        let full: &mut [u8] = &mut self.data;
        let (front, _rest) = full.split_at_mut(n);
        front
    }

    /// The full backing array (beyond the length it is zeroed but unused).
    /// Bytes that were written through the mutable array or left behind by
    /// a smaller length stay until [`Buffer::clear`].
    pub fn as_full_slice(&self) -> (r: &[u8; N])
        ensures
            r@ == self.full(),
    {
        &self.data
    }

    /// The full backing array, mutable, for receive paths where the length
    /// is known afterwards; [`Buffer::set_len`] then publishes it.
    pub fn as_mut_full_slice(&mut self) -> (r: &mut [u8; N])
        ensures
            r@ == old(self).full(),
            final(self).full() == final(r)@,
            final(self).length() == old(self).length(),
    {
        &mut self.data
    }

    /// Current length.
    pub fn len(&self) -> (r: usize)
        ensures
            r == self.length(),
    {
        self.len
    }

    /// Whether the buffer is empty (length 0).
    pub fn is_empty(&self) -> (r: bool)
        ensures
            r == (self.length() == 0),
    {
        self.len == 0
    }

    /// Capacity.
    pub fn capacity(&self) -> (r: usize)
        ensures
            r == N,
    {
        N
    }

    /// Set the length after filling the prefix; refused beyond the
    /// capacity.
    pub fn set_len(&mut self, len: usize) -> (r: Result<(), SetLenError>)
        ensures
            r == if len > N {
                Err(SetLenError)
            } else {
                Ok::<(), SetLenError>(())
            },
            final(self).full() == old(self).full(),
            final(self).length() == if len > N {
                old(self).length()
            } else {
                len as nat
            },
            old(self).wf() ==> final(self).wf(),
    {
        if len > N {
            return Err(SetLenError);
        }
        self.len = len;
        Ok(())
    }

    /// Clear: length to 0, and the backing array zeroed again.
    pub fn clear(&mut self)
        ensures
            final(self).wf(),
            final(self).length() == 0,
            final(self).full() == Seq::new(N as nat, |i: int| 0u8),
    {
        self.data = vstd::array::array_fill_for_copy_types::<u8, N>(0);
        self.len = 0;
        assert(self.full() =~= Seq::new(N as nat, |i: int| 0u8));
    }
}

impl<const N: usize> Default for Buffer<N> {
    fn default() -> (b: Self)
        ensures
            b.wf(),
            b.length() == 0,
            b.full() == Seq::new(N as nat, |i: int| 0u8),
    {
        Self::new()
    }
}

/// A pool of `N` values with a FIFO list of free slots.
pub struct Pool<T, const N: usize> {
    slots: Vec<Option<T>>,
    free: MpmcRing<usize, N>,
}

/// A slot taken from a pool. It is given back with [`Pool::release`].
pub struct PoolGuard {
    idx: usize,
}

impl PoolGuard {
    /// The slot's index, as a value.
    pub closed spec fn slot(&self) -> nat {
        self.idx as nat
    }

    /// The slot's index.
    pub fn index(&self) -> (r: usize)
        ensures
            r == self.slot(),
    {
        self.idx
    }
}

impl<T, const N: usize> Pool<T, N> {
    /// The values, by slot; `None` where a slot was never initialized.
    pub closed spec fn values(&self) -> Seq<Option<T>> {
        self.slots@
    }

    /// The free slots, in the order in which they will be handed out.
    pub closed spec fn free_list(&self) -> Seq<usize> {
        self.free@
    }

    /// One value place per slot; the free list holds slot numbers, each at
    /// most once.
    pub closed spec fn wf(&self) -> bool {
        &&& self.free.wf()
        &&& self.slots@.len() == N
        &&& self.free@.no_duplicates()
        &&& forall|i: int| 0 <= i < self.free@.len() ==> #[trigger] self.free@[i] < N
    }

    /// Slot `i` is taken.
    pub open spec fn taken(&self, i: nat) -> bool {
        i < N && !self.free_list().contains(i as usize)
    }

    /// There is one value place per slot.
    pub proof fn law_one_value_per_slot(&self)
        requires
            self.wf(),
        ensures
            self.values().len() == N,
    {
    }

    /// The free list holds slot numbers, each at most once, so no slot is
    /// handed out twice.
    pub proof fn law_free_list_is_sound(&self)
        requires
            self.wf(),
        ensures
            self.free_list().no_duplicates(),
            self.free_list().len() <= N,
            forall|i: int|
                0 <= i < self.free_list().len() ==> #[trigger] self.free_list()[i] < N,
    {
        self.free.law_occupancy_bound();
    }

    /// A new pool with every slot free, lowest first. The caller fills
    /// each slot with [`Pool::initialize`].
    pub fn new() -> (p: Self)
        requires
            crate::ring::power_of_two(N as nat),
        ensures
            p.wf(),
            p.free_list() == Seq::new(N as nat, |i: int| i as usize),
            p.values() == Seq::new(N as nat, |i: int| None::<T>),
    {
        let mut free: MpmcRing<usize, N> = MpmcRing::new();
        let mut slots: Vec<Option<T>> = Vec::new();
        let mut i: usize = 0;
        while i < N
            invariant
                i <= N,
                free.wf(),
                free@ == Seq::new(i as nat, |j: int| j as usize),
                slots@ == Seq::new(i as nat, |j: int| None::<T>),
            decreases N - i,
        {
            let pushed = free.try_push(i);
            slots.push(None);
            i += 1;
            assert(free@ =~= Seq::new(i as nat, |j: int| j as usize));
            assert(slots@ =~= Seq::new(i as nat, |j: int| None::<T>));
        }
        Pool { slots, free }
    }

    /// Give slot `i` its value.
    pub fn initialize(&mut self, i: usize, value: T)
        requires
            old(self).wf(),
            i < N,
        ensures
            final(self).wf(),
            final(self).values() == old(self).values().update(i as int, Some(value)),
            final(self).free_list() == old(self).free_list(),
    {
        self.slots.set(i, Some(value));
    }

    /// Allocate a slot, or `None` if the pool is exhausted.
    pub fn try_alloc(&mut self) -> (r: Option<PoolGuard>)
        requires
            old(self).wf(),
        ensures
            final(self).wf(),
            final(self).values() == old(self).values(),
            match r {
                Some(g) => {
                    &&& old(self).free_list().len() > 0
                    &&& g.slot() == old(self).free_list()[0]
                    &&& final(self).free_list() == old(self).free_list().skip(1)
                    &&& final(self).taken(g.slot())
                    &&& !old(self).taken(g.slot())
                },
                None => {
                    &&& old(self).free_list().len() == 0
                    &&& final(self).free_list() == old(self).free_list()
                },
            },
    {
        match self.try_alloc_index() {
            Some(idx) => Some(PoolGuard { idx }),
            None => None,
        }
    }

    /// Allocate a slot by its index. The caller owns the slot and gives it
    /// back once, with [`Pool::release_index`].
    pub fn try_alloc_index(&mut self) -> (r: Option<usize>)
        requires
            old(self).wf(),
        ensures
            final(self).wf(),
            final(self).values() == old(self).values(),
            match r {
                Some(i) => {
                    &&& old(self).free_list().len() > 0
                    &&& i == old(self).free_list()[0]
                    &&& final(self).free_list() == old(self).free_list().skip(1)
                    &&& final(self).taken(i as nat)
                    &&& !old(self).taken(i as nat)
                },
                None => {
                    &&& old(self).free_list().len() == 0
                    &&& final(self).free_list() == old(self).free_list()
                },
            },
    {
        let ghost f = self.free@;
        let r = self.free.try_pop();
        proof {
            if f.len() > 0 {
                assert(f.contains(f[0]));
                let rest = f.skip(1);
                assert forall|i: int, j: int| 0 <= i < j < rest.len() implies rest[i] != rest[j] by {
                    assert(rest[i] == f[i + 1] && rest[j] == f[j + 1]);
                }
                assert(rest.no_duplicates());
                assert forall|i: int| 0 <= i < rest.len() implies #[trigger] rest[i] < N by {
                    assert(f[i + 1] < N);
                }
                assert(!rest.contains(f[0])) by {
                    if rest.contains(f[0]) {
                        let j = choose|j: int| 0 <= j < rest.len() && rest[j] == f[0];
                        assert(f[j + 1] == f[0]);
                    }
                }
            }
        }
        r
    }

    /// Return slot `idx` to the end of the free list. The caller must own
    /// the slot.
    pub fn release_index(&mut self, idx: usize)
        requires
            old(self).wf(),
            old(self).taken(idx as nat),
        ensures
            final(self).wf(),
            final(self).values() == old(self).values(),
            final(self).free_list() == old(self).free_list().push(idx),
    {
        let ghost f = self.free@;
        proof {
            self.free.law_occupancy_bound();
            lemma_room_for_taken::<N>(f, idx);
        }
        let r = self.free.try_push(idx);
        proof {
            let g = f.push(idx);
            assert forall|i: int, j: int| 0 <= i < j < g.len() implies g[i] != g[j] by {
                if j == f.len() {
                    assert(f.contains(f[i]));
                }
            }
            assert(g.no_duplicates());
        }
    }

    /// Give back an allocated slot.
    pub fn release(&mut self, guard: PoolGuard)
        requires
            old(self).wf(),
            old(self).taken(guard.slot()),
        ensures
            final(self).wf(),
            final(self).values() == old(self).values(),
            final(self).free_list() == old(self).free_list().push(guard.slot() as usize),
    {
        self.release_index(guard.idx);
    }

    /// The value in slot `idx`.
    pub fn get(&self, idx: usize) -> (r: &T)
        requires
            self.wf(),
            idx < N,
            self.values()[idx as int] is Some,
        ensures
            Some(*r) == self.values()[idx as int],
    {
        match &self.slots[idx] {
            Some(v) => v,
            None => vstd::pervasive::unreached(),
        }
    }

    /// The value in slot `idx`, mutable.
    pub fn get_mut(&mut self, idx: usize) -> (r: &mut T)
        requires
            old(self).wf(),
            idx < N,
            old(self).values()[idx as int] is Some,
        ensures
            Some(*r) == old(self).values()[idx as int],
            final(self).wf(),
            final(self).values() == old(self).values().update(idx as int, Some(*final(r))),
            final(self).free_list() == old(self).free_list(),
    {
        match &mut self.slots[idx] {
            Some(v) => v,
            None => vstd::pervasive::unreached(),
        }
    }

    /// Number of slots currently in use.
    pub fn in_use(&self) -> (r: usize)
        requires
            self.wf(),
        ensures
            r == N - self.free_list().len(),
    {
        proof {
            self.free.law_occupancy_bound();
        }
        N - self.free.len()
    }
}

/// A list of distinct slot numbers that misses one of `n` is shorter than
/// `n`.
proof fn lemma_room_for_taken<const N: usize>(f: Seq<usize>, idx: usize)
    requires
        f.no_duplicates(),
        forall|i: int| 0 <= i < f.len() ==> #[trigger] f[i] < N,
        idx < N,
        !f.contains(idx),
    ensures
        f.len() < N,
{
    let g = f.push(idx);
    let ints = g.map_values(|x: usize| x as int);
    assert(ints.no_duplicates()) by {
        assert forall|i: int, j: int| 0 <= i < ints.len() && 0 <= j < ints.len() && i
            != j implies ints[i] != ints[j] by {
            if i == f.len() {
                assert(f.contains(f[j]));
            } else if j == f.len() {
                assert(f.contains(f[i]));
            }
        }
    }
    ints.unique_seq_to_set();
    let range = vstd::set_lib::set_int_range(0, N as int);
    vstd::set_lib::lemma_int_range(0, N as int);
    assert(ints.to_set().subset_of(range)) by {
        assert forall|x: int| ints.to_set().contains(x) implies range.contains(x) by {
            let i = choose|i: int| 0 <= i < ints.len() && ints[i] == x;
            assert(g[i] < N);
        }
    }
    vstd::set_lib::lemma_len_subset(ints.to_set(), range);
}

/// A released slot is handed out again after exactly the slots that were
/// free before it: each allocation takes the front of the list.
pub proof fn law_release_then_alloc(free: Seq<usize>, idx: usize)
    ensures
        free.push(idx).skip(free.len() as int) == seq![idx],
        forall|i: int| 0 <= i < free.len() ==> free.push(idx).skip(i)[0] == #[trigger] free[i],
{
    assert(free.push(idx).skip(free.len() as int) =~= seq![idx]);
}

} // verus!
