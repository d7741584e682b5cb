use fds::atom::{Atom, EffectfulAtom, PureAtom};
use fds::buffer::{Buffer, Pool};
use fds::compose::{par, then};
use fds::feedback::{delay, fixed_iter, tr};
use fds::molecule::{EffectfulMolecule, HybridMolecule, Molecule, PureFn, PureMolecule};
use fds::reactor_loop::Reactor;
use fds::ring::{MpmcRing, SpscRing};
use fds::stack::Stack;

#[derive(Clone, Copy)]
struct Inc(u32);

impl Atom for Inc {
    type Input = u32;
    type Output = u32;
}

impl PureAtom for Inc {
    fn apply(&self, input: u32) -> u32 {
        input + self.0
    }
}

#[test]
fn atom_concrete_atom_works() {
    let a = Inc(1);
    assert_eq!(a.apply(41), 42);
}

#[test]
fn concrete_atom_works() {
    let a = Inc(1);
    assert_eq!(a.apply(41), 42);
}

struct Bump;

impl Atom for Bump {
    type Input = u32;
    type Output = u32;
}

impl EffectfulAtom<u32> for Bump {
    fn apply(&self, ctx: &mut u32, input: u32) -> u32 {
        *ctx += 1;
        input + *ctx
    }
}

#[test]
fn effectful_atom_changes_its_context() {
    let mut ctx = 5u32;
    assert_eq!(Bump.apply(&mut ctx, 10), 16);
    assert_eq!(ctx, 6);
}

#[test]
fn pure_fn_carrier_invokes() {
    let f = PureFn(|x: u32| x + 1);
    assert_eq!(f.call(41), 42);
}

#[derive(Clone, Copy)]
struct Add(u32);

impl Molecule for Add {
    type State = ();
    type Input = u32;
    type Output = u32;
    fn step(&self, _state: &mut (), input: u32) -> u32 {
        input.wrapping_add(self.0)
    }
}

#[derive(Clone, Copy)]
struct Mul(u32);

impl Molecule for Mul {
    type State = ();
    type Input = u32;
    type Output = u32;
    fn step(&self, _state: &mut (), input: u32) -> u32 {
        input.wrapping_mul(self.0)
    }
}

#[derive(Clone, Copy)]
struct Sub(u32);

impl Molecule for Sub {
    type State = ();
    type Input = u32;
    type Output = u32;
    fn step(&self, _state: &mut (), input: u32) -> u32 {
        input.wrapping_sub(self.0)
    }
}

#[derive(Clone, Copy)]
struct Not;

impl Molecule for Not {
    type State = ();
    type Input = bool;
    type Output = bool;
    fn step(&self, _state: &mut (), input: bool) -> bool {
        !input
    }
}

#[test]
fn concrete_molecule_steps() {
    let m = Add(1);
    let mut s = ();
    assert_eq!(m.step(&mut s, 41), 42);
}

struct CountCtx(u32);
struct Count;

impl Molecule for Count {
    type State = CountCtx;
    type Input = ();
    type Output = u32;
    fn step(&self, s: &mut CountCtx, _: ()) -> u32 {
        s.0 += 1;
        s.0
    }
}

fn assert_pure<M: PureMolecule>(_: &M) {}
fn assert_effectful<Ctx, M: EffectfulMolecule<Ctx>>(_: &M) {}
fn assert_hybrid<Spure, Ctx, M: HybridMolecule<Spure, Ctx>>(_: &M) {}

#[test]
fn marker_traits_apply() {
    let m = Add(0);
    assert_pure(&m);
    assert_effectful::<CountCtx, _>(&Count);
}

struct Tick;

impl Molecule for Tick {
    type State = u32;
    type Input = u32;
    type Output = u32;
    fn step(&self, s: &mut u32, x: u32) -> u32 {
        *s += 1;
        x
    }
}

#[test]
fn mol_then_of_effectful_is_hybrid_marker() {
    let m = then(Tick, Tick);
    assert_hybrid::<u32, u32, _>(&m);
}

#[test]
fn sequential_composition_threads_output() {
    let m = Add(1);
    let n = Mul(10);
    let c = then(m, n);
    let mut s = ((), ());
    assert_eq!(c.step(&mut s, 4), 50);
}

#[test]
fn tensor_runs_in_parallel() {
    let m = Add(1);
    let n = Not;
    let p = par(m, n);
    let mut s = ((), ());
    assert_eq!(p.step(&mut s, (4, true)), (5, false));
}

#[test]
fn interchange_law_holds_on_examples() {
    let f = Add(1);
    let g = Mul(2);
    let h = Add(3);
    let k = Sub(1);
    let lhs = then(par(f, g), par(h, k));
    let rhs = par(then(f, h), then(g, k));
    let mut s1 = (((), ()), ((), ()));
    let mut s2 = (((), ()), ((), ()));
    let out1 = lhs.step(&mut s1, (10, 10));
    let out2 = rhs.step(&mut s2, (10, 10));
    assert_eq!(out1, out2);
    assert_eq!(out1, (14, 19));
}

#[test]
fn array_tensor_steps_all_elements() {
    let arr = [Add(1), Add(2), Add(3)];
    let mut s = [(), (), ()];
    assert_eq!(arr.step(&mut s, [1, 1, 1]), [2, 3, 4]);
}

struct Swap;

impl Molecule for Swap {
    type State = ();
    type Input = (u32, u32);
    type Output = (u32, u32);
    fn step(&self, _state: &mut (), input: (u32, u32)) -> (u32, u32) {
        (input.1, input.0)
    }
}

#[test]
fn tr_of_swap_is_delay_not_identity() {
    let looped = tr(Swap);
    let mut s = ((), 7u32);
    assert_eq!(looped.step(&mut s, 3), 7);
    assert_eq!(s.1, 3);
    assert_eq!(looped.step(&mut s, 9), 3);
    assert_eq!(s.1, 9);

    let d = delay::<u32>();
    let mut u = 7u32;
    assert_eq!(d.step(&mut u, 3), 7);
    assert_eq!(u, 3);
    assert_eq!(d.step(&mut u, 9), 3);
    assert_eq!(u, 9);

    let mut id_state = ();
    assert_ne!(Swap.step(&mut id_state, (3, 7)), (3, 7));
}

struct Body;

impl Molecule for Body {
    type State = u32;
    type Input = (u32, ());
    type Output = (u32, ());
    fn step(&self, s: &mut u32, (a, ()): (u32, ())) -> (u32, ()) {
        *s = s.wrapping_add(1);
        (a.wrapping_add(*s), ())
    }
}

#[test]
fn vanishing_unit_register() {
    let m = tr(Body);
    let mut st = (0u32, ());
    assert_eq!(m.step(&mut st, 10), 11);
    assert_eq!(st.0, 1);
    assert_eq!(m.step(&mut st, 10), 12);
}

#[test]
fn fixed_iter_k1_matches_tr() {
    let mut t = ((), 1u32);
    let mut f = ((), 1u32);
    let a = tr(Swap).step(&mut t, 5);
    let b = fixed_iter::<1, _>(Swap).step(&mut f, 5);
    assert_eq!(a, b);
    assert_eq!(t.1, f.1);
}

#[test]
fn fixed_iter_applies_k_times() {
    let mut s = ((), 1u32);
    let out = fixed_iter::<2, _>(Swap).step(&mut s, 5);
    assert_eq!(out, 5);
    assert_eq!(s.1, 5);
}

#[test]
fn buffer_bounds() {
    let mut b = Buffer::<16>::new();
    assert!(b.set_len(16).is_ok());
    assert!(b.set_len(17).is_err());
    b.as_mut_slice()[0] = 7;
    assert_eq!(b.as_slice()[0], 7);
    b.clear();
    assert_eq!(b.len(), 0);
}

#[test]
fn pool_alloc_return_cycle() {
    let mut pool: Pool<u64, 4> = Pool::new();
    for i in 0..4 {
        pool.initialize(i, i as u64);
    }
    let a = pool.try_alloc().expect("a free slot");
    assert_eq!(*pool.get(a.index()), a.index() as u64);
    pool.release(a);
    let a = pool.try_alloc().expect("a free slot again");
    assert_eq!(*pool.get(a.index()), a.index() as u64);
    pool.release(a);
    let g0 = pool.try_alloc().unwrap();
    let g1 = pool.try_alloc().unwrap();
    let g2 = pool.try_alloc().unwrap();
    let g3 = pool.try_alloc().unwrap();
    assert!(pool.try_alloc().is_none());
    pool.release(g0);
    pool.release(g1);
    pool.release(g2);
    pool.release(g3);
    assert!(pool.try_alloc().is_some());
}

#[test]
fn pool_hands_slots_out_in_release_order() {
    let mut pool: Pool<u64, 2> = Pool::new();
    let a = pool.try_alloc_index().unwrap();
    let b = pool.try_alloc_index().unwrap();
    assert_eq!((a, b), (0, 1));
    pool.release_index(b);
    pool.release_index(a);
    assert_eq!(pool.try_alloc_index(), Some(1));
    assert_eq!(pool.try_alloc_index(), Some(0));
    assert_eq!(pool.in_use(), 2);
}

fn distance<A, B>(a: &A, b: &B) -> usize {
    core::ptr::from_ref(a).addr().abs_diff(core::ptr::from_ref(b).addr())
}

#[test]
fn spsc_head_and_tail_occupy_distinct_cache_lines() {
    let ring = SpscRing::<u64, 8>::new();
    let gap = distance(&ring.head, &ring.tail);
    assert!(gap >= 64, "SPSC head and tail share a cache line: gap={gap}");
}

#[test]
fn mpmc_head_and_tail_occupy_distinct_cache_lines() {
    let ring = MpmcRing::<u64, 8>::new();
    let gap = distance(&ring.head, &ring.tail);
    assert!(gap >= 64, "MPMC head and tail share a cache line: gap={gap}");
}

#[test]
fn ring_spsc_roundtrip_and_invariant() {
    let mut ring = SpscRing::<u32, 8>::new();
    for i in 0..7 {
        assert!(ring.try_push(i).is_ok());
    }
    assert!(ring.try_push(99).is_err());
    assert_eq!(ring.len(), 7);
    for i in 0..7 {
        assert_eq!(ring.try_pop(), Some(i));
    }
    assert_eq!(ring.try_pop(), None);
    assert_eq!(ring.len(), 0);
}

#[test]
fn ring_spsc_wraparound() {
    let mut ring = SpscRing::<u32, 4>::new();
    for round in 0..3 {
        for i in 0..3 {
            assert!(ring.try_push(round * 10 + i).is_ok());
        }
        for i in 0..3 {
            assert_eq!(ring.try_pop(), Some(round * 10 + i));
        }
    }
}

#[test]
fn ring_mpmc_roundtrip_and_invariant() {
    let mut ring = MpmcRing::<u32, 8>::new();
    for i in 0..8 {
        assert!(ring.try_push(i).is_ok());
    }
    assert!(ring.try_push(99).is_err());
    assert_eq!(ring.len(), 8);
    for i in 0..8 {
        assert_eq!(ring.try_pop(), Some(i));
    }
    assert_eq!(ring.try_pop(), None);
    assert_eq!(ring.len(), 0);
}

#[test]
fn push_pop_is_identity() {
    let mut s = Stack::<u32, 4>::new();
    assert!(s.try_push(7).is_ok());
    assert_eq!(s.try_pop(), Some(7));
    assert!(s.is_empty());
}

#[test]
fn pop_push_is_identity_when_nonempty() {
    let mut s = Stack::<u32, 4>::new();
    assert!(s.try_push(1).is_ok());
    assert!(s.try_push(2).is_ok());
    let v = s.try_pop().unwrap();
    assert_eq!(v, 2);
    assert!(s.try_push(v).is_ok());
    assert_eq!(s.peek().copied(), Some(2));
    assert_eq!(s.len(), 2);
    assert_eq!(s.try_pop(), Some(2));
    assert_eq!(s.try_pop(), Some(1));
}

#[test]
fn peek_equations() {
    let mut s = Stack::<u32, 4>::new();
    assert!(s.try_push(1).is_ok());
    assert!(s.try_push(2).is_ok());
    assert_eq!(s.peek().copied(), s.peek().copied());
    let peeked = s.peek().copied();
    let popped = s.try_pop();
    assert_eq!(peeked, popped);
    assert_eq!(s.try_pop(), Some(1));
}

#[test]
fn occupancy_reaches_cap() {
    let mut s = Stack::<u32, 4>::new();
    for i in 0..4 {
        assert!(s.try_push(i).is_ok());
    }
    assert!(s.is_full());
    assert!(s.try_push(99).is_err());
    assert_eq!(s.len(), 4);
    assert_eq!(s.try_pop(), Some(3));
}

struct Counter;

impl Molecule for Counter {
    type State = u32;
    type Input = u32;
    type Output = u32;
    fn step(&self, state: &mut u32, input: u32) -> u32 {
        *state += 1;
        input + *state
    }
}

#[test]
fn reactor_drains_ingress() {
    let mut reactor = Reactor::<Counter, 8>::new(Counter);
    for i in 0..5 {
        assert!(reactor.ingress.try_push(i).is_ok());
    }
    let processed = reactor.poll_once();
    assert_eq!(processed, 5);
    assert_eq!(reactor.egress.try_pop(), Some(1));
    assert_eq!(reactor.egress.try_pop(), Some(3));
}

#[test]
fn reactor_leaves_out_what_finds_egress_full() {
    let mut reactor = Reactor::<Counter, 4>::new(Counter);
    for i in 0..3 {
        assert!(reactor.ingress.try_push(i).is_ok());
    }
    assert_eq!(reactor.poll_once(), 3);
    assert!(reactor.ingress.try_push(9).is_ok());
    assert_eq!(reactor.poll_once(), 1);
    assert_eq!(reactor.egress.len(), 3);
    assert_eq!(reactor.egress.try_pop(), Some(1));
    assert_eq!(reactor.state, 4);
}

#[test]
fn leaked_boxes_stay_usable() {
    let n: &'static mut u32 = fds::mem::leak_box(41u32);
    *n += 1;
    assert_eq!(*n, 42);
    assert_eq!(fds::mem::mapping_len(1), 4096);
    assert_eq!(fds::mem::mapping_len(4096), 4096);
    assert_eq!(fds::mem::mapping_len(4097), 8192);
}

#[test]
fn the_full_buffer_ignores_the_length() {
    let mut b = Buffer::<4>::new();
    b.as_mut_full_slice()[2] = 9;
    assert_eq!(b.as_slice(), &[0u8; 0]);
    assert_eq!(b.as_full_slice(), &[0, 0, 9, 0]);
    assert_eq!(b.set_len(3), Ok(()));
    assert_eq!(b.as_slice(), &[0, 0, 9]);
}

#[test]
fn a_cleared_buffer_is_zeroed() {
    let mut b = Buffer::<16>::new();
    assert_eq!(b.set_len(16), Ok(()));
    b.as_mut_slice()[0] = 7;
    b.clear();
    assert!(b.is_empty());
    assert_eq!(b.as_full_slice(), &[0u8; 16]);
}

#[test]
fn no_pool_slot_is_handed_out_twice() {
    let mut p = Pool::<u8, 4>::new();
    let mut seen = Vec::new();
    while let Some(i) = p.try_alloc_index() {
        assert!(i < 4 && !seen.contains(&i));
        seen.push(i);
    }
    assert_eq!(seen.len(), 4);
    p.release_index(2);
    assert_eq!(p.try_alloc_index(), Some(2));
    assert_eq!(p.try_alloc_index(), None);
}
