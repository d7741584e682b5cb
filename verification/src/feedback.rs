//! Delayed feedback: the reactor loop of a molecule.
//!
//! For a body from `(A, U)` to `(B, U)` the loop carries `U` from one step
//! to the next. Looping a swap is the one-step delay, not the identity.
use vstd::prelude::*;
use crate::molecule::Molecule;
use core::marker::PhantomData;

verus! {

/// One-step delay: the output is the previous register value, the input
/// becomes the next one.
pub struct Delay<U>(PhantomData<U>);

impl<U> Delay<U> {
    /// The delay molecule on register type `U`.
    pub fn new() -> (d: Self) {
        Delay(PhantomData)
    }
}

impl<U> Default for Delay<U> {
    fn default() -> Self {
        Self::new()
    }
}

/// Constructor for [`Delay`].
pub fn delay<U>() -> (d: Delay<U>) {
    Delay::new()
}

impl<U: Copy + 'static> Molecule for Delay<U> {
    type State = U;

    type Input = U;

    type Output = U;

    open spec fn ready(&self, state: U, input: U) -> bool {
        true
    }

    open spec fn run(&self, state: U, input: U) -> (U, U) {
        (state, input)
    }

    fn step(&self, state: &mut U, input: U) -> (out: U) {
        let prev = *state;
        *state = input;
        prev
    }
}

/// The reactor loop of a body.
pub struct Tr<M> {
    pub body: M,
}

/// Constructor for [`Tr`].
pub fn tr<M>(body: M) -> (t: Tr<M>)
    ensures
        t == (Tr { body }),
{
    Tr { body }
}

impl<M, A, B, U> Molecule for Tr<M> where
    M: Molecule<Input = (A, U), Output = (B, U)>,
    U: Copy + 'static,
 {
    type State = (M::State, U);

    type Input = A;

    type Output = B;

    open spec fn ready(&self, state: (M::State, U), input: A) -> bool {
        self.body.ready(state.0, (input, state.1))
    }

    open spec fn run(&self, state: (M::State, U), input: A) -> (B, (M::State, U)) {
        let ((b, u), s) = self.body.run(state.0, (input, state.1));
        (b, (s, u))
    }

    fn step(&self, state: &mut (M::State, U), input: A) -> (out: B) {
        let u = state.1;
        let (b, u_next) = self.body.step(&mut state.0, (input, u));
        state.1 = u_next;
        b
    }
}

/// Fixed-iteration loop: apply the register update `K` times per input and
/// emit the last output.
pub struct FixedIter<const K: usize, M> {
    pub body: M,
}

/// Constructor for [`FixedIter`]. `K` must be at least 1.
pub fn fixed_iter<const K: usize, M>(body: M) -> (f: FixedIter<K, M>)
    requires
        K >= 1,
    ensures
        f == (FixedIter::<K, M> { body }),
{
    FixedIter { body }
}

/// State and register after `k` rounds of the body on one input.
pub open spec fn rounds<M, A, B, U>(body: M, s: M::State, u: U, a: A, k: nat) -> (M::State, U) where
    M: Molecule<Input = (A, U), Output = (B, U)>,

    decreases k,
{
    if k == 0 {
        (s, u)
    } else {
        let (s1, u1) = rounds::<M, A, B, U>(body, s, u, a, (k - 1) as nat);
        let ((b, u2), s2) = body.run(s1, (a, u1));
        (s2, u2)
    }
}

impl<const K: usize, M, A, B, U> Molecule for FixedIter<K, M> where
    M: Molecule<Input = (A, U), Output = (B, U)>,
    A: Copy,
    U: Copy + 'static,
 {
    type State = (M::State, U);

    type Input = A;

    type Output = B;

    open spec fn ready(&self, state: (M::State, U), input: A) -> bool {
        &&& K >= 1
        &&& forall|k: nat|
            k < K ==> {
                let (s, u) = #[trigger] rounds::<M, A, B, U>(self.body, state.0, state.1, input, k);
                self.body.ready(s, (input, u))
            }
    }

    open spec fn run(&self, state: (M::State, U), input: A) -> (B, (M::State, U)) {
        let (s, u) = rounds::<M, A, B, U>(self.body, state.0, state.1, input, (K - 1) as nat);
        let ((b, u1), s1) = self.body.run(s, (input, u));
        (b, (s1, u1))
    }

    fn step(&self, state: &mut (M::State, U), input: A) -> (out: B) {
        let ghost s0 = state.0;
        let ghost u0 = state.1;
        let u = state.1;
        proof {
            assert(rounds::<M, A, B, U>(self.body, s0, u0, input, 0) == (s0, u0));
        }
        let (first, u_next) = self.body.step(&mut state.0, (input, u));
        state.1 = u_next;
        let mut b = first;
        let mut k: usize = 1;
        proof {
            assert(rounds::<M, A, B, U>(self.body, s0, u0, input, 1) == (state.0, state.1));
        }
        while k < K
            invariant
                1 <= k <= K,
                (state.0, state.1) == rounds::<M, A, B, U>(self.body, s0, u0, input, k as nat),
                ({
                    let (s, u) = rounds::<M, A, B, U>(self.body, s0, u0, input, (k - 1) as nat);
                    self.body.run(s, (input, u)) == ((b, state.1), state.0)
                }),
                forall|j: nat|
                    j < K ==> {
                        let (s, u) = #[trigger] rounds::<M, A, B, U>(self.body, s0, u0, input, j);
                        self.body.ready(s, (input, u))
                    },
            decreases K - k,
        {
            let u = state.1;
            proof {
                let (s, v) = rounds::<M, A, B, U>(self.body, s0, u0, input, k as nat);
                assert(self.body.ready(s, (input, v)));
            }
            let (next, u_next) = self.body.step(&mut state.0, (input, u));
            state.1 = u_next;
            b = next;
            k += 1;
        }
        b
    }
}

/// Looping a swap is the delay: same output, same register.
pub proof fn law_tr_of_swap_is_delay<W, U>(swap: W, d: Delay<U>, s: W::State, u: U, x: U) where
    W: Molecule<Input = (U, U), Output = (U, U)>,
    U: Copy + 'static,

    requires
        forall|t: W::State, a: U, b: U| #[trigger] swap.run(t, (a, b)) == ((b, a), t),
    ensures
        (Tr { body: swap }).run((s, u), x) == (d.run(u, x).0, (s, d.run(u, x).1)),
{
    assert(swap.run(s, (x, u)) == ((u, x), s));
}

/// The delay is not the identity as soon as the register has two values.
pub proof fn law_delay_is_not_identity<U: Copy + 'static>(d: Delay<U>, u: U, x: U)
    requires
        u != x,
    ensures
        d.run(u, x).0 != x,
{
}

/// Vanishing: a loop over the unit register is the body.
pub proof fn law_vanishing_unit_register<M, A, B>(m: M, s: M::State, x: A) where
    M: Molecule<Input = (A, ()), Output = (B, ())>,

    ensures
        ({
            let (b, (s1, u1)) = (Tr { body: m }).run((s, ()), x);
            m.run(s, (x, ())) == ((b, u1), s1)
        }),
{
}

/// One round per input is the plain loop.
pub proof fn law_fixed_iter_once_is_tr<M, A, B, U>(m: M, s: M::State, u: U, x: A) where
    M: Molecule<Input = (A, U), Output = (B, U)>,
    A: Copy,
    U: Copy + 'static,

    ensures
        (FixedIter::<1, M> { body: m }).run((s, u), x) == (Tr { body: m }).run((s, u), x),
{
    assert(rounds::<M, A, B, U>(m, s, u, x, 0) == (s, u));
}

/// Rounds add up: `j` rounds after `k` rounds are `j + k` rounds.
pub proof fn law_rounds_add<M, A, B, U>(m: M, s: M::State, u: U, x: A, k: nat, j: nat) where
    M: Molecule<Input = (A, U), Output = (B, U)>,

    ensures
        ({
            let (s1, u1) = rounds::<M, A, B, U>(m, s, u, x, k);
            rounds::<M, A, B, U>(m, s1, u1, x, j) == rounds::<M, A, B, U>(m, s, u, x, k + j)
        }),
    decreases j,
{
    if j > 0 {
        law_rounds_add::<M, A, B, U>(m, s, u, x, k, (j - 1) as nat);
    }
}

/// Superposing: a bystander may be moved into the loop. `w` is a body that
/// does what `m` does on its own part and what `n` does beside it.
pub proof fn law_superposing<M, N, W, A, B, U>(
    m: M,
    n: N,
    w: W,
    sm: M::State,
    sn: N::State,
    u: U,
    a: A,
    c: N::Input,
) where
    M: Molecule<Input = (A, U), Output = (B, U)>,
    N: Molecule,
    W: Molecule<
        State = (M::State, N::State),
        Input = ((A, N::Input), U),
        Output = ((B, N::Output), U),
    >,
    U: Copy + 'static,

    requires
        forall|s: M::State, t: N::State, x: A, y: N::Input, v: U| #[trigger]
            w.run((s, t), ((x, y), v)) == {
                let ((b, v1), s1) = m.run(s, (x, v));
                let (d, t1) = n.run(t, y);
                (((b, d), v1), (s1, t1))
            },
    ensures
        ({
            let (o1, ((s1, t1), u1)) = (Tr { body: w }).run(((sm, sn), u), (a, c));
            let (o2, ((s2, u2), t2)) = (crate::compose::Par { m: Tr { body: m }, n }).run(
                ((sm, u), sn),
                (a, c),
            );
            o1 == o2 && s1 == s2 && t1 == t2 && u1 == u2
        }),
{
    assert(w.run((sm, sn), ((a, c), u)) == {
        let ((b, v1), s1) = m.run(sm, (a, u));
        let (d, t1) = n.run(sn, c);
        (((b, d), v1), (s1, t1))
    });
}

/// Sliding: a pure map `g` on the feedback wire may be applied before or
/// after the body. `post` is `m` followed by `g`, `pre` is `g` followed by
/// `m`; started in related registers, both give the same output and stay
/// related.
pub proof fn law_sliding<M, P, Q, A, B, U, V>(
    m: M,
    post: P,
    pre: Q,
    g: spec_fn(V) -> U,
    s: M::State,
    v: V,
    a: A,
) where
    M: Molecule<Input = (A, U), Output = (B, V)>,
    P: Molecule<State = M::State, Input = (A, U), Output = (B, U)>,
    Q: Molecule<State = M::State, Input = (A, V), Output = (B, V)>,
    U: Copy + 'static,
    V: Copy + 'static,

    requires
        forall|t: M::State, x: A, u: U| #[trigger]
            post.run(t, (x, u)) == {
                let ((b, w), t1) = m.run(t, (x, u));
                ((b, g(w)), t1)
            },
        forall|t: M::State, x: A, w: V| #[trigger] pre.run(t, (x, w)) == m.run(t, (x, g(w))),
    ensures
        ({
            let (b1, (s1, u1)) = (Tr { body: post }).run((s, g(v)), a);
            let (b2, (s2, v2)) = (Tr { body: pre }).run((s, v), a);
            b1 == b2 && s1 == s2 && u1 == g(v2)
        }),
{
    assert(post.run(s, (a, g(v))) == {
        let ((b, w), t1) = m.run(s, (a, g(v)));
        ((b, g(w)), t1)
    });
    assert(pre.run(s, (a, v)) == m.run(s, (a, g(v))));
}

} // verus!
