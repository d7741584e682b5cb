//! Composition: [`then`] (sequential), [`par`] (tensor), [`kleisli_then`]
//! (sequential over one shared context), and arrays of molecules.
use vstd::prelude::*;
use crate::molecule::Molecule;

verus! {

/// Sequential composition: run `m` on the input, feed its output to `n`.
pub fn then<M, N>(m: M, n: N) -> (c: Compose<M, N>) where
    M: Molecule,
    N: Molecule<Input = M::Output>,

    ensures
        c == (Compose { m, n }),
{
    Compose { m, n }
}

/// Tensor: run `m` and `n` side by side on paired inputs.
pub fn par<M, N>(m: M, n: N) -> (c: Par<M, N>) where M: Molecule, N: Molecule
    ensures
        c == (Par { m, n }),
{
    Par { m, n }
}

/// Sequential composition over one context: both machines read and write
/// the same state, `m` first.
pub fn kleisli_then<M, N>(m: M, n: N) -> (c: KleisliCompose<M, N>) where
    M: Molecule,
    N: Molecule<State = M::State, Input = M::Output>,

    ensures
        c == (KleisliCompose { m, n }),
{
    KleisliCompose { m, n }
}

/// The sequential composite: `m` first, then `n`, on product states.
pub struct Compose<M, N> {
    pub m: M,
    pub n: N,
}

impl<M, N> Molecule for Compose<M, N> where M: Molecule, N: Molecule<Input = M::Output> {
    type State = (M::State, N::State);

    type Input = M::Input;

    type Output = N::Output;

    open spec fn ready(&self, state: (M::State, N::State), input: M::Input) -> bool {
        &&& self.m.ready(state.0, input)
        &&& self.n.ready(state.1, self.m.run(state.0, input).0)
    }

    open spec fn run(&self, state: (M::State, N::State), input: M::Input) -> (
        N::Output,
        (M::State, N::State),
    ) {
        let (b, s0) = self.m.run(state.0, input);
        let (c, s1) = self.n.run(state.1, b);
        (c, (s0, s1))
    }

    fn step(&self, state: &mut (M::State, N::State), input: M::Input) -> (out: N::Output) {
        let b = self.m.step(&mut state.0, input);
        self.n.step(&mut state.1, b)
    }
}

/// The tensor of two molecules.
pub struct Par<M, N> {
    pub m: M,
    pub n: N,
}

impl<M, N> Molecule for Par<M, N> where M: Molecule, N: Molecule {
    type State = (M::State, N::State);

    type Input = (M::Input, N::Input);

    type Output = (M::Output, N::Output);

    open spec fn ready(&self, state: (M::State, N::State), input: (M::Input, N::Input)) -> bool {
        self.m.ready(state.0, input.0) && self.n.ready(state.1, input.1)
    }

    open spec fn run(&self, state: (M::State, N::State), input: (M::Input, N::Input)) -> (
        (M::Output, N::Output),
        (M::State, N::State),
    ) {
        let (b0, s0) = self.m.run(state.0, input.0);
        let (b1, s1) = self.n.run(state.1, input.1);
        ((b0, b1), (s0, s1))
    }

    fn step(&self, state: &mut (M::State, N::State), input: (M::Input, N::Input)) -> (out: (
        M::Output,
        N::Output,
    )) {
        let b0 = self.m.step(&mut state.0, input.0);
        let b1 = self.n.step(&mut state.1, input.1);
        (b0, b1)
    }
}

/// The sequential composite over one shared context.
pub struct KleisliCompose<M, N> {
    pub m: M,
    pub n: N,
}

impl<M, N> Molecule for KleisliCompose<M, N> where
    M: Molecule,
    N: Molecule<State = M::State, Input = M::Output>,
 {
    type State = M::State;

    type Input = M::Input;

    type Output = N::Output;

    open spec fn ready(&self, state: M::State, input: M::Input) -> bool {
        let (b, s) = self.m.run(state, input);
        self.m.ready(state, input) && self.n.ready(s, b)
    }

    open spec fn run(&self, state: M::State, input: M::Input) -> (N::Output, M::State) {
        let (b, s) = self.m.run(state, input);
        self.n.run(s, b)
    }

    fn step(&self, state: &mut M::State, input: M::Input) -> (out: N::Output) {
        let b = self.m.step(state, input);
        self.n.step(state, b)
    }
}

/// The array with the elements of `s`.
pub open spec fn array_of<T, const N: usize>(s: Seq<T>) -> [T; N] {
    choose|a: [T; N]| a@ == s
}

/// Every sequence of the right length is the content of an array.
pub proof fn lemma_array_of<T, const N: usize>(s: Seq<T>)
    requires
        s.len() == N,
    ensures
        array_of::<T, N>(s)@ == s,
{
    let base: [T; N] = arbitrary();
    let a = lemma_array_prefix::<T, N>(s, base, N as nat);
    assert(a@ =~= s);
}

proof fn lemma_array_prefix<T, const N: usize>(s: Seq<T>, base: [T; N], k: nat) -> (a: [T; N])
    requires
        s.len() == N,
        k <= N,
    ensures
        forall|i: int| 0 <= i < k ==> a@[i] == s[i],
    decreases k,
{
    if k == 0 {
        base
    } else {
        let prev = lemma_array_prefix::<T, N>(s, base, (k - 1) as nat);
        let a = vstd::array::spec_array_update(prev, k - 1, s[k - 1]);
        assert(a@ =~= prev@.update(k - 1, s[k - 1]));
        a
    }
}

/// `<[T; N]>::try_from` on a vector of exactly `N` elements: the same
/// elements, in the same order.
#[verifier::external_body]
fn into_array<T, const N: usize>(v: Vec<T>) -> (a: [T; N])
    requires
        v@.len() == N,
    ensures
        a@ == v@,
{
    <[T; N]>::try_from(v).ok().unwrap()
}

/// An array of molecules is a molecule: the n-fold tensor, element by
/// element.
impl<M, const N: usize> Molecule for [M; N] where M: Molecule, M::Input: Copy, M::Output: Copy {
    type State = [M::State; N];

    type Input = [M::Input; N];

    type Output = [M::Output; N];

    open spec fn ready(&self, state: [M::State; N], input: [M::Input; N]) -> bool {
        forall|i: int| 0 <= i < N ==> (#[trigger] self@[i]).ready(state@[i], input@[i])
    }

    open spec fn run(&self, state: [M::State; N], input: [M::Input; N]) -> (
        [M::Output; N],
        [M::State; N],
    ) {
        (
            array_of::<M::Output, N>(Seq::new(N as nat, |i: int| self@[i].run(state@[i], input@[i]).0)),
            array_of::<M::State, N>(Seq::new(N as nat, |i: int| self@[i].run(state@[i], input@[i]).1)),
        )
    }

    fn step(&self, state: &mut [M::State; N], input: [M::Input; N]) -> (out: [M::Output; N]) {
        let ghost s0 = state@;
        let ghost outs = Seq::new(N as nat, |i: int| self@[i].run(s0[i], input@[i]).0);
        let ghost nexts = Seq::new(N as nat, |i: int| self@[i].run(s0[i], input@[i]).1);
        let mut acc: Vec<M::Output> = Vec::new();
        let mut i: usize = 0;
        while i < N
            invariant
                i <= N,
                s0.len() == N,
                state@.len() == N,
                outs == Seq::new(N as nat, |i: int| self@[i].run(s0[i], input@[i]).0),
                nexts == Seq::new(N as nat, |i: int| self@[i].run(s0[i], input@[i]).1),
                acc@ == outs.take(i as int),
                forall|j: int| 0 <= j < i ==> state@[j] == nexts[j],
                forall|j: int| i <= j < N ==> state@[j] == s0[j],
                forall|j: int| 0 <= j < N ==> (#[trigger] self@[j]).ready(s0[j], input@[j]),
            decreases N - i,
        {
            assert(self@[i as int].ready(s0[i as int], input@[i as int]));
            let b = self[i].step(&mut state[i], input[i]);
            acc.push(b);
            i += 1;
            assert(acc@ =~= outs.take(i as int));
        }
        let out = into_array::<M::Output, N>(acc);
        proof {
            assert(outs.take(N as int) =~= outs);
            assert(state@ =~= nexts);
            lemma_array_of::<M::Output, N>(outs);
            lemma_array_of::<M::State, N>(nexts);
            assert(out =~= array_of::<M::Output, N>(outs));
            assert(*state =~= array_of::<M::State, N>(nexts));
        }
        out
    }
}

/// Sequential composition is associative up to regrouping the state.
pub proof fn law_then_is_associative<A, B, C>(
    a: A,
    b: B,
    c: C,
    sa: A::State,
    sb: B::State,
    sc: C::State,
    x: A::Input,
) where A: Molecule, B: Molecule<Input = A::Output>, C: Molecule<Input = B::Output>
    ensures
        ({
            let left = Compose { m: Compose { m: a, n: b }, n: c };
            let right = Compose { m: a, n: Compose { m: b, n: c } };
            let (y1, ((l0, l1), l2)) = left.run(((sa, sb), sc), x);
            let (y2, (r0, (r1, r2))) = right.run((sa, (sb, sc)), x);
            &&& left.ready(((sa, sb), sc), x) == right.ready((sa, (sb, sc)), x)
            &&& y1 == y2
            &&& l0 == r0 && l1 == r1 && l2 == r2
        }),
{
}

/// Interchange: tensoring two pipelines is a pipeline of tensors.
pub proof fn law_interchange<F, G, H, K>(
    f: F,
    g: G,
    h: H,
    k: K,
    sf: F::State,
    sg: G::State,
    sh: H::State,
    sk: K::State,
    x: F::Input,
    y: G::Input,
) where F: Molecule, G: Molecule, H: Molecule<Input = F::Output>, K: Molecule<Input = G::Output>
    ensures
        ({
            let lhs = Compose { m: Par { m: f, n: g }, n: Par { m: h, n: k } };
            let rhs = Par { m: Compose { m: f, n: h }, n: Compose { m: g, n: k } };
            let (o1, ((f1, g1), (h1, k1))) = lhs.run(((sf, sg), (sh, sk)), (x, y));
            let (o2, ((f2, h2), (g2, k2))) = rhs.run(((sf, sh), (sg, sk)), (x, y));
            &&& lhs.ready(((sf, sg), (sh, sk)), (x, y)) == rhs.ready(
                ((sf, sh), (sg, sk)),
                (x, y),
            )
            &&& o1 == o2
            &&& f1 == f2 && g1 == g2 && h1 == h2 && k1 == k2
        }),
{
}

/// The tensor is symmetric up to swapping the pairs.
pub proof fn law_par_is_symmetric<F, G>(f: F, g: G, sf: F::State, sg: G::State, x: F::Input, y: G::Input) where
    F: Molecule,
    G: Molecule,

    ensures
        ({
            let fg = Par { m: f, n: g };
            let gf = Par { m: g, n: f };
            let ((a1, b1), (f1, g1)) = fg.run((sf, sg), (x, y));
            let ((b2, a2), (g2, f2)) = gf.run((sg, sf), (y, x));
            &&& fg.ready((sf, sg), (x, y)) == gf.ready((sg, sf), (y, x))
            &&& a1 == a2 && b1 == b2 && f1 == f2 && g1 == g2
        }),
{
}

/// Composition over one context is associative.
pub proof fn law_kleisli_is_associative<A, B, C>(a: A, b: B, c: C, s: A::State, x: A::Input) where
    A: Molecule,
    B: Molecule<State = A::State, Input = A::Output>,
    C: Molecule<State = A::State, Input = B::Output>,

    ensures
        ({
            let left = KleisliCompose { m: KleisliCompose { m: a, n: b }, n: c };
            let right = KleisliCompose { m: a, n: KleisliCompose { m: b, n: c } };
            left.run(s, x) == right.run(s, x)
        }),
{
}

/// Each element of an array steps on its own state and input alone.
pub proof fn law_array_is_elementwise<M, const N: usize>(
    ms: [M; N],
    s: [M::State; N],
    a: [M::Input; N],
    i: int,
) where M: Molecule, M::Input: Copy, M::Output: Copy
    requires
        0 <= i < N,
    ensures
        ms.run(s, a).0@[i] == ms@[i].run(s@[i], a@[i]).0,
        ms.run(s, a).1@[i] == ms@[i].run(s@[i], a@[i]).1,
{
    let outs = Seq::new(N as nat, |i: int| ms@[i].run(s@[i], a@[i]).0);
    let nexts = Seq::new(N as nat, |i: int| ms@[i].run(s@[i], a@[i]).1);
    lemma_array_of::<M::Output, N>(outs);
    lemma_array_of::<M::State, N>(nexts);
}

} // verus!
