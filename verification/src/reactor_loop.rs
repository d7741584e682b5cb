//! A reactor loop: drain the ingress ring through a molecule into the
//! egress ring.
use vstd::prelude::*;
use crate::molecule::Molecule;
use crate::ring::SpscRing;

verus! {

/// A per-core reactor: one molecule, one ingress ring, one egress ring.
pub struct Reactor<M: Molecule<Input = u32, Output = u32>, const CAP: usize> {
    pub molecule: M,
    pub ingress: SpscRing<u32, CAP>,
    pub egress: SpscRing<u32, CAP>,
    pub state: M::State,
}

/// The molecule is defined on every input, each from the state that the
/// inputs before it left.
pub open spec fn all_ready<M: Molecule<Input = u32, Output = u32>>(
    m: M,
    state: M::State,
    inputs: Seq<u32>,
) -> bool
    decreases inputs.len(),
{
    inputs.len() == 0 || (m.ready(state, inputs[0]) && all_ready(
        m,
        m.run(state, inputs[0]).1,
        inputs.skip(1),
    ))
}

/// The state after all inputs.
pub open spec fn state_after<M: Molecule<Input = u32, Output = u32>>(
    m: M,
    state: M::State,
    inputs: Seq<u32>,
) -> M::State
    decreases inputs.len(),
{
    if inputs.len() == 0 {
        state
    } else {
        state_after(m, m.run(state, inputs[0]).1, inputs.skip(1))
    }
}

/// The outputs for all inputs, in order.
pub open spec fn outputs<M: Molecule<Input = u32, Output = u32>>(
    m: M,
    state: M::State,
    inputs: Seq<u32>,
) -> Seq<u32>
    decreases inputs.len(),
{
    if inputs.len() == 0 {
        Seq::empty()
    } else {
        seq![m.run(state, inputs[0]).0] + outputs(m, m.run(state, inputs[0]).1, inputs.skip(1))
    }
}

/// The longest front of `s` with at most `n` items.
pub open spec fn front(s: Seq<u32>, n: int) -> Seq<u32> {
    if s.len() <= n {
        s
    } else {
        s.take(n)
    }
}

impl<M: Molecule<Input = u32, Output = u32>, const CAP: usize> Reactor<M, CAP> {
    /// Both rings are consistent.
    pub open spec fn wf(&self) -> bool {
        self.ingress.wf() && self.egress.wf()
    }

    /// A reactor with empty rings and a default state.
    pub fn new(molecule: M) -> (r: Self) where M::State: Default
        requires
            crate::ring::power_of_two(CAP as nat),
        ensures
            r.wf(),
            r.molecule == molecule,
            r.ingress@ == Seq::<u32>::empty(),
            r.egress@ == Seq::<u32>::empty(),
            call_ensures(M::State::default, (), r.state),
    {
        Reactor {
            molecule,
            ingress: SpscRing::new(),
            egress: SpscRing::new(),
            state: M::State::default(),
        }
    }

    /// Drain the ingress ring, stepping the molecule once per item, and
    /// return how many items were processed. Outputs that find the egress
    /// ring full are left out: the caller applies backpressure.
    pub fn poll_once(&mut self) -> (processed: usize)
        requires
            old(self).wf(),
            all_ready(old(self).molecule, old(self).state, old(self).ingress@),
        ensures
            final(self).wf(),
            processed == old(self).ingress@.len(),
            final(self).ingress@ == Seq::<u32>::empty(),
            final(self).molecule == old(self).molecule,
            final(self).state == state_after(
                old(self).molecule,
                old(self).state,
                old(self).ingress@,
            ),
            final(self).egress@ == front(
                old(self).egress@ + outputs(
                    old(self).molecule,
                    old(self).state,
                    old(self).ingress@,
                ),
                CAP - 1,
            ),
    {
        let mut processed: usize = 0;
        let ghost m = self.molecule;
        let ghost inputs = self.ingress@;
        let ghost first = self.state;
        let ghost start = self.egress@;
        let ghost mut done: Seq<u32> = Seq::empty();
        proof {
            self.ingress.law_occupancy_bound();
            self.egress.law_occupancy_bound();
            assert(start + done =~= start);
            assert(done + outputs(m, first, inputs) =~= outputs(m, first, inputs));
        }
        loop
            invariant
                self.wf(),
                self.molecule == m,
                processed + self.ingress@.len() == inputs.len(),
                inputs.len() <= CAP,
                all_ready(m, self.state, self.ingress@),
                state_after(m, self.state, self.ingress@) == state_after(m, first, inputs),
                done + outputs(m, self.state, self.ingress@) == outputs(m, first, inputs),
                start.len() <= CAP - 1,
                self.egress@ == front(start + done, CAP - 1),
            ensures
                self.ingress@.len() == 0,
            decreases self.ingress@.len(),
        {
            let ghost before = self.ingress@;
            let ghost s = self.state;
            let ghost out_before = self.egress@;
            match self.ingress.try_pop() {
                None => {
                    break;
                },
                Some(input) => {
                    let output: u32 = self.molecule.step(&mut self.state, input);
                    let _full = self.egress.try_push(output);
                    processed += 1;
                    proof {
                        assert(self.ingress@ =~= before.skip(1));
                        let grown = done.push(output);
                        assert(done + outputs(m, s, before) =~= grown + outputs(
                            m,
                            self.state,
                            self.ingress@,
                        ));
                        assert(start + grown =~= (start + done).push(output));
                        if out_before.len() == CAP - 1 {
                            assert(self.egress@ =~= front(start + grown, CAP - 1));
                        } else {
                            assert(out_before =~= start + done);
                            assert(self.egress@ =~= front(start + grown, CAP - 1));
                        }
                        done = grown;
                    }
                },
            }
        }
        proof {
            assert(self.ingress@ =~= Seq::<u32>::empty());
            assert(done + outputs(m, self.state, self.ingress@) =~= done);
        }
        processed
    }
}

/// Draining two batches one after the other is draining them together.
pub proof fn law_drains_compose<M: Molecule<Input = u32, Output = u32>>(
    m: M,
    state: M::State,
    a: Seq<u32>,
    b: Seq<u32>,
)
    ensures
        state_after(m, state, a + b) == state_after(m, state_after(m, state, a), b),
        outputs(m, state, a + b) == outputs(m, state, a) + outputs(
            m,
            state_after(m, state, a),
            b,
        ),
    decreases a.len(),
{
    if a.len() == 0 {
        assert(a + b =~= b);
        assert(outputs(m, state, a) + outputs(m, state, b) =~= outputs(m, state, b));
    } else {
        let (out, next) = m.run(state, a[0]);
        assert((a + b).skip(1) =~= a.skip(1) + b);
        law_drains_compose(m, next, a.skip(1), b);
        assert(outputs(m, state, a + b) =~= outputs(m, state, a) + outputs(
            m,
            state_after(m, state, a),
            b,
        ));
    }
}

} // verus!
