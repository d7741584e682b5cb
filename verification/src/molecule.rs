//! Molecules: stateful transformations.
//!
//! A molecule is a Mealy machine: `step` maps a state and an input to an
//! output and a new state. The state is mutated in place; [`Molecule::run`]
//! is the same function as a value.
use vstd::prelude::*;

verus! {

/// A stateful transformation from `Input` to `Output`.
pub trait Molecule: Sized {
    type State: 'static;

    type Input;

    type Output;

    /// The states and inputs on which `step` is defined.
    open spec fn ready(&self, state: Self::State, input: Self::Input) -> bool {
        true
    }

    /// The Mealy function: the output and the next state. Every verified
    /// implementation gives it: without it `step` cannot be proved. The
    /// default serves implementations in unverified code only.
    open spec fn run(&self, state: Self::State, input: Self::Input) -> (Self::Output, Self::State) {
        vstd::pervasive::arbitrary()
    }

    /// One step, with the state transition in place.
    fn step(&self, state: &mut Self::State, input: Self::Input) -> (out: Self::Output)
        requires
            self.ready(*old(state), input),
        ensures
            (out, *final(state)) == self.run(*old(state), input),
    ;
}

/// Molecules without state: plain functions.
pub trait PureMolecule: Molecule<State = ()> {

}

impl<T: Molecule<State = ()>> PureMolecule for T {

}

/// Molecules whose state is exactly a runtime context `Ctx`.
pub trait EffectfulMolecule<Ctx>: Molecule<State = Ctx> {

}

impl<Ctx, T: Molecule<State = Ctx>> EffectfulMolecule<Ctx> for T {

}

/// Molecules whose state pairs a private part with a context, such as the
/// product composition of two effectful machines.
pub trait HybridMolecule<Spure, Ctx>: Molecule<State = (Spure, Ctx)> {

}

impl<Spure, Ctx, T: Molecule<State = (Spure, Ctx)>> HybridMolecule<Spure, Ctx> for T {

}

/// A carrier of a pure function: any closure.
pub struct PureFn<F>(pub F);

impl<F> PureFn<F> {
    /// Call the carried function.
    pub fn call<A, B>(&self, input: A) -> (out: B) where F: Fn(A) -> B
        requires
            call_requires(self.0, (input,)),
        ensures
            call_ensures(self.0, (input,), out),
    {
        (self.0)(input)
    }
}

} // verus!
