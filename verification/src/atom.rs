//! Atoms: the irreducible transformations.
//!
//! A pure atom is a total function with no state; an effectful atom acts
//! on a preallocated runtime context. Atoms carry no hidden state.
use vstd::prelude::*;

verus! {

/// An atom's interface: an input type and an output type.
pub trait Atom {
    type Input;

    type Output;
}

/// A pure atom: `apply` is a function of its input alone.
pub trait PureAtom: Atom {
    /// The inputs `apply` accepts.
    open spec fn apply_requires(&self, input: Self::Input) -> bool {
        true
    }

    /// The function that `apply` computes. Every verified implementation
    /// gives it: without it `apply` cannot be proved. The default serves
    /// implementations in unverified code only.
    open spec fn applied(&self, input: Self::Input) -> Self::Output {
        vstd::pervasive::arbitrary()
    }

    fn apply(&self, input: Self::Input) -> (out: Self::Output)
        requires
            self.apply_requires(input),
        ensures
            out == self.applied(input),
    ;
}

/// An effectful atom: `apply` reads and writes a preallocated context.
pub trait EffectfulAtom<Ctx>: Atom {
    /// The contexts and inputs `apply` accepts.
    open spec fn apply_requires(&self, ctx: Ctx, input: Self::Input) -> bool {
        true
    }

    /// The output and the context after it. Every verified implementation
    /// gives it: without it `apply` cannot be proved. The default serves
    /// implementations in unverified code only.
    open spec fn applied(&self, ctx: Ctx, input: Self::Input) -> (Self::Output, Ctx) {
        vstd::pervasive::arbitrary()
    }

    fn apply(&self, ctx: &mut Ctx, input: Self::Input) -> (out: Self::Output)
        requires
            self.apply_requires(*old(ctx), input),
        ensures
            (out, *final(ctx)) == self.applied(*old(ctx), input),
    ;
}

} // verus!
