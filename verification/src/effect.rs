//! Traits that describe effects and the inputs that answer them.

use vstd::prelude::*;

verus! {

/// Inputs that have a value to start with: what a driver hands a computation
/// on the very first resumption, before any effect has been answered.
pub trait Param: Sized {
    /// The input that stands for "no answer yet".
    fn initial() -> Self;
}

/// An effect set that can be looked at as one effect `A` or the rest `B`.
pub trait View<A, B>: Sized {
    /// Splits the effect: `Ok` if it is the one looked for, `Err` with what
    /// is left otherwise.
    fn view(self) -> Result<A, B>;
}

/// An effect, together with the type of the answer it expects.
pub trait Effect {
    /// What the driver answers this effect with.
    type Return;
}

} // verus!
