//! The two computations that everything else is built from: one that
//! completes at once, and one that raises a single effect.

use crate::coroutine::{Coroutine, CoroutineState};
use std::marker::PhantomData;
use vstd::prelude::*;

verus! {

/// A computation that never suspends: the first resumption completes it with
/// the value it was made with.
pub struct Ready<E, R> {
    /// The result, until it has been handed out.
    pub value: Option<R>,
    /// The effect set of the computation; no effect of it is ever raised.
    pub effect: PhantomData<E>,
}

impl<I, E, R> Coroutine<I, E, R> for Ready<E, R> {
    open spec fn resumable(&self) -> bool {
        self.value is Some
    }

    open spec fn resumes(&self, input: I, state: CoroutineState<E, R>, next: Self) -> bool {
        &&& self.value is Some
        &&& state == CoroutineState::<E, R>::Complete(self.value->0)
        &&& next.value is None
    }

    fn resume(&mut self, input: I) -> (state: CoroutineState<E, R>) {
        CoroutineState::Complete(self.value.take().unwrap())
    }
}

/// The computation that completes at once with `value`.
pub fn ready<E, R>(value: R) -> (r: Ready<E, R>)
    ensures
        r.value == Some(value),
{
    Ready { value: Some(value), effect: PhantomData }
}

/// A computation that raises one effect and completes with the answer to it.
pub struct Perform<E> {
    /// The effect, until it has been raised.
    pub effect: Option<E>,
    /// Whether the answer has come in.
    pub answered: bool,
}

impl<I, E> Coroutine<I, E, I> for Perform<E> {
    open spec fn resumable(&self) -> bool {
        !self.answered
    }

    open spec fn resumes(&self, input: I, state: CoroutineState<E, I>, next: Self) -> bool {
        match self.effect {
            Some(effect) => {
                &&& state == CoroutineState::<E, I>::Yielded(effect)
                &&& next.effect is None
                &&& next.answered == self.answered
            },
            None => {
                &&& !self.answered
                &&& state == CoroutineState::<E, I>::Complete(input)
                &&& next.effect is None
                &&& next.answered
            },
        }
    }

    fn resume(&mut self, input: I) -> (state: CoroutineState<E, I>) {
        match self.effect.take() {
            Some(effect) => CoroutineState::Yielded(effect),
            None => {
                self.answered = true;
                CoroutineState::Complete(input)
            },
        }
    }
}

/// The computation that suspends once with `effect`, whatever it is first
/// resumed with, and completes with the input of its second resumption.
pub fn perform<E>(effect: E) -> (r: Perform<E>)
    ensures
        r.effect == Some(effect),
        !r.answered,
{
    Perform { effect: Some(effect), answered: false }
}

} // verus!
