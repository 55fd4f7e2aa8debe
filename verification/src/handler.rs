//! The two ways to drive a computation to its result: a `Handler` that owns
//! the whole loop, and a `Step` that interprets one resumption at a time
//! under the loop of a `Consumer`.

use crate::coroutine::{bounded, Coroutine, CoroutineState};
use vstd::prelude::*;

verus! {

/// What interpreting one step of a computation comes to.
#[derive(Debug, Clone, Copy, PartialEq, Eq)]
pub enum OneStep<I, R> {
    /// The session is over with this result.
    Return(R),
    /// The computation goes on; this is its next input.
    Yield(I),
}

/// Interprets the effects of a computation, one resumption at a time.
///
/// A step resumes the computation exactly once and interprets what it handed
/// back. Where it answers `Yield`, the computation has suspended and can be
/// resumed again with the input it names; where it answers `Return`, the
/// session is over, whether the computation completed or is abandoned.
pub trait Step<E, I, R>: Sized {
    /// The inputs that a step called with `arg` may resume the computation
    /// with.
    spec fn feeds(&self, arg: I, input: I) -> bool;

    /// The policy: how what the computation handed back is answered, and what
    /// becomes of the interpreter.
    spec fn interprets(&self, state: CoroutineState<E, R>, out: OneStep<I, R>, after: Self) -> bool;

    /// Takes the computation one resumption further.
    fn step<F: Coroutine<I, E, R>>(
        &mut self,
        continuation: &mut F,
        arg: I,
    ) -> (out: OneStep<I, R>)
        requires
            old(continuation).resumable(),
        ensures
            exists|input: I, state: CoroutineState<E, R>|
                {
                    &&& old(self).feeds(arg, input)
                    &&& #[trigger] old(continuation).resumes(input, state, *final(continuation))
                    &&& old(self).interprets(state, out, *final(self))
                    &&& out is Yield ==> state is Yielded
                },
            out is Yield ==> final(continuation).resumable(),
    ;
}

/// One step of `step` on `continuation` with `arg`: the computation is
/// resumed once and left as `rest`, the answer is `out`, and the interpreter
/// is left as `after`. The computation is only asked to go on where it has
/// suspended.
pub open spec fn steps<E, I, R, S: Step<E, I, R>, F: Coroutine<I, E, R>>(
    step: S,
    continuation: F,
    arg: I,
    out: OneStep<I, R>,
    after: S,
    rest: F,
) -> bool {
    exists|input: I, state: CoroutineState<E, R>|
        {
            &&& step.feeds(arg, input)
            &&& #[trigger] continuation.resumes(input, state, rest)
            &&& step.interprets(state, out, after)
            &&& out is Yield ==> state is Yielded
        }
}

/// A session of `turns` steps that answer `Yield`, followed by one that
/// answers `Return(result)`: `step` is the interpreter at the start, `after`
/// the interpreter at the end.
pub open spec fn drives<E, I, R, S: Step<E, I, R>, F: Coroutine<I, E, R>>(
    step: S,
    continuation: F,
    arg: I,
    turns: nat,
    result: R,
    after: S,
) -> bool
    decreases turns,
{
    exists|out: OneStep<I, R>, middle: S, rest: F|
        {
            &&& #[trigger] steps(step, continuation, arg, out, middle, rest)
            &&& match out {
                OneStep::Return(last) => turns == 0 && last == result && middle == after,
                OneStep::Yield(answer) => turns > 0 && drives(
                    middle,
                    rest,
                    answer,
                    (turns - 1) as nat,
                    result,
                    after,
                ),
            }
        }
}

/// Drives a whole computation to its result.
pub trait Consumer<E, I, R>: Sized {
    /// Drives `continuation`, first resumed on behalf of `arg`, until the
    /// session is over. The computation must be one that cannot suspend
    /// without end.
    fn consume<F: Coroutine<I, E, R>>(&mut self, continuation: F, arg: I) -> (result: R)
        requires
            continuation.resumable(),
            exists|n: nat| bounded(continuation, n),
    ;
}

/// Owns the whole loop of a session: resumes the computation, and for every
/// effect decides the next input or ends the session early.
pub trait Handler<E, I, R>: Sized {
    /// Drives `computation`, first resumed on behalf of `initial`, until it
    /// completes or is abandoned. The computation must be one that cannot
    /// suspend without end.
    fn handle<F: Coroutine<I, E, R>>(&mut self, initial: I, computation: F) -> (result: R)
        requires
            computation.resumable(),
            exists|n: nat| bounded(computation, n),
    ;
}

/// The loop that any `Step` needs to drive a computation: step after step,
/// up to the first `Return`.
pub struct SyncConsumer<S> {
    step: S,
}

impl<S> SyncConsumer<S> {
    /// The interpreter that this consumer steps with.
    pub closed spec fn policy(&self) -> S {
        self.step
    }

    /// Builds the consumer that steps with `step`.
    pub fn from(step: S) -> (consumer: Self)
        ensures
            consumer.policy() == step,
    {
        Self { step }
    }

    /// Gives the interpreter back, as the sessions so far have left it.
    pub fn into_inner(self) -> (step: S)
        ensures
            step == self.policy(),
    {
        self.step
    }
}

impl<E, I, R, S: Step<E, I, R>> Consumer<E, I, R> for SyncConsumer<S> {
    fn consume<F: Coroutine<I, E, R>>(&mut self, continuation: F, arg: I) -> (result: R)
        ensures
            exists|turns: nat| #[trigger]
                drives(old(self).policy(), continuation, arg, turns, result, final(self).policy()),
    {
        let mut f = continuation;
        let mut input = arg;
        let ghost mut fuel: nat = choose|n: nat| bounded(continuation, n);
        let ghost mut done: nat = 0;
        loop
            invariant
                f.resumable(),
                bounded(f, fuel),
                forall|turns: nat, result: R, after: S| #[trigger]
                    drives(self.step, f, input, turns, result, after) ==> drives(
                        old(self).step,
                        continuation,
                        arg,
                        turns + done,
                        result,
                        after,
                    ),
            decreases fuel,
        {
            let ghost before = self.step;
            let ghost start = f;
            let ghost given = input;
            let out = self.step.step(&mut f, input);
            proof {
                let (fed, state) = choose|fed: I, state: CoroutineState<E, R>|
                    {
                        &&& before.feeds(given, fed)
                        &&& #[trigger] start.resumes(fed, state, f)
                        &&& before.interprets(state, out, self.step)
                        &&& out is Yield ==> state is Yielded
                    };
                assert(steps(before, start, given, out, self.step, f));
                if out is Yield {
                    assert(start.resumes(fed, CoroutineState::Yielded(state->Yielded_0), f));
                }
            }
            match out {
                OneStep::Return(last) => {
                    assert(drives(before, start, given, 0, last, self.step));
                    assert(drives(
                        old(self).policy(),
                        continuation,
                        arg,
                        done,
                        last,
                        self.policy(),
                    ));
                    return last;
                },
                OneStep::Yield(answer) => {
                    proof {
                        assert forall|turns: nat, result: R, after: S| #[trigger]
                            drives(self.step, f, answer, turns, result, after) implies drives(
                            old(self).step,
                            continuation,
                            arg,
                            turns + done + 1,
                            result,
                            after,
                        ) by {
                            assert(drives(before, start, given, turns + 1, result, after));
                        }
                        fuel = (fuel - 1) as nat;
                        done = done + 1;
                    }
                    input = answer;
                },
            }
        }
    }
}

impl<E, I, R, S: Step<E, I, R>> Handler<E, I, R> for SyncConsumer<S> {
    fn handle<F: Coroutine<I, E, R>>(&mut self, initial: I, computation: F) -> (result: R)
        ensures
            exists|turns: nat| #[trigger]
                drives(old(self).policy(), computation, initial, turns, result, final(self).policy()),
    {
        self.consume(computation, initial)
    }
}

} // verus!
