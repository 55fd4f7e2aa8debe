//! The exception policy: a raise ends the session with a fixed result.

use crate::coroutine::{embeds, Coroutine, CoroutineState};
use crate::handler::{drives, steps, OneStep, Step};
use vstd::prelude::*;

verus! {

/// The effect of a computation that cannot go on.
#[derive(Debug, Clone, PartialEq, Eq)]
pub enum Exception {
    /// The computation gives up; the text says why.
    Raise(String),
}

/// What a session ends with when the computation raised an exception.
pub const FAILED: i32 = -1;

/// The line that reports an exception raised with `message`.
pub open spec fn diagnostic(message: Seq<char>) -> Seq<char> {
    "Exception: "@ + message
}

/// Ends a session at the first exception: the report of it is kept, the
/// session's result is `FAILED`, and the computation is not resumed again.
pub struct ExceptionHandler {
    reports: Vec<String>,
}

impl ExceptionHandler {
    /// The reports of the exceptions met so far, oldest first.
    pub closed spec fn reports(&self) -> Seq<Seq<char>> {
        self.reports.deep_view()
    }

    /// A handler that has met no exception.
    pub fn new() -> (handler: Self)
        ensures
            handler.reports() == Seq::<Seq<char>>::empty(),
    {
        let handler = ExceptionHandler { reports: Vec::new() };
        assert(handler.reports.deep_view() =~= Seq::<Seq<char>>::empty());
        handler
    }

    /// The reports of the exceptions met so far, oldest first.
    pub fn diagnostics(&self) -> (lines: &Vec<String>)
        ensures
            lines.deep_view() == self.reports(),
    {
        &self.reports
    }

    /// Keeps the report of an exception raised with `message`.
    fn report(&mut self, message: String)
        ensures
            final(self).reports() == old(self).reports().push(diagnostic(message@)),
    {
        let mut line = String::from_str("Exception: ");
        line.append(message.as_str());
        self.reports.push(line);
        assert(self.reports.deep_view() =~= old(self).reports.deep_view().push(
            diagnostic(message@),
        ));
    }
}

impl<I: From<Option<(i32, i32)>>> Step<Exception, I, i32> for ExceptionHandler {
    /// The computation is always resumed with the input that stands for "no
    /// operands": this policy answers no effect.
    open spec fn feeds(&self, arg: I, input: I) -> bool {
        embeds(None::<(i32, i32)>, input)
    }

    open spec fn interprets(
        &self,
        state: CoroutineState<Exception, i32>,
        out: OneStep<I, i32>,
        after: Self,
    ) -> bool {
        match state {
            CoroutineState::Complete(result) => {
                &&& out == OneStep::<I, i32>::Return(result)
                &&& after.reports() == self.reports()
            },
            CoroutineState::Yielded(Exception::Raise(message)) => {
                &&& out == OneStep::<I, i32>::Return(FAILED)
                &&& after.reports() == self.reports().push(diagnostic(message@))
            },
        }
    }

    fn step<F: Coroutine<I, Exception, i32>>(
        &mut self,
        continuation: &mut F,
        arg: I,
    ) -> (out: OneStep<I, i32>) {
        let input = I::from(None);
        let state = continuation.resume(input);
        match state {
            CoroutineState::Complete(result) => {
                assert(old(continuation).resumes(input, state, *continuation));
                OneStep::Return(result)
            },
            CoroutineState::Yielded(Exception::Raise(message)) => {
                self.report(message);
                assert(old(continuation).resumes(input, state, *continuation));
                OneStep::Return(FAILED)
            },
        }
    }
}

/// A session under the exception policy resumes the computation exactly
/// once. Where the computation completes, the session's result is the
/// computation's; where it raises, the result is `FAILED`, the report is
/// kept, and the computation is not resumed again.
pub proof fn lemma_exception_session<I: From<Option<(i32, i32)>>, F: Coroutine<I, Exception, i32>>(
    handler: ExceptionHandler,
    continuation: F,
    arg: I,
    turns: nat,
    result: i32,
    after: ExceptionHandler,
)
    requires
        drives(handler, continuation, arg, turns, result, after),
    ensures
        turns == 0,
        exists|input: I, state: CoroutineState<Exception, i32>, rest: F|
            {
                &&& embeds(None::<(i32, i32)>, input)
                &&& #[trigger] continuation.resumes(input, state, rest)
                &&& match state {
                    CoroutineState::Complete(value) => {
                        &&& result == value
                        &&& after.reports() == handler.reports()
                    },
                    CoroutineState::Yielded(Exception::Raise(message)) => {
                        &&& result == FAILED
                        &&& after.reports() == handler.reports().push(diagnostic(message@))
                    },
                }
            },
{
    let (out, middle, rest) = choose|out: OneStep<I, i32>, middle: ExceptionHandler, rest: F|
        {
            &&& #[trigger] steps(handler, continuation, arg, out, middle, rest)
            &&& match out {
                OneStep::Return(last) => turns == 0 && last == result && middle == after,
                OneStep::Yield(answer) => turns > 0 && drives(
                    middle,
                    rest,
                    answer,
                    (turns - 1) as nat,
                    result,
                    after,
                ),
            }
        };
    let (input, state) = choose|input: I, state: CoroutineState<Exception, i32>|
        {
            &&& handler.feeds(arg, input)
            &&& #[trigger] continuation.resumes(input, state, rest)
            &&& handler.interprets(state, out, middle)
            &&& out is Yield ==> state is Yielded
        };
    assert(continuation.resumes(input, state, rest));
}

} // verus!
