//! The log and state policy: log lines are kept, and one slot of state is
//! read and written.

use crate::coroutine::{embeds, Coroutine, CoroutineState};
use crate::handler::{OneStep, Step};
use std::marker::PhantomData;
use vstd::prelude::*;

verus! {

/// The effect of writing a line to the log.
#[derive(Debug, Clone, PartialEq, Eq)]
pub struct Log(pub String);

/// The effects on the one slot of state that a session has.
#[derive(Debug, Clone, PartialEq, Eq)]
pub enum State<S> {
    /// Asks for what the slot holds.
    Get,
    /// Overwrites what the slot holds.
    Put(Option<S>),
}

/// The effects of a computation that logs and keeps state.
#[derive(Debug, Clone, PartialEq, Eq)]
pub enum LogState<S> {
    Log(Log),
    State(State<S>),
}

impl<S> From<Log> for LogState<S> {
    fn from(value: Log) -> (effect: Self) {
        LogState::Log(value)
    }
}

impl<S> vstd::std_specs::convert::FromSpecImpl<Log> for LogState<S> {
    open spec fn obeys_from_spec() -> bool {
        true
    }

    open spec fn from_spec(value: Log) -> Self {
        LogState::Log(value)
    }
}

impl<S> From<State<S>> for LogState<S> {
    fn from(value: State<S>) -> (effect: Self) {
        LogState::State(value)
    }
}

impl<S> vstd::std_specs::convert::FromSpecImpl<State<S>> for LogState<S> {
    open spec fn obeys_from_spec() -> bool {
        true
    }

    open spec fn from_spec(value: State<S>) -> Self {
        LogState::State(value)
    }
}

/// Answers the log and state effects of one session. The slot of state
/// belongs to the handler: it starts empty, and no other handler sees it.
pub struct StateHandler<I> {
    state: Option<i32>,
    lines: Vec<String>,
    input: PhantomData<I>,
}

impl<I> StateHandler<I> {
    /// What the slot holds.
    pub closed spec fn slot(&self) -> Option<i32> {
        self.state
    }

    /// The lines logged so far, oldest first.
    pub closed spec fn logged(&self) -> Seq<Seq<char>> {
        self.lines.deep_view()
    }

    /// A handler with an empty slot and an empty log.
    pub fn new() -> (handler: Self)
        ensures
            handler.slot() is None,
            handler.logged() == Seq::<Seq<char>>::empty(),
    {
        let handler = StateHandler { state: None, lines: Vec::new(), input: PhantomData };
        assert(handler.lines.deep_view() =~= Seq::<Seq<char>>::empty());
        handler
    }

    /// What the slot holds.
    pub fn state(&self) -> (held: Option<i32>)
        ensures
            held == self.slot(),
    {
        self.state
    }

    /// The lines logged so far, oldest first.
    pub fn log(&self) -> (lines: &Vec<String>)
        ensures
            lines.deep_view() == self.logged(),
    {
        &self.lines
    }

    /// Appends `line` to the log.
    fn write(&mut self, line: String)
        ensures
            final(self).logged() == old(self).logged().push(line@),
            final(self).slot() == old(self).slot(),
    {
        self.lines.push(line);
        assert(self.lines.deep_view() =~= old(self).lines.deep_view().push(line@));
    }
}

impl<I: From<Option<i32>>, R> Step<LogState<i32>, I, R> for StateHandler<I> {
    /// The computation is resumed with the answer to its last effect.
    open spec fn feeds(&self, arg: I, input: I) -> bool {
        input == arg
    }

    /// A log line is kept and answered with `Some(0)`; `Get` is answered with
    /// what the slot holds; `Put` overwrites the slot and is answered with
    /// `None`. The session goes on after each of them, and ends when the
    /// computation completes.
    open spec fn interprets(
        &self,
        state: CoroutineState<LogState<i32>, R>,
        out: OneStep<I, R>,
        after: Self,
    ) -> bool {
        match state {
            CoroutineState::Complete(result) => {
                &&& out == OneStep::<I, R>::Return(result)
                &&& after.slot() == self.slot()
                &&& after.logged() == self.logged()
            },
            CoroutineState::Yielded(LogState::Log(Log(line))) => {
                &&& out matches OneStep::Yield(answer)
                &&& embeds(Some(0i32), answer)
                &&& after.slot() == self.slot()
                &&& after.logged() == self.logged().push(line@)
            },
            CoroutineState::Yielded(LogState::State(State::Get)) => {
                &&& out matches OneStep::Yield(answer)
                &&& embeds(self.slot(), answer)
                &&& after.slot() == self.slot()
                &&& after.logged() == self.logged()
            },
            CoroutineState::Yielded(LogState::State(State::Put(held))) => {
                &&& out matches OneStep::Yield(answer)
                &&& embeds(None::<i32>, answer)
                &&& after.slot() == held
                &&& after.logged() == self.logged()
            },
        }
    }

    fn step<F: Coroutine<I, LogState<i32>, R>>(
        &mut self,
        continuation: &mut F,
        arg: I,
    ) -> (out: OneStep<I, R>) {
        let state = continuation.resume(arg);
        assert(old(continuation).resumes(arg, state, *continuation));
        match state {
            CoroutineState::Complete(result) => OneStep::Return(result),
            CoroutineState::Yielded(LogState::Log(Log(line))) => {
                self.write(line);
                OneStep::Yield(I::from(Some(0)))
            },
            CoroutineState::Yielded(LogState::State(State::Get)) => {
                OneStep::Yield(I::from(self.state))
            },
            CoroutineState::Yielded(LogState::State(State::Put(held))) => {
                self.state = held;
                OneStep::Yield(I::from(None))
            },
        }
    }
}

/// What a handler's slot is set to, the same handler answers the next `Get`
/// with: a step that interprets `Put(held)` followed by a step that
/// interprets `Get` answers with `held`.
pub proof fn lemma_put_then_get<I: From<Option<i32>>, R>(
    handler: StateHandler<I>,
    held: Option<i32>,
    first: OneStep<I, R>,
    between: StateHandler<I>,
    second: OneStep<I, R>,
    after: StateHandler<I>,
)
    requires
        handler.interprets(
            CoroutineState::<LogState<i32>, R>::Yielded(LogState::State(State::Put(held))),
            first,
            between,
        ),
        between.interprets(
            CoroutineState::<LogState<i32>, R>::Yielded(LogState::State(State::Get)),
            second,
            after,
        ),
    ensures
        second matches OneStep::Yield(answer) && embeds(held, answer),
        after.slot() == held,
{
}

} // verus!
