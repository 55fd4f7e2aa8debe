use algoroutine::basic::{perform, ready, Perform, Ready};
use algoroutine::coroutine::{bind, fmap, Coroutine, CoroutineState};
use algoroutine::exception::{Exception, ExceptionHandler, FAILED};
use algoroutine::handler::{Consumer, Handler, OneStep, Step, SyncConsumer};
use algoroutine::state::{Log, LogState, State, StateHandler};
use std::cell::Cell;
use std::rc::Rc;

type Operands = Option<(i32, i32)>;

/// Divides: raises where the divisor is 0. Counts how often it is resumed.
struct Div {
    a: i32,
    b: i32,
    resumed: Rc<Cell<usize>>,
}

impl Div {
    fn new(a: i32, b: i32) -> Self {
        Div { a, b, resumed: Rc::new(Cell::new(0)) }
    }
}

impl Coroutine<Operands, Exception, i32> for Div {
    fn resumable(&self) -> bool {
        unreachable!()
    }

    fn resumes(&self, _: Operands, _: CoroutineState<Exception, i32>, _: Self) -> bool {
        unreachable!()
    }

    fn resume(&mut self, _: Operands) -> CoroutineState<Exception, i32> {
        self.resumed.set(self.resumed.get() + 1);
        if self.b == 0 {
            CoroutineState::Yielded(Exception::Raise(String::from("divided by 0")))
        } else {
            CoroutineState::Complete(self.a / self.b)
        }
    }
}

fn lines(lines: &Vec<String>) -> Vec<&str> {
    lines.iter().map(|line| line.as_str()).collect()
}

#[test]
fn division_by_zero_raises() {
    let mut div = Div::new(4, 0);
    assert_eq!(
        div.resume(None),
        CoroutineState::Yielded(Exception::Raise(String::from("divided by 0")))
    );
}

#[test]
fn exception_ends_the_session_with_the_sentinel() {
    let after = Cell::new(false);
    let div = Div::new(4, 0);
    let resumed = Rc::clone(&div.resumed);
    let logic = bind::<Exception, Exception, Exception, Ready<Exception, i32>, _, Operands, _, _, _>(
        div,
        |_quotient: i32| {
            after.set(true);
            ready(0)
        },
    );
    let mut consumer = SyncConsumer::from(ExceptionHandler::new());
    let answer = consumer.consume(logic, None);
    assert_eq!(answer, -1);
    assert_eq!(answer, FAILED);
    assert!(!after.get());
    assert_eq!(resumed.get(), 1);
    let handler = consumer.into_inner();
    assert_eq!(lines(handler.diagnostics()), vec!["Exception: divided by 0"]);
}

#[test]
fn division_without_exception_completes() {
    let logic = bind::<Exception, Exception, Exception, Ready<Exception, i32>, _, Operands, _, _, _>(
        Div::new(12, 4),
        |quotient: i32| ready(quotient + 1),
    );
    let mut consumer = SyncConsumer::from(ExceptionHandler::new());
    assert_eq!(consumer.consume(logic, None), 4);
    assert!(consumer.into_inner().diagnostics().is_empty());
}

#[test]
fn exception_step_returns_at_once() {
    let mut handler = ExceptionHandler::new();
    let mut div = Div::new(1, 0);
    let out: OneStep<Operands, i32> = handler.step(&mut div, Some((1, 0)));
    assert_eq!(out, OneStep::Return(-1));
    assert_eq!(lines(handler.diagnostics()), vec!["Exception: divided by 0"]);
}

#[test]
fn handler_keeps_reports_across_sessions() {
    let mut consumer = SyncConsumer::from(ExceptionHandler::new());
    assert_eq!(consumer.consume(Div::new(1, 0), None), -1);
    assert_eq!(consumer.consume(Div::new(9, 3), None), 3);
    assert_eq!(consumer.consume(Div::new(2, 0), None), -1);
    let handler = consumer.into_inner();
    assert_eq!(
        lines(handler.diagnostics()),
        vec!["Exception: divided by 0", "Exception: divided by 0"]
    );
}

fn set_then_get() -> impl Coroutine<Option<i32>, LogState<i32>, Option<i32>> {
    bind::<LogState<i32>, LogState<i32>, LogState<i32>, Perform<LogState<i32>>, _, Option<i32>, _, _, _>(
        perform(LogState::State(State::Put(Some(9)))),
        |_: Option<i32>| perform(LogState::State(State::Get)),
    )
}

#[test]
fn state_set_then_get_yields_the_value() {
    let mut consumer = SyncConsumer::from(StateHandler::<Option<i32>>::new());
    let answer = consumer.consume(set_then_get(), None);
    assert_eq!(answer, Some(9));
    assert_eq!(consumer.into_inner().state(), Some(9));
}

#[test]
fn state_is_scoped_to_the_handler() {
    let mut first = SyncConsumer::from(StateHandler::<Option<i32>>::new());
    assert_eq!(first.consume(set_then_get(), None), Some(9));

    let mut second = SyncConsumer::from(StateHandler::<Option<i32>>::new());
    let get: Perform<LogState<i32>> = perform(LogState::State(State::Get));
    assert_eq!(second.consume(get, None), None);
    assert_eq!(second.into_inner().state(), None);
}

#[test]
fn state_survives_sessions_of_one_handler() {
    let mut consumer = SyncConsumer::from(StateHandler::<Option<i32>>::new());
    assert_eq!(consumer.consume(set_then_get(), None), Some(9));
    let get: Perform<LogState<i32>> = perform(LogState::State(State::Get));
    assert_eq!(consumer.consume(get, None), Some(9));
}

#[test]
fn log_is_kept_and_answered_with_zero() {
    let hello: Perform<LogState<i32>> = perform(LogState::from(Log(String::from("start"))));
    let logic = bind::<LogState<i32>, LogState<i32>, LogState<i32>, Perform<LogState<i32>>, _, Option<i32>, _, _, _>(
        hello,
        |answer: Option<i32>| perform(LogState::Log(Log(format!("Got {:?}", answer)))),
    );
    let mut consumer = SyncConsumer::from(StateHandler::<Option<i32>>::new());
    let answer = consumer.consume(logic, None);
    assert_eq!(answer, Some(0));
    let handler = consumer.into_inner();
    assert_eq!(lines(handler.log()), vec!["start", "Got Some(0)"]);
    assert_eq!(handler.state(), None);
}

#[test]
fn set_is_answered_with_none() {
    let mut handler = StateHandler::<Option<i32>>::new();
    let mut set: Perform<LogState<i32>> = perform(LogState::from(State::Put(Some(3))));
    let out: OneStep<Option<i32>, Option<i32>> = handler.step(&mut set, Some(1));
    assert_eq!(out, OneStep::Yield(None));
    assert_eq!(handler.state(), Some(3));
    let out: OneStep<Option<i32>, Option<i32>> = handler.step(&mut set, Some(5));
    assert_eq!(out, OneStep::Return(Some(5)));
}

#[test]
fn handle_is_consume() {
    let mut consumer = SyncConsumer::from(StateHandler::<Option<i32>>::new());
    let answer = consumer.handle(None, fmap(set_then_get(), |held: Option<i32>| held.map(|n| n + 1)));
    assert_eq!(answer, Some(10));
}

#[test]
fn consume_of_ready_takes_one_step() {
    let done: Ready<LogState<i32>, &str> = ready("done");
    let mut consumer = SyncConsumer::from(StateHandler::<Option<i32>>::new());
    assert_eq!(consumer.consume(done, None), "done");
}
