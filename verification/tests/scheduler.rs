use algoroutine::coroutine::{Coroutine, CoroutineState};
use algoroutine::scheduler::{Lifecycle, Scheduler, Task, TimerEffect, Timeout, Turn};
use std::cell::Cell;
use std::rc::Rc;
use std::time::Duration;

/// Asks for one timer after the other, then completes. Counts how often it
/// is resumed.
struct Sleeper {
    delays: Vec<u64>,
    next: usize,
    resumed: Rc<Cell<usize>>,
}

impl Sleeper {
    fn new(delays: Vec<u64>) -> Self {
        Sleeper { delays, next: 0, resumed: Rc::new(Cell::new(0)) }
    }
}

impl Coroutine<(), TimerEffect, ()> for Sleeper {
    fn resumable(&self) -> bool {
        unreachable!()
    }

    fn resumes(&self, _: (), _: CoroutineState<TimerEffect, ()>, _: Self) -> bool {
        unreachable!()
    }

    fn resume(&mut self, _: ()) -> CoroutineState<TimerEffect, ()> {
        self.resumed.set(self.resumed.get() + 1);
        if self.next < self.delays.len() {
            let delay = Duration::from_secs(self.delays[self.next]);
            self.next += 1;
            CoroutineState::Yielded(TimerEffect::from(Timeout::of(delay)))
        } else {
            CoroutineState::Complete(())
        }
    }
}

/// A clock that only moves when told to, with the timers that run on it.
struct VirtualClock {
    now: Duration,
    timers: Vec<(u64, Duration)>,
}

impl VirtualClock {
    fn new() -> Self {
        VirtualClock { now: Duration::ZERO, timers: Vec::new() }
    }

    fn start(&mut self, ticket: u64, delay: Duration) {
        self.timers.push((ticket, self.now + delay));
    }

    /// Moves to the moment the next timer fires and hands out its ticket.
    fn next_fired(&mut self) -> Option<u64> {
        let at = self.timers.iter().map(|timer| timer.1).min()?;
        let index = self.timers.iter().position(|timer| timer.1 == at)?;
        let (ticket, due) = self.timers.remove(index);
        if due > self.now {
            self.now = due;
        }
        Some(ticket)
    }
}

/// Drives the scheduler on the virtual clock until the loop is over. Hands
/// back the last turn and the number of turns taken.
fn run(scheduler: &mut Scheduler<Sleeper>, clock: &mut VirtualClock) -> (Turn, usize) {
    let mut turns = 0;
    loop {
        turns += 1;
        assert!(turns < 10_000, "the scheduler does not come to an end");
        assert!(scheduler.has_tickets());
        match scheduler.turn() {
            Turn::Sleeping { ticket, delay } => clock.start(ticket, delay),
            Turn::Deferred => {
                if let Some(ticket) = clock.next_fired() {
                    scheduler.fire(ticket);
                }
            }
            Turn::Completed => {}
            last => return (last, turns),
        }
    }
}

#[test]
fn lifecycle_codes() {
    assert!(matches!(Lifecycle::from(0), Lifecycle::Begin));
    assert!(matches!(Lifecycle::from(1), Lifecycle::Waiting));
    assert!(matches!(Lifecycle::from(2), Lifecycle::Finished));
    assert!(matches!(Lifecycle::from(3), Lifecycle::End));
    assert_eq!(Lifecycle::Begin.value(), 0);
    assert_eq!(Lifecycle::Waiting.value(), 1);
    assert_eq!(Lifecycle::Finished.value(), 2);
    assert_eq!(Lifecycle::End.value(), 3);
}

#[test]
fn lifecycle_advances_by_one() {
    assert!(matches!(Lifecycle::Begin.advance(), Lifecycle::Waiting));
    assert!(matches!(Lifecycle::Waiting.advance(), Lifecycle::Finished));
    assert_eq!(Lifecycle::from(0).advance().advance().value(), 2);
}

#[test]
fn timeout_keeps_its_delay() {
    let timeout = Timeout::of(Duration::from_millis(1500));
    assert_eq!(timeout.delay, Duration::from_millis(1500));
    let TimerEffect::Timer(inner) = TimerEffect::from(timeout);
    assert_eq!(inner.delay, Duration::from_millis(1500));
}

#[test]
fn new_task_is_at_begin() {
    let task = Task::new(4, Sleeper::new(vec![]));
    assert!(matches!(task.flag, Lifecycle::Begin));
    assert_eq!(task.ticket, 4);
    assert_eq!(task.continuation.resumed.get(), 0);
}

#[test]
fn empty_scheduler_is_drained() {
    let mut scheduler: Scheduler<Sleeper> = Scheduler::new();
    assert_eq!(scheduler.len(), 0);
    assert!(matches!(scheduler.turn(), Turn::Drained));
    assert_eq!(scheduler.len(), 0);
}

#[test]
fn six_timers_take_ten_seconds() {
    let mut scheduler = Scheduler::new();
    let mut clock = VirtualClock::new();
    let sleeper = Sleeper::new(vec![1, 1, 1, 1, 1, 5]);
    let resumed = Rc::clone(&sleeper.resumed);
    scheduler.spawn(sleeper);
    let (last, _) = run(&mut scheduler, &mut clock);
    assert_eq!(last, Turn::Ended);
    assert!(clock.now >= Duration::from_secs(10));
    assert_eq!(clock.now, Duration::from_secs(10));
    assert_eq!(resumed.get(), 7);
    assert_eq!(scheduler.len(), 0);
}

#[test]
fn task_is_not_resumed_while_waiting() {
    let mut scheduler = Scheduler::new();
    let sleeper = Sleeper::new(vec![3]);
    let resumed = Rc::clone(&sleeper.resumed);
    let ticket = scheduler.spawn(sleeper);
    assert_eq!(ticket, 0);
    assert_eq!(scheduler.turn(), Turn::Sleeping { ticket: 0, delay: Duration::from_secs(3) });
    assert_eq!(resumed.get(), 1);
    for _ in 0..5 {
        assert_eq!(scheduler.turn(), Turn::Deferred);
        assert_eq!(scheduler.len(), 1);
        assert_eq!(resumed.get(), 1);
    }
    assert!(scheduler.fire(0));
    assert_eq!(scheduler.turn(), Turn::Completed);
    assert_eq!(resumed.get(), 2);
    assert_eq!(scheduler.turn(), Turn::Ended);
    assert_eq!(scheduler.turn(), Turn::Drained);
    assert_eq!(resumed.get(), 2);
}

#[test]
fn completion_is_seen_on_the_next_turn() {
    let mut scheduler = Scheduler::new();
    scheduler.spawn(Sleeper::new(vec![]));
    assert!(matches!(scheduler.turn(), Turn::Completed));
    assert_eq!(scheduler.len(), 1);
    assert!(matches!(scheduler.turn(), Turn::Ended));
    assert_eq!(scheduler.len(), 0);
}

#[test]
fn end_stops_the_loop_with_tasks_left() {
    let mut scheduler = Scheduler::new();
    let mut clock = VirtualClock::new();
    scheduler.spawn(Sleeper::new(vec![]));
    scheduler.spawn(Sleeper::new(vec![2, 2]));
    let (last, turns) = run(&mut scheduler, &mut clock);
    assert!(matches!(last, Turn::Ended));
    assert_eq!(turns, 3);
    assert_eq!(scheduler.len(), 1);
    assert_eq!(clock.now, Duration::ZERO);
}

#[test]
fn fire_of_unknown_ticket_changes_nothing() {
    let mut scheduler = Scheduler::new();
    scheduler.spawn(Sleeper::new(vec![1]));
    assert!(!scheduler.fire(0));
    assert!(!scheduler.fire(17));
    assert!(matches!(scheduler.turn(), Turn::Sleeping { ticket: 0, .. }));
    assert!(!scheduler.fire(17));
    assert!(matches!(scheduler.turn(), Turn::Deferred));
    assert!(scheduler.fire(0));
    assert!(!scheduler.fire(0));
}

#[test]
fn finished_task_gets_a_fresh_ticket() {
    let mut scheduler = Scheduler::new();
    scheduler.spawn(Sleeper::new(vec![1, 1]));
    assert!(matches!(scheduler.turn(), Turn::Sleeping { ticket: 0, .. }));
    assert!(scheduler.fire(0));
    assert!(matches!(scheduler.turn(), Turn::Sleeping { ticket: 1, .. }));
    // The timer of the first round is spent.
    assert!(!scheduler.fire(0));
    assert!(matches!(scheduler.turn(), Turn::Deferred));
    assert!(scheduler.fire(1));
    assert!(matches!(scheduler.turn(), Turn::Completed));
}

#[test]
fn ready_tasks_get_their_turns_while_others_wait() {
    let mut scheduler = Scheduler::new();
    scheduler.spawn(Sleeper::new(vec![10]));
    scheduler.spawn(Sleeper::new(vec![1]));
    assert!(matches!(scheduler.turn(), Turn::Sleeping { ticket: 0, .. }));
    assert!(matches!(scheduler.turn(), Turn::Sleeping { ticket: 1, .. }));
    assert!(matches!(scheduler.turn(), Turn::Deferred));
    assert!(scheduler.fire(1));
    // The second task is resumed while the first still waits in front of it.
    assert!(matches!(scheduler.turn(), Turn::Completed));
    assert!(matches!(scheduler.turn(), Turn::Deferred));
    assert!(matches!(scheduler.turn(), Turn::Ended));
    assert_eq!(scheduler.len(), 1);
}

#[test]
fn handle_task_resumes_once() {
    let mut scheduler: Scheduler<Sleeper> = Scheduler::new();
    let ticket = scheduler.spawn(Sleeper::new(vec![]));
    let act = scheduler.handle_task(Task::new(ticket + 1, Sleeper::new(vec![4])));
    match act {
        Turn::Sleeping { ticket, delay } => {
            assert_eq!(ticket, 1);
            assert_eq!(delay, Duration::from_secs(4));
        }
        _ => panic!("the task asked for a timer"),
    }
    assert_eq!(scheduler.len(), 2);
}
