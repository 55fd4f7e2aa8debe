//! A cooperative scheduler for tasks that wait on timers. The scheduler
//! decides, one turn at a time, what becomes of the task at the head of its
//! queue; keeping time is left to whoever drives it.

use crate::coroutine::{Coroutine, CoroutineState};
use std::collections::VecDeque;
use std::time::Duration;
use vstd::prelude::*;

verus! {

/// Where a task stands between two resumptions. A task that asks for a timer
/// goes from `Begin` to `Waiting`, and to `Finished` once the timer has
/// fired; `Finished` counts as a fresh `Begin` for the next resumption. `End`
/// marks a task whose computation has completed.
#[derive(Debug, Clone, Copy, PartialEq, Eq)]
pub enum Lifecycle {
    Begin,
    Waiting,
    Finished,
    End,
}

impl Lifecycle {
    /// The number that stands for the state in a flag.
    pub open spec fn code(self) -> u8 {
        match self {
            Lifecycle::Begin => 0,
            Lifecycle::Waiting => 1,
            Lifecycle::Finished => 2,
            Lifecycle::End => 3,
        }
    }

    /// The state that `value` stands for.
    pub fn from(value: u8) -> (state: Lifecycle)
        requires
            value <= 3,
        ensures
            state.code() == value,
    {
        if value == 0 {
            Lifecycle::Begin
        } else if value == 1 {
            Lifecycle::Waiting
        } else if value == 2 {
            Lifecycle::Finished
        } else {
            Lifecycle::End
        }
    }

    /// The number that stands for the state.
    pub fn value(&self) -> (value: u8)
        ensures
            value == self.code(),
    {
        match self {
            Lifecycle::Begin => 0,
            Lifecycle::Waiting => 1,
            Lifecycle::Finished => 2,
            Lifecycle::End => 3,
        }
    }

    /// One step forward within a timer cycle: from `Begin` to `Waiting`, or
    /// from `Waiting` to `Finished`.
    pub fn advance(self) -> (state: Lifecycle)
        requires
            self is Begin || self is Waiting,
        ensures
            state.code() == self.code() + 1,
    {
        match self {
            Lifecycle::Begin => Lifecycle::Waiting,
            _ => Lifecycle::Finished,
        }
    }
}

/// A request to be resumed no sooner than after a delay.
#[derive(Debug, Clone, Copy, PartialEq, Eq)]
pub struct Timeout {
    pub delay: Duration,
}

impl Timeout {
    /// The request to wait for `delay`.
    pub fn of(delay: Duration) -> (timeout: Self)
        ensures
            timeout.delay == delay,
    {
        Self { delay }
    }
}

/// The effects that the scheduler answers.
#[derive(Debug, Clone, Copy, PartialEq, Eq)]
pub enum TimerEffect {
    Timer(Timeout),
}

impl From<Timeout> for TimerEffect {
    fn from(value: Timeout) -> (effect: Self) {
        TimerEffect::Timer(value)
    }
}

impl vstd::std_specs::convert::FromSpecImpl<Timeout> for TimerEffect {
    open spec fn obeys_from_spec() -> bool {
        true
    }

    open spec fn from_spec(value: Timeout) -> Self {
        TimerEffect::Timer(value)
    }
}

/// A computation under the scheduler, with the flag that says where it
/// stands. The ticket names the flag: whoever runs the timers uses it to say
/// which timer has fired.
pub struct Task<C> {
    pub flag: Lifecycle,
    pub ticket: u64,
    pub continuation: C,
}

impl<C> Task<C> {
    /// A task at `Begin` under a flag of its own.
    pub fn new(ticket: u64, continuation: C) -> (task: Self)
        ensures
            task.flag is Begin,
            task.ticket == ticket,
            task.continuation == continuation,
    {
        Task { flag: Lifecycle::Begin, ticket, continuation }
    }
}

/// What one turn of the scheduler came to, and what is left to do for
/// whoever drives it.
#[derive(Debug, Clone, Copy, PartialEq, Eq)]
pub enum Turn {
    /// The queue was empty. The loop is over.
    Drained,
    /// The task taken from the queue was at `End`. It is dropped and the loop
    /// is over, whatever else is queued.
    Ended,
    /// The task taken from the queue was waiting for its timer. It went back
    /// to the tail without being resumed.
    Deferred,
    /// The task was resumed and asked for a timer. It is back at the tail at
    /// `Waiting`; the driver is to call `fire` with this ticket once the delay
    /// has passed.
    Sleeping { ticket: u64, delay: Duration },
    /// The task was resumed and completed. It is back at the tail at `End`.
    Completed,
}

/// `tasks` once the timer with `ticket` has fired: the task that waits under
/// that ticket is at `Finished`, every other task is as it was.
pub open spec fn woken<C>(tasks: Seq<Task<C>>, ticket: u64) -> Seq<Task<C>> {
    Seq::new(
        tasks.len(),
        |i: int|
            if tasks[i].ticket == ticket && tasks[i].flag is Waiting {
                Task {
                    flag: Lifecycle::Finished,
                    ticket: tasks[i].ticket,
                    continuation: tasks[i].continuation,
                }
            } else {
                tasks[i]
            },
    )
}

/// Some task of `tasks` waits under `ticket`.
pub open spec fn waits<C>(tasks: Seq<Task<C>>, ticket: u64) -> bool {
    exists|i: int| 0 <= i < tasks.len() && #[trigger] tasks[i].ticket == ticket && tasks[i].flag is Waiting
}

/// The task `before`, resumed once, came to `after` and to the action `act`:
/// where it asked for a timer it is at `Waiting` and `act` names its ticket
/// and the delay; where it completed it is at `End`.
pub open spec fn resumed<C: Coroutine<(), TimerEffect, ()>>(
    before: Task<C>,
    act: Turn,
    after: Task<C>,
) -> bool {
    &&& after.ticket == before.ticket
    &&& match act {
        Turn::Sleeping { ticket, delay } => {
            &&& ticket == before.ticket
            &&& after.flag is Waiting
            &&& before.continuation.resumes(
                (),
                CoroutineState::Yielded(TimerEffect::Timer(Timeout { delay })),
                after.continuation,
            )
        },
        Turn::Completed => {
            &&& after.flag is End
            &&& before.continuation.resumes(
                (),
                CoroutineState::Complete(()),
                after.continuation,
            )
        },
        _ => false,
    }
}

/// One turn of the scheduler: the task at the head of `before` is taken, and
/// by its flag it is dropped, put back unchanged, or resumed once and put
/// back. `issued` counts the flags made so far; a task resumed at `Finished`
/// gets a flag of its own.
pub open spec fn turned<C: Coroutine<(), TimerEffect, ()>>(
    before: Seq<Task<C>>,
    issued: u64,
    act: Turn,
    after: Seq<Task<C>>,
    issued_after: u64,
) -> bool {
    if before.len() == 0 {
        act is Drained && after == before && issued_after == issued
    } else {
        match before[0].flag {
            Lifecycle::End => act is Ended && after == before.skip(1) && issued_after == issued,
            Lifecycle::Waiting => {
                &&& act is Deferred
                &&& after == before.skip(1).push(before[0])
                &&& issued_after == issued
            },
            Lifecycle::Begin => {
                &&& issued_after == issued
                &&& after.len() == before.len()
                &&& after.drop_last() == before.skip(1)
                &&& resumed(before[0], act, after.last())
            },
            Lifecycle::Finished => {
                &&& issued_after == issued + 1
                &&& after.len() == before.len()
                &&& after.drop_last() == before.skip(1)
                &&& resumed(
                    Task {
                        flag: Lifecycle::Begin,
                        ticket: issued,
                        continuation: before[0].continuation,
                    },
                    act,
                    after.last(),
                )
            },
        }
    }
}

/// A cooperative scheduler: a queue of tasks that are resumed in turn, each
/// of which may ask to be left alone until a timer has fired.
///
/// The scheduler keeps no time. A turn that starts a timer says so in its
/// result, and the driver reports the timer's firing with `fire`.
pub struct Scheduler<C> {
    queue: VecDeque<Task<C>>,
    issued: u64,
}

impl<C: Coroutine<(), TimerEffect, ()>> Scheduler<C> {
    /// The queue, head first.
    pub closed spec fn tasks(&self) -> Seq<Task<C>> {
        self.queue@
    }

    /// The number of flags made so far, which is the ticket of the next.
    pub closed spec fn issued(&self) -> u64 {
        self.issued
    }

    /// Every ticket in the queue was issued, no two tasks share one, and
    /// every task that is not at `End` holds a computation that can be
    /// resumed.
    pub open spec fn wf(&self) -> bool {
        &&& forall|i: int|
            0 <= i < self.tasks().len() ==> (#[trigger] self.tasks()[i]).ticket < self.issued()
        &&& forall|i: int, j: int|
            0 <= i < j < self.tasks().len() ==> (#[trigger] self.tasks()[i]).ticket != (
            #[trigger] self.tasks()[j]).ticket
        &&& forall|i: int|
            0 <= i < self.tasks().len() && !((#[trigger] self.tasks()[i]).flag is End)
                ==> self.tasks()[i].continuation.resumable()
    }

    /// A scheduler with nothing to do.
    pub fn new() -> (scheduler: Self)
        ensures
            scheduler.wf(),
            scheduler.tasks() == Seq::<Task<C>>::empty(),
            scheduler.issued() == 0,
    {
        Scheduler { queue: VecDeque::new(), issued: 0 }
    }

    /// The number of queued tasks.
    pub fn len(&self) -> (n: usize)
        ensures
            n == self.tasks().len(),
    {
        self.queue.len()
    }

    /// Whether another flag can still be made.
    pub fn has_tickets(&self) -> (some: bool)
        ensures
            some == (self.issued() < u64::MAX),
    {
        self.issued < u64::MAX
    }

    /// Puts `continuation` at the tail of the queue as a task at `Begin`, and
    /// hands back the ticket of its flag.
    pub fn spawn(&mut self, continuation: C) -> (ticket: u64)
        requires
            old(self).wf(),
            old(self).issued() < u64::MAX,
            continuation.resumable(),
        ensures
            final(self).wf(),
            ticket == old(self).issued(),
            final(self).issued() == old(self).issued() + 1,
            final(self).tasks() == old(self).tasks().push(
                Task { flag: Lifecycle::Begin, ticket, continuation },
            ),
    {
        let ticket = self.issued;
        self.issued = self.issued + 1;
        self.queue.push_back(Task::new(ticket, continuation));
        ticket
    }

    /// Reports that the timer with `ticket` has fired: the task that waits
    /// under it goes from `Waiting` to `Finished`. A ticket under which no
    /// task waits changes nothing.
    pub fn fire(&mut self, ticket: u64) -> (hit: bool)
        requires
            old(self).wf(),
        ensures
            final(self).wf(),
            final(self).issued() == old(self).issued(),
            final(self).tasks() == woken(old(self).tasks(), ticket),
            hit == waits(old(self).tasks(), ticket),
    {
        let mut i: usize = 0;
        while i < self.queue.len()
            invariant
                old(self).wf(),
                self.queue@ == old(self).queue@,
                self.issued == old(self).issued,
                i <= self.queue@.len(),
                forall|k: int| 0 <= k < i ==> (#[trigger] self.queue@[k]).ticket != ticket,
            decreases self.queue@.len() - i,
        {
            if self.queue[i].ticket == ticket {
                let waiting = match self.queue[i].flag {
                    Lifecycle::Waiting => true,
                    _ => false,
                };
                if waiting {
                    let mut task = self.queue.remove(i).unwrap();
                    task.flag = task.flag.advance();
                    self.queue.insert(i, task);
                    proof {
                        let before = old(self).queue@;
                        assert(self.queue@ =~= woken(before, ticket)) by {
                            assert forall|k: int| 0 <= k < before.len() implies self.queue@[k]
                                == woken(before, ticket)[k] by {
                                if k != i {
                                    if k < i {
                                        assert(before[k].ticket != before[i as int].ticket);
                                    } else {
                                        assert(before[i as int].ticket != before[k].ticket);
                                    }
                                }
                            }
                        }
                        assert(before[i as int].ticket == ticket);
                    }
                    return true;
                } else {
                    proof {
                        let before = old(self).queue@;
                        assert(self.queue@ =~= woken(before, ticket)) by {
                            assert forall|k: int| 0 <= k < before.len() implies self.queue@[k]
                                == woken(before, ticket)[k] by {
                                if k != i {
                                    if k < i {
                                        assert(before[k].ticket != before[i as int].ticket);
                                    } else {
                                        assert(before[i as int].ticket != before[k].ticket);
                                    }
                                }
                            }
                        }
                        assert(!waits(before, ticket)) by {
                            if waits(before, ticket) {
                                let k = choose|k: int|
                                    0 <= k < before.len() && #[trigger] before[k].ticket == ticket
                                        && before[k].flag is Waiting;
                                if k < i {
                                    assert(before[k].ticket != before[i as int].ticket);
                                } else if k > i {
                                    assert(before[i as int].ticket != before[k].ticket);
                                }
                            }
                        }
                    }
                    return false;
                }
            }
            i = i + 1;
        }
        proof {
            assert(self.queue@ =~= woken(old(self).queue@, ticket));
        }
        false
    }

    /// Resumes `task`, which is at `Begin`, once and puts it at the tail of
    /// the queue: at `Waiting` where it asked for a timer, at `End` where it
    /// completed.
    pub fn handle_task(&mut self, task: Task<C>) -> (act: Turn)
        requires
            task.flag is Begin,
            task.continuation.resumable(),
            task.ticket < old(self).issued(),
            forall|i: int|
                0 <= i < old(self).tasks().len() ==> (#[trigger] old(self).tasks()[i]).ticket
                    != task.ticket,
            old(self).wf(),
        ensures
            final(self).wf(),
            final(self).issued() == old(self).issued(),
            final(self).tasks().len() == old(self).tasks().len() + 1,
            final(self).tasks().drop_last() == old(self).tasks(),
            resumed(task, act, final(self).tasks().last()),
    {
        let mut task = task;
        let state = task.continuation.resume(());
        match state {
            CoroutineState::Complete(done) => {
                assert(done == ());
                task.flag = Lifecycle::End;
                self.queue.push_back(task);
                assert(self.queue@.drop_last() =~= old(self).queue@);
                Turn::Completed
            },
            CoroutineState::Yielded(TimerEffect::Timer(timeout)) => {
                task.flag = task.flag.advance();
                let ticket = task.ticket;
                self.queue.push_back(task);
                assert(self.queue@.drop_last() =~= old(self).queue@);
                Turn::Sleeping { ticket, delay: timeout.delay }
            },
        }
    }

    /// Takes the task at the head of the queue and deals with it by its
    /// flag. At `Begin` or `Finished` the task is resumed once, at `Waiting`
    /// it goes back to the tail untouched, at `End` it is dropped. The loop
    /// of a driver goes on after `Deferred`, `Sleeping` and `Completed`, and
    /// is over after `Drained` and `Ended`.
    ///
    /// A task at `End` ends the loop even while other tasks are queued: they
    /// stay in the queue, and `len` tells how many they are.
    pub fn turn(&mut self) -> (act: Turn)
        requires
            old(self).wf(),
            old(self).issued() < u64::MAX,
        ensures
            final(self).wf(),
            turned(old(self).tasks(), old(self).issued(), act, final(self).tasks(), final(self).issued()),
    {
        match self.queue.pop_front() {
            None => Turn::Drained,
            Some(task) => {
                proof {
                    let before = old(self).queue@;
                    assert(self.queue@ =~= before.skip(1));
                    assert forall|i: int| 0 <= i < self.queue@.len() implies (
                    #[trigger] self.queue@[i]).ticket != task.ticket by {
                        assert(before[0].ticket != before[i + 1].ticket);
                    }
                    assert forall|i: int, j: int| 0 <= i < j < self.queue@.len() implies (
                    #[trigger] self.queue@[i]).ticket != (#[trigger] self.queue@[j]).ticket by {
                        assert(before[i + 1].ticket != before[j + 1].ticket);
                    }
                    assert forall|i: int| 0 <= i < self.queue@.len() implies (
                    #[trigger] self.queue@[i]).ticket < self.issued by {
                        assert(before[i + 1].ticket < self.issued);
                    }
                    assert forall|i: int|
                        0 <= i < self.queue@.len() && !((#[trigger] self.queue@[i]).flag
                            is End) implies self.queue@[i].continuation.resumable() by {
                        assert(!(before[i + 1].flag is End));
                    }
                    assert(before[0] == task);
                }
                match task.flag {
                    Lifecycle::End => Turn::Ended,
                    Lifecycle::Waiting => {
                        self.queue.push_back(task);
                        Turn::Deferred
                    },
                    Lifecycle::Begin => self.handle_task(task),
                    Lifecycle::Finished => {
                        let fresh = Task::new(self.issued, task.continuation);
                        self.issued = self.issued + 1;
                        self.handle_task(fresh)
                    },
                }
            },
        }
    }
}

/// No turn touches a task that waits for its timer: whatever the turn does,
/// the task is still queued afterwards, at `Waiting`, under the same ticket
/// and with its computation as it was. Only `fire` moves it on.
pub proof fn lemma_waiting_task_untouched<C: Coroutine<(), TimerEffect, ()>>(
    before: Seq<Task<C>>,
    issued: u64,
    act: Turn,
    after: Seq<Task<C>>,
    issued_after: u64,
    i: int,
)
    requires
        turned(before, issued, act, after, issued_after),
        0 <= i < before.len(),
        before[i].flag is Waiting,
    ensures
        exists|j: int| 0 <= j < after.len() && #[trigger] after[j] == before[i],
{
    if i == 0 {
        assert(after[after.len() - 1] == before[0]);
    } else {
        assert(before.skip(1)[i - 1] == before[i]);
        match before[0].flag {
            Lifecycle::End => {
                assert(after[i - 1] == before[i]);
            },
            Lifecycle::Waiting => {
                assert(after[i - 1] == before[i]);
            },
            _ => {
                assert(after.drop_last()[i - 1] == before[i]);
                assert(after[i - 1] == before[i]);
            },
        }
    }
}

} // verus!
