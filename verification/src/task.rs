//! The task that cleans up a value once its guard is gone.
use crate::channel::{
    belongs, handed, hears, is_end, law_closed_had_no_message, law_heard_was_sent,
    law_silence_changes_nothing, let_go, listen, sole_channel, Heard, Sole,
};
use crate::guard::{law_drop_hands_the_value_over, DropLater};
use crate::polling::{pin, pins, polled, run, Baton, Machine, Running};
use crate::spawner::Spawner;
use async_channel::Receiver;
use std::future::Future;
use std::pin::Pin;
use vstd::prelude::*;

verus! {

/// How far a task has come.
#[verifier::reject_recursive_types(T)]
#[verifier::reject_recursive_types(C)]
#[verifier::reject_recursive_types(F)]
pub enum Stage<T, C, F> {
    /// It waits for the value.
    Waiting(Pin<Box<Receiver<T>>>, Box<C>),
    /// It cleans the value up.
    Cleaning(Pin<Box<F>>),
    /// It is over.
    Done,
}

/// What is left of the cleanup.
pub open spec fn rest_in<T, C, F>(stage: Stage<T, C, F>) -> Option<Pin<Box<F>>> {
    match stage {
        Stage::Cleaning(future) => Some(future),
        _ => None,
    }
}

/// One poll of the cleanup leaves this stage: the cleanup goes on, or the task is over with it.
pub open spec fn cleans_on<'b, 'a, T, C, F: Future<Output = ()>>(
    future: Pin<Box<F>>,
    start: Baton<'b, 'a>,
    after: Stage<T, C, F>,
    end: Baton<'b, 'a>,
) -> bool {
    after !is Waiting && polled(future, start, rest_in(after), end)
}

/// The cleanup of the value starts, and one poll leaves this stage.
pub open spec fn starts<'b, 'a, T, C: FnOnce(T) -> F, F: Future<Output = ()>>(
    cleanup: C,
    value: T,
    start: Baton<'b, 'a>,
    after: Stage<T, C, F>,
    end: Baton<'b, 'a>,
) -> bool {
    exists|future: F, pinned: Pin<Box<F>>|
        {
            &&& call_ensures(cleanup, (value,), future)
            &&& #[trigger] pins(future, pinned)
            &&& cleans_on(pinned, start, after, end)
        }
}

/// What the news from the channel make of a task that waits: without a value it goes on waiting,
/// or it is over where none can come; the cleanup of a value starts at once.
pub open spec fn goes_on<'b, 'a, T, C: FnOnce(T) -> F, F: Future<Output = ()>>(
    cleanup: C,
    heard: Heard<T>,
    start: Baton<'b, 'a>,
    after: Stage<T, C, F>,
    end: Baton<'b, 'a>,
) -> bool {
    match heard {
        Heard::Pending(rx) => after == Stage::<T, C, F>::Waiting(rx, Box::new(cleanup)) && end
            == start,
        Heard::Closed => after is Done && end == start,
        Heard::Value(value) => starts(cleanup, value, start, after, end),
    }
}

/// What one poll makes of a task.
pub open spec fn moves<'b, 'a, T, C: FnOnce(T) -> F, F: Future<Output = ()>>(
    before: Stage<T, C, F>,
    start: Baton<'b, 'a>,
    after: Stage<T, C, F>,
    end: Baton<'b, 'a>,
) -> bool {
    match before {
        Stage::Waiting(rx, cleanup) => exists|heard: Heard<T>, next: Baton<'b, 'a>| #[trigger]
            hears(rx, start, heard, next) && goes_on(*cleanup, heard, next, after, end),
        Stage::Cleaning(future) => cleans_on(future, start, after, end),
        Stage::Done => after is Done && end == start,
    }
}

/// The task that cleans up one value.
#[verifier::reject_recursive_types(T)]
#[verifier::reject_recursive_types(C)]
#[verifier::reject_recursive_types(F)]
pub struct Cleanup<T, C: FnOnce(T) -> F, F: Future<Output = ()>> {
    stage: Stage<T, C, F>,
}

/// The task that cleans up one value, as a future.
pub type DropTask<T, C, F> = Running<Cleanup<T, C, F>>;

/// Polls a cleanup once.
fn clean<'b, 'a, T, C: FnOnce(T) -> F, F: Future<Output = ()>>(
    future: Pin<Box<F>>,
    baton: Baton<'b, 'a>,
) -> (left: (Stage<T, C, F>, Baton<'b, 'a>))
    ensures
        cleans_on(future, baton, left.0, left.1),
{
    let (rest, end) = run(future, baton);
    match rest {
        Some(future) => (Stage::Cleaning(future), end),
        None => (Stage::Done, end),
    }
}

/// Decides what the news from the channel make of a task that waits.
pub fn on_heard<'b, 'a, T, C: FnOnce(T) -> F, F: Future<Output = ()>>(
    cleanup: Box<C>,
    heard: Heard<T>,
    baton: Baton<'b, 'a>,
) -> (left: (Stage<T, C, F>, Baton<'b, 'a>))
    requires
        forall|value: T| call_requires(*cleanup, (value,)),
    ensures
        goes_on(*cleanup, heard, baton, left.0, left.1),
{
    match heard {
        Heard::Pending(rx) => (Stage::Waiting(rx, cleanup), baton),
        Heard::Closed => (Stage::Done, baton),
        Heard::Value(value) => {
            let cleanup: C = *cleanup;
            let future = cleanup(value);
            clean(pin(future), baton)
        },
    }
}

impl<T, C: FnOnce(T) -> F, F: Future<Output = ()>> Cleanup<T, C, F> {
    #[verifier::type_invariant]
    spec fn is_ready(self) -> bool {
        self.stage matches Stage::Waiting(rx, cleanup) ==> is_end::<T, Sole>(rx) && forall|value: T|
            call_requires(*cleanup, (value,))
    }

    /// How far the task has come.
    pub closed spec fn stage(self) -> Stage<T, C, F> {
        self.stage
    }
}

impl<T, C: FnOnce(T) -> F, F: Future<Output = ()>> Machine for Cleanup<T, C, F> {
    open spec fn steps<'b, 'a>(
        before: Self,
        start: Baton<'b, 'a>,
        after: Self,
        end: Baton<'b, 'a>,
        done: bool,
    ) -> bool {
        &&& moves(before.stage(), start, after.stage(), end)
        &&& done == (after.stage() is Done)
    }

    fn advance<'b, 'a>(&mut self, baton: Baton<'b, 'a>) -> (left: (bool, Baton<'b, 'a>)) {
        proof {
            use_type_invariant(&*self);
        }
        let mut stage: Stage<T, C, F> = Stage::Done;
        std::mem::swap(&mut stage, &mut self.stage);
        let (after, end) = match stage {
            Stage::Waiting(rx, cleanup) => {
                let (heard, next) = listen(rx, baton);
                on_heard(cleanup, heard, next)
            },
            Stage::Cleaning(future) => clean(future, baton),
            Stage::Done => (Stage::Done, baton),
        };
        self.stage = after;
        match &self.stage {
            Stage::Done => (true, end),
            _ => (false, end),
        }
    }
}

/// Wraps a value in a guard. When the guard is dropped, a task that the spawner runs calls
/// `cleanup` on the value and drives what it returns to its end.
pub fn later_with<
    T: Send + 'static,
    C: FnOnce(T) -> F + Send + 'static,
    F: Future<Output = ()> + Send + 'static,
    S: Spawner,
>(value: T, cleanup: C, spawner: &S) -> (guard: DropLater<T>)
    requires
        forall|v: T| call_requires(cleanup, (v,)),
    ensures
        guard@ == value,
        guard.is_guarding(),
        exists|rx: Pin<Box<Receiver<T>>>, task: DropTask<T, C, F>|
            {
                &&& #[trigger] belongs(guard.dropper(), rx)
                &&& task@.stage() == Stage::<T, C, F>::Waiting(rx, Box::new(cleanup))
                &&& #[trigger] call_ensures(S::spawn::<DropTask<T, C, F>>, (spawner, task), ())
            },
{
    let (tx, rx) = sole_channel();
    let guard = DropLater::new(value, tx);
    let task: DropTask<T, C, F> = Running::new(
        Cleanup { stage: Stage::Waiting(rx, Box::new(cleanup)) },
    );
    spawner.spawn(task);
    assert(call_ensures(S::spawn::<DropTask<T, C, F>>, (spawner, task), ()));
    guard
}

/// Poll `j` of a run takes its stage to the next.
pub open spec fn moves_at<'b, 'a, T, C: FnOnce(T) -> F, F: Future<Output = ()>>(
    stages: Seq<Stage<T, C, F>>,
    polls: Seq<(Baton<'b, 'a>, Baton<'b, 'a>)>,
    j: int,
) -> bool {
    moves(stages[j], polls[j].0, stages[j + 1], polls[j].1)
}

/// The stages of a task from its start on, with a poll between any two of them.
pub open spec fn is_run<'b, 'a, T, C: FnOnce(T) -> F, F: Future<Output = ()>>(
    stages: Seq<Stage<T, C, F>>,
    polls: Seq<(Baton<'b, 'a>, Baton<'b, 'a>)>,
) -> bool {
    &&& stages.len() == polls.len() + 1
    &&& forall|j: int| 0 <= j < polls.len() ==> #[trigger] moves_at(stages, polls, j)
}

/// Poll `j` of a run calls the cleanup, on this value.
pub open spec fn cleans_at<'b, 'a, T, C: FnOnce(T) -> F, F: Future<Output = ()>>(
    stages: Seq<Stage<T, C, F>>,
    polls: Seq<(Baton<'b, 'a>, Baton<'b, 'a>)>,
    j: int,
    value: T,
) -> bool {
    &&& stages[j] is Waiting
    &&& exists|next: Baton<'b, 'a>|
        {
            &&& #[trigger] hears(stages[j]->Waiting_0, polls[j].0, Heard::Value(value), next)
            &&& starts(*stages[j]->Waiting_1, value, next, stages[j + 1], polls[j].1)
        }
}

/// A task never goes back: once it has stopped waiting it does not wait again, and once it is over
/// it stays over.
pub proof fn law_task_never_goes_back<'b, 'a, T, C: FnOnce(T) -> F, F: Future<Output = ()>>(
    stages: Seq<Stage<T, C, F>>,
    polls: Seq<(Baton<'b, 'a>, Baton<'b, 'a>)>,
    j: int,
    k: int,
)
    requires
        is_run(stages, polls),
        0 <= j <= k < stages.len(),
    ensures
        stages[j] !is Waiting ==> stages[k] !is Waiting,
        stages[j] is Done ==> stages[k] is Done,
    decreases k - j,
{
    if j < k {
        law_task_never_goes_back(stages, polls, j, k - 1);
        assert(moves_at(stages, polls, k - 1));
    }
}

/// A cleanup is called at most once.
pub proof fn law_cleaned_up_at_most_once<'b, 'a, T, C: FnOnce(T) -> F, F: Future<Output = ()>>(
    stages: Seq<Stage<T, C, F>>,
    polls: Seq<(Baton<'b, 'a>, Baton<'b, 'a>)>,
    j: int,
    first: T,
    k: int,
    second: T,
)
    requires
        is_run(stages, polls),
        0 <= j < polls.len(),
        0 <= k < polls.len(),
        cleans_at(stages, polls, j, first),
        cleans_at(stages, polls, k, second),
    ensures
        j == k,
{
    if j < k {
        law_task_never_goes_back(stages, polls, j + 1, k);
    }
    if k < j {
        law_task_never_goes_back(stages, polls, k + 1, j);
    }
}

/// As long as a task waits, it waits for the same value with the same cleanup.
pub proof fn law_task_waits_for_one_value<'b, 'a, T, C: FnOnce(T) -> F, F: Future<Output = ()>>(
    stages: Seq<Stage<T, C, F>>,
    polls: Seq<(Baton<'b, 'a>, Baton<'b, 'a>)>,
    k: int,
)
    requires
        is_run(stages, polls),
        0 <= k < stages.len(),
        stages[k] is Waiting,
    ensures
        stages[k] == stages[0],
    decreases k,
{
    if k > 0 {
        assert(moves_at(stages, polls, k - 1));
        if stages[k - 1] is Waiting {
            law_task_waits_for_one_value(stages, polls, k - 1);
            let rx = stages[k - 1]->Waiting_0;
            let cleanup = *stages[k - 1]->Waiting_1;
            let (heard, next) = choose|heard: Heard<T>, next: Baton<'b, 'a>| #[trigger]
                hears(rx, polls[k - 1].0, heard, next) && goes_on(
                    cleanup,
                    heard,
                    next,
                    stages[k],
                    polls[k - 1].1,
                );
            match heard {
                Heard::Pending(same) => {
                    law_silence_changes_nothing(rx, polls[k - 1].0, same, next);
                },
                _ => {},
            }
        }
    }
}

/// The task that comes with a guard cleans up what was sent from that guard's end of the channel
/// and nothing else, with the cleanup that was given for it.
pub proof fn law_cleans_up_what_was_sent<'b, 'a, T, C: FnOnce(T) -> F, F: Future<Output = ()>>(
    stages: Seq<Stage<T, C, F>>,
    polls: Seq<(Baton<'b, 'a>, Baton<'b, 'a>)>,
    guard: DropLater<T>,
    rx: Pin<Box<Receiver<T>>>,
    cleanup: C,
    j: int,
    value: T,
)
    requires
        is_run(stages, polls),
        belongs(guard.dropper(), rx),
        stages[0] == Stage::<T, C, F>::Waiting(rx, Box::new(cleanup)),
        0 <= j < polls.len(),
        cleans_at(stages, polls, j, value),
    ensures
        handed(guard.dropper(), value, Ok(())),
        !let_go(guard.dropper()),
        forall|other: T, result: Result<(), T>| #[trigger]
            handed(guard.dropper(), other, result) ==> other == value,
        exists|next: Baton<'b, 'a>| #[trigger]
            starts(cleanup, value, next, stages[j + 1], polls[j].1),
{
    law_task_waits_for_one_value(stages, polls, j);
    let next = choose|next: Baton<'b, 'a>|
        {
            &&& #[trigger] hears(rx, polls[j].0, Heard::Value(value), next)
            &&& starts(cleanup, value, next, stages[j + 1], polls[j].1)
        };
    law_heard_was_sent(guard.dropper(), rx, polls[j].0, value, next);
}

/// A task stops waiting for two reasons only: it calls the cleanup, or its guard's end of the channel
/// was let go of and nothing was handed over there.
pub proof fn law_task_stops_waiting_for_a_reason<'b, 'a, T, C, F>(
    stages: Seq<Stage<T, C, F>>,
    polls: Seq<(Baton<'b, 'a>, Baton<'b, 'a>)>,
    guard: DropLater<T>,
    rx: Pin<Box<Receiver<T>>>,
    cleanup: C,
    k: int,
) where C: FnOnce(T) -> F, F: Future<Output = ()>
    requires
        is_run(stages, polls),
        belongs(guard.dropper(), rx),
        stages[0] == Stage::<T, C, F>::Waiting(rx, Box::new(cleanup)),
        0 <= k < stages.len(),
        stages[k] !is Waiting,
    ensures
        ({
            ||| exists|j: int, value: T| 0 <= j < k && #[trigger] cleans_at(stages, polls, j, value)
            ||| {
                &&& let_go(guard.dropper())
                &&& forall|value: T, result: Result<(), T>|
                    !#[trigger] handed(guard.dropper(), value, result)
            }
        }),
    decreases k,
{
    let j = k - 1;
    assert(moves_at(stages, polls, j));
    if stages[j] is Waiting {
        law_task_waits_for_one_value(stages, polls, j);
        let (heard, next) = choose|heard: Heard<T>, next: Baton<'b, 'a>| #[trigger]
            hears(rx, polls[j].0, heard, next) && goes_on(
                cleanup,
                heard,
                next,
                stages[k],
                polls[j].1,
            );
        match heard {
            Heard::Pending(_) => {},
            Heard::Value(value) => {
                assert(cleans_at(stages, polls, j, value));
            },
            Heard::Closed => {
                law_closed_had_no_message(guard.dropper(), rx, polls[j].0, next);
            },
        }
    } else {
        law_task_stops_waiting_for_a_reason(stages, polls, guard, rx, cleanup, j);
    }
}

/// A task waits as long as its guard lives: where it has stopped waiting, its guard's value was
/// handed over, or its guard's end of the channel was let go of.
pub proof fn law_task_waits_while_its_guard_lives<'b, 'a, T, C, F>(
    stages: Seq<Stage<T, C, F>>,
    polls: Seq<(Baton<'b, 'a>, Baton<'b, 'a>)>,
    guard: DropLater<T>,
    rx: Pin<Box<Receiver<T>>>,
    cleanup: C,
    k: int,
) where C: FnOnce(T) -> F, F: Future<Output = ()>
    requires
        is_run(stages, polls),
        belongs(guard.dropper(), rx),
        stages[0] == Stage::<T, C, F>::Waiting(rx, Box::new(cleanup)),
        0 <= k < stages.len(),
        stages[k] !is Waiting,
    ensures
        let_go(guard.dropper()) || exists|value: T| #[trigger]
            handed(guard.dropper(), value, Ok(())),
{
    law_task_stops_waiting_for_a_reason(stages, polls, guard, rx, cleanup, k);
    if !let_go(guard.dropper()) {
        let (j, value) = choose|j: int, value: T|
            0 <= j < k && #[trigger] cleans_at(stages, polls, j, value);
        law_cleans_up_what_was_sent(stages, polls, guard, rx, cleanup, j, value);
    }
}

/// A value that was handed over is cleaned up: where its task has stopped waiting, it has called the
/// cleanup on that value.
pub proof fn law_handed_value_is_cleaned_up<'b, 'a, T, C, F>(
    stages: Seq<Stage<T, C, F>>,
    polls: Seq<(Baton<'b, 'a>, Baton<'b, 'a>)>,
    guard: DropLater<T>,
    rx: Pin<Box<Receiver<T>>>,
    cleanup: C,
    value: T,
    result: Result<(), T>,
    k: int,
) where C: FnOnce(T) -> F, F: Future<Output = ()>
    requires
        is_run(stages, polls),
        belongs(guard.dropper(), rx),
        stages[0] == Stage::<T, C, F>::Waiting(rx, Box::new(cleanup)),
        handed(guard.dropper(), value, result),
        0 <= k < stages.len(),
        stages[k] !is Waiting,
    ensures
        exists|j: int| 0 <= j < k && #[trigger] cleans_at(stages, polls, j, value),
{
    law_task_stops_waiting_for_a_reason(stages, polls, guard, rx, cleanup, k);
    let (j, cleaned) = choose|j: int, cleaned: T|
        0 <= j < k && #[trigger] cleans_at(stages, polls, j, cleaned);
    law_cleans_up_what_was_sent(stages, polls, guard, rx, cleanup, j, cleaned);
    assert(cleans_at(stages, polls, j, value));
}

/// When a guard has been dropped, the cleanup is called on the value that it held, and on no other.
pub proof fn law_cleans_up_what_the_guard_held<'b, 'a, T, C, F>(
    stages: Seq<Stage<T, C, F>>,
    polls: Seq<(Baton<'b, 'a>, Baton<'b, 'a>)>,
    guard: DropLater<T>,
    rx: Pin<Box<Receiver<T>>>,
    cleanup: C,
    j: int,
    value: T,
) where C: FnOnce(T) -> F, F: Future<Output = ()>
    requires
        is_run(stages, polls),
        belongs(guard.dropper(), rx),
        guard.is_guarding(),
        guard.is_dropped(),
        stages[0] == Stage::<T, C, F>::Waiting(rx, Box::new(cleanup)),
        0 <= j < polls.len(),
        cleans_at(stages, polls, j, value),
    ensures
        value == guard@,
{
    law_drop_hands_the_value_over(guard);
    law_cleans_up_what_was_sent(stages, polls, guard, rx, cleanup, j, value);
}

/// The same holds of a value that was written through the guard: the cleanup receives what was
/// written last.
pub proof fn law_cleans_up_what_was_written<'b, 'a, T, C, F>(
    stages: Seq<Stage<T, C, F>>,
    polls: Seq<(Baton<'b, 'a>, Baton<'b, 'a>)>,
    before: DropLater<T>,
    written: T,
    after: DropLater<T>,
    rx: Pin<Box<Receiver<T>>>,
    cleanup: C,
    j: int,
    value: T,
) where C: FnOnce(T) -> F, F: Future<Output = ()>
    requires
        is_run(stages, polls),
        belongs(before.dropper(), rx),
        after@ == written,
        after.dropper() == before.dropper(),
        after.is_guarding(),
        after.is_dropped(),
        stages[0] == Stage::<T, C, F>::Waiting(rx, Box::new(cleanup)),
        0 <= j < polls.len(),
        cleans_at(stages, polls, j, value),
    ensures
        value == written,
{
    law_cleans_up_what_the_guard_held(stages, polls, after, rx, cleanup, j, value);
}

/// When the value has been taken out of a guard, the cleanup is never called and never runs.
pub proof fn law_taken_out_is_never_cleaned_up<'b, 'a, T, C, F>(
    stages: Seq<Stage<T, C, F>>,
    polls: Seq<(Baton<'b, 'a>, Baton<'b, 'a>)>,
    guard: DropLater<T>,
    rx: Pin<Box<Receiver<T>>>,
    cleanup: C,
    k: int,
) where C: FnOnce(T) -> F, F: Future<Output = ()>
    requires
        is_run(stages, polls),
        belongs(guard.dropper(), rx),
        let_go(guard.dropper()),
        stages[0] == Stage::<T, C, F>::Waiting(rx, Box::new(cleanup)),
        0 <= k < stages.len(),
    ensures
        stages[k] !is Cleaning,
        forall|j: int, value: T|
            0 <= j < polls.len() ==> !#[trigger] cleans_at(stages, polls, j, value),
{
    assert forall|j: int, value: T| 0 <= j < polls.len() implies !#[trigger] cleans_at(
        stages,
        polls,
        j,
        value,
    ) by {
        if cleans_at(stages, polls, j, value) {
            law_cleans_up_what_was_sent(stages, polls, guard, rx, cleanup, j, value);
        }
    }
    law_no_value_no_cleanup(stages, polls, k);
}

/// A task that never heard a value never called the cleanup: out of waiting it goes straight to its
/// end.
pub proof fn law_no_value_no_cleanup<'b, 'a, T, C: FnOnce(T) -> F, F: Future<Output = ()>>(
    stages: Seq<Stage<T, C, F>>,
    polls: Seq<(Baton<'b, 'a>, Baton<'b, 'a>)>,
    k: int,
)
    requires
        is_run(stages, polls),
        stages[0] is Waiting,
        0 <= k < stages.len(),
        forall|j: int, value: T| 0 <= j < k ==> !#[trigger] cleans_at(stages, polls, j, value),
    ensures
        stages[k] !is Cleaning,
    decreases k,
{
    if k > 0 {
        law_no_value_no_cleanup(stages, polls, k - 1);
        assert(moves_at(stages, polls, k - 1));
        if stages[k - 1] is Waiting {
            let rx = stages[k - 1]->Waiting_0;
            let cleanup = *stages[k - 1]->Waiting_1;
            let (heard, next) = choose|heard: Heard<T>, next: Baton<'b, 'a>| #[trigger]
                hears(rx, polls[k - 1].0, heard, next) && goes_on(
                    cleanup,
                    heard,
                    next,
                    stages[k],
                    polls[k - 1].1,
                );
            match heard {
                Heard::Value(value) => {
                    assert(cleans_at(stages, polls, k - 1, value));
                },
                _ => {},
            }
        }
    }
}

/// Poll `j` of a run brings the cleanup to its end.
pub open spec fn ends_at<'b, 'a, T, C: FnOnce(T) -> F, F: Future<Output = ()>>(
    stages: Seq<Stage<T, C, F>>,
    polls: Seq<(Baton<'b, 'a>, Baton<'b, 'a>)>,
    j: int,
) -> bool {
    stages[j] is Cleaning && polled(stages[j]->Cleaning_0, polls[j].0, None, polls[j].1)
}

/// Poll `j` of a run polls some future, and that future comes to its end.
pub open spec fn ends_at_once<'b, 'a, T, C: FnOnce(T) -> F, F: Future<Output = ()>>(
    stages: Seq<Stage<T, C, F>>,
    polls: Seq<(Baton<'b, 'a>, Baton<'b, 'a>)>,
    j: int,
) -> bool {
    exists|future: Pin<Box<F>>, next: Baton<'b, 'a>| #[trigger]
        polled(future, next, None, polls[j].1)
}

/// The cleanup that was called at poll `j` of a run has come to its end by stage `k`.
pub open spec fn has_ended<'b, 'a, T, C: FnOnce(T) -> F, F: Future<Output = ()>>(
    stages: Seq<Stage<T, C, F>>,
    polls: Seq<(Baton<'b, 'a>, Baton<'b, 'a>)>,
    j: int,
    k: int,
) -> bool {
    ||| stages[j + 1] is Done && ends_at_once(stages, polls, j)
    ||| exists|i: int| j < i < k && #[trigger] ends_at(stages, polls, i)
}

/// Poll `j` of a run calls the cleanup, on this value, and no other poll does.
pub open spec fn cleans_only_at<'b, 'a, T, C: FnOnce(T) -> F, F: Future<Output = ()>>(
    stages: Seq<Stage<T, C, F>>,
    polls: Seq<(Baton<'b, 'a>, Baton<'b, 'a>)>,
    j: int,
    value: T,
) -> bool {
    &&& cleans_at(stages, polls, j, value)
    &&& forall|i: int, other: T|
        0 <= i < polls.len() && #[trigger] cleans_at(stages, polls, i, other) ==> i == j && other
            == value
}

/// When a guard has been dropped, its value is cleaned up exactly once: where its task is over, the
/// cleanup was called once, on the value that the guard held, and has come to its end.
pub proof fn law_dropped_value_is_cleaned_up_exactly_once<'b, 'a, T, C, F>(
    stages: Seq<Stage<T, C, F>>,
    polls: Seq<(Baton<'b, 'a>, Baton<'b, 'a>)>,
    guard: DropLater<T>,
    rx: Pin<Box<Receiver<T>>>,
    cleanup: C,
    k: int,
) where C: FnOnce(T) -> F, F: Future<Output = ()>
    requires
        is_run(stages, polls),
        belongs(guard.dropper(), rx),
        guard.is_guarding(),
        guard.is_dropped(),
        stages[0] == Stage::<T, C, F>::Waiting(rx, Box::new(cleanup)),
        0 <= k < stages.len(),
        stages[k] is Done,
    ensures
        exists|j: int|
            {
                &&& 0 <= j < k
                &&& #[trigger] cleans_only_at(stages, polls, j, guard@)
                &&& has_ended(stages, polls, j, k)
            },
{
    law_drop_hands_the_value_over(guard);
    let result = choose|result: Result<(), T>| #[trigger]
        handed(guard.dropper(), guard@, result);
    law_handed_value_is_cleaned_up(stages, polls, guard, rx, cleanup, guard@, result, k);
    let j = choose|j: int| 0 <= j < k && #[trigger] cleans_at(stages, polls, j, guard@);
    assert forall|i: int, other: T|
        0 <= i < polls.len() && #[trigger] cleans_at(stages, polls, i, other) implies i == j
        && other == guard@ by {
        law_cleaned_up_at_most_once(stages, polls, j, guard@, i, other);
        law_cleans_up_what_the_guard_held(stages, polls, guard, rx, cleanup, i, other);
    }
    assert(cleans_only_at(stages, polls, j, guard@));
    if stages[j + 1] !is Done {
        law_cleanup_runs_to_its_end(stages, polls, j + 1, k);
    } else {
        let next = choose|next: Baton<'b, 'a>|
            {
                &&& #[trigger] hears(stages[j]->Waiting_0, polls[j].0, Heard::Value(guard@), next)
                &&& starts(*stages[j]->Waiting_1, guard@, next, stages[j + 1], polls[j].1)
            };
        let (future, pinned) = choose|future: F, pinned: Pin<Box<F>>|
            {
                &&& call_ensures(*stages[j]->Waiting_1, (guard@,), future)
                &&& #[trigger] pins(future, pinned)
                &&& cleans_on(pinned, next, stages[j + 1], polls[j].1)
            };
        assert(polled(pinned, next, None, polls[j].1));
    }
}

/// A cleanup that was started is driven to its end: a task that has stopped cleaning up is over,
/// and at some poll the cleanup came to its end.
pub proof fn law_cleanup_runs_to_its_end<'b, 'a, T, C: FnOnce(T) -> F, F: Future<Output = ()>>(
    stages: Seq<Stage<T, C, F>>,
    polls: Seq<(Baton<'b, 'a>, Baton<'b, 'a>)>,
    j: int,
    k: int,
)
    requires
        is_run(stages, polls),
        0 <= j < k < stages.len(),
        stages[j] is Cleaning,
        stages[k] !is Cleaning,
    ensures
        stages[k] is Done,
        exists|i: int| j <= i < k && #[trigger] ends_at(stages, polls, i),
    decreases k - j,
{
    law_task_never_goes_back(stages, polls, j, k);
    assert(moves_at(stages, polls, j));
    if stages[j + 1] is Cleaning {
        law_cleanup_runs_to_its_end(stages, polls, j + 1, k);
        let i = choose|i: int| j + 1 <= i < k && #[trigger] ends_at(stages, polls, i);
        assert(ends_at(stages, polls, i));
    } else {
        assert(ends_at(stages, polls, j));
    }
}

/// Between these batons a value was heard, the cleanup was called on it, and what it returned was
/// polled for the first time, with this rest.
pub open spec fn begins<'b, 'a, T, C: FnOnce(T) -> F, F: Future<Output = ()>>(
    rx: Pin<Box<Receiver<T>>>,
    cleanup: C,
    start: Baton<'b, 'a>,
    rest: Option<Pin<Box<F>>>,
    end: Baton<'b, 'a>,
) -> bool {
    exists|value: T, next: Baton<'b, 'a>, future: F, pinned: Pin<Box<F>>|
        {
            &&& #[trigger] hears(rx, start, Heard::Value(value), next)
            &&& call_ensures(cleanup, (value,), future)
            &&& #[trigger] pins(future, pinned)
            &&& polled(pinned, next, rest, end)
        }
}

/// A poll says that a task is over exactly if nothing is left of it: its channel was heard to be
/// closed, or the last poll of the cleanup said that the cleanup has come to its end. Otherwise the
/// poll went on to what the task now waits for, which answered that it is not ready yet and will
/// wake the task.
pub proof fn law_a_task_is_over_with_its_cleanup<'b, 'a, T, C, F>(
    before: Cleanup<T, C, F>,
    start: Baton<'b, 'a>,
    after: Cleanup<T, C, F>,
    end: Baton<'b, 'a>,
    done: bool,
) where C: FnOnce(T) -> F, F: Future<Output = ()>
    requires
        Cleanup::<T, C, F>::steps(before, start, after, end, done),
    ensures
        before.stage() matches Stage::Waiting(rx, cleanup) ==> if done {
            ||| hears(rx, start, Heard::Closed, end)
            ||| begins(rx, *cleanup, start, None::<Pin<Box<F>>>, end)
        } else {
            match after.stage() {
                Stage::Waiting(same, kept) => {
                    &&& hears(rx, start, Heard::Pending(same), end)
                    &&& same == rx
                    &&& kept == cleanup
                },
                Stage::Cleaning(rest) => begins(rx, *cleanup, start, Some(rest), end),
                Stage::Done => false,
            }
        },
        before.stage() matches Stage::Cleaning(future) ==> if done {
            polled(future, start, None, end)
        } else {
            after.stage() is Cleaning && polled(
                future,
                start,
                Some(after.stage()->Cleaning_0),
                end,
            )
        },
        before.stage() is Done ==> done && end == start,
        done ==> after.stage() is Done,
{
    if let Stage::Waiting(rx, cleanup) = before.stage() {
        let (heard, next) = choose|heard: Heard<T>, next: Baton<'b, 'a>| #[trigger]
            hears(rx, start, heard, next) && goes_on(*cleanup, heard, next, after.stage(), end);
        match heard {
            Heard::Pending(same) => {
                law_silence_changes_nothing(rx, start, same, next);
            },
            Heard::Value(value) => {
                let (future, pinned) = choose|future: F, pinned: Pin<Box<F>>|
                    {
                        &&& call_ensures(*cleanup, (value,), future)
                        &&& #[trigger] pins(future, pinned)
                        &&& cleans_on(pinned, next, after.stage(), end)
                    };
                assert(polled(pinned, next, rest_in(after.stage()), end));
                assert(begins(rx, *cleanup, start, rest_in(after.stage()), end));
            },
            Heard::Closed => {},
        }
    }
}

/// A poll that says that a task is over either heard that its channel is closed or saw a cleanup to
/// its end, unless the task was over before.
pub proof fn law_over_means_nothing_is_left<'b, 'a, T, C, F>(
    before: Cleanup<T, C, F>,
    start: Baton<'b, 'a>,
    after: Cleanup<T, C, F>,
    end: Baton<'b, 'a>,
    done: bool,
) where C: FnOnce(T) -> F, F: Future<Output = ()>
    requires
        Cleanup::<T, C, F>::steps(before, start, after, end, done),
        done,
        before.stage() !is Done,
    ensures
        ({
            ||| exists|rx: Pin<Box<Receiver<T>>>| #[trigger] hears(rx, start, Heard::Closed, end)
            ||| exists|future: Pin<Box<F>>, next: Baton<'b, 'a>| #[trigger]
                polled(future, next, None, end)
        }),
{
    law_a_task_is_over_with_its_cleanup(before, start, after, end, done);
    if let Stage::Waiting(rx, cleanup) = before.stage() {
        if !hears(rx, start, Heard::Closed, end) {
            let (value, next, future, pinned) = choose|
                value: T,
                next: Baton<'b, 'a>,
                future: F,
                pinned: Pin<Box<F>>,
            |
                {
                    &&& #[trigger] hears(rx, start, Heard::Value(value), next)
                    &&& call_ensures(*cleanup, (value,), future)
                    &&& #[trigger] pins(future, pinned)
                    &&& polled(pinned, next, None::<Pin<Box<F>>>, end)
                };
            assert(polled(pinned, next, None, end));
        }
    }
}

/// Wrapping a value gives a guard that holds it, and hands a task to the spawner that waits for what
/// that guard sends and has the given cleanup.
pub proof fn law_a_guard_comes_with_its_task<T, C, F, S>(
    value: T,
    cleanup: C,
    spawner: &S,
    guard: DropLater<T>,
) where
    T: Send + 'static,
    C: FnOnce(T) -> F + Send + 'static,
    F: Future<Output = ()> + Send + 'static,
    S: Spawner,

    requires
        call_ensures(later_with::<T, C, F, S>, (value, cleanup, spawner), guard),
    ensures
        guard@ == value,
        guard.is_guarding(),
        exists|rx: Pin<Box<Receiver<T>>>, task: DropTask<T, C, F>|
            {
                &&& #[trigger] belongs(guard.dropper(), rx)
                &&& task@.stage() == Stage::<T, C, F>::Waiting(rx, Box::new(cleanup))
                &&& #[trigger] call_ensures(S::spawn::<DropTask<T, C, F>>, (spawner, task), ())
            },
{
}

} // verus!
