//! The cleanup of containers, given the cleanup of what they hold.
use crate::__private::{join_all, JoinAll};
use crate::polling::{pin, pins, polled, run, Baton, Machine, Running};
use std::future::Future;
use std::pin::Pin;
use vstd::prelude::*;

verus! {

/// `pinned` is the cleanup of the value, put where it stays.
pub open spec fn cleans<T, C: Fn(T) -> F, F: Future<Output = ()>>(
    cleanup: C,
    value: T,
    pinned: Option<Pin<Box<F>>>,
) -> bool {
    exists|future: F|
        call_ensures(cleanup, (value,), future) && pinned is Some && #[trigger] pins(
            future,
            pinned->0,
        )
}

/// Cleans up the elements of a list at the same time.
pub fn clean_all<T, C: Fn(T) -> F, F: Future<Output = ()>>(values: Vec<T>, cleanup: C) -> (joined:
    JoinAll<F>)
    requires
        forall|value: T| call_requires(cleanup, (value,)),
    ensures
        joined@@.len() == values@.len(),
        forall|i: int|
            0 <= i < values@.len() ==> cleans(cleanup, values@[i], #[trigger] joined@@[i]),
{
    let mut futures: Vec<F> = Vec::new();
    for value in it: values
        invariant
            it.seq() == values@,
            forall|value: T| call_requires(cleanup, (value,)),
            futures@.len() == it.index(),
            forall|i: int|
                0 <= i < it.index() ==> call_ensures(
                    cleanup,
                    (values@[i],),
                    #[trigger] futures@[i],
                ),
    {
        futures.push(cleanup(value));
    }
    let ghost all = futures@;
    let joined = join_all(futures);
    assert forall|i: int| 0 <= i < values@.len() implies cleans(
        cleanup,
        values@[i],
        #[trigger] joined@@[i],
    ) by {
        assert(call_ensures(cleanup, (values@[i],), all[i]));
        assert(pins(all[i], joined@@[i]->0));
    }
    joined
}

/// Cleans up the value, if there is one.
pub fn clean_some<T, C: Fn(T) -> F, F: Future<Output = ()>>(
    value: Option<T>,
    cleanup: C,
) -> (joined: JoinAll<F>)
    requires
        forall|value: T| call_requires(cleanup, (value,)),
    ensures
        match value {
            Some(value) => joined@@.len() == 1 && cleans(cleanup, value, joined@@[0]),
            None => joined@@.len() == 0,
        },
{
    let mut values: Vec<T> = Vec::new();
    if let Some(value) = value {
        values.push(value);
    }
    clean_all(values, cleanup)
}

/// How far two futures have come that run one after the other.
#[verifier::reject_recursive_types(F)]
#[verifier::reject_recursive_types(C)]
#[verifier::reject_recursive_types(G)]
pub enum Turn<F, C, G> {
    /// The first is running; the second has not been made.
    First(Pin<Box<F>>, Box<C>),
    /// The second is running.
    Second(Pin<Box<G>>),
    /// Both have come to their end.
    Done,
}

/// What is left of the second future.
pub open spec fn rest_in<F, C, G>(turn: Turn<F, C, G>) -> Option<Pin<Box<G>>> {
    match turn {
        Turn::Second(future) => Some(future),
        _ => None,
    }
}

/// One poll of the second future leaves this: it goes on, or both are over with it.
pub open spec fn goes_on<'b, 'a, F, C, G: Future<Output = ()>>(
    future: Pin<Box<G>>,
    start: Baton<'b, 'a>,
    after: Turn<F, C, G>,
    end: Baton<'b, 'a>,
) -> bool {
    after !is First && polled(future, start, rest_in(after), end)
}

/// The second future is made, and one poll leaves this.
pub open spec fn takes_over<'b, 'a, F, C: FnOnce() -> G, G: Future<Output = ()>>(
    next: C,
    start: Baton<'b, 'a>,
    after: Turn<F, C, G>,
    end: Baton<'b, 'a>,
) -> bool {
    exists|future: G, pinned: Pin<Box<G>>|
        {
            &&& call_ensures(next, (), future)
            &&& #[trigger] pins(future, pinned)
            &&& goes_on(pinned, start, after, end)
        }
}

/// What one poll makes of two futures: the second is made when the first has come to its end, and
/// not before.
pub open spec fn turns<'b, 'a, F, C, G>(
    before: Turn<F, C, G>,
    start: Baton<'b, 'a>,
    after: Turn<F, C, G>,
    end: Baton<'b, 'a>,
) -> bool where F: Future<Output = ()>, C: FnOnce() -> G, G: Future<Output = ()> {
    match before {
        Turn::First(future, next) => exists|rest: Option<Pin<Box<F>>>, between: Baton<'b, 'a>|
            {
                &&& #[trigger] polled(future, start, rest, between)
                &&& match rest {
                    Some(future) => after == Turn::<F, C, G>::First(future, next) && end == between,
                    None => takes_over(*next, between, after, end),
                }
            },
        Turn::Second(future) => goes_on(future, start, after, end),
        Turn::Done => after is Done && end == start,
    }
}

/// Two futures that run one after the other.
#[verifier::reject_recursive_types(F)]
#[verifier::reject_recursive_types(C)]
#[verifier::reject_recursive_types(G)]
pub struct Sequence<F: Future<Output = ()>, C: FnOnce() -> G, G: Future<Output = ()>> {
    turn: Turn<F, C, G>,
}

/// Two futures that run one after the other, as one future.
pub type Then<F, C, G> = Running<Sequence<F, C, G>>;

impl<F: Future<Output = ()>, C: FnOnce() -> G, G: Future<Output = ()>> Sequence<F, C, G> {
    #[verifier::type_invariant]
    spec fn is_ready(self) -> bool {
        self.turn matches Turn::First(_, next) ==> call_requires(*next, ())
    }

    /// How far the futures have come.
    pub closed spec fn turn(self) -> Turn<F, C, G> {
        self.turn
    }
}

/// Polls the second future once.
fn run_second<'b, 'a, F: Future<Output = ()>, C: FnOnce() -> G, G: Future<Output = ()>>(
    future: Pin<Box<G>>,
    baton: Baton<'b, 'a>,
) -> (left: (Turn<F, C, G>, Baton<'b, 'a>))
    ensures
        goes_on(future, baton, left.0, left.1),
{
    let (rest, end) = run(future, baton);
    match rest {
        Some(future) => (Turn::Second(future), end),
        None => (Turn::Done, end),
    }
}

impl<F, C, G> Machine for Sequence<F, C, G> where
    F: Future<Output = ()>,
    C: FnOnce() -> G,
    G: Future<Output = ()>,
 {
    open spec fn steps<'b, 'a>(
        before: Self,
        start: Baton<'b, 'a>,
        after: Self,
        end: Baton<'b, 'a>,
        done: bool,
    ) -> bool {
        &&& turns(before.turn(), start, after.turn(), end)
        &&& done == (after.turn() is Done)
    }

    fn advance<'b, 'a>(&mut self, baton: Baton<'b, 'a>) -> (left: (bool, Baton<'b, 'a>)) {
        proof {
            use_type_invariant(&*self);
        }
        let mut turn: Turn<F, C, G> = Turn::Done;
        std::mem::swap(&mut turn, &mut self.turn);
        let (after, end) = match turn {
            Turn::First(future, next) => match run(future, baton) {
                (Some(future), end) => (Turn::First(future, next), end),
                (None, between) => {
                    let next: C = *next;
                    run_second(pin(next()), between)
                },
            },
            Turn::Second(future) => run_second(future, baton),
            Turn::Done => (Turn::Done, baton),
        };
        self.turn = after;
        match &self.turn {
            Turn::Done => (true, end),
            _ => (false, end),
        }
    }
}

/// Runs one future to its end, and then the one that `next` makes. The elements of a tuple are
/// cleaned up one after the other this way.
pub fn then_clean<F: Future<Output = ()>, C: FnOnce() -> G, G: Future<Output = ()>>(
    first: F,
    next: C,
) -> (both: Then<F, C, G>)
    requires
        call_requires(next, ()),
    ensures
        exists|pinned: Pin<Box<F>>| #[trigger]
            pins(first, pinned) && both@.turn() == Turn::<F, C, G>::First(pinned, Box::new(next)),
{
    Running::new(Sequence { turn: Turn::First(pin(first), Box::new(next)) })
}

/// Poll `j` of a run takes its turn to the next.
pub open spec fn turns_at<'b, 'a, F: Future<Output = ()>, C: FnOnce() -> G, G: Future<Output = ()>>(
    run: Seq<Turn<F, C, G>>,
    polls: Seq<(Baton<'b, 'a>, Baton<'b, 'a>)>,
    j: int,
) -> bool {
    turns(run[j], polls[j].0, run[j + 1], polls[j].1)
}

/// How far two futures have come over time, with a poll between any two points.
pub open spec fn is_run<'b, 'a, F: Future<Output = ()>, C: FnOnce() -> G, G: Future<Output = ()>>(
    run: Seq<Turn<F, C, G>>,
    polls: Seq<(Baton<'b, 'a>, Baton<'b, 'a>)>,
) -> bool {
    &&& run.len() == polls.len() + 1
    &&& forall|j: int| 0 <= j < polls.len() ==> #[trigger] turns_at(run, polls, j)
}

/// At poll `j` of a run the first future has come to its end.
pub open spec fn first_ends_at<'b, 'a, F, C, G>(
    run: Seq<Turn<F, C, G>>,
    polls: Seq<(Baton<'b, 'a>, Baton<'b, 'a>)>,
    j: int,
) -> bool where F: Future<Output = ()>, C: FnOnce() -> G, G: Future<Output = ()> {
    run[j] is First && exists|between: Baton<'b, 'a>| #[trigger]
        polled(run[j]->First_0, polls[j].0, None, between)
}

/// The second future does not run before the first has come to its end.
pub proof fn law_first_ends_first<'b, 'a, F, C, G>(
    run: Seq<Turn<F, C, G>>,
    polls: Seq<(Baton<'b, 'a>, Baton<'b, 'a>)>,
    k: int,
) where F: Future<Output = ()>, C: FnOnce() -> G, G: Future<Output = ()>
    requires
        is_run(run, polls),
        run[0] is First,
        0 <= k < run.len(),
        run[k] !is First,
    ensures
        exists|j: int| 0 <= j < k && #[trigger] first_ends_at(run, polls, j),
    decreases k,
{
    assert(turns_at(run, polls, k - 1));
    if run[k - 1] is First {
        assert(first_ends_at(run, polls, k - 1));
    } else {
        law_first_ends_first(run, polls, k - 1);
    }
}

/// Between these batons the second future was made and polled for the first time, with this rest.
pub open spec fn second_begins<'b, 'a, C: FnOnce() -> G, G: Future<Output = ()>>(
    next: C,
    start: Baton<'b, 'a>,
    rest: Option<Pin<Box<G>>>,
    end: Baton<'b, 'a>,
) -> bool {
    exists|future: G, pinned: Pin<Box<G>>|
        {
            &&& call_ensures(next, (), future)
            &&& #[trigger] pins(future, pinned)
            &&& polled(pinned, start, rest, end)
        }
}

/// A poll says that two futures are over exactly if the second has come to its end, at this poll or
/// before. Otherwise the poll went on to the one whose turn it is, which answered that it is not
/// ready yet: the first, or the second once the first has come to its end.
pub proof fn law_over_with_the_second<'b, 'a, F, C, G>(
    before: Sequence<F, C, G>,
    start: Baton<'b, 'a>,
    after: Sequence<F, C, G>,
    end: Baton<'b, 'a>,
    done: bool,
) where F: Future<Output = ()>, C: FnOnce() -> G, G: Future<Output = ()>
    requires
        Sequence::<F, C, G>::steps(before, start, after, end, done),
    ensures
        before.turn() matches Turn::First(future, next) ==> if done {
            exists|between: Baton<'b, 'a>| #[trigger]
                polled(future, start, None, between) && second_begins(
                    *next,
                    between,
                    None::<Pin<Box<G>>>,
                    end,
                )
        } else {
            match after.turn() {
                Turn::First(rest, kept) => polled(future, start, Some(rest), end) && kept == next,
                Turn::Second(rest) => exists|between: Baton<'b, 'a>| #[trigger]
                    polled(future, start, None, between) && second_begins(
                        *next,
                        between,
                        Some(rest),
                        end,
                    ),
                Turn::Done => false,
            }
        },
        before.turn() matches Turn::Second(future) ==> if done {
            polled(future, start, None, end)
        } else {
            after.turn() is Second && polled(future, start, Some(after.turn()->Second_0), end)
        },
        before.turn() is Done ==> done && end == start,
        done ==> after.turn() is Done,
{
    if let Turn::First(future, next) = before.turn() {
        let (rest, between) = choose|rest: Option<Pin<Box<F>>>, between: Baton<'b, 'a>|
            {
                &&& #[trigger] polled(future, start, rest, between)
                &&& match rest {
                    Some(future) => after.turn() == Turn::<F, C, G>::First(future, next) && end
                        == between,
                    None => takes_over(*next, between, after.turn(), end),
                }
            };
        if rest is None {
            let (second, pinned) = choose|second: G, pinned: Pin<Box<G>>|
                {
                    &&& call_ensures(*next, (), second)
                    &&& #[trigger] pins(second, pinned)
                    &&& goes_on(pinned, between, after.turn(), end)
                };
            assert(polled(pinned, between, rest_in(after.turn()), end));
            assert(second_begins(*next, between, rest_in(after.turn()), end));
        }
    }
}

/// At poll `j` of a run some future of the second kind has come to its end.
pub open spec fn second_ends_at<'b, 'a, F, C, G>(
    run: Seq<Turn<F, C, G>>,
    polls: Seq<(Baton<'b, 'a>, Baton<'b, 'a>)>,
    j: int,
) -> bool where F: Future<Output = ()>, C: FnOnce() -> G, G: Future<Output = ()> {
    exists|future: Pin<Box<G>>, next: Baton<'b, 'a>| #[trigger]
        polled(future, next, None, polls[j].1)
}

/// Two futures are over only when both have come to their end, the first not after the second.
pub proof fn law_both_come_to_their_end<'b, 'a, F, C, G>(
    run: Seq<Turn<F, C, G>>,
    polls: Seq<(Baton<'b, 'a>, Baton<'b, 'a>)>,
    k: int,
) where F: Future<Output = ()>, C: FnOnce() -> G, G: Future<Output = ()>
    requires
        is_run(run, polls),
        run[0] is First,
        0 <= k < run.len(),
        run[k] is Done,
    ensures
        exists|i: int, j: int|
            0 <= i <= j < k && #[trigger] first_ends_at(run, polls, i) && #[trigger] second_ends_at(
                run,
                polls,
                j,
            ),
    decreases k,
{
    let j = k - 1;
    assert(turns_at(run, polls, j));
    match run[j] {
        Turn::First(future, next) => {
            let (rest, between) = choose|rest: Option<Pin<Box<F>>>, between: Baton<'b, 'a>|
                {
                    &&& #[trigger] polled(future, polls[j].0, rest, between)
                    &&& match rest {
                        Some(future) => run[k] == Turn::<F, C, G>::First(future, next)
                            && polls[j].1 == between,
                        None => takes_over(*next, between, run[k], polls[j].1),
                    }
                };
            let (second, pinned) = choose|second: G, pinned: Pin<Box<G>>|
                {
                    &&& call_ensures(*next, (), second)
                    &&& #[trigger] pins(second, pinned)
                    &&& goes_on(pinned, between, run[k], polls[j].1)
                };
            assert(polled(pinned, between, None, polls[j].1));
            assert(first_ends_at(run, polls, j));
            assert(second_ends_at(run, polls, j));
        },
        Turn::Second(future) => {
            law_first_ends_first(run, polls, j);
            let i = choose|i: int| 0 <= i < j && #[trigger] first_ends_at(run, polls, i);
            assert(polled(future, polls[j].0, None, polls[j].1));
            assert(first_ends_at(run, polls, i));
            assert(second_ends_at(run, polls, j));
        },
        Turn::Done => {
            law_both_come_to_their_end(run, polls, j);
            let (i, m) = choose|i: int, m: int|
                0 <= i <= m < j && #[trigger] first_ends_at(run, polls, i)
                    && #[trigger] second_ends_at(run, polls, m);
            assert(first_ends_at(run, polls, i) && second_ends_at(run, polls, m));
        },
    }
}

/// Cleaning up a list calls the cleanup on every element, and every future that comes of it is among
/// those that run at the same time, in the order of the elements.
pub proof fn law_every_element_is_cleaned_up<T, C: Fn(T) -> F, F: Future<Output = ()>>(
    values: Vec<T>,
    cleanup: C,
    joined: JoinAll<F>,
    i: int,
)
    requires
        call_ensures(clean_all::<T, C, F>, (values, cleanup), joined),
        0 <= i < values@.len(),
    ensures
        joined@@.len() == values@.len(),
        joined@@[i] is Some,
        exists|future: F|
            call_ensures(cleanup, (values@[i],), future) && #[trigger] pins(future, joined@@[i]->0),
{
    assert(cleans(cleanup, values@[i], joined@@[i]));
}

/// Cleaning up an option calls the cleanup on the value, if there is one, and waits for that future
/// alone; without a value there is nothing to wait for.
pub proof fn law_the_value_of_an_option_is_cleaned_up<T, C: Fn(T) -> F, F: Future<Output = ()>>(
    value: Option<T>,
    cleanup: C,
    joined: JoinAll<F>,
)
    requires
        call_ensures(clean_some::<T, C, F>, (value, cleanup), joined),
    ensures
        joined@@.len() == (if value is Some {
            1nat
        } else {
            0nat
        }),
        value is Some ==> joined@@[0] is Some && exists|future: F|
            call_ensures(cleanup, (value->0,), future) && #[trigger] pins(future, joined@@[0]->0),
{
}

} // verus!
