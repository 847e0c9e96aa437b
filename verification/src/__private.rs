//! Helpers for generated code, on any executor. Not meant to be used directly.
use crate::polling::{pin, pins, polled, run, Baton, Machine, Running};
use std::future::Future;
use std::pin::Pin;
use vstd::prelude::*;

verus! {

/// Futures that run at the same time; of one that has come to its end nothing is left.
#[verifier::reject_recursive_types(F)]
pub struct Slots<F: Future<Output = ()>> {
    slots: Vec<Option<Pin<Box<F>>>>,
}

/// Futures that run at the same time, as one future.
pub type JoinAll<F> = Running<Slots<F>>;

/// What one poll leaves in a slot: nothing comes back of a future that has ended, and a future that
/// has not ended is polled.
pub open spec fn slot_moves<'b, 'a, F: Future<Output = ()>>(
    before: Option<Pin<Box<F>>>,
    start: Baton<'b, 'a>,
    after: Option<Pin<Box<F>>>,
    end: Baton<'b, 'a>,
) -> bool {
    match before {
        Some(future) => polled(future, start, after, end),
        None => after is None && end == start,
    }
}

/// Every future has come to its end.
pub open spec fn all_ended<F>(slots: Seq<Option<Pin<Box<F>>>>) -> bool {
    forall|i: int| 0 <= i < slots.len() ==> (#[trigger] slots[i]) is None
}

/// Slot `i` has its turn, between two batons.
pub open spec fn takes_its_turn<'b, 'a, F: Future<Output = ()>>(
    before: Seq<Option<Pin<Box<F>>>>,
    after: Seq<Option<Pin<Box<F>>>>,
    batons: Seq<Baton<'b, 'a>>,
    i: int,
) -> bool {
    slot_moves(before[i], batons[i], after[i], batons[i + 1])
}

/// The first slots have had their turns, once each and in order: each got the baton from the one
/// before it.
pub open spec fn in_order<'b, 'a, F: Future<Output = ()>>(
    before: Seq<Option<Pin<Box<F>>>>,
    after: Seq<Option<Pin<Box<F>>>>,
    batons: Seq<Baton<'b, 'a>>,
) -> bool {
    &&& 0 < batons.len() <= before.len() + 1
    &&& after.len() == before.len()
    &&& forall|i: int|
        0 <= i < batons.len() - 1 ==> #[trigger] takes_its_turn(before, after, batons, i)
}

/// What one poll leaves in the slots. Every slot has its turn, once and in order.
pub open spec fn slots_move<'b, 'a, F: Future<Output = ()>>(
    before: Seq<Option<Pin<Box<F>>>>,
    start: Baton<'b, 'a>,
    after: Seq<Option<Pin<Box<F>>>>,
    end: Baton<'b, 'a>,
) -> bool {
    exists|batons: Seq<Baton<'b, 'a>>|
        {
            &&& #[trigger] in_order(before, after, batons)
            &&& batons.len() == before.len() + 1
            &&& batons[0] == start
            &&& batons.last() == end
        }
}

impl<F: Future<Output = ()>> Slots<F> {
    /// What is left of each future.
    pub closed spec fn view(&self) -> Seq<Option<Pin<Box<F>>>> {
        self.slots@
    }
}

impl<F: Future<Output = ()>> Machine for Slots<F> {
    open spec fn steps<'b, 'a>(
        before: Self,
        start: Baton<'b, 'a>,
        after: Self,
        end: Baton<'b, 'a>,
        done: bool,
    ) -> bool {
        &&& slots_move(before@, start, after@, end)
        &&& done == all_ended(after@)
    }

    fn advance<'b, 'a>(&mut self, baton: Baton<'b, 'a>) -> (left: (bool, Baton<'b, 'a>)) {
        let ghost before = self.slots@;
        let ghost mut batons: Seq<Baton<'b, 'a>> = seq![baton];
        let ghost first = baton;
        let mut current = baton;
        let mut all_done = true;
        let mut i: usize = 0;
        while i < self.slots.len()
            invariant
                i <= self.slots@.len(),
                self.slots@.len() == before.len(),
                forall|j: int| i <= j < before.len() ==> (#[trigger] self.slots@[j]) == before[j],
                batons.len() == i + 1,
                batons[0] == first,
                batons.last() == current,
                in_order(before, self.slots@, batons),
                all_done == (forall|j: int| 0 <= j < i ==> (#[trigger] self.slots@[j]) is None),
            decreases self.slots@.len() - i,
        {
            let ghost start = self.slots@;
            let ghost given = current;
            let ghost ended = all_done;
            let mut slot: Option<Pin<Box<F>>> = None;
            std::mem::swap(&mut slot, &mut self.slots[i]);
            if let Some(future) = slot {
                let (rest, next) = run(future, current);
                if rest.is_some() {
                    all_done = false;
                }
                self.slots.set(i, rest);
                current = next;
            }
            proof {
                let passed = batons.push(current);
                assert(forall|j: int|
                    0 <= j < start.len() && j != i ==> (#[trigger] self.slots@[j]) == start[j]);
                assert forall|j: int| 0 <= j < passed.len() - 1 implies #[trigger] takes_its_turn(
                    before,
                    self.slots@,
                    passed,
                    j,
                ) by {
                    if j < i {
                        assert(takes_its_turn(before, start, batons, j));
                    } else {
                        assert(slot_moves(before[j], given, self.slots@[j], current));
                    }
                }
                batons = passed;
                assert(all_done == (ended && self.slots@[i as int] is None));
                if !ended {
                    let j = choose|j: int| 0 <= j < i && !((#[trigger] start[j]) is None);
                    assert(self.slots@[j] == start[j]);
                }
            }
            i += 1;
        }
        (all_done, current)
    }
}

/// Runs futures at the same time, until each has come to its end. A derive cleans up fields that do
/// not wait for each other this way.
pub fn join_all<F: Future<Output = ()>>(futs: Vec<F>) -> (joined: JoinAll<F>)
    ensures
        joined@@.len() == futs@.len(),
        forall|i: int|
            0 <= i < futs@.len() ==> (#[trigger] joined@@[i]) is Some && pins(
                futs@[i],
                joined@@[i]->0,
            ),
{
    let mut slots: Vec<Option<Pin<Box<F>>>> = Vec::new();
    for future in it: futs
        invariant
            it.seq() == futs@,
            slots@.len() == it.index(),
            forall|i: int|
                0 <= i < it.index() ==> (#[trigger] slots@[i]) is Some && pins(
                    futs@[i],
                    slots@[i]->0,
                ),
    {
        slots.push(Some(pin(future)));
    }
    Running::new(Slots { slots })
}

/// Poll `j` of a run takes the slots to the next.
pub open spec fn slots_move_at<'b, 'a, F: Future<Output = ()>>(
    slots: Seq<Seq<Option<Pin<Box<F>>>>>,
    polls: Seq<(Baton<'b, 'a>, Baton<'b, 'a>)>,
    j: int,
) -> bool {
    slots_move(slots[j], polls[j].0, slots[j + 1], polls[j].1)
}

/// What is left of the futures over time, with a poll between any two points.
pub open spec fn is_run<'b, 'a, F: Future<Output = ()>>(
    slots: Seq<Seq<Option<Pin<Box<F>>>>>,
    polls: Seq<(Baton<'b, 'a>, Baton<'b, 'a>)>,
) -> bool {
    &&& slots.len() == polls.len() + 1
    &&& forall|j: int| 0 <= j < polls.len() ==> #[trigger] slots_move_at(slots, polls, j)
}

/// The batons that were passed in poll `j` of a run.
spec fn batons_at<'b, 'a, F: Future<Output = ()>>(
    slots: Seq<Seq<Option<Pin<Box<F>>>>>,
    polls: Seq<(Baton<'b, 'a>, Baton<'b, 'a>)>,
    j: int,
) -> Seq<Baton<'b, 'a>> {
    choose|batons: Seq<Baton<'b, 'a>>|
        {
            &&& #[trigger] in_order(slots[j], slots[j + 1], batons)
            &&& batons.len() == slots[j].len() + 1
            &&& batons[0] == polls[j].0
            &&& batons.last() == polls[j].1
        }
}

/// A future that has come to its end is not polled again, and none is added or lost.
pub proof fn law_ended_stays_ended<'b, 'a, F: Future<Output = ()>>(
    slots: Seq<Seq<Option<Pin<Box<F>>>>>,
    polls: Seq<(Baton<'b, 'a>, Baton<'b, 'a>)>,
    i: int,
    j: int,
    k: int,
)
    requires
        is_run(slots, polls),
        0 <= j <= k < slots.len(),
        0 <= i < slots[j].len(),
    ensures
        slots[k].len() == slots[j].len(),
        slots[j][i] is None ==> slots[k][i] is None,
    decreases k - j,
{
    if j < k {
        law_ended_stays_ended(slots, polls, i, j, k - 1);
        assert(slots_move_at(slots, polls, k - 1));
        let batons = batons_at(slots, polls, k - 1);
        assert(in_order(slots[k - 1], slots[k], batons));
        assert(takes_its_turn(slots[k - 1], slots[k], batons, i));
    }
}

/// No future holds up another: at every poll each future that has not ended is polled, once and in
/// the order of the list, and gets the context from the one before it.
pub proof fn law_each_is_polled_in_order<'b, 'a, F: Future<Output = ()>>(
    slots: Seq<Seq<Option<Pin<Box<F>>>>>,
    polls: Seq<(Baton<'b, 'a>, Baton<'b, 'a>)>,
    j: int,
) -> (batons: Seq<Baton<'b, 'a>>)
    requires
        is_run(slots, polls),
        0 <= j < polls.len(),
    ensures
        batons.len() == slots[j].len() + 1,
        batons[0] == polls[j].0,
        batons.last() == polls[j].1,
        forall|i: int|
            0 <= i < slots[j].len() ==> match #[trigger] slots[j][i] {
                Some(future) => polled(future, batons[i], slots[j + 1][i], batons[i + 1]),
                None => batons[i + 1] == batons[i],
            },
{
    assert(slots_move_at(slots, polls, j));
    let batons = batons_at(slots, polls, j);
    assert(in_order(slots[j], slots[j + 1], batons));
    assert forall|i: int| 0 <= i < slots[j].len() implies match #[trigger] slots[j][i] {
        Some(future) => polled(future, batons[i], slots[j + 1][i], batons[i + 1]),
        None => batons[i + 1] == batons[i],
    } by {
        assert(takes_its_turn(slots[j], slots[j + 1], batons, i));
    }
    batons
}

/// A poll says that futures that run at the same time are over exactly if nothing is left of any of
/// them. Each that was left before was polled, once and in order; the last of the polls handed the
/// context on to whoever polled them all.
pub proof fn law_over_with_the_last<'b, 'a, F: Future<Output = ()>>(
    before: Slots<F>,
    start: Baton<'b, 'a>,
    after: Slots<F>,
    end: Baton<'b, 'a>,
    done: bool,
) -> (batons: Seq<Baton<'b, 'a>>)
    requires
        Slots::<F>::steps(before, start, after, end, done),
    ensures
        done <==> forall|i: int| 0 <= i < before@.len() ==> (#[trigger] after@[i]) is None,
        after@.len() == before@.len(),
        batons.len() == before@.len() + 1,
        batons[0] == start,
        batons.last() == end,
        forall|i: int|
            0 <= i < before@.len() ==> match #[trigger] before@[i] {
                Some(future) => polled(future, batons[i], after@[i], batons[i + 1]),
                None => after@[i] is None && batons[i + 1] == batons[i],
            },
{
    let batons = choose|batons: Seq<Baton<'b, 'a>>|
        {
            &&& #[trigger] in_order(before@, after@, batons)
            &&& batons.len() == before@.len() + 1
            &&& batons[0] == start
            &&& batons.last() == end
        };
    assert forall|i: int| 0 <= i < before@.len() implies match #[trigger] before@[i] {
        Some(future) => polled(future, batons[i], after@[i], batons[i + 1]),
        None => after@[i] is None && batons[i + 1] == batons[i],
    } by {
        assert(takes_its_turn(before@, after@, batons, i));
    }
    batons
}

/// Every future that is joined is run: it is put where it stays, in the place that it has in the
/// list, and nothing else is.
pub proof fn law_every_future_is_joined<F: Future<Output = ()>>(
    futs: Vec<F>,
    joined: JoinAll<F>,
    i: int,
)
    requires
        call_ensures(join_all::<F>, (futs,), joined),
        0 <= i < joined@@.len(),
    ensures
        joined@@.len() == futs@.len(),
        joined@@[i] is Some,
        pins(futs@[i], joined@@[i]->0),
{
}

} // verus!
