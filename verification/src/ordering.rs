//! Order between the cleanup of several values.
//!
//! [`setup`] makes a pair of a [`DropWait`] and a [`DropTrigger`]. A value that has to outlive
//! others holds the `DropWait` and waits on it in its cleanup. The others hold the `DropTrigger` or
//! clones of it; once all of them are dropped, the wait is over.
use crate::channel::{
    double, doubled, gone, hears, is_end, is_line, law_clone_leads_to_the_same_channel,
    law_what_is_heard_tells, leads_to, leave, listen, shared_channel, Heard, Shared,
};
use crate::polling::{Baton, Machine, Running};
use async_channel::{Receiver, Sender};
use std::fmt::{Debug, Formatter};
use std::pin::Pin;
use vstd::prelude::*;

verus! {

/// Waits until every [`DropTrigger`] that belongs to it has been dropped.
#[derive(Debug)]
pub struct DropWait(Pin<Box<Receiver<()>>>);

/// The standard library's way to write a value out.
#[verifier::external_type_specification]
#[verifier::external_body]
pub struct ExFormatter<'a>(Formatter<'a>);

/// The standard library's error of writing a value out.
#[verifier::external_type_specification]
#[verifier::external_body]
pub struct ExFmtError(std::fmt::Error);

/// `Debug::fmt` of a `Sender` writes it out. What it writes is left unsaid.
#[verifier::external_body]
fn show(tx: &Sender<()>, f: &mut Formatter<'_>) -> (result: Result<(), std::fmt::Error>) {
    tx.fmt(f)
}

/// A sending end, until it is dropped.
struct Closer(Option<Sender<()>>);

impl Debug for Closer {
    fn fmt(&self, f: &mut Formatter<'_>) -> Result<(), std::fmt::Error> {
        match &self.0 {
            Some(tx) => show(tx, f),
            None => Ok(()),
        }
    }
}

impl Closer {
    /// The sending end, if it was still there, is gone.
    pub closed spec fn is_gone(self) -> bool {
        self.0 is Some ==> gone(self.0->0)
    }
}

impl Drop for Closer {
    fn drop(&mut self)
        ensures
            old(self).is_gone(),
        opens_invariants none
        no_unwind
    {
        let mut tx: Option<Sender<()>> = None;
        std::mem::swap(&mut tx, &mut self.0);
        match tx {
            Some(tx) => leave(tx),
            None => {},
        }
    }
}

/// Held by a value that is to be cleaned up first. Once all clones are dropped, the [`DropWait`]
/// that belongs to it is over.
#[derive(Debug)]
pub struct DropTrigger {
    /// Held for its end alone: with the last clone the channel closes.
    _closer: Closer,
}

impl DropWait {
    #[verifier::type_invariant]
    spec fn is_set_up(self) -> bool {
        is_end::<(), Shared>(self.0)
    }

    /// Where the end of the triggers is heard.
    pub closed spec fn receiver(self) -> Pin<Box<Receiver<()>>> {
        self.0
    }
}

impl DropTrigger {
    #[verifier::type_invariant]
    spec fn is_full(self) -> bool {
        self._closer.0 is Some
    }

    /// The trigger holds its end. Every trigger does until it is dropped.
    pub closed spec fn is_held(self) -> bool {
        self.is_full()
    }

    /// What is closed with the last clone.
    pub closed spec fn closer(self) -> Sender<()> {
        self._closer.0->0
    }

    /// The trigger has been dropped: what [`Drop`] ensures of it.
    pub closed spec fn is_dropped(self) -> bool {
        self._closer.is_gone()
    }
}

/// The trigger belongs to the wait that listens here: it was set up with it, or is a clone of one
/// that was, or a clone of a clone, and so on.
pub open spec fn triggers(trigger: DropTrigger, receiver: Pin<Box<Receiver<()>>>) -> bool {
    leads_to(trigger.closer(), receiver)
}

impl Clone for DropTrigger {
    fn clone(&self) -> (copy: Self)
        ensures
            copy.is_held(),
            doubled(self.closer(), copy.closer()),
            forall|receiver: Pin<Box<Receiver<()>>>|
                triggers(*self, receiver) ==> #[trigger] triggers(copy, receiver),
    {
        proof {
            use_type_invariant(self);
        }
        let tx = double(self._closer.0.as_ref().unwrap());
        let copy = DropTrigger { _closer: Closer(Some(tx)) };
        proof {
            assert forall|receiver: Pin<Box<Receiver<()>>>| triggers(*self, receiver) implies
                #[trigger] triggers(copy, receiver) by {
                law_clone_leads_to_the_same_channel(self.closer(), copy.closer(), receiver);
            }
        }
        copy
    }
}

/// Makes a pair that belongs together.
pub fn setup() -> (pair: (DropWait, DropTrigger))
    ensures
        pair.1.is_held(),
        triggers(pair.1, pair.0.receiver()),
{
    let (tx, rx) = shared_channel();
    (DropWait(rx), DropTrigger { _closer: Closer(Some(tx)) })
}

/// A wait: where it listens, as long as it is not over.
pub struct Waiting {
    receiver: Option<Pin<Box<Receiver<()>>>>,
}

/// A wait, as a future.
pub type Wait = Running<Waiting>;

/// What the news from the channel make of a wait: only silence keeps it going.
pub open spec fn waits_on(heard: Heard<()>) -> Option<Pin<Box<Receiver<()>>>> {
    match heard {
        Heard::Pending(receiver) => Some(receiver),
        Heard::Value(_) => None,
        Heard::Closed => None,
    }
}

/// Decides what the news from the channel make of a wait.
pub fn on_heard(heard: Heard<()>) -> (after: Option<Pin<Box<Receiver<()>>>>)
    ensures
        after == waits_on(heard),
{
    match heard {
        Heard::Pending(receiver) => Some(receiver),
        Heard::Value(_) => None,
        Heard::Closed => None,
    }
}

impl Waiting {
    #[verifier::type_invariant]
    spec fn is_set_up(self) -> bool {
        self.receiver matches Some(receiver) ==> is_end::<(), Shared>(receiver)
    }

    /// Where the wait listens, as long as it is not over.
    pub closed spec fn view(&self) -> Option<Pin<Box<Receiver<()>>>> {
        self.receiver
    }
}

impl Machine for Waiting {
    open spec fn steps<'b, 'a>(
        before: Self,
        start: Baton<'b, 'a>,
        after: Self,
        end: Baton<'b, 'a>,
        done: bool,
    ) -> bool {
        &&& match before@ {
            Some(receiver) => exists|heard: Heard<()>| #[trigger]
                hears(receiver, start, heard, end) && after@ == waits_on(heard),
            None => after@ is None && end == start,
        }
        &&& done == (after@ is None)
    }

    fn advance<'b, 'a>(&mut self, baton: Baton<'b, 'a>) -> (left: (bool, Baton<'b, 'a>)) {
        proof {
            use_type_invariant(&*self);
        }
        let mut receiver: Option<Pin<Box<Receiver<()>>>> = None;
        std::mem::swap(&mut receiver, &mut self.receiver);
        match receiver {
            Some(receiver) => {
                let (heard, end) = listen(receiver, baton);
                self.receiver = on_heard(heard);
                (self.receiver.is_none(), end)
            },
            None => (true, baton),
        }
    }
}

impl DropWait {
    /// A future that ends once every trigger that belongs to this is dropped.
    pub fn wait(self) -> (wait: Wait)
        ensures
            wait@@ == Some(self.receiver()),
    {
        proof {
            use_type_invariant(&self);
        }
        Running::new(Waiting { receiver: Some(self.0) })
    }
}

/// A wait goes on in silence, at the same end of the channel, and is over once the channel is
/// closed. Nothing else ends the wait of a pair.
pub proof fn law_only_the_close_ends_a_wait<'b, 'a>(
    before: Waiting,
    start: Baton<'b, 'a>,
    after: Waiting,
    end: Baton<'b, 'a>,
    done: bool,
    trigger: DropTrigger,
)
    requires
        before@ is Some,
        triggers(trigger, before@->0),
        Waiting::steps(before, start, after, end, done),
    ensures
        !done ==> after@ == before@ && hears(
            before@->0,
            start,
            Heard::Pending(before@->0),
            end,
        ),
        done ==> after@ is None && hears(before@->0, start, Heard::Closed, end),
{
    let receiver = before@->0;
    let heard = choose|heard: Heard<()>| #[trigger]
        hears(receiver, start, heard, end) && after@ == waits_on(heard);
    law_what_is_heard_tells(receiver, start, heard, end);
    let line = choose|line: Seq<Sender<()>>| #[trigger]
        is_line(line, receiver) && line.last() == trigger.closer();
    assert(is_end::<(), Shared>(receiver));
}

/// A wait that is over stays over.
pub proof fn law_a_wait_ends_once<'b, 'a>(
    before: Waiting,
    start: Baton<'b, 'a>,
    after: Waiting,
    end: Baton<'b, 'a>,
    done: bool,
)
    requires
        before@ is None,
        Waiting::steps(before, start, after, end, done),
    ensures
        done,
        after@ is None,
{
}

/// Poll `j` of a wait takes it from one state to the next.
pub open spec fn waits_at<'b, 'a>(
    states: Seq<Waiting>,
    polls: Seq<(Baton<'b, 'a>, Baton<'b, 'a>)>,
    j: int,
) -> bool {
    Waiting::steps(states[j], polls[j].0, states[j + 1], polls[j].1, states[j + 1]@ is None)
}

/// The states of a wait from its start on, with a poll between any two of them.
pub open spec fn is_wait<'b, 'a>(
    states: Seq<Waiting>,
    polls: Seq<(Baton<'b, 'a>, Baton<'b, 'a>)>,
) -> bool {
    &&& states.len() == polls.len() + 1
    &&& forall|j: int| 0 <= j < polls.len() ==> #[trigger] waits_at(states, polls, j)
}

/// As long as a wait goes on, it listens at the same end of the channel.
pub proof fn law_a_wait_stays_where_it_is<'b, 'a>(
    states: Seq<Waiting>,
    polls: Seq<(Baton<'b, 'a>, Baton<'b, 'a>)>,
    receiver: Pin<Box<Receiver<()>>>,
    trigger: DropTrigger,
    k: int,
)
    requires
        is_wait(states, polls),
        states[0]@ == Some(receiver),
        triggers(trigger, receiver),
        0 <= k < states.len(),
        states[k]@ is Some,
    ensures
        states[k]@ == Some(receiver),
    decreases k,
{
    if k > 0 {
        assert(waits_at(states, polls, k - 1));
        if states[k - 1]@ is Some {
            law_a_wait_stays_where_it_is(states, polls, receiver, trigger, k - 1);
            law_only_the_close_ends_a_wait(
                states[k - 1],
                polls[k - 1].0,
                states[k],
                polls[k - 1].1,
                false,
                trigger,
            );
        }
    }
}

/// A wait is over only once every trigger that belongs to it is dropped: the one that it was set up
/// with and all clones of it, and their clones. What has become of the triggers of other waits is of
/// no account.
pub proof fn law_a_wait_is_over_after_every_trigger<'b, 'a>(
    wait: Wait,
    states: Seq<Waiting>,
    polls: Seq<(Baton<'b, 'a>, Baton<'b, 'a>)>,
    receiver: Pin<Box<Receiver<()>>>,
    trigger: DropTrigger,
    k: int,
)
    requires
        is_wait(states, polls),
        wait@@ == Some(receiver),
        states[0] == wait@,
        triggers(trigger, receiver),
        0 <= k < states.len(),
        states[k]@ is None,
    ensures
        gone(trigger.closer()),
        trigger.is_dropped(),
    decreases k,
{
    assert(waits_at(states, polls, k - 1));
    if states[k - 1]@ is None {
        law_a_wait_is_over_after_every_trigger(wait, states, polls, receiver, trigger, k - 1);
    } else {
        law_a_wait_stays_where_it_is(states, polls, receiver, trigger, k - 1);
        law_only_the_close_ends_a_wait(
            states[k - 1],
            polls[k - 1].0,
            states[k],
            polls[k - 1].1,
            true,
            trigger,
        );
        law_what_is_heard_tells(receiver, polls[k - 1].0, Heard::Closed, polls[k - 1].1);
    }
}

/// Dropping a trigger drops its end of the channel.
pub proof fn law_drop_takes_the_end_away(trigger: DropTrigger)
    requires
        trigger.is_held(),
        trigger.is_dropped(),
    ensures
        gone(trigger.closer()),
{
}

} // verus!
