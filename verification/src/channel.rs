//! The channel between a guard and the task that cleans up its value.
use crate::polling::Baton;
use async_channel::{Receiver, Sender};
use std::pin::Pin;
use std::task::Poll;
use vstd::prelude::*;

verus! {

/// The sending end of a channel of the `async_channel` crate.
#[verifier::external_type_specification]
#[verifier::external_body]
#[verifier::reject_recursive_types(T)]
pub struct ExSender<T>(Sender<T>);

/// The receiving end of a channel of the `async_channel` crate.
#[verifier::external_type_specification]
#[verifier::external_body]
#[verifier::reject_recursive_types(T)]
pub struct ExReceiver<T>(Receiver<T>);

/// Marks a channel with one sending end, which hands over one message at most.
pub struct Sole;

/// Marks a channel whose sending ends hand over nothing. There may be any number of them.
pub struct Shared;

/// `async_channel::bounded` makes a channel for `capacity` messages and hands out its two ends; it
/// panics where there is room for none. The receiving end is pinned for [`poll_recv`]. The mark says
/// what the channel is for.
#[verifier::external_body]
fn bounded<T, K>(capacity: usize) -> (ends: (Sender<T>, Pin<Box<Receiver<T>>>))
    requires
        capacity > 0,
{
    let (tx, rx) = async_channel::bounded(capacity);
    (tx, Box::pin(rx))
}

/// The two ends are those of one channel with this mark, made with room for one message.
pub closed spec fn linked<T, K>(tx: Sender<T>, rx: Pin<Box<Receiver<T>>>) -> bool {
    call_ensures(bounded::<T, K>, (1usize,), (tx, rx))
}

/// The receiving end is that of a channel with this mark, made here.
pub open spec fn is_end<T, K>(rx: Pin<Box<Receiver<T>>>) -> bool {
    exists|tx: Sender<T>| #[trigger] linked::<T, K>(tx, rx)
}

/// The only sending end of a channel. It cannot be doubled, and it is used up when it sends or when
/// it is let go of. A guard holds it, and does one of the two.
#[verifier::reject_recursive_types(T)]
pub struct SoleSender<T> {
    tx: Sender<T>,
}

impl<T> SoleSender<T> {
    /// The sending end.
    pub closed spec fn sender(self) -> Sender<T> {
        self.tx
    }
}

/// The two ends belong to one channel, and there is no other sending end.
pub open spec fn belongs<T>(end: SoleSender<T>, rx: Pin<Box<Receiver<T>>>) -> bool {
    linked::<T, Sole>(end.sender(), rx)
}

/// Makes a channel with room for one message and one sending end for good.
pub(crate) fn sole_channel<T>() -> (ends: (SoleSender<T>, Pin<Box<Receiver<T>>>))
    ensures
        belongs(ends.0, ends.1),
        is_end::<T, Sole>(ends.1),
{
    let (tx, rx) = bounded::<T, Sole>(1);
    assert(linked::<T, Sole>(tx, rx));
    (SoleSender { tx }, rx)
}

/// Makes a channel whose sending ends hand over nothing.
pub(crate) fn shared_channel<T>() -> (ends: (Sender<T>, Pin<Box<Receiver<T>>>))
    ensures
        linked::<T, Shared>(ends.0, ends.1),
        leads_to(ends.0, ends.1),
{
    let (tx, rx) = bounded::<T, Shared>(1);
    proof {
        law_first_end_leads_to_its_channel(tx, rx);
    }
    (tx, rx)
}

/// `Sender::try_send` puts a message into the channel at once, or gives it back where the channel
/// is full or has no receiving end left. The sending end is let go of then. Neither unwinds as long
/// as no waker does.
#[verifier::external_body]
fn try_send<T>(end: SoleSender<T>, message: T) -> (result: Result<(), T>)
    ensures
        result matches Err(back) ==> back == message,
    opens_invariants none
    no_unwind
{
    match end.tx.try_send(message) {
        Ok(()) => Ok(()),
        Err(error) => Err(error.into_inner()),
    }
}

/// The message was handed to the channel, with this result.
pub closed spec fn handed<T>(end: SoleSender<T>, message: T, result: Result<(), T>) -> bool {
    call_ensures(try_send::<T>, (end, message), result)
}

/// Puts a message into the channel at once, if there is room and someone to receive it.
pub(crate) fn send<T>(end: SoleSender<T>, message: T) -> (result: Result<(), T>)
    ensures
        handed(end, message, result),
        result matches Err(back) ==> back == message,
    opens_invariants none
    no_unwind
{
    try_send(end, message)
}

/// Dropping a `Sender` takes one sending end away, and the last one closes the channel. It does not
/// unwind as long as no waker does. When the receiving end hears of it is left unsaid.
#[verifier::external_body]
fn drop_sender<T>(tx: Sender<T>)
    opens_invariants none
    no_unwind
{
    drop(tx)
}

/// The sending end was dropped, and had not been used up.
pub closed spec fn gone<T>(tx: Sender<T>) -> bool {
    call_ensures(drop_sender::<T>, (tx,), ())
}

/// Drops a sending end.
pub(crate) fn leave<T>(tx: Sender<T>)
    ensures
        gone(tx),
    opens_invariants none
    no_unwind
{
    drop_sender(tx)
}

/// The sending end was let go of without a message.
pub open spec fn let_go<T>(end: SoleSender<T>) -> bool {
    gone(end.sender())
}

/// Lets go of a sending end without a message.
pub(crate) fn close<T>(end: SoleSender<T>)
    ensures
        let_go(end),
    opens_invariants none
    no_unwind
{
    drop_sender(end.tx)
}

/// `Sender::clone` gives one more sending end of the same channel. It ends the process where there
/// are more than `usize::MAX / 2` of them.
#[verifier::external_body]
fn clone_sender<T>(tx: &Sender<T>) -> (copy: Sender<T>) {
    tx.clone()
}

/// `copy` is one more sending end of the channel of `tx`, and was made from it.
pub closed spec fn doubled<T>(tx: Sender<T>, copy: Sender<T>) -> bool {
    call_ensures(clone_sender::<T>, (&tx,), copy)
}

/// Makes one more sending end of a channel whose sending ends hand over nothing.
pub(crate) fn double<T>(tx: &Sender<T>) -> (copy: Sender<T>)
    ensures
        doubled(*tx, copy),
{
    clone_sender(tx)
}

/// End `i` of a line was doubled to make the next.
pub open spec fn doubled_at<T>(line: Seq<Sender<T>>, i: int) -> bool {
    doubled(line[i], line[i + 1])
}

/// The line starts with the sending end that was made together with the receiving end, and goes on
/// from one sending end to one that was made from it.
pub open spec fn is_line<T>(line: Seq<Sender<T>>, rx: Pin<Box<Receiver<T>>>) -> bool {
    &&& line.len() > 0
    &&& linked::<T, Shared>(line[0], rx)
    &&& forall|i: int| 0 <= i < line.len() - 1 ==> #[trigger] doubled_at(line, i)
}

/// The sending end leads to the receiving end: it was made together with it, or is a clone of one
/// that was, or a clone of a clone, and so on.
pub open spec fn leads_to<T>(tx: Sender<T>, rx: Pin<Box<Receiver<T>>>) -> bool {
    exists|line: Seq<Sender<T>>| #[trigger] is_line(line, rx) && line.last() == tx
}

/// The message is the one that was put into the channel of this receiving end: the sending end that
/// belongs to it handed over this message and no other, and was not let go of without one.
pub open spec fn was_sent<T>(rx: Pin<Box<Receiver<T>>>, message: T) -> bool {
    forall|end: SoleSender<T>| #[trigger]
        belongs(end, rx) ==> {
            &&& handed(end, message, Ok(()))
            &&& !let_go(end)
            &&& forall|other: T, result: Result<(), T>| #[trigger]
                handed(end, other, result) ==> other == message
        }
}

/// Nothing was put into the channel of this receiving end: the sending end that belongs to it was
/// let go of, and handed over no message.
pub open spec fn nothing_sent<T>(rx: Pin<Box<Receiver<T>>>) -> bool {
    forall|end: SoleSender<T>| #[trigger]
        belongs(end, rx) ==> {
            &&& let_go(end)
            &&& forall|message: T, result: Result<(), T>| !#[trigger] handed(end, message, result)
        }
}

/// Every sending end that leads to this receiving end is gone.
pub open spec fn all_gone<T>(rx: Pin<Box<Receiver<T>>>) -> bool {
    forall|tx: Sender<T>| #[trigger] leads_to(tx, rx) ==> gone(tx)
}

/// What a look into a channel brings.
#[verifier::reject_recursive_types(T)]
pub enum Heard<T> {
    /// Nothing yet: the receiving end, which wakes the task when there is news.
    Pending(Pin<Box<Receiver<T>>>),
    /// A message.
    Value(T),
    /// No message is left and none can come: every sending end is gone.
    Closed,
}

/// What is told by what a look into a channel brings: silence leaves the receiving end what it was,
/// a message was sent and comes from a channel that is meant for one, and where the channel is closed
/// nothing was sent and every sending end is gone.
pub open spec fn tells<T>(rx: Pin<Box<Receiver<T>>>, heard: Heard<T>) -> bool {
    match heard {
        Heard::Pending(same) => same == rx,
        Heard::Value(message) => was_sent(rx, message) && !is_end::<T, Shared>(rx),
        Heard::Closed => nothing_sent(rx) && all_gone(rx),
    }
}

/// `Stream::poll_next` of a `Receiver` takes a message out of the channel, if there is one. What it
/// brings is what was put in. A message is put in by [`try_send`] alone, which uses up the only
/// sending end of a [`Sole`] channel, as [`drop_sender`] does: so there is one message at most, and
/// none where the end was let go of. It says that the channel is closed only where no message is
/// left in it and every sending end has been dropped. A message that was handed over would come
/// first: there is room for it, it is given back only where the receiving end is gone, and this is
/// the only receiving end, which a message uses up. Whether there is news yet rests on what the
/// other ends have done so far.
#[verifier::external_body]
fn poll_recv<'b, 'a, T>(rx: Pin<Box<Receiver<T>>>, baton: Baton<'b, 'a>) -> (left: (
    Heard<T>,
    Baton<'b, 'a>,
))
    requires
        is_end::<T, Sole>(rx) || is_end::<T, Shared>(rx),
    ensures
        tells(rx, left.0),
{
    let mut rx = rx;
    match smol::stream::Stream::poll_next(rx.as_mut(), baton.cx) {
        Poll::Pending => (Heard::Pending(rx), baton),
        Poll::Ready(Some(message)) => (Heard::Value(message), baton),
        Poll::Ready(None) => (Heard::Closed, baton),
    }
}

/// A look into the channel, which was begun with one baton and ended with the other, brought this.
pub closed spec fn hears<'b, 'a, T>(
    rx: Pin<Box<Receiver<T>>>,
    start: Baton<'b, 'a>,
    heard: Heard<T>,
    end: Baton<'b, 'a>,
) -> bool {
    call_ensures(poll_recv::<T>, (rx, start), (heard, end))
}

/// Looks into the channel.
pub(crate) fn listen<'b, 'a, T>(rx: Pin<Box<Receiver<T>>>, baton: Baton<'b, 'a>) -> (left: (
    Heard<T>,
    Baton<'b, 'a>,
))
    requires
        is_end::<T, Sole>(rx) || is_end::<T, Shared>(rx),
    ensures
        hears(rx, baton, left.0, left.1),
        tells(rx, left.0),
{
    poll_recv(rx, baton)
}

/// What a look into a channel brought tells what was done at its other ends.
pub proof fn law_what_is_heard_tells<'b, 'a, T>(
    rx: Pin<Box<Receiver<T>>>,
    start: Baton<'b, 'a>,
    heard: Heard<T>,
    next: Baton<'b, 'a>,
)
    requires
        hears(rx, start, heard, next),
    ensures
        tells(rx, heard),
{
}

/// Every message that is heard is the one that was put into the channel before, by the sending end
/// that belongs to the receiving end.
pub proof fn law_heard_was_sent<'b, 'a, T>(
    end: SoleSender<T>,
    rx: Pin<Box<Receiver<T>>>,
    start: Baton<'b, 'a>,
    message: T,
    next: Baton<'b, 'a>,
)
    requires
        belongs(end, rx),
        hears(rx, start, Heard::Value(message), next),
    ensures
        handed(end, message, Ok(())),
        !let_go(end),
        forall|other: T, result: Result<(), T>| #[trigger]
            handed(end, other, result) ==> other == message,
{
}

/// A message that was put into a channel is not passed over: where the channel is heard to be
/// closed, the sending end that belongs to it handed over none and was let go of.
pub proof fn law_closed_had_no_message<'b, 'a, T>(
    end: SoleSender<T>,
    rx: Pin<Box<Receiver<T>>>,
    start: Baton<'b, 'a>,
    next: Baton<'b, 'a>,
)
    requires
        belongs(end, rx),
        hears(rx, start, Heard::Closed, next),
    ensures
        let_go(end),
        forall|message: T, result: Result<(), T>| !#[trigger] handed(end, message, result),
{
}

/// A look into the channel that brings nothing leaves the receiving end what it was.
pub proof fn law_silence_changes_nothing<'b, 'a, T>(
    rx: Pin<Box<Receiver<T>>>,
    start: Baton<'b, 'a>,
    same: Pin<Box<Receiver<T>>>,
    end: Baton<'b, 'a>,
)
    requires
        hears(rx, start, Heard::Pending(same), end),
    ensures
        same == rx,
{
}

/// The sending end that was made together with a receiving end leads to it.
pub proof fn law_first_end_leads_to_its_channel<T>(tx: Sender<T>, rx: Pin<Box<Receiver<T>>>)
    requires
        linked::<T, Shared>(tx, rx),
    ensures
        leads_to(tx, rx),
{
    let line = seq![tx];
    assert(is_line(line, rx));
    assert(line.last() == tx);
}

/// A clone of a sending end leads to where that one leads.
pub proof fn law_clone_leads_to_the_same_channel<T>(
    tx: Sender<T>,
    copy: Sender<T>,
    rx: Pin<Box<Receiver<T>>>,
)
    requires
        leads_to(tx, rx),
        doubled(tx, copy),
    ensures
        leads_to(copy, rx),
{
    let line = choose|line: Seq<Sender<T>>| #[trigger] is_line(line, rx) && line.last() == tx;
    let longer = line.push(copy);
    assert forall|i: int| 0 <= i < longer.len() - 1 implies #[trigger] doubled_at(longer, i) by {
        if i < line.len() - 1 {
            assert(doubled_at(line, i));
        }
    }
    assert(is_line(longer, rx));
    assert(longer.last() == copy);
}

} // verus!
