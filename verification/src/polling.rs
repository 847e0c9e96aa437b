//! Futures that are written as machines: what one poll does to their state.
use std::future::Future;
use std::pin::Pin;
use std::task::{Context, Poll};
use vstd::prelude::*;

verus! {

/// The standard library's pointer to a value that stays where it is.
#[verifier::external_type_specification]
#[verifier::external_body]
#[verifier::reject_recursive_types(P)]
pub struct ExPin<P>(Pin<P>);

/// The standard library's context of a poll.
#[verifier::external_type_specification]
#[verifier::external_body]
pub struct ExContext<'a>(Context<'a>);

/// The standard library's answer to a poll.
#[verifier::external_type_specification]
#[verifier::reject_recursive_types(T)]
pub struct ExPoll<T>(Poll<T>);

/// `Box::pin` puts a future where it stays.
#[verifier::external_body]
fn pin_box<F>(future: F) -> (pinned: Pin<Box<F>>) {
    Box::pin(future)
}

/// `pinned` is the future, put where it stays.
pub closed spec fn pins<F>(future: F, pinned: Pin<Box<F>>) -> bool {
    call_ensures(pin_box::<F>, (future,), pinned)
}

/// Puts a future where it stays.
pub(crate) fn pin<F>(future: F) -> (pinned: Pin<Box<F>>)
    ensures
        pins(future, pinned),
{
    pin_box(future)
}

/// The context of a poll, as it is passed on from one future to the next. Whoever has been polled
/// hands it on, so the order of the polls can be told from it.
pub struct Baton<'b, 'a> {
    pub(crate) cx: &'b mut Context<'a>,
}

impl<'b, 'a> Baton<'b, 'a> {
    /// The context that is passed on.
    pub closed spec fn context(self) -> Context<'a> {
        *self.cx
    }

    /// Starts to pass on a context.
    pub fn new(cx: &'b mut Context<'a>) -> (baton: Self)
        ensures
            baton.context() == *old(cx),
    {
        Baton { cx }
    }
}

/// `Future::poll` runs a future as far as it goes for now. The result is the future, or nothing
/// where it has come to its end, and the context that it was polled with.
#[verifier::external_body]
fn poll_once<'b, 'a, F: Future<Output = ()>>(future: Pin<Box<F>>, baton: Baton<'b, 'a>) -> (left: (
    Option<Pin<Box<F>>>,
    Baton<'b, 'a>,
)) {
    let mut future = future;
    match future.as_mut().poll(baton.cx) {
        Poll::Pending => (Some(future), baton),
        Poll::Ready(()) => (None, baton),
    }
}

/// One poll, which was begun with one baton and ended with the other, left this of the future.
pub closed spec fn polled<'b, 'a, F: Future<Output = ()>>(
    future: Pin<Box<F>>,
    start: Baton<'b, 'a>,
    rest: Option<Pin<Box<F>>>,
    end: Baton<'b, 'a>,
) -> bool {
    call_ensures(poll_once::<F>, (future, start), (rest, end))
}

/// Runs a future as far as it goes for now.
pub(crate) fn run<'b, 'a, F: Future<Output = ()>>(
    future: Pin<Box<F>>,
    baton: Baton<'b, 'a>,
) -> (left: (Option<Pin<Box<F>>>, Baton<'b, 'a>))
    ensures
        polled(future, baton, left.0, left.1),
{
    poll_once(future, baton)
}

/// A machine that is driven by polls.
pub trait Machine: Sized {
    /// What one poll may do: from which state to which, with which batons, and whether that is the
    /// end.
    spec fn steps<'b, 'a>(
        before: Self,
        start: Baton<'b, 'a>,
        after: Self,
        end: Baton<'b, 'a>,
        done: bool,
    ) -> bool;

    /// Goes on as far as possible for now. The context's waker is called when there is more to do.
    fn advance<'b, 'a>(&mut self, baton: Baton<'b, 'a>) -> (left: (bool, Baton<'b, 'a>))
        ensures
            Self::steps(*old(self), baton, *final(self), left.1, left.0),
    ;
}

/// A machine as a future.
#[verifier::reject_recursive_types(M)]
pub struct Running<M> {
    machine: Box<M>,
}

impl<M> Running<M> {
    /// The machine.
    pub closed spec fn view(&self) -> M {
        *self.machine
    }

    /// Makes a future of a machine.
    pub fn new(machine: M) -> (running: Self)
        ensures
            running@ == machine,
    {
        Running { machine: Box::new(machine) }
    }
}

/// `Pin::get_mut` gives access to the value that is pinned.
#[verifier::external_body]
fn unpinned<'a, M>(pinned: Pin<&'a mut Running<M>>) -> (running: &'a mut Running<M>) {
    pinned.get_mut()
}

/// `running` is the future that is pinned.
pub closed spec fn reaches<M>(pinned: Pin<&mut Running<M>>, running: &mut Running<M>) -> bool {
    call_ensures(unpinned::<M>, (pinned,), running)
}

impl<M: Machine> Running<M> {
    /// Goes on as far as possible for now.
    pub fn advance<'b, 'a>(&mut self, baton: Baton<'b, 'a>) -> (left: (bool, Baton<'b, 'a>))
        ensures
            M::steps(old(self)@, baton, final(self)@, left.1, left.0),
    {
        self.machine.advance(baton)
    }
}

impl<M: Machine> Future for Running<M> {
    type Output = ();

    fn poll(self: Pin<&mut Self>, cx: &mut Context<'_>) -> (answer: Poll<()>)
        ensures
            exists|this: &mut Running<M>, start: Baton<'_, '_>, end: Baton<'_, '_>|
                {
                    &&& #[trigger] reaches(self, this)
                    &&& start.context() == *old(cx)
                    &&& #[trigger] M::steps(this@, start, final(this)@, end, answer is Ready)
                },
    {
        let this = unpinned(self);
        let ghost running = this;
        let baton = Baton::new(cx);
        let ghost start = baton;
        let (done, end) = this.advance(baton);
        let answer = if done {
            Poll::Ready(())
        } else {
            Poll::Pending
        };
        assert(reaches(self, running));
        assert(start.context() == *old(cx));
        assert(M::steps(running@, start, final(running)@, end, answer is Ready));
        answer
    }
}

} // verus!
