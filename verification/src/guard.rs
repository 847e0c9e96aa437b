//! The guard of a value that is cleaned up later.
use crate::channel::{
    belongs, close, handed, hears, law_heard_was_sent, let_go, send, Heard, SoleSender,
};
use crate::polling::Baton;
use async_channel::Receiver;
use std::ops::{Deref, DerefMut};
use std::pin::Pin;
use vstd::prelude::*;

verus! {

/// A value and the way to its cleanup, until they are given away.
#[verifier::reject_recursive_types(T)]
struct Slot<T> {
    value: Option<T>,
    dropper: Option<SoleSender<T>>,
}

impl<T> Slot<T> {
    /// Both are given away.
    pub closed spec fn is_empty(self) -> bool {
        self.value is None && self.dropper is None
    }

    /// The value, if it was still there, was sent off to its cleanup.
    pub closed spec fn is_sent_off(self) -> bool {
        self.value is Some && self.dropper is Some ==> exists|result: Result<(), T>| #[trigger]
            handed(self.dropper->0, self.value->0, result)
    }

    /// Sends the value off to its cleanup, if it is still there. The result is what came of that: a
    /// value that could not be sent comes back.
    fn release(&mut self) -> (result: Option<Result<(), T>>)
        ensures
            final(self).value is None,
            final(self).dropper is None,
            match (old(self).value, old(self).dropper) {
                (Some(value), Some(dropper)) => {
                    &&& result is Some
                    &&& handed(dropper, value, result->0)
                    &&& result->0 matches Err(back) ==> back == value
                },
                _ => result is None,
            },
        opens_invariants none
        no_unwind
    {
        let mut value: Option<T> = None;
        let mut dropper: Option<SoleSender<T>> = None;
        std::mem::swap(&mut value, &mut self.value);
        std::mem::swap(&mut dropper, &mut self.dropper);
        match (value, dropper) {
            (Some(value), Some(dropper)) => Some(send(dropper, value)),
            (None, Some(dropper)) => {
                close(dropper);
                None
            },
            (_, None) => None,
        }
    }

    /// Access to the value.
    fn value_mut(&mut self) -> (value: &mut T)
        requires
            old(self).value is Some,
        ensures
            *value == old(self).value->0,
            final(self).value == Some(*final(value)),
            final(self).dropper == old(self).dropper,
        opens_invariants none
        no_unwind
    {
        match &mut self.value {
            Some(value) => value,
            None => vstd::pervasive::unreached(),
        }
    }
}

impl<T> Drop for Slot<T> {
    fn drop(&mut self)
        ensures
            final(self).is_empty(),
            old(self).is_sent_off(),
        opens_invariants none
        no_unwind
    {
        let _ = self.release();
    }
}

/// A guard that sends its value off to be cleaned up when it is dropped.
///
/// The value is reached through `Deref` and `DerefMut`.
///
/// # Order among guards
///
/// Guards that are dropped one after the other are **not** cleaned up in that order. Each is
/// cleaned up by a task of its own, and the executor is free to run these as it likes. Where the
/// order matters, use [`ordering::setup`](crate::ordering::setup), or `after` in a derive.
#[must_use]
#[verifier::reject_recursive_types(T)]
pub struct DropLater<T> {
    slot: Slot<T>,
}

impl<T> DropLater<T> {
    #[verifier::type_invariant]
    spec fn is_full(self) -> bool {
        self.slot.value is Some && self.slot.dropper is Some
    }

    /// The value that is guarded.
    pub closed spec fn view(&self) -> T {
        self.slot.value->0
    }

    /// The guard holds its value. Every guard does until it is dropped or taken apart.
    pub closed spec fn is_guarding(self) -> bool {
        self.is_full()
    }

    /// The guard has been dropped: what [`Drop`] ensures of it.
    pub closed spec fn is_dropped(self) -> bool {
        self.slot.is_sent_off()
    }

    /// Where the value goes to be cleaned up.
    pub closed spec fn dropper(self) -> SoleSender<T> {
        self.slot.dropper->0
    }

    pub(crate) fn new(value: T, dropper: SoleSender<T>) -> (guard: Self)
        ensures
            guard@ == value,
            guard.dropper() == dropper,
            guard.is_guarding(),
    {
        DropLater { slot: Slot { value: Some(value), dropper: Some(dropper) } }
    }

    /// Takes the value out. It is not cleaned up.
    ///
    /// The way to the cleanup is closed, so the task that was waiting for the value ends. Use this
    /// to pass the value on and see to its cleanup yourself.
    pub fn into_inner(self) -> (value: T)
        ensures
            value == self@,
            let_go(self.dropper()),
    {
        proof {
            use_type_invariant(&self);
        }
        let DropLater { slot } = self;
        let mut slot = slot;
        let value = slot.value.take().unwrap();
        let dropper = slot.dropper.take().unwrap();
        close(dropper);
        value
    }
}

impl<T> DropLater<T> {
    /// Sends the value off to its cleanup, as dropping the guard does, and says what came of it: a
    /// value that could not be sent, because its task is gone, comes back.
    pub fn send_off(self) -> (result: Result<(), T>)
        ensures
            handed(self.dropper(), self@, result),
            result matches Err(back) ==> back == self@,
    {
        proof {
            use_type_invariant(&self);
        }
        let DropLater { slot } = self;
        let mut slot = slot;
        match slot.release() {
            Some(result) => result,
            None => vstd::pervasive::unreached(),
        }
    }
}

impl<T> Deref for DropLater<T> {
    type Target = T;

    fn deref(&self) -> (value: &T)
        ensures
            *value == self@,
    {
        proof {
            use_type_invariant(self);
        }
        self.slot.value.as_ref().unwrap()
    }
}

impl<T> DerefMut for DropLater<T> {
    fn deref_mut(&mut self) -> (value: &mut T)
        ensures
            *value == old(self)@,
            *final(value) == final(self)@,
            final(self).dropper() == old(self).dropper(),
            final(self).is_guarding(),
    {
        proof {
            use_type_invariant(&*self);
        }
        self.slot.value_mut()
    }
}

/// Dropping a guard hands its value over to its cleanup.
pub proof fn law_drop_hands_the_value_over<T>(guard: DropLater<T>)
    requires
        guard.is_guarding(),
        guard.is_dropped(),
    ensures
        exists|result: Result<(), T>| #[trigger] handed(guard.dropper(), guard@, result),
{
    let slot = guard.slot;
    let result = choose|result: Result<(), T>| #[trigger]
        handed(slot.dropper->0, slot.value->0, result);
    assert(handed(guard.dropper(), guard@, result));
}

/// What was written through a guard last is what dropping it hands over, at the same sending end.
pub proof fn law_written_value_is_handed_over<T>(
    before: DropLater<T>,
    written: T,
    after: DropLater<T>,
)
    requires
        after@ == written,
        after.dropper() == before.dropper(),
        after.is_guarding(),
        after.is_dropped(),
    ensures
        exists|result: Result<(), T>| #[trigger] handed(before.dropper(), written, result),
{
    law_drop_hands_the_value_over(after);
}

/// What is heard at the end that belongs to a guard was sent from that guard.
pub proof fn law_only_the_guard_is_heard<'b, 'a, T>(
    guard: DropLater<T>,
    rx: Pin<Box<Receiver<T>>>,
    start: Baton<'b, 'a>,
    value: T,
    end: Baton<'b, 'a>,
)
    requires
        belongs(guard.dropper(), rx),
        hears(rx, start, Heard::Value(value), end),
    ensures
        handed(guard.dropper(), value, Ok(())),
{
    law_heard_was_sent(guard.dropper(), rx, start, value, end);
}

/// Taking the value out gives back what the guard held, and lets go of the way to its cleanup.
pub proof fn law_the_value_is_taken_out<T>(guard: DropLater<T>, value: T)
    requires
        call_ensures(DropLater::<T>::into_inner, (guard,), value),
    ensures
        value == guard@,
        let_go(guard.dropper()),
{
}

/// Sending the value off hands it over as dropping the guard does, and a value that could not be sent
/// comes back as it was.
pub proof fn law_the_value_is_sent_off<T>(guard: DropLater<T>, result: Result<(), T>)
    requires
        call_ensures(DropLater::<T>::send_off, (guard,), result),
    ensures
        handed(guard.dropper(), guard@, result),
        result matches Err(back) ==> back == guard@,
{
}

} // verus!
