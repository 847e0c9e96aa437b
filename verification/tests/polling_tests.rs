use std::cell::Cell;
use std::future::Future;
use std::pin::Pin;
use std::rc::Rc;
use std::sync::atomic::{AtomicU32, Ordering};
use std::sync::{Arc, Mutex};
use std::task::{Context, Poll, Waker};

use eulogy::__private::join_all;
use eulogy::channel::Heard;
use eulogy::containers::{clean_all, clean_some, then_clean};
use eulogy::polling::Baton;
use eulogy::task::Stage;
use eulogy::{later_with, ordering, task, DropLater, Spawner};

/// A future that ends at its poll number `polls`, and counts its polls.
struct Countdown {
    polls: u32,
    seen: Rc<Cell<u32>>,
}

impl Countdown {
    fn new(polls: u32) -> (Self, Rc<Cell<u32>>) {
        let seen = Rc::new(Cell::new(0));
        (Countdown { polls, seen: seen.clone() }, seen)
    }
}

impl Future for Countdown {
    type Output = ();

    fn poll(self: Pin<&mut Self>, _cx: &mut Context<'_>) -> Poll<()> {
        self.seen.set(self.seen.get() + 1);
        if self.seen.get() >= self.polls {
            Poll::Ready(())
        } else {
            Poll::Pending
        }
    }
}

fn poll<F: Future<Output = ()>>(future: &mut Pin<Box<F>>) -> bool {
    let mut cx = Context::from_waker(Waker::noop());
    future.as_mut().poll(&mut cx).is_ready()
}

type Task = Pin<Box<dyn Future<Output = ()> + Send>>;

/// Keeps the tasks for the test to poll.
#[derive(Default)]
struct Shelf {
    tasks: Mutex<Vec<Task>>,
}

impl Spawner for Shelf {
    fn spawn<F: Future<Output = ()> + Send + 'static>(&self, future: F) {
        self.tasks.lock().expect("the tasks").push(Box::pin(future));
    }
}

impl Shelf {
    fn poll(&self, i: usize) -> bool {
        let mut cx = Context::from_waker(Waker::noop());
        self.tasks.lock().expect("the tasks")[i].as_mut().poll(&mut cx).is_ready()
    }
}

/// A guard of a number that is added to a sum when it is cleaned up.
fn adding(shelf: &Shelf, sum: &Arc<AtomicU32>, value: u32) -> DropLater<u32> {
    let sum = sum.clone();
    later_with(
        value,
        move |value: u32| async move {
            sum.fetch_add(value, Ordering::SeqCst);
        },
        shelf,
    )
}

#[test]
fn joined_futures_end_with_the_last() {
    let (a, a_seen) = Countdown::new(1);
    let (b, b_seen) = Countdown::new(3);
    let (c, c_seen) = Countdown::new(2);
    let mut joined = Box::pin(join_all(vec![a, b, c]));
    assert!(!poll(&mut joined));
    assert_eq!((a_seen.get(), b_seen.get(), c_seen.get()), (1, 1, 1));
    assert!(!poll(&mut joined));
    assert!(poll(&mut joined));
    // Each was polled until it ended, and not again.
    assert_eq!((a_seen.get(), b_seen.get(), c_seen.get()), (1, 3, 2));
}

#[test]
fn joined_futures_are_polled_in_order() {
    let log = Rc::new(std::cell::RefCell::new(Vec::new()));
    let logging = |name: &'static str, polls: u32| {
        let log = log.clone();
        let mut left = polls;
        std::future::poll_fn(move |_| {
            log.borrow_mut().push(name);
            left -= 1;
            if left == 0 {
                Poll::Ready(())
            } else {
                Poll::Pending
            }
        })
    };
    let mut joined = Box::pin(join_all(vec![logging("a", 2), logging("b", 1), logging("c", 2)]));
    assert!(log.borrow().is_empty());
    assert!(!poll(&mut joined));
    assert_eq!(*log.borrow(), vec!["a", "b", "c"]);
    assert!(poll(&mut joined));
    assert_eq!(*log.borrow(), vec!["a", "b", "c", "a", "c"]);
}

#[test]
fn a_value_that_cannot_be_sent_off_comes_back() {
    let shelf = Shelf::default();
    let sum = Arc::new(AtomicU32::new(0));
    let mut guard = adding(&shelf, &sum, 5);
    *guard = 6;
    assert_eq!(guard.send_off(), Ok(()));
    assert!(shelf.poll(0));
    assert_eq!(sum.load(Ordering::SeqCst), 6);

    let guard = adding(&shelf, &sum, 7);
    shelf.tasks.lock().expect("the tasks").clear();
    assert_eq!(guard.send_off(), Err(7));
    assert_eq!(sum.load(Ordering::SeqCst), 6);
}

#[test]
fn nothing_to_join_is_done_at_once() {
    let none: Vec<Countdown> = Vec::new();
    assert!(poll(&mut Box::pin(join_all(none))));
}

#[test]
fn a_machine_can_be_driven_directly() {
    let (a, seen) = Countdown::new(2);
    let mut joined = join_all(vec![a]);
    let mut cx = Context::from_waker(Waker::noop());
    let (done, baton) = joined.advance(Baton::new(&mut cx));
    assert!(!done);
    let (done, _) = joined.advance(baton);
    assert!(done);
    assert_eq!(seen.get(), 2);
}

#[test]
fn lists_and_options_are_cleaned_up() {
    let total = Cell::new(0);
    let add = |value: u32| {
        total.set(total.get() + value);
        std::future::ready(())
    };
    assert!(poll(&mut Box::pin(clean_all(vec![1, 20, 300], add))));
    assert_eq!(total.get(), 321);
    assert!(poll(&mut Box::pin(clean_some(Some(4000), add))));
    assert_eq!(total.get(), 4321);
    assert!(poll(&mut Box::pin(clean_some(None, add))));
    assert_eq!(total.get(), 4321);
}

#[test]
fn the_second_future_is_made_when_the_first_has_ended() {
    let (first, first_seen) = Countdown::new(2);
    let (second, second_seen) = Countdown::new(2);
    let made = Rc::new(Cell::new(false));
    let flag = made.clone();
    let mut both = Box::pin(then_clean(first, move || {
        flag.set(true);
        second
    }));
    assert!(!poll(&mut both));
    assert!(!made.get());
    assert!(!poll(&mut both));
    assert!(made.get());
    assert_eq!((first_seen.get(), second_seen.get()), (2, 1));
    assert!(poll(&mut both));
    assert_eq!((first_seen.get(), second_seen.get()), (2, 2));
}

#[test]
fn the_value_of_a_dropped_guard_is_cleaned_up_once() {
    let shelf = Shelf::default();
    let sum = Arc::new(AtomicU32::new(0));
    let mut guard = adding(&shelf, &sum, 5);
    assert_eq!(*guard, 5);
    *guard += 2;
    assert!(!shelf.poll(0));
    assert_eq!(sum.load(Ordering::SeqCst), 0);
    drop(guard);
    assert_eq!(sum.load(Ordering::SeqCst), 0);
    assert!(shelf.poll(0));
    assert_eq!(sum.load(Ordering::SeqCst), 7);
    // The task is over and stays over.
    assert!(shelf.poll(0));
    assert_eq!(sum.load(Ordering::SeqCst), 7);
}

#[test]
fn the_task_ends_without_cleanup_when_the_value_is_taken_out() {
    let shelf = Shelf::default();
    let sum = Arc::new(AtomicU32::new(0));
    let guard = adding(&shelf, &sum, 5);
    assert!(!shelf.poll(0));
    assert_eq!(guard.into_inner(), 5);
    assert!(shelf.poll(0));
    assert_eq!(sum.load(Ordering::SeqCst), 0);
}

#[test]
fn a_guard_outlives_its_task() {
    let shelf = Shelf::default();
    let sum = Arc::new(AtomicU32::new(0));
    let guard = adding(&shelf, &sum, 5);
    shelf.tasks.lock().expect("the tasks").clear();
    drop(guard);
    assert_eq!(sum.load(Ordering::SeqCst), 0);
}

#[test]
fn each_guard_has_its_own_task() {
    let shelf = Shelf::default();
    let sum = Arc::new(AtomicU32::new(0));
    let first = adding(&shelf, &sum, 1);
    let second = adding(&shelf, &sum, 10);
    drop(second);
    assert!(!shelf.poll(0));
    assert!(shelf.poll(1));
    assert_eq!(sum.load(Ordering::SeqCst), 10);
    drop(first);
    assert!(shelf.poll(0));
    assert_eq!(sum.load(Ordering::SeqCst), 11);
}

#[test]
fn a_task_cleans_up_what_it_hears_of() {
    let (future, seen) = Countdown::new(2);
    let heard = Cell::new(0);
    let cleanup = |value: u32| {
        heard.set(value);
        future
    };
    let mut cx = Context::from_waker(Waker::noop());
    let baton = Baton::new(&mut cx);
    let (stage, baton) = task::on_heard(Box::new(cleanup), Heard::Value(3), baton);
    assert_eq!(heard.get(), 3);
    assert_eq!(seen.get(), 1);
    assert!(matches!(stage, Stage::Cleaning(_)));

    let cleanup = |_: u32| std::future::ready(());
    let (stage, baton) = task::on_heard(Box::new(cleanup), Heard::Value(3), baton);
    assert!(matches!(stage, Stage::Done));
    let (stage, _) = task::on_heard(Box::new(cleanup), Heard::Closed, baton);
    assert!(matches!(stage, Stage::Done));
}

#[test]
fn a_wait_is_over_with_the_last_trigger() {
    let (wait, trigger) = ordering::setup();
    let other = trigger.clone();
    let mut wait = Box::pin(wait.wait());
    assert!(!poll(&mut wait));
    drop(trigger);
    assert!(!poll(&mut wait));
    drop(other);
    assert!(poll(&mut wait));
}

#[test]
fn a_clone_of_a_clone_holds_the_wait() {
    let (wait, trigger) = ordering::setup();
    let child = trigger.clone();
    let grandchild = child.clone();
    let mut wait = Box::pin(wait.wait());
    drop(trigger);
    drop(child);
    assert!(!poll(&mut wait));
    assert!(!poll(&mut wait));
    drop(grandchild);
    assert!(poll(&mut wait));
    // The wait is over and stays over.
    assert!(poll(&mut wait));
}

#[test]
fn a_task_waits_while_its_guard_is_moved_around() {
    let shelf = Shelf::default();
    let sum = Arc::new(AtomicU32::new(0));
    let guard = Some(Box::new(adding(&shelf, &sum, 3)));
    assert!(!shelf.poll(0));
    let guards = vec![guard];
    assert!(!shelf.poll(0));
    assert_eq!(sum.load(Ordering::SeqCst), 0);
    drop(guards);
    assert!(shelf.poll(0));
    assert_eq!(sum.load(Ordering::SeqCst), 3);
}

#[test]
fn a_wait_without_triggers_is_over_at_once() {
    let (wait, trigger) = ordering::setup();
    drop(trigger);
    assert!(poll(&mut Box::pin(wait.wait())));
}

#[test]
fn pairs_are_independent() {
    let (first, first_trigger) = ordering::setup();
    let (second, second_trigger) = ordering::setup();
    let mut first = Box::pin(first.wait());
    let mut second = Box::pin(second.wait());
    drop(second_trigger);
    assert!(!poll(&mut first));
    assert!(poll(&mut second));
    drop(first_trigger);
    assert!(poll(&mut first));
}

#[test]
fn news_of_any_kind_end_a_wait() {
    assert!(ordering::on_heard(Heard::Value(())).is_none());
    assert!(ordering::on_heard(Heard::Closed).is_none());
}

#[test]
fn the_ends_of_a_pair_can_be_shown() {
    let (wait, trigger) = ordering::setup();
    assert_eq!(format!("{:?}", wait), "DropWait(Receiver { .. })");
    assert_eq!(format!("{:?}", trigger), "DropTrigger { _closer: Sender { .. } }");
}
