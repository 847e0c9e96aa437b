//! The core promises, on the smol executor.

use std::future::Future;
use std::sync::atomic::{AtomicU32, Ordering};
use std::sync::Arc;
use std::time::Duration;

use eulogy::{derive_async_drop, DropLater, FoundCrate, Spawner};

struct SmolSpawner;

impl Spawner for SmolSpawner {
    fn spawn<F: Future<Output = ()> + Send + 'static>(&self, future: F) {
        smol::spawn(future).detach();
    }
}

/// A type that can clean itself up.
trait AsyncDrop: Send {
    fn async_drop(self) -> impl Future<Output = ()> + Send;

    fn later(self) -> DropLater<Self>
    where
        Self: Sized + 'static,
    {
        eulogy::later_with(self, |value: Self| value.async_drop(), &SmolSpawner)
    }
}

#[derive(Debug)]
struct Counter {
    count: Arc<AtomicU32>,
}

impl AsyncDrop for Counter {
    async fn async_drop(self) {
        self.count.fetch_add(1, Ordering::SeqCst);
    }
}

#[derive(Debug)]
struct SlowDrop {
    completed: Arc<AtomicU32>,
    delay: Duration,
}

impl AsyncDrop for SlowDrop {
    async fn async_drop(self) {
        smol::Timer::after(self.delay).await;
        self.completed.fetch_add(1, Ordering::SeqCst);
    }
}

#[test]
fn drop_runs_once_smol() {
    smol::block_on(async {
        let count = Arc::new(AtomicU32::new(0));
        let guard = Counter { count: count.clone() }.later();
        drop(guard);
        smol::Timer::after(Duration::from_millis(50)).await;
        assert_eq!(count.load(Ordering::SeqCst), 1);
    });
}

#[test]
fn multiple_guards_smol() {
    smol::block_on(async {
        let count = Arc::new(AtomicU32::new(0));
        let g1 = Counter { count: count.clone() }.later();
        let g2 = Counter { count: count.clone() }.later();
        let g3 = Counter { count: count.clone() }.later();
        drop(g1);
        drop(g2);
        drop(g3);
        smol::Timer::after(Duration::from_millis(50)).await;
        assert_eq!(count.load(Ordering::SeqCst), 3);
    });
}

#[test]
fn slow_drop_completes_smol() {
    smol::block_on(async {
        let completed = Arc::new(AtomicU32::new(0));
        let guard = SlowDrop {
            completed: completed.clone(),
            delay: Duration::from_millis(50),
        }
        .later();
        drop(guard);
        smol::Timer::after(Duration::from_millis(150)).await;
        assert_eq!(completed.load(Ordering::SeqCst), 1);
    });
}

#[test]
fn into_inner_smol() {
    smol::block_on(async {
        let count = Arc::new(AtomicU32::new(0));
        let guard = Counter { count: count.clone() }.later();
        let _recovered = guard.into_inner();
        smol::Timer::after(Duration::from_millis(50)).await;
        assert_eq!(count.load(Ordering::SeqCst), 0);
    });
}

#[derive(Debug)]
struct Parent {
    first: Counter,
    second: Counter,
}

impl AsyncDrop for Parent {
    async fn async_drop(self) {
        self.first.async_drop().await;
        self.second.async_drop().await;
    }
}

#[test]
fn derive_ordering_smol() {
    let item = "struct Parent { first: Counter, #[eulogy(after = [first])] second: Counter, }";
    let code = "impl ::eulogy::AsyncDrop for Parent
        where Counter: ::eulogy::AsyncDrop, Counter: ::eulogy::AsyncDrop {
            async fn async_drop(self) {
                self.first.async_drop().await;
                self.second.async_drop().await;
            }
        }";
    let output = derive_async_drop(item.parse().expect("an item"), FoundCrate::Missing);
    let squeezed = |text: &str| -> String { text.chars().filter(|c| !c.is_whitespace()).collect() };
    assert_eq!(squeezed(&output.to_string()), squeezed(code));

    smol::block_on(async {
        let count = Arc::new(AtomicU32::new(0));
        let guard = Parent {
            first: Counter { count: count.clone() },
            second: Counter { count: count.clone() },
        }
        .later();
        drop(guard);
        smol::Timer::after(Duration::from_millis(50)).await;
        assert_eq!(count.load(Ordering::SeqCst), 2);
    });
}
