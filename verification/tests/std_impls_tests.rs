use std::future::Future;
use std::sync::atomic::{AtomicU32, Ordering};
use std::sync::Arc;
use std::time::Duration;

use eulogy::__private::join_all;
use eulogy::containers::{clean_all, clean_some, then_clean};
use eulogy::{derive_async_drop, DropLater, FoundCrate, Spawner};

struct TokioSpawner;

impl Spawner for TokioSpawner {
    fn spawn<F: Future<Output = ()> + Send + 'static>(&self, future: F) {
        tokio::spawn(future);
    }
}

/// A type that can clean itself up.
trait AsyncDrop: Send {
    fn async_drop(self) -> impl Future<Output = ()> + Send;

    fn later(self) -> DropLater<Self>
    where
        Self: Sized + 'static,
    {
        eulogy::later_with(self, |value: Self| value.async_drop(), &TokioSpawner)
    }
}

fn run<F: Future<Output = ()>>(future: F) {
    tokio::runtime::Builder::new_current_thread()
        .enable_time()
        .build()
        .expect("a runtime")
        .block_on(future);
}

fn squeezed(text: &str) -> String {
    text.chars().filter(|c| !c.is_whitespace()).collect()
}

/// The derive writes this code for the item.
fn assert_derives(item: &str, code: &str) {
    let input = item.parse().expect("an item");
    let output = derive_async_drop(input, FoundCrate::Missing).to_string();
    assert_eq!(squeezed(&output), squeezed(code));
}

/// Tracks the order in which fields are dropped via an atomic counter.
#[derive(Debug)]
struct Tracker {
    order: Arc<AtomicU32>,
    dropped_at: Arc<AtomicU32>,
}

impl Tracker {
    fn new(order: Arc<AtomicU32>) -> (Self, Arc<AtomicU32>) {
        let dropped_at = Arc::new(AtomicU32::new(0));
        (Self { order, dropped_at: dropped_at.clone() }, dropped_at)
    }
}

impl AsyncDrop for Tracker {
    async fn async_drop(self) {
        let seq = self.order.fetch_add(1, Ordering::SeqCst) + 1;
        self.dropped_at.store(seq, Ordering::SeqCst);
    }
}

type Boxed = ::std::pin::Pin<Box<dyn ::std::future::Future<Output = ()> + Send>>;


// Slow drops with no ordering; used to see that a list drops concurrently.
#[derive(Debug)]
struct SlowTracker {
    delay: Duration,
    done: Arc<AtomicU32>,
}

impl AsyncDrop for SlowTracker {
    async fn async_drop(self) {
        tokio::time::sleep(self.delay).await;
        self.done.fetch_add(1, Ordering::SeqCst);
    }
}

impl AsyncDrop for String {
    async fn async_drop(self) {}
}

impl AsyncDrop for std::path::PathBuf {
    async fn async_drop(self) {}
}

impl AsyncDrop for u32 {
    async fn async_drop(self) {}
}

impl<T: AsyncDrop> AsyncDrop for Option<T> {
    async fn async_drop(self) {
        clean_some(self, |value: T| value.async_drop()).await;
    }
}

impl<T: AsyncDrop> AsyncDrop for Box<T> {
    async fn async_drop(self) {
        (*self).async_drop().await;
    }
}

impl<T: AsyncDrop> AsyncDrop for Vec<T> {
    async fn async_drop(self) {
        clean_all(self, |value: T| value.async_drop()).await;
    }
}

impl<A: AsyncDrop, B: AsyncDrop> AsyncDrop for (A, B) {
    async fn async_drop(self) {
        let (a, b) = self;
        then_clean(a.async_drop(), move || b.async_drop()).await;
    }
}

#[derive(Debug)]
struct WithStdFields {
    name: String,
    path: std::path::PathBuf,
    count: u32,
}

impl AsyncDrop for WithStdFields {
    async fn async_drop(self) {
        join_all(vec![
            Box::pin(self.name.async_drop()) as Boxed,
            Box::pin(self.path.async_drop()) as Boxed,
            Box::pin(self.count.async_drop()) as Boxed,
        ])
        .await;
    }
}

#[test]
fn std_fields_compile_and_drop_without_skip() {
    assert_derives(
        "struct WithStdFields {
            #[eulogy]
            name: String,
            #[eulogy]
            path: std::path::PathBuf,
            #[eulogy]
            count: u32,
        }",
        "impl ::eulogy::AsyncDrop for WithStdFields
        where String: ::eulogy::AsyncDrop, std::path::PathBuf: ::eulogy::AsyncDrop,
            u32: ::eulogy::AsyncDrop {
            async fn async_drop(self) {
                ::eulogy::__private::join_all(vec![
                    Box::pin(self.name.async_drop())
                        as ::std::pin::Pin<Box<dyn ::std::future::Future<Output = ()> + Send>>,
                    Box::pin(self.path.async_drop())
                        as ::std::pin::Pin<Box<dyn ::std::future::Future<Output = ()> + Send>>,
                    Box::pin(self.count.async_drop())
                        as ::std::pin::Pin<Box<dyn ::std::future::Future<Output = ()> + Send>>
                ]).await;
            }
        }",
    );
    run(async {
        let guard = WithStdFields {
            name: "resource".to_string(),
            path: std::path::PathBuf::from("/tmp/resource"),
            count: 42,
        }
        .later();
        drop(guard);
        tokio::time::sleep(Duration::from_millis(20)).await;
    });
}

#[derive(Debug)]
struct WithOption {
    maybe: Option<Tracker>,
}

impl AsyncDrop for WithOption {
    async fn async_drop(self) {
        self.maybe.async_drop().await;
    }
}

#[test]
fn option_some_drops_inner() {
    assert_derives(
        "struct WithOption { #[eulogy] maybe: Option<Tracker>, }",
        "impl ::eulogy::AsyncDrop for WithOption where Option<Tracker>: ::eulogy::AsyncDrop {
            async fn async_drop(self) {
                self.maybe.async_drop().await;
            }
        }",
    );
    run(async {
        let order = Arc::new(AtomicU32::new(0));
        let (tracker, dropped_at) = Tracker::new(order.clone());

        let guard = WithOption { maybe: Some(tracker) }.later();
        drop(guard);
        tokio::time::sleep(Duration::from_millis(50)).await;

        assert_eq!(dropped_at.load(Ordering::SeqCst), 1);
    });
}

#[test]
fn option_none_is_noop() {
    run(async {
        let guard = WithOption { maybe: None }.later();
        drop(guard);
        tokio::time::sleep(Duration::from_millis(20)).await;
    });
}

#[derive(Debug)]
struct WithBox {
    boxed: Box<Tracker>,
}

impl AsyncDrop for WithBox {
    async fn async_drop(self) {
        self.boxed.async_drop().await;
    }
}

#[test]
fn box_unboxes_and_drops() {
    assert_derives(
        "struct WithBox { #[eulogy] boxed: Box<Tracker>, }",
        "impl ::eulogy::AsyncDrop for WithBox where Box<Tracker>: ::eulogy::AsyncDrop {
            async fn async_drop(self) {
                self.boxed.async_drop().await;
            }
        }",
    );
    run(async {
        let order = Arc::new(AtomicU32::new(0));
        let (tracker, dropped_at) = Tracker::new(order.clone());

        let guard = WithBox { boxed: Box::new(tracker) }.later();
        drop(guard);
        tokio::time::sleep(Duration::from_millis(50)).await;

        assert_eq!(dropped_at.load(Ordering::SeqCst), 1);
    });
}

#[derive(Debug)]
struct WithVec {
    many: Vec<SlowTracker>,
}

impl AsyncDrop for WithVec {
    async fn async_drop(self) {
        self.many.async_drop().await;
    }
}

#[test]
fn vec_drops_elements_concurrently() {
    assert_derives(
        "struct WithVec { #[eulogy] many: Vec<SlowTracker>, }",
        "impl ::eulogy::AsyncDrop for WithVec where Vec<SlowTracker>: ::eulogy::AsyncDrop {
            async fn async_drop(self) {
                self.many.async_drop().await;
            }
        }",
    );
    run(async {
        let done = Arc::new(AtomicU32::new(0));
        let delay = Duration::from_millis(100);
        let many = vec![
            SlowTracker { delay, done: done.clone() },
            SlowTracker { delay, done: done.clone() },
            SlowTracker { delay, done: done.clone() },
        ];

        let guard = WithVec { many }.later();

        let start = std::time::Instant::now();
        drop(guard);

        while done.load(Ordering::SeqCst) < 3 && start.elapsed() < Duration::from_millis(500) {
            tokio::time::sleep(Duration::from_millis(10)).await;
        }
        let elapsed = start.elapsed();

        assert_eq!(done.load(Ordering::SeqCst), 3);
        assert!(
            elapsed < Duration::from_millis(250),
            "expected concurrent drop (< ~1x delay), got {:?}",
            elapsed
        );
    });
}

#[derive(Debug)]
struct WithTuple {
    pair: (Tracker, Tracker),
}

impl AsyncDrop for WithTuple {
    async fn async_drop(self) {
        self.pair.async_drop().await;
    }
}

#[test]
fn tuple_field_drops_both_elements() {
    assert_derives(
        "struct WithTuple { #[eulogy] pair: (Tracker, Tracker), }",
        "impl ::eulogy::AsyncDrop for WithTuple where (Tracker, Tracker): ::eulogy::AsyncDrop {
            async fn async_drop(self) {
                self.pair.async_drop().await;
            }
        }",
    );
    run(async {
        let order = Arc::new(AtomicU32::new(0));
        let (a, a_at) = Tracker::new(order.clone());
        let (b, b_at) = Tracker::new(order.clone());

        let guard = WithTuple { pair: (a, b) }.later();
        drop(guard);
        tokio::time::sleep(Duration::from_millis(50)).await;

        assert!(a_at.load(Ordering::SeqCst) > 0);
        assert!(b_at.load(Ordering::SeqCst) > 0);
        assert_eq!(order.load(Ordering::SeqCst), 2);
    });
}

#[test]
fn tuple_elements_drop_in_order() {
    run(async {
        let order = Arc::new(AtomicU32::new(0));
        let done = Arc::new(AtomicU32::new(0));
        let (second, second_at) = Tracker::new(order.clone());
        let slow = SlowTracker { delay: Duration::from_millis(30), done: done.clone() };

        let guard = (slow, second).later();
        drop(guard);
        tokio::time::sleep(Duration::from_millis(10)).await;
        assert_eq!(done.load(Ordering::SeqCst), 0);
        assert_eq!(second_at.load(Ordering::SeqCst), 0);

        tokio::time::sleep(Duration::from_millis(80)).await;
        assert_eq!(done.load(Ordering::SeqCst), 1);
        assert_eq!(second_at.load(Ordering::SeqCst), 1);
    });
}
