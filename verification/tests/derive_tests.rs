use std::future::Future;
use std::sync::atomic::{AtomicU32, Ordering};
use std::sync::Arc;
use std::time::Duration;

use eulogy::__private::join_all;
use eulogy::{derive_async_drop, DropLater, FoundCrate, Spawner};

struct TokioSpawner;

impl Spawner for TokioSpawner {
    fn spawn<F: Future<Output = ()> + Send + 'static>(&self, future: F) {
        tokio::spawn(future);
    }
}

/// A type that can clean itself up.
trait AsyncDrop: Send {
    fn async_drop(self) -> impl Future<Output = ()> + Send;

    fn later(self) -> DropLater<Self>
    where
        Self: Sized + 'static,
    {
        eulogy::later_with(self, |value: Self| value.async_drop(), &TokioSpawner)
    }
}

fn run<F: Future<Output = ()>>(future: F) {
    tokio::runtime::Builder::new_current_thread()
        .enable_time()
        .build()
        .expect("a runtime")
        .block_on(future);
}

fn squeezed(text: &str) -> String {
    text.chars().filter(|c| !c.is_whitespace()).collect()
}

/// The derive writes this code for the item.
fn assert_derives(item: &str, code: &str) {
    let input = item.parse().expect("an item");
    let output = derive_async_drop(input, FoundCrate::Missing).to_string();
    assert_eq!(squeezed(&output), squeezed(code));
}

/// Tracks the order in which fields are dropped via an atomic counter.
#[derive(Debug)]
struct Tracker {
    order: Arc<AtomicU32>,
    dropped_at: Arc<AtomicU32>,
}

impl Tracker {
    fn new(order: Arc<AtomicU32>) -> (Self, Arc<AtomicU32>) {
        let dropped_at = Arc::new(AtomicU32::new(0));
        (Self { order, dropped_at: dropped_at.clone() }, dropped_at)
    }
}

impl AsyncDrop for Tracker {
    async fn async_drop(self) {
        let seq = self.order.fetch_add(1, Ordering::SeqCst) + 1;
        self.dropped_at.store(seq, Ordering::SeqCst);
    }
}

type Boxed = ::std::pin::Pin<Box<dyn ::std::future::Future<Output = ()> + Send>>;

#[derive(Debug)]
struct NoDeps {
    a: Tracker,
    b: Tracker,
}

impl AsyncDrop for NoDeps {
    async fn async_drop(self) {
        join_all(vec![
            Box::pin(self.a.async_drop()) as Boxed,
            Box::pin(self.b.async_drop()) as Boxed,
        ])
        .await;
    }
}

#[test]
fn no_deps_both_drop_concurrently() {
    assert_derives(
        "struct NoDeps { #[eulogy] a: Tracker, #[eulogy] b: Tracker, }",
        "impl ::eulogy::AsyncDrop for NoDeps
        where Tracker: ::eulogy::AsyncDrop, Tracker: ::eulogy::AsyncDrop {
            async fn async_drop(self) {
                ::eulogy::__private::join_all(vec![
                    Box::pin(self.a.async_drop())
                        as ::std::pin::Pin<Box<dyn ::std::future::Future<Output = ()> + Send>>,
                    Box::pin(self.b.async_drop())
                        as ::std::pin::Pin<Box<dyn ::std::future::Future<Output = ()> + Send>>
                ]).await;
            }
        }",
    );
    run(async {
        let order = Arc::new(AtomicU32::new(0));
        let (a, a_at) = Tracker::new(order.clone());
        let (b, b_at) = Tracker::new(order.clone());

        let guard = NoDeps { a, b }.later();
        drop(guard);
        tokio::time::sleep(Duration::from_millis(50)).await;

        assert!(a_at.load(Ordering::SeqCst) > 0);
        assert!(b_at.load(Ordering::SeqCst) > 0);
        assert_eq!(order.load(Ordering::SeqCst), 2);
    });
}

#[derive(Debug)]
struct WithOrdering {
    first: Tracker,
    second: Tracker,
    third: Tracker,
}

impl AsyncDrop for WithOrdering {
    async fn async_drop(self) {
        self.first.async_drop().await;
        self.second.async_drop().await;
        self.third.async_drop().await;
    }
}

#[test]
fn after_enforces_order() {
    assert_derives(
        "struct WithOrdering {
            #[eulogy]
            first: Tracker,
            #[eulogy(after = [first])]
            second: Tracker,
            #[eulogy(after = [second])]
            third: Tracker,
        }",
        "impl ::eulogy::AsyncDrop for WithOrdering
        where Tracker: ::eulogy::AsyncDrop, Tracker: ::eulogy::AsyncDrop,
            Tracker: ::eulogy::AsyncDrop {
            async fn async_drop(self) {
                self.first.async_drop().await;
                self.second.async_drop().await;
                self.third.async_drop().await;
            }
        }",
    );
    run(async {
        let order = Arc::new(AtomicU32::new(0));
        let (first, first_at) = Tracker::new(order.clone());
        let (second, second_at) = Tracker::new(order.clone());
        let (third, third_at) = Tracker::new(order.clone());

        let guard = WithOrdering { first, second, third }.later();
        drop(guard);
        tokio::time::sleep(Duration::from_millis(50)).await;

        assert_eq!(first_at.load(Ordering::SeqCst), 1);
        assert_eq!(second_at.load(Ordering::SeqCst), 2);
        assert_eq!(third_at.load(Ordering::SeqCst), 3);
    });
}

#[derive(Debug)]
struct Diamond {
    a: Tracker,
    b: Tracker,
    last: Tracker,
}

impl AsyncDrop for Diamond {
    async fn async_drop(self) {
        join_all(vec![
            Box::pin(self.a.async_drop()) as Boxed,
            Box::pin(self.b.async_drop()) as Boxed,
        ])
        .await;
        self.last.async_drop().await;
    }
}

#[test]
fn diamond_deps() {
    assert_derives(
        "struct Diamond {
            #[eulogy]
            a: Tracker,
            #[eulogy]
            b: Tracker,
            #[eulogy(after = [a, b])]
            last: Tracker,
        }",
        "impl ::eulogy::AsyncDrop for Diamond
        where Tracker: ::eulogy::AsyncDrop, Tracker: ::eulogy::AsyncDrop,
            Tracker: ::eulogy::AsyncDrop {
            async fn async_drop(self) {
                ::eulogy::__private::join_all(vec![
                    Box::pin(self.a.async_drop())
                        as ::std::pin::Pin<Box<dyn ::std::future::Future<Output = ()> + Send>>,
                    Box::pin(self.b.async_drop())
                        as ::std::pin::Pin<Box<dyn ::std::future::Future<Output = ()> + Send>>
                ]).await;
                self.last.async_drop().await;
            }
        }",
    );
    run(async {
        let order = Arc::new(AtomicU32::new(0));
        let (a, a_at) = Tracker::new(order.clone());
        let (b, b_at) = Tracker::new(order.clone());
        let (last, last_at) = Tracker::new(order.clone());

        let guard = Diamond { a, b, last }.later();
        drop(guard);
        tokio::time::sleep(Duration::from_millis(50)).await;

        assert!(a_at.load(Ordering::SeqCst) < last_at.load(Ordering::SeqCst));
        assert!(b_at.load(Ordering::SeqCst) < last_at.load(Ordering::SeqCst));
    });
}

// Two slow drops with no ordering; should run concurrently.
#[derive(Debug)]
struct SlowTracker {
    delay: Duration,
    done: Arc<AtomicU32>,
}

impl AsyncDrop for SlowTracker {
    async fn async_drop(self) {
        tokio::time::sleep(self.delay).await;
        self.done.fetch_add(1, Ordering::SeqCst);
    }
}

#[derive(Debug)]
struct TwoSlow {
    a: SlowTracker,
    b: SlowTracker,
}

impl AsyncDrop for TwoSlow {
    async fn async_drop(self) {
        join_all(vec![
            Box::pin(self.a.async_drop()) as Boxed,
            Box::pin(self.b.async_drop()) as Boxed,
        ])
        .await;
    }
}

#[test]
fn independent_slow_drops_run_concurrently() {
    assert_derives(
        "struct TwoSlow { a: SlowTracker, b: SlowTracker, }",
        "impl ::eulogy::AsyncDrop for TwoSlow
        where SlowTracker: ::eulogy::AsyncDrop, SlowTracker: ::eulogy::AsyncDrop {
            async fn async_drop(self) {
                ::eulogy::__private::join_all(vec![
                    Box::pin(self.a.async_drop())
                        as ::std::pin::Pin<Box<dyn ::std::future::Future<Output = ()> + Send>>,
                    Box::pin(self.b.async_drop())
                        as ::std::pin::Pin<Box<dyn ::std::future::Future<Output = ()> + Send>>
                ]).await;
            }
        }",
    );
    run(async {
        let done = Arc::new(AtomicU32::new(0));
        let delay = Duration::from_millis(100);
        let guard = TwoSlow {
            a: SlowTracker { delay, done: done.clone() },
            b: SlowTracker { delay, done: done.clone() },
        }
        .later();

        let start = std::time::Instant::now();
        drop(guard);

        // If serial, this would need > 200ms.
        while done.load(Ordering::SeqCst) < 2 && start.elapsed() < Duration::from_millis(500) {
            tokio::time::sleep(Duration::from_millis(10)).await;
        }
        let elapsed = start.elapsed();

        assert_eq!(done.load(Ordering::SeqCst), 2);
        assert!(
            elapsed < Duration::from_millis(180),
            "expected concurrent drop (< 2x delay), got {:?}",
            elapsed
        );
    });
}

// Generic struct: the derive adds `T: AsyncDrop` by itself.
#[derive(Debug)]
struct Generic<T: std::fmt::Debug + Send> {
    inner: T,
}

impl<T: std::fmt::Debug + Send> AsyncDrop for Generic<T>
where
    T: AsyncDrop,
{
    async fn async_drop(self) {
        self.inner.async_drop().await;
    }
}

#[test]
fn generic_field_gets_async_drop_bound() {
    assert_derives(
        "struct Generic<T: std::fmt::Debug + Send> { #[eulogy] inner: T, }",
        "impl<T: std::fmt::Debug + Send> ::eulogy::AsyncDrop for Generic<T>
        where T: ::eulogy::AsyncDrop {
            async fn async_drop(self) {
                self.inner.async_drop().await;
            }
        }",
    );
    run(async {
        let order = Arc::new(AtomicU32::new(0));
        let (tracker, dropped_at) = Tracker::new(order.clone());
        let guard = Generic { inner: tracker }.later();
        drop(guard);
        tokio::time::sleep(Duration::from_millis(50)).await;
        assert_eq!(dropped_at.load(Ordering::SeqCst), 1);
    });
}

#[derive(Debug)]
struct SkipsOptOut {
    watched: Tracker,
    #[allow(dead_code)]
    not_watched: Tracker,
}

impl AsyncDrop for SkipsOptOut {
    async fn async_drop(self) {
        self.watched.async_drop().await;
    }
}

#[test]
fn skip_opts_out_of_async_drop() {
    assert_derives(
        "struct SkipsOptOut {
            tracked: Tracker,
            #[eulogy(skip)]
            #[allow(dead_code)]
            not_tracked: Tracker,
        }",
        "impl ::eulogy::AsyncDrop for SkipsOptOut where Tracker: ::eulogy::AsyncDrop {
            async fn async_drop(self) {
                self.tracked.async_drop().await;
            }
        }",
    );
    run(async {
        let order = Arc::new(AtomicU32::new(0));
        let (watched, watched_at) = Tracker::new(order.clone());
        let (not_watched, not_watched_at) = Tracker::new(order.clone());

        let guard = SkipsOptOut { watched, not_watched }.later();
        drop(guard);
        tokio::time::sleep(Duration::from_millis(50)).await;

        assert_eq!(watched_at.load(Ordering::SeqCst), 1);
        assert_eq!(
            not_watched_at.load(Ordering::SeqCst),
            0,
            "#[eulogy(skip)] field should not have async_drop called"
        );
        assert_eq!(order.load(Ordering::SeqCst), 1);
    });
}

// Tuple struct with two independent fields.
#[derive(Debug)]
struct TupleNoDeps(Tracker, Tracker);

impl AsyncDrop for TupleNoDeps {
    async fn async_drop(self) {
        join_all(vec![
            Box::pin(self.0.async_drop()) as Boxed,
            Box::pin(self.1.async_drop()) as Boxed,
        ])
        .await;
    }
}

#[test]
fn tuple_struct_no_deps() {
    assert_derives(
        "struct TupleNoDeps(Tracker, Tracker);",
        "impl ::eulogy::AsyncDrop for TupleNoDeps
        where Tracker: ::eulogy::AsyncDrop, Tracker: ::eulogy::AsyncDrop {
            async fn async_drop(self) {
                ::eulogy::__private::join_all(vec![
                    Box::pin(self.0.async_drop())
                        as ::std::pin::Pin<Box<dyn ::std::future::Future<Output = ()> + Send>>,
                    Box::pin(self.1.async_drop())
                        as ::std::pin::Pin<Box<dyn ::std::future::Future<Output = ()> + Send>>
                ]).await;
            }
        }",
    );
    run(async {
        let order = Arc::new(AtomicU32::new(0));
        let (a, a_at) = Tracker::new(order.clone());
        let (b, b_at) = Tracker::new(order.clone());

        let guard = TupleNoDeps(a, b).later();
        drop(guard);
        tokio::time::sleep(Duration::from_millis(50)).await;

        assert!(a_at.load(Ordering::SeqCst) > 0);
        assert!(b_at.load(Ordering::SeqCst) > 0);
        assert_eq!(order.load(Ordering::SeqCst), 2);
    });
}

// Tuple struct with positional ordering: field 1 waits on field 0.
#[derive(Debug)]
struct TupleOrdered(Tracker, Tracker);

impl AsyncDrop for TupleOrdered {
    async fn async_drop(self) {
        self.0.async_drop().await;
        self.1.async_drop().await;
    }
}

#[test]
fn tuple_struct_after_index() {
    assert_derives(
        "struct TupleOrdered(Tracker, #[eulogy(after = [0])] Tracker);",
        "impl ::eulogy::AsyncDrop for TupleOrdered
        where Tracker: ::eulogy::AsyncDrop, Tracker: ::eulogy::AsyncDrop {
            async fn async_drop(self) {
                self.0.async_drop().await;
                self.1.async_drop().await;
            }
        }",
    );
    run(async {
        let order = Arc::new(AtomicU32::new(0));
        let (first, first_at) = Tracker::new(order.clone());
        let (second, second_at) = Tracker::new(order.clone());

        let guard = TupleOrdered(first, second).later();
        drop(guard);
        tokio::time::sleep(Duration::from_millis(50)).await;

        assert_eq!(first_at.load(Ordering::SeqCst), 1);
        assert_eq!(second_at.load(Ordering::SeqCst), 2);
    });
}

// Unit struct: no fields, nothing to do.
#[derive(Debug)]
struct Sentinel;

impl AsyncDrop for Sentinel {
    async fn async_drop(self) {}
}

#[test]
fn unit_struct_derive_compiles_and_runs() {
    assert_derives(
        "struct Sentinel;",
        "impl ::eulogy::AsyncDrop for Sentinel { async fn async_drop(self) { } }",
    );
    run(async {
        let guard = Sentinel.later();
        drop(guard);
        tokio::time::sleep(Duration::from_millis(20)).await;
    });
}

#[derive(Debug)]
enum EnumNoDeps {
    Variant { a: Tracker, b: Tracker },
}

impl AsyncDrop for EnumNoDeps {
    async fn async_drop(self) {
        match self {
            Self::Variant { a: __eulogy_0, b: __eulogy_1, .. } => {
                join_all(vec![
                    Box::pin(__eulogy_0.async_drop()) as Boxed,
                    Box::pin(__eulogy_1.async_drop()) as Boxed,
                ])
                .await;
            }
        }
    }
}

#[test]
fn enum_no_deps_both_drop_concurrently() {
    assert_derives(
        "enum EnumNoDeps { Variant { #[eulogy] a: Tracker, #[eulogy] b: Tracker, }, }",
        "impl ::eulogy::AsyncDrop for EnumNoDeps
        where Tracker: ::eulogy::AsyncDrop, Tracker: ::eulogy::AsyncDrop {
            async fn async_drop(self) {
                match self {
                    Self::Variant { a: __eulogy_0, b: __eulogy_1, .. } => {
                        ::eulogy::__private::join_all(vec![
                            Box::pin(__eulogy_0.async_drop())
                                as ::std::pin::Pin<Box<dyn ::std::future::Future<Output = ()> + Send>>,
                            Box::pin(__eulogy_1.async_drop())
                                as ::std::pin::Pin<Box<dyn ::std::future::Future<Output = ()> + Send>>
                        ]).await;
                    }
                }
            }
        }",
    );
    run(async {
        let order = Arc::new(AtomicU32::new(0));
        let (a, a_at) = Tracker::new(order.clone());
        let (b, b_at) = Tracker::new(order.clone());

        let guard = EnumNoDeps::Variant { a, b }.later();
        drop(guard);
        tokio::time::sleep(Duration::from_millis(50)).await;

        assert!(a_at.load(Ordering::SeqCst) > 0);
        assert!(b_at.load(Ordering::SeqCst) > 0);
        assert_eq!(order.load(Ordering::SeqCst), 2);
    });
}

#[derive(Debug)]
enum EnumOrdered {
    Variant { first: Tracker, second: Tracker },
}

impl AsyncDrop for EnumOrdered {
    async fn async_drop(self) {
        match self {
            Self::Variant { first: __eulogy_0, second: __eulogy_1, .. } => {
                __eulogy_0.async_drop().await;
                __eulogy_1.async_drop().await;
            }
        }
    }
}

#[test]
fn enum_after_enforces_order() {
    assert_derives(
        "enum EnumOrdered {
            Variant { #[eulogy] first: Tracker, #[eulogy(after = [first])] second: Tracker, },
        }",
        "impl ::eulogy::AsyncDrop for EnumOrdered
        where Tracker: ::eulogy::AsyncDrop, Tracker: ::eulogy::AsyncDrop {
            async fn async_drop(self) {
                match self {
                    Self::Variant { first: __eulogy_0, second: __eulogy_1, .. } => {
                        __eulogy_0.async_drop().await;
                        __eulogy_1.async_drop().await;
                    }
                }
            }
        }",
    );
    run(async {
        let order = Arc::new(AtomicU32::new(0));
        let (first, first_at) = Tracker::new(order.clone());
        let (second, second_at) = Tracker::new(order.clone());

        let guard = EnumOrdered::Variant { first, second }.later();
        drop(guard);
        tokio::time::sleep(Duration::from_millis(50)).await;

        assert_eq!(first_at.load(Ordering::SeqCst), 1);
        assert_eq!(second_at.load(Ordering::SeqCst), 2);
    });
}

// Mixes a named variant, a tuple variant, and a unit variant in one enum.
#[derive(Debug)]
enum EnumMixed {
    Named { watched: Tracker },
    Tuple(Tracker, Tracker),
    Empty,
}

impl AsyncDrop for EnumMixed {
    async fn async_drop(self) {
        match self {
            Self::Named { watched: __eulogy_0, .. } => {
                __eulogy_0.async_drop().await;
            }
            Self::Tuple { 0: __eulogy_0, 1: __eulogy_1, .. } => {
                __eulogy_0.async_drop().await;
                __eulogy_1.async_drop().await;
            }
            Self::Empty { .. } => {}
        }
    }
}

fn assert_derives_mixed() {
    assert_derives(
        "enum EnumMixed {
            Named { #[eulogy] tracked: Tracker, },
            Tuple(Tracker, #[eulogy(after = [0])] Tracker),
            Empty,
        }",
        "impl ::eulogy::AsyncDrop for EnumMixed
        where Tracker: ::eulogy::AsyncDrop, Tracker: ::eulogy::AsyncDrop,
            Tracker: ::eulogy::AsyncDrop {
            async fn async_drop(self) {
                match self {
                    Self::Named { tracked: __eulogy_0, .. } => {
                        __eulogy_0.async_drop().await;
                    }
                    Self::Tuple { 0: __eulogy_0, 1: __eulogy_1, .. } => {
                        __eulogy_0.async_drop().await;
                        __eulogy_1.async_drop().await;
                    }
                    Self::Empty { .. } => { }
                }
            }
        }",
    );
}

#[test]
fn enum_mixed_variants_named() {
    assert_derives_mixed();
    run(async {
        let order = Arc::new(AtomicU32::new(0));
        let (watched, watched_at) = Tracker::new(order.clone());

        let guard = EnumMixed::Named { watched }.later();
        drop(guard);
        tokio::time::sleep(Duration::from_millis(50)).await;

        assert_eq!(watched_at.load(Ordering::SeqCst), 1);
    });
}

#[test]
fn enum_mixed_variants_tuple_after_index() {
    assert_derives_mixed();
    run(async {
        let order = Arc::new(AtomicU32::new(0));
        let (first, first_at) = Tracker::new(order.clone());
        let (second, second_at) = Tracker::new(order.clone());

        let guard = EnumMixed::Tuple(first, second).later();
        drop(guard);
        tokio::time::sleep(Duration::from_millis(50)).await;

        assert_eq!(first_at.load(Ordering::SeqCst), 1);
        assert_eq!(second_at.load(Ordering::SeqCst), 2);
    });
}

#[test]
fn enum_mixed_variants_empty_is_noop() {
    assert_derives_mixed();
    run(async {
        let guard = EnumMixed::Empty.later();
        drop(guard);
        tokio::time::sleep(Duration::from_millis(20)).await;
    });
}

#[derive(Debug)]
enum EnumSkip {
    Variant {
        watched: Tracker,
        #[allow(dead_code)]
        not_watched: Tracker,
    },
}

impl AsyncDrop for EnumSkip {
    async fn async_drop(self) {
        match self {
            Self::Variant { watched: __eulogy_0, .. } => {
                __eulogy_0.async_drop().await;
            }
        }
    }
}

#[test]
fn enum_skip_opts_out_of_async_drop() {
    assert_derives(
        "enum EnumSkip {
            Variant {
                tracked: Tracker,
                #[eulogy(skip)]
                #[allow(dead_code)]
                not_tracked: Tracker,
            },
        }",
        "impl ::eulogy::AsyncDrop for EnumSkip where Tracker: ::eulogy::AsyncDrop {
            async fn async_drop(self) {
                match self {
                    Self::Variant { tracked: __eulogy_0, .. } => {
                        __eulogy_0.async_drop().await;
                    }
                }
            }
        }",
    );
    run(async {
        let order = Arc::new(AtomicU32::new(0));
        let (watched, watched_at) = Tracker::new(order.clone());
        let (not_watched, not_watched_at) = Tracker::new(order.clone());

        let guard = EnumSkip::Variant { watched, not_watched }.later();
        drop(guard);
        tokio::time::sleep(Duration::from_millis(50)).await;

        assert_eq!(watched_at.load(Ordering::SeqCst), 1);
        assert_eq!(
            not_watched_at.load(Ordering::SeqCst),
            0,
            "#[eulogy(skip)] field should not have async_drop called"
        );
        assert_eq!(order.load(Ordering::SeqCst), 1);
    });
}

// Generic enum: the derive adds `T: AsyncDrop` by itself.
#[derive(Debug)]
enum GenericEnum<T: std::fmt::Debug + Send> {
    Variant { inner: T },
    #[allow(dead_code)]
    Other,
}

impl<T: std::fmt::Debug + Send> AsyncDrop for GenericEnum<T>
where
    T: AsyncDrop,
{
    async fn async_drop(self) {
        match self {
            Self::Variant { inner: __eulogy_0, .. } => {
                __eulogy_0.async_drop().await;
            }
            Self::Other { .. } => {}
        }
    }
}

#[test]
fn enum_generic_field_gets_async_drop_bound() {
    assert_derives(
        "enum GenericEnum<T: std::fmt::Debug + Send> {
            Variant { #[eulogy] inner: T, },
            #[allow(dead_code)]
            Other,
        }",
        "impl<T: std::fmt::Debug + Send> ::eulogy::AsyncDrop for GenericEnum<T>
        where T: ::eulogy::AsyncDrop {
            async fn async_drop(self) {
                match self {
                    Self::Variant { inner: __eulogy_0, .. } => {
                        __eulogy_0.async_drop().await;
                    }
                    Self::Other { .. } => { }
                }
            }
        }",
    );
    run(async {
        let order = Arc::new(AtomicU32::new(0));
        let (tracker, dropped_at) = Tracker::new(order.clone());
        let guard = GenericEnum::Variant { inner: tracker }.later();
        drop(guard);
        tokio::time::sleep(Duration::from_millis(50)).await;
        assert_eq!(dropped_at.load(Ordering::SeqCst), 1);
    });
}

// Empty enum: the match has no arms, and must still compile.
#[allow(dead_code)]
enum NeverConstructed {}

impl AsyncDrop for NeverConstructed {
    async fn async_drop(self) {
        match self {}
    }
}

#[test]
fn empty_enum_has_no_arms() {
    assert_derives(
        "enum NeverConstructed {}",
        "impl ::eulogy::AsyncDrop for NeverConstructed {
            async fn async_drop(self) { match self { } }
        }",
    );
}
