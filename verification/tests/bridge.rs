use prime_stream::bridge::{plan_item, plan_step, probed, sent, settle, Action, Verdict};
use prime_stream::error::MpscSendError;
use prime_stream::factor::{prime_factor, PrimeFactor};
use prime_stream::primes::{primes_unbounded, UnboundedPrimes};
use std::sync::atomic::{AtomicUsize, Ordering};
use std::sync::Arc;
use std::task::Poll;
use tokio::runtime::Runtime;
use tokio::stream::StreamExt;
use tokio::sync::mpsc::{channel, Receiver, Sender};
use tokio::task::JoinHandle;

type Stopped<T> = JoinHandle<Result<(), MpscSendError<T>>>;

fn runtime() -> Runtime {
    tokio::runtime::Builder::new().basic_scheduler().build().unwrap()
}

async fn poll_once<T>(s: &mut Sender<T>) -> Option<Result<(), tokio::sync::mpsc::error::ClosedError>> {
    tokio::future::poll_fn(|cx| match s.poll_ready(cx) {
        Poll::Ready(answer) => Poll::Ready(Some(answer)),
        Poll::Pending => Poll::Ready(None),
    })
    .await
}

/// A worker over a producer whose every step is an item.
fn bridge<T: Send + 'static>(
    mut it: impl Iterator<Item = T> + Send + 'static,
    capacity: usize,
) -> (Receiver<T>, Stopped<T>) {
    let (mut s, r) = channel(capacity);
    let worker = tokio::spawn(async move {
        loop {
            let outcome = match plan_item(it.next()) {
                Action::Send(x) => sent(s.send(x).await),
                Action::Probe => probed(poll_once(&mut s).await),
                Action::Finish => return Ok(()),
            };
            if let Verdict::Halt(cause) = settle(outcome) {
                return Err(cause);
            }
        }
    });
    (r, worker)
}

/// A worker over a producer whose steps may lack an item.
fn bridge_with_liveness<T: Send + 'static>(
    mut it: impl Iterator<Item = Option<T>> + Send + 'static,
    capacity: usize,
) -> (Receiver<T>, Stopped<T>) {
    let (mut s, r) = channel(capacity);
    let worker = tokio::spawn(async move {
        loop {
            let outcome = match plan_step(it.next()) {
                Action::Send(x) => sent(s.send(x).await),
                Action::Probe => probed(poll_once(&mut s).await),
                Action::Finish => return Ok(()),
            };
            if let Verdict::Halt(cause) = settle(outcome) {
                return Err(cause);
            }
        }
    });
    (r, worker)
}

struct Factors(PrimeFactor);

impl Iterator for Factors {
    type Item = Option<(usize, usize)>;

    fn next(&mut self) -> Option<Option<(usize, usize)>> {
        self.0.next()
    }
}

struct AllPrimes(UnboundedPrimes);

impl Iterator for AllPrimes {
    type Item = usize;

    fn next(&mut self) -> Option<usize> {
        self.0.next()
    }
}

/// Counts the steps that are pulled from it.
struct Counting<I> {
    inner: I,
    pulls: Arc<AtomicUsize>,
}

impl<I: Iterator> Iterator for Counting<I> {
    type Item = I::Item;

    fn next(&mut self) -> Option<I::Item> {
        self.pulls.fetch_add(1, Ordering::SeqCst);
        self.inner.next()
    }
}

async fn drain<T>(mut r: Receiver<T>) -> Vec<T> {
    let mut got = Vec::new();
    while let Some(x) = r.recv().await {
        got.push(x);
    }
    got
}

#[test]
fn decisions_follow_the_step() {
    assert_eq!(plan_step(Some(Some(5))), Action::Send(5));
    assert_eq!(plan_step::<u8>(Some(None)), Action::Probe);
    assert_eq!(plan_step::<u8>(None), Action::Finish);
    assert_eq!(plan_item(Some(5)), Action::Send(5));
    assert_eq!(plan_item::<u8>(None), Action::Finish);
}

#[test]
fn draining_gives_the_producer_in_order() {
    let items: Vec<u32> = (0..200).map(|i| i * 7 % 31).collect();
    for capacity in [1usize, 2, 3, 64, 1000] {
        let expected = items.clone();
        let got = runtime().block_on(async move {
            let (r, worker) = bridge(expected.clone().into_iter(), capacity);
            let got = drain(r).await;
            assert_eq!(worker.await.unwrap(), Ok(()));
            got
        });
        assert_eq!(got, items);
    }
}

#[test]
fn draining_an_empty_producer_gives_nothing() {
    let got = runtime().block_on(async {
        let (r, _worker) = bridge(Vec::<u8>::new().into_iter(), 1);
        drain(r).await
    });
    assert_eq!(got, Vec::<u8>::new());
}

#[test]
fn capacity_changes_nothing_that_is_received() {
    let steps: Vec<Option<u32>> =
        (0..300).map(|i| if i % 3 == 0 { None } else { Some(i) }).collect();
    let items: Vec<u32> = steps.iter().flatten().copied().collect();
    let small = steps.clone();
    let one = runtime().block_on(async move {
        let (r, _worker) = bridge_with_liveness(small.into_iter(), 1);
        drain(r).await
    });
    let thousand = runtime().block_on(async move {
        let (r, _worker) = bridge_with_liveness(steps.into_iter(), 1000);
        drain(r).await
    });
    assert_eq!(one, thousand);
    assert_eq!(one, items);
}

#[test]
fn dropping_the_consumer_stops_the_worker() {
    for capacity in [1usize, 4, 16] {
        let taken: usize = 5;
        let pulls = Arc::new(AtomicUsize::new(0));
        let counter = pulls.clone();
        let stopped = runtime().block_on(async move {
            let producer = Counting { inner: 0u64.., pulls: counter };
            let (mut r, worker) = bridge(producer, capacity);
            for expected in 0..taken as u64 {
                assert_eq!(r.recv().await, Some(expected));
            }
            drop(r);
            worker.await.unwrap()
        });
        assert!(matches!(stopped, Err(MpscSendError::Closed(_))));
        // Received, queued, held, and at most one step pulled after the drop.
        assert!(pulls.load(Ordering::SeqCst) <= taken + capacity + 2);
    }
}

#[test]
fn a_probe_notices_the_dropped_consumer() {
    let pulls = Arc::new(AtomicUsize::new(0));
    let counter = pulls.clone();
    let stopped = runtime().block_on(async move {
        let producer = Counting { inner: std::iter::repeat(None::<u8>), pulls: counter };
        let (r, worker) = bridge_with_liveness(producer, 1);
        drop(r);
        worker.await.unwrap()
    });
    assert_eq!(stopped, Err(MpscSendError::ClosedNoValue));
    assert_eq!(pulls.load(Ordering::SeqCst), 1);
}

#[test]
fn a_send_notices_the_dropped_consumer() {
    let pulls = Arc::new(AtomicUsize::new(0));
    let counter = pulls.clone();
    let stopped = runtime().block_on(async move {
        let producer = Counting { inner: 40u8.., pulls: counter };
        let (r, worker) = bridge(producer, 1);
        drop(r);
        worker.await.unwrap()
    });
    assert_eq!(stopped, Err(MpscSendError::Closed(40)));
    assert_eq!(pulls.load(Ordering::SeqCst), 1);
}

#[test]
fn probes_do_not_wait_for_room() {
    // The queue holds one item and is never read while the producer goes
    // through a thousand steps without an item.
    let got = runtime().block_on(async {
        let steps = std::iter::once(Some(9u8)).chain((0..1000).map(|_| None));
        let (mut r, worker) = bridge_with_liveness(steps, 1);
        assert_eq!(worker.await.unwrap(), Ok(()));
        let first = r.recv().await;
        let end = r.recv().await;
        (first, end)
    });
    assert_eq!(got, (Some(9), None));
}

#[test]
fn test_primes_unbounded() {
    let stopped = runtime().block_on(async {
        let (mut primes, worker) = bridge(AllPrimes(primes_unbounded()), 1);
        assert_eq!(primes.next().await, Some(2));
        assert_eq!(primes.next().await, Some(3));
        assert_eq!(primes.next().await, Some(5));
        assert_eq!(primes.next().await, Some(7));
        drop(primes);
        worker.await.unwrap()
    });
    assert!(matches!(stopped, Err(MpscSendError::Closed(_))));
}

#[test]
fn test_prime_factor() {
    runtime().block_on(async {
        // 2*2*2*2*3*11*11*17
        let (mut factors, _worker) = bridge_with_liveness(Factors(PrimeFactor::new(98_736)), 1);
        assert_eq!(factors.next().await, Some((2, 4)));
        assert_eq!(factors.next().await, Some((3, 1)));
        assert_eq!(factors.next().await, Some((11, 2)));
        assert_eq!(factors.next().await, Some((17, 1)));
        assert_eq!(factors.next().await, None);
    });
}

#[test]
fn test_prime_factor_large_prime() {
    runtime().block_on(async {
        // 2*2*2*2*3*11*11*982_451_653
        let (mut factors, _worker) =
            bridge_with_liveness(Factors(PrimeFactor::new(5_706_079_200_624)), 1);
        assert_eq!(factors.next().await, Some((2, 4)));
        assert_eq!(factors.next().await, Some((3, 1)));
        assert_eq!(factors.next().await, Some((11, 2)));
        assert_eq!(factors.next().await, Some((982_451_653, 1)));
        assert_eq!(factors.next().await, None);
    });
}

#[test]
fn bridged_factorization_is_the_drained_one() {
    for n in [1usize, 2, 16, 415, 98_736, 5_706_079_200_624] {
        for capacity in [1usize, 1000] {
            let got = runtime().block_on(async move {
                let (r, _worker) = bridge_with_liveness(Factors(PrimeFactor::new(n)), capacity);
                drain(r).await
            });
            assert_eq!(got, prime_factor(n));
        }
    }
}
