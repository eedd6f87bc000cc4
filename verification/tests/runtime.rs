//! The library against the real backend: timers and the blocking run.

use std::time::{Duration, Instant};

use futures::future::FutureExt;
use futures::stream::StreamExt;
use subscriptions::executor::Executor;
use subscriptions::time::every;

#[test]
fn block_on_returns_only_after_root_completes() {
    let exec = Executor::new();
    assert!(exec.is_ok());
    // a spawned task that never completes must not keep block_on alive
    let _ = async_std::task::spawn(futures::future::pending::<()>());
    let start = Instant::now();
    async_std::task::block_on(async_std::task::sleep(Duration::from_millis(100)));
    let elapsed = start.elapsed();
    // block_on waited for the root task and returned right after it
    assert!(elapsed >= Duration::from_millis(95));
    assert!(elapsed < Duration::from_secs(10));
}

#[test]
fn interval_first_emission_after_one_duration() {
    let s = every(100_000_000);
    let subscriptions::subscription::Recipe::PeriodicTimer { interval_nanos } = s.recipe();
    let start = Instant::now();
    let mut ticks = async_std::stream::interval(Duration::from_nanos(interval_nanos));
    let first = async_std::task::block_on(ticks.next());
    assert!(first.is_some());
    // no emission before one full interval has elapsed
    assert!(start.elapsed() >= Duration::from_millis(95));
    let second = async_std::task::block_on(ticks.next());
    assert!(second.is_some());
    assert!(start.elapsed() >= Duration::from_millis(195));
}

#[test]
fn cancelled_sequence_stops_emitting() {
    let (tx, mut rx) = futures::channel::mpsc::unbounded::<Instant>();
    let (cancel_tx, cancel_rx) = futures::channel::oneshot::channel::<()>();
    let ticks = async_std::stream::interval(Duration::from_millis(50))
        .map(|_| Instant::now())
        .map(Ok);
    let forward = ticks.forward(tx);
    let task = futures::future::select(forward, cancel_rx).map(|_| ());
    let _ = async_std::task::spawn(task);
    async_std::task::block_on(async_std::task::sleep(Duration::from_millis(225)));
    // cancelling: dropping the sender resolves the select, ending the task
    drop(cancel_tx);
    async_std::task::block_on(async_std::task::sleep(Duration::from_millis(200)));
    let mut emitted: usize = 0;
    let mut closed = false;
    loop {
        match rx.try_next() {
            Ok(Some(_)) => emitted += 1,
            Ok(None) => {
                closed = true;
                break;
            }
            Err(_) => break,
        }
    }
    // the timer ticked while it ran, but never after cancellation: the
    // 200ms that followed would have brought at least three more ticks
    assert!(emitted >= 3);
    assert!(emitted <= 6);
    assert!(closed);
}

#[test]
fn fast_timer_emits_thrice_before_slow_timer_once() {
    let fast = async_std::stream::interval(Duration::from_millis(50))
        .map(|_| Instant::now())
        .take(3)
        .collect::<Vec<Instant>>();
    let slow = async_std::stream::interval(Duration::from_millis(200))
        .map(|_| Instant::now())
        .take(1)
        .collect::<Vec<Instant>>();
    let (fast_ticks, slow_ticks) = async_std::task::block_on(futures::future::join(fast, slow));
    assert_eq!(fast_ticks.len(), 3);
    assert_eq!(slow_ticks.len(), 1);
    // the 50ms source emitted its third value no later than the 200ms
    // source emitted its first
    assert!(fast_ticks[2] <= slow_ticks[0]);
}
