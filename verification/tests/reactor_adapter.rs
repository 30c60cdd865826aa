use glommio::timer::reactor_adapter::ReactorTimers;
use std::sync::atomic::{AtomicUsize, Ordering};
use std::sync::Arc;
use std::task::{Wake, Waker};

const MS: u64 = 1_000_000;
const NOW: u64 = 77_000 * MS;

struct DummyWaker;

impl Wake for DummyWaker {
    fn wake(self: Arc<Self>) {}
}

fn dummy_waker() -> Waker {
    Arc::new(DummyWaker).into()
}

struct CountingWaker {
    fired: AtomicUsize,
}

impl Wake for CountingWaker {
    fn wake(self: Arc<Self>) {
        self.fired.fetch_add(1, Ordering::SeqCst);
    }
}

#[test]
fn test_insert_and_process() {
    let now = NOW;
    let mut timers = ReactorTimers::new_at(now);

    let _id = timers.insert(now + 100 * MS, dummy_waker());
    assert_eq!(timers.len(), 1);

    let (next, woke) = timers.process_timers(now);
    assert_eq!(woke.len(), 0);
    assert!(next.is_some());
    assert_eq!(timers.len(), 1);

    let (_, woke) = timers.process_timers(now + 150 * MS);
    assert_eq!(woke.len(), 1);
    assert_eq!(timers.len(), 0);
}

#[test]
fn test_remove() {
    let now = NOW;
    let mut timers = ReactorTimers::new_at(now);

    let id = timers.insert(now + 100 * MS, dummy_waker());
    assert_eq!(timers.len(), 1);

    assert!(timers.remove(id));
    assert_eq!(timers.len(), 0);

    assert!(!timers.remove(id));
}

#[test]
fn test_exists() {
    let now = NOW;
    let mut timers = ReactorTimers::new_at(now);

    let id = timers.insert(now + 100 * MS, dummy_waker());

    assert!(timers.timer_exists(id));

    timers.remove(id);
    assert!(!timers.timer_exists(id));
}

#[test]
fn test_multiple_timers() {
    let now = NOW;
    let mut timers = ReactorTimers::new_at(now);

    let id1 = timers.insert(now + 100 * MS, dummy_waker());
    let id2 = timers.insert(now + 200 * MS, dummy_waker());
    let id3 = timers.insert(now + 300 * MS, dummy_waker());

    assert_eq!(timers.len(), 3);

    assert!(timers.remove(id2));
    assert_eq!(timers.len(), 2);

    assert!(timers.timer_exists(id1));
    assert!(!timers.timer_exists(id2));
    assert!(timers.timer_exists(id3));
}

#[test]
fn next_wait_is_the_time_to_the_earliest_timer() {
    let mut timers = ReactorTimers::new_at(NOW);
    assert!(timers.is_empty());
    assert_eq!(timers.process_timers(NOW).0, None);
    let late = timers.insert(NOW + 900 * MS, dummy_waker());
    timers.insert(NOW + 250 * MS, dummy_waker());
    timers.insert(NOW + 400 * MS, dummy_waker());
    let (next, woke) = timers.process_timers(NOW + 50 * MS);
    assert_eq!(woke.len(), 0);
    assert_eq!(next, Some(200 * MS));
    let (next, woke) = timers.process_timers(NOW + 250 * MS);
    assert_eq!(woke.len(), 1);
    assert_eq!(next, Some(150 * MS));
    let (next, woke) = timers.process_timers(NOW + 450 * MS);
    assert_eq!(woke.len(), 1);
    assert_eq!(next, Some(450 * MS));
    assert!(timers.timer_exists(late));
    let (next, woke) = timers.process_timers(NOW + 2_000 * MS);
    assert_eq!(woke.len(), 1);
    assert_eq!(next, None);
    assert!(timers.is_empty());
}

#[test]
fn ids_are_the_storage_ids_with_generation_zero() {
    let mut timers = ReactorTimers::new_at(NOW);
    let a = timers.insert(NOW + MS, dummy_waker());
    let b = timers.insert(NOW + MS, dummy_waker());
    assert_eq!((a.index(), a.generation()), (0, 0));
    assert_eq!((b.index(), b.generation()), (1, 0));
}

#[test]
fn collected_wakers_fire_their_tasks() {
    let mut timers = ReactorTimers::new_at(NOW);
    let due = Arc::new(CountingWaker { fired: AtomicUsize::new(0) });
    let not_due = Arc::new(CountingWaker { fired: AtomicUsize::new(0) });
    timers.insert(NOW + 5 * MS, Waker::from(due.clone()));
    timers.insert(NOW + 50 * MS, Waker::from(not_due.clone()));
    let (_, woke) = timers.process_timers(NOW + 5 * MS);
    for waker in woke {
        waker.wake();
    }
    assert_eq!(due.fired.load(Ordering::SeqCst), 1);
    assert_eq!(not_due.fired.load(Ordering::SeqCst), 0);
}

#[test]
fn a_timer_that_rearms_itself_a_thousand_times() {
    let mut timers = ReactorTimers::new_at(NOW);
    let mut now = NOW;
    timers.insert(now + 5 * MS, dummy_waker());
    let mut rounds = 0;
    while rounds < 1_000 {
        now += 5 * MS;
        let (_, woke) = timers.process_timers(now);
        assert_eq!(woke.len(), 1);
        for waker in woke {
            waker.wake();
            timers.insert(now + 5 * MS, dummy_waker());
        }
        rounds += 1;
    }
    assert_eq!(now - NOW, 5_000 * MS);
    assert_eq!(timers.len(), 1);
}
