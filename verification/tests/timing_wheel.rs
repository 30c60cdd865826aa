use glommio::timer::timing_wheel::TimingWheel;
use std::sync::atomic::{AtomicUsize, Ordering};
use std::sync::Arc;
use std::task::{Wake, Waker};

const MS: u64 = 1_000_000;
const SECOND: u64 = 1_000 * MS;
const START: u64 = 5_000 * SECOND;

struct DummyWaker;

impl Wake for DummyWaker {
    fn wake(self: Arc<Self>) {}
}

fn dummy_waker() -> Waker {
    Arc::new(DummyWaker).into()
}

struct CountingWaker {
    fired: AtomicUsize,
}

impl Wake for CountingWaker {
    fn wake(self: Arc<Self>) {
        self.fired.fetch_add(1, Ordering::SeqCst);
    }
}

fn ids(drained: Vec<(u64, Waker)>) -> Vec<u64> {
    drained.into_iter().map(|(id, _)| id).collect()
}

#[test]
fn test_basic_insert_and_expire() {
    let start = START;
    let mut wheel = TimingWheel::new_at(start);

    let id = wheel.insert(start + 100 * MS, dummy_waker());

    assert_eq!(wheel.len(), 1);

    wheel.advance_to(start + 100 * MS);

    let expired: Vec<_> = wheel.drain_expired();
    assert_eq!(expired.len(), 1);
    assert_eq!(expired[0].0, id);

    assert_eq!(wheel.len(), 0);
}

#[test]
fn test_remove_timer() {
    let start = START;
    let mut wheel = TimingWheel::new_at(start);

    let id = wheel.insert(start + 100 * MS, dummy_waker());
    assert_eq!(wheel.len(), 1);

    assert!(wheel.remove(id));
    assert_eq!(wheel.len(), 0);

    wheel.advance_to(start + 100 * MS);
    assert_eq!(wheel.drain_expired().len(), 0);
}

#[test]
fn test_multiple_timers_same_slot() {
    let start = START;
    let mut wheel = TimingWheel::new_at(start);

    let id1 = wheel.insert(start + 50 * MS, dummy_waker());
    let id2 = wheel.insert(start + 50 * MS, dummy_waker());
    let id3 = wheel.insert(start + 50 * MS, dummy_waker());

    assert_eq!(wheel.len(), 3);

    wheel.advance_to(start + 50 * MS);

    let expired: Vec<_> = ids(wheel.drain_expired());
    assert_eq!(expired.len(), 3);
    assert!(expired.contains(&id1));
    assert!(expired.contains(&id2));
    assert!(expired.contains(&id3));
}

#[test]
fn test_timer_ordering() {
    let start = START;
    let mut wheel = TimingWheel::new_at(start);

    wheel.insert(start + 30 * MS, dummy_waker());
    wheel.insert(start + 10 * MS, dummy_waker());
    wheel.insert(start + 20 * MS, dummy_waker());

    wheel.advance_to(start + 10 * MS);
    assert_eq!(wheel.drain_expired().len(), 1);

    wheel.advance_to(start + 20 * MS);
    assert_eq!(wheel.drain_expired().len(), 1);

    wheel.advance_to(start + 30 * MS);
    assert_eq!(wheel.drain_expired().len(), 1);
}

#[test]
fn test_cascading_level_1_to_0() {
    let start = START;
    let mut wheel = TimingWheel::new_at(start);

    let id = wheel.insert(start + 500 * MS, dummy_waker());

    wheel.advance_to(start + 255 * MS);
    assert_eq!(wheel.drain_expired().len(), 0);

    wheel.advance_to(start + 256 * MS);
    assert_eq!(wheel.drain_expired().len(), 0);

    wheel.advance_to(start + 500 * MS);
    let expired: Vec<_> = wheel.drain_expired();
    assert_eq!(expired.len(), 1);
    assert_eq!(expired[0].0, id);
}

#[test]
fn test_long_duration_timer() {
    let start = START;
    let mut wheel = TimingWheel::new_at(start);

    let id = wheel.insert(start + 3600 * SECOND, dummy_waker());

    assert_eq!(wheel.len(), 1);

    wheel.advance_to(start + 3600 * SECOND);

    let expired: Vec<_> = wheel.drain_expired();
    assert_eq!(expired.len(), 1);
    assert_eq!(expired[0].0, id);
}

#[test]
fn test_overflow_to_btreemap() {
    let start = START;
    let mut wheel = TimingWheel::new_at(start);

    let id = wheel.insert(start + 86400 * SECOND, dummy_waker());

    assert_eq!(wheel.len(), 1);

    wheel.advance_to(start + 86400 * SECOND);

    let expired: Vec<_> = wheel.drain_expired();
    assert_eq!(expired.len(), 1);
    assert_eq!(expired[0].0, id);
}

#[test]
fn test_past_timer_expires_immediately() {
    let start = START;
    let mut wheel = TimingWheel::new_at(start);

    wheel.insert(start - 100 * MS, dummy_waker());

    assert_eq!(wheel.drain_expired().len(), 1);
}

#[test]
fn test_wrap_around() {
    let start = START;
    let mut wheel = TimingWheel::new_at(start);

    let id1 = wheel.insert(start + 10 * MS, dummy_waker());

    wheel.advance_to(start + 260 * MS);

    let id2 = wheel.insert(start + (260 + 10) * MS, dummy_waker());

    assert_ne!(id1, id2);

    assert!(ids(wheel.drain_expired()).contains(&id1));

    wheel.advance_to(start + 270 * MS);
    assert!(ids(wheel.drain_expired()).contains(&id2));
}

#[test]
fn timer_ordering_follows_the_deadlines() {
    let mut wheel = TimingWheel::new_at(START);
    let a = wheel.insert(START + 30 * MS, dummy_waker());
    let b = wheel.insert(START + 10 * MS, dummy_waker());
    let c = wheel.insert(START + 20 * MS, dummy_waker());
    assert_eq!((a, b, c), (0, 1, 2));

    wheel.advance_to(START + 10 * MS);
    assert_eq!(ids(wheel.drain_expired()), vec![b]);
    wheel.advance_to(START + 20 * MS);
    assert_eq!(ids(wheel.drain_expired()), vec![c]);
    wheel.advance_to(START + 30 * MS);
    assert_eq!(ids(wheel.drain_expired()), vec![a]);
    assert!(wheel.is_empty());
}

#[test]
fn one_advance_fires_in_the_order_of_the_deadlines() {
    let mut wheel = TimingWheel::new_at(START);
    let late = wheel.insert(START + 700 * MS, dummy_waker());
    let early = wheel.insert(START + 3 * MS, dummy_waker());
    let middle = wheel.insert(START + 300 * MS, dummy_waker());
    let far = wheel.insert(START + 20 * SECOND, dummy_waker());

    wheel.advance_to(START + 25 * SECOND);
    assert_eq!(ids(wheel.drain_expired()), vec![early, middle, late, far]);
}

#[test]
fn same_millisecond_fires_in_insertion_order() {
    let mut wheel = TimingWheel::new_at(START);
    let first = wheel.insert(START + 7 * MS, dummy_waker());
    let second = wheel.insert(START + 7 * MS + 300, dummy_waker());
    let third = wheel.insert(START + 7 * MS + 999_999, dummy_waker());
    wheel.advance_to(START + 7 * MS);
    assert_eq!(ids(wheel.drain_expired()), vec![first, second, third]);
}

#[test]
fn timer_expires_exactly_at_its_tick() {
    let mut wheel = TimingWheel::new_at(START);
    let id = wheel.insert(START + 100 * MS, dummy_waker());
    wheel.advance_to(START + 100 * MS - 1);
    assert_eq!(wheel.drain_expired().len(), 0);
    assert_eq!(wheel.current_time(), START + 99 * MS);
    wheel.advance_to(START + 100 * MS);
    assert_eq!(ids(wheel.drain_expired()), vec![id]);
    assert_eq!(wheel.current_time(), START + 100 * MS);
}

#[test]
fn advancing_backwards_changes_nothing() {
    let mut wheel = TimingWheel::new_at(START);
    let id = wheel.insert(START + 50 * MS, dummy_waker());
    wheel.advance_to(START + 40 * MS);
    wheel.advance_to(START + 10 * MS);
    wheel.advance_to(START - 10 * MS);
    assert_eq!(wheel.current_time(), START + 40 * MS);
    assert_eq!(wheel.len(), 1);
    assert_eq!(wheel.level_of(id), Some(0));
}

#[test]
fn insert_then_cancel_leaves_len_unchanged() {
    let mut wheel = TimingWheel::new_at(START);
    wheel.insert(START + 5 * MS, dummy_waker());
    wheel.insert(START + 5_000 * MS, dummy_waker());
    wheel.insert(START + 25 * 3600 * SECOND, dummy_waker());
    for deadline in [1, 300, 20_000, 2_000_000, 70_000_000u64] {
        let before = wheel.len();
        let id = wheel.insert(START + deadline * MS, dummy_waker());
        assert_eq!(wheel.len(), before + 1);
        assert!(wheel.remove(id));
        assert_eq!(wheel.len(), before);
        assert!(!wheel.remove(id));
        assert_eq!(wheel.level_of(id), None);
    }
}

#[test]
fn cancelled_timer_does_not_expire() {
    let mut wheel = TimingWheel::new_at(START);
    let keep = wheel.insert(START + 400 * MS, dummy_waker());
    let gone = wheel.insert(START + 400 * MS, dummy_waker());
    let other = wheel.insert(START + 400 * MS, dummy_waker());
    assert!(wheel.remove(gone));
    wheel.advance_to(START + 1_000 * MS);
    let mut fired = ids(wheel.drain_expired());
    fired.sort();
    assert_eq!(fired, vec![keep, other]);
}

#[test]
fn expired_timer_can_be_removed_before_it_is_drained() {
    let mut wheel = TimingWheel::new_at(START);
    let a = wheel.insert(START - 1, dummy_waker());
    let b = wheel.insert(START, dummy_waker());
    let c = wheel.insert(START + MS - 1, dummy_waker());
    assert_eq!(wheel.len(), 3);
    assert!(wheel.remove(a));
    assert_eq!(ids(wheel.drain_expired()), vec![c, b]);
}

#[test]
fn levels_follow_the_distance() {
    let mut wheel = TimingWheel::new_at(START);
    let l0 = wheel.insert(START + 255 * MS, dummy_waker());
    let l1 = wheel.insert(START + 256 * MS, dummy_waker());
    let l1_top = wheel.insert(START + 16_383 * MS, dummy_waker());
    let l2 = wheel.insert(START + 16_384 * MS, dummy_waker());
    let l2_top = wheel.insert(START + 1_048_575 * MS, dummy_waker());
    let l3 = wheel.insert(START + 1_048_576 * MS, dummy_waker());
    assert_eq!(wheel.level_of(l0), Some(0));
    assert_eq!(wheel.level_of(l1), Some(1));
    assert_eq!(wheel.level_of(l1_top), Some(1));
    assert_eq!(wheel.level_of(l2), Some(2));
    assert_eq!(wheel.level_of(l2_top), Some(2));
    assert_eq!(wheel.level_of(l3), Some(3));
}

#[test]
fn eighteen_hour_boundary() {
    let mut wheel = TimingWheel::new_at(START);
    let short = wheel.insert(START + 67_108_863 * MS, dummy_waker());
    let exact = wheel.insert(START + 67_108_864 * MS, dummy_waker());
    let beyond = wheel.insert(START + 67_108_900 * MS, dummy_waker());
    assert_eq!(wheel.level_of(short), Some(3));
    assert_eq!(wheel.level_of(exact), Some(255));
    assert_eq!(wheel.level_of(beyond), Some(255));

    wheel.advance_to(START + MS);
    assert_eq!(wheel.level_of(exact), Some(3));
    assert_eq!(wheel.level_of(beyond), Some(255));

    wheel.advance_to(START + 36 * MS);
    assert_eq!(wheel.level_of(beyond), Some(255));
    wheel.advance_to(START + 37 * MS);
    assert_eq!(wheel.level_of(beyond), Some(3));
    assert_eq!(wheel.len(), 3);

    assert!(wheel.remove(exact));
    assert!(wheel.remove(beyond));
    assert_eq!(wheel.len(), 1);
}

#[test]
fn overflow_timers_can_be_cancelled() {
    let mut wheel = TimingWheel::new_at(START);
    let far = START + 30 * 3600 * SECOND;
    let a = wheel.insert(far, dummy_waker());
    let b = wheel.insert(far, dummy_waker());
    let c = wheel.insert(far + 1, dummy_waker());
    assert!(wheel.remove(a));
    assert!(!wheel.remove(a));
    assert_eq!(wheel.level_of(b), Some(255));
    assert_eq!(wheel.level_of(c), Some(255));
    assert!(wheel.remove(c));
    assert!(wheel.remove(b));
    assert!(wheel.is_empty());
}

#[test]
fn insert_with_id_moves_the_next_id_on() {
    let mut wheel = TimingWheel::new_at(START);
    wheel.insert_with_id(41, START + 10 * MS, dummy_waker());
    let next = wheel.insert(START + 10 * MS, dummy_waker());
    assert_eq!(next, 42);
    wheel.insert_with_id(7, START + 10 * MS, dummy_waker());
    assert_eq!(wheel.insert(START + 10 * MS, dummy_waker()), 43);
    assert_eq!(wheel.len(), 4);
}

#[test]
fn drained_wakers_are_the_ones_that_were_inserted() {
    let mut wheel = TimingWheel::new_at(START);
    let first = Arc::new(CountingWaker { fired: AtomicUsize::new(0) });
    let second = Arc::new(CountingWaker { fired: AtomicUsize::new(0) });
    wheel.insert(START + 2 * MS, Waker::from(first.clone()));
    wheel.insert(START + 900 * MS, Waker::from(second.clone()));
    wheel.advance_to(START + 2 * MS);
    for (_, waker) in wheel.drain_expired() {
        waker.wake();
    }
    assert_eq!(first.fired.load(Ordering::SeqCst), 1);
    assert_eq!(second.fired.load(Ordering::SeqCst), 0);
    wheel.advance_to(START + SECOND);
    for (_, waker) in wheel.drain_expired() {
        waker.wake();
    }
    assert_eq!(first.fired.load(Ordering::SeqCst), 1);
    assert_eq!(second.fired.load(Ordering::SeqCst), 1);
}

#[test]
fn a_burst_of_short_timers_all_fire() {
    let mut wheel = TimingWheel::new_at(START);
    let mut expected = Vec::new();
    for i in 0..20_000u64 {
        expected.push(wheel.insert(START + (1 + i % 3_000) * MS, dummy_waker()));
    }
    wheel.advance_to(START + 3_000 * MS);
    let mut fired = ids(wheel.drain_expired());
    assert_eq!(fired.len(), 20_000);
    fired.sort();
    assert_eq!(fired, expected);
    assert!(wheel.is_empty());
}

#[test]
fn the_wheel_knows_what_it_holds() {
    let mut wheel = TimingWheel::new_at(START);
    assert_eq!(wheel.next_id(), 0);
    let due = wheel.insert(START, dummy_waker());
    let pending = wheel.insert(START + 9 * MS, dummy_waker());
    assert_eq!(wheel.next_id(), 2);
    assert!(wheel.holds(due));
    assert!(wheel.holds(pending));
    assert!(!wheel.holds(2));
    wheel.drain_expired();
    assert!(!wheel.holds(due));
    assert!(wheel.remove(pending));
    assert!(!wheel.holds(pending));
}

/// A small generator of repeatable numbers.
struct Numbers(u64);

impl Numbers {
    fn next(&mut self) -> u64 {
        self.0 = self.0.wrapping_mul(6364136223846793005).wrapping_add(1442695040888963407);
        self.0 >> 33
    }
}

#[test]
fn the_wheel_agrees_with_a_plain_list() {
    let mut numbers = Numbers(7);
    let mut wheel = TimingWheel::new_at(START);
    let mut model: Vec<(u64, u64)> = Vec::new();
    let mut now = START;
    for round in 0..3_000 {
        match numbers.next() % 4 {
            0 | 1 => {
                let ahead = match numbers.next() % 6 {
                    0 => numbers.next() % 300,
                    1 => numbers.next() % 20_000,
                    2 => numbers.next() % 1_200_000,
                    3 => numbers.next() % 3_000_000,
                    4 => 67_108_000 + numbers.next() % 2_000,
                    _ => 67_108_864 + numbers.next() % 500_000,
                };
                let expires_at = now + ahead * MS + numbers.next() % MS;
                let id = wheel.insert(expires_at, dummy_waker());
                model.push((id, expires_at));
            }
            2 => {
                if !model.is_empty() {
                    let at = (numbers.next() as usize) % model.len();
                    let (id, _) = model.swap_remove(at);
                    assert!(wheel.remove(id));
                    assert!(!wheel.remove(id));
                }
            }
            _ => {
                let step = match numbers.next() % 5 {
                    0 => numbers.next() % 3,
                    1 => numbers.next() % 300,
                    2 => numbers.next() % 5_000,
                    3 => numbers.next() % 40_000,
                    _ => numbers.next() % 200_000,
                };
                now += step * MS + numbers.next() % MS;
                wheel.advance_to(now);
                let tick = (now - START) / MS;
                let mut due: Vec<(u64, u64)> = model
                    .iter()
                    .filter(|(_, at)| *at <= START || (*at - START) / MS <= tick)
                    .map(|(id, at)| (if *at <= START { 0 } else { (*at - START) / MS }, *id))
                    .collect();
                model.retain(|(_, at)| !(*at <= START || (*at - START) / MS <= tick));
                let fired = ids(wheel.drain_expired());
                // Fired in the order of the ticks; the same timers.
                let fired_ticks: Vec<u64> = fired
                    .iter()
                    .map(|id| due.iter().find(|(_, d)| d == id).expect("an unknown timer fired").0)
                    .collect();
                assert!(fired_ticks.windows(2).all(|w| w[0] <= w[1]), "round {}", round);
                let mut fired_sorted = fired.clone();
                fired_sorted.sort();
                due.sort_by_key(|(_, id)| *id);
                assert_eq!(fired_sorted, due.iter().map(|(_, id)| *id).collect::<Vec<_>>());
            }
        }
        assert_eq!(wheel.len(), model.len() + 0);
        for (id, at) in model.iter().take(5) {
            let ahead = (*at - START) / MS - (wheel.current_time() - START) / MS;
            let level = wheel.level_of(*id).unwrap();
            assert_eq!(level == 255, ahead >= 67_108_864);
        }
    }
}
