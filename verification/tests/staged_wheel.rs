use glommio::timer::staged_wheel::{DrainExpired, StagedWheel, INLINE_THRESHOLD};
use std::sync::Arc;
use std::task::{Wake, Waker};

const MS: u64 = 1_000_000;
const START: u64 = 9_000_000 * MS;

struct DummyWaker;

impl Wake for DummyWaker {
    fn wake(self: Arc<Self>) {}
}

fn dummy_waker() -> Waker {
    Arc::new(DummyWaker).into()
}

fn collect(mut drained: DrainExpired) -> Vec<(u64, Waker)> {
    let mut out = Vec::new();
    while let Some(pair) = drained.next() {
        out.push(pair);
    }
    out
}

fn ids(drained: DrainExpired) -> Vec<u64> {
    collect(drained).into_iter().map(|(id, _)| id).collect()
}

#[test]
fn test_starts_in_inline_mode() {
    let wheel = StagedWheel::new_at(START);
    assert_eq!(wheel.storage_mode(), "inline");
    assert_eq!(wheel.len(), 0);
}

#[test]
fn test_inline_insert_and_expire() {
    let start = START;
    let mut wheel = StagedWheel::new_at(start);

    let id = wheel.insert(start + 100 * MS, dummy_waker());
    assert_eq!(wheel.storage_mode(), "inline");
    assert_eq!(wheel.len(), 1);

    wheel.advance_to(start + 100 * MS);

    let expired: Vec<_> = collect(wheel.drain_expired());
    assert_eq!(expired.len(), 1);
    assert_eq!(expired[0].0, id);
    assert_eq!(wheel.len(), 0);
}

#[test]
fn test_inline_remove() {
    let start = START;
    let mut wheel = StagedWheel::new_at(start);

    let id = wheel.insert(start + 100 * MS, dummy_waker());
    assert_eq!(wheel.len(), 1);

    assert!(wheel.remove(id));
    assert_eq!(wheel.len(), 0);

    wheel.advance_to(start + 100 * MS);
    assert_eq!(wheel.drain_expired().len(), 0);
}

#[test]
fn test_promotes_to_wheel_at_threshold() {
    let start = START;
    let mut wheel = StagedWheel::new_at(start);

    for i in 0..INLINE_THRESHOLD {
        wheel.insert(start + (i as u64) * MS, dummy_waker());
        assert_eq!(wheel.storage_mode(), "inline");
    }

    assert_eq!(wheel.len(), INLINE_THRESHOLD);

    wheel.insert(start + (INLINE_THRESHOLD as u64) * MS, dummy_waker());

    assert_eq!(wheel.storage_mode(), "wheel");
    assert_eq!(wheel.len(), INLINE_THRESHOLD + 1);
}

#[test]
fn test_promotion_preserves_timers() {
    let start = START;
    let mut wheel = StagedWheel::new_at(start);

    for i in 0..INLINE_THRESHOLD {
        wheel.insert(start + (i as u64) * MS, dummy_waker());
    }

    wheel.insert(start + (INLINE_THRESHOLD as u64) * MS, dummy_waker());

    assert_eq!(wheel.storage_mode(), "wheel");

    wheel.advance_to(start + 50 * MS);
    let expired: Vec<_> = collect(wheel.drain_expired());
    assert_eq!(expired.len(), 51);

    assert_eq!(wheel.len(), INLINE_THRESHOLD + 1 - 51);
}

#[test]
fn test_wheel_mode_operations() {
    let start = START;
    let mut wheel = StagedWheel::new_at(start);

    for i in 0..=INLINE_THRESHOLD {
        wheel.insert(start + (i as u64) * MS, dummy_waker());
    }

    assert_eq!(wheel.storage_mode(), "wheel");

    let id = wheel.insert(start + 300 * MS, dummy_waker());

    assert!(wheel.remove(id));

    wheel.advance_to(start + 100 * MS);
    let expired_count = wheel.drain_expired().len();
    assert_eq!(expired_count, 101);
}

#[test]
fn test_multiple_timers_same_expiry_inline() {
    let start = START;
    let mut wheel = StagedWheel::new_at(start);

    let id1 = wheel.insert(start + 50 * MS, dummy_waker());
    let id2 = wheel.insert(start + 50 * MS, dummy_waker());
    let id3 = wheel.insert(start + 50 * MS, dummy_waker());

    assert_eq!(wheel.len(), 3);
    assert_eq!(wheel.storage_mode(), "inline");

    wheel.advance_to(start + 50 * MS);

    let expired: Vec<_> = ids(wheel.drain_expired());
    assert_eq!(expired.len(), 3);
    assert!(expired.contains(&id1));
    assert!(expired.contains(&id2));
    assert!(expired.contains(&id3));
}

#[test]
fn test_churn_pattern_inline() {
    let start = START;
    let mut wheel = StagedWheel::new_at(start);

    for i in 0..100 {
        let id = wheel.insert(start + i * MS, dummy_waker());
        assert!(wheel.remove(id));
    }

    assert_eq!(wheel.len(), 0);
    assert_eq!(wheel.storage_mode(), "inline");
}

#[test]
fn test_churn_pattern_wheel() {
    let start = START;
    let mut wheel = StagedWheel::new_at(start);

    for i in 0..=INLINE_THRESHOLD {
        wheel.insert(start + (i as u64 + 1000) * MS, dummy_waker());
    }

    assert_eq!(wheel.storage_mode(), "wheel");

    for i in 0..1000 {
        let id = wheel.insert(start + i * MS, dummy_waker());
        assert!(wheel.remove(id));
    }

    assert_eq!(wheel.len(), INLINE_THRESHOLD + 1);
}

#[test]
fn staged_promotion_keeps_the_ids() {
    let mut wheel = StagedWheel::new_at(START);
    let mut given = Vec::new();
    for i in 0..256u64 {
        given.push(wheel.insert(START + i * MS, dummy_waker()));
    }
    assert_eq!(wheel.storage_mode(), "inline");
    let last = wheel.insert(START + 300 * MS, dummy_waker());
    assert_eq!(wheel.storage_mode(), "wheel");
    assert_eq!(last, 256);
    assert_eq!(given, (0..256u64).collect::<Vec<_>>());
    assert_eq!(wheel.len(), 257);

    assert!(wheel.remove(given[49]));
    assert_eq!(wheel.len(), 256);
    assert!(!wheel.remove(given[49]));

    wheel.advance_to(START + 400 * MS);
    let mut fired = ids(wheel.drain_expired());
    fired.sort();
    let mut expected: Vec<u64> = (0..257u64).collect();
    expected.remove(49);
    assert_eq!(fired, expected);
    assert!(wheel.is_empty());
}

#[test]
fn inline_sweep_compares_instants_exactly() {
    let mut wheel = StagedWheel::new_at(START);
    let early = wheel.insert(START + 5 * MS, dummy_waker());
    let late = wheel.insert(START + 5 * MS + 1, dummy_waker());
    wheel.advance_to(START + 5 * MS);
    assert_eq!(ids(wheel.drain_expired()), vec![early]);
    assert_eq!(wheel.len(), 1);
    wheel.advance_to(START + 5 * MS + 1);
    assert_eq!(ids(wheel.drain_expired()), vec![late]);
    assert!(wheel.is_empty());
}

#[test]
fn inline_list_does_not_keep_time() {
    let mut wheel = StagedWheel::new_at(START);
    wheel.insert(START + 5 * MS, dummy_waker());
    wheel.advance_to(START + 500 * MS);
    assert_eq!(wheel.current_time(), START);
    assert_eq!(wheel.len(), 0);
    assert_eq!(wheel.drain_expired().len(), 1);
}

#[test]
fn inline_remove_does_not_reach_expired_timers() {
    let mut wheel = StagedWheel::new_at(START);
    let id = wheel.insert(START + MS, dummy_waker());
    wheel.advance_to(START + MS);
    assert!(!wheel.remove(id));
    assert_eq!(ids(wheel.drain_expired()), vec![id]);
}

#[test]
fn drain_says_where_the_timers_came_from() {
    let mut wheel = StagedWheel::new_at(START);
    wheel.insert(START, dummy_waker());
    wheel.advance_to(START);
    match wheel.drain_expired() {
        DrainExpired::Inline(pairs) => assert_eq!(pairs.len(), 1),
        DrainExpired::Wheel(_) => panic!("a list was drained"),
    }
    for i in 0..=INLINE_THRESHOLD {
        wheel.insert(START + (i as u64) * MS, dummy_waker());
    }
    wheel.advance_to(START + 2 * MS);
    let mut drained = wheel.drain_expired();
    assert!(matches!(drained, DrainExpired::Wheel(_)));
    assert_eq!(drained.len(), 3);
    assert_eq!(drained.next().map(|(id, _)| id), Some(1));
    assert_eq!(drained.len(), 2);
    assert_eq!(drained.next().map(|(id, _)| id), Some(2));
    assert_eq!(drained.next().map(|(id, _)| id), Some(3));
    assert!(drained.next().is_none());
    assert!(drained.next().is_none());
}

#[test]
fn promotion_takes_expired_timers_along() {
    let mut wheel = StagedWheel::new_at(START);
    let due_at_start = wheel.insert(START, dummy_waker());
    let due_later = wheel.insert(START + 10 * MS, dummy_waker());
    wheel.advance_to(START + 20 * MS);
    for i in 0..=INLINE_THRESHOLD {
        wheel.insert(START + (1_000 + i as u64) * MS, dummy_waker());
    }
    assert_eq!(wheel.storage_mode(), "wheel");
    assert_eq!(wheel.len(), INLINE_THRESHOLD + 3);
    assert_eq!(ids(wheel.drain_expired()), vec![due_at_start]);
    wheel.advance_to(START + 20 * MS);
    assert_eq!(ids(wheel.drain_expired()), vec![due_later]);
    assert_eq!(wheel.len(), INLINE_THRESHOLD + 1);
}

#[test]
fn ids_count_up_across_the_promotion() {
    let mut wheel = StagedWheel::new_at(START);
    for expected in 0..600u64 {
        assert_eq!(wheel.next_id(), expected);
        assert_eq!(wheel.insert(START + (expected % 7) * MS + 1, dummy_waker()), expected);
    }
    assert_eq!(wheel.storage_mode(), "wheel");
    assert!(!wheel.is_empty());
}

/// A small generator of repeatable numbers.
struct Numbers(u64);

impl Numbers {
    fn next(&mut self) -> u64 {
        self.0 = self.0.wrapping_mul(6364136223846793005).wrapping_add(1442695040888963407);
        self.0 >> 33
    }
}

#[test]
fn the_storage_agrees_with_a_plain_list() {
    for seed in [1u64, 2, 3] {
        let mut numbers = Numbers(seed);
        let mut wheel = StagedWheel::new_at(START);
        let mut model: Vec<(u64, u64)> = Vec::new();
        let mut now = START;
        if seed > 1 {
            for _ in 0..300 {
                let expires_at = now + 1 + (numbers.next() % 900_000) * MS;
                let id = wheel.insert(expires_at, dummy_waker());
                model.push((id, expires_at));
            }
        }
        for _ in 0..2_000 {
            match numbers.next() % 5 {
                0 | 1 | 2 => {
                    let expires_at = now + 1 + (numbers.next() % 2_000) * MS;
                    let id = wheel.insert(expires_at, dummy_waker());
                    model.push((id, expires_at));
                }
                3 => {
                    if !model.is_empty() {
                        let at = (numbers.next() as usize) % model.len();
                        let (id, _) = model.swap_remove(at);
                        assert!(wheel.remove(id));
                    }
                }
                _ => {
                    now += (numbers.next() % 700) * MS;
                    wheel.advance_to(now);
                    let inline = wheel.storage_mode() == "inline";
                    let tick = (now - START) / MS;
                    let is_due = |at: u64| if inline { at <= now } else { (at - START) / MS <= tick };
                    let mut due: Vec<u64> =
                        model.iter().filter(|(_, at)| is_due(*at)).map(|(id, _)| *id).collect();
                    model.retain(|(_, at)| !is_due(*at));
                    let mut fired = ids(wheel.drain_expired());
                    fired.sort();
                    due.sort();
                    assert_eq!(fired, due);
                }
            }
            assert_eq!(wheel.len(), model.len());
        }
        assert_eq!(wheel.storage_mode(), if seed > 1 { "wheel" } else { "inline" });
    }
}
