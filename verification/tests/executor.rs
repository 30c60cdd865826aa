use glommio::channels::spsc_queue::make;
use glommio::executor::Executor;
use glommio::reactor::Reactor;
use glommio::task::arena::{SLOT_CAPACITY, SLOT_SIZE};
use glommio::task::state::{
    Effects, Event, Polled, ARENA_ALLOCATED, CLOSED, COMPLETED, HANDLE, RUNNING, SCHEDULED,
};

use std::sync::{Arc, Mutex};
use std::task::{Wake, Waker};

const BASE: usize = 0x1000_0000;
const MS: u64 = 1_000_000;

/// A waker that notes which task it wakes.
struct Wakes {
    task: u32,
    woken: Arc<Mutex<Vec<u32>>>,
}

impl Wake for Wakes {
    fn wake(self: Arc<Self>) {
        self.woken.lock().unwrap().push(self.task);
    }
}
const ROOT_QUEUE: usize = 0;
const TASKS: usize = 1;

/// An executor whose root task is being polled, as a test body is.
fn running() -> (Executor, u32) {
    let mut ex = Executor::new(BASE, 2);
    let root = ex.spawn(ROOT_QUEUE, 64, 8).unwrap();
    let (task, effects) = ex.next_task(ROOT_QUEUE).unwrap();
    assert_eq!(task, root);
    assert!(effects.poll);
    (ex, root)
}

fn step(ex: &mut Executor, task: u32, event: Event) -> Effects {
    assert!(ex.can(task, event), "{:?} cannot happen to task {}", event, task);
    ex.apply(task, event)
}

/// Takes the next task of the queue out and says that its poll begins.
fn begin_poll(ex: &mut Executor, queue: usize) -> u32 {
    let (task, effects) = ex.next_task(queue).expect("a task is ready");
    assert!(effects.poll);
    task
}

/// A task that is ready at its first poll.
fn run_to_completion(ex: &mut Executor, queue: usize) -> (u32, Effects) {
    let task = begin_poll(ex, queue);
    let effects = step(ex, task, Event::Poll(Polled::Ready));
    (task, effects)
}

/// The poll of a task that keeps a clone of its waker and waits.
fn poll_and_wait_for_wake(ex: &mut Executor, queue: usize) -> u32 {
    let task = begin_poll(ex, queue);
    step(ex, task, Event::CloneWaker);
    assert_eq!(step(ex, task, Event::Poll(Polled::Pending)), Effects::none());
    task
}

#[test]
fn root_task() {
    let (ex, root) = running();
    assert_eq!(1, ex.task_count());
    assert!(ex.is_live(root));
    assert_eq!(ex.state(root), Some(RUNNING | HANDLE | ARENA_ALLOCATED));
}

#[test]
fn foreground_task() {
    let (mut ex, root) = running();
    let task = ex.spawn(TASKS, 64, 8).unwrap();
    assert_eq!(2, ex.task_count());

    // The root awaits the task: it leaves its waker with the task and waits.
    assert!(step(&mut ex, task, Event::Join).keep_awaiter);
    step(&mut ex, root, Event::CloneWaker);
    step(&mut ex, root, Event::Poll(Polled::Pending));

    let polled = begin_poll(&mut ex, TASKS);
    assert_eq!(polled, task);
    assert_eq!(2, ex.task_count());
    assert!(step(&mut ex, task, Event::Poll(Polled::Ready)).wake_awaiter);
    assert!(step(&mut ex, root, Event::Wake).enqueue);

    assert_eq!(begin_poll(&mut ex, ROOT_QUEUE), root);
    assert!(step(&mut ex, task, Event::Join).take_output);
    assert!(step(&mut ex, task, Event::DropHandle).destroy);
    assert_eq!(1, ex.task_count());
}

#[test]
fn background_task() {
    let (mut ex, root) = running();
    let task = ex.spawn(TASKS, 64, 8).unwrap();
    assert_eq!(2, ex.task_count());

    step(&mut ex, task, Event::Join);
    step(&mut ex, root, Event::CloneWaker);
    step(&mut ex, root, Event::Poll(Polled::Pending));
    let (_, effects) = run_to_completion(&mut ex, TASKS);
    assert!(effects.wake_awaiter);
    assert_eq!(2, ex.task_count());
    step(&mut ex, root, Event::Wake);
    begin_poll(&mut ex, ROOT_QUEUE);
    assert!(step(&mut ex, task, Event::Join).take_output);
    step(&mut ex, task, Event::DropHandle);
    assert_eq!(1, ex.task_count());
}

#[test]
fn drop_join_handle_before_completion() {
    let (mut ex, _root) = running();
    assert_eq!(1, ex.task_count());
    let task = ex.spawn(TASKS, 64, 8).unwrap();
    assert_eq!(2, ex.task_count());
    assert_eq!(step(&mut ex, task, Event::DropHandle), Effects::none());
    assert_eq!(2, ex.task_count());

    // The root yields; the task yields once itself and then ends.
    assert_eq!(begin_poll(&mut ex, TASKS), task);
    step(&mut ex, task, Event::WakeByRef);
    assert!(step(&mut ex, task, Event::Poll(Polled::Pending)).enqueue);
    let (_, effects) = run_to_completion(&mut ex, TASKS);
    assert!(effects.destroy && effects.drop_output);
    assert!(ex.next_task(TASKS).is_none());
    assert_eq!(1, ex.task_count());
}

#[test]
fn drop_join_handle_after_completion() {
    let (mut ex, _root) = running();
    let task = ex.spawn(TASKS, 64, 8).unwrap();
    assert_eq!(2, ex.task_count());
    run_to_completion(&mut ex, TASKS);
    assert_eq!(2, ex.task_count());
    step(&mut ex, task, Event::DropHandle);
    assert_eq!(1, ex.task_count());
}

#[test]
fn wake() {
    let (mut ex, _root) = running();
    let task = ex.spawn(TASKS, 64, 8).unwrap();
    poll_and_wait_for_wake(&mut ex, TASKS);
    assert!(step(&mut ex, task, Event::Wake).enqueue);
    run_to_completion(&mut ex, TASKS);
    assert_eq!(2, ex.task_count());
    step(&mut ex, task, Event::DropHandle);
    assert_eq!(1, ex.task_count());
}

#[test]
fn wake_completed_task() {
    let (mut ex, _root) = running();
    let task = ex.spawn(TASKS, 64, 8).unwrap();
    step(&mut ex, task, Event::DropHandle);
    poll_and_wait_for_wake(&mut ex, TASKS);
    step(&mut ex, task, Event::CloneWaker);
    assert!(step(&mut ex, task, Event::Wake).enqueue);
    run_to_completion(&mut ex, TASKS);
    assert_eq!(2, ex.task_count());
    assert_eq!(ex.state(task), Some(COMPLETED | CLOSED | ARENA_ALLOCATED));
    assert!(step(&mut ex, task, Event::Wake).destroy);
    assert_eq!(1, ex.task_count());
}

#[test]
fn drop_waker_of_completed_task() {
    let (mut ex, _root) = running();
    let task = ex.spawn(TASKS, 64, 8).unwrap();
    step(&mut ex, task, Event::DropHandle);
    poll_and_wait_for_wake(&mut ex, TASKS);
    step(&mut ex, task, Event::CloneWaker);
    step(&mut ex, task, Event::Wake);
    run_to_completion(&mut ex, TASKS);
    assert_eq!(2, ex.task_count());
    assert!(step(&mut ex, task, Event::DropWaker).destroy);
    assert_eq!(1, ex.task_count());
}

#[test]
fn wake_by_ref() {
    let (mut ex, _root) = running();
    let task = ex.spawn(TASKS, 64, 8).unwrap();
    poll_and_wait_for_wake(&mut ex, TASKS);
    assert!(step(&mut ex, task, Event::WakeByRef).enqueue);
    run_to_completion(&mut ex, TASKS);
    assert_eq!(2, ex.task_count());
    step(&mut ex, task, Event::DropHandle);
    assert_eq!(2, ex.task_count());
    step(&mut ex, task, Event::DropWaker);
    assert_eq!(1, ex.task_count());
}

#[test]
fn foreign_wake() {
    let (sender, receiver) = make::<u32>(1);
    let (mut ex, root) = running();
    let task = ex.spawn(TASKS, 64, 8).unwrap();
    poll_and_wait_for_wake(&mut ex, TASKS);
    assert_eq!(sender.try_push(task), None);
    assert_eq!(2, ex.task_count());

    // The other executor receives the waker and fires it.
    let woken = receiver.try_pop().unwrap();
    assert!(step(&mut ex, woken, Event::Wake).enqueue);

    step(&mut ex, task, Event::Join);
    step(&mut ex, root, Event::CloneWaker);
    step(&mut ex, root, Event::Poll(Polled::Pending));
    let (_, effects) = run_to_completion(&mut ex, TASKS);
    assert!(effects.wake_awaiter);
    step(&mut ex, root, Event::Wake);
    begin_poll(&mut ex, ROOT_QUEUE);
    assert!(step(&mut ex, task, Event::Join).take_output);
    assert!(step(&mut ex, task, Event::DropHandle).destroy);
    assert_eq!(1, ex.task_count());
}

#[test]
fn foreign_wake_by_ref() {
    let (sender, receiver) = make::<u32>(1);
    let (mut ex, root) = running();
    let task = ex.spawn(TASKS, 64, 8).unwrap();
    poll_and_wait_for_wake(&mut ex, TASKS);
    assert_eq!(sender.try_push(task), None);
    assert_eq!(2, ex.task_count());

    // The other executor fires the waker by reference and drops it.
    let woken = receiver.try_pop().unwrap();
    assert!(step(&mut ex, woken, Event::WakeByRef).enqueue);
    assert_eq!(step(&mut ex, woken, Event::DropWaker), Effects::none());

    step(&mut ex, task, Event::Join);
    step(&mut ex, root, Event::CloneWaker);
    step(&mut ex, root, Event::Poll(Polled::Pending));
    run_to_completion(&mut ex, TASKS);
    step(&mut ex, root, Event::Wake);
    begin_poll(&mut ex, ROOT_QUEUE);
    assert!(step(&mut ex, task, Event::Join).take_output);
    assert!(step(&mut ex, task, Event::DropHandle).destroy);
    assert_eq!(1, ex.task_count());
}

#[test]
fn test_arena_used_for_spawns() {
    let (mut ex, _root) = running();
    let handles: Vec<u32> = (0..100).map(|_| ex.spawn(TASKS, 128, 8).unwrap()).collect();
    assert_eq!(ex.arena_stats().arena_allocs, 101);
    assert_eq!(ex.arena_stats().active_slots, 101);

    let mut outputs = vec![None; SLOT_CAPACITY];
    for i in 0..100 {
        let (task, _) = run_to_completion(&mut ex, TASKS);
        assert_eq!(task, handles[i]);
        outputs[task as usize] = Some(i * 2);
    }
    let mut results = Vec::new();
    for handle in handles.iter() {
        assert!(step(&mut ex, *handle, Event::Join).take_output);
        results.push(outputs[*handle as usize].take().unwrap());
        step(&mut ex, *handle, Event::DropHandle);
    }
    for (i, result) in results.iter().enumerate() {
        assert_eq!(*result, i * 2);
    }
    assert_eq!(ex.arena_stats().arena_deallocs, 100);
    assert_eq!(ex.task_count(), 1);
}

#[test]
fn test_arena_handles_many_spawns() {
    let (mut ex, _root) = running();
    for _ in 0..1000 {
        let task = ex.spawn(TASKS, 64, 8).unwrap();
        step(&mut ex, task, Event::DropHandle);
    }
    assert_eq!(ex.task_count(), 1001);
    for _ in 0..1000 {
        let (_, effects) = run_to_completion(&mut ex, TASKS);
        assert!(effects.destroy && effects.recycle && effects.drop_output);
    }
    assert!(ex.next_task(TASKS).is_none());
    assert_eq!(ex.task_count(), 1);
    assert_eq!(ex.arena_stats().peak_active, 1001);
}

#[test]
fn test_arena_fallback_to_heap() {
    let (mut ex, _root) = running();
    let handles: Vec<u32> = (0..15_000).map(|_| ex.spawn(TASKS, SLOT_SIZE, 64).unwrap()).collect();
    let mut results = Vec::new();
    for i in 0..15_000 {
        let (task, _) = run_to_completion(&mut ex, TASKS);
        assert_eq!(task, handles[i]);
        assert!(step(&mut ex, task, Event::Join).take_output);
        results.push(i);
        step(&mut ex, task, Event::DropHandle);
    }
    assert_eq!(results.len(), 15_000);
    assert_eq!(ex.task_count(), 1);
}

#[test]
fn spawn_fails_once_the_arena_is_full() {
    let mut ex = Executor::new(BASE, 1);
    for i in 0..SLOT_CAPACITY {
        assert_eq!(ex.spawn(0, 8, 8), Some(i as u32));
    }
    assert_eq!(ex.spawn(0, 8, 8), None);
    assert_eq!(ex.task_count(), SLOT_CAPACITY);
    assert_eq!(ex.queue_len(0), SLOT_CAPACITY);
    let (first, _) = ex.next_task(0).unwrap();
    step(&mut ex, first, Event::DropHandle);
    assert!(step(&mut ex, first, Event::Poll(Polled::Ready)).destroy);
    assert_eq!(ex.spawn(0, 8, 8), Some(first));
    assert_eq!(ex.spawn(0, 2048, 8), None);
}

#[test]
fn tasks_run_in_the_order_they_were_woken() {
    let mut ex = Executor::new(BASE, 3);
    assert_eq!(ex.nr_queues(), 3);
    let a = ex.spawn(1, 8, 8).unwrap();
    let b = ex.spawn(1, 8, 8).unwrap();
    let c = ex.spawn(2, 8, 8).unwrap();
    let d = ex.spawn(1, 8, 8).unwrap();
    assert_eq!((ex.queue_len(0), ex.queue_len(1), ex.queue_len(2)), (0, 3, 1));
    assert!(ex.next_task(0).is_none());

    for expected in [a, b, d] {
        assert_eq!(poll_and_wait_for_wake(&mut ex, 1), expected);
    }
    assert!(ex.next_task(1).is_none());
    for task in [d, a, b] {
        assert!(step(&mut ex, task, Event::Wake).enqueue);
    }
    assert!(!ex.can(a, Event::Wake));
    for expected in [d, a, b] {
        assert_eq!(begin_poll(&mut ex, 1), expected);
        // A task that wakes itself while it is polled goes to the end.
        step(&mut ex, expected, Event::WakeByRef);
        assert_eq!(ex.state(expected), Some(SCHEDULED | RUNNING | HANDLE | ARENA_ALLOCATED));
        assert!(step(&mut ex, expected, Event::Poll(Polled::Pending)).enqueue);
    }
    for expected in [d, a, b] {
        assert_eq!(begin_poll(&mut ex, 1), expected);
        step(&mut ex, expected, Event::Poll(Polled::Ready));
    }
    assert_eq!(begin_poll(&mut ex, 2), c);
}

#[test]
fn test_panic_in_custom_queue() {
    let (mut ex, root) = running();
    let custom = TASKS;
    let panicking = ex.spawn(custom, 64, 8).unwrap();
    let bystander = ex.spawn(custom, 64, 8).unwrap();

    step(&mut ex, panicking, Event::Join);
    step(&mut ex, root, Event::CloneWaker);
    step(&mut ex, root, Event::Poll(Polled::Pending));

    assert_eq!(begin_poll(&mut ex, custom), panicking);
    let effects = step(&mut ex, panicking, Event::Poll(Polled::Panicked));
    assert!(effects.wake_awaiter && !effects.destroy);
    assert_eq!(ex.state(panicking), Some(COMPLETED | CLOSED | HANDLE | ARENA_ALLOCATED));

    // The executor goes on: the next task of the queue runs as if nothing had happened.
    let (task, _) = run_to_completion(&mut ex, custom);
    assert_eq!(task, bystander);
    assert_eq!(ex.state(bystander), Some(COMPLETED | HANDLE | ARENA_ALLOCATED));

    step(&mut ex, root, Event::Wake);
    assert_eq!(begin_poll(&mut ex, ROOT_QUEUE), root);
    assert!(step(&mut ex, panicking, Event::Join).canceled);
    assert!(step(&mut ex, panicking, Event::DropHandle).destroy);
    assert!(step(&mut ex, bystander, Event::Join).take_output);
    assert!(step(&mut ex, bystander, Event::DropHandle).destroy);
    assert_eq!(ex.task_count(), 1);
}

#[test]
fn test_multiple_panics_in_custom_queues() {
    let mut ex = Executor::new(BASE, 3);
    let first = ex.spawn(1, 64, 8).unwrap();
    let second = ex.spawn(2, 64, 8).unwrap();
    for queue in [1, 2] {
        let task = begin_poll(&mut ex, queue);
        assert_eq!(step(&mut ex, task, Event::Poll(Polled::Panicked)), Effects::none());
    }
    for task in [first, second] {
        assert!(step(&mut ex, task, Event::Join).canceled);
        assert!(step(&mut ex, task, Event::DropHandle).destroy);
    }
    assert_eq!(ex.task_count(), 0);
}

#[test]
fn a_cancelled_task_is_not_polled() {
    let (mut ex, _root) = running();
    let task = ex.spawn(TASKS, 64, 8).unwrap();
    assert!(step(&mut ex, task, Event::Cancel).drop_future);
    assert_eq!(ex.queue_len(TASKS), 1);
    let (taken, effects) = ex.next_task(TASKS).unwrap();
    assert_eq!(taken, task);
    assert!(!effects.poll);
    assert!(!ex.can(task, Event::Poll(Polled::Ready)));
    assert!(step(&mut ex, task, Event::Join).canceled);
    assert!(step(&mut ex, task, Event::DropHandle).destroy);
    assert!(!ex.is_live(task));
    assert!(!ex.can(task, Event::Wake));
    assert_eq!(ex.state(task), None);
    assert_eq!(ex.state(SLOT_CAPACITY as u32), None);
}

#[test]
fn test_panic_in_default_queue() {
    let woken = Arc::new(Mutex::new(Vec::new()));
    let now = 1_000 * MS;
    let mut reactor = Reactor::new_at(now);
    let (mut ex, _root) = running();
    let queue = ROOT_QUEUE;
    let task1 = ex.spawn(queue, 64, 8).unwrap();
    let task2 = ex.spawn(queue, 64, 8).unwrap();

    // Both tasks go to sleep: the first for a millisecond, the second for ten seconds.
    for (task, sleep) in [(task1, MS), (task2, 10_000 * MS)] {
        assert_eq!(begin_poll(&mut ex, queue), task);
        step(&mut ex, task, Event::CloneWaker);
        let waker = Waker::from(Arc::new(Wakes { task, woken: woken.clone() }));
        reactor.insert_timer(now + sleep, waker);
        step(&mut ex, task, Event::Poll(Polled::Pending));
    }
    assert!(ex.next_task(queue).is_none());

    let round = reactor.process_external_events(now + MS);
    assert_eq!(round.timers.len(), 1);
    for waker in round.timers {
        waker.wake();
    }
    for task in woken.lock().unwrap().drain(..) {
        assert!(step(&mut ex, task, Event::Wake).enqueue);
    }

    // The first task wakes up and panics; the panic stays with the task.
    assert_eq!(begin_poll(&mut ex, queue), task1);
    step(&mut ex, task1, Event::Poll(Polled::Panicked));
    assert!(step(&mut ex, task1, Event::Join).canceled);
    assert!(step(&mut ex, task1, Event::DropHandle).destroy);

    assert!(ex.is_live(task2));
    assert_eq!(ex.state(task2), Some(HANDLE | ARENA_ALLOCATED));
    assert_eq!(round.next_timer, Some(9_999 * MS));
    assert!(step(&mut ex, task2, Event::Join).keep_awaiter);
}
