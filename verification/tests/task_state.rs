use glommio::task::state::{
    decode, encode, Effects, Event, Flags, Polled, Stored, TaskHeader, ARENA_ALLOCATED, CLOSED,
    COMPLETED, HANDLE, RUNNING, SCHEDULED,
};

fn step(task: &mut TaskHeader, event: Event) -> Effects {
    assert!(task.can(event), "{:?} cannot happen", event);
    task.apply(event)
}

fn quiet() -> Effects {
    Effects::none()
}

#[test]
fn state_bits() {
    assert_eq!(
        (SCHEDULED, RUNNING, COMPLETED, CLOSED, HANDLE, ARENA_ALLOCATED),
        (1, 2, 4, 8, 16, 32)
    );
    for state in 0..64u8 {
        let flags = decode(state);
        assert_eq!(flags.scheduled, state & SCHEDULED != 0);
        assert_eq!(flags.running, state & RUNNING != 0);
        assert_eq!(flags.completed, state & COMPLETED != 0);
        assert_eq!(flags.closed, state & CLOSED != 0);
        assert_eq!(flags.handle, state & HANDLE != 0);
        assert_eq!(flags.arena_allocated, state & ARENA_ALLOCATED != 0);
        assert_eq!(encode(flags), state);
    }
    let only_handle = Flags {
        scheduled: false,
        running: false,
        completed: false,
        closed: false,
        handle: true,
        arena_allocated: false,
    };
    assert_eq!(encode(only_handle), 16);
}

#[test]
fn header_root_task() {
    let task = TaskHeader::spawn(3);
    assert_eq!(task.state(), SCHEDULED | HANDLE | ARENA_ALLOCATED);
    assert_eq!(task.refcount(), 1);
    assert_eq!(task.queue_id(), 3);
    assert_eq!(task.stored(), Stored::Future);
    assert!(!task.is_freed());
}

#[test]
fn header_foreground_task() {
    let mut task = TaskHeader::spawn(0);
    assert_eq!(step(&mut task, Event::Run), Effects { poll: true, ..quiet() });
    assert_eq!(task.state(), RUNNING | HANDLE | ARENA_ALLOCATED);
    assert_eq!(step(&mut task, Event::Poll(Polled::Ready)), quiet());
    assert_eq!(task.state(), COMPLETED | HANDLE | ARENA_ALLOCATED);
    assert_eq!(task.stored(), Stored::Output);
    assert_eq!(task.refcount(), 0);
    assert_eq!(step(&mut task, Event::Join), Effects { take_output: true, ..quiet() });
    assert_eq!(task.state(), CLOSED | HANDLE | ARENA_ALLOCATED);
    assert_eq!(task.stored(), Stored::Nothing);
    assert_eq!(step(&mut task, Event::Join), Effects { canceled: true, ..quiet() });
    assert_eq!(
        step(&mut task, Event::DropHandle),
        Effects { destroy: true, recycle: true, ..quiet() }
    );
    assert!(task.is_freed());
}

#[test]
fn header_background_task() {
    let mut task = TaskHeader::spawn(0);
    assert_eq!(step(&mut task, Event::DropHandle), quiet());
    assert!(!task.is_freed());
    step(&mut task, Event::Run);
    assert_eq!(
        step(&mut task, Event::Poll(Polled::Ready)),
        Effects { drop_output: true, destroy: true, recycle: true, ..quiet() }
    );
    assert!(task.is_freed());
}

#[test]
fn header_drop_join_handle_before_completion() {
    let mut task = TaskHeader::spawn(0);
    step(&mut task, Event::Run);
    step(&mut task, Event::CloneWaker);
    assert_eq!(step(&mut task, Event::Poll(Polled::Pending)), quiet());
    assert_eq!(task.refcount(), 1);
    assert_eq!(step(&mut task, Event::DropHandle), quiet());
    assert!(!task.is_freed());
    assert_eq!(step(&mut task, Event::Wake), Effects { enqueue: true, ..quiet() });
    assert_eq!(task.refcount(), 1);
    step(&mut task, Event::Run);
    let end = step(&mut task, Event::Poll(Polled::Ready));
    assert!(end.destroy && end.drop_output && end.recycle);
    assert!(task.is_freed());
}

#[test]
fn header_drop_join_handle_after_completion() {
    let mut task = TaskHeader::spawn(0);
    step(&mut task, Event::Run);
    step(&mut task, Event::Poll(Polled::Ready));
    assert!(!task.is_freed());
    assert_eq!(
        step(&mut task, Event::DropHandle),
        Effects { drop_output: true, destroy: true, recycle: true, ..quiet() }
    );
    assert!(task.is_freed());
}

#[test]
fn header_wake() {
    let mut task = TaskHeader::spawn(0);
    step(&mut task, Event::Run);
    step(&mut task, Event::CloneWaker);
    assert_eq!(task.refcount(), 2);
    step(&mut task, Event::Poll(Polled::Pending));
    assert_eq!(task.state(), HANDLE | ARENA_ALLOCATED);
    assert_eq!(step(&mut task, Event::Wake), Effects { enqueue: true, ..quiet() });
    assert_eq!(task.state(), SCHEDULED | HANDLE | ARENA_ALLOCATED);
    assert_eq!(task.refcount(), 1);
    assert!(!task.can(Event::Wake));
}

#[test]
fn header_wake_completed_task() {
    let mut task = TaskHeader::spawn(0);
    step(&mut task, Event::Run);
    step(&mut task, Event::CloneWaker);
    step(&mut task, Event::Poll(Polled::Ready));
    assert_eq!(task.refcount(), 1);
    assert_eq!(step(&mut task, Event::Wake), quiet());
    assert_eq!(task.refcount(), 0);
    assert_eq!(task.state(), COMPLETED | HANDLE | ARENA_ALLOCATED);
    assert!(!task.is_freed());
    step(&mut task, Event::DropHandle);
    assert!(task.is_freed());
}

#[test]
fn header_drop_waker_of_completed_task() {
    let mut task = TaskHeader::spawn(0);
    step(&mut task, Event::Run);
    step(&mut task, Event::CloneWaker);
    step(&mut task, Event::Poll(Polled::Ready));
    step(&mut task, Event::DropHandle);
    assert!(!task.is_freed());
    assert_eq!(step(&mut task, Event::DropWaker), Effects { destroy: true, recycle: true, ..quiet() });
    assert!(task.is_freed());
}

#[test]
fn header_wake_by_ref() {
    let mut task = TaskHeader::spawn(0);
    step(&mut task, Event::Run);
    step(&mut task, Event::CloneWaker);
    step(&mut task, Event::Poll(Polled::Pending));
    assert_eq!(step(&mut task, Event::WakeByRef), Effects { enqueue: true, ..quiet() });
    assert_eq!(task.refcount(), 2);
    assert_eq!(step(&mut task, Event::WakeByRef), quiet());
    assert_eq!(task.refcount(), 2);
    step(&mut task, Event::Run);
    assert_eq!(step(&mut task, Event::WakeByRef), quiet());
    assert_eq!(task.state(), SCHEDULED | RUNNING | HANDLE | ARENA_ALLOCATED);
    assert_eq!(
        step(&mut task, Event::Poll(Polled::Pending)),
        Effects { enqueue: true, ..quiet() }
    );
    assert_eq!(task.state(), SCHEDULED | HANDLE | ARENA_ALLOCATED);
    assert_eq!(task.refcount(), 2);
}

#[test]
fn header_foreign_wake() {
    let mut task = TaskHeader::spawn(1);
    step(&mut task, Event::Run);
    step(&mut task, Event::CloneWaker);
    step(&mut task, Event::Poll(Polled::Pending));
    let effects = task.wake();
    assert!(effects.enqueue);
    let effects = task.run();
    assert!(effects.poll);
    step(&mut task, Event::Poll(Polled::Ready));
    let effects = task.join_poll();
    assert!(effects.take_output);
    let effects = task.drop_handle();
    assert!(effects.destroy);
}

#[test]
fn header_foreign_wake_by_ref() {
    let mut task = TaskHeader::spawn(1);
    step(&mut task, Event::Run);
    step(&mut task, Event::CloneWaker);
    step(&mut task, Event::Poll(Polled::Pending));
    let effects = task.wake_by_ref();
    assert!(effects.enqueue);
    let effects = task.schedule();
    assert_eq!(effects, quiet());
    step(&mut task, Event::Run);
    step(&mut task, Event::Poll(Polled::Ready));
    assert!(!step(&mut task, Event::DropHandle).destroy);
    assert!(step(&mut task, Event::DropWaker).destroy);
}

#[test]
fn header_task_panic_in_custom_queue() {
    let mut panicking = TaskHeader::spawn(7);
    let mut other = TaskHeader::spawn(7);
    step(&mut panicking, Event::Join);
    step(&mut panicking, Event::Run);
    assert_eq!(
        step(&mut panicking, Event::Poll(Polled::Panicked)),
        Effects { wake_awaiter: true, ..quiet() }
    );
    assert_eq!(panicking.state(), COMPLETED | CLOSED | HANDLE | ARENA_ALLOCATED);
    assert_eq!(panicking.stored(), Stored::Nothing);
    assert_eq!(step(&mut panicking, Event::Join), Effects { canceled: true, ..quiet() });
    assert!(step(&mut panicking, Event::DropHandle).destroy);

    assert_eq!(other.queue_id(), 7);
    assert_eq!(other.state(), SCHEDULED | HANDLE | ARENA_ALLOCATED);
    step(&mut other, Event::Run);
    step(&mut other, Event::Poll(Polled::Ready));
    assert!(step(&mut other, Event::Join).take_output);
}

#[test]
fn cancel_of_a_queued_task() {
    let mut task = TaskHeader::spawn(0);
    let effects = task.cancel();
    assert_eq!(effects, Effects { drop_future: true, ..quiet() });
    assert_eq!(task.state(), SCHEDULED | CLOSED | HANDLE | ARENA_ALLOCATED);
    assert_eq!(step(&mut task, Event::Cancel), quiet());
    assert_eq!(step(&mut task, Event::Join), Effects { keep_awaiter: true, ..quiet() });
    assert_eq!(step(&mut task, Event::Run), Effects { wake_awaiter: true, ..quiet() });
    assert_eq!(task.state(), CLOSED | HANDLE | ARENA_ALLOCATED);
    assert_eq!(step(&mut task, Event::Join), Effects { canceled: true, ..quiet() });
    assert!(step(&mut task, Event::DropHandle).destroy);
}

#[test]
fn cancel_of_a_running_task() {
    let mut task = TaskHeader::spawn(0);
    step(&mut task, Event::Run);
    step(&mut task, Event::CloneWaker);
    assert_eq!(step(&mut task, Event::Cancel), quiet());
    assert_eq!(task.stored(), Stored::Future);
    assert_eq!(step(&mut task, Event::WakeByRef), quiet());
    assert_eq!(
        step(&mut task, Event::Poll(Polled::Pending)),
        Effects { drop_future: true, ..quiet() }
    );
    assert_eq!(task.state(), COMPLETED | CLOSED | HANDLE | ARENA_ALLOCATED);
    assert_eq!(step(&mut task, Event::Wake), quiet());
    assert!(step(&mut task, Event::DropHandle).destroy);
}

#[test]
fn cancel_of_an_idle_task_wakes_the_awaiter() {
    let mut task = TaskHeader::spawn(0);
    step(&mut task, Event::Run);
    step(&mut task, Event::CloneWaker);
    step(&mut task, Event::Poll(Polled::Pending));
    step(&mut task, Event::Join);
    assert_eq!(
        step(&mut task, Event::Cancel),
        Effects { drop_future: true, wake_awaiter: true, ..quiet() }
    );
    assert_eq!(step(&mut task, Event::WakeByRef), quiet());
    assert_eq!(task.state(), CLOSED | HANDLE | ARENA_ALLOCATED);
    assert_eq!(step(&mut task, Event::Join), Effects { canceled: true, ..quiet() });
}

#[test]
fn nothing_happens_to_a_freed_task() {
    let mut task = TaskHeader::spawn(0);
    step(&mut task, Event::DropHandle);
    step(&mut task, Event::Run);
    assert!(step(&mut task, Event::Poll(Polled::Panicked)).destroy);
    for event in [
        Event::Wake,
        Event::WakeByRef,
        Event::CloneWaker,
        Event::DropWaker,
        Event::Run,
        Event::Poll(Polled::Pending),
        Event::Poll(Polled::Ready),
        Event::Poll(Polled::Panicked),
        Event::Cancel,
        Event::Join,
        Event::DropHandle,
    ] {
        assert!(!task.can(event));
    }
}

#[test]
fn events_need_their_holder() {
    let mut task = TaskHeader::spawn(0);
    assert!(!task.can(Event::Wake));
    assert!(!task.can(Event::WakeByRef));
    assert!(!task.can(Event::DropWaker));
    assert!(!task.can(Event::Poll(Polled::Ready)));
    assert!(task.can(Event::Run));
    assert!(task.can(Event::CloneWaker));
    step(&mut task, Event::Run);
    assert!(!task.can(Event::Run));
    assert!(!task.can(Event::Wake));
    assert!(task.can(Event::WakeByRef));
    assert!(task.can(Event::Poll(Polled::Pending)));
    step(&mut task, Event::DropHandle);
    assert!(!task.can(Event::Join));
    assert!(!task.can(Event::Cancel));
    assert!(!task.can(Event::DropHandle));
}

#[test]
fn the_output_is_handed_over_once() {
    let mut task = TaskHeader::spawn(0);
    step(&mut task, Event::Run);
    step(&mut task, Event::Poll(Polled::Ready));
    assert_eq!(task.state(), COMPLETED | HANDLE | ARENA_ALLOCATED);
    assert!(step(&mut task, Event::Join).take_output);
    for _ in 0..3 {
        let again = step(&mut task, Event::Join);
        assert!(!again.take_output && again.canceled);
    }
    let end = step(&mut task, Event::DropHandle);
    assert!(end.destroy && !end.drop_output);
}

#[test]
fn a_closed_task_is_never_queued_again() {
    let mut task = TaskHeader::spawn(0);
    step(&mut task, Event::Run);
    step(&mut task, Event::CloneWaker);
    step(&mut task, Event::CloneWaker);
    step(&mut task, Event::Poll(Polled::Pending));
    step(&mut task, Event::Cancel);
    assert_eq!(step(&mut task, Event::WakeByRef), quiet());
    assert_eq!(step(&mut task, Event::Wake), quiet());
    assert_eq!(task.state(), CLOSED | HANDLE | ARENA_ALLOCATED);
    assert!(!task.can(Event::Run));
}
