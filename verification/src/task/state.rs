//! The life cycle of a task.
//!
//! A task's header carries a byte of state bits and a count of references.
//! One reference belongs to each waker, and one to the task's place in a run
//! queue or, while it is polled, to the poll. The join handle is not counted:
//! the `HANDLE` bit stands for it. The header decides what each event does to
//! the task; whoever holds the future, the output and the wakers acts on the
//! decision.
use vstd::prelude::*;

verus! {

/// Set while the task waits in a run queue, or is to be queued again once
/// the poll that is under way returns.
pub const SCHEDULED: u8 = 1;

/// Set while the task's future is polled.
pub const RUNNING: u8 = 2;

/// Set once the poll has returned for the last time. Alone it says that the
/// output waits for the join handle; the join handle clears it when it takes
/// the output.
pub const COMPLETED: u8 = 4;

/// Set once the task was cancelled, has panicked, or had its output taken
/// or dropped. A closed task is never scheduled again.
pub const CLOSED: u8 = 8;

/// Set while the join handle exists.
pub const HANDLE: u8 = 16;

/// Set where the task's cell came from the arena.
pub const ARENA_ALLOCATED: u8 = 32;

/// The state bits, one by one.
#[derive(Clone, Copy, Debug, PartialEq, Eq, Structural)]
pub struct Flags {
    pub scheduled: bool,
    pub running: bool,
    pub completed: bool,
    pub closed: bool,
    pub handle: bool,
    pub arena_allocated: bool,
}

/// The bits of a state byte.
pub open spec fn flags_of(state: u8) -> Flags {
    Flags {
        scheduled: state & 1 != 0,
        running: state & 2 != 0,
        completed: state & 4 != 0,
        closed: state & 8 != 0,
        handle: state & 16 != 0,
        arena_allocated: state & 32 != 0,
    }
}

/// What the cell of a task holds.
#[derive(Clone, Copy, Debug, PartialEq, Eq, Structural)]
pub enum Stored {
    /// The future, not yet finished.
    Future,
    /// The output, not yet taken.
    Output,
    /// Neither.
    Nothing,
}

/// How a poll of the future ended.
#[derive(Clone, Copy, Debug, PartialEq, Eq, Structural)]
pub enum Polled {
    /// The future is not finished.
    Pending,
    /// The future returned its output.
    Ready,
    /// The future panicked; the panic was caught.
    Panicked,
}

/// What happens to a task.
#[derive(Clone, Copy, Debug, PartialEq, Eq, Structural)]
pub enum Event {
    /// A waker was fired and is used up by it.
    Wake,
    /// A waker was fired and lives on. The waker that a poll lends to the
    /// future counts: a task can wake itself while it is polled.
    WakeByRef,
    /// A waker was cloned.
    CloneWaker,
    /// A waker was dropped.
    DropWaker,
    /// The executor took the task from its run queue to run it.
    Run,
    /// The poll of the future returned.
    Poll(Polled),
    /// The join handle cancelled the task.
    Cancel,
    /// The join handle was polled.
    Join,
    /// The join handle was dropped.
    DropHandle,
}

/// What the holder of the task has to do after an event.
#[derive(Clone, Copy, Debug, PartialEq, Eq, Structural)]
pub struct Effects {
    /// Put the task at the end of its run queue.
    pub enqueue: bool,
    /// Poll the future.
    pub poll: bool,
    /// Drop the future.
    pub drop_future: bool,
    /// Drop the output.
    pub drop_output: bool,
    /// Hand the output to the join handle.
    pub take_output: bool,
    /// Tell the join handle that the task ended without an output.
    pub canceled: bool,
    /// Keep the waker of the join handle.
    pub keep_awaiter: bool,
    /// Fire the waker of the join handle.
    pub wake_awaiter: bool,
    /// Free the cell.
    pub destroy: bool,
    /// Give the cell back to the arena it came from.
    pub recycle: bool,
}

/// What a task's header is, seen from outside.
pub struct TaskView {
    pub flags: Flags,
    pub refcount: nat,
    pub queue_id: usize,
    pub awaiter: bool,
    pub stored: Stored,
    pub freed: bool,
}

/// No effect.
pub open spec fn nothing() -> Effects {
    Effects {
        enqueue: false,
        poll: false,
        drop_future: false,
        drop_output: false,
        take_output: false,
        canceled: false,
        keep_awaiter: false,
        wake_awaiter: false,
        destroy: false,
        recycle: false,
    }
}

/// A task that was just spawned into the run queue `queue_id`: queued, with
/// its handle, in a cell of the arena, held by the queue alone.
pub open spec fn spawned(queue_id: usize) -> TaskView {
    TaskView {
        flags: Flags {
            scheduled: true,
            running: false,
            completed: false,
            closed: false,
            handle: true,
            arena_allocated: true,
        },
        refcount: 1,
        queue_id,
        awaiter: false,
        stored: Stored::Future,
        freed: false,
    }
}

/// Reads the bits of a state byte.
pub fn decode(state: u8) -> (flags: Flags)
    ensures
        flags == flags_of(state),
{
    Flags {
        scheduled: state & SCHEDULED != 0,
        running: state & RUNNING != 0,
        completed: state & COMPLETED != 0,
        closed: state & CLOSED != 0,
        handle: state & HANDLE != 0,
        arena_allocated: state & ARENA_ALLOCATED != 0,
    }
}

/// Builds the state byte with the given bits.
pub fn encode(flags: Flags) -> (state: u8)
    ensures
        flags_of(state) == flags,
        state < 64,
{
    let a: u8 = if flags.scheduled {
        SCHEDULED
    } else {
        0
    };
    let b: u8 = if flags.running {
        RUNNING
    } else {
        0
    };
    let c: u8 = if flags.completed {
        COMPLETED
    } else {
        0
    };
    let d: u8 = if flags.closed {
        CLOSED
    } else {
        0
    };
    let e: u8 = if flags.handle {
        HANDLE
    } else {
        0
    };
    let f: u8 = if flags.arena_allocated {
        ARENA_ALLOCATED
    } else {
        0
    };
    let state = a | b | c | d | e | f;
    assert(((state & 1 != 0) == (a != 0)) && ((state & 2 != 0) == (b != 0)) && ((state & 4 != 0)
        == (c != 0)) && ((state & 8 != 0) == (d != 0)) && ((state & 16 != 0) == (e != 0)) && ((
    state & 32 != 0) == (f != 0)) && state < 64) by (bit_vector)
        requires
            state == a | b | c | d | e | f,
            a == 0 || a == 1,
            b == 0 || b == 2,
            c == 0 || c == 4,
            d == 0 || d == 8,
            e == 0 || e == 16,
            f == 0 || f == 32,
    ;
    state
}

/// The header of a task.
pub struct TaskHeader {
    state: u8,
    refcount: usize,
    queue_id: usize,
    awaiter: bool,
    stored: Stored,
    freed: bool,
}

impl TaskView {
    /// References that are not wakers: one while the task is queued or
    /// polled.
    pub open spec fn held_by_executor(self) -> nat {
        if self.flags.scheduled || self.flags.running {
            1
        } else {
            0
        }
    }

    /// Whether the task will be polled or looked at by the executor again:
    /// it is not closed, or it is still queued or being polled.
    pub open spec fn waits_for_run(self) -> bool {
        !self.flags.closed || self.flags.scheduled || self.flags.running
    }

    /// Number of live wakers.
    pub open spec fn wakers(self) -> int {
        self.refcount - self.held_by_executor()
    }

    /// The header's invariant.
    pub open spec fn wf(self) -> bool {
        &&& !(self.flags.scheduled && self.flags.completed)
        &&& !(self.flags.running && self.flags.completed)
        &&& self.refcount >= self.held_by_executor()
        &&& self.stored == Stored::Output <==> self.flags.completed && !self.flags.closed
        &&& self.stored == Stored::Output ==> self.flags.handle
        &&& self.stored == Stored::Future ==> !self.flags.completed
        &&& self.flags.closed && !self.flags.running ==> self.stored != Stored::Future
        &&& self.awaiter ==> self.flags.handle && !self.flags.completed && self.waits_for_run()
        &&& self.freed <==> self.refcount == 0 && !self.flags.handle
        &&& self.freed ==> self.stored == Stored::Nothing
    }

    /// Whether an event can happen to the task: somebody must hold what
    /// the event uses.
    pub open spec fn enabled(self, event: Event) -> bool {
        &&& !self.freed
        &&& match event {
            Event::Wake => self.wakers() >= 1,
            Event::WakeByRef => (self.wakers() >= 1 && self.refcount < usize::MAX)
                || self.flags.running,
            Event::CloneWaker => self.refcount >= 1 && self.refcount < usize::MAX,
            Event::DropWaker => self.wakers() >= 1,
            Event::Run => self.flags.scheduled && !self.flags.running,
            Event::Poll(_) => self.flags.running,
            Event::Cancel => self.flags.handle,
            Event::Join => self.flags.handle,
            Event::DropHandle => self.flags.handle,
        }
    }

    /// The task once nothing holds it any more: what it stores is dropped
    /// and the cell is freed.
    pub open spec fn released(self, effects: Effects) -> (TaskView, Effects) {
        if self.refcount == 0 && !self.flags.handle {
            (
                TaskView { stored: Stored::Nothing, awaiter: false, freed: true, ..self },
                Effects {
                    drop_future: effects.drop_future || self.stored == Stored::Future,
                    drop_output: effects.drop_output || self.stored == Stored::Output,
                    destroy: true,
                    recycle: self.flags.arena_allocated,
                    ..effects
                },
            )
        } else {
            (self, effects)
        }
    }

    /// The task after a wake that keeps the waker alive.
    pub open spec fn woken(self) -> (TaskView, Effects) {
        if self.flags.completed || self.flags.closed || self.flags.scheduled {
            (self, nothing())
        } else if self.flags.running {
            (TaskView { flags: Flags { scheduled: true, ..self.flags }, ..self }, nothing())
        } else {
            (
                TaskView {
                    flags: Flags { scheduled: true, ..self.flags },
                    refcount: self.refcount + 1,
                    ..self
                },
                Effects { enqueue: true, ..nothing() },
            )
        }
    }

    /// The task at the end of a poll or of a run that found it closed: the
    /// reference of the executor is given up.
    pub open spec fn done_running(self, effects: Effects) -> (TaskView, Effects) {
        (TaskView { refcount: (self.refcount - 1) as nat, ..self }).released(effects)
    }

    /// The task after an event, and what the event asks of the task's
    /// holder.
    pub open spec fn next(self, event: Event) -> (TaskView, Effects) {
        match event {
            Event::WakeByRef => self.woken(),
            Event::Wake => {
                let (woken, effects) = self.woken();
                (TaskView { refcount: (woken.refcount - 1) as nat, ..woken }).released(effects)
            },
            Event::CloneWaker => (TaskView { refcount: self.refcount + 1, ..self }, nothing()),
            Event::DropWaker => (TaskView {
                refcount: (self.refcount - 1) as nat,
                ..self
            }).released(nothing()),
            Event::Run => {
                if self.flags.closed {
                    (TaskView {
                        flags: Flags { scheduled: false, ..self.flags },
                        awaiter: false,
                        ..self
                    }).done_running(Effects { wake_awaiter: self.awaiter, ..nothing() })
                } else {
                    (
                        TaskView {
                            flags: Flags { scheduled: false, running: true, ..self.flags },
                            ..self
                        },
                        Effects { poll: true, ..nothing() },
                    )
                }
            },
            Event::Poll(polled) => {
                if polled == Polled::Panicked || self.flags.closed {
                    (TaskView {
                        flags: Flags {
                            scheduled: false,
                            running: false,
                            completed: true,
                            closed: true,
                            ..self.flags
                        },
                        stored: Stored::Nothing,
                        awaiter: false,
                        ..self
                    }).done_running(
                        Effects {
                            drop_future: polled != Polled::Panicked,
                            drop_output: polled == Polled::Ready,
                            wake_awaiter: self.awaiter,
                            ..nothing()
                        },
                    )
                } else if polled == Polled::Ready {
                    (TaskView {
                        flags: Flags {
                            scheduled: false,
                            running: false,
                            completed: true,
                            closed: !self.flags.handle,
                            ..self.flags
                        },
                        stored: if self.flags.handle {
                            Stored::Output
                        } else {
                            Stored::Nothing
                        },
                        awaiter: false,
                        ..self
                    }).done_running(
                        Effects {
                            drop_output: !self.flags.handle,
                            wake_awaiter: self.awaiter,
                            ..nothing()
                        },
                    )
                } else if self.flags.scheduled {
                    (
                        TaskView { flags: Flags { running: false, ..self.flags }, ..self },
                        Effects { enqueue: true, ..nothing() },
                    )
                } else {
                    (TaskView {
                        flags: Flags { running: false, ..self.flags },
                        ..self
                    }).done_running(nothing())
                }
            },
            Event::Cancel => {
                if self.flags.completed || self.flags.closed {
                    (self, nothing())
                } else if self.flags.running {
                    (TaskView { flags: Flags { closed: true, ..self.flags }, ..self }, nothing())
                } else {
                    (
                        TaskView {
                            flags: Flags { closed: true, ..self.flags },
                            stored: Stored::Nothing,
                            awaiter: self.awaiter && self.flags.scheduled,
                            ..self
                        },
                        Effects {
                            drop_future: self.stored == Stored::Future,
                            wake_awaiter: self.awaiter && !self.flags.scheduled,
                            ..nothing()
                        },
                    )
                }
            },
            Event::Join => {
                if self.stored == Stored::Output {
                    (
                        TaskView {
                            flags: Flags { completed: false, closed: true, ..self.flags },
                            stored: Stored::Nothing,
                            ..self
                        },
                        Effects { take_output: true, ..nothing() },
                    )
                } else if self.flags.completed || !self.waits_for_run() {
                    (self, Effects { canceled: true, ..nothing() })
                } else {
                    (TaskView { awaiter: true, ..self }, Effects { keep_awaiter: true, ..nothing() })
                }
            },
            Event::DropHandle => {
                (TaskView {
                    flags: Flags {
                        handle: false,
                        closed: self.flags.closed || self.stored == Stored::Output,
                        ..self.flags
                    },
                    stored: if self.stored == Stored::Output {
                        Stored::Nothing
                    } else {
                        self.stored
                    },
                    awaiter: false,
                    ..self
                }).released(Effects { drop_output: self.stored == Stored::Output, ..nothing() })
            },
        }
    }

    /// Whether the task has its place in a run queue: it is scheduled and
    /// not being polled.
    pub open spec fn queued(self) -> bool {
        self.flags.scheduled && !self.flags.running
    }
}

impl View for TaskHeader {
    type V = TaskView;

    closed spec fn view(&self) -> TaskView {
        TaskView {
            flags: flags_of(self.state),
            refcount: self.refcount as nat,
            queue_id: self.queue_id,
            awaiter: self.awaiter,
            stored: self.stored,
            freed: self.freed,
        }
    }
}

impl Effects {
    /// No effect.
    pub fn none() -> (effects: Self)
        ensures
            effects == nothing(),
    {
        Effects {
            enqueue: false,
            poll: false,
            drop_future: false,
            drop_output: false,
            take_output: false,
            canceled: false,
            keep_awaiter: false,
            wake_awaiter: false,
            destroy: false,
            recycle: false,
        }
    }
}

impl TaskHeader {
    /// The header of a task that was just spawned into the run queue
    /// `queue_id`. The caller stores the future and queues the task.
    pub fn spawn(queue_id: usize) -> (task: Self)
        ensures
            task@ == spawned(queue_id),
            task@.wf(),
    {
        let flags = Flags {
            scheduled: true,
            running: false,
            completed: false,
            closed: false,
            handle: true,
            arena_allocated: true,
        };
        TaskHeader {
            state: encode(flags),
            refcount: 1,
            queue_id,
            awaiter: false,
            stored: Stored::Future,
            freed: false,
        }
    }

    /// The state byte.
    pub fn state(&self) -> (state: u8)
        ensures
            flags_of(state) == self@.flags,
    {
        self.state
    }

    /// Number of references: the wakers, and one while the task is queued
    /// or polled.
    pub fn refcount(&self) -> (n: usize)
        ensures
            n == self@.refcount,
    {
        self.refcount
    }

    /// Run queue that the task belongs to.
    pub fn queue_id(&self) -> (id: usize)
        ensures
            id == self@.queue_id,
    {
        self.queue_id
    }

    /// What the cell stores.
    pub fn stored(&self) -> (stored: Stored)
        ensures
            stored == self@.stored,
    {
        self.stored
    }

    /// Whether the cell was freed.
    pub fn is_freed(&self) -> (freed: bool)
        ensures
            freed == self@.freed,
    {
        self.freed
    }

    /// Whether an event can happen to the task.
    pub fn can(&self, event: Event) -> (yes: bool)
        ensures
            yes == self@.enabled(event),
    {
        if self.freed {
            return false;
        }
        let flags = decode(self.state);
        let held: usize = if flags.scheduled || flags.running {
            1
        } else {
            0
        };
        match event {
            Event::Wake => self.refcount > held,
            Event::WakeByRef => (self.refcount > held && self.refcount < usize::MAX)
                || flags.running,
            Event::CloneWaker => self.refcount >= 1 && self.refcount < usize::MAX,
            Event::DropWaker => self.refcount > held,
            Event::Run => flags.scheduled && !flags.running,
            Event::Poll(_) => flags.running,
            Event::Cancel => flags.handle,
            Event::Join => flags.handle,
            Event::DropHandle => flags.handle,
        }
    }

    /// Frees the cell where nothing holds the task any more.
    fn release(&mut self, flags: Flags, effects: Effects) -> (out: Effects)
        requires
            !old(self).freed,
        ensures
            (final(self)@, out) == (TaskView { flags, ..old(self)@ }).released(effects),
    {
        self.state = encode(flags);
        if self.refcount == 0 && !flags.handle {
            let out = Effects {
                drop_future: effects.drop_future || self.stored == Stored::Future,
                drop_output: effects.drop_output || self.stored == Stored::Output,
                destroy: true,
                recycle: flags.arena_allocated,
                ..effects
            };
            self.stored = Stored::Nothing;
            self.awaiter = false;
            self.freed = true;
            out
        } else {
            effects
        }
    }

    /// A waker was fired by reference.
    fn on_wake_by_ref(&mut self) -> (effects: Effects)
        requires
            old(self)@.wf(),
            old(self)@.enabled(Event::WakeByRef),
        ensures
            (final(self)@, effects) == old(self)@.next(Event::WakeByRef),
    {
        let flags = decode(self.state);
        let none = Effects::none();
        if flags.completed || flags.closed || flags.scheduled {
            none
        } else if flags.running {
            self.state = encode(Flags { scheduled: true, ..flags });
            none
        } else {
            self.state = encode(Flags { scheduled: true, ..flags });
            self.refcount = self.refcount + 1;
            Effects { enqueue: true, ..none }
        }
    }

    /// A waker was fired and used up.
    fn on_wake(&mut self) -> (effects: Effects)
        requires
            old(self)@.wf(),
            old(self)@.enabled(Event::Wake),
        ensures
            (final(self)@, effects) == old(self)@.next(Event::Wake),
    {
        let flags = decode(self.state);
        let none = Effects::none();
        if flags.completed || flags.closed || flags.scheduled {
            self.refcount = self.refcount - 1;
            self.release(flags, none)
        } else if flags.running {
            self.refcount = self.refcount - 1;
            self.release(Flags { scheduled: true, ..flags }, none)
        } else {
            self.release(Flags { scheduled: true, ..flags }, Effects { enqueue: true, ..none })
        }
    }

    /// A waker was dropped.
    fn on_drop_waker(&mut self) -> (effects: Effects)
        requires
            old(self)@.wf(),
            old(self)@.enabled(Event::DropWaker),
        ensures
            (final(self)@, effects) == old(self)@.next(Event::DropWaker),
    {
        let flags = decode(self.state);
        self.refcount = self.refcount - 1;
        self.release(flags, Effects::none())
    }

    /// The task was taken out of its queue.
    fn on_run(&mut self) -> (effects: Effects)
        requires
            old(self)@.wf(),
            old(self)@.enabled(Event::Run),
        ensures
            (final(self)@, effects) == old(self)@.next(Event::Run),
    {
        let flags = decode(self.state);
        let none = Effects::none();
        if flags.closed {
            let wake_awaiter = self.awaiter;
            self.awaiter = false;
            self.refcount = self.refcount - 1;
            self.release(Flags { scheduled: false, ..flags }, Effects { wake_awaiter, ..none })
        } else {
            self.state = encode(Flags { scheduled: false, running: true, ..flags });
            Effects { poll: true, ..none }
        }
    }

    /// The poll of the future returned.
    fn on_poll(&mut self, polled: Polled) -> (effects: Effects)
        requires
            old(self)@.wf(),
            old(self)@.enabled(Event::Poll(polled)),
        ensures
            (final(self)@, effects) == old(self)@.next(Event::Poll(polled)),
    {
        let flags = decode(self.state);
        let none = Effects::none();
        let wake_awaiter = self.awaiter;
        let panicked = match polled {
            Polled::Panicked => true,
            _ => false,
        };
        let ready = match polled {
            Polled::Ready => true,
            _ => false,
        };
        if panicked || flags.closed {
            self.stored = Stored::Nothing;
            self.awaiter = false;
            self.refcount = self.refcount - 1;
            self.release(
                Flags { scheduled: false, running: false, completed: true, closed: true, ..flags },
                Effects { drop_future: !panicked, drop_output: ready, wake_awaiter, ..none },
            )
        } else if ready {
            self.stored = if flags.handle {
                Stored::Output
            } else {
                Stored::Nothing
            };
            self.awaiter = false;
            self.refcount = self.refcount - 1;
            self.release(
                Flags {
                    scheduled: false,
                    running: false,
                    completed: true,
                    closed: !flags.handle,
                    ..flags
                },
                Effects { drop_output: !flags.handle, wake_awaiter, ..none },
            )
        } else if flags.scheduled {
            self.state = encode(Flags { running: false, ..flags });
            Effects { enqueue: true, ..none }
        } else {
            self.refcount = self.refcount - 1;
            self.release(Flags { running: false, ..flags }, none)
        }
    }

    /// The join handle cancelled the task.
    fn on_cancel(&mut self) -> (effects: Effects)
        requires
            old(self)@.wf(),
            old(self)@.enabled(Event::Cancel),
        ensures
            (final(self)@, effects) == old(self)@.next(Event::Cancel),
    {
        let flags = decode(self.state);
        let none = Effects::none();
        if flags.completed || flags.closed {
            none
        } else if flags.running {
            self.state = encode(Flags { closed: true, ..flags });
            none
        } else {
            let drop_future = match self.stored {
                Stored::Future => true,
                _ => false,
            };
            let wake_awaiter = self.awaiter && !flags.scheduled;
            self.state = encode(Flags { closed: true, ..flags });
            self.stored = Stored::Nothing;
            self.awaiter = self.awaiter && flags.scheduled;
            Effects { drop_future, wake_awaiter, ..none }
        }
    }

    /// The join handle was polled.
    fn on_join(&mut self) -> (effects: Effects)
        requires
            old(self)@.wf(),
            old(self)@.enabled(Event::Join),
        ensures
            (final(self)@, effects) == old(self)@.next(Event::Join),
    {
        let flags = decode(self.state);
        let none = Effects::none();
        let has_output = match self.stored {
            Stored::Output => true,
            _ => false,
        };
        if has_output {
            self.state = encode(Flags { completed: false, closed: true, ..flags });
            self.stored = Stored::Nothing;
            Effects { take_output: true, ..none }
        } else if flags.completed || (flags.closed && !flags.scheduled && !flags.running) {
            Effects { canceled: true, ..none }
        } else {
            self.awaiter = true;
            Effects { keep_awaiter: true, ..none }
        }
    }

    /// The join handle was dropped.
    fn on_drop_handle(&mut self) -> (effects: Effects)
        requires
            old(self)@.wf(),
            old(self)@.enabled(Event::DropHandle),
        ensures
            (final(self)@, effects) == old(self)@.next(Event::DropHandle),
    {
        let flags = decode(self.state);
        let has_output = match self.stored {
            Stored::Output => true,
            _ => false,
        };
        if has_output {
            self.stored = Stored::Nothing;
        }
        self.awaiter = false;
        self.release(
            Flags { handle: false, closed: flags.closed || has_output, ..flags },
            Effects { drop_output: has_output, ..Effects::none() },
        )
    }

    /// Lets an event happen to the task. Returns what the holder of the
    /// task has to do.
    pub fn apply(&mut self, event: Event) -> (effects: Effects)
        requires
            old(self)@.wf(),
            old(self)@.enabled(event),
        ensures
            (final(self)@, effects) == old(self)@.next(event),
            final(self)@.wf(),
    {
        proof {
            law_invariant_kept(old(self)@, event);
        }
        match event {
            Event::WakeByRef => self.on_wake_by_ref(),
            Event::Wake => self.on_wake(),
            Event::CloneWaker => {
                self.refcount = self.refcount + 1;
                Effects::none()
            },
            Event::DropWaker => self.on_drop_waker(),
            Event::Run => self.on_run(),
            Event::Poll(polled) => self.on_poll(polled),
            Event::Cancel => self.on_cancel(),
            Event::Join => self.on_join(),
            Event::DropHandle => self.on_drop_handle(),
        }
    }

    /// Marks the task as scheduled and asks for it to be queued, unless it
    /// is queued, completed or closed. A task that is being polled is
    /// queued once the poll returns.
    pub fn schedule(&mut self) -> (effects: Effects)
        requires
            old(self)@.wf(),
            old(self)@.enabled(Event::WakeByRef),
        ensures
            (final(self)@, effects) == old(self)@.next(Event::WakeByRef),
            final(self)@.wf(),
    {
        self.apply(Event::WakeByRef)
    }

    /// Takes the task from its run queue: the task is polled, unless it was
    /// closed in the meantime.
    pub fn run(&mut self) -> (effects: Effects)
        requires
            old(self)@.wf(),
            old(self)@.enabled(Event::Run),
        ensures
            (final(self)@, effects) == old(self)@.next(Event::Run),
            final(self)@.wf(),
    {
        self.apply(Event::Run)
    }

    /// Fires a waker and uses it up.
    pub fn wake(&mut self) -> (effects: Effects)
        requires
            old(self)@.wf(),
            old(self)@.enabled(Event::Wake),
        ensures
            (final(self)@, effects) == old(self)@.next(Event::Wake),
            final(self)@.wf(),
    {
        self.apply(Event::Wake)
    }

    /// Fires a waker that lives on.
    pub fn wake_by_ref(&mut self) -> (effects: Effects)
        requires
            old(self)@.wf(),
            old(self)@.enabled(Event::WakeByRef),
        ensures
            (final(self)@, effects) == old(self)@.next(Event::WakeByRef),
            final(self)@.wf(),
    {
        self.apply(Event::WakeByRef)
    }

    /// Cancels the task: a task that is not being polled loses its future
    /// at once, one that is loses it when the poll returns.
    pub fn cancel(&mut self) -> (effects: Effects)
        requires
            old(self)@.wf(),
            old(self)@.enabled(Event::Cancel),
        ensures
            (final(self)@, effects) == old(self)@.next(Event::Cancel),
            final(self)@.wf(),
    {
        self.apply(Event::Cancel)
    }

    /// Polls the join handle: the output of a completed task is handed
    /// over; otherwise the handle's waker is kept.
    pub fn join_poll(&mut self) -> (effects: Effects)
        requires
            old(self)@.wf(),
            old(self)@.enabled(Event::Join),
        ensures
            (final(self)@, effects) == old(self)@.next(Event::Join),
            final(self)@.wf(),
    {
        self.apply(Event::Join)
    }

    /// Records that the poll of the future returned.
    pub fn poll_returned(&mut self, polled: Polled) -> (effects: Effects)
        requires
            old(self)@.wf(),
            old(self)@.enabled(Event::Poll(polled)),
        ensures
            (final(self)@, effects) == old(self)@.next(Event::Poll(polled)),
            final(self)@.wf(),
    {
        self.apply(Event::Poll(polled))
    }

    /// Counts one more waker.
    pub fn clone_waker(&mut self) -> (effects: Effects)
        requires
            old(self)@.wf(),
            old(self)@.enabled(Event::CloneWaker),
        ensures
            (final(self)@, effects) == old(self)@.next(Event::CloneWaker),
            final(self)@.wf(),
    {
        self.apply(Event::CloneWaker)
    }

    /// Counts one waker less; the last reference frees the cell.
    pub fn drop_waker(&mut self) -> (effects: Effects)
        requires
            old(self)@.wf(),
            old(self)@.enabled(Event::DropWaker),
        ensures
            (final(self)@, effects) == old(self)@.next(Event::DropWaker),
            final(self)@.wf(),
    {
        self.apply(Event::DropWaker)
    }

    /// Drops the join handle: an output that was not taken is dropped.
    pub fn drop_handle(&mut self) -> (effects: Effects)
        requires
            old(self)@.wf(),
            old(self)@.enabled(Event::DropHandle),
        ensures
            (final(self)@, effects) == old(self)@.next(Event::DropHandle),
            final(self)@.wf(),
    {
        self.apply(Event::DropHandle)
    }
}

/// Every event that can happen keeps the invariant.
pub proof fn law_invariant_kept(task: TaskView, event: Event)
    requires
        task.wf(),
        task.enabled(event),
    ensures
        task.next(event).0.wf(),
        spawned(task.queue_id).wf(),
{
}

/// A task is freed once: an event frees the cell exactly if it leaves
/// nothing that holds the task, nothing can happen to a task that was
/// freed, and the count of references never goes below the executor's
/// share.
pub proof fn law_freed_once(task: TaskView, event: Event)
    requires
        task.wf(),
        task.enabled(event),
    ensures
        task.next(event).1.destroy <==> task.next(event).0.freed,
        task.next(event).0.freed ==> forall|later: Event| !task.next(event).0.enabled(later),
        task.next(event).0.refcount >= task.next(event).0.held_by_executor(),
        task.next(event).1.recycle <==> task.next(event).1.destroy && task.flags.arena_allocated,
        task.next(event).0.flags.arena_allocated == task.flags.arena_allocated,
{
}

/// A closed task is never scheduled: no event queues it, and none sets the
/// `SCHEDULED` bit of a closed task that did not have it.
pub proof fn law_closed_never_scheduled(task: TaskView, event: Event)
    requires
        task.wf(),
        task.enabled(event),
        task.flags.closed,
    ensures
        !task.next(event).1.enqueue,
        task.next(event).0.flags.scheduled ==> task.flags.scheduled,
        task.next(event).0.flags.closed,
        !task.next(event).1.poll,
{
}

/// The output of a completed task is handed to the join handle once or
/// dropped once: while the cell stores it the task is completed and the
/// handle lives; the event that takes or drops it leaves nothing stored.
pub proof fn law_output_once(task: TaskView, event: Event)
    requires
        task.wf(),
        task.enabled(event),
    ensures
        task.next(event).1.take_output ==> event == Event::Join && task.stored == Stored::Output
            && task.next(event).0.stored == Stored::Nothing,
        task.stored == Stored::Output && task.next(event).0.stored != Stored::Output ==> (
        task.next(event).1.take_output != task.next(event).1.drop_output),
        task.stored != Stored::Output && event != Event::Poll(Polled::Ready) ==> !task.next(
            event,
        ).1.take_output && !task.next(event).1.drop_output,
        task.stored == Stored::Output && event == Event::DropHandle ==> task.next(
            event,
        ).1.drop_output,
{
}

/// A task has a place in its run queue exactly from the event that asks
/// for it to be queued until it is taken out to run; no event queues a task
/// that is queued, and a task that is freed is neither queued nor polled.
pub proof fn law_queue_follows(task: TaskView, event: Event)
    requires
        task.wf(),
        task.enabled(event),
    ensures
        event != Event::Run ==> task.next(event).0.queued() == (task.queued() || task.next(
            event,
        ).1.enqueue),
        task.next(event).1.enqueue ==> !task.queued(),
        event == Event::Run ==> task.queued() && !task.next(event).0.queued() && !task.next(
            event,
        ).1.enqueue,
        task.next(event).0.freed ==> !task.next(event).0.flags.scheduled && !task.next(
            event,
        ).0.flags.running,
        task.next(event).0.queue_id == task.queue_id,
{
}
} // verus!
