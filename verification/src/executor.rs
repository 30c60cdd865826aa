//! The core of an executor.
//!
//! An executor owns the arena that stores its tasks, the header of every
//! task, and its run queues. A task is named by the index of its slot in the
//! arena. Spawning takes a slot and queues the task; every event that
//! happens to a task is put to the task's header, and what the header asks
//! for is done here: the task is queued again, or its slot goes back to the
//! arena. Whoever holds the futures polls them and reports how the poll
//! ended.
use crate::task::arena::lemma_slot_round_trip;
use crate::task::arena::ArenaStats;
use crate::task::arena::ArenaView;
use crate::task::arena::TaskArena;
use crate::task::arena::ARENA_BYTES;
use crate::task::arena::SLOT_CAPACITY;
use crate::task::state::law_invariant_kept;
use crate::task::state::law_freed_once;
use crate::task::state::law_queue_follows;
use crate::task::state::spawned;
use crate::task::state::Effects;
use crate::task::state::Event;
use crate::task::state::TaskHeader;
use crate::task::state::TaskView;
use std::collections::VecDeque;
use vstd::prelude::*;

verus! {

/// The core of an executor.
pub struct Executor {
    arena: TaskArena,
    tasks: Vec<Option<TaskHeader>>,
    queues: Vec<VecDeque<u32>>,
}

/// What the core of an executor is, seen from outside.
pub struct ExecutorView {
    /// The arena.
    pub arena: ArenaView,
    /// The live tasks, by the index of their slot.
    pub tasks: Map<u32, TaskView>,
    /// The run queues: in each, the tasks that wait to run, the next one
    /// first.
    pub queues: Seq<Seq<u32>>,
}

/// Takes the header at `i` out of the table.
fn take_header(tasks: &mut Vec<Option<TaskHeader>>, i: usize) -> (header: Option<TaskHeader>)
    requires
        i < old(tasks)@.len(),
    ensures
        header == old(tasks)@[i as int],
        final(tasks)@ == old(tasks)@.update(i as int, None),
{
    let mut header: Option<TaskHeader> = None;
    std::mem::swap(&mut tasks[i], &mut header);
    header
}

impl ExecutorView {
    /// The executor after a task was spawned into slot `task` and queue
    /// `queue_id` for a request of `size` bytes aligned to `align`.
    pub open spec fn spawn(self, task: u32, queue_id: usize, size: usize, align: usize)
        -> ExecutorView {
        ExecutorView {
            arena: self.arena.allocate(size, align),
            tasks: self.tasks.insert(task, spawned(queue_id)),
            queues: self.queues.update(queue_id as int, self.queues[queue_id as int].push(task)),
        }
    }

    /// The executor after an event happened to a live task: the header
    /// moves on; a task that asks for it goes to the end of its queue; a
    /// task that is freed leaves, and its slot goes back to the arena.
    pub open spec fn after(self, task: u32, event: Event) -> ExecutorView {
        let (next, effects) = self.tasks[task].next(event);
        let queue_id = self.tasks[task].queue_id as int;
        ExecutorView {
            arena: if effects.destroy {
                self.arena.deallocate(self.arena.address_of(task))
            } else {
                self.arena
            },
            tasks: if effects.destroy {
                self.tasks.remove(task)
            } else {
                self.tasks.insert(task, next)
            },
            queues: if effects.enqueue {
                self.queues.update(queue_id, self.queues[queue_id].push(task))
            } else {
                self.queues
            },
        }
    }

    /// The executor after the first task of a queue was taken out to run.
    pub open spec fn taken(self, queue_id: usize) -> ExecutorView {
        let task = self.queues[queue_id as int][0];
        let popped = ExecutorView {
            queues: self.queues.update(queue_id as int, self.queues[queue_id as int].drop_first()),
            ..self
        };
        popped.after(task, Event::Run)
    }
}

impl View for Executor {
    type V = ExecutorView;

    closed spec fn view(&self) -> ExecutorView {
        ExecutorView {
            arena: self.arena@,
            tasks: Map::new(
                |t: u32| t < SLOT_CAPACITY && self.tasks@[t as int] is Some,
                |t: u32| self.tasks@[t as int]->0@,
            ),
            queues: Seq::new(self.queues@.len(), |q: int| self.queues@[q]@),
        }
    }
}

impl Executor {
    /// The header in a slot that is in use.
    spec fn header(&self, t: int) -> TaskView {
        self.tasks@[t]->0@
    }

    /// A live task is well-formed, belongs to a queue that exists, and is in
    /// that queue if it waits to run.
    spec fn live_ok(&self, t: int) -> bool {
        let v = self.header(t);
        &&& v.wf()
        &&& !v.freed
        &&& v.flags.arena_allocated
        &&& v.queue_id < self.queues@.len()
        &&& v.queued() ==> self.queues@[v.queue_id as int]@.contains(t as u32)
    }

    /// An entry of a queue is a live task of that queue that waits to run.
    spec fn entry_ok(&self, q: int, i: int) -> bool {
        let t = self.queues@[q]@[i];
        &&& t < SLOT_CAPACITY
        &&& self.tasks@[t as int] is Some
        &&& self.header(t as int).queue_id == q
        &&& self.header(t as int).queued()
    }

    /// The invariant: a slot is in use exactly if a task lives in it; every
    /// live task is well-formed; a task is in its run queue, once, exactly
    /// while it is scheduled and not being polled.
    pub closed spec fn wf(&self) -> bool {
        &&& self.arena.wf()
        &&& self.tasks@.len() == SLOT_CAPACITY
        &&& forall|t: int|
            0 <= t < SLOT_CAPACITY ==> ((#[trigger] self.tasks@[t]) is Some
                <==> !self.arena@.free.contains(t as u32))
        &&& forall|t: int|
            0 <= t < SLOT_CAPACITY && (#[trigger] self.tasks@[t]) is Some ==> self.live_ok(t)
        &&& forall|q: int, i: int|
            0 <= q < self.queues@.len() && 0 <= i < self.queues@[q]@.len()
                ==> #[trigger] self.entry_ok(q, i)
        &&& forall|q: int, i: int, j: int|
            0 <= q < self.queues@.len() && 0 <= i < j < self.queues@[q]@.len()
                ==> #[trigger] self.queues@[q]@[i] != #[trigger] self.queues@[q]@[j]
    }

    /// What the invariant says of the view: the tasks are those whose slot
    /// is in use; each is well-formed and alive; the queues hold, each once,
    /// the tasks that are scheduled and not being polled, each in its own
    /// queue.
    pub proof fn lemma_invariant(&self)
        requires
            self.wf(),
        ensures
            forall|t: u32| #[trigger]
                self@.tasks.contains_key(t) <==> t < SLOT_CAPACITY && !self@.arena.free.contains(t),
            forall|t: u32| #[trigger]
                self@.tasks.contains_key(t) ==> self@.tasks[t].wf() && !self@.tasks[t].freed
                    && self@.tasks[t].queue_id < self@.queues.len() && (self@.tasks[t].queued()
                    <==> self@.queues[self@.tasks[t].queue_id as int].contains(t)),
            forall|q: int, i: int|
                0 <= q < self@.queues.len() && 0 <= i < self@.queues[q].len()
                    ==> self@.tasks.contains_key(#[trigger] self@.queues[q][i])
                    && self@.tasks[self@.queues[q][i]].queue_id == q,
            forall|q: int, i: int, j: int|
                0 <= q < self@.queues.len() && 0 <= i < j < self@.queues[q].len()
                    ==> #[trigger] self@.queues[q][i] != #[trigger] self@.queues[q][j],
            self@.tasks.dom().finite(),
    {
        assert forall|t: u32| #[trigger]
            self@.tasks.contains_key(t) implies self@.tasks[t].wf() && !self@.tasks[t].freed
            && self@.tasks[t].queue_id < self@.queues.len() && (self@.tasks[t].queued()
            <==> self@.queues[self@.tasks[t].queue_id as int].contains(t)) by {
            assert(self.tasks@[t as int] is Some);
            assert(self.live_ok(t as int));
            let q = self@.tasks[t].queue_id as int;
            if self@.queues[q].contains(t) {
                let i = choose|i: int| 0 <= i < self@.queues[q].len() && self@.queues[q][i] == t;
                assert(self.entry_ok(q, i));
            }
        }
        assert forall|q: int, i: int|
            0 <= q < self@.queues.len() && 0 <= i
                < self@.queues[q].len() implies self@.tasks.contains_key(
            #[trigger] self@.queues[q][i],
        ) && self@.tasks[self@.queues[q][i]].queue_id == q by {
            assert(self.entry_ok(q, i));
        }
        let slots = Set::new(|t: u32| t < SLOT_CAPACITY);
        let ints = vstd::set_lib::set_int_range(0, 100_000);
        vstd::set_lib::lemma_int_range(0, 100_000);
        let as_slot = |i: int| i as u32;
        assert(ints.map(as_slot) =~= slots) by {
            assert forall|s: u32| slots.contains(s) implies ints.map(as_slot).contains(s) by {
                assert(ints.contains(s as int));
                assert(as_slot(s as int) == s);
            }
        }
        ints.lemma_map_finite(as_slot);
        assert(self@.tasks.dom().subset_of(slots));
        vstd::set_lib::lemma_len_subset(self@.tasks.dom(), slots);
    }

    /// Creates the core of an executor with `nr_queues` run queues whose
    /// arena lies at `memory`.
    pub fn new(memory: usize, nr_queues: usize) -> (executor: Self)
        requires
            memory + ARENA_BYTES <= usize::MAX,
        ensures
            executor.wf(),
            executor@.tasks == Map::<u32, TaskView>::empty(),
            executor@.queues == Seq::new(nr_queues as nat, |q: int| Seq::<u32>::empty()),
            executor@.arena == (ArenaView { base: memory, ..executor@.arena }).reset(),
    {
        let arena = TaskArena::new(memory);
        let mut tasks: Vec<Option<TaskHeader>> = Vec::new();
        let mut n: usize = 0;
        while n < SLOT_CAPACITY
            invariant
                n <= SLOT_CAPACITY,
                tasks@.len() == n,
                forall|t: int| 0 <= t < n ==> (#[trigger] tasks@[t]) is None,
            decreases SLOT_CAPACITY - n,
        {
            tasks.push(None);
            n = n + 1;
        }
        let mut queues: Vec<VecDeque<u32>> = Vec::new();
        let mut q: usize = 0;
        while q < nr_queues
            invariant
                q <= nr_queues,
                queues@.len() == q,
                forall|k: int| 0 <= k < q ==> (#[trigger] queues@[k])@.len() == 0,
            decreases nr_queues - q,
        {
            queues.push(VecDeque::new());
            q = q + 1;
        }
        let executor = Executor { arena, tasks, queues };
        proof {
            assert forall|t: int| 0 <= t < SLOT_CAPACITY implies ((
            #[trigger] executor.tasks@[t]) is Some <==> !executor.arena@.free.contains(
                t as u32,
            )) by {
                assert(executor.arena@.free[t] == t as u32);
            }
            assert(executor@.tasks =~= Map::<u32, TaskView>::empty());
            assert forall|q: int| 0 <= q < nr_queues implies executor@.queues[q]
                == Seq::<u32>::empty() by {
                assert(executor.queues@[q]@ =~= Seq::<u32>::empty());
            }
            assert(executor@.queues =~= Seq::new(nr_queues as nat, |q: int| Seq::<u32>::empty()));
        }
        executor
    }

    /// Number of run queues.
    pub fn nr_queues(&self) -> (n: usize)
        ensures
            n == self@.queues.len(),
    {
        self.queues.len()
    }

    /// Number of tasks that wait in a run queue.
    pub fn queue_len(&self, queue_id: usize) -> (n: usize)
        requires
            queue_id < self@.queues.len(),
        ensures
            n == self@.queues[queue_id as int].len(),
    {
        self.queues[queue_id].len()
    }

    /// The counters of the arena.
    pub fn arena_stats(&self) -> (stats: ArenaStats)
        ensures
            stats == self@.arena.stats,
    {
        self.arena.stats()
    }

    /// Number of live tasks.
    pub fn task_count(&self) -> (n: usize)
        requires
            self.wf(),
        ensures
            n == self@.arena.stats.active_slots,
            n + self@.arena.free.len() == SLOT_CAPACITY,
    {
        proof {
            self.arena.lemma_free_list();
        }
        self.arena.stats().active_slots
    }

    /// Whether a task lives in the slot with this index.
    pub fn is_live(&self, task: u32) -> (live: bool)
        requires
            self.wf(),
        ensures
            live == self@.tasks.contains_key(task),
    {
        (task as usize) < SLOT_CAPACITY && self.tasks[task as usize].is_some()
    }

    /// Whether an event can happen to a task. Nothing can happen to a task
    /// that does not live.
    pub fn can(&self, task: u32, event: Event) -> (yes: bool)
        requires
            self.wf(),
        ensures
            yes == (self@.tasks.contains_key(task) && self@.tasks[task].enabled(event)),
    {
        if (task as usize) >= SLOT_CAPACITY {
            return false;
        }
        match &self.tasks[task as usize] {
            Some(header) => header.can(event),
            None => false,
        }
    }

    /// The state byte of a live task.
    pub fn state(&self, task: u32) -> (state: Option<u8>)
        requires
            self.wf(),
        ensures
            state is Some <==> self@.tasks.contains_key(task),
            state is Some ==> crate::task::state::flags_of(state->0) == self@.tasks[task].flags,
    {
        if (task as usize) >= SLOT_CAPACITY {
            return None;
        }
        match &self.tasks[task as usize] {
            Some(header) => Some(header.state()),
            None => None,
        }
    }

    /// Spawns a task into the run queue `queue_id`: takes a slot of the
    /// arena for a cell of `size` bytes aligned to `align` and puts the task
    /// at the end of the queue. Returns the index of the slot, `None` where
    /// the arena does not serve the request.
    pub fn spawn(&mut self, queue_id: usize, size: usize, align: usize) -> (task: Option<u32>)
        requires
            old(self).wf(),
            queue_id < old(self)@.queues.len(),
            old(self)@.arena.stats.arena_allocs < usize::MAX,
        ensures
            final(self).wf(),
            match task {
                Some(t) => old(self)@.arena.serves(size, align) && t == old(self)@.arena.free[0]
                    && final(self)@ == old(self)@.spawn(t, queue_id, size, align),
                None => !old(self)@.arena.serves(size, align) && final(self)@ == old(self)@,
            },
    {
        let ghost pre = *self;
        proof {
            pre.arena.lemma_free_list();
        }
        let addr = match self.arena.try_allocate(size, align) {
            Some(addr) => addr,
            None => {
                proof {
                    assert(self@.tasks =~= pre@.tasks);
                    assert(self@.queues =~= pre@.queues);
                    assert forall|q: int, i: int|
                        0 <= q < self.queues@.len() && 0 <= i
                            < self.queues@[q]@.len() implies #[trigger] self.entry_ok(q, i) by {
                        assert(pre.entry_ok(q, i));
                    }
                    assert forall|s: int|
                        0 <= s < SLOT_CAPACITY && (
                        #[trigger] self.tasks@[s]) is Some implies self.live_ok(s) by {
                        assert(pre.live_ok(s));
                    }
                }
                return None;
            },
        };
        proof {
            lemma_slot_round_trip(pre.arena@, pre.arena@.free[0]);
            lemma_slot_round_trip(self.arena@, pre.arena@.free[0]);
        }
        let task = self.arena.slot_index(addr);
        let at = task as usize;
        self.tasks[at] = Some(TaskHeader::spawn(queue_id));
        self.queues[queue_id].push_back(task);
        proof {
            let t = task as int;
            assert(pre.tasks@[t] is None) by {
                assert(pre.arena@.free.contains(pre.arena@.free[0]));
            }
            assert(forall|q: int|
                0 <= q < self.queues@.len() && q != queue_id ==> self.queues@[q] == pre.queues@[q]);
            assert(self.queues@[queue_id as int]@ == pre.queues@[queue_id as int]@.push(task));
            assert forall|s: int| 0 <= s < SLOT_CAPACITY implies ((#[trigger] self.tasks@[s]) is Some
                <==> !self.arena@.free.contains(s as u32)) by {
                assert(pre.tasks@[s] is Some <==> !pre.arena@.free.contains(s as u32));
                if self.arena@.free.contains(s as u32) {
                    let i = choose|i: int|
                        0 <= i < self.arena@.free.len() && self.arena@.free[i] == s as u32;
                    assert(pre.arena@.free[i + 1] == s as u32);
                    assert(pre.arena@.free[0] != pre.arena@.free[i + 1]);
                }
                if pre.arena@.free.contains(s as u32) && s != t {
                    let i = choose|i: int|
                        0 <= i < pre.arena@.free.len() && pre.arena@.free[i] == s as u32;
                    assert(self.arena@.free[i - 1] == s as u32);
                }
            }
            assert forall|s: int|
                0 <= s < SLOT_CAPACITY && (#[trigger] self.tasks@[s]) is Some implies self.live_ok(
                s,
            ) by {
                if s == t {
                    assert(self.queues@[queue_id as int]@[pre.queues@[queue_id as int]@.len() as int]
                        == task);
                } else {
                    assert(pre.live_ok(s));
                    let v = pre.header(s);
                    if v.queued() {
                        let i = choose|i: int|
                            0 <= i < pre.queues@[v.queue_id as int]@.len()
                                && pre.queues@[v.queue_id as int]@[i] == s as u32;
                        assert(self.queues@[v.queue_id as int]@[i] == s as u32);
                    }
                }
            }
            assert forall|q: int, i: int|
                0 <= q < self.queues@.len() && 0 <= i
                    < self.queues@[q]@.len() implies #[trigger] self.entry_ok(q, i) by {
                if q == queue_id && i == pre.queues@[q]@.len() {
                } else {
                    assert(pre.entry_ok(q, i));
                }
            }
            assert forall|q: int, i: int, j: int|
                0 <= q < self.queues@.len() && 0 <= i < j
                    < self.queues@[q]@.len() implies #[trigger] self.queues@[q]@[i]
                != #[trigger] self.queues@[q]@[j] by {
                if q == queue_id && j == pre.queues@[q]@.len() {
                    assert(pre.entry_ok(q, i));
                } else {
                    assert(pre.queues@[q]@[i] != pre.queues@[q]@[j]);
                }
            }
            assert(self@.tasks =~= pre@.tasks.insert(task, spawned(queue_id)));
            assert(self@.queues =~= pre@.queues.update(
                queue_id as int,
                pre@.queues[queue_id as int].push(task),
            ));
        }
        Some(task)
    }

    /// Does what the header asked for after an event: the task is put back
    /// into the table or, where it was freed, its slot goes back to the
    /// arena; a task that is to be queued goes to the end of its queue.
    fn settle(
        &mut self,
        task: u32,
        header: TaskHeader,
        effects: Effects,
        Ghost(pre): Ghost<Executor>,
        Ghost(event): Ghost<Event>,
        Ghost(gone): Ghost<bool>,
    )
        requires
            pre.wf(),
            task < SLOT_CAPACITY,
            pre.tasks@[task as int] is Some,
            pre.header(task as int).enabled(event),
            (header@, effects) == pre.header(task as int).next(event),
            old(self).arena == pre.arena,
            old(self).tasks@ == pre.tasks@.update(task as int, None),
            old(self).queues@.len() == pre.queues@.len(),
            gone <==> event == Event::Run,
            gone ==> old(self).queues@[header@.queue_id as int]@
                == pre.queues@[header@.queue_id as int]@.drop_first()
                && pre.queues@[header@.queue_id as int]@.len() > 0
                && pre.queues@[header@.queue_id as int]@[0] == task,
            !gone ==> old(self).queues@[header@.queue_id as int]
                == pre.queues@[header@.queue_id as int],
            forall|q: int|
                0 <= q < pre.queues@.len() && q != header@.queue_id ==> old(self).queues@[q]
                    == pre.queues@[q],
        ensures
            final(self).wf(),
            final(self)@ == (if gone {
                pre@.taken(header@.queue_id)
            } else {
                pre@.after(task, event)
            }),
    {
        let ghost before = pre.header(task as int);
        let queue_id = header.queue_id();
        let at = task as usize;
        proof {
            assert(pre.live_ok(task as int));
            law_invariant_kept(before, event);
            law_freed_once(before, event);
            law_queue_follows(before, event);
            pre.arena.lemma_free_list();
        }
        if effects.destroy {
            let addr = self.arena.slot_address(task);
            let _ = self.arena.try_deallocate(addr);
        } else {
            self.tasks[at] = Some(header);
        }
        if effects.enqueue {
            self.queues[queue_id].push_back(task);
        }
        proof {
            let t = task as int;
            let home = queue_id as int;
            let after = header@;
            assert(forall|q: int|
                0 <= q < self.queues@.len() && q != home ==> self.queues@[q] == pre.queues@[q]);
            // Where the task stood in its queue before, and where the others stand now.
            assert forall|i: int| 0 <= i < self.queues@[home]@.len() implies #[trigger] self.queues@[home]@[i]
                == (if effects.enqueue && i == self.queues@[home]@.len() - 1 {
                task
            } else if gone {
                pre.queues@[home]@[i + 1]
            } else {
                pre.queues@[home]@[i]
            }) by {}
            assert forall|s: int| 0 <= s < SLOT_CAPACITY implies ((#[trigger] self.tasks@[s]) is Some
                <==> !self.arena@.free.contains(s as u32)) by {
                assert(pre.tasks@[s] is Some <==> !pre.arena@.free.contains(s as u32));
                if effects.destroy {
                    let fresh = self.arena@.free;
                    assert(fresh[0] == task);
                    if fresh.contains(s as u32) {
                        let i = choose|i: int| 0 <= i < fresh.len() && fresh[i] == s as u32;
                        if i > 0 {
                            assert(pre.arena@.free[i - 1] == s as u32);
                        }
                    }
                    if pre.arena@.free.contains(s as u32) {
                        let i = choose|i: int|
                            0 <= i < pre.arena@.free.len() && pre.arena@.free[i] == s as u32;
                        assert(fresh[i + 1] == s as u32);
                    }
                }
            }
            assert forall|s: int|
                0 <= s < SLOT_CAPACITY && (#[trigger] self.tasks@[s]) is Some implies self.live_ok(
                s,
            ) by {
                if s == t {
                    if after.queued() {
                        if effects.enqueue {
                            assert(self.queues@[home]@[self.queues@[home]@.len() - 1] == task);
                        } else {
                            assert(before.queued());
                            let i = choose|i: int|
                                0 <= i < pre.queues@[home]@.len() && pre.queues@[home]@[i] == task;
                            assert(self.queues@[home]@[i] == task);
                        }
                    }
                } else {
                    assert(pre.live_ok(s));
                    let v = pre.header(s);
                    if v.queued() {
                        let q = v.queue_id as int;
                        let i = choose|i: int|
                            0 <= i < pre.queues@[q]@.len() && pre.queues@[q]@[i] == s as u32;
                        if q == home && gone {
                            assert(i > 0);
                            assert(self.queues@[q]@[i - 1] == s as u32);
                        } else {
                            assert(self.queues@[q]@[i] == s as u32);
                        }
                    }
                }
            }
            assert forall|q: int, i: int|
                0 <= q < self.queues@.len() && 0 <= i
                    < self.queues@[q]@.len() implies #[trigger] self.entry_ok(q, i) by {
                if q == home && effects.enqueue && i == self.queues@[q]@.len() - 1 {
                } else {
                    let src = if q == home && gone {
                        i + 1
                    } else {
                        i
                    };
                    assert(pre.entry_ok(q, src));
                    if pre.queues@[q]@[src] == task {
                        if gone {
                            assert(pre.queues@[q]@[0] != pre.queues@[q]@[src]);
                        }
                    }
                }
            }
            assert forall|q: int, i: int, j: int|
                0 <= q < self.queues@.len() && 0 <= i < j
                    < self.queues@[q]@.len() implies #[trigger] self.queues@[q]@[i]
                != #[trigger] self.queues@[q]@[j] by {
                let shift = if q == home && gone {
                    1int
                } else {
                    0int
                };
                if q == home && effects.enqueue && j == self.queues@[q]@.len() - 1 {
                    assert(pre.entry_ok(q, i + shift));
                } else {
                    assert(pre.queues@[q]@[i + shift] != pre.queues@[q]@[j + shift]);
                }
            }
            let target = if gone {
                pre@.taken(header@.queue_id)
            } else {
                pre@.after(task, event)
            };
            assert(pre@.tasks[task] == before);
            assert(self@.tasks =~= target.tasks);
            assert(self@.queues =~= target.queues);
            assert(self@.arena == target.arena);
        }
    }

    /// Lets an event happen to a live task and does what the header asks
    /// for. Returns what is left to the holder of the future: to poll it,
    /// to drop it or the output, to hand the output over, to fire or keep
    /// the waker of the join handle.
    ///
    /// A task is taken out to run by `next_task`, not by this function.
    pub fn apply(&mut self, task: u32, event: Event) -> (effects: Effects)
        requires
            old(self).wf(),
            old(self)@.tasks.contains_key(task),
            old(self)@.tasks[task].enabled(event),
            event != Event::Run,
        ensures
            final(self).wf(),
            effects == old(self)@.tasks[task].next(event).1,
            final(self)@ == old(self)@.after(task, event),
    {
        let ghost pre = *self;
        let at = task as usize;
        match take_header(&mut self.tasks, at) {
            Some(header) => {
                let mut header = header;
                proof {
                    assert(pre.live_ok(task as int));
                }
                let effects = header.apply(event);
                self.settle(task, header, effects, Ghost(pre), Ghost(event), Ghost(false));
                effects
            },
            None => Effects::none(),
        }
    }

    /// Takes the first task of a run queue out to run. Returns the task and
    /// what its holder has to do: to poll the future, or, where the task was
    /// closed while it waited, to fire the waker of the join handle. `None`
    /// where the queue is empty.
    pub fn next_task(&mut self, queue_id: usize) -> (next: Option<(u32, Effects)>)
        requires
            old(self).wf(),
            queue_id < old(self)@.queues.len(),
        ensures
            final(self).wf(),
            match next {
                None => old(self)@.queues[queue_id as int].len() == 0 && final(self)@ == old(self)@,
                Some((task, effects)) => {
                    &&& old(self)@.queues[queue_id as int].len() > 0
                    &&& task == old(self)@.queues[queue_id as int][0]
                    &&& effects == old(self)@.tasks[task].next(Event::Run).1
                    &&& final(self)@ == old(self)@.taken(queue_id)
                },
            },
    {
        let ghost pre = *self;
        let task = match self.queues[queue_id].pop_front() {
            Some(task) => task,
            None => {
                proof {
                    assert(self.queues@[queue_id as int]@ =~= pre.queues@[queue_id as int]@);
                    assert(self@.queues =~= pre@.queues);
                    assert(self@.tasks =~= pre@.tasks);
                    assert forall|q: int, i: int|
                        0 <= q < self.queues@.len() && 0 <= i
                            < self.queues@[q]@.len() implies #[trigger] self.entry_ok(q, i) by {
                        assert(pre.entry_ok(q, i));
                    }
                    assert forall|s: int|
                        0 <= s < SLOT_CAPACITY && (
                        #[trigger] self.tasks@[s]) is Some implies self.live_ok(s) by {
                        assert(pre.live_ok(s));
                    }
                }
                return None;
            },
        };
        proof {
            assert(pre.entry_ok(queue_id as int, 0));
            assert(pre.live_ok(task as int));
        }
        let at = task as usize;
        match take_header(&mut self.tasks, at) {
            Some(header) => {
                let mut header = header;
                let effects = header.apply(Event::Run);
                self.settle(task, header, effects, Ghost(pre), Ghost(Event::Run), Ghost(true));
                Some((task, effects))
            },
            None => None,
        }
    }
}

/// Tasks run in the order in which they were queued: a task that is queued
/// behind `n` others is the one that is taken out after `n` tasks were.
pub proof fn law_queue_is_fifo(queue: Seq<u32>, task: u32)
    ensures
        queue.push(task).len() == queue.len() + 1,
        queue.push(task)[queue.len() as int] == task,
        forall|i: int| 0 <= i < queue.len() ==> queue.push(task)[i] == queue[i],
        queue.len() > 0 ==> queue.push(task).drop_first() == queue.drop_first().push(task),
{
    if queue.len() > 0 {
        assert(queue.push(task).drop_first() =~= queue.drop_first().push(task));
    }
}
} // verus!
