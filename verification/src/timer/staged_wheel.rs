//! Staged timer storage.
//!
//! While few timers are live they sit in a plain list, where insertion is a
//! push and everything else a short scan. When an insertion finds the list
//! at its threshold, all timers move into a hierarchical wheel, under the ids
//! they were given, and stay there.
use crate::timer::timing_wheel::deadline_tick;
use crate::timer::timing_wheel::lemma_fires_chain;
use crate::timer::timing_wheel::position_of;
use crate::timer::timing_wheel::reversed;
use crate::timer::timing_wheel::seq_holds;
use crate::timer::timing_wheel::TimerEntry;
use crate::timer::timing_wheel::TimingWheel;
use crate::timer::timing_wheel::WheelView;
use std::task::Waker;
use vstd::prelude::*;

verus! {

/// Number of timers that the list holds before the next insertion moves
/// them into a wheel.
pub const INLINE_THRESHOLD: usize = 256;

enum Storage {
    Inline { timers: Vec<TimerEntry>, expired: Vec<TimerEntry> },
    Wheel(Box<TimingWheel>),
}

/// Timer storage that starts as a list and becomes a wheel.
pub struct StagedWheel {
    storage: Storage,
    next_id: u64,
    start_time: u64,
}

/// What a staged wheel is, seen from outside.
pub struct StagedView {
    /// Instant at which the storage was started.
    pub start: u64,
    /// Id that the next `insert` hands out.
    pub next_id: u64,
    /// Whether the timers have moved into a wheel.
    pub promoted: bool,
    /// Tick that the wheel has been advanced to; 0 before promotion.
    pub tick: u64,
    /// Timers that have not expired, by id.
    pub pending: Map<u64, TimerEntry>,
    /// Timers that have expired and were not drained yet, oldest first.
    pub expired: Seq<TimerEntry>,
}

/// First entry of the sequence with the given id.
pub open spec fn entry_with(entries: Seq<TimerEntry>, id: u64) -> TimerEntry {
    entries[choose|i: int| 0 <= i < entries.len() && entries[i].id == id]
}

/// The entries of a sequence, by id.
pub open spec fn by_id(entries: Seq<TimerEntry>) -> Map<u64, TimerEntry> {
    Map::new(|id: u64| seq_holds(entries, id), |id: u64| entry_with(entries, id))
}

/// Whether no two entries of the sequence share an id.
pub open spec fn distinct_ids(entries: Seq<TimerEntry>) -> bool {
    forall|i: int, j: int| 0 <= i < j < entries.len() ==> entries[i].id != entries[j].id
}

/// In a sequence without a repeated id, each entry is the one filed under
/// its id.
proof fn lemma_by_id(entries: Seq<TimerEntry>, k: int)
    requires
        distinct_ids(entries),
        0 <= k < entries.len(),
    ensures
        by_id(entries).contains_key(entries[k].id),
        by_id(entries)[entries[k].id] == entries[k],
{
    let id = entries[k].id;
    assert(seq_holds(entries, id));
    let i = choose|i: int| 0 <= i < entries.len() && entries[i].id == id;
    if i < k {
        assert(entries[i].id != entries[k].id);
    } else if k < i {
        assert(entries[k].id != entries[i].id);
    }
}

/// Appending an entry with a new id files it under that id.
proof fn lemma_by_id_push(entries: Seq<TimerEntry>, e: TimerEntry)
    requires
        distinct_ids(entries.push(e)),
    ensures
        distinct_ids(entries),
        !seq_holds(entries, e.id),
        by_id(entries.push(e)) == by_id(entries).insert(e.id, e),
{
    let longer = entries.push(e);
    let n = entries.len() as int;
    assert forall|i: int, j: int| 0 <= i < j < entries.len() implies entries[i].id
        != entries[j].id by {
        assert(longer[i].id != longer[j].id);
    }
    if seq_holds(entries, e.id) {
        let i = choose|i: int| 0 <= i < entries.len() && entries[i].id == e.id;
        assert(longer[i].id != longer[n].id);
    }
    assert forall|id: u64| by_id(longer).contains_key(id) <==> by_id(entries).insert(
        e.id,
        e,
    ).contains_key(id) by {
        if seq_holds(longer, id) {
            let i = choose|i: int| 0 <= i < longer.len() && longer[i].id == id;
            if i < n {
                assert(entries[i].id == id);
            }
        }
        if seq_holds(entries, id) {
            let i = choose|i: int| 0 <= i < entries.len() && entries[i].id == id;
            assert(longer[i].id == id);
        }
        if id == e.id {
            assert(longer[n].id == id);
        }
    }
    assert forall|id: u64| by_id(longer).contains_key(id) implies by_id(longer)[id] == by_id(
        entries,
    ).insert(e.id, e)[id] by {
        let i = choose|i: int| 0 <= i < longer.len() && longer[i].id == id;
        lemma_by_id(longer, i);
        if i < n {
            assert(entries[i] == longer[i]);
            lemma_by_id(entries, i);
        }
    }
    assert(by_id(longer) =~= by_id(entries).insert(e.id, e));
}

/// Removing an entry by swapping the last one into its place takes its id
/// out and leaves the others filed as they were.
proof fn lemma_by_id_swap_remove(entries: Seq<TimerEntry>, pos: int)
    requires
        distinct_ids(entries),
        0 <= pos < entries.len(),
    ensures
        distinct_ids(entries.update(pos, entries.last()).drop_last()),
        by_id(entries.update(pos, entries.last()).drop_last()) == by_id(entries).remove(
            entries[pos].id,
        ),
{
    let shorter = entries.update(pos, entries.last()).drop_last();
    let last = entries.len() - 1;
    let gone = entries[pos].id;
    assert forall|i: int| 0 <= i < shorter.len() implies shorter[i] == entries[if i == pos {
        last
    } else {
        i
    }] by {}
    assert forall|i: int, j: int| 0 <= i < j < shorter.len() implies shorter[i].id
        != shorter[j].id by {
        let oi = if i == pos {
            last
        } else {
            i
        };
        let oj = if j == pos {
            last
        } else {
            j
        };
        if oi < oj {
            assert(entries[oi].id != entries[oj].id);
        } else {
            assert(entries[oj].id != entries[oi].id);
        }
    }
    assert forall|id: u64| by_id(shorter).contains_key(id) <==> by_id(entries).remove(
        gone,
    ).contains_key(id) by {
        if seq_holds(shorter, id) {
            let i = choose|i: int| 0 <= i < shorter.len() && shorter[i].id == id;
            let oi = if i == pos {
                last
            } else {
                i
            };
            assert(entries[oi].id == id);
            if oi < pos {
                assert(entries[oi].id != entries[pos].id);
            } else if pos < oi {
                assert(entries[pos].id != entries[oi].id);
            }
        }
        if seq_holds(entries, id) && id != gone {
            let i = choose|i: int| 0 <= i < entries.len() && entries[i].id == id;
            if i == last {
                assert(shorter[pos].id == id);
            } else {
                assert(shorter[i].id == id);
            }
        }
    }
    assert forall|id: u64| by_id(shorter).contains_key(id) implies by_id(shorter)[id] == by_id(
        entries,
    ).remove(gone)[id] by {
        let i = choose|i: int| 0 <= i < shorter.len() && shorter[i].id == id;
        lemma_by_id(shorter, i);
        let oi = if i == pos {
            last
        } else {
            i
        };
        lemma_by_id(entries, oi);
    }
    assert(by_id(shorter) =~= by_id(entries).remove(gone));
}

/// What a fresh wheel holds after the entries `done` were put into it at
/// tick 0: those that fall due at once as expired, the others as pending.
spec fn loaded(wheel: WheelView, done: Seq<TimerEntry>) -> bool {
    &&& wheel.tick == 0
    &&& forall|id: u64| #[trigger]
        wheel.pending.contains_key(id) <==> seq_holds(done, id) && !wheel.is_due(
            entry_with(done, id).expires_at,
        )
    &&& forall|id: u64| #[trigger]
        wheel.pending.contains_key(id) ==> wheel.pending[id] == entry_with(done, id)
    &&& forall|j: int|
        0 <= j < wheel.expired.len() ==> wheel.is_due((#[trigger] wheel.expired[j]).expires_at)
            && done.contains(wheel.expired[j])
    &&& forall|i: int|
        0 <= i < done.len() && wheel.is_due((#[trigger] done[i]).expires_at)
            ==> wheel.expired.contains(done[i])
}

/// Putting one more entry, under a new id, into a loaded wheel.
proof fn lemma_loaded_put(wheel: WheelView, done: Seq<TimerEntry>, e: TimerEntry, next: u64)
    requires
        loaded(wheel, done),
        distinct_ids(done.push(e)),
    ensures
        loaded((WheelView { next_id: next, ..wheel }).put(e), done.push(e)),
        !wheel.holds(e.id),
{
    let longer = done.push(e);
    let n = done.len() as int;
    let after = (WheelView { next_id: next, ..wheel }).put(e);
    lemma_by_id_push(done, e);
    assert(longer[n] == e);
    lemma_by_id(longer, n);
    assert forall|id: u64| seq_holds(done, id) implies seq_holds(longer, id) && entry_with(
        longer,
        id,
    ) == entry_with(done, id) by {
        let i = choose|i: int| 0 <= i < done.len() && done[i].id == id;
        lemma_by_id(done, i);
        assert(longer[i] == done[i]);
        lemma_by_id(longer, i);
    }
    assert forall|id: u64| seq_holds(longer, id) && id != e.id implies seq_holds(done, id) by {
        let i = choose|i: int| 0 <= i < longer.len() && longer[i].id == id;
        assert(done[i].id == id);
    }
    if wheel.expired_has(e.id) {
        let j = choose|j: int| 0 <= j < wheel.expired.len() && wheel.expired[j].id == e.id;
        assert(done.contains(wheel.expired[j]));
        let i = choose|i: int| 0 <= i < done.len() && done[i] == wheel.expired[j];
        assert(seq_holds(done, e.id));
    }
    assert forall|j: int| 0 <= j < after.expired.len() implies after.is_due(
        (#[trigger] after.expired[j]).expires_at,
    ) && longer.contains(after.expired[j]) by {
        if j < wheel.expired.len() {
            assert(after.expired[j] == wheel.expired[j]);
            let i = choose|i: int| 0 <= i < done.len() && done[i] == wheel.expired[j];
            assert(longer[i] == after.expired[j]);
        } else {
            assert(longer[n] == after.expired[j]);
        }
    }
    assert forall|i: int|
        0 <= i < longer.len() && after.is_due(
            (#[trigger] longer[i]).expires_at,
        ) implies after.expired.contains(longer[i]) by {
        if i < n {
            assert(done[i] == longer[i]);
            let j = choose|j: int| 0 <= j < wheel.expired.len() && wheel.expired[j] == done[i];
            assert(after.expired[j] == longer[i]);
        } else {
            assert(after.expired[wheel.expired.len() as int] == e);
        }
    }
}

/// Puts entries into a wheel that stands at tick 0, in their order and
/// under the ids they have.
fn load(
    wheel: &mut TimingWheel,
    entries: Vec<TimerEntry>,
    Ghost(done): Ghost<Seq<TimerEntry>>,
    Ghost(bound): Ghost<u64>,
)
    requires
        old(wheel).wf(),
        loaded(old(wheel)@, done),
        distinct_ids(done + entries@),
        old(wheel)@.next_id <= bound,
        forall|i: int| 0 <= i < entries@.len() ==> (#[trigger] entries@[i]).id < bound,
    ensures
        final(wheel).wf(),
        final(wheel)@.start == old(wheel)@.start,
        loaded(final(wheel)@, done + entries@),
        final(wheel)@.next_id <= bound,
{
    let ghost all = entries@;
    let mut stack = reversed(entries);
    let ghost mut put: Seq<TimerEntry> = done;
    proof {
        assert(done + all.subrange(0, 0) =~= done);
    }
    while stack.len() > 0
        invariant
            wheel.wf(),
            wheel@.start == old(wheel)@.start,
            stack@.len() <= all.len(),
            put == done + all.subrange(0, all.len() - stack@.len()),
            forall|i: int| 0 <= i < stack@.len() ==> stack@[i] == all[all.len() - 1 - i],
            loaded(wheel@, put),
            distinct_ids(done + all),
            forall|i: int| 0 <= i < all.len() ==> (#[trigger] all[i]).id < bound,
            wheel@.next_id <= bound,
        decreases stack@.len(),
    {
        let ghost k = all.len() - stack@.len();
        let ghost before = wheel@;
        let entry = stack.pop().unwrap();
        proof {
            assert(entry == all[k]);
            assert(put.push(entry) =~= done + all.subrange(0, k + 1));
            assert forall|i: int, j: int| 0 <= i < j < put.push(entry).len() implies put.push(
                entry,
            )[i].id != put.push(entry)[j].id by {
                assert(put.push(entry)[i] == (done + all)[i]);
                assert(put.push(entry)[j] == (done + all)[j]);
            }
            lemma_loaded_put(before, put, entry, before.next_id);
            lemma_loaded_put(
                before,
                put,
                entry,
                if entry.id >= before.next_id {
                    (entry.id + 1) as u64
                } else {
                    before.next_id
                },
            );
        }
        wheel.insert_with_id(entry.id, entry.expires_at, entry.waker);
        proof {
            put = put.push(entry);
        }
    }
    proof {
        assert(all.subrange(0, all.len() as int) =~= all);
    }
}

/// A sequence without a repeated id files as many entries as it has.
proof fn lemma_by_id_len(entries: Seq<TimerEntry>)
    requires
        distinct_ids(entries),
    ensures
        by_id(entries).dom().finite(),
        by_id(entries).len() == entries.len(),
    decreases entries.len(),
{
    if entries.len() == 0 {
        assert(by_id(entries) =~= Map::<u64, TimerEntry>::empty());
    } else {
        let shorter = entries.drop_last();
        let e = entries.last();
        assert(shorter.push(e) =~= entries);
        lemma_by_id_push(shorter, e);
        lemma_by_id_len(shorter);
    }
}

/// The expired timers that `drain_expired` took out, each as its id and its
/// waker. The variant tells which kind of storage they came from. The vector
/// holds the pairs that are still to come, the next one last.
pub enum DrainExpired {
    Inline(Vec<(u64, Waker)>),
    Wheel(Vec<(u64, Waker)>),
}

/// The pairs of a vector in the opposite order.
fn turned(pairs: Vec<(u64, Waker)>) -> (back: Vec<(u64, Waker)>)
    ensures
        back@.len() == pairs@.len(),
        forall|i: int| 0 <= i < back@.len() ==> back@[i] == pairs@[pairs@.len() - 1 - i],
{
    let mut rest = pairs;
    let mut back: Vec<(u64, Waker)> = Vec::new();
    while rest.len() > 0
        invariant
            rest@.len() + back@.len() == pairs@.len(),
            forall|i: int| 0 <= i < rest@.len() ==> rest@[i] == pairs@[i],
            forall|i: int| 0 <= i < back@.len() ==> back@[i] == pairs@[pairs@.len() - 1 - i],
        decreases rest@.len(),
    {
        let pair = rest.pop().unwrap();
        back.push(pair);
    }
    back
}

impl StagedView {
    /// The same storage seen as a wheel.
    pub open spec fn as_wheel(self) -> WheelView {
        WheelView {
            start: self.start,
            tick: self.tick,
            next_id: self.next_id,
            pending: self.pending,
            expired: self.expired,
        }
    }

    /// Whether some expired timer has this id.
    pub open spec fn expired_has(self, id: u64) -> bool {
        seq_holds(self.expired, id)
    }

    /// Whether an entry falls due at tick 0 of a wheel started at `start`.
    pub open spec fn due_at_start(self, e: TimerEntry) -> bool {
        deadline_tick(self.start, e.expires_at) <= 0
    }

    /// `post` is this list after its timers moved into a fresh wheel at tick
    /// 0: every timer held, pending or expired, is kept under its id; it
    /// counts as expired if it falls due at tick 0, and as pending otherwise.
    pub open spec fn promotes_to(self, post: StagedView) -> bool {
        &&& post.promoted
        &&& post.tick == 0
        &&& post.start == self.start
        &&& post.next_id == self.next_id
        &&& forall|id: u64| #[trigger]
            post.pending.contains_key(id) <==> (self.pending.contains_key(id)
                && !self.due_at_start(self.pending[id])) || (seq_holds(self.expired, id)
                && !self.due_at_start(entry_with(self.expired, id)))
        &&& forall|id: u64| #[trigger]
            post.pending.contains_key(id) ==> post.pending[id] == if self.pending.contains_key(
                id,
            ) {
                self.pending[id]
            } else {
                entry_with(self.expired, id)
            }
        &&& forall|j: int|
            0 <= j < post.expired.len() ==> {
                let e = #[trigger] post.expired[j];
                &&& self.due_at_start(e)
                &&& (self.pending.contains_key(e.id) && self.pending[e.id] == e)
                    || self.expired.contains(e)
            }
        &&& forall|id: u64| #[trigger]
            self.pending.contains_key(id) && self.due_at_start(self.pending[id])
                ==> post.expired_has(id)
        &&& forall|i: int|
            0 <= i < self.expired.len() && self.due_at_start(#[trigger] self.expired[i])
                ==> post.expired_has(self.expired[i].id)
    }

    /// `post` is this list after a sweep at the instant `now`: exactly the
    /// pending timers with an instant at or before `now` have joined the
    /// expired ones, each once; the others are pending as before.
    pub open spec fn swept(self, post: StagedView, now: u64) -> bool {
        let n = self.expired.len() as int;
        &&& !post.promoted
        &&& post.tick == self.tick
        &&& post.start == self.start
        &&& post.next_id == self.next_id
        &&& post.expired.len() >= n
        &&& post.expired.subrange(0, n) == self.expired
        &&& forall|i: int|
            n <= i < post.expired.len() ==> {
                let e = #[trigger] post.expired[i];
                &&& self.pending.contains_key(e.id)
                &&& self.pending[e.id] == e
                &&& e.expires_at <= now
            }
        &&& forall|i: int, j: int|
            n <= i < j < post.expired.len() ==> post.expired[i].id != post.expired[j].id
        &&& forall|id: u64| #[trigger]
            post.pending.contains_key(id) <==> self.pending.contains_key(id)
                && self.pending[id].expires_at > now
        &&& forall|id: u64| #[trigger]
            post.pending.contains_key(id) ==> post.pending[id] == self.pending[id]
        &&& forall|id: u64| #[trigger]
            self.pending.contains_key(id) && self.pending[id].expires_at <= now ==> seq_holds(
                post.expired.subrange(n, post.expired.len() as int),
                id,
            )
    }

    /// The storage after an entry was put in: a list takes it as pending
    /// whatever its instant; a wheel takes it as a wheel does.
    pub open spec fn put(self, entry: TimerEntry) -> StagedView {
        if self.promoted {
            let wheel = self.as_wheel().put(entry);
            StagedView { pending: wheel.pending, expired: wheel.expired, ..self }
        } else {
            StagedView { pending: self.pending.insert(entry.id, entry), ..self }
        }
    }

    /// `post` is this storage after the insertion of `entry`: a list at its
    /// threshold is promoted first, then the entry is put in.
    pub open spec fn inserted(self, post: StagedView, entry: TimerEntry) -> bool {
        if !self.promoted && self.pending.len() >= INLINE_THRESHOLD {
            exists|mid: StagedView| #[trigger] self.promotes_to(mid) && post == mid.put(entry)
        } else {
            post == self.put(entry)
        }
    }

    /// `post` is this storage after it was advanced to the instant `now`: a
    /// list is swept at `now`; a wheel is advanced to the tick of `now`.
    pub open spec fn advanced_to(self, post: StagedView, now: u64) -> bool {
        if self.promoted {
            &&& post.promoted
            &&& self.as_wheel().advanced(post.as_wheel())
            &&& post.tick == if deadline_tick(self.start, now) > self.tick {
                deadline_tick(self.start, now)
            } else {
                self.tick as int
            }
        } else {
            self.swept(post, now)
        }
    }
}

impl View for StagedWheel {
    type V = StagedView;

    closed spec fn view(&self) -> StagedView {
        match self.storage {
            Storage::Inline { timers, expired } => StagedView {
                start: self.start_time,
                next_id: self.next_id,
                promoted: false,
                tick: 0,
                pending: by_id(timers@),
                expired: expired@,
            },
            Storage::Wheel(wheel) => StagedView {
                start: self.start_time,
                next_id: self.next_id,
                promoted: true,
                tick: wheel@.tick,
                pending: wheel@.pending,
                expired: wheel@.expired,
            },
        }
    }
}

impl StagedWheel {
    /// The invariant: the list stays within its threshold, no id is held
    /// twice, every id held is below the next one, and a wheel, once there,
    /// is well-formed and started at the same instant.
    pub closed spec fn wf(&self) -> bool {
        match self.storage {
            Storage::Inline { timers, expired } => {
                &&& timers@.len() <= INLINE_THRESHOLD
                &&& distinct_ids(timers@ + expired@)
                &&& forall|i: int|
                    0 <= i < (timers@ + expired@).len() ==> (#[trigger] (timers@ + expired@)[i]).id
                        < self.next_id
            },
            Storage::Wheel(wheel) => {
                &&& wheel.wf()
                &&& wheel@.start == self.start_time
                &&& wheel@.next_id <= self.next_id
            },
        }
    }

    /// Number of timers that `len` counts: the pending ones, and after
    /// promotion the expired ones as well.
    pub open spec fn spec_len(view: StagedView) -> nat {
        if view.promoted {
            view.pending.len() + view.expired.len()
        } else {
            view.pending.len()
        }
    }

    /// Creates an empty storage that starts, as a list, at `start_time`.
    pub fn new_at(start_time: u64) -> (staged: Self)
        ensures
            staged.wf(),
            staged@ == (StagedView {
                start: start_time,
                next_id: 0,
                promoted: false,
                tick: 0,
                pending: Map::empty(),
                expired: Seq::empty(),
            }),
    {
        let timers: Vec<TimerEntry> = Vec::with_capacity(INLINE_THRESHOLD);
        let staged = StagedWheel {
            storage: Storage::Inline { timers, expired: Vec::new() },
            next_id: 0,
            start_time,
        };
        proof {
            assert(staged@.pending =~= Map::<u64, TimerEntry>::empty());
        }
        staged
    }

    /// Instant that the storage has been advanced to. A list does not keep
    /// time: before promotion this is the start time.
    pub fn current_time(&self) -> (now: u64)
        requires
            self.wf(),
        ensures
            now == self@.start + self@.tick * 1_000_000,
    {
        match &self.storage {
            Storage::Inline { .. } => self.start_time,
            Storage::Wheel(wheel) => wheel.current_time(),
        }
    }

    /// Name of the current kind of storage: `"inline"` or `"wheel"`.
    pub fn storage_mode(&self) -> (mode: &'static str)
        ensures
            mode@ == if self@.promoted {
                "wheel"@
            } else {
                "inline"@
            },
    {
        match &self.storage {
            Storage::Inline { .. } => "inline",
            Storage::Wheel(_) => "wheel",
        }
    }

    /// Removes the timer with the given id and says whether there was one.
    /// A list is searched among its pending timers only; a wheel also among
    /// the expired timers that were not drained.
    pub fn remove(&mut self, id: u64) -> (found: bool)
        requires
            old(self).wf(),
        ensures
            final(self).wf(),
            found == if old(self)@.promoted {
                old(self)@.as_wheel().holds(id)
            } else {
                old(self)@.pending.contains_key(id)
            },
            final(self)@ == if old(self)@.promoted {
                let taken = old(self)@.as_wheel().take(id);
                StagedView { pending: taken.pending, expired: taken.expired, ..old(self)@ }
            } else {
                StagedView { pending: old(self)@.pending.remove(id), ..old(self)@ }
            },
    {
        let ghost before = self@;
        match &mut self.storage {
            Storage::Inline { timers, expired } => {
                let ghost held = timers@;
                let ghost fired = expired@;
                proof {
                    assert forall|i: int, j: int| 0 <= i < j < held.len() implies held[i].id
                        != held[j].id by {
                        assert((held + fired)[i].id != (held + fired)[j].id);
                    }
                }
                match position_of(timers, id) {
                    Some(pos) => {
                        let _ = timers.swap_remove(pos);
                        proof {
                            lemma_by_id_swap_remove(held, pos as int);
                            assert(seq_holds(held, id));
                            let last = held.len() - 1;
                            assert forall|i: int, j: int|
                                0 <= i < j < (timers@ + fired).len() implies (timers@ + fired)[i].id
                                != (timers@ + fired)[j].id by {
                                let n = timers@.len();
                                let oi = if i < n {
                                    if i == pos {
                                        last
                                    } else {
                                        i
                                    }
                                } else {
                                    i + 1
                                };
                                let oj = if j < n {
                                    if j == pos {
                                        last
                                    } else {
                                        j
                                    }
                                } else {
                                    j + 1
                                };
                                assert((timers@ + fired)[i] == (held + fired)[oi]);
                                assert((timers@ + fired)[j] == (held + fired)[oj]);
                                if oi < oj {
                                    assert((held + fired)[oi].id != (held + fired)[oj].id);
                                } else {
                                    assert((held + fired)[oj].id != (held + fired)[oi].id);
                                }
                            }
                            assert forall|i: int| 0 <= i < (timers@ + fired).len() implies (
                            #[trigger] (timers@ + fired)[i]).id < self.next_id by {
                                let n = timers@.len();
                                let oi = if i < n {
                                    if i == pos {
                                        last
                                    } else {
                                        i
                                    }
                                } else {
                                    i + 1
                                };
                                assert((timers@ + fired)[i] == (held + fired)[oi]);
                            }
                        }
                        true
                    },
                    None => {
                        proof {
                            assert(!seq_holds(held, id));
                            assert(before.pending.remove(id) =~= before.pending);
                        }
                        false
                    },
                }
            },
            Storage::Wheel(wheel) => wheel.remove(id),
        }
    }

    /// Moves every timer of the list, pending or expired, into a fresh
    /// wheel at tick 0 under the id it has.
    fn promote_to_wheel(&mut self)
        requires
            old(self).wf(),
            !old(self)@.promoted,
        ensures
            final(self).wf(),
            old(self)@.promotes_to(final(self)@),
    {
        let ghost before = self@;
        let mut held = Storage::Inline { timers: Vec::new(), expired: Vec::new() };
        std::mem::swap(&mut self.storage, &mut held);
        let mut wheel = TimingWheel::new_at(self.start_time);
        match held {
            Storage::Inline { timers, expired } => {
                let ghost pending = timers@;
                let ghost fired = expired@;
                let ghost all = pending + fired;
                proof {
                    assert(before.pending == by_id(pending));
                    assert(before.expired == fired);
                    assert(Seq::<TimerEntry>::empty() + pending =~= pending);
                    assert forall|i: int, j: int| 0 <= i < j < pending.len() implies pending[i].id
                        != pending[j].id by {
                        assert(all[i].id != all[j].id);
                    }
                    assert forall|i: int| 0 <= i < pending.len() implies (
                    #[trigger] pending[i]).id < self.next_id by {
                        assert(all[i].id < self.next_id);
                    }
                    assert forall|i: int| 0 <= i < fired.len() implies (#[trigger] fired[i]).id
                        < self.next_id by {
                        assert(all[i + pending.len()].id < self.next_id);
                    }
                }
                load(&mut wheel, timers, Ghost(Seq::empty()), Ghost(self.next_id));
                proof {
                    assert(Seq::<TimerEntry>::empty() + pending =~= pending);
                }
                load(&mut wheel, expired, Ghost(pending), Ghost(self.next_id));
                proof {
                    Self::lemma_promoted(before, wheel@, pending, fired);
                }
            },
            Storage::Wheel(_) => {},
        }
        self.storage = Storage::Wheel(Box::new(wheel));
    }

    /// A wheel loaded with the list's timers is the list promoted.
    proof fn lemma_promoted(
        before: StagedView,
        wheel: WheelView,
        pending: Seq<TimerEntry>,
        fired: Seq<TimerEntry>,
    )
        requires
            before.pending == by_id(pending),
            before.expired == fired,
            before.start == wheel.start,
            distinct_ids(pending + fired),
            loaded(wheel, pending + fired),
        ensures
            before.promotes_to(
                StagedView {
                    start: before.start,
                    next_id: before.next_id,
                    promoted: true,
                    tick: wheel.tick,
                    pending: wheel.pending,
                    expired: wheel.expired,
                },
            ),
    {
        let all = pending + fired;
        let n = pending.len() as int;
        let post = StagedView {
            start: before.start,
            next_id: before.next_id,
            promoted: true,
            tick: wheel.tick,
            pending: wheel.pending,
            expired: wheel.expired,
        };
        assert forall|i: int, j: int| 0 <= i < j < pending.len() implies pending[i].id
            != pending[j].id by {
            assert(all[i].id != all[j].id);
        }
        assert forall|i: int, j: int| 0 <= i < j < fired.len() implies fired[i].id
            != fired[j].id by {
            assert(all[i + n].id != all[j + n].id);
        }
        assert forall|id: u64| seq_holds(pending, id) implies seq_holds(all, id) && entry_with(
            all,
            id,
        ) == entry_with(pending, id) && !seq_holds(fired, id) by {
            let i = choose|i: int| 0 <= i < pending.len() && pending[i].id == id;
            lemma_by_id(pending, i);
            assert(all[i] == pending[i]);
            lemma_by_id(all, i);
            if seq_holds(fired, id) {
                let j = choose|j: int| 0 <= j < fired.len() && fired[j].id == id;
                assert(all[j + n] == fired[j]);
                assert(all[i].id != all[j + n].id);
            }
        }
        assert forall|id: u64| seq_holds(fired, id) implies seq_holds(all, id) && entry_with(
            all,
            id,
        ) == entry_with(fired, id) by {
            let j = choose|j: int| 0 <= j < fired.len() && fired[j].id == id;
            lemma_by_id(fired, j);
            assert(all[j + n] == fired[j]);
            lemma_by_id(all, j + n);
        }
        assert forall|id: u64| seq_holds(all, id) implies seq_holds(pending, id) || seq_holds(
            fired,
            id,
        ) by {
            let i = choose|i: int| 0 <= i < all.len() && all[i].id == id;
            if i < n {
                assert(pending[i].id == id);
            } else {
                assert(fired[i - n].id == id);
            }
        }
        assert forall|j: int| 0 <= j < post.expired.len() implies {
            let e = #[trigger] post.expired[j];
            &&& before.due_at_start(e)
            &&& (before.pending.contains_key(e.id) && before.pending[e.id] == e)
                || before.expired.contains(e)
        } by {
            let e = post.expired[j];
            assert(all.contains(e));
            let i = choose|i: int| 0 <= i < all.len() && all[i] == e;
            if i < n {
                assert(pending[i] == e);
                lemma_by_id(pending, i);
            } else {
                assert(fired[i - n] == e);
            }
        }
        assert forall|id: u64| #[trigger]
            before.pending.contains_key(id) && before.due_at_start(
                before.pending[id],
            ) implies post.expired_has(id) by {
            let i = choose|i: int| 0 <= i < pending.len() && pending[i].id == id;
            lemma_by_id(pending, i);
            assert(all[i] == pending[i]);
            assert(wheel.expired.contains(all[i]));
            let j = choose|j: int| 0 <= j < wheel.expired.len() && wheel.expired[j] == all[i];
            assert(wheel.expired[j].id == id);
        }
        assert forall|i: int|
            0 <= i < before.expired.len() && before.due_at_start(
                #[trigger] before.expired[i],
            ) implies post.expired_has(before.expired[i].id) by {
            assert(all[i + n] == fired[i]);
            assert(wheel.expired.contains(all[i + n]));
            let j = choose|j: int| 0 <= j < wheel.expired.len() && wheel.expired[j] == all[i + n];
            assert(wheel.expired[j].id == fired[i].id);
        }
    }

    /// Inserts a timer that falls due at `expires_at` and returns its id.
    /// Ids count up from 0 and are kept when the list becomes a wheel.
    pub fn insert(&mut self, expires_at: u64, waker: Waker) -> (id: u64)
        requires
            old(self).wf(),
            old(self)@.next_id < u64::MAX,
        ensures
            final(self).wf(),
            id == old(self)@.next_id,
            (StagedView { next_id: (id + 1) as u64, ..old(self)@ }).inserted(
                final(self)@,
                TimerEntry { id, expires_at, waker },
            ),
    {
        let ghost before = self@;
        let ghost stepped = StagedView { next_id: (self.next_id + 1) as u64, ..before };
        let id = self.next_id;
        let entry = TimerEntry { id, expires_at, waker };
        let full = match &self.storage {
            Storage::Inline { timers, expired } => {
                proof {
                    assert forall|i: int, j: int| 0 <= i < j < timers@.len() implies timers@[i].id
                        != timers@[j].id by {
                        assert((timers@ + expired@)[i].id != (timers@ + expired@)[j].id);
                    }
                    lemma_by_id_len(timers@);
                }
                timers.len() >= INLINE_THRESHOLD
            },
            Storage::Wheel(_) => false,
        };
        if full {
            self.promote_to_wheel();
        }
        let ghost raised = self@;
        proof {
            assert(match self.storage {
                Storage::Wheel(wheel) => wheel@.next_id <= id,
                Storage::Inline { .. } => true,
            });
        }
        self.next_id = id + 1;
        let ghost mid = self@;
        proof {
            assert(mid == (StagedView { next_id: (id + 1) as u64, ..raised }));
            if full {
                assert(before.promotes_to(raised));
                assert(stepped.promotes_to(mid));
            }
        }
        match &mut self.storage {
            Storage::Inline { timers, expired } => {
                let ghost held = timers@;
                let ghost fired = expired@;
                timers.push(entry);
                proof {
                    assert forall|i: int, j: int|
                        0 <= i < j < (timers@ + fired).len() implies (timers@ + fired)[i].id != (
                    timers@ + fired)[j].id by {
                        let n = held.len();
                        let oi = if i < n {
                            i
                        } else if i == n {
                            -1
                        } else {
                            i - 1
                        };
                        let oj = if j < n {
                            j
                        } else if j == n {
                            -1
                        } else {
                            j - 1
                        };
                        if oi >= 0 {
                            assert((timers@ + fired)[i] == (held + fired)[oi]);
                        }
                        if oj >= 0 {
                            assert((timers@ + fired)[j] == (held + fired)[oj]);
                        }
                        if oi >= 0 && oj >= 0 {
                            assert((held + fired)[oi].id != (held + fired)[oj].id);
                        }
                    }
                    assert forall|i: int| 0 <= i < (timers@ + fired).len() implies (
                    #[trigger] (timers@ + fired)[i]).id < self.next_id by {
                        let n = held.len();
                        if i < n {
                            assert((timers@ + fired)[i] == (held + fired)[i]);
                        } else if i > n {
                            assert((timers@ + fired)[i] == (held + fired)[i - 1]);
                        }
                    }
                    assert forall|i: int, j: int| 0 <= i < j < timers@.len() implies timers@[i].id
                        != timers@[j].id by {
                        assert((timers@ + fired)[i].id != (timers@ + fired)[j].id);
                    }
                    lemma_by_id_push(held, entry);
                }
            },
            Storage::Wheel(wheel) => {
                proof {
                    wheel.lemma_ids_unique();
                    assert forall|i: int| 0 <= i < wheel@.expired.len() implies wheel@.expired[i].id
                        != id by {
                        assert(wheel@.expired[i].id < wheel@.next_id);
                    }
                    assert(!wheel@.holds(id));
                }
                wheel.insert_with_id(entry.id, entry.expires_at, entry.waker);
            },
        }
        proof {
            if full {
                assert(stepped.promotes_to(mid));
                assert(self@ == mid.put(entry));
            } else {
                assert(self@ == stepped.put(entry));
            }
        }
        id
    }

    /// Number of timers held. A list counts its pending timers; a wheel
    /// counts the expired timers that were not drained as well.
    pub fn len(&self) -> (n: usize)
        requires
            self.wf(),
        ensures
            n == if Self::spec_len(self@) <= usize::MAX {
                Self::spec_len(self@)
            } else {
                usize::MAX as nat
            },
    {
        match &self.storage {
            Storage::Inline { timers, expired } => {
                proof {
                    assert forall|i: int, j: int| 0 <= i < j < timers@.len() implies timers@[i].id
                        != timers@[j].id by {
                        assert((timers@ + expired@)[i].id != (timers@ + expired@)[j].id);
                    }
                    lemma_by_id_len(timers@);
                }
                timers.len()
            },
            Storage::Wheel(wheel) => wheel.len(),
        }
    }

    /// Id that the next `insert` hands out.
    pub fn next_id(&self) -> (id: u64)
        ensures
            id == self@.next_id,
    {
        self.next_id
    }

    /// Whether `len` is 0.
    pub fn is_empty(&self) -> (empty: bool)
        requires
            self.wf(),
        ensures
            empty == (Self::spec_len(self@) == 0),
    {
        match &self.storage {
            Storage::Inline { timers, expired } => {
                proof {
                    assert forall|i: int, j: int| 0 <= i < j < timers@.len() implies timers@[i].id
                        != timers@[j].id by {
                        assert((timers@ + expired@)[i].id != (timers@ + expired@)[j].id);
                    }
                    lemma_by_id_len(timers@);
                }
                timers.len() == 0
            },
            Storage::Wheel(wheel) => wheel.is_empty(),
        }
    }

    /// Advances the storage to the instant `now`. Timers that fall due join
    /// the expired ones; use `drain_expired` to collect them.
    pub fn advance_to(&mut self, now: u64)
        requires
            old(self).wf(),
        ensures
            final(self).wf(),
            old(self)@.advanced_to(final(self)@, now),
    {
        let ghost before = self@;
        match &mut self.storage {
            Storage::Inline { timers, expired } => {
                let ghost held = timers@;
                let ghost gone = expired@;
                let ghost start = before.as_wheel();
                let ghost mut fired: Seq<TimerEntry> = Seq::empty();
                let ghost bound = self.next_id;
                let ghost begin = self.start_time;
                proof {
                    assert(gone + fired =~= gone);
                }
                let mut i: usize = 0;
                while i < timers.len()
                    invariant
                        start == before.as_wheel(),
                        !before.promoted,
                        i <= timers@.len(),
                        timers@.len() <= INLINE_THRESHOLD,
                        distinct_ids(timers@ + expired@),
                        forall|k: int|
                            0 <= k < (timers@ + expired@).len() ==> (#[trigger] (timers@
                                + expired@)[k]).id < bound,
                        start == (WheelView {
                            start: begin,
                            tick: 0,
                            next_id: bound,
                            pending: by_id(held),
                            expired: gone,
                        }),
                        start.fires(
                            WheelView {
                                start: begin,
                                tick: 0,
                                next_id: bound,
                                pending: by_id(timers@),
                                expired: expired@,
                            },
                            fired,
                        ),
                        forall|m: int| 0 <= m < fired.len() ==> (#[trigger] fired[m]).expires_at <= now,
                        forall|m: int| 0 <= m < i ==> (#[trigger] timers@[m]).expires_at > now,
                    decreases timers@.len() - i,
                {
                    if timers[i].expires_at <= now {
                        let ghost cur = timers@;
                        let ghost out = expired@;
                        let ghost fired_before = fired;
                        let timer = timers.swap_remove(i);
                        expired.push(timer);
                        proof {
                            let last = cur.len() - 1;
                            let n = timers@.len();
                            fired = fired_before.push(timer);
                            assert forall|a: int, b: int| 0 <= a < b < cur.len() implies cur[a].id
                                != cur[b].id by {
                                assert((cur + out)[a].id != (cur + out)[b].id);
                            }
                            lemma_by_id_swap_remove(cur, i as int);
                            lemma_by_id(cur, i as int);
                            let old_of = |k: int|
                                if k < n {
                                    if k == i {
                                        last
                                    } else {
                                        k
                                    }
                                } else if k < n + out.len() {
                                    k + 1
                                } else {
                                    i as int
                                };
                            assert forall|k: int| 0 <= k < (timers@ + expired@).len() implies (
                            #[trigger] (timers@ + expired@)[k]) == (cur + out)[old_of(k)] by {}
                            assert forall|a: int, b: int|
                                0 <= a < b < (timers@ + expired@).len() implies (timers@
                                + expired@)[a].id != (timers@ + expired@)[b].id by {
                                assert((timers@ + expired@)[a] == (cur + out)[old_of(a)]);
                                assert((timers@ + expired@)[b] == (cur + out)[old_of(b)]);
                                if old_of(a) < old_of(b) {
                                    assert((cur + out)[old_of(a)].id != (cur + out)[old_of(b)].id);
                                } else {
                                    assert((cur + out)[old_of(b)].id != (cur + out)[old_of(a)].id);
                                }
                            }
                            let mid = WheelView {
                                start: begin,
                                tick: 0,
                                next_id: bound,
                                pending: by_id(cur),
                                expired: out,
                            };
                            let after = WheelView {
                                start: begin,
                                tick: 0,
                                next_id: bound,
                                pending: by_id(timers@),
                                expired: expired@,
                            };
                            let one = Seq::<TimerEntry>::empty().push(timer);
                            assert(after.expired =~= mid.expired + one);
                            assert forall|id: u64| #[trigger]
                                after.pending.contains_key(id) <==> mid.pending.contains_key(id)
                                    && !seq_holds(one, id) by {
                                if seq_holds(one, id) {
                                    let k = choose|k: int| 0 <= k < one.len() && one[k].id == id;
                                    assert(one[k] == timer);
                                }
                                if id == timer.id {
                                    assert(one[0].id == id);
                                }
                            }
                            assert(mid.fires(after, one));
                            lemma_fires_chain(start, mid, after, fired_before, one);
                            assert(fired_before + one =~= fired);
                            assert forall|m: int| 0 <= m < fired.len() implies (
                            #[trigger] fired[m]).expires_at <= now by {
                                if m < fired_before.len() {
                                    assert(fired[m] == fired_before[m]);
                                }
                            }
                        }
                    } else {
                        i = i + 1;
                    }
                }
                proof {
                    let after = WheelView {
                        start: begin,
                        tick: 0,
                        next_id: bound,
                        pending: by_id(timers@),
                        expired: expired@,
                    };
                    let n = gone.len() as int;
                    assert(after.expired.subrange(0, n) =~= gone);
                    assert(after.expired.subrange(n, after.expired.len() as int) =~= fired);
                    assert forall|a: int, b: int| 0 <= a < b < timers@.len() implies timers@[a].id
                        != timers@[b].id by {
                        assert((timers@ + expired@)[a].id != (timers@ + expired@)[b].id);
                    }
                    assert forall|a: int, b: int| 0 <= a < b < held.len() implies held[a].id
                        != held[b].id by {
                        assert((held + gone)[a].id != (held + gone)[b].id);
                    }
                    assert forall|a: int| n <= a < after.expired.len() implies {
                        let e = #[trigger] after.expired[a];
                        &&& start.pending.contains_key(e.id)
                        &&& start.pending[e.id] == e
                        &&& e.expires_at <= now
                    } by {
                        assert(after.expired[a] == fired[a - n]);
                    }
                    assert forall|a: int, b: int|
                        n <= a < b < after.expired.len() implies after.expired[a].id
                        != after.expired[b].id by {
                        let ta = timers@.len();
                        assert((timers@ + expired@)[ta + a] == after.expired[a]);
                        assert((timers@ + expired@)[ta + b] == after.expired[b]);
                    }
                    assert forall|id: u64| #[trigger]
                        after.pending.contains_key(id) <==> start.pending.contains_key(id)
                            && start.pending[id].expires_at > now by {
                        if after.pending.contains_key(id) {
                            let k = choose|k: int| 0 <= k < timers@.len() && timers@[k].id == id;
                            lemma_by_id(timers@, k);
                        }
                        if start.pending.contains_key(id) && seq_holds(fired, id) {
                            let m = choose|m: int| 0 <= m < fired.len() && fired[m].id == id;
                            assert(start.pending[fired[m].id] == fired[m]);
                        }
                    }
                    assert forall|id: u64| #[trigger]
                        start.pending.contains_key(id) && start.pending[id].expires_at
                            <= now implies seq_holds(
                        after.expired.subrange(n, after.expired.len() as int),
                        id,
                    ) by {
                        if after.pending.contains_key(id) {
                            let k = choose|k: int| 0 <= k < timers@.len() && timers@[k].id == id;
                            lemma_by_id(timers@, k);
                        }
                        assert(seq_holds(fired, id));
                    }
                    let done = StagedView {
                        start: begin,
                        next_id: bound,
                        promoted: false,
                        tick: 0,
                        pending: by_id(timers@),
                        expired: expired@,
                    };
                    assert(done.pending == after.pending);
                    assert(before.pending == start.pending);
                    assert forall|id: u64| #[trigger]
                        done.pending.contains_key(id) <==> before.pending.contains_key(id)
                            && before.pending[id].expires_at > now by {
                        assert(after.pending.contains_key(id) <==> start.pending.contains_key(id)
                            && start.pending[id].expires_at > now);
                    }
                    assert forall|id: u64| #[trigger]
                        done.pending.contains_key(id) implies done.pending[id]
                        == before.pending[id] by {
                        assert(after.pending.contains_key(id));
                        assert(after.pending[id] == start.pending[id]);
                    }
                    assert(before.swept(done, now));
                }
            },
            Storage::Wheel(wheel) => {
                let ghost inner = wheel@;
                wheel.advance_to(now);
                proof {
                    let pre = WheelView { next_id: before.next_id, ..inner };
                    let post = WheelView { next_id: before.next_id, ..wheel@ };
                    assert(before.as_wheel() == pre);
                    assert(inner.advanced(wheel@));
                    assert(pre.expired == inner.expired);
                    assert(post.expired == wheel@.expired);
                    assert(pre.advanced(post));
                }
            },
        }
    }

    /// Takes out the expired timers, oldest first, each as its id and its
    /// waker.
    pub fn drain_expired(&mut self) -> (drained: DrainExpired)
        requires
            old(self).wf(),
        ensures
            final(self).wf(),
            final(self)@ == (StagedView { expired: Seq::empty(), ..old(self)@ }),
            drained is Inline <==> !old(self)@.promoted,
            drained.remaining().len() == old(self)@.expired.len(),
            forall|i: int|
                0 <= i < old(self)@.expired.len() ==> drained.remaining()[i] == (
                    old(self)@.expired[i].id,
                    old(self)@.expired[i].waker,
                ),
    {
        match &mut self.storage {
            Storage::Inline { timers, expired } => {
                let ghost held = timers@;
                let ghost gone = expired@;
                let mut pairs: Vec<(u64, Waker)> = Vec::new();
                while expired.len() > 0
                    invariant
                        expired@.len() + pairs@.len() == gone.len(),
                        forall|i: int| 0 <= i < expired@.len() ==> expired@[i] == gone[i],
                        forall|i: int|
                            0 <= i < pairs@.len() ==> pairs@[i] == (
                                gone[gone.len() - 1 - i].id,
                                gone[gone.len() - 1 - i].waker,
                            ),
                    decreases expired@.len(),
                {
                    let timer = expired.pop().unwrap();
                    pairs.push((timer.id, timer.waker));
                }
                proof {
                    assert(expired@ =~= Seq::<TimerEntry>::empty());
                    assert(timers@ + expired@ =~= held);
                    assert forall|i: int, j: int| 0 <= i < j < held.len() implies held[i].id
                        != held[j].id by {
                        assert((held + gone)[i].id != (held + gone)[j].id);
                    }
                    assert forall|i: int| 0 <= i < held.len() implies (#[trigger] held[i]).id
                        < self.next_id by {
                        assert((held + gone)[i] == held[i]);
                    }
                }
                DrainExpired::Inline(pairs)
            },
            Storage::Wheel(wheel) => {
                let pairs = wheel.drain_expired();
                DrainExpired::Wheel(turned(pairs))
            },
        }
    }

    /// No id is held twice, and every timer is filed under its own id.
    pub proof fn lemma_ids_unique(&self)
        requires
            self.wf(),
        ensures
            self@.pending.dom().finite(),
            forall|id: u64| #[trigger]
                self@.pending.contains_key(id) ==> self@.pending[id].id == id && id
                    < self@.next_id,
            forall|i: int|
                0 <= i < self@.expired.len() ==> (#[trigger] self@.expired[i]).id < self@.next_id
                    && !self@.pending.contains_key(self@.expired[i].id),
            distinct_ids(self@.expired),
    {
        match self.storage {
            Storage::Inline { timers, expired } => {
                let all = timers@ + expired@;
                let n = timers@.len() as int;
                assert forall|i: int, j: int| 0 <= i < j < timers@.len() implies timers@[i].id
                    != timers@[j].id by {
                    assert(all[i].id != all[j].id);
                }
                lemma_by_id_len(timers@);
                assert forall|id: u64| #[trigger]
                    self@.pending.contains_key(id) implies self@.pending[id].id == id && id
                    < self@.next_id by {
                    let k = choose|k: int| 0 <= k < timers@.len() && timers@[k].id == id;
                    lemma_by_id(timers@, k);
                    assert(all[k] == timers@[k]);
                }
                assert forall|i: int| 0 <= i < self@.expired.len() implies (
                #[trigger] self@.expired[i]).id < self@.next_id && !self@.pending.contains_key(
                    self@.expired[i].id,
                ) by {
                    assert(all[i + n] == expired@[i]);
                    if seq_holds(timers@, expired@[i].id) {
                        let k = choose|k: int|
                            0 <= k < timers@.len() && timers@[k].id == expired@[i].id;
                        assert(all[k].id != all[i + n].id);
                    }
                }
                assert forall|i: int, j: int| 0 <= i < j < expired@.len() implies expired@[i].id
                    != expired@[j].id by {
                    assert(all[i + n].id != all[j + n].id);
                }
            },
            Storage::Wheel(wheel) => {
                wheel.lemma_ids_unique();
            },
        }
    }
}

impl DrainExpired {
    /// The pairs as stored: the next one last.
    pub open spec fn stored(&self) -> Seq<(u64, Waker)> {
        match self {
            DrainExpired::Inline(pairs) => pairs@,
            DrainExpired::Wheel(pairs) => pairs@,
        }
    }

    /// The pairs that are still to come, the next one first.
    pub open spec fn remaining(&self) -> Seq<(u64, Waker)> {
        Seq::new(self.stored().len(), |i: int| self.stored()[self.stored().len() - 1 - i])
    }

    /// Number of pairs still to come.
    pub fn len(&self) -> (n: usize)
        ensures
            n == self.remaining().len(),
    {
        match self {
            DrainExpired::Inline(pairs) => pairs.len(),
            DrainExpired::Wheel(pairs) => pairs.len(),
        }
    }

    /// Hands out the next pair, `None` when all were handed out.
    pub fn next(&mut self) -> (pair: Option<(u64, Waker)>)
        ensures
            match pair {
                Some(p) => old(self).remaining().len() > 0 && p == old(self).remaining()[0]
                    && final(self).remaining() == old(self).remaining().drop_first(),
                None => old(self).remaining().len() == 0 && final(self).remaining().len() == 0,
            },
            *final(self) is Inline <==> *old(self) is Inline,
    {
        let pair = match self {
            DrainExpired::Inline(pairs) => pairs.pop(),
            DrainExpired::Wheel(pairs) => pairs.pop(),
        };
        proof {
            if pair is Some {
                assert(final(self).remaining() =~= old(self).remaining().drop_first());
            }
        }
        pair
    }
}

/// Cancelling a timer of a list right after it was inserted under a fresh
/// id gives back the list as it was; of a wheel, the wheel as it was.
pub proof fn law_staged_insert_then_cancel(staged: StagedView, entry: TimerEntry)
    requires
        !staged.as_wheel().holds(entry.id),
    ensures
        staged.promoted ==> staged.put(entry).as_wheel().take(entry.id) == staged.as_wheel(),
        !staged.promoted ==> staged.put(entry).pending.remove(entry.id) == staged.pending,
{
    if staged.promoted {
        crate::timer::timing_wheel::law_insert_then_cancel(staged.as_wheel(), entry);
        assert(staged.put(entry).as_wheel() == staged.as_wheel().put(entry));
    } else {
        assert(staged.put(entry).pending.remove(entry.id) =~= staged.pending);
    }
}

/// Promotion keeps the ids: an id is held afterwards exactly if it was held
/// before, and the id that comes next is the same.
pub proof fn law_promotion_keeps_ids(before: StagedView, after: StagedView, id: u64)
    requires
        before.promotes_to(after),
        forall|i: int|
            0 <= i < before.expired.len() ==> !before.pending.contains_key(
                (#[trigger] before.expired[i]).id,
            ),
        forall|other: u64| #[trigger]
            before.pending.contains_key(other) ==> before.pending[other].id == other,
        distinct_ids(before.expired),
    ensures
        after.as_wheel().holds(id) <==> before.as_wheel().holds(id),
        after.next_id == before.next_id,
{
    let pre = before.as_wheel();
    let post = after.as_wheel();
    if post.holds(id) {
        if post.pending.contains_key(id) {
            assert(after.pending.contains_key(id));
            if !before.pending.contains_key(id) {
                assert(seq_holds(before.expired, id));
                let i = choose|i: int| 0 <= i < before.expired.len() && before.expired[i].id == id;
                assert(pre.expired[i].id == id);
                assert(pre.expired_has(id));
            }
        } else {
            let j = choose|j: int| 0 <= j < post.expired.len() && post.expired[j].id == id;
            let e = after.expired[j];
            assert(e.id == id);
            if !(before.pending.contains_key(e.id) && before.pending[e.id] == e) {
                assert(before.expired.contains(e));
                let i = choose|i: int| 0 <= i < before.expired.len() && before.expired[i] == e;
                assert(pre.expired[i].id == id);
                assert(pre.expired_has(id));
            }
        }
        assert(pre.holds(id));
    }
    if pre.holds(id) {
        if pre.pending.contains_key(id) {
            assert(before.pending.contains_key(id));
            if before.due_at_start(before.pending[id]) {
                assert(after.expired_has(id));
                let j = choose|j: int| 0 <= j < after.expired.len() && after.expired[j].id == id;
                assert(post.expired[j].id == id);
                assert(post.expired_has(id));
            } else {
                assert(after.pending.contains_key(id));
            }
        } else {
            let i = choose|i: int| 0 <= i < pre.expired.len() && pre.expired[i].id == id;
            assert(before.expired[i].id == id);
            lemma_by_id(before.expired, i);
            assert(seq_holds(before.expired, id));
            if before.due_at_start(before.expired[i]) {
                assert(after.expired_has(before.expired[i].id));
                let j = choose|j: int| 0 <= j < after.expired.len() && after.expired[j].id == id;
                assert(post.expired[j].id == id);
                assert(post.expired_has(id));
            } else {
                assert(entry_with(before.expired, id) == before.expired[i]);
                assert(after.pending.contains_key(id));
            }
        }
        assert(post.holds(id));
    }
}
} // verus!
