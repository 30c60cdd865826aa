//! The reactor's view of its timers.
//!
//! Wraps the staged storage, names timers by `TimerId`, and keeps the instant
//! of every timer at hand so that the reactor can tell how long it may sleep.
use crate::timer::staged_wheel::StagedView;
use crate::timer::staged_wheel::StagedWheel;
use crate::timer::staged_wheel::INLINE_THRESHOLD;
use crate::timer::timer_id::TimerId;
use crate::timer::staged_wheel::distinct_ids;
use crate::timer::staged_wheel::law_promotion_keeps_ids;
use crate::timer::timing_wheel::ids_of;
use crate::timer::timing_wheel::seq_holds;
use crate::timer::timing_wheel::TimerEntry;
use ahash::AHashMap;
use std::task::Waker;
use vstd::prelude::*;

verus! {

/// The instants that an expiry table holds, by timer id.
pub uninterp spec fn expiry_entries(m: AHashMap<u64, u64>) -> Map<u64, u64>;

/// `AHashMap::new`: the new map holds nothing.
#[verifier::external_body]
fn expiry_new() -> (fresh: AHashMap<u64, u64>)
    ensures
        forall|k: u64| !expiry_entries(fresh).contains_key(k),
{
    AHashMap::new()
}

/// `AHashMap::insert`: afterwards the key maps to the new value and every
/// other key is as before; the value that the key had, if any, is returned.
#[verifier::external_body]
fn expiry_insert(m: &mut AHashMap<u64, u64>, k: u64, v: u64) -> (prev: Option<u64>)
    ensures
        expiry_entries(*final(m)) == expiry_entries(*old(m)).insert(k, v),
        prev == if expiry_entries(*old(m)).contains_key(k) {
            Some(expiry_entries(*old(m))[k])
        } else {
            None
        },
{
    m.insert(k, v)
}

/// `AHashMap::remove`: afterwards the key is absent and every other key is as
/// before; the value that the key had, if any, is returned.
#[verifier::external_body]
fn expiry_remove(m: &mut AHashMap<u64, u64>, k: u64) -> (prev: Option<u64>)
    ensures
        expiry_entries(*final(m)) == expiry_entries(*old(m)).remove(k),
        prev == if expiry_entries(*old(m)).contains_key(k) {
            Some(expiry_entries(*old(m))[k])
        } else {
            None
        },
{
    m.remove(&k)
}

/// `HashMap::contains_key`, reached through `AHashMap`'s `Deref`: whether the
/// map has the key.
#[verifier::external_body]
fn expiry_contains(m: &AHashMap<u64, u64>, k: u64) -> (found: bool)
    ensures
        found == expiry_entries(*m).contains_key(k),
{
    m.contains_key(&k)
}

/// `HashMap::len`, reached through `AHashMap`'s `Deref`: the number of keys.
#[verifier::external_body]
fn expiry_len(m: &AHashMap<u64, u64>) -> (n: usize)
    ensures
        n == expiry_entries(*m).len(),
{
    m.len()
}

/// `HashMap::is_empty`, reached through `AHashMap`'s `Deref`: whether the map
/// has no key.
#[verifier::external_body]
fn expiry_is_empty(m: &AHashMap<u64, u64>) -> (empty: bool)
    ensures
        empty == (expiry_entries(*m).len() == 0),
{
    m.is_empty()
}

/// Whether some key of the map has this value.
pub open spec fn has_value(expiry: Map<u64, u64>, v: u64) -> bool {
    exists|k: u64| #[trigger] expiry.contains_key(k) && expiry[k] == v
}

/// `HashMap::values`, reached through `AHashMap`'s `Deref`, copied into a
/// vector: the values of the map's keys, in no particular order.
#[verifier::external_body]
fn expiry_values(m: &AHashMap<u64, u64>) -> (values: Vec<u64>)
    ensures
        forall|v: u64| values@.contains(v) <==> has_value(expiry_entries(*m), v),
{
    m.values().copied().collect()
}

/// The reactor's timers.
pub struct ReactorTimers {
    wheel: StagedWheel,
    id_to_expiry: AHashMap<u64, u64>,
}

/// What the reactor's timers are, seen from outside.
pub struct TimersView {
    /// The storage of the timers.
    pub staged: StagedView,
    /// Instant of every timer that was registered and neither removed nor
    /// fired, by the storage's id.
    pub expiry: Map<u64, u64>,
}

/// Whether `least` is the smallest value of the map.
pub open spec fn is_least(expiry: Map<u64, u64>, least: u64) -> bool {
    &&& exists|k: u64| #[trigger] expiry.contains_key(k) && expiry[k] == least
    &&& forall|k: u64| #[trigger] expiry.contains_key(k) ==> least <= expiry[k]
}

/// Time from `now` to the earliest instant of the map, 0 where that instant
/// has passed; `None` for an empty map.
pub open spec fn next_wait(expiry: Map<u64, u64>, now: u64, wait: Option<u64>) -> bool {
    match wait {
        None => forall|k: u64| !expiry.contains_key(k),
        Some(d) => exists|least: u64| #[trigger]
            is_least(expiry, least) && d == if least > now {
                (least - now) as u64
            } else {
                0
            },
    }
}

/// The table of instants agrees with the storage: it names exactly the
/// timers that the storage holds, each with its instant; and a list holds
/// no expired timer between two rounds.
pub open spec fn coupled(staged: StagedView, expiry: Map<u64, u64>) -> bool {
    &&& forall|id: u64| #[trigger] expiry.contains_key(id) <==> staged.as_wheel().holds(id)
    &&& forall|id: u64| #[trigger]
        staged.pending.contains_key(id) ==> expiry[id] == staged.pending[id].expires_at
    &&& forall|i: int|
        0 <= i < staged.expired.len() ==> expiry[(#[trigger] staged.expired[i]).id]
            == staged.expired[i].expires_at
    &&& !staged.promoted ==> staged.expired.len() == 0
}

/// No id is held twice and every pending timer is filed under its id.
pub open spec fn unique(staged: StagedView) -> bool {
    &&& forall|id: u64| #[trigger] staged.pending.contains_key(id) ==> staged.pending[id].id == id
    &&& forall|i: int|
        0 <= i < staged.expired.len() ==> !staged.pending.contains_key(
            (#[trigger] staged.expired[i]).id,
        )
    &&& distinct_ids(staged.expired)
}

/// Putting a timer under a new id into the storage and its instant into the
/// table keeps the two in agreement.
proof fn lemma_put_coupled(staged: StagedView, expiry: Map<u64, u64>, e: TimerEntry)
    requires
        coupled(staged, expiry),
        !staged.as_wheel().holds(e.id),
    ensures
        coupled(staged.put(e), expiry.insert(e.id, e.expires_at)),
{
    let after = staged.put(e);
    let table = expiry.insert(e.id, e.expires_at);
    assert forall|id: u64| #[trigger] table.contains_key(id) <==> after.as_wheel().holds(id) by {
        assert(expiry.contains_key(id) <==> staged.as_wheel().holds(id));
        if staged.as_wheel().expired_has(id) {
            let i = choose|i: int| 0 <= i < staged.expired.len() && staged.expired[i].id == id;
            assert(after.expired[i].id == id);
        }
        if after.as_wheel().expired_has(id) {
            let i = choose|i: int| 0 <= i < after.expired.len() && after.expired[i].id == id;
            if i < staged.expired.len() {
                assert(staged.expired[i].id == id);
            }
        }
        if id == e.id && !after.pending.contains_key(id) {
            assert(after.expired[staged.expired.len() as int].id == id);
        }
    }
    assert forall|i: int| 0 <= i < after.expired.len() implies table[(
    #[trigger] after.expired[i]).id] == after.expired[i].expires_at by {
        if i < staged.expired.len() {
            assert(after.expired[i] == staged.expired[i]);
            assert(staged.as_wheel().expired_has(staged.expired[i].id));
        }
    }
}

/// Promotion keeps the storage and the table in agreement.
proof fn lemma_promote_coupled(before: StagedView, mid: StagedView, expiry: Map<u64, u64>)
    requires
        coupled(before, expiry),
        unique(before),
        !before.promoted,
        before.promotes_to(mid),
    ensures
        coupled(mid, expiry),
{
    assert forall|id: u64| #[trigger] expiry.contains_key(id) <==> mid.as_wheel().holds(id) by {
        assert(expiry.contains_key(id) <==> before.as_wheel().holds(id));
        law_promotion_keeps_ids(before, mid, id);
    }
    assert forall|i: int| 0 <= i < mid.expired.len() implies expiry[(
    #[trigger] mid.expired[i]).id] == mid.expired[i].expires_at by {
        let e = mid.expired[i];
        if before.expired.contains(e) {
            let k = choose|k: int| 0 <= k < before.expired.len() && before.expired[k] == e;
        }
    }
}

/// Taking a timer out of the storage and its id out of the table keeps the
/// two in agreement.
proof fn lemma_take_coupled(staged: StagedView, expiry: Map<u64, u64>, id: u64)
    requires
        coupled(staged, expiry),
        unique(staged),
    ensures
        coupled(
            if staged.promoted {
                let taken = staged.as_wheel().take(id);
                StagedView { pending: taken.pending, expired: taken.expired, ..staged }
            } else {
                StagedView { pending: staged.pending.remove(id), ..staged }
            },
            expiry.remove(id),
        ),
{
    let wheel = staged.as_wheel();
    let after = if staged.promoted {
        let taken = wheel.take(id);
        StagedView { pending: taken.pending, expired: taken.expired, ..staged }
    } else {
        StagedView { pending: staged.pending.remove(id), ..staged }
    };
    let table = expiry.remove(id);
    let last = staged.expired.len() - 1;
    let by_swap = staged.promoted && !staged.pending.contains_key(id) && wheel.expired_has(id);
    let pos = wheel.expired_position(id);
    assert forall|i: int| 0 <= i < after.expired.len() implies #[trigger] after.expired[i] == (
    if by_swap && i == pos {
        staged.expired[last]
    } else {
        staged.expired[i]
    }) && after.expired[i].id != id by {
        let src = if by_swap && i == pos {
            last
        } else {
            i
        };
        if by_swap {
            if src < pos {
                assert(staged.expired[src].id != staged.expired[pos].id);
            } else if src > pos {
                assert(staged.expired[pos].id != staged.expired[src].id);
            }
        } else {
            assert(staged.expired[i].id != id) by {
                if staged.expired[i].id == id {
                    assert(wheel.expired_has(id));
                    assert(!staged.pending.contains_key(staged.expired[i].id));
                }
            }
        }
    }
    assert forall|other: u64| #[trigger]
        table.contains_key(other) <==> after.as_wheel().holds(other) by {
        assert(expiry.contains_key(other) <==> wheel.holds(other));
        if after.as_wheel().expired_has(other) {
            let i = choose|i: int| 0 <= i < after.expired.len() && after.expired[i].id == other;
            let src = if by_swap && i == pos {
                last
            } else {
                i
            };
            assert(staged.expired[src].id == other);
            assert(wheel.expired_has(other));
        }
        if other != id && wheel.expired_has(other) {
            let i = choose|i: int| 0 <= i < staged.expired.len() && staged.expired[i].id == other;
            if by_swap {
                if i == last {
                    assert(after.expired[pos].id == other);
                } else {
                    assert(i != pos);
                    assert(after.expired[i].id == other);
                }
            } else {
                assert(after.expired[i].id == other);
            }
            assert(after.as_wheel().expired_has(other));
        }
        if other == id {
            if after.pending.contains_key(id) {
                assert(staged.pending.contains_key(id));
                let j = choose|j: int| 0 <= j < staged.expired.len() && staged.expired[j].id == id;
                assert(!staged.pending.contains_key(staged.expired[j].id));
            }
        }
    }
    assert forall|i: int| 0 <= i < after.expired.len() implies table[(
    #[trigger] after.expired[i]).id] == after.expired[i].expires_at by {
        let src = if by_swap && i == pos {
            last
        } else {
            i
        };
        assert(after.expired[i] == staged.expired[src]);
        assert(expiry[staged.expired[src].id] == staged.expired[src].expires_at);
    }
}

/// A round that advances the storage, drains the expired timers and drops
/// their ids from the table keeps the two in agreement.
proof fn lemma_processed_coupled(
    before: StagedView,
    mid: StagedView,
    expiry: Map<u64, u64>,
    now: u64,
)
    requires
        coupled(before, expiry),
        unique(before),
        before.advanced_to(mid, now),
    ensures
        coupled(
            StagedView { expired: Seq::empty(), ..mid },
            expiry.remove_keys(ids_of(mid.expired)),
        ),
{
    let after = StagedView { expired: Seq::empty(), ..mid };
    let table = expiry.remove_keys(ids_of(mid.expired));
    let n = before.expired.len() as int;
    let fired = mid.expired.subrange(n, mid.expired.len() as int);
    let a = before.as_wheel();
    let b = mid.as_wheel();
    assert(mid.expired.subrange(0, n) == before.expired);
    // What both kinds of storage have in common.
    assert forall|id: u64| #[trigger] mid.pending.contains_key(id) implies before.pending.contains_key(
        id,
    ) && mid.pending[id] == before.pending[id] && !seq_holds(fired, id) by {
        if before.promoted {
            assert(b.pending.contains_key(id));
            assert(a.pending.contains_key(id) && a.deadline(a.pending[id]) > b.tick);
            assert(b.pending[id] == a.pending[id]);
        } else {
            assert(before.pending.contains_key(id) && before.pending[id].expires_at > now);
        }
        if seq_holds(fired, id) {
            let i = choose|i: int| 0 <= i < fired.len() && fired[i].id == id;
            assert(fired[i] == mid.expired[i + n]);
            assert(before.pending[mid.expired[i + n].id] == mid.expired[i + n]);
        }
    }
    assert forall|id: u64|
        before.pending.contains_key(id) && !mid.pending.contains_key(id) implies seq_holds(
        fired,
        id,
    ) by {
        if before.promoted {
            assert(b.pending.contains_key(id) <==> a.pending.contains_key(id) && a.deadline(
                a.pending[id],
            ) > b.tick);
            assert(a.pending.contains_key(id) && a.deadline(a.pending[id]) <= b.tick);
            assert(seq_holds(b.expired.subrange(n, b.expired.len() as int), id));
        } else {
            assert(mid.pending.contains_key(id) <==> before.pending.contains_key(id)
                && before.pending[id].expires_at > now);
            assert(before.pending.contains_key(id) && before.pending[id].expires_at <= now);
        }
    }
    assert forall|id: u64| #[trigger] table.contains_key(id) <==> after.as_wheel().holds(id) by {
        assert(expiry.contains_key(id) <==> before.as_wheel().holds(id));
        assert(!after.as_wheel().expired_has(id));
        if mid.pending.contains_key(id) {
            assert(before.pending.contains_key(id));
            if seq_holds(mid.expired, id) {
                let i = choose|i: int| 0 <= i < mid.expired.len() && mid.expired[i].id == id;
                if i < n {
                    assert(mid.expired.subrange(0, n)[i] == mid.expired[i]);
                    assert(before.expired[i].id == id);
                    assert(!before.pending.contains_key(before.expired[i].id));
                } else {
                    assert(fired[i - n].id == id);
                    assert(seq_holds(fired, id));
                }
            }
        }
        if before.as_wheel().holds(id) && !mid.pending.contains_key(id) {
            if before.pending.contains_key(id) {
                assert(seq_holds(fired, id));
                let i = choose|i: int| 0 <= i < fired.len() && fired[i].id == id;
                assert(mid.expired[i + n].id == id);
            } else {
                let i = choose|i: int|
                    0 <= i < before.expired.len() && before.expired[i].id == id;
                assert(mid.expired.subrange(0, n)[i] == mid.expired[i]);
                assert(mid.expired[i].id == id);
            }
            assert(seq_holds(mid.expired, id));
        }
    }
    assert forall|id: u64| #[trigger] after.pending.contains_key(id) implies table[id]
        == after.pending[id].expires_at by {
        assert(mid.pending.contains_key(id));
        assert(before.pending.contains_key(id));
        assert(mid.pending[id] == before.pending[id]);
        assert(after.as_wheel().holds(id));
        assert(table.contains_key(id));
        assert(table[id] == expiry[id]);
        assert(expiry[id] == before.pending[id].expires_at);
    }
}

impl TimersView {
    /// `post` is these timers after they were advanced to `now` and the
    /// timers that had expired by then were taken out: `mid` is the storage
    /// in between, `woke` are the wakers of its expired timers in their
    /// order, and the ids of those timers have left the table of instants.
    pub open spec fn processed(
        self,
        post: TimersView,
        now: u64,
        woke: Seq<Waker>,
        mid: StagedView,
    ) -> bool {
        &&& self.staged.advanced_to(mid, now)
        &&& post.staged == (StagedView { expired: Seq::empty(), ..mid })
        &&& woke.len() == mid.expired.len()
        &&& forall|i: int| 0 <= i < mid.expired.len() ==> woke[i] == mid.expired[i].waker
        &&& post.expiry == self.expiry.remove_keys(ids_of(mid.expired))
    }
}

impl View for ReactorTimers {
    type V = TimersView;

    closed spec fn view(&self) -> TimersView {
        TimersView { staged: self.wheel@, expiry: expiry_entries(self.id_to_expiry) }
    }
}

impl ReactorTimers {
    /// The invariant: the storage is well-formed, and the table of instants
    /// names exactly the timers that the storage holds.
    pub closed spec fn wf(&self) -> bool {
        &&& self.wheel.wf()
        &&& expiry_entries(self.id_to_expiry).dom().finite()
        &&& coupled(self.wheel@, expiry_entries(self.id_to_expiry))
    }

    /// The table of instants names exactly the timers that the storage
    /// holds, each with its instant, and no timer is held twice.
    pub proof fn lemma_table_matches(&self)
        requires
            self.wf(),
        ensures
            coupled(self@.staged, self@.expiry),
            unique(self@.staged),
            self@.expiry.dom().finite(),
    {
        self.wheel.lemma_ids_unique();
    }

    /// Creates the timers of a reactor whose clock reads `start_time`.
    pub fn new_at(start_time: u64) -> (timers: Self)
        ensures
            timers.wf(),
            timers@.staged == (StagedView {
                start: start_time,
                next_id: 0,
                promoted: false,
                tick: 0,
                pending: Map::empty(),
                expired: Seq::empty(),
            }),
            timers@.expiry == Map::<u64, u64>::empty(),
    {
        let timers = ReactorTimers {
            wheel: StagedWheel::new_at(start_time),
            id_to_expiry: expiry_new(),
        };
        proof {
            assert(expiry_entries(timers.id_to_expiry) =~= Map::<u64, u64>::empty());
        }
        timers
    }

    /// Registers a timer and returns the id to cancel it by: the low 32 bits
    /// of the storage's id, with generation 0.
    pub fn insert(&mut self, expires_at: u64, waker: Waker) -> (id: TimerId)
        requires
            old(self).wf(),
            old(self)@.staged.next_id < u64::MAX,
        ensures
            final(self).wf(),
            id.index == old(self)@.staged.next_id as u32,
            id.generation == 0,
            (StagedView {
                next_id: (old(self)@.staged.next_id + 1) as u64,
                ..old(self)@.staged
            }).inserted(
                final(self)@.staged,
                crate::timer::timing_wheel::TimerEntry {
                    id: old(self)@.staged.next_id,
                    expires_at,
                    waker,
                },
            ),
            final(self)@.expiry == old(self)@.expiry.insert(
                old(self)@.staged.next_id,
                expires_at,
            ),
    {
        let ghost before = self.wheel@;
        let ghost table = expiry_entries(self.id_to_expiry);
        let ghost entry = TimerEntry { id: before.next_id, expires_at, waker };
        proof {
            self.wheel.lemma_ids_unique();
            if before.as_wheel().expired_has(before.next_id) {
                let i = choose|i: int|
                    0 <= i < before.expired.len() && before.expired[i].id == before.next_id;
                assert(before.expired[i].id < before.next_id);
            }
        }
        let internal_id = self.wheel.insert(expires_at, waker);
        let _ = expiry_insert(&mut self.id_to_expiry, internal_id, expires_at);
        proof {
            let stepped = StagedView { next_id: (before.next_id + 1) as u64, ..before };
            let after = self.wheel@;
            assert(stepped.as_wheel().holds(entry.id) == before.as_wheel().holds(entry.id));
            assert(coupled(stepped, table)) by {
                assert forall|id: u64| #[trigger]
                    table.contains_key(id) <==> stepped.as_wheel().holds(id) by {
                    assert(table.contains_key(id) <==> before.as_wheel().holds(id));
                    assert(stepped.as_wheel().pending == before.as_wheel().pending);
                    assert(stepped.as_wheel().expired == before.as_wheel().expired);
                }
            }
            if !stepped.promoted && stepped.pending.len() >= INLINE_THRESHOLD {
                let mid = choose|mid: StagedView| #[trigger]
                    stepped.promotes_to(mid) && after == mid.put(entry);
                lemma_promote_coupled(stepped, mid, table);
                law_promotion_keeps_ids(stepped, mid, entry.id);
                lemma_put_coupled(mid, table, entry);
            } else {
                lemma_put_coupled(stepped, table, entry);
            }
        }
        TimerId::new(internal_id as u32, 0)
    }

    /// Cancels the timer that the id names. Says whether the storage held
    /// it.
    pub fn remove(&mut self, id: TimerId) -> (found: bool)
        requires
            old(self).wf(),
        ensures
            final(self).wf(),
            final(self)@.expiry == old(self)@.expiry.remove(id.index as u64),
            found == old(self)@.expiry.contains_key(id.index as u64),
            found == if old(self)@.staged.promoted {
                old(self)@.staged.as_wheel().holds(id.index as u64)
            } else {
                old(self)@.staged.pending.contains_key(id.index as u64)
            },
            final(self)@.staged == if old(self)@.staged.promoted {
                let taken = old(self)@.staged.as_wheel().take(id.index as u64);
                StagedView { pending: taken.pending, expired: taken.expired, ..old(self)@.staged }
            } else {
                StagedView {
                    pending: old(self)@.staged.pending.remove(id.index as u64),
                    ..old(self)@.staged
                }
            },
    {
        let internal_id = id.index() as u64;
        proof {
            self.wheel.lemma_ids_unique();
            lemma_take_coupled(self.wheel@, expiry_entries(self.id_to_expiry), internal_id);
        }
        let _ = expiry_remove(&mut self.id_to_expiry, internal_id);
        self.wheel.remove(internal_id)
    }

    /// Whether the timer that the id names is registered.
    pub fn timer_exists(&self, id: TimerId) -> (found: bool)
        ensures
            found == self@.expiry.contains_key(id.index as u64),
    {
        let internal_id = id.index() as u64;
        expiry_contains(&self.id_to_expiry, internal_id)
    }

    /// Storage id that the next timer gets.
    pub fn next_id(&self) -> (id: u64)
        ensures
            id == self@.staged.next_id,
    {
        self.wheel.next_id()
    }

    /// Number of registered timers.
    pub fn len(&self) -> (n: usize)
        ensures
            n == self@.expiry.len(),
    {
        expiry_len(&self.id_to_expiry)
    }

    /// Whether no timer is registered.
    pub fn is_empty(&self) -> (empty: bool)
        ensures
            empty == (self@.expiry.len() == 0),
    {
        expiry_is_empty(&self.id_to_expiry)
    }

    /// Advances the timers to the instant `now` and collects the wakers of
    /// those that fell due, oldest first, for the caller to fire once it has
    /// let go of the timers. Also says how long it is from `now` to the
    /// earliest timer that is left.
    pub fn process_timers(&mut self, now: u64) -> (out: (Option<u64>, Vec<Waker>))
        requires
            old(self).wf(),
        ensures
            final(self).wf(),
            exists|mid: StagedView| old(self)@.processed(final(self)@, now, (out.1)@, mid),
            next_wait(final(self)@.expiry, now, out.0),
    {
        let ghost before = self@;
        proof {
            self.wheel.lemma_ids_unique();
        }
        self.wheel.advance_to(now);
        let ghost mid = self.wheel@;
        proof {
            lemma_processed_coupled(before.staged, mid, before.expiry, now);
        }
        let mut drained = self.wheel.drain_expired();
        let ghost pairs = drained.remaining();
        let mut woke: Vec<Waker> = Vec::new();
        proof {
            assert(before.expiry.remove_keys(ids_of(mid.expired.subrange(0, 0))) =~= before.expiry);
        }
        while drained.len() > 0
            invariant
                before == old(self)@,
                before.staged.advanced_to(mid, now),
                coupled(
                    StagedView { expired: Seq::empty(), ..mid },
                    before.expiry.remove_keys(ids_of(mid.expired)),
                ),
                self.wheel.wf(),
                self.wheel@ == (StagedView { expired: Seq::empty(), ..mid }),
                pairs.len() == mid.expired.len(),
                forall|i: int|
                    0 <= i < pairs.len() ==> pairs[i] == (mid.expired[i].id, mid.expired[i].waker),
                woke@.len() + drained.remaining().len() == pairs.len(),
                forall|i: int|
                    0 <= i < drained.remaining().len() ==> drained.remaining()[i] == pairs[woke@.len()
                        + i],
                forall|i: int| 0 <= i < woke@.len() ==> woke@[i] == mid.expired[i].waker,
                expiry_entries(self.id_to_expiry) == before.expiry.remove_keys(
                    ids_of(mid.expired.subrange(0, woke@.len() as int)),
                ),
                expiry_entries(self.id_to_expiry).dom().finite(),
            decreases drained.remaining().len(),
        {
            let ghost done = woke@.len() as int;
            let (internal_id, waker) = drained.next().unwrap();
            {
                {
                    let _ = expiry_remove(&mut self.id_to_expiry, internal_id);
                    woke.push(waker);
                    proof {
                        assert(internal_id == mid.expired[done].id);
                        let shorter = mid.expired.subrange(0, done);
                        let longer = mid.expired.subrange(0, done + 1);
                        assert forall|k: u64| ids_of(longer).contains(k) <==> ids_of(
                            shorter,
                        ).contains(k) || k == internal_id by {
                            if ids_of(longer).contains(k) {
                                let i = choose|i: int| 0 <= i < longer.len() && longer[i].id == k;
                                if i < done {
                                    assert(shorter[i].id == k);
                                }
                            }
                            if ids_of(shorter).contains(k) {
                                let i = choose|i: int|
                                    0 <= i < shorter.len() && shorter[i].id == k;
                                assert(longer[i].id == k);
                            }
                            if k == internal_id {
                                assert(longer[done].id == k);
                            }
                        }
                        assert(before.expiry.remove_keys(ids_of(longer)) =~= before.expiry.remove_keys(
                            ids_of(shorter),
                        ).remove(internal_id));
                    }
                }
            }
        }
        proof {
            assert(mid.expired.subrange(0, woke@.len() as int) =~= mid.expired);
            assert(before.processed(self@, now, woke@, mid));
        }
        let values = expiry_values(&self.id_to_expiry);
        let ghost table = expiry_entries(self.id_to_expiry);
        if values.len() == 0 {
            proof {
                assert forall|k: u64| !table.contains_key(k) by {
                    if table.contains_key(k) {
                        assert(values@.contains(table[k]));
                    }
                }
            }
            let out = (None, woke);
            proof {
                assert((out.1)@ == woke@);
                assert(before.processed(self@, now, (out.1)@, mid));
            }
            return out;
        }
        let mut least = values[0];
        let mut n: usize = 1;
        while n < values.len()
            invariant
                before.processed(self@, now, woke@, mid),
                self.wf(),
                1 <= n <= values@.len(),
                values@.contains(least),
                forall|i: int| 0 <= i < n ==> least <= values@[i],
            decreases values@.len() - n,
        {
            if values[n] < least {
                least = values[n];
            }
            n = n + 1;
        }
        proof {
            assert forall|k: u64| #[trigger] table.contains_key(k) implies least <= table[k] by {
                assert(values@.contains(table[k]));
            }
            assert(is_least(table, least));
        }
        let wait = if least > now {
            least - now
        } else {
            0
        };
        let out = (Some(wait), woke);
        proof {
            assert((out.1)@ == woke@);
            assert(before.processed(self@, now, (out.1)@, mid));
        }
        out
    }
}
} // verus!
