//! Hierarchical timing wheel.
//!
//! Four levels of buckets hold the timers that fall due within about
//! eighteen hours; an ordered map holds the rest until they come into range.
//!
//! | level | buckets | one bucket spans |
//! |-------|---------|------------------|
//! | 0     | 256     | 1 ms             |
//! | 1     | 64      | 256 ms           |
//! | 2     | 64      | 16 384 ms        |
//! | 3     | 64      | 1 048 576 ms     |
//!
//! Instants are `u64` nanoseconds on the executor's monotonic clock. The wheel
//! counts whole milliseconds (ticks) since its start time.
use ahash::AHashMap;
use ahash::RandomState;
use std::collections::BTreeMap;
use std::task::Waker;
use vstd::prelude::*;

verus! {

/// Buckets in level 0.
pub const LEVEL_0_SLOTS: usize = 256;

/// Buckets in each of the levels 1, 2 and 3.
pub const UPPER_LEVEL_SLOTS: usize = 64;

/// Milliseconds that one bucket of level 1 spans.
pub const LEVEL_1_RESOLUTION_MS: u64 = 256;

/// Milliseconds that one bucket of level 2 spans.
pub const LEVEL_2_RESOLUTION_MS: u64 = 16_384;

/// Milliseconds that one bucket of level 3 spans.
pub const LEVEL_3_RESOLUTION_MS: u64 = 1_048_576;

/// Timers this many milliseconds or more ahead go to the overflow map.
pub const OVERFLOW_THRESHOLD_MS: u64 = 67_108_864;

/// Level recorded for a timer that sits in the overflow map.
pub const OVERFLOW_LEVEL: u8 = 255;

/// Nanoseconds in one tick.
pub const NANOS_PER_MS: u64 = 1_000_000;

/// Buckets of all four levels together.
pub const TOTAL_SLOTS: usize = 448;

/// A timer: its id, the instant at which it falls due, and whom to wake.
pub struct TimerEntry {
    pub id: u64,
    pub expires_at: u64,
    pub waker: Waker,
}

/// Where a pending timer sits, so that it can be removed without a search.
#[derive(Clone, Copy)]
pub struct TimerLocation {
    pub level: u8,
    pub slot: usize,
    pub index_in_slot: usize,
}

/// Declares `ahash::RandomState`, the hasher state that `AHashMap` is built
/// with by default, as an opaque type.
#[verifier::external_type_specification]
#[verifier::external_body]
pub struct ExRandomState(RandomState);

/// Declares `ahash::AHashMap` as an opaque type. What a map holds is known
/// only through `index_entries` and the wrappers below.
#[verifier::external_type_specification]
#[verifier::external_body]
#[verifier::reject_recursive_types(K)]
#[verifier::reject_recursive_types(V)]
#[verifier::reject_recursive_types(S)]
pub struct ExAHashMap<K, V, S>(AHashMap<K, V, S>);

/// The key-value pairs that a timer index holds.
pub uninterp spec fn index_entries(m: AHashMap<u64, TimerLocation>) -> Map<u64, TimerLocation>;

/// `AHashMap::new`: the new map holds nothing.
#[verifier::external_body]
fn index_new() -> (fresh: AHashMap<u64, TimerLocation>)
    ensures
        forall|k: u64| !index_entries(fresh).contains_key(k),
{
    AHashMap::new()
}

/// `AHashMap::insert`: afterwards the key maps to the new value and every
/// other key is as before; the value that the key had, if any, is returned.
#[verifier::external_body]
fn index_insert(m: &mut AHashMap<u64, TimerLocation>, k: u64, v: TimerLocation) -> (prev: Option<
    TimerLocation,
>)
    ensures
        index_entries(*final(m)) == index_entries(*old(m)).insert(k, v),
        prev == if index_entries(*old(m)).contains_key(k) {
            Some(index_entries(*old(m))[k])
        } else {
            None
        },
{
    m.insert(k, v)
}

/// `AHashMap::remove`: afterwards the key is absent and every other key is as
/// before; the value that the key had, if any, is returned.
#[verifier::external_body]
fn index_remove(m: &mut AHashMap<u64, TimerLocation>, k: u64) -> (prev: Option<TimerLocation>)
    ensures
        index_entries(*final(m)) == index_entries(*old(m)).remove(k),
        prev == if index_entries(*old(m)).contains_key(k) {
            Some(index_entries(*old(m))[k])
        } else {
            None
        },
{
    m.remove(&k)
}

/// `AHashMap::get`, with the value copied out: the value of the key, if the
/// map has the key.
#[verifier::external_body]
fn index_get(m: &AHashMap<u64, TimerLocation>, k: u64) -> (found: Option<TimerLocation>)
    ensures
        found == if index_entries(*m).contains_key(k) {
            Some(index_entries(*m)[k])
        } else {
            None
        },
{
    m.get(&k).copied()
}

/// `HashMap::len`, reached through `AHashMap`'s `Deref`: the number of keys.
#[verifier::external_body]
fn index_len(m: &AHashMap<u64, TimerLocation>) -> (n: usize)
    ensures
        n == index_entries(*m).len(),
{
    m.len()
}

/// `HashMap::is_empty`, reached through `AHashMap`'s `Deref`: whether the map
/// has no key.
#[verifier::external_body]
fn index_is_empty(m: &AHashMap<u64, TimerLocation>) -> (empty: bool)
    ensures
        empty == (index_entries(*m).len() == 0),
{
    m.is_empty()
}

/// `BTreeMap::range` over `..=bound`, keeping the keys: every key of the map
/// that is at most `bound`, each once, in increasing order.
#[verifier::external_body]
fn overflow_keys_up_to(m: &BTreeMap<u64, Vec<TimerEntry>>, bound: u64) -> (keys: Vec<u64>)
    ensures
        forall|k: u64| keys@.contains(k) <==> (m@.contains_key(k) && k <= bound),
        forall|i: int, j: int| 0 <= i < j < keys@.len() ==> keys@[i] < keys@[j],
{
    m.range(..=bound).map(|(k, _)| *k).collect()
}

/// Milliseconds that one bucket of `level` spans.
pub open spec fn resolution(level: int) -> int {
    if level == 0 {
        1
    } else if level == 1 {
        256
    } else if level == 2 {
        16_384
    } else {
        1_048_576
    }
}

/// Number of buckets of `level`.
pub open spec fn slot_count(level: int) -> int {
    if level == 0 {
        256
    } else {
        64
    }
}

/// Tick at which an instant falls due, for a wheel started at `start`.
pub open spec fn deadline_tick(start: u64, expires_at: u64) -> int {
    if expires_at <= start {
        0
    } else {
        (expires_at - start) / 1_000_000
    }
}

/// Level that takes a timer which falls due `ticks_until` ticks from now;
/// 255 stands for the overflow map.
pub open spec fn level_for(ticks_until: int) -> int {
    if ticks_until < 256 {
        0
    } else if ticks_until < 16_384 {
        1
    } else if ticks_until < 1_048_576 {
        2
    } else if ticks_until < 67_108_864 {
        3
    } else {
        255
    }
}

/// Bucket of `level` that takes a timer which falls due at tick `deadline`.
pub open spec fn slot_for(level: int, deadline: int) -> int {
    (deadline / resolution(level)) % slot_count(level)
}

/// A timer due at tick `deadline` sits rightly in bucket `slot` of `level`
/// when the wheel stands at tick `tick`: it is in the bucket of its deadline,
/// and that bucket comes up next exactly when the deadline's span begins.
pub open spec fn placed_at(level: int, slot: int, deadline: int, tick: int) -> bool {
    &&& slot == slot_for(level, deadline)
    &&& tick / resolution(level) < deadline / resolution(level)
    &&& deadline / resolution(level) <= tick / resolution(level) + slot_count(level)
    &&& deadline - tick < 67_108_864
}

/// Placement in the middle of a tick: the levels below `stage` have been
/// brought up to `tick`; in the others the bucket that is up for processing
/// still holds what it held one tick earlier.
pub open spec fn placed(level: int, slot: int, deadline: int, tick: int, stage: int) -> bool {
    if level >= stage && tick % resolution(level) == 0 && slot == slot_for(level, tick) {
        placed_at(level, slot, deadline, tick - 1)
    } else {
        placed_at(level, slot, deadline, tick)
    }
}

/// What a wheel is, seen from outside.
pub struct WheelView {
    /// Instant at which the wheel was started.
    pub start: u64,
    /// Whole milliseconds since `start` that the wheel has been advanced to.
    pub tick: u64,
    /// Id that the next `insert` hands out.
    pub next_id: u64,
    /// Timers that have not fallen due, by id.
    pub pending: Map<u64, TimerEntry>,
    /// Timers that have fallen due and were not drained yet, oldest first.
    pub expired: Seq<TimerEntry>,
}

/// Whether some entry of the sequence has this id.
pub open spec fn seq_holds(entries: Seq<TimerEntry>, id: u64) -> bool {
    exists|i: int| 0 <= i < entries.len() && entries[i].id == id
}

/// The ids of the entries of a sequence.
pub open spec fn ids_of(entries: Seq<TimerEntry>) -> Set<u64> {
    Set::new(|id: u64| seq_holds(entries, id))
}

/// The wheel.
pub struct TimingWheel {
    current_tick: u64,
    start_time: u64,
    next_id: u64,
    index: AHashMap<u64, TimerLocation>,
    expired: Vec<TimerEntry>,
    slots: Vec<Vec<TimerEntry>>,
    overflow: BTreeMap<u64, Vec<TimerEntry>>,
    live: Ghost<Map<u64, TimerEntry>>,
}

/// First bucket of `level` in the wheel's table of buckets.
pub open spec fn bucket_base(level: int) -> int {
    if level == 0 {
        0
    } else if level == 1 {
        256
    } else if level == 2 {
        320
    } else {
        384
    }
}

/// A timer that is not due and less than the overflow threshold ahead fits
/// the bucket that `level_for` and `slot_for` pick for it.
proof fn lemma_fresh_placement(deadline: int, tick: int)
    requires
        0 <= tick < deadline,
        deadline - tick < 67_108_864,
    ensures
        placed_at(
            level_for(deadline - tick),
            slot_for(level_for(deadline - tick), deadline),
            deadline,
            tick,
        ),
{
    let ahead = deadline - tick;
    if ahead < 256 {
        assert(tick / 1 == tick && deadline / 1 == deadline);
    } else if ahead < 16_384 {
        assert(tick / 256 < deadline / 256 <= tick / 256 + 64);
    } else if ahead < 1_048_576 {
        assert(tick / 16_384 < deadline / 16_384 <= tick / 16_384 + 64);
    } else {
        assert(tick / 1_048_576 < deadline / 1_048_576 <= tick / 1_048_576 + 64);
    }
}

/// Index of the first entry with the given id.
pub(crate) fn position_of(entries: &Vec<TimerEntry>, id: u64) -> (pos: Option<usize>)
    ensures
        match pos {
            Some(p) => p < entries@.len() && entries@[p as int].id == id && forall|j: int|
                0 <= j < p ==> entries@[j].id != id,
            None => forall|j: int| 0 <= j < entries@.len() ==> entries@[j].id != id,
        },
{
    let mut p: usize = 0;
    while p < entries.len()
        invariant
            p <= entries@.len(),
            forall|j: int| 0 <= j < p ==> entries@[j].id != id,
        decreases entries@.len() - p,
    {
        if entries[p].id == id {
            return Some(p);
        }
        p = p + 1;
    }
    None
}

/// Moving to the next tick: what sat rightly at `tick` sits rightly at
/// `tick + 1` before any level has been worked off.
proof fn lemma_next_tick(level: int, slot: int, deadline: int, tick: int)
    requires
        0 <= level < 4,
        0 <= tick,
        placed_at(level, slot, deadline, tick),
    ensures
        placed(level, slot, deadline, tick + 1, 0),
{
    if level == 0 {
        assert(tick / 1 == tick && deadline / 1 == deadline && (tick + 1) / 1 == tick + 1);
        assert((tick + 1) % 1 == 0);
    } else if level == 1 {
        assert((tick + 1) % 256 != 0 ==> (tick + 1) / 256 == tick / 256);
        assert((tick + 1) % 256 == 0 ==> (tick + 1) / 256 == tick / 256 + 1);
    } else if level == 2 {
        assert((tick + 1) % 16_384 != 0 ==> (tick + 1) / 16_384 == tick / 16_384);
        assert((tick + 1) % 16_384 == 0 ==> (tick + 1) / 16_384 == tick / 16_384 + 1);
    } else {
        assert((tick + 1) % 1_048_576 != 0 ==> (tick + 1) / 1_048_576 == tick / 1_048_576);
        assert((tick + 1) % 1_048_576 == 0 ==> (tick + 1) / 1_048_576 == tick / 1_048_576 + 1);
    }
}

/// Two numbers less than 64 apart with the same residue modulo 64 are equal.
proof fn lemma_same_residue(q: int, c: int)
    requires
        q % 64 == c % 64,
        c <= q < c + 64,
    ensures
        q == c,
{
    assert(q == 64 * (q / 64) + q % 64);
    assert(c == 64 * (c / 64) + c % 64);
}

/// What the bucket that is up at `tick` held one tick earlier falls due
/// within the span that begins at `tick`.
proof fn lemma_bucket_up(level: int, slot: int, deadline: int, tick: int)
    requires
        0 <= level < 4,
        tick >= 1,
        tick % resolution(level) == 0,
        slot == slot_for(level, tick),
        placed_at(level, slot, deadline, tick - 1),
    ensures
        tick <= deadline < tick + resolution(level),
{
    if level == 0 {
        assert(tick / 1 == tick && deadline / 1 == deadline && (tick - 1) / 1 == tick - 1);
    } else if level == 1 {
        assert((tick - 1) / 256 == tick / 256 - 1);
        lemma_same_residue(deadline / 256, tick / 256);
    } else if level == 2 {
        assert((tick - 1) / 16_384 == tick / 16_384 - 1);
        lemma_same_residue(deadline / 16_384, tick / 16_384);
    } else {
        assert((tick - 1) / 1_048_576 == tick / 1_048_576 - 1);
        lemma_same_residue(deadline / 1_048_576, tick / 1_048_576);
    }
}

/// The entries of a vector in the opposite order.
pub(crate) fn reversed(entries: Vec<TimerEntry>) -> (turned: Vec<TimerEntry>)
    ensures
        turned@.len() == entries@.len(),
        forall|i: int| 0 <= i < turned@.len() ==> turned@[i] == entries@[entries@.len() - 1 - i],
{
    let mut rest = entries;
    let mut turned: Vec<TimerEntry> = Vec::new();
    while rest.len() > 0
        invariant
            rest@.len() + turned@.len() == entries@.len(),
            forall|i: int| 0 <= i < rest@.len() ==> rest@[i] == entries@[i],
            forall|i: int|
                0 <= i < turned@.len() ==> turned@[i] == entries@[entries@.len() - 1 - i],
        decreases rest@.len(),
    {
        match rest.pop() {
            Some(entry) => turned.push(entry),
            None => {},
        }
    }
    turned
}

/// The keys from position `from` on.
spec fn keys_from(keys: Seq<u64>, from: int) -> Set<u64> {
    Set::new(|k: u64| exists|m: int| from <= m < keys.len() && keys[m] == k)
}

/// An instant past the overflow horizon of `tick` is at least the overflow
/// threshold ahead, counted in ticks.
proof fn lemma_beyond_horizon(start: u64, tick: u64, key: u64)
    requires
        start + tick * 1_000_000 <= u64::MAX,
        key > start + tick * 1_000_000 + 67_108_864 * 1_000_000,
    ensures
        deadline_tick(start, key) - tick >= 67_108_864,
{
}

/// Firing `first` and then `second` is firing the two in a row.
pub proof fn lemma_fires_chain(
    a: WheelView,
    b: WheelView,
    c: WheelView,
    first: Seq<TimerEntry>,
    second: Seq<TimerEntry>,
)
    requires
        a.fires(b, first),
        b.fires(c, second),
    ensures
        a.fires(c, first + second),
{
    let both = first + second;
    assert(c.expired =~= a.expired + both);
    assert forall|i: int| 0 <= i < both.len() implies a.pending.contains_key(
        #[trigger] both[i].id,
    ) && a.pending[both[i].id] == both[i] by {
        if i < first.len() {
            assert(both[i] == first[i]);
        } else {
            assert(both[i] == second[i - first.len()]);
            assert(b.pending.contains_key(second[i - first.len()].id));
        }
    }
    assert forall|id: u64| #[trigger]
        c.pending.contains_key(id) <==> a.pending.contains_key(id) && !seq_holds(both, id) by {
        assert(b.pending.contains_key(id) <==> a.pending.contains_key(id) && !seq_holds(
            first,
            id,
        ));
        if seq_holds(both, id) {
            let i = choose|i: int| 0 <= i < both.len() && both[i].id == id;
            if i < first.len() {
                assert(first[i].id == id);
            } else {
                assert(second[i - first.len()].id == id);
            }
        }
        if seq_holds(first, id) {
            let i = choose|i: int| 0 <= i < first.len() && first[i].id == id;
            assert(both[i].id == id);
        }
        if seq_holds(second, id) {
            let i = choose|i: int| 0 <= i < second.len() && second[i].id == id;
            assert(both[i + first.len()].id == id);
        }
    }
    assert forall|id: u64| #[trigger] c.pending.contains_key(id) implies c.pending[id]
        == a.pending[id] by {
        assert(b.pending.contains_key(id));
    }
}

impl WheelView {
    /// Whether an instant is due at the wheel's current tick.
    pub open spec fn is_due(self, expires_at: u64) -> bool {
        deadline_tick(self.start, expires_at) <= self.tick
    }

    /// Whether some expired timer has this id.
    pub open spec fn expired_has(self, id: u64) -> bool {
        exists|i: int| 0 <= i < self.expired.len() && self.expired[i].id == id
    }

    /// Whether the wheel holds a timer with this id, pending or expired.
    pub open spec fn holds(self, id: u64) -> bool {
        self.pending.contains_key(id) || self.expired_has(id)
    }

    /// Number of timers held, pending and expired.
    pub open spec fn len(self) -> nat {
        self.pending.len() + self.expired.len()
    }

    /// The wheel after a timer was put in: a timer that is already due joins
    /// the expired ones at the end, any other becomes pending.
    pub open spec fn put(self, entry: TimerEntry) -> WheelView {
        if self.is_due(entry.expires_at) {
            WheelView { expired: self.expired.push(entry), ..self }
        } else {
            WheelView { pending: self.pending.insert(entry.id, entry), ..self }
        }
    }

    /// Index of the first expired timer with this id.
    pub open spec fn expired_position(self, id: u64) -> int {
        choose|i: int|
            0 <= i < self.expired.len() && self.expired[i].id == id && (forall|j: int|
                0 <= j < i ==> self.expired[j].id != id)
    }

    /// The wheel after the timer with this id was taken out: a pending timer
    /// simply leaves; an expired one is replaced by the last expired timer.
    pub open spec fn take(self, id: u64) -> WheelView {
        if self.pending.contains_key(id) {
            WheelView { pending: self.pending.remove(id), ..self }
        } else if self.expired_has(id) {
            let pos = self.expired_position(id);
            WheelView {
                expired: self.expired.update(pos, self.expired.last()).drop_last(),
                ..self
            }
        } else {
            self
        }
    }

    /// `post` is this wheel after the pending timers `fired` were moved, in
    /// this order, to the end of the expired ones; nothing else differs.
    pub open spec fn fires(self, post: WheelView, fired: Seq<TimerEntry>) -> bool {
        &&& post.start == self.start
        &&& post.next_id == self.next_id
        &&& post.expired == self.expired + fired
        &&& forall|i: int|
            0 <= i < fired.len() ==> self.pending.contains_key(#[trigger] fired[i].id)
                && self.pending[fired[i].id] == fired[i]
        &&& forall|id: u64| #[trigger]
            post.pending.contains_key(id) <==> self.pending.contains_key(id) && !seq_holds(
                fired,
                id,
            )
        &&& forall|id: u64| #[trigger]
            post.pending.contains_key(id) ==> post.pending[id] == self.pending[id]
    }

    /// Tick at which an entry falls due on this wheel.
    pub open spec fn deadline(self, e: TimerEntry) -> int {
        deadline_tick(self.start, e.expires_at)
    }

    /// `post` is this wheel after time went on to `post.tick`: exactly the
    /// pending timers that fall due by then have joined the expired ones, in
    /// the order of their deadlines, and the others are pending as before.
    pub open spec fn advanced(self, post: WheelView) -> bool {
        let n = self.expired.len() as int;
        &&& post.start == self.start
        &&& post.next_id == self.next_id
        &&& post.tick >= self.tick
        &&& post.expired.len() >= n
        &&& post.expired.subrange(0, n) == self.expired
        &&& forall|i: int|
            n <= i < post.expired.len() ==> {
                let e = #[trigger] post.expired[i];
                &&& self.pending.contains_key(e.id)
                &&& self.pending[e.id] == e
                &&& self.tick < self.deadline(e) <= post.tick
            }
        &&& forall|i: int, j: int|
            n <= i < j < post.expired.len() ==> self.deadline(#[trigger] post.expired[i])
                <= self.deadline(#[trigger] post.expired[j]) && post.expired[i].id
                != post.expired[j].id
        &&& forall|id: u64| #[trigger]
            post.pending.contains_key(id) <==> self.pending.contains_key(id) && self.deadline(
                self.pending[id],
            ) > post.tick
        &&& forall|id: u64| #[trigger]
            post.pending.contains_key(id) ==> post.pending[id] == self.pending[id]
        &&& forall|id: u64| #[trigger]
            self.pending.contains_key(id) && self.deadline(self.pending[id]) <= post.tick
                ==> seq_holds(post.expired.subrange(n, post.expired.len() as int), id)
    }
}

impl View for TimingWheel {
    type V = WheelView;

    closed spec fn view(&self) -> WheelView {
        WheelView {
            start: self.start_time,
            tick: self.current_tick,
            next_id: self.next_id,
            pending: self.live@,
            expired: self.expired@,
        }
    }
}

impl TimingWheel {
    /// The entries of one bucket.
    spec fn bucket(&self, level: int, slot: int) -> Seq<TimerEntry> {
        self.slots@[bucket_base(level) + slot]@
    }

    /// Tick at which an entry falls due.
    spec fn deadline_of(&self, e: TimerEntry) -> int {
        deadline_tick(self.start_time, e.expires_at)
    }

    /// An entry in a bucket is pending, indexed at its place, and placed as
    /// its deadline demands.
    spec fn stored_ok(
        &self,
        stage: int,
        detached: Set<u64>,
        level: int,
        slot: int,
        i: int,
    ) -> bool {
        let e = self.bucket(level, slot)[i];
        &&& !detached.contains(e.id)
        &&& self.live@.contains_key(e.id)
        &&& self.live@[e.id] == e
        &&& index_entries(self.index).contains_key(e.id)
        &&& index_entries(self.index)[e.id].level == level
        &&& index_entries(self.index)[e.id].slot == slot
        &&& index_entries(self.index)[e.id].index_in_slot == i
        &&& placed(level, slot, self.deadline_of(e), self.current_tick as int, stage)
    }

    /// An entry in the overflow map is filed under its instant, pending,
    /// indexed as overflow, and the threshold or more ahead; under a key in
    /// `loose` it may be one tick short of that.
    spec fn overflow_ok(&self, loose: Set<u64>, detached: Set<u64>, k: u64, j: int) -> bool {
        let e = self.overflow@[k]@[j];
        &&& !detached.contains(e.id)
        &&& e.expires_at == k
        &&& self.live@.contains_key(e.id)
        &&& self.live@[e.id] == e
        &&& index_entries(self.index).contains_key(e.id)
        &&& index_entries(self.index)[e.id].level == OVERFLOW_LEVEL
        &&& self.deadline_of(e) - self.current_tick >= 67_108_864 - (if loose.contains(k) {
            1int
        } else {
            0int
        })
    }

    /// Whether the overflow map has an entry with this id.
    spec fn in_overflow(&self, id: u64) -> bool {
        exists|k: u64, j: int|
            self.overflow@.contains_key(k) && 0 <= j < self.overflow@[k]@.len()
                && #[trigger] self.overflow@[k]@[j].id == id
    }

    /// The index leads to an entry with this id.
    spec fn indexed_ok(&self, id: u64) -> bool {
        let loc = index_entries(self.index)[id];
        if loc.level == OVERFLOW_LEVEL {
            self.in_overflow(id)
        } else {
            &&& loc.level < 4
            &&& loc.slot < slot_count(loc.level as int)
            &&& loc.index_in_slot < self.bucket(loc.level as int, loc.slot as int).len()
            &&& self.bucket(loc.level as int, loc.slot as int)[loc.index_in_slot as int].id == id
        }
    }

    /// An expired entry is due, has an id that was handed out, and is not
    /// pending.
    spec fn expired_ok(&self, i: int) -> bool {
        let e = self.expired@[i];
        &&& self.deadline_of(e) <= self.current_tick
        &&& e.id < self.next_id
        &&& !self.live@.contains_key(e.id)
    }

    /// The table of buckets is complete, the wheel's time is an instant, and
    /// the index names exactly the pending timers.
    spec fn shape_ok(&self) -> bool {
        &&& self.slots@.len() == 448
        &&& self.start_time + self.current_tick * 1_000_000 <= u64::MAX
        &&& self.live@.dom().finite()
        &&& index_entries(self.index).dom() == self.live@.dom()
        &&& forall|id: u64| #[trigger] self.live@.contains_key(id) ==> id < self.next_id
    }

    /// Every entry in a bucket is in order.
    spec fn buckets_ok(&self, stage: int, detached: Set<u64>) -> bool {
        forall|level: int, slot: int, i: int|
            0 <= level < 4 && 0 <= slot < slot_count(level) && 0 <= i < self.bucket(
                level,
                slot,
            ).len() ==> #[trigger] self.stored_ok(stage, detached, level, slot, i)
    }

    /// Every entry in the overflow map is in order, and no two share an id.
    spec fn overflow_all_ok(&self, loose: Set<u64>, detached: Set<u64>) -> bool {
        &&& forall|k: u64, j: int|
            self.overflow@.contains_key(k) && 0 <= j < self.overflow@[k]@.len()
                ==> #[trigger] self.overflow_ok(loose, detached, k, j)
        &&& forall|k1: u64, j1: int, k2: u64, j2: int|
            self.overflow@.contains_key(k1) && 0 <= j1 < self.overflow@[k1]@.len()
                && self.overflow@.contains_key(k2) && 0 <= j2 < self.overflow@[k2]@.len() && (k1
                != k2 || j1 != j2) ==> #[trigger] self.overflow@[k1]@[j1].id
                != #[trigger] self.overflow@[k2]@[j2].id
    }

    /// Every pending timer that is not detached is found through the index.
    spec fn live_indexed(&self, detached: Set<u64>) -> bool {
        forall|id: u64|
            self.live@.contains_key(id) && !detached.contains(id) ==> #[trigger] self.indexed_ok(
                id,
            )
    }

    /// Every expired entry is in order, and no two share an id.
    spec fn expired_all_ok(&self) -> bool {
        &&& forall|i: int| 0 <= i < self.expired@.len() ==> #[trigger] self.expired_ok(i)
        &&& forall|i: int, j: int|
            0 <= i < j < self.expired@.len() ==> self.expired@[i].id != self.expired@[j].id
    }

    /// The invariant in the middle of an operation. `stage` and `loose` say
    /// how far the current tick has been worked off; `detached` are the ids
    /// of timers that were taken out of their bucket and not yet put back.
    spec fn wf_gen(&self, stage: int, loose: Set<u64>, detached: Set<u64>) -> bool {
        &&& self.shape_ok()
        &&& self.buckets_ok(stage, detached)
        &&& self.overflow_all_ok(loose, detached)
        &&& self.live_indexed(detached)
        &&& self.expired_all_ok()
    }

    /// Level at which the index has the pending timer with this id; 255 for
    /// the overflow map.
    pub closed spec fn level(&self, id: u64) -> int {
        index_entries(self.index)[id].level as int
    }

    /// The wheel's invariant: every pending timer sits in exactly one place,
    /// the index knows that place, the place fits the timer's deadline, and
    /// no id is held twice.
    pub closed spec fn wf(&self) -> bool {
        self.wf_gen(4, Set::empty(), Set::empty())
    }

    /// Creates a wheel that starts at `start_time`, at tick 0 and without
    /// timers.
    pub fn new_at(start_time: u64) -> (wheel: Self)
        ensures
            wheel.wf(),
            wheel@ == (WheelView {
                start: start_time,
                tick: 0,
                next_id: 0,
                pending: Map::empty(),
                expired: Seq::empty(),
            }),
    {
        let mut slots: Vec<Vec<TimerEntry>> = Vec::new();
        let mut b: usize = 0;
        while b < TOTAL_SLOTS
            invariant
                b <= TOTAL_SLOTS,
                slots@.len() == b,
                forall|c: int| 0 <= c < b ==> (#[trigger] slots@[c])@.len() == 0,
            decreases TOTAL_SLOTS - b,
        {
            slots.push(Vec::new());
            b = b + 1;
        }
        let wheel = TimingWheel {
            current_tick: 0,
            start_time,
            next_id: 0,
            index: index_new(),
            expired: Vec::new(),
            slots,
            overflow: BTreeMap::new(),
            live: Ghost(Map::empty()),
        };
        proof {
            assert(wheel.live@.dom() =~= Set::<u64>::empty());
            assert(index_entries(wheel.index).dom() =~= wheel.live@.dom());
        }
        wheel
    }

    /// Position of a bucket in the table of buckets.
    fn bucket_index(level: u8, slot: usize) -> (b: usize)
        requires
            level < 4,
            slot < slot_count(level as int),
        ensures
            b == bucket_base(level as int) + slot,
            b < TOTAL_SLOTS,
    {
        if level == 0 {
            slot
        } else if level == 1 {
            LEVEL_0_SLOTS + slot
        } else if level == 2 {
            LEVEL_0_SLOTS + UPPER_LEVEL_SLOTS + slot
        } else {
            LEVEL_0_SLOTS + 2 * UPPER_LEVEL_SLOTS + slot
        }
    }

    /// Appends an entry to a bucket and records where it went.
    fn insert_at_level(
        &mut self,
        entry: TimerEntry,
        level: u8,
        slot: usize,
        Ghost(stage): Ghost<int>,
        Ghost(loose): Ghost<Set<u64>>,
        Ghost(detached): Ghost<Set<u64>>,
    )
        requires
            old(self).wf_gen(stage, loose, detached),
            level < 4,
            level < stage,
            slot < slot_count(level as int),
            !old(self).live@.contains_key(entry.id),
            !detached.contains(entry.id),
            entry.id < old(self).next_id,
            forall|i: int|
                0 <= i < old(self).expired@.len() ==> old(self).expired@[i].id != entry.id,
            placed_at(
                level as int,
                slot as int,
                old(self).deadline_of(entry),
                old(self).current_tick as int,
            ),
        ensures
            final(self).wf_gen(stage, loose, detached),
            final(self)@ == (WheelView {
                pending: old(self)@.pending.insert(entry.id, entry),
                ..old(self)@
            }),
            final(self).level(entry.id) == level,
    {
        let ghost pre = *self;
        let id = entry.id;
        let b = Self::bucket_index(level, slot);
        let index_in_slot = self.slots[b].len();
        self.slots[b].push(entry);
        let _ = index_insert(&mut self.index, id, TimerLocation { level, slot, index_in_slot });
        proof {
            self.live = Ghost(self.live@.insert(id, entry));
            assert(self.slots@[b as int]@ == pre.slots@[b as int]@.push(entry));
            assert(forall|c: int| 0 <= c < 448 && c != b ==> self.slots@[c] == pre.slots@[c]);
            assert(index_entries(self.index).dom() =~= self.live@.dom());
            assert forall|l: int, s: int, i: int|
                0 <= l < 4 && 0 <= s < slot_count(l) && 0 <= i < self.bucket(
                    l,
                    s,
                ).len() implies #[trigger] self.stored_ok(stage, detached, l, s, i) by {
                if l == level && s == slot {
                    if i != index_in_slot {
                        assert(pre.stored_ok(stage, detached, l, s, i));
                    }
                } else {
                    assert(bucket_base(l) + s != b);
                    assert(pre.stored_ok(stage, detached, l, s, i));
                }
            }
            assert forall|k: u64, j: int|
                self.overflow@.contains_key(k) && 0 <= j < self.overflow@[k]@.len()
                    implies #[trigger] self.overflow_ok(loose, detached, k, j) by {
                assert(pre.overflow_ok(loose, detached, k, j));
            }
            assert forall|other: u64|
                self.live@.contains_key(other) && !detached.contains(
                    other,
                ) implies #[trigger] self.indexed_ok(other) by {
                if other != id {
                    assert(pre.indexed_ok(other));
                    let loc = index_entries(pre.index)[other];
                    if loc.level == OVERFLOW_LEVEL {
                        let (k, j) = choose|k: u64, j: int|
                            pre.overflow@.contains_key(k) && 0 <= j < pre.overflow@[k]@.len()
                                && #[trigger] pre.overflow@[k]@[j].id == other;
                        assert(self.overflow@[k]@[j].id == other);
                    }
                }
            }
            assert forall|i: int| 0 <= i < self.expired@.len() implies #[trigger] self.expired_ok(
                i,
            ) by {
                assert(pre.expired_ok(i));
            }
            assert(self@.pending =~= pre@.pending.insert(id, entry));
        }
    }

    /// Tick at which an instant falls due; `None` for an instant before the
    /// wheel's start.
    fn deadline_ms(&self, expires_at: u64) -> (ms: Option<u64>)
        ensures
            ms is None <==> expires_at < self.start_time,
            ms is Some ==> ms->0 == deadline_tick(self.start_time, expires_at),
    {
        if expires_at < self.start_time {
            None
        } else {
            Some((expires_at - self.start_time) / NANOS_PER_MS)
        }
    }

    /// Appends an entry to the overflow map under its instant.
    fn insert_overflow(
        &mut self,
        entry: TimerEntry,
        Ghost(stage): Ghost<int>,
        Ghost(loose): Ghost<Set<u64>>,
        Ghost(detached): Ghost<Set<u64>>,
    )
        requires
            old(self).wf_gen(stage, loose, detached),
            !old(self).live@.contains_key(entry.id),
            !detached.contains(entry.id),
            entry.id < old(self).next_id,
            forall|i: int|
                0 <= i < old(self).expired@.len() ==> old(self).expired@[i].id != entry.id,
            old(self).deadline_of(entry) - old(self).current_tick >= 67_108_864,
        ensures
            final(self).wf_gen(stage, loose, detached),
            final(self)@ == (WheelView {
                pending: old(self)@.pending.insert(entry.id, entry),
                ..old(self)@
            }),
            final(self).level(entry.id) == OVERFLOW_LEVEL,
    {
        let ghost pre = *self;
        let id = entry.id;
        let key = entry.expires_at;
        let mut entries = match self.overflow.remove(&key) {
            Some(held) => held,
            None => Vec::new(),
        };
        let ghost before = entries@;
        let index_in_slot = entries.len();
        entries.push(entry);
        let _ = self.overflow.insert(key, entries);
        let _ = index_insert(
            &mut self.index,
            id,
            TimerLocation { level: OVERFLOW_LEVEL, slot: 0, index_in_slot },
        );
        proof {
            self.live = Ghost(self.live@.insert(id, entry));
            assert(self.overflow@ == pre.overflow@.remove(key).insert(key, entries));
            assert(self.overflow@.dom() =~= pre.overflow@.dom().insert(key));
            assert(pre.overflow@.contains_key(key) ==> before == pre.overflow@[key]@);
            assert(!pre.overflow@.contains_key(key) ==> before.len() == 0);
            assert(index_entries(self.index).dom() =~= self.live@.dom());
            assert forall|l: int, s: int, i: int|
                0 <= l < 4 && 0 <= s < slot_count(l) && 0 <= i < self.bucket(
                    l,
                    s,
                ).len() implies #[trigger] self.stored_ok(stage, detached, l, s, i) by {
                assert(pre.stored_ok(stage, detached, l, s, i));
            }
            assert forall|k: u64, j: int|
                self.overflow@.contains_key(k) && 0 <= j < self.overflow@[k]@.len()
                    implies #[trigger] self.overflow_ok(loose, detached, k, j) by {
                if k == key {
                    if j < before.len() {
                        assert(pre.overflow_ok(loose, detached, k, j));
                    }
                } else {
                    assert(pre.overflow_ok(loose, detached, k, j));
                }
            }
            assert forall|k1: u64, j1: int, k2: u64, j2: int|
                self.overflow@.contains_key(k1) && 0 <= j1 < self.overflow@[k1]@.len()
                    && self.overflow@.contains_key(k2) && 0 <= j2 < self.overflow@[k2]@.len() && (
                k1 != k2 || j1 != j2) implies #[trigger] self.overflow@[k1]@[j1].id
                != #[trigger] self.overflow@[k2]@[j2].id by {
                let new1 = k1 == key && j1 == before.len();
                let new2 = k2 == key && j2 == before.len();
                if !new1 {
                    assert(pre.overflow_ok(loose, detached, k1, j1));
                    assert(self.overflow@[k1]@[j1] == pre.overflow@[k1]@[j1]);
                }
                if !new2 {
                    assert(pre.overflow_ok(loose, detached, k2, j2));
                    assert(self.overflow@[k2]@[j2] == pre.overflow@[k2]@[j2]);
                }
            }
            assert forall|other: u64|
                self.live@.contains_key(other) && !detached.contains(
                    other,
                ) implies #[trigger] self.indexed_ok(other) by {
                if other != id {
                    assert(pre.indexed_ok(other));
                    let loc = index_entries(pre.index)[other];
                    if loc.level == OVERFLOW_LEVEL {
                        let (k, j) = choose|k: u64, j: int|
                            pre.overflow@.contains_key(k) && 0 <= j < pre.overflow@[k]@.len()
                                && #[trigger] pre.overflow@[k]@[j].id == other;
                        assert(self.overflow@.contains_key(k));
                        assert(self.overflow@[k]@[j].id == other);
                    }
                } else {
                    assert(self.overflow@.contains_key(key));
                    assert(self.overflow@[key]@[before.len() as int].id == id);
                }
            }
            assert forall|i: int| 0 <= i < self.expired@.len() implies #[trigger] self.expired_ok(
                i,
            ) by {
                assert(pre.expired_ok(i));
            }
            assert(self@.pending =~= pre@.pending.insert(id, entry));
        }
    }

    /// Puts an entry where its deadline belongs: with the expired timers if
    /// it is already due, else into the bucket of the level that its distance
    /// picks, else into the overflow map.
    fn insert_entry(
        &mut self,
        entry: TimerEntry,
        Ghost(stage): Ghost<int>,
        Ghost(loose): Ghost<Set<u64>>,
        Ghost(detached): Ghost<Set<u64>>,
    )
        requires
            old(self).wf_gen(stage, loose, detached),
            !old(self).live@.contains_key(entry.id),
            !detached.contains(entry.id),
            entry.id < old(self).next_id,
            forall|i: int|
                0 <= i < old(self).expired@.len() ==> old(self).expired@[i].id != entry.id,
            old(self)@.is_due(entry.expires_at) || level_for(
                old(self).deadline_of(entry) - old(self).current_tick,
            ) < stage || level_for(old(self).deadline_of(entry) - old(self).current_tick) == 255,
        ensures
            final(self).wf_gen(stage, loose, detached),
            final(self)@ == old(self)@.put(entry),
            !old(self)@.is_due(entry.expires_at) ==> final(self).level(entry.id) == level_for(
                old(self).deadline_of(entry) - old(self).current_tick,
            ),
    {
        let deadline_ms = match self.deadline_ms(entry.expires_at) {
            Some(ms) => ms,
            None => {
                self.expire_now(entry, Ghost(stage), Ghost(loose), Ghost(detached));
                return ;
            },
        };
        if deadline_ms <= self.current_tick {
            self.expire_now(entry, Ghost(stage), Ghost(loose), Ghost(detached));
            return ;
        }
        let ticks_until_expiry = deadline_ms - self.current_tick;
        proof {
            if ticks_until_expiry < OVERFLOW_THRESHOLD_MS {
                lemma_fresh_placement(deadline_ms as int, self.current_tick as int);
            }
        }
        if ticks_until_expiry < LEVEL_1_RESOLUTION_MS {
            let slot = (deadline_ms % (LEVEL_0_SLOTS as u64)) as usize;
            assert(slot == slot_for(0, deadline_ms as int)) by {
                assert(deadline_ms as int / 1 == deadline_ms as int);
            }
            self.insert_at_level(entry, 0, slot, Ghost(stage), Ghost(loose), Ghost(detached));
        } else if ticks_until_expiry < LEVEL_2_RESOLUTION_MS {
            let slot = ((deadline_ms / LEVEL_1_RESOLUTION_MS) % (UPPER_LEVEL_SLOTS as u64))
                as usize;
            self.insert_at_level(entry, 1, slot, Ghost(stage), Ghost(loose), Ghost(detached));
        } else if ticks_until_expiry < LEVEL_3_RESOLUTION_MS {
            let slot = ((deadline_ms / LEVEL_2_RESOLUTION_MS) % (UPPER_LEVEL_SLOTS as u64))
                as usize;
            self.insert_at_level(entry, 2, slot, Ghost(stage), Ghost(loose), Ghost(detached));
        } else if ticks_until_expiry < OVERFLOW_THRESHOLD_MS {
            let slot = ((deadline_ms / LEVEL_3_RESOLUTION_MS) % (UPPER_LEVEL_SLOTS as u64))
                as usize;
            self.insert_at_level(entry, 3, slot, Ghost(stage), Ghost(loose), Ghost(detached));
        } else {
            self.insert_overflow(entry, Ghost(stage), Ghost(loose), Ghost(detached));
        }
    }

    /// Appends an entry that is already due to the expired timers.
    fn expire_now(
        &mut self,
        entry: TimerEntry,
        Ghost(stage): Ghost<int>,
        Ghost(loose): Ghost<Set<u64>>,
        Ghost(detached): Ghost<Set<u64>>,
    )
        requires
            old(self).wf_gen(stage, loose, detached),
            old(self)@.is_due(entry.expires_at),
            !old(self).live@.contains_key(entry.id),
            !detached.contains(entry.id),
            entry.id < old(self).next_id,
            forall|i: int|
                0 <= i < old(self).expired@.len() ==> old(self).expired@[i].id != entry.id,
        ensures
            final(self).wf_gen(stage, loose, detached),
            final(self)@ == (WheelView {
                expired: old(self)@.expired.push(entry),
                ..old(self)@
            }),
    {
        let ghost pre = *self;
        self.expired.push(entry);
        proof {
            assert forall|l: int, s: int, i: int|
                0 <= l < 4 && 0 <= s < slot_count(l) && 0 <= i < self.bucket(
                    l,
                    s,
                ).len() implies #[trigger] self.stored_ok(stage, detached, l, s, i) by {
                assert(pre.stored_ok(stage, detached, l, s, i));
            }
            assert forall|k: u64, j: int|
                self.overflow@.contains_key(k) && 0 <= j < self.overflow@[k]@.len()
                    implies #[trigger] self.overflow_ok(loose, detached, k, j) by {
                assert(pre.overflow_ok(loose, detached, k, j));
            }
            assert forall|other: u64|
                self.live@.contains_key(other) && !detached.contains(
                    other,
                ) implies #[trigger] self.indexed_ok(other) by {
                assert(pre.indexed_ok(other));
                let loc = index_entries(pre.index)[other];
                if loc.level == OVERFLOW_LEVEL {
                    let (k, j) = choose|k: u64, j: int|
                        pre.overflow@.contains_key(k) && 0 <= j < pre.overflow@[k]@.len()
                            && #[trigger] pre.overflow@[k]@[j].id == other;
                    assert(self.overflow@[k]@[j].id == other);
                }
            }
            assert forall|i: int| 0 <= i < self.expired@.len() implies #[trigger] self.expired_ok(
                i,
            ) by {
                if i < pre.expired@.len() {
                    assert(pre.expired_ok(i));
                }
            }
        }
    }

    /// A wheel that differs from a well-formed one only in a larger
    /// `next_id` is well-formed.
    proof fn lemma_frame(
        pre: TimingWheel,
        post: TimingWheel,
        stage: int,
        loose: Set<u64>,
        detached: Set<u64>,
    )
        requires
            pre.wf_gen(stage, loose, detached),
            post.current_tick == pre.current_tick,
            post.start_time == pre.start_time,
            post.index == pre.index,
            post.slots == pre.slots,
            post.overflow@ == pre.overflow@,
            post.live == pre.live,
            post.expired == pre.expired,
            post.next_id >= pre.next_id,
        ensures
            post.wf_gen(stage, loose, detached),
    {
        assert forall|l: int, s: int, i: int|
            0 <= l < 4 && 0 <= s < slot_count(l) && 0 <= i < post.bucket(
                l,
                s,
            ).len() implies #[trigger] post.stored_ok(stage, detached, l, s, i) by {
            assert(pre.stored_ok(stage, detached, l, s, i));
        }
        assert forall|k: u64, j: int|
            post.overflow@.contains_key(k) && 0 <= j < post.overflow@[k]@.len()
                implies #[trigger] post.overflow_ok(loose, detached, k, j) by {
            assert(pre.overflow_ok(loose, detached, k, j));
        }
        assert forall|other: u64|
            post.live@.contains_key(other) && !detached.contains(
                other,
            ) implies #[trigger] post.indexed_ok(other) by {
            assert(pre.indexed_ok(other));
            let loc = index_entries(pre.index)[other];
            if loc.level == OVERFLOW_LEVEL {
                let (k, j) = choose|k: u64, j: int|
                    pre.overflow@.contains_key(k) && 0 <= j < pre.overflow@[k]@.len()
                        && #[trigger] pre.overflow@[k]@[j].id == other;
                assert(post.overflow@[k]@[j].id == other);
            }
        }
        assert forall|i: int| 0 <= i < post.expired@.len() implies #[trigger] post.expired_ok(
            i,
        ) by {
            assert(pre.expired_ok(i));
        }
    }

    /// Inserts a timer that falls due at `expires_at` and returns its id.
    ///
    /// A timer whose instant is already due joins the expired timers at
    /// once; any other becomes pending.
    pub fn insert(&mut self, expires_at: u64, waker: Waker) -> (id: u64)
        requires
            old(self).wf(),
            old(self)@.next_id < u64::MAX,
        ensures
            final(self).wf(),
            id == old(self)@.next_id,
            final(self)@ == (WheelView { next_id: (id + 1) as u64, ..old(self)@ }).put(
                TimerEntry { id, expires_at, waker },
            ),
            !old(self)@.is_due(expires_at) ==> final(self).level(id) == level_for(
                deadline_tick(old(self)@.start, expires_at) - old(self)@.tick,
            ),
    {
        let ghost pre = *self;
        let id = self.next_id;
        self.next_id = self.next_id + 1;
        let entry = TimerEntry { id, expires_at, waker };
        proof {
            Self::lemma_frame(pre, *self, 4, Set::empty(), Set::empty());
            assert forall|i: int| 0 <= i < self.expired@.len() implies self.expired@[i].id
                != id by {
                assert(pre.expired_ok(i));
            }
        }
        self.insert_entry(entry, Ghost(4), Ghost(Set::empty()), Ghost(Set::empty()));
        id
    }

    /// Inserts a timer under an id that the caller chose. The next id that
    /// `insert` hands out is moved past it.
    pub fn insert_with_id(&mut self, id: u64, expires_at: u64, waker: Waker)
        requires
            old(self).wf(),
            id < u64::MAX,
            !old(self)@.holds(id),
        ensures
            final(self).wf(),
            final(self)@ == (WheelView {
                next_id: if id >= old(self)@.next_id {
                    (id + 1) as u64
                } else {
                    old(self)@.next_id
                },
                ..old(self)@
            }).put(TimerEntry { id, expires_at, waker }),
            !old(self)@.is_due(expires_at) ==> final(self).level(id) == level_for(
                deadline_tick(old(self)@.start, expires_at) - old(self)@.tick,
            ),
    {
        let ghost pre = *self;
        let entry = TimerEntry { id, expires_at, waker };
        if id >= self.next_id {
            self.next_id = id + 1;
        }
        proof {
            Self::lemma_frame(pre, *self, 4, Set::empty(), Set::empty());
        }
        self.insert_entry(entry, Ghost(4), Ghost(Set::empty()), Ghost(Set::empty()));
    }

    /// Instant that the wheel has been advanced to.
    pub fn current_time(&self) -> (now: u64)
        requires
            self.wf(),
        ensures
            now == self@.start + self@.tick * 1_000_000,
    {
        self.start_time + self.current_tick * NANOS_PER_MS
    }

    /// Number of timers in the wheel, the expired ones that were not drained
    /// included.
    pub fn len(&self) -> (n: usize)
        requires
            self.wf(),
        ensures
            n == if self@.len() <= usize::MAX {
                self@.len()
            } else {
                usize::MAX as nat
            },
    {
        index_len(&self.index).saturating_add(self.expired.len())
    }

    /// Id that the next `insert` hands out.
    pub fn next_id(&self) -> (id: u64)
        ensures
            id == self@.next_id,
    {
        self.next_id
    }

    /// Whether the wheel holds a timer with this id, pending or expired.
    pub fn holds(&self, id: u64) -> (held: bool)
        requires
            self.wf(),
        ensures
            held == self@.holds(id),
    {
        match index_get(&self.index, id) {
            Some(_) => true,
            None => match position_of(&self.expired, id) {
                Some(pos) => {
                    proof {
                        assert(self@.expired[pos as int].id == id);
                    }
                    true
                },
                None => false,
            },
        }
    }

    /// Whether the wheel holds no timer, pending or expired.
    pub fn is_empty(&self) -> (empty: bool)
        requires
            self.wf(),
        ensures
            empty == (self@.len() == 0),
    {
        index_is_empty(&self.index) && self.expired.is_empty()
    }

    /// Takes the entry at a location out of its bucket. The last entry of the
    /// bucket moves into the gap, and the index is told so.
    fn remove_at_location(&mut self, location: TimerLocation, Ghost(id): Ghost<u64>)
        requires
            old(self).wf(),
            old(self).live@.contains_key(id),
            index_entries(old(self).index)[id] == location,
            location.level != OVERFLOW_LEVEL,
        ensures
            final(self).wf(),
            final(self)@ == (WheelView { pending: old(self)@.pending.remove(id), ..old(self)@ }),
    {
        let ghost pre = *self;
        proof {
            assert(pre.indexed_ok(id));
        }
        if location.level >= 4 {
            return ;
        }
        let b = Self::bucket_index(location.level, location.slot);
        if location.index_in_slot >= self.slots[b].len() {
            return ;
        }
        let removed = self.slots[b].swap_remove(location.index_in_slot);
        let swapped = if location.index_in_slot < self.slots[b].len() {
            Some(self.slots[b][location.index_in_slot].id)
        } else {
            None
        };
        let ghost level = location.level as int;
        let ghost slot = location.slot as int;
        let ghost at = location.index_in_slot as int;
        let ghost last = pre.bucket(level, slot).len() - 1;
        proof {
            assert(pre.stored_ok(4, Set::empty(), level, slot, at));
            assert(pre.stored_ok(4, Set::empty(), level, slot, last));
            assert(removed.id == id);
        }
        if let Some(swapped_id) = swapped {
            if let Some(loc) = index_get(&self.index, swapped_id) {
                let _ = index_insert(
                    &mut self.index,
                    swapped_id,
                    TimerLocation { index_in_slot: location.index_in_slot, ..loc },
                );
            }
        }
        let _ = index_remove(&mut self.index, removed.id);
        proof {
            self.live = Ghost(self.live@.remove(id));
            assert(forall|c: int| 0 <= c < 448 && c != b ==> self.slots@[c] == pre.slots@[c]);
            assert(index_entries(self.index).dom() =~= self.live@.dom());
            assert forall|l: int, s: int, i: int|
                0 <= l < 4 && 0 <= s < slot_count(l) && 0 <= i < self.bucket(
                    l,
                    s,
                ).len() implies #[trigger] self.stored_ok(4, Set::empty(), l, s, i) by {
                if l == level && s == slot {
                    if i == at {
                        assert(pre.stored_ok(4, Set::empty(), l, s, last));
                    } else {
                        assert(pre.stored_ok(4, Set::empty(), l, s, i));
                    }
                } else {
                    assert(bucket_base(l) + s != b);
                    assert(pre.stored_ok(4, Set::empty(), l, s, i));
                }
            }
            assert forall|k: u64, j: int|
                self.overflow@.contains_key(k) && 0 <= j < self.overflow@[k]@.len()
                    implies #[trigger] self.overflow_ok(Set::empty(), Set::empty(), k, j) by {
                assert(pre.overflow_ok(Set::empty(), Set::empty(), k, j));
            }
            assert forall|other: u64| self.live@.contains_key(other) implies #[trigger] self.indexed_ok(
                other,
            ) by {
                assert(pre.indexed_ok(other));
                let loc = index_entries(pre.index)[other];
                if loc.level == OVERFLOW_LEVEL {
                    let (k, j) = choose|k: u64, j: int|
                        pre.overflow@.contains_key(k) && 0 <= j < pre.overflow@[k]@.len()
                            && #[trigger] pre.overflow@[k]@[j].id == other;
                    assert(pre.overflow_ok(Set::empty(), Set::empty(), k, j));
                    assert(self.overflow@[k]@[j].id == other);
                } else {
                    assert(pre.stored_ok(
                        4,
                        Set::empty(),
                        loc.level as int,
                        loc.slot as int,
                        loc.index_in_slot as int,
                    ));
                    if loc.level == level && loc.slot == slot && loc.index_in_slot == last {
                        assert(self.bucket(level, slot)[at].id == other);
                    }
                }
            }
            assert forall|i: int| 0 <= i < self.expired@.len() implies #[trigger] self.expired_ok(
                i,
            ) by {
                assert(pre.expired_ok(i));
            }
            assert(self@.pending =~= pre@.pending.remove(id));
        }
    }

    /// Takes the entry with the given id out of the overflow map, searching
    /// the lists of the map in the order of their keys.
    fn remove_from_overflow(&mut self, id: u64)
        requires
            old(self).wf(),
            old(self).live@.contains_key(id),
            index_entries(old(self).index)[id].level == OVERFLOW_LEVEL,
        ensures
            final(self).wf(),
            final(self)@ == (WheelView { pending: old(self)@.pending.remove(id), ..old(self)@ }),
    {
        let ghost pre = *self;
        let keys = overflow_keys_up_to(&self.overflow, u64::MAX);
        let mut n: usize = 0;
        while n < keys.len()
            invariant
                *self == pre,
                pre == *old(self),
                pre.wf(),
                pre.live@.contains_key(id),
                index_entries(pre.index)[id].level == OVERFLOW_LEVEL,
                n <= keys@.len(),
                forall|k: u64| keys@.contains(k) <==> pre.overflow@.contains_key(k),
                forall|m: int, j: int|
                    0 <= m < n && pre.overflow@.contains_key(keys@[m]) && 0 <= j
                        < pre.overflow@[keys@[m]]@.len()
                        ==> #[trigger] pre.overflow@[keys@[m]]@[j].id != id,
            decreases keys@.len() - n,
        {
            let key = keys[n];
            assert(keys@.contains(key));
            let found = match self.overflow.get(&key) {
                Some(entries) => position_of(entries, id),
                None => None,
            };
            if let Some(pos) = found {
                let mut entries = match self.overflow.remove(&key) {
                    Some(held) => held,
                    None => Vec::new(),
                };
                let ghost before = entries@;
                let removed = entries.swap_remove(pos);
                let _ = self.overflow.insert(key, entries);
                let _ = index_remove(&mut self.index, id);
                proof {
                    self.live = Ghost(self.live@.remove(id));
                    assert(before == pre.overflow@[key]@);
                    assert(self.overflow@.dom() =~= pre.overflow@.dom());
                    assert(index_entries(self.index).dom() =~= self.live@.dom());
                    let last = before.len() - 1;
                    assert forall|l: int, s: int, i: int|
                        0 <= l < 4 && 0 <= s < slot_count(l) && 0 <= i < self.bucket(
                            l,
                            s,
                        ).len() implies #[trigger] self.stored_ok(4, Set::empty(), l, s, i) by {
                        assert(pre.stored_ok(4, Set::empty(), l, s, i));
                    }
                    assert forall|k: u64, j: int|
                        self.overflow@.contains_key(k) && 0 <= j < self.overflow@[k]@.len()
                            implies #[trigger] self.overflow_ok(Set::empty(), Set::empty(), k, j) by {
                        if k == key {
                            if j == pos {
                                assert(pre.overflow_ok(Set::empty(), Set::empty(), k, last));
                                assert(pre.overflow@[k]@[last].id != pre.overflow@[k]@[pos as int].id);
                            } else {
                                assert(pre.overflow_ok(Set::empty(), Set::empty(), k, j));
                                assert(pre.overflow@[k]@[j].id != pre.overflow@[k]@[pos as int].id);
                            }
                        } else {
                            assert(pre.overflow_ok(Set::empty(), Set::empty(), k, j));
                            assert(pre.overflow@[k]@[j].id != pre.overflow@[key]@[pos as int].id);
                        }
                    }
                    assert forall|k1: u64, j1: int, k2: u64, j2: int|
                        self.overflow@.contains_key(k1) && 0 <= j1 < self.overflow@[k1]@.len()
                            && self.overflow@.contains_key(k2) && 0 <= j2
                            < self.overflow@[k2]@.len() && (k1 != k2 || j1
                            != j2) implies #[trigger] self.overflow@[k1]@[j1].id
                        != #[trigger] self.overflow@[k2]@[j2].id by {
                        let o1 = if k1 == key && j1 == pos {
                            last
                        } else {
                            j1
                        };
                        let o2 = if k2 == key && j2 == pos {
                            last
                        } else {
                            j2
                        };
                        assert(self.overflow@[k1]@[j1] == pre.overflow@[k1]@[o1]);
                        assert(self.overflow@[k2]@[j2] == pre.overflow@[k2]@[o2]);
                        assert(pre.overflow@[k1]@[o1].id != pre.overflow@[k2]@[o2].id);
                    }
                    assert forall|other: u64|
                        self.live@.contains_key(other) implies #[trigger] self.indexed_ok(
                        other,
                    ) by {
                        assert(pre.indexed_ok(other));
                        let loc = index_entries(pre.index)[other];
                        if loc.level == OVERFLOW_LEVEL {
                            let (k, j) = choose|k: u64, j: int|
                                pre.overflow@.contains_key(k) && 0 <= j < pre.overflow@[k]@.len()
                                    && #[trigger] pre.overflow@[k]@[j].id == other;
                            if k == key && j == last {
                                assert(self.overflow@[k]@[pos as int].id == other);
                            } else {
                                assert(pre.overflow@[k]@[j].id != pre.overflow@[key]@[pos as int].id);
                                assert(self.overflow@[k]@[j].id == other);
                            }
                        } else {
                            assert(pre.stored_ok(
                                4,
                                Set::empty(),
                                loc.level as int,
                                loc.slot as int,
                                loc.index_in_slot as int,
                            ));
                        }
                    }
                    assert forall|i: int|
                        0 <= i < self.expired@.len() implies #[trigger] self.expired_ok(i) by {
                        assert(pre.expired_ok(i));
                    }
                    assert(self@.pending =~= pre@.pending.remove(id));
                }
                return ;
            }
            n = n + 1;
        }
        proof {
            assert(pre.indexed_ok(id));
            let (k, j) = choose|k: u64, j: int|
                pre.overflow@.contains_key(k) && 0 <= j < pre.overflow@[k]@.len()
                    && #[trigger] pre.overflow@[k]@[j].id == id;
            assert(keys@.contains(k));
            let m = choose|m: int| 0 <= m < keys@.len() && keys@[m] == k;
            assert(pre.overflow@[keys@[m]]@[j].id != id);
        }
    }

    /// Removes the timer with the given id, whether it is pending or has
    /// expired and was not drained. Says whether there was one.
    pub fn remove(&mut self, id: u64) -> (found: bool)
        requires
            old(self).wf(),
        ensures
            final(self).wf(),
            found == old(self)@.holds(id),
            final(self)@ == old(self)@.take(id),
    {
        let ghost pre = *self;
        if let Some(location) = index_get(&self.index, id) {
            if location.level == OVERFLOW_LEVEL {
                self.remove_from_overflow(id);
            } else {
                self.remove_at_location(location, Ghost(id));
            }
            true
        } else {
            if let Some(pos) = position_of(&self.expired, id) {
                let _ = self.expired.swap_remove(pos);
                proof {
                    assert(pre@.expired[pos as int].id == id);
                    assert(pre@.expired_has(id));
                    let chosen = pre@.expired_position(id);
                    assert(chosen == pos);
                    Self::lemma_expired_shrunk(pre, *self, pos as int);
                }
                true
            } else {
                false
            }
        }
    }

    /// Dropping one expired timer by swap-remove keeps the wheel well-formed.
    proof fn lemma_expired_shrunk(pre: TimingWheel, post: TimingWheel, pos: int)
        requires
            pre.wf(),
            0 <= pos < pre.expired@.len(),
            post.expired@ == pre.expired@.update(pos, pre.expired@.last()).drop_last(),
            post.current_tick == pre.current_tick,
            post.start_time == pre.start_time,
            post.index == pre.index,
            post.slots == pre.slots,
            post.overflow == pre.overflow,
            post.live == pre.live,
            post.next_id == pre.next_id,
        ensures
            post.wf(),
    {
        let last = pre.expired@.len() - 1;
        assert forall|l: int, s: int, i: int|
            0 <= l < 4 && 0 <= s < slot_count(l) && 0 <= i < post.bucket(
                l,
                s,
            ).len() implies #[trigger] post.stored_ok(4, Set::empty(), l, s, i) by {
            assert(pre.stored_ok(4, Set::empty(), l, s, i));
        }
        assert forall|k: u64, j: int|
            post.overflow@.contains_key(k) && 0 <= j < post.overflow@[k]@.len()
                implies #[trigger] post.overflow_ok(Set::empty(), Set::empty(), k, j) by {
            assert(pre.overflow_ok(Set::empty(), Set::empty(), k, j));
        }
        assert forall|other: u64| post.live@.contains_key(other) implies #[trigger] post.indexed_ok(
            other,
        ) by {
            assert(pre.indexed_ok(other));
            let loc = index_entries(pre.index)[other];
            if loc.level == OVERFLOW_LEVEL {
                let (k, j) = choose|k: u64, j: int|
                    pre.overflow@.contains_key(k) && 0 <= j < pre.overflow@[k]@.len()
                        && #[trigger] pre.overflow@[k]@[j].id == other;
                assert(post.overflow@[k]@[j].id == other);
            }
        }
        assert forall|i: int| 0 <= i < post.expired@.len() implies #[trigger] post.expired_ok(
            i,
        ) by {
            if i == pos {
                assert(pre.expired_ok(last));
            } else {
                assert(pre.expired_ok(i));
            }
        }
        assert forall|i: int, j: int| 0 <= i < j < post.expired@.len() implies post.expired@[i].id
            != post.expired@[j].id by {
            let oi = if i == pos {
                last
            } else {
                i
            };
            let oj = if j == pos {
                last
            } else {
                j
            };
            assert(post.expired@[i] == pre.expired@[oi]);
            assert(post.expired@[j] == pre.expired@[oj]);
        }
    }

    /// What must hold of a timer that was taken out of its bucket before it
    /// is put back: it still counts as pending, and its deadline sends it to
    /// the expired timers, to a level that is already worked off, or to the
    /// overflow map.
    spec fn detached_ok(&self, e: TimerEntry, stage: int) -> bool {
        &&& self.live@.contains_key(e.id)
        &&& self.live@[e.id] == e
        &&& (self.deadline_of(e) <= self.current_tick || level_for(
            self.deadline_of(e) - self.current_tick,
        ) < stage || level_for(self.deadline_of(e) - self.current_tick) == 255)
    }

    /// Dropping a detached timer from the index and from the pending timers
    /// keeps the invariant, with that timer no longer detached.
    proof fn lemma_forget(
        pre: TimingWheel,
        post: TimingWheel,
        stage: int,
        loose: Set<u64>,
        before: Set<u64>,
        after: Set<u64>,
        id: u64,
    )
        requires
            pre.wf_gen(stage, loose, before),
            before.contains(id),
            forall|other: u64| after.contains(other) <==> before.contains(other) && other != id,
            index_entries(post.index) == index_entries(pre.index).remove(id),
            post.live@ == pre.live@.remove(id),
            post.current_tick == pre.current_tick,
            post.start_time == pre.start_time,
            post.slots == pre.slots,
            post.overflow == pre.overflow,
            post.expired == pre.expired,
            post.next_id == pre.next_id,
        ensures
            post.wf_gen(stage, loose, after),
    {
        assert(index_entries(post.index).dom() =~= post.live@.dom());
        assert forall|l: int, s: int, i: int|
            0 <= l < 4 && 0 <= s < slot_count(l) && 0 <= i < post.bucket(
                l,
                s,
            ).len() implies #[trigger] post.stored_ok(stage, after, l, s, i) by {
            assert(pre.stored_ok(stage, before, l, s, i));
        }
        assert forall|k: u64, j: int|
            post.overflow@.contains_key(k) && 0 <= j < post.overflow@[k]@.len()
                implies #[trigger] post.overflow_ok(loose, after, k, j) by {
            assert(pre.overflow_ok(loose, before, k, j));
        }
        assert forall|other: u64|
            post.live@.contains_key(other) && !after.contains(
                other,
            ) implies #[trigger] post.indexed_ok(other) by {
            assert(pre.indexed_ok(other));
            let loc = index_entries(pre.index)[other];
            if loc.level == OVERFLOW_LEVEL {
                let (k, j) = choose|k: u64, j: int|
                    pre.overflow@.contains_key(k) && 0 <= j < pre.overflow@[k]@.len()
                        && #[trigger] pre.overflow@[k]@[j].id == other;
                assert(post.overflow@[k]@[j].id == other);
            }
        }
        assert forall|i: int| 0 <= i < post.expired@.len() implies #[trigger] post.expired_ok(
            i,
        ) by {
            assert(pre.expired_ok(i));
        }
    }

    /// Puts back, one by one from the end of `stack`, timers that were taken
    /// out of their place. Returns those that turned out to be due.
    fn reinsert_all(
        &mut self,
        stack: Vec<TimerEntry>,
        Ghost(stage): Ghost<int>,
        Ghost(loose): Ghost<Set<u64>>,
    ) -> (fired: Ghost<Seq<TimerEntry>>)
        requires
            old(self).wf_gen(stage, loose, ids_of(stack@)),
            forall|m: int, n: int| 0 <= m < n < stack@.len() ==> stack@[m].id != stack@[n].id,
            forall|m: int| 0 <= m < stack@.len() ==> old(self).detached_ok(#[trigger] stack@[m], stage),
        ensures
            final(self).wf_gen(stage, loose, Set::empty()),
            final(self)@.tick == old(self)@.tick,
            old(self)@.fires(final(self)@, fired@),
            forall|i: int|
                0 <= i < fired@.len() ==> old(self)@.is_due((#[trigger] fired@[i]).expires_at)
                    && stack@.contains(fired@[i]),
    {
        let ghost pre = *self;
        let ghost all = stack@;
        let mut stack = stack;
        let ghost mut fired: Seq<TimerEntry> = Seq::empty();
        proof {
            assert(pre@.expired + fired =~= pre@.expired);
        }
        while stack.len() > 0
            invariant
                pre == *old(self),
                self.wf_gen(stage, loose, ids_of(stack@)),
                self@.tick == pre@.tick,
                stack@.len() <= all.len(),
                forall|m: int| 0 <= m < stack@.len() ==> stack@[m] == all[m],
                forall|m: int, n: int| 0 <= m < n < all.len() ==> all[m].id != all[n].id,
                forall|m: int| 0 <= m < stack@.len() ==> self.detached_ok(#[trigger] stack@[m], stage),
                pre@.fires(self@, fired),
                forall|i: int|
                    0 <= i < fired.len() ==> pre@.is_due((#[trigger] fired[i]).expires_at)
                        && all.contains(fired[i]),
            decreases stack@.len(),
        {
            let ghost held = stack@;
            let ghost mid = *self;
            let ghost fired_before = fired;
            let entry = stack.pop().unwrap();
            let id = entry.id;
            let ghost top = held.len() - 1;
            proof {
                assert(held[top] == entry);
                assert(all[top] == entry);
                assert(mid.detached_ok(held[top], stage));
                assert(seq_holds(held, id));
                assert forall|m: int| 0 <= m < top implies held[m].id != id by {
                    assert(held[m] == all[m]);
                    assert(all[m].id != all[top].id);
                }
                assert forall|other: u64| ids_of(stack@).contains(other) <==> ids_of(
                    held,
                ).contains(other) && other != id by {
                    if ids_of(stack@).contains(other) {
                        let m = choose|m: int| 0 <= m < stack@.len() && stack@[m].id == other;
                        assert(held[m].id == other);
                    }
                    if ids_of(held).contains(other) && other != id {
                        let m = choose|m: int| 0 <= m < held.len() && held[m].id == other;
                        assert(stack@[m].id == other);
                    }
                }
                assert forall|i: int| 0 <= i < mid.expired@.len() implies mid.expired@[i].id
                    != id by {
                    assert(mid.expired_ok(i));
                }
            }
            let _ = index_remove(&mut self.index, id);
            proof {
                self.live = Ghost(self.live@.remove(id));
                Self::lemma_forget(mid, *self, stage, loose, ids_of(held), ids_of(stack@), id);
            }
            self.insert_entry(entry, Ghost(stage), Ghost(loose), Ghost(ids_of(stack@)));
            proof {
                assert forall|m: int| 0 <= m < stack@.len() implies self.detached_ok(
                    #[trigger] stack@[m],
                    stage,
                ) by {
                    assert(mid.detached_ok(held[m], stage));
                    assert(stack@[m] == held[m]);
                    assert(held[m].id != id);
                }
                if mid@.is_due(entry.expires_at) {
                    fired = fired_before.push(entry);
                    assert(self@.expired =~= pre@.expired + fired);
                    assert(all[top] == entry);
                    assert(mid@.pending.contains_key(id));
                    assert(pre@.pending.contains_key(id) && pre@.pending[id] == entry);
                    assert forall|i: int| 0 <= i < fired.len() implies pre@.pending.contains_key(
                        #[trigger] fired[i].id,
                    ) && pre@.pending[fired[i].id] == fired[i] && pre@.is_due(fired[i].expires_at)
                        && all.contains(fired[i]) by {
                        if i < fired_before.len() {
                            assert(fired[i] == fired_before[i]);
                        }
                    }
                    assert forall|other: u64| #[trigger]
                        self@.pending.contains_key(other) implies self@.pending[other]
                        == pre@.pending[other] by {
                        assert(mid@.pending.contains_key(other));
                    }
                    assert forall|other: u64| #[trigger]
                        self@.pending.contains_key(other) <==> pre@.pending.contains_key(other)
                            && !seq_holds(fired, other) by {
                        assert(mid@.pending.contains_key(other) <==> pre@.pending.contains_key(
                            other,
                        ) && !seq_holds(fired_before, other));
                        if seq_holds(fired, other) && other != id {
                            let i = choose|i: int| 0 <= i < fired.len() && fired[i].id == other;
                            assert(fired_before[i].id == other);
                            assert(seq_holds(fired_before, other));
                        }
                        if seq_holds(fired_before, other) {
                            let i = choose|i: int|
                                0 <= i < fired_before.len() && fired_before[i].id == other;
                            assert(fired[i].id == other);
                        }
                        if other == id {
                            assert(fired[fired_before.len() as int].id == id);
                        }
                    }
                } else {
                    assert(self@.pending =~= mid@.pending);
                    assert(self@ == mid@);
                }
            }
        }
        proof {
            assert forall|other: u64| !ids_of(stack@).contains(other) by {
                assert(!seq_holds(stack@, other));
            }
            assert(ids_of(stack@) =~= Set::empty());
        }
        Ghost(fired)
    }

    /// Takes the whole content of the bucket that is up at the current tick
    /// out of the wheel, to be put back entry by entry.
    fn take_bucket(&mut self, level: u8, slot: usize, Ghost(loose): Ghost<Set<u64>>) -> (taken: Vec<
        TimerEntry,
    >)
        requires
            old(self).wf_gen(level as int, loose, Set::empty()),
            level < 4,
            slot < slot_count(level as int),
            old(self).current_tick >= 1,
            old(self).current_tick as int % resolution(level as int) == 0,
            slot == slot_for(level as int, old(self).current_tick as int),
        ensures
            final(self).wf_gen(level + 1, loose, ids_of(taken@)),
            final(self)@ == old(self)@,
            forall|m: int, n: int| 0 <= m < n < taken@.len() ==> taken@[m].id != taken@[n].id,
            forall|m: int|
                0 <= m < taken@.len() ==> final(self).detached_ok(#[trigger] taken@[m], level + 1),
            forall|m: int|
                0 <= m < taken@.len() ==> final(self).deadline_of(#[trigger] taken@[m])
                    >= old(self).current_tick,
    {
        let ghost pre = *self;
        let b = Self::bucket_index(level, slot);
        let mut taken: Vec<TimerEntry> = Vec::new();
        std::mem::swap(&mut self.slots[b], &mut taken);
        proof {
            let stage = level as int;
            let gone = ids_of(taken@);
            let tick = pre.current_tick as int;
            assert(taken@ == pre.bucket(stage, slot as int));
            assert(forall|c: int| 0 <= c < 448 && c != b ==> self.slots@[c] == pre.slots@[c]);
            assert(self.bucket(stage, slot as int).len() == 0);
            assert forall|m: int| 0 <= m < taken@.len() implies self.detached_ok(
                #[trigger] taken@[m],
                stage + 1,
            ) && self.deadline_of(taken@[m]) >= tick by {
                assert(pre.stored_ok(stage, Set::empty(), stage, slot as int, m));
                lemma_bucket_up(stage, slot as int, pre.deadline_of(taken@[m]), tick);
            }
            assert forall|m: int, n: int| 0 <= m < n < taken@.len() implies taken@[m].id
                != taken@[n].id by {
                assert(pre.stored_ok(stage, Set::empty(), stage, slot as int, m));
                assert(pre.stored_ok(stage, Set::empty(), stage, slot as int, n));
            }
            assert forall|l: int, s: int, i: int|
                0 <= l < 4 && 0 <= s < slot_count(l) && 0 <= i < self.bucket(
                    l,
                    s,
                ).len() implies #[trigger] self.stored_ok(stage + 1, gone, l, s, i) by {
                assert(bucket_base(l) + s != b);
                assert(pre.stored_ok(stage, Set::empty(), l, s, i));
                let e = pre.bucket(l, s)[i];
                if gone.contains(e.id) {
                    let m = choose|m: int| 0 <= m < taken@.len() && taken@[m].id == e.id;
                    assert(pre.stored_ok(stage, Set::empty(), stage, slot as int, m));
                }
            }
            assert forall|k: u64, j: int|
                self.overflow@.contains_key(k) && 0 <= j < self.overflow@[k]@.len()
                    implies #[trigger] self.overflow_ok(loose, gone, k, j) by {
                assert(pre.overflow_ok(loose, Set::empty(), k, j));
                let e = pre.overflow@[k]@[j];
                if gone.contains(e.id) {
                    let m = choose|m: int| 0 <= m < taken@.len() && taken@[m].id == e.id;
                    assert(pre.stored_ok(stage, Set::empty(), stage, slot as int, m));
                }
            }
            assert forall|other: u64|
                self.live@.contains_key(other) && !gone.contains(
                    other,
                ) implies #[trigger] self.indexed_ok(other) by {
                assert(pre.indexed_ok(other));
                let loc = index_entries(pre.index)[other];
                if loc.level == OVERFLOW_LEVEL {
                    let (k, j) = choose|k: u64, j: int|
                        pre.overflow@.contains_key(k) && 0 <= j < pre.overflow@[k]@.len()
                            && #[trigger] pre.overflow@[k]@[j].id == other;
                    assert(self.overflow@[k]@[j].id == other);
                } else if loc.level == level && loc.slot == slot {
                    assert(taken@[loc.index_in_slot as int].id == other);
                    assert(seq_holds(taken@, other));
                }
            }
            assert forall|i: int| 0 <= i < self.expired@.len() implies #[trigger] self.expired_ok(
                i,
            ) by {
                assert(pre.expired_ok(i));
            }
        }
        taken
    }

    /// A level whose bucket does not come up at the current tick needs no
    /// work.
    proof fn lemma_skip_level(&self, level: int, loose: Set<u64>)
        requires
            self.wf_gen(level, loose, Set::empty()),
            0 <= level < 4,
            self.current_tick as int % resolution(level) != 0,
        ensures
            self.wf_gen(level + 1, loose, Set::empty()),
    {
        assert forall|l: int, s: int, i: int|
            0 <= l < 4 && 0 <= s < slot_count(l) && 0 <= i < self.bucket(
                l,
                s,
            ).len() implies #[trigger] self.stored_ok(level + 1, Set::empty(), l, s, i) by {
            assert(self.stored_ok(level, Set::empty(), l, s, i));
        }
    }

    /// Works off the bucket of `level` that is up at the current tick: its
    /// timers are taken out and put where their deadlines now send them.
    /// Returns those that fell due.
    fn cascade_slot(&mut self, level: u8, slot: usize, Ghost(loose): Ghost<Set<u64>>) -> (fired:
        Ghost<Seq<TimerEntry>>)
        requires
            old(self).wf_gen(level as int, loose, Set::empty()),
            level < 4,
            slot < slot_count(level as int),
            old(self).current_tick >= 1,
            old(self).current_tick as int % resolution(level as int) == 0,
            slot == slot_for(level as int, old(self).current_tick as int),
        ensures
            final(self).wf_gen(level + 1, loose, Set::empty()),
            final(self)@.tick == old(self)@.tick,
            old(self)@.fires(final(self)@, fired@),
            forall|i: int|
                0 <= i < fired@.len() ==> deadline_tick(
                    old(self)@.start,
                    (#[trigger] fired@[i]).expires_at,
                ) == old(self)@.tick,
    {
        let taken = self.take_bucket(level, slot, Ghost(loose));
        let ghost mid = *self;
        let stack = reversed(taken);
        proof {
            assert forall|other: u64| ids_of(stack@).contains(other) == ids_of(taken@).contains(
                other,
            ) by {
                if seq_holds(stack@, other) {
                    let m = choose|m: int| 0 <= m < stack@.len() && stack@[m].id == other;
                    assert(taken@[taken@.len() - 1 - m].id == other);
                }
                if seq_holds(taken@, other) {
                    let m = choose|m: int| 0 <= m < taken@.len() && taken@[m].id == other;
                    assert(stack@[stack@.len() - 1 - m].id == other);
                }
            }
            assert(ids_of(stack@) =~= ids_of(taken@));
            assert forall|m: int| 0 <= m < stack@.len() implies mid.detached_ok(
                #[trigger] stack@[m],
                level + 1,
            ) by {
                assert(mid.detached_ok(taken@[taken@.len() - 1 - m], level + 1));
            }
        }
        let fired = self.reinsert_all(stack, Ghost(level as int + 1), Ghost(loose));
        proof {
            assert forall|i: int| 0 <= i < fired@.len() implies deadline_tick(
                mid@.start,
                (#[trigger] fired@[i]).expires_at,
            ) == mid@.tick by {
                assert(stack@.contains(fired@[i]));
                let m = choose|m: int| 0 <= m < stack@.len() && stack@[m] == fired@[i];
                assert(mid.deadline_of(taken@[taken@.len() - 1 - m]) >= mid.current_tick);
            }
        }
        fired
    }

    /// Moves every timer of the level-0 bucket that is up at the current
    /// tick to the expired timers.
    fn expire_slot(&mut self, slot: usize, Ghost(loose): Ghost<Set<u64>>) -> (fired: Ghost<
        Seq<TimerEntry>,
    >)
        requires
            old(self).wf_gen(0, loose, Set::empty()),
            slot < LEVEL_0_SLOTS,
            old(self).current_tick >= 1,
            slot == slot_for(0, old(self).current_tick as int),
        ensures
            final(self).wf_gen(1, loose, Set::empty()),
            final(self)@.tick == old(self)@.tick,
            old(self)@.fires(final(self)@, fired@),
            forall|i: int|
                0 <= i < fired@.len() ==> deadline_tick(
                    old(self)@.start,
                    (#[trigger] fired@[i]).expires_at,
                ) == old(self)@.tick,
    {
        proof {
            assert(old(self).current_tick as int % 1 == 0);
        }
        self.cascade_slot(0, slot, Ghost(loose))
    }

    /// Taking one list out of the overflow map detaches its timers.
    proof fn lemma_overflow_taken(
        pre: TimingWheel,
        post: TimingWheel,
        keys: Seq<u64>,
        n: int,
        taken: Seq<TimerEntry>,
    )
        requires
            pre.wf_gen(4, keys_from(keys, n), Set::empty()),
            0 <= n < keys.len(),
            forall|i: int, j: int| 0 <= i < j < keys.len() ==> keys[i] < keys[j],
            pre.overflow@.contains_key(keys[n]),
            taken == pre.overflow@[keys[n]]@,
            post.overflow@ == pre.overflow@.remove(keys[n]),
            post.current_tick == pre.current_tick,
            post.start_time == pre.start_time,
            post.index == pre.index,
            post.slots == pre.slots,
            post.live == pre.live,
            post.expired == pre.expired,
            post.next_id == pre.next_id,
        ensures
            post.wf_gen(4, keys_from(keys, n + 1), ids_of(taken)),
            forall|m: int, o: int| 0 <= m < o < taken.len() ==> taken[m].id != taken[o].id,
            forall|m: int| 0 <= m < taken.len() ==> post.detached_ok(#[trigger] taken[m], 4),
            forall|m: int|
                0 <= m < taken.len() ==> post.deadline_of(#[trigger] taken[m]) > post.current_tick,
    {
        let key = keys[n];
        let gone = ids_of(taken);
        let before = keys_from(keys, n);
        let after = keys_from(keys, n + 1);
        assert forall|m: int| 0 <= m < taken.len() implies post.detached_ok(
            #[trigger] taken[m],
            4,
        ) && post.deadline_of(taken[m]) > post.current_tick by {
            assert(pre.overflow_ok(before, Set::empty(), key, m));
        }
        assert forall|m: int, o: int| 0 <= m < o < taken.len() implies taken[m].id
            != taken[o].id by {
            assert(pre.overflow@[key]@[m].id != pre.overflow@[key]@[o].id);
        }
        assert forall|l: int, s: int, i: int|
            0 <= l < 4 && 0 <= s < slot_count(l) && 0 <= i < post.bucket(
                l,
                s,
            ).len() implies #[trigger] post.stored_ok(4, gone, l, s, i) by {
            assert(pre.stored_ok(4, Set::empty(), l, s, i));
            let e = pre.bucket(l, s)[i];
            if gone.contains(e.id) {
                let m = choose|m: int| 0 <= m < taken.len() && taken[m].id == e.id;
                assert(pre.overflow_ok(before, Set::empty(), key, m));
            }
        }
        assert forall|k: u64, j: int|
            post.overflow@.contains_key(k) && 0 <= j < post.overflow@[k]@.len()
                implies #[trigger] post.overflow_ok(after, gone, k, j) by {
            assert(pre.overflow_ok(before, Set::empty(), k, j));
            let e = pre.overflow@[k]@[j];
            if gone.contains(e.id) {
                let m = choose|m: int| 0 <= m < taken.len() && taken[m].id == e.id;
                assert(pre.overflow@[k]@[j].id != pre.overflow@[key]@[m].id);
            }
            if before.contains(k) {
                let m = choose|m: int| n <= m < keys.len() && keys[m] == k;
                assert(n + 1 <= m);
                assert(after.contains(k));
            }
            if after.contains(k) {
                let m = choose|m: int| n + 1 <= m < keys.len() && keys[m] == k;
                assert(before.contains(k));
            }
        }
        assert forall|k1: u64, j1: int, k2: u64, j2: int|
            post.overflow@.contains_key(k1) && 0 <= j1 < post.overflow@[k1]@.len()
                && post.overflow@.contains_key(k2) && 0 <= j2 < post.overflow@[k2]@.len() && (k1
                != k2 || j1 != j2) implies #[trigger] post.overflow@[k1]@[j1].id
            != #[trigger] post.overflow@[k2]@[j2].id by {
            assert(pre.overflow@[k1]@[j1].id != pre.overflow@[k2]@[j2].id);
        }
        assert forall|other: u64|
            post.live@.contains_key(other) && !gone.contains(
                other,
            ) implies #[trigger] post.indexed_ok(other) by {
            assert(pre.indexed_ok(other));
            let loc = index_entries(pre.index)[other];
            if loc.level == OVERFLOW_LEVEL {
                let (k, j) = choose|k: u64, j: int|
                    pre.overflow@.contains_key(k) && 0 <= j < pre.overflow@[k]@.len()
                        && #[trigger] pre.overflow@[k]@[j].id == other;
                if k == key {
                    assert(taken[j].id == other);
                    assert(seq_holds(taken, other));
                }
                assert(post.overflow@[k]@[j].id == other);
            }
        }
        assert forall|i: int| 0 <= i < post.expired@.len() implies #[trigger] post.expired_ok(
            i,
        ) by {
            assert(pre.expired_ok(i));
        }
    }

    /// Narrows the set of keys whose timers may be one tick short of the
    /// overflow threshold, where the timers of the removed keys are not.
    proof fn lemma_tighten(&self, wide: Set<u64>, narrow: Set<u64>)
        requires
            self.wf_gen(4, wide, Set::empty()),
            forall|k: u64, j: int|
                #![trigger self.overflow@[k]@[j]]
                self.overflow@.contains_key(k) && 0 <= j < self.overflow@[k]@.len() && wide.contains(
                    k,
                ) && !narrow.contains(k) ==> self.deadline_of(self.overflow@[k]@[j])
                    - self.current_tick >= 67_108_864,
            forall|k: u64| narrow.contains(k) ==> wide.contains(k),
        ensures
            self.wf_gen(4, narrow, Set::empty()),
    {
        assert forall|k: u64, j: int|
            self.overflow@.contains_key(k) && 0 <= j < self.overflow@[k]@.len()
                implies #[trigger] self.overflow_ok(narrow, Set::empty(), k, j) by {
            assert(self.overflow_ok(wide, Set::empty(), k, j));
        }
    }

    /// Moves the timers of the overflow map that have come within the
    /// threshold into the wheel.
    fn check_overflow(&mut self)
        requires
            old(self).wf_gen(4, Set::full(), Set::empty()),
        ensures
            final(self).wf(),
            final(self)@ == old(self)@,
    {
        let ghost pre = *self;
        let now = self.start_time + self.current_tick * NANOS_PER_MS;
        let threshold = now.saturating_add(OVERFLOW_THRESHOLD_MS * NANOS_PER_MS);
        let keys = overflow_keys_up_to(&self.overflow, threshold);
        proof {
            assert forall|k: u64, j: int|
                #![trigger self.overflow@[k]@[j]]
                self.overflow@.contains_key(k) && 0 <= j < self.overflow@[k]@.len()
                    && !keys_from(keys@, 0).contains(k) implies self.deadline_of(
                self.overflow@[k]@[j],
            ) - self.current_tick >= 67_108_864 by {
                assert(self.overflow_ok(Set::full(), Set::empty(), k, j));
                if k <= threshold {
                    assert(keys@.contains(k));
                    let m = choose|m: int| 0 <= m < keys@.len() && keys@[m] == k;
                    assert(keys_from(keys@, 0).contains(k));
                }
                lemma_beyond_horizon(self.start_time, self.current_tick, k);
            }
            self.lemma_tighten(Set::full(), keys_from(keys@, 0));
        }
        if keys.len() == 0 {
            proof {
                assert(keys_from(keys@, 0) =~= Set::empty());
            }
            return ;
        }
        let mut n: usize = 0;
        while n < keys.len()
            invariant
                pre == *old(self),
                n <= keys@.len(),
                forall|i: int, j: int| 0 <= i < j < keys@.len() ==> keys@[i] < keys@[j],
                self.wf_gen(4, keys_from(keys@, n as int), Set::empty()),
                self@ == pre@,
            decreases keys@.len() - n,
        {
            let key = keys[n];
            let ghost before = *self;
            match self.overflow.remove(&key) {
                Some(entries) => {
                    let ghost mid = *self;
                    proof {
                        Self::lemma_overflow_taken(before, mid, keys@, n as int, entries@);
                    }
                    let stack = reversed(entries);
                    proof {
                        assert forall|other: u64| ids_of(stack@).contains(other) == ids_of(
                            entries@,
                        ).contains(other) by {
                            if seq_holds(stack@, other) {
                                let m = choose|m: int|
                                    0 <= m < stack@.len() && stack@[m].id == other;
                                assert(entries@[entries@.len() - 1 - m].id == other);
                            }
                            if seq_holds(entries@, other) {
                                let m = choose|m: int|
                                    0 <= m < entries@.len() && entries@[m].id == other;
                                assert(stack@[stack@.len() - 1 - m].id == other);
                            }
                        }
                        assert(ids_of(stack@) =~= ids_of(entries@));
                        assert forall|m: int| 0 <= m < stack@.len() implies mid.detached_ok(
                            #[trigger] stack@[m],
                            4,
                        ) by {
                            assert(mid.detached_ok(entries@[entries@.len() - 1 - m], 4));
                        }
                    }
                    let fired = self.reinsert_all(
                        stack,
                        Ghost(4),
                        Ghost(keys_from(keys@, n as int + 1)),
                    );
                    proof {
                        if fired@.len() > 0 {
                            assert(stack@.contains(fired@[0]));
                            let m = choose|m: int| 0 <= m < stack@.len() && stack@[m] == fired@[0];
                            assert(mid.deadline_of(entries@[entries@.len() - 1 - m])
                                > mid.current_tick);
                        }
                        assert(self@.expired =~= pre@.expired);
                        assert forall|id: u64| self@.pending.contains_key(id)
                            == pre@.pending.contains_key(id) by {
                            assert(!seq_holds(fired@, id));
                        }
                        assert(self@.pending =~= pre@.pending);
                    }
                },
                None => {
                    proof {
                        assert(self.overflow@ =~= before.overflow@);
                        Self::lemma_frame(
                            before,
                            *self,
                            4,
                            keys_from(keys@, n as int),
                            Set::empty(),
                        );
                        assert forall|k: u64, j: int|
                            #![trigger self.overflow@[k]@[j]]
                            self.overflow@.contains_key(k) && 0 <= j < self.overflow@[k]@.len()
                                && keys_from(keys@, n as int).contains(k) && !keys_from(
                                keys@,
                                n as int + 1,
                            ).contains(k) implies self.deadline_of(self.overflow@[k]@[j])
                            - self.current_tick >= 67_108_864 by {
                            let m = choose|m: int| n <= m < keys@.len() && keys@[m] == k;
                            assert(m != n);
                            assert(keys_from(keys@, n as int + 1).contains(k));
                        }
                        assert forall|k: u64| keys_from(keys@, n as int + 1).contains(
                            k,
                        ) implies keys_from(keys@, n as int).contains(k) by {
                            let m = choose|m: int| n + 1 <= m < keys@.len() && keys@[m] == k;
                            assert(n <= m);
                        }
                        self.lemma_tighten(
                            keys_from(keys@, n as int),
                            keys_from(keys@, n as int + 1),
                        );
                    }
                },
            }
            n = n + 1;
        }
        proof {
            assert(keys_from(keys@, n as int) =~= Set::empty());
        }
    }

    /// No pending timer of a well-formed wheel is due.
    proof fn lemma_pending_ahead(&self, id: u64)
        requires
            self.wf(),
            self.live@.contains_key(id),
        ensures
            self.deadline_of(self.live@[id]) > self.current_tick,
    {
        assert(self.indexed_ok(id));
        let loc = index_entries(self.index)[id];
        if loc.level == OVERFLOW_LEVEL {
            let (k, j) = choose|k: u64, j: int|
                self.overflow@.contains_key(k) && 0 <= j < self.overflow@[k]@.len()
                    && #[trigger] self.overflow@[k]@[j].id == id;
            assert(self.overflow_ok(Set::empty(), Set::empty(), k, j));
        } else {
            assert(self.stored_ok(
                4,
                Set::empty(),
                loc.level as int,
                loc.slot as int,
                loc.index_in_slot as int,
            ));
            let d = self.deadline_of(self.live@[id]);
            let t = self.current_tick as int;
            assert(t / 1 == t && d / 1 == d);
        }
    }

    /// Stepping the tick counter leaves a wheel that is well-formed but for
    /// the work of the new tick.
    proof fn lemma_tick_begun(pre: TimingWheel, post: TimingWheel)
        requires
            pre.wf(),
            post.current_tick == pre.current_tick + 1,
            post.start_time + post.current_tick * 1_000_000 <= u64::MAX,
            post.start_time == pre.start_time,
            post.index == pre.index,
            post.slots == pre.slots,
            post.overflow == pre.overflow,
            post.live == pre.live,
            post.expired == pre.expired,
            post.next_id == pre.next_id,
        ensures
            post.wf_gen(0, Set::full(), Set::empty()),
    {
        assert forall|l: int, s: int, i: int|
            0 <= l < 4 && 0 <= s < slot_count(l) && 0 <= i < post.bucket(
                l,
                s,
            ).len() implies #[trigger] post.stored_ok(0, Set::empty(), l, s, i) by {
            assert(pre.stored_ok(4, Set::empty(), l, s, i));
            lemma_next_tick(l, s, pre.deadline_of(pre.bucket(l, s)[i]), pre.current_tick as int);
        }
        assert forall|k: u64, j: int|
            post.overflow@.contains_key(k) && 0 <= j < post.overflow@[k]@.len()
                implies #[trigger] post.overflow_ok(Set::full(), Set::empty(), k, j) by {
            assert(pre.overflow_ok(Set::empty(), Set::empty(), k, j));
        }
        assert forall|other: u64| post.live@.contains_key(other) implies #[trigger] post.indexed_ok(
            other,
        ) by {
            assert(pre.indexed_ok(other));
            let loc = index_entries(pre.index)[other];
            if loc.level == OVERFLOW_LEVEL {
                let (k, j) = choose|k: u64, j: int|
                    pre.overflow@.contains_key(k) && 0 <= j < pre.overflow@[k]@.len()
                        && #[trigger] pre.overflow@[k]@[j].id == other;
                assert(post.overflow@[k]@[j].id == other);
            }
        }
        assert forall|i: int| 0 <= i < post.expired@.len() implies #[trigger] post.expired_ok(
            i,
        ) by {
            assert(pre.expired_ok(i));
        }
    }

    /// Advances the wheel by one tick. Returns the timers that fell due.
    fn tick(&mut self) -> (fired: Ghost<Seq<TimerEntry>>)
        requires
            old(self).wf(),
            old(self).start_time + (old(self).current_tick + 1) * 1_000_000 <= u64::MAX,
        ensures
            final(self).wf(),
            final(self)@.tick == old(self)@.tick + 1,
            old(self)@.fires(final(self)@, fired@),
            forall|i: int|
                0 <= i < fired@.len() ==> deadline_tick(
                    old(self)@.start,
                    (#[trigger] fired@[i]).expires_at,
                ) == old(self)@.tick + 1,
    {
        let ghost pre = *self;
        self.current_tick = self.current_tick + 1;
        proof {
            Self::lemma_tick_begun(pre, *self);
            assert(self@.expired =~= pre@.expired + Seq::<TimerEntry>::empty());
            assert(pre@.fires(self@, Seq::empty()));
        }
        let ghost begun = self@;
        let ghost all = Set::<u64>::full();
        let tick = self.current_tick;

        let slot_0 = (tick % (LEVEL_0_SLOTS as u64)) as usize;
        proof {
            assert(tick as int / 1 == tick as int);
        }
        let fired_0 = self.expire_slot(slot_0, Ghost(all));
        let ghost after_0 = self@;

        let ghost mut fired_1: Seq<TimerEntry> = Seq::empty();
        if tick % LEVEL_1_RESOLUTION_MS == 0 {
            let slot_1 = ((tick / LEVEL_1_RESOLUTION_MS) % (UPPER_LEVEL_SLOTS as u64)) as usize;
            let moved = self.cascade_slot(1, slot_1, Ghost(all));
            proof {
                fired_1 = moved@;
            }
        } else {
            proof {
                self.lemma_skip_level(1, all);
                assert(self@.expired =~= after_0.expired + fired_1);
            }
        }
        let ghost after_1 = self@;

        let ghost mut fired_2: Seq<TimerEntry> = Seq::empty();
        if tick % LEVEL_2_RESOLUTION_MS == 0 {
            let slot_2 = ((tick / LEVEL_2_RESOLUTION_MS) % (UPPER_LEVEL_SLOTS as u64)) as usize;
            let moved = self.cascade_slot(2, slot_2, Ghost(all));
            proof {
                fired_2 = moved@;
            }
        } else {
            proof {
                self.lemma_skip_level(2, all);
                assert(self@.expired =~= after_1.expired + fired_2);
            }
        }
        let ghost after_2 = self@;

        let ghost mut fired_3: Seq<TimerEntry> = Seq::empty();
        if tick % LEVEL_3_RESOLUTION_MS == 0 {
            let slot_3 = ((tick / LEVEL_3_RESOLUTION_MS) % (UPPER_LEVEL_SLOTS as u64)) as usize;
            let moved = self.cascade_slot(3, slot_3, Ghost(all));
            proof {
                fired_3 = moved@;
            }
        } else {
            proof {
                self.lemma_skip_level(3, all);
                assert(self@.expired =~= after_2.expired + fired_3);
            }
        }
        let ghost after_3 = self@;

        self.check_overflow();
        let ghost fired = fired_0@ + fired_1 + fired_2 + fired_3;
        proof {
            assert(begun.fires(after_0, fired_0@));
            assert(after_0.fires(after_1, fired_1));
            assert(after_1.fires(after_2, fired_2));
            assert(after_2.fires(after_3, fired_3));
            lemma_fires_chain(begun, after_0, after_1, fired_0@, fired_1);
            lemma_fires_chain(begun, after_1, after_2, fired_0@ + fired_1, fired_2);
            lemma_fires_chain(begun, after_2, after_3, fired_0@ + fired_1 + fired_2, fired_3);
            lemma_fires_chain(pre@, begun, after_3, Seq::empty(), fired);
            assert(Seq::<TimerEntry>::empty() + fired =~= fired);
            assert forall|i: int| 0 <= i < fired.len() implies deadline_tick(
                pre@.start,
                (#[trigger] fired[i]).expires_at,
            ) == pre@.tick + 1 by {
                let n0 = fired_0@.len();
                let n1 = n0 + fired_1.len();
                let n2 = n1 + fired_2.len();
                if i < n0 {
                    assert(fired[i] == fired_0@[i]);
                } else if i < n1 {
                    assert(fired[i] == fired_1[i - n0]);
                } else if i < n2 {
                    assert(fired[i] == fired_2[i - n1]);
                } else {
                    assert(fired[i] == fired_3[i - n2]);
                }
            }
        }
        Ghost(fired)
    }

    /// What a run of ticks that fired `fired` amounts to, seen from outside.
    proof fn lemma_advanced(pre: WheelView, post: TimingWheel, fired: Seq<TimerEntry>)
        requires
            post.wf(),
            pre.fires(post@, fired),
            post@.tick >= pre.tick,
            forall|i: int|
                0 <= i < fired.len() ==> pre.tick < pre.deadline(#[trigger] fired[i])
                    <= post@.tick,
            forall|i: int, j: int|
                0 <= i < j < fired.len() ==> pre.deadline(#[trigger] fired[i]) <= pre.deadline(
                    #[trigger] fired[j],
                ),
        ensures
            pre.advanced(post@),
    {
        let n = pre.expired.len() as int;
        let after = post@;
        assert(after.expired.subrange(0, n) =~= pre.expired);
        assert(after.expired.subrange(n, after.expired.len() as int) =~= fired);
        assert forall|i: int| n <= i < after.expired.len() implies {
            let e = #[trigger] after.expired[i];
            &&& pre.pending.contains_key(e.id)
            &&& pre.pending[e.id] == e
            &&& pre.tick < pre.deadline(e) <= after.tick
        } by {
            assert(after.expired[i] == fired[i - n]);
        }
        assert forall|i: int, j: int| n <= i < j < after.expired.len() implies pre.deadline(
            #[trigger] after.expired[i],
        ) <= pre.deadline(#[trigger] after.expired[j]) && after.expired[i].id
            != after.expired[j].id by {
            assert(after.expired[i] == fired[i - n]);
            assert(after.expired[j] == fired[j - n]);
        }
        assert forall|id: u64| #[trigger]
            after.pending.contains_key(id) <==> pre.pending.contains_key(id) && pre.deadline(
                pre.pending[id],
            ) > after.tick by {
            if after.pending.contains_key(id) {
                post.lemma_pending_ahead(id);
            }
            if pre.pending.contains_key(id) && seq_holds(fired, id) {
                let i = choose|i: int| 0 <= i < fired.len() && fired[i].id == id;
                assert(pre.pending[fired[i].id] == fired[i]);
            }
        }
        assert forall|id: u64| #[trigger]
            pre.pending.contains_key(id) && pre.deadline(pre.pending[id])
                <= after.tick implies seq_holds(
            after.expired.subrange(n, after.expired.len() as int),
            id,
        ) by {
            if after.pending.contains_key(id) {
                post.lemma_pending_ahead(id);
            }
            assert(seq_holds(fired, id));
        }
    }

    /// Advances the wheel to the instant `now`, tick by tick. Every pending
    /// timer that falls due by then joins the expired timers, in the order
    /// of the deadlines; use `drain_expired` to collect them. An instant that
    /// the wheel has already passed changes nothing.
    pub fn advance_to(&mut self, now: u64)
        requires
            old(self).wf(),
        ensures
            final(self).wf(),
            old(self)@.advanced(final(self)@),
            final(self)@.tick == if deadline_tick(old(self)@.start, now) > old(self)@.tick {
                deadline_tick(old(self)@.start, now)
            } else {
                old(self)@.tick as int
            },
    {
        let ghost pre = *self;
        let ghost mut fired: Seq<TimerEntry> = Seq::empty();
        proof {
            assert(pre@.expired + fired =~= pre@.expired);
        }
        if now <= self.start_time {
            proof {
                Self::lemma_advanced(pre@, *self, fired);
            }
            return ;
        }
        let target_tick = (now - self.start_time) / NANOS_PER_MS;
        while self.current_tick < target_tick
            invariant
                pre == *old(self),
                self.wf(),
                self.start_time == pre.start_time,
                self.start_time + target_tick * 1_000_000 <= u64::MAX,
                self@.tick >= pre@.tick,
                self@.tick <= target_tick || self@.tick == pre@.tick,
                pre@.fires(self@, fired),
                forall|i: int|
                    0 <= i < fired.len() ==> pre@.tick < pre@.deadline(#[trigger] fired[i])
                        <= self@.tick,
                forall|i: int, j: int|
                    0 <= i < j < fired.len() ==> pre@.deadline(#[trigger] fired[i])
                        <= pre@.deadline(#[trigger] fired[j]),
            decreases target_tick - self.current_tick,
        {
            let ghost before = self@;
            let ghost fired_before = fired;
            let step = self.tick();
            proof {
                fired = fired_before + step@;
                lemma_fires_chain(pre@, before, self@, fired_before, step@);
                assert forall|i: int| 0 <= i < fired.len() implies pre@.tick < pre@.deadline(
                    #[trigger] fired[i],
                ) <= self@.tick by {
                    if i < fired_before.len() {
                        assert(fired[i] == fired_before[i]);
                    } else {
                        assert(fired[i] == step@[i - fired_before.len()]);
                    }
                }
                assert forall|i: int, j: int| 0 <= i < j < fired.len() implies pre@.deadline(
                    #[trigger] fired[i],
                ) <= pre@.deadline(#[trigger] fired[j]) by {
                    if i < fired_before.len() {
                        assert(fired[i] == fired_before[i]);
                    } else {
                        assert(fired[i] == step@[i - fired_before.len()]);
                    }
                    if j < fired_before.len() {
                        assert(fired[j] == fired_before[j]);
                    } else {
                        assert(fired[j] == step@[j - fired_before.len()]);
                    }
                }
            }
        }
        proof {
            assert forall|k: u64, j: int|
                self.overflow@.contains_key(k) && 0 <= j < self.overflow@[k]@.len()
                    implies #[trigger] self.overflow_ok(Set::full(), Set::empty(), k, j) by {
                assert(self.overflow_ok(Set::empty(), Set::empty(), k, j));
            }
        }
        self.check_overflow();
        proof {
            Self::lemma_advanced(pre@, *self, fired);
        }
    }

    /// Hands out the expired timers, oldest first, each as its id and its
    /// waker, and forgets them.
    pub fn drain_expired(&mut self) -> (drained: Vec<(u64, Waker)>)
        requires
            old(self).wf(),
        ensures
            final(self).wf(),
            final(self)@ == (WheelView { expired: Seq::empty(), ..old(self)@ }),
            drained@.len() == old(self)@.expired.len(),
            forall|i: int|
                0 <= i < drained@.len() ==> drained@[i] == (
                    old(self)@.expired[i].id,
                    old(self)@.expired[i].waker,
                ),
    {
        let ghost pre = *self;
        let mut taken: Vec<TimerEntry> = Vec::new();
        std::mem::swap(&mut self.expired, &mut taken);
        proof {
            Self::lemma_frame_expired(pre, *self);
        }
        let mut stack = reversed(taken);
        let mut drained: Vec<(u64, Waker)> = Vec::new();
        while stack.len() > 0
            invariant
                stack@.len() + drained@.len() == pre.expired@.len(),
                forall|i: int|
                    0 <= i < stack@.len() ==> stack@[i] == pre.expired@[pre.expired@.len() - 1 - i],
                forall|i: int|
                    0 <= i < drained@.len() ==> drained@[i] == (
                        pre.expired@[i].id,
                        pre.expired@[i].waker,
                    ),
            decreases stack@.len(),
        {
            let entry = stack.pop().unwrap();
            drained.push((entry.id, entry.waker));
        }
        drained
    }

    /// Forgetting the expired timers keeps the wheel well-formed.
    proof fn lemma_frame_expired(pre: TimingWheel, post: TimingWheel)
        requires
            pre.wf(),
            post.expired@.len() == 0,
            post.current_tick == pre.current_tick,
            post.start_time == pre.start_time,
            post.index == pre.index,
            post.slots == pre.slots,
            post.overflow == pre.overflow,
            post.live == pre.live,
            post.next_id == pre.next_id,
        ensures
            post.wf(),
            post@ == (WheelView { expired: Seq::empty(), ..pre@ }),
    {
        assert forall|l: int, s: int, i: int|
            0 <= l < 4 && 0 <= s < slot_count(l) && 0 <= i < post.bucket(
                l,
                s,
            ).len() implies #[trigger] post.stored_ok(4, Set::empty(), l, s, i) by {
            assert(pre.stored_ok(4, Set::empty(), l, s, i));
        }
        assert forall|k: u64, j: int|
            post.overflow@.contains_key(k) && 0 <= j < post.overflow@[k]@.len()
                implies #[trigger] post.overflow_ok(Set::empty(), Set::empty(), k, j) by {
            assert(pre.overflow_ok(Set::empty(), Set::empty(), k, j));
        }
        assert forall|other: u64| post.live@.contains_key(other) implies #[trigger] post.indexed_ok(
            other,
        ) by {
            assert(pre.indexed_ok(other));
            let loc = index_entries(pre.index)[other];
            if loc.level == OVERFLOW_LEVEL {
                let (k, j) = choose|k: u64, j: int|
                    pre.overflow@.contains_key(k) && 0 <= j < pre.overflow@[k]@.len()
                        && #[trigger] pre.overflow@[k]@[j].id == other;
                assert(post.overflow@[k]@[j].id == other);
            }
        }
        assert(post@.expired =~= Seq::<TimerEntry>::empty());
    }

    /// Level at which the pending timer with this id sits: 0 to 3 for the
    /// levels of the wheel, 255 for the overflow map. `None` where no timer
    /// with this id is pending.
    pub fn level_of(&self, id: u64) -> (level: Option<u8>)
        requires
            self.wf(),
        ensures
            level is Some <==> self@.pending.contains_key(id),
            level is Some ==> level->0 == self.level(id),
    {
        match index_get(&self.index, id) {
            Some(location) => Some(location.level),
            None => None,
        }
    }

    /// No pending timer is due, and every expired timer is: at any moment a
    /// timer that the wheel holds counts as expired exactly if its deadline
    /// has been reached.
    pub proof fn lemma_expired_iff_due(&self)
        requires
            self.wf(),
        ensures
            forall|id: u64| #[trigger]
                self@.pending.contains_key(id) ==> !self@.is_due(self@.pending[id].expires_at),
            forall|i: int|
                0 <= i < self@.expired.len() ==> self@.is_due((#[trigger] self@.expired[i]).expires_at),
    {
        assert forall|id: u64| #[trigger] self@.pending.contains_key(id) implies !self@.is_due(
            self@.pending[id].expires_at,
        ) by {
            self.lemma_pending_ahead(id);
        }
        assert forall|i: int| 0 <= i < self@.expired.len() implies self@.is_due(
            (#[trigger] self@.expired[i]).expires_at,
        ) by {
            assert(self.expired_ok(i));
        }
    }

    /// No id is held twice: the ids of the expired timers differ from each
    /// other and from those of the pending timers, and all are below the id
    /// that comes next.
    pub proof fn lemma_ids_unique(&self)
        requires
            self.wf(),
        ensures
            self@.pending.dom().finite(),
            forall|id: u64| #[trigger] self@.pending.contains_key(id) ==> id < self@.next_id,
            forall|id: u64| #[trigger]
                self@.pending.contains_key(id) ==> self@.pending[id].id == id,
            forall|i: int|
                0 <= i < self@.expired.len() ==> (#[trigger] self@.expired[i]).id < self@.next_id
                    && !self@.pending.contains_key(self@.expired[i].id),
            forall|i: int, j: int|
                0 <= i < j < self@.expired.len() ==> self@.expired[i].id != self@.expired[j].id,
    {
        assert forall|i: int| 0 <= i < self@.expired.len() implies (
        #[trigger] self@.expired[i]).id < self@.next_id && !self@.pending.contains_key(
            self@.expired[i].id,
        ) by {
            assert(self.expired_ok(i));
        }
        assert forall|id: u64| #[trigger] self@.pending.contains_key(id) implies self@.pending[id].id
            == id by {
            assert(self.indexed_ok(id));
            let loc = index_entries(self.index)[id];
            if loc.level == OVERFLOW_LEVEL {
                let (k, j) = choose|k: u64, j: int|
                    self.overflow@.contains_key(k) && 0 <= j < self.overflow@[k]@.len()
                        && #[trigger] self.overflow@[k]@[j].id == id;
                assert(self.overflow_ok(Set::empty(), Set::empty(), k, j));
            } else {
                assert(self.stored_ok(
                    4,
                    Set::empty(),
                    loc.level as int,
                    loc.slot as int,
                    loc.index_in_slot as int,
                ));
            }
        }
    }

    /// A pending timer sits in the overflow map exactly if it is the
    /// overflow threshold or more ahead; otherwise it sits in one of the four
    /// levels, in the bucket of its deadline.
    pub proof fn lemma_level_fits(&self, id: u64)
        requires
            self.wf(),
            self@.pending.contains_key(id),
        ensures
            self.level(id) == 255 <==> self@.deadline(self@.pending[id]) - self@.tick
                >= 67_108_864,
            self.level(id) != 255 ==> 0 <= self.level(id) < 4,
    {
        assert(self.indexed_ok(id));
        let loc = index_entries(self.index)[id];
        if loc.level == OVERFLOW_LEVEL {
            let (k, j) = choose|k: u64, j: int|
                self.overflow@.contains_key(k) && 0 <= j < self.overflow@[k]@.len()
                    && #[trigger] self.overflow@[k]@[j].id == id;
            assert(self.overflow_ok(Set::empty(), Set::empty(), k, j));
        } else {
            assert(self.stored_ok(
                4,
                Set::empty(),
                loc.level as int,
                loc.slot as int,
                loc.index_in_slot as int,
            ));
        }
    }
}

/// Cancelling a timer right after it was inserted under a fresh id gives
/// back the wheel as it was, so the number of timers held is unchanged.
pub proof fn law_insert_then_cancel(wheel: WheelView, entry: TimerEntry)
    requires
        !wheel.holds(entry.id),
    ensures
        wheel.put(entry).holds(entry.id),
        wheel.put(entry).take(entry.id) == wheel,
        wheel.put(entry).take(entry.id).len() == wheel.len(),
{
    let with = wheel.put(entry);
    if wheel.is_due(entry.expires_at) {
        let last = wheel.expired.len() as int;
        assert(with.expired[last].id == entry.id);
        assert(with.expired_has(entry.id));
        assert forall|j: int| 0 <= j < last implies with.expired[j].id != entry.id by {
            assert(with.expired[j] == wheel.expired[j]);
        }
        let pos = with.expired_position(entry.id);
        assert(pos == last);
        assert(with.expired.update(pos, with.expired.last()).drop_last() =~= wheel.expired);
    } else {
        assert(with.pending.remove(entry.id) =~= wheel.pending);
    }
}

/// A cancelled timer does not expire: once taken out, an id is held no more,
/// whatever the wheel is advanced to afterwards.
pub proof fn law_cancelled_stays_out(wheel: WheelView, id: u64, later: WheelView)
    requires
        forall|i: int, j: int|
            0 <= i < j < wheel.expired.len() ==> wheel.expired[i].id != wheel.expired[j].id,
        forall|i: int|
            0 <= i < wheel.expired.len() ==> !wheel.pending.contains_key(
                (#[trigger] wheel.expired[i]).id,
            ),
        forall|other: u64| #[trigger]
            wheel.pending.contains_key(other) ==> wheel.pending[other].id == other,
        wheel.take(id).advanced(later),
    ensures
        !wheel.take(id).holds(id),
        !later.holds(id),
{
    let taken = wheel.take(id);
    if wheel.pending.contains_key(id) {
        assert forall|i: int| 0 <= i < taken.expired.len() implies taken.expired[i].id != id by {}
    } else if wheel.expired_has(id) {
        let pos = wheel.expired_position(id);
        let last = wheel.expired.len() - 1;
        assert forall|i: int| 0 <= i < taken.expired.len() implies taken.expired[i].id != id by {
            if i == pos {
                assert(taken.expired[i] == wheel.expired[last]);
            } else {
                assert(taken.expired[i] == wheel.expired[i]);
            }
        }
    } else {
        assert forall|i: int| 0 <= i < taken.expired.len() implies taken.expired[i].id != id by {
            if taken.expired[i].id == id {
                assert(wheel.expired_has(id));
            }
        }
    }
    assert(!taken.expired_has(id));
    let n = taken.expired.len() as int;
    if later.expired_has(id) {
        let i = choose|i: int| 0 <= i < later.expired.len() && later.expired[i].id == id;
        if i < n {
            assert(later.expired.subrange(0, n)[i] == later.expired[i]);
            assert(taken.expired[i].id == id);
        } else {
            assert(taken.pending.contains_key(later.expired[i].id));
        }
    }
}

/// A pending timer whose deadline has been reached when the wheel is
/// advanced is among the expired timers afterwards, and one whose deadline
/// has not been reached is still pending.
pub proof fn law_expires_iff_due(before: WheelView, after: WheelView, id: u64)
    requires
        before.advanced(after),
        before.pending.contains_key(id),
        before.pending[id].id == id,
    ensures
        before.deadline(before.pending[id]) <= after.tick ==> after.expired_has(id)
            && !after.pending.contains_key(id),
        before.deadline(before.pending[id]) > after.tick ==> after.pending.contains_key(id)
            && after.pending[id] == before.pending[id],
{
    let n = before.expired.len() as int;
    if before.deadline(before.pending[id]) <= after.tick {
        let fired = after.expired.subrange(n, after.expired.len() as int);
        assert(seq_holds(fired, id));
        let i = choose|i: int| 0 <= i < fired.len() && fired[i].id == id;
        assert(after.expired[i + n].id == id);
    }
}
} // verus!
