//! The reactor's bookkeeping.
//!
//! The reactor owns the timers and the wakers that wait on shared channels.
//! Each round it collects the wakers that are due, hands them to its caller
//! to fire, and decides how long the caller may wait for I/O. It fires no
//! waker itself: a woken task may come back to insert or cancel a timer, and
//! finds the reactor free.
use crate::timer::reactor_adapter::ReactorTimers;
use crate::timer::reactor_adapter::TimersView;
use crate::timer::staged_wheel::StagedView;
use crate::timer::timing_wheel::deadline_tick;
use crate::timer::timing_wheel::seq_holds;
use crate::timer::timing_wheel::TimerEntry;
use crate::timer::timer_id::TimerId;
use smallvec::SmallVec;
use std::collections::BTreeMap;
use std::task::Waker;
use vstd::prelude::*;

verus! {

/// A list of wakers in a `smallvec::SmallVec` with room for one waker
/// inline. What the list holds is known only through `listed` and the
/// wrappers below.
#[verifier::external_body]
pub struct WakerList {
    inner: SmallVec<[Waker; 1]>,
}

/// The wakers that a list holds, in their order.
pub uninterp spec fn listed(list: WakerList) -> Seq<Waker>;

/// `SmallVec::new`: the new list holds nothing.
#[verifier::external_body]
fn list_new() -> (fresh: WakerList)
    ensures
        listed(fresh).len() == 0,
{
    WakerList { inner: SmallVec::new() }
}

/// `SmallVec::push`: the waker is appended.
#[verifier::external_body]
fn list_push(list: &mut WakerList, waker: Waker)
    ensures
        listed(*final(list)) == listed(*old(list)).push(waker),
{
    list.inner.push(waker)
}

/// `SmallVec::len`: the number of wakers.
#[verifier::external_body]
fn list_len(list: &WakerList) -> (n: usize)
    ensures
        n == listed(*list).len(),
{
    list.inner.len()
}

/// `SmallVec::drain` over `0..n`, collected: the first `n` wakers leave the
/// list and are returned in their order; the others stay in theirs.
#[verifier::external_body]
fn list_drain_front(list: &mut WakerList, n: usize) -> (taken: Vec<Waker>)
    requires
        n <= listed(*old(list)).len(),
    ensures
        taken@ == listed(*old(list)).subrange(0, n as int),
        listed(*final(list)) == listed(*old(list)).subrange(
            n as int,
            listed(*old(list)).len() as int,
        ),
{
    list.inner.drain(0..n).collect()
}

/// The wakers that wait on one shared channel.
pub struct ChannelWakers {
    pending: WakerList,
    registered: bool,
}

/// `BTreeMap::range` over the whole map, keeping the keys: every key of the
/// map, each once, in increasing order.
#[verifier::external_body]
fn channel_ids(m: &BTreeMap<u64, ChannelWakers>) -> (ids: Vec<u64>)
    ensures
        forall|k: u64| ids@.contains(k) <==> m@.contains_key(k),
        forall|i: int, j: int| 0 <= i < j < ids@.len() ==> ids@[i] < ids@[j],
{
    m.range(..).map(|(k, _)| *k).collect()
}

/// The wakers of the shared channels of one executor.
pub struct SharedChannels {
    id: u64,
    wakers_map: BTreeMap<u64, ChannelWakers>,
    connection_wakers: Vec<Waker>,
}

/// What the wakers of the shared channels are, seen from outside.
pub struct ChannelsView {
    /// Id that the next channel to register gets.
    pub next_id: u64,
    /// The wakers that wait on each channel, oldest first.
    pub pending: Map<u64, Seq<Waker>>,
    /// The channels that were registered; a channel can have wakers without.
    pub registered: Set<u64>,
    /// The wakers that wait for a connection, oldest first.
    pub connection: Seq<Waker>,
}

/// The entries of a sequence in the opposite order.
pub open spec fn reversed<E>(entries: Seq<E>) -> Seq<E> {
    Seq::new(entries.len(), |i: int| entries[entries.len() - 1 - i])
}

/// The smaller of two numbers.
pub open spec fn least(a: int, b: int) -> int {
    if a <= b {
        a
    } else {
        b
    }
}

/// How the reactor waits for I/O at the end of a round.
#[derive(Clone, Copy, Debug, PartialEq, Eq, Structural)]
pub enum Wait {
    /// Look for completions and return at once.
    Poll,
    /// Block until a completion arrives.
    Block,
    /// Block until a completion arrives, but no longer than this many
    /// nanoseconds.
    BlockFor(u64),
}

/// The wait that follows a round which woke `woke` tasks: none if any task
/// was woken; else as long as the caller allows and no longer than the
/// earliest timer is away.
pub open spec fn planned(timeout: Option<u64>, next_timer: Option<u64>, woke: usize) -> Wait {
    if woke > 0 {
        Wait::Poll
    } else {
        match (timeout, next_timer) {
            (None, None) => Wait::Block,
            (Some(t), None) => Wait::BlockFor(t),
            (None, Some(n)) => Wait::BlockFor(n),
            (Some(t), Some(n)) => Wait::BlockFor(
                if t <= n {
                    t
                } else {
                    n
                },
            ),
        }
    }
}

/// Decides how the reactor waits for I/O.
pub fn plan_wait(timeout: Option<u64>, next_timer: Option<u64>, woke: usize) -> (wait: Wait)
    ensures
        wait == planned(timeout, next_timer, woke),
{
    if woke > 0 {
        return Wait::Poll;
    }
    match (timeout, next_timer) {
        (None, None) => Wait::Block,
        (Some(t), None) => Wait::BlockFor(t),
        (None, Some(n)) => Wait::BlockFor(n),
        (Some(t), Some(n)) => if t <= n {
            Wait::BlockFor(t)
        } else {
            Wait::BlockFor(n)
        },
    }
}

/// Whether completions wait in the kernel's ring: its head and its tail
/// differ.
pub fn need_preempt(head: u32, tail: u32) -> (yes: bool)
    ensures
        yes == (head != tail),
{
    head != tail
}

/// The reactor's own state: its timers and the wakers of its channels.
pub struct Reactor {
    timers: ReactorTimers,
    shared_channels: SharedChannels,
}

/// What one round of the reactor found.
pub struct Round {
    /// Time to the earliest timer that is left.
    pub next_timer: Option<u64>,
    /// The wakers of the timers that fell due, oldest first.
    pub timers: Vec<Waker>,
    /// The wakers that waited for a connection, oldest first.
    pub connections: Vec<Waker>,
    /// The channels on which a waker waits, in the order of their ids.
    pub channels: Vec<u64>,
}

/// Whether a timer of the storage falls due in a round at the instant
/// `now`: in a list, when its instant has come; in a wheel, when the wheel's
/// tick has reached its deadline.
pub open spec fn due_in_round(staged: StagedView, now: u64, e: TimerEntry) -> bool {
    if staged.promoted {
        deadline_tick(staged.start, e.expires_at) <= staged.tick || deadline_tick(
            staged.start,
            e.expires_at,
        ) <= deadline_tick(staged.start, now)
    } else {
        e.expires_at <= now
    }
}

impl View for SharedChannels {
    type V = ChannelsView;

    closed spec fn view(&self) -> ChannelsView {
        ChannelsView {
            next_id: self.id,
            pending: Map::new(
                |k: u64| self.wakers_map@.contains_key(k),
                |k: u64| listed(self.wakers_map@[k].pending),
            ),
            registered: Set::new(
                |k: u64| self.wakers_map@.contains_key(k) && self.wakers_map@[k].registered,
            ),
            connection: self.connection_wakers@,
        }
    }
}

impl SharedChannels {
    /// Creates the bookkeeping of an executor without channels.
    pub fn new() -> (channels: Self)
        ensures
            channels@ == (ChannelsView {
                next_id: 0,
                pending: Map::empty(),
                registered: Set::empty(),
                connection: Seq::empty(),
            }),
    {
        let channels = SharedChannels {
            id: 0,
            connection_wakers: Vec::new(),
            wakers_map: BTreeMap::new(),
        };
        proof {
            assert(channels@.pending =~= Map::<u64, Seq<Waker>>::empty());
            assert(channels@.registered =~= Set::<u64>::empty());
        }
        channels
    }

    /// Registers a channel and returns its id. Ids count up from 0.
    ///
    /// The id must be unused: no waker may have been queued under it.
    pub fn register_shared_channel(&mut self) -> (id: u64)
        requires
            old(self)@.next_id < u64::MAX,
            !old(self)@.pending.contains_key(old(self)@.next_id),
        ensures
            id == old(self)@.next_id,
            final(self)@ == (ChannelsView {
                next_id: (id + 1) as u64,
                pending: old(self)@.pending.insert(id, Seq::empty()),
                registered: old(self)@.registered.insert(id),
                ..old(self)@
            }),
    {
        let ghost before = self@;
        let id = self.id;
        self.id = self.id + 1;
        let fresh = list_new();
        proof {
            assert(listed(fresh) =~= Seq::<Waker>::empty());
        }
        let _ = self.wakers_map.insert(id, ChannelWakers { pending: fresh, registered: true });
        proof {
            assert(self@.pending =~= before.pending.insert(id, Seq::empty()));
            assert(self@.registered =~= before.registered.insert(id));
        }
        id
    }

    /// Forgets a channel and the wakers that wait on it.
    pub fn unregister_shared_channel(&mut self, id: u64)
        ensures
            final(self)@ == (ChannelsView {
                pending: old(self)@.pending.remove(id),
                registered: old(self)@.registered.remove(id),
                ..old(self)@
            }),
    {
        let ghost before = self@;
        let _ = self.wakers_map.remove(&id);
        proof {
            assert(self@.pending =~= before.pending.remove(id));
            assert(self@.registered =~= before.registered.remove(id));
        }
    }

    /// Queues a waker that waits for a connection.
    pub fn add_shared_channel_connection_waker(&mut self, waker: Waker)
        ensures
            final(self)@ == (ChannelsView {
                connection: old(self)@.connection.push(waker),
                ..old(self)@
            }),
    {
        let ghost before = self@;
        self.connection_wakers.push(waker);
        proof {
            assert(self@.pending =~= before.pending);
            assert(self@.registered =~= before.registered);
        }
    }

    /// Queues a waker that waits on the channel `id`. A channel that was
    /// not registered gets a queue all the same.
    pub fn add_shared_channel_waker(&mut self, id: u64, waker: Waker)
        ensures
            final(self)@ == (ChannelsView {
                pending: old(self)@.pending.insert(
                    id,
                    if old(self)@.pending.contains_key(id) {
                        old(self)@.pending[id].push(waker)
                    } else {
                        seq![waker]
                    },
                ),
                ..old(self)@
            }),
    {
        let ghost before = self@;
        let mut entry = match self.wakers_map.remove(&id) {
            Some(entry) => entry,
            None => ChannelWakers { pending: list_new(), registered: false },
        };
        let ghost had = listed(entry.pending);
        list_push(&mut entry.pending, waker);
        let _ = self.wakers_map.insert(id, entry);
        proof {
            if !before.pending.contains_key(id) {
                assert(had =~= Seq::<Waker>::empty());
                assert(had.push(waker) =~= seq![waker]);
            }
            assert(self@.pending =~= before.pending.insert(
                id,
                if before.pending.contains_key(id) {
                    before.pending[id].push(waker)
                } else {
                    seq![waker]
                },
            ));
            assert(self@.registered =~= before.registered);
        }
    }

    /// Takes out every waker that waits for a connection, oldest first.
    pub fn take_connection_wakers(&mut self) -> (wakers: Vec<Waker>)
        ensures
            wakers@ == old(self)@.connection,
            final(self)@ == (ChannelsView { connection: Seq::empty(), ..old(self)@ }),
    {
        let ghost before = self@;
        let mut wakers: Vec<Waker> = Vec::new();
        std::mem::swap(&mut self.connection_wakers, &mut wakers);
        proof {
            assert(self@.pending =~= before.pending);
            assert(self@.registered =~= before.registered);
            assert(self@.connection =~= Seq::<Waker>::empty());
        }
        wakers
    }

    /// The channels on which a waker waits, in the order of their ids.
    pub fn pending_channels(&self) -> (ids: Vec<u64>)
        ensures
            forall|k: u64|
                ids@.contains(k) <==> self@.pending.contains_key(k) && self@.pending[k].len() > 0,
            forall|i: int, j: int| 0 <= i < j < ids@.len() ==> ids@[i] < ids@[j],
    {
        let all = channel_ids(&self.wakers_map);
        let mut ids: Vec<u64> = Vec::new();
        let mut n: usize = 0;
        while n < all.len()
            invariant
                n <= all@.len(),
                forall|k: u64| all@.contains(k) <==> self.wakers_map@.contains_key(k),
                forall|i: int, j: int| 0 <= i < j < all@.len() ==> all@[i] < all@[j],
                forall|k: u64|
                    ids@.contains(k) <==> (exists|m: int| 0 <= m < n && all@[m] == k)
                        && self@.pending[k].len() > 0,
                forall|i: int, j: int| 0 <= i < j < ids@.len() ==> ids@[i] < ids@[j],
                forall|i: int| 0 <= i < ids@.len() ==> n > 0 && ids@[i] <= all@[n - 1],
            decreases all@.len() - n,
        {
            let key = all[n];
            let ghost before = ids@;
            assert(all@.contains(key));
            let waiting = match self.wakers_map.get(&key) {
                Some(entry) => list_len(&entry.pending),
                None => 0,
            };
            if waiting > 0 {
                ids.push(key);
            }
            proof {
                assert forall|k: u64|
                    ids@.contains(k) <==> (exists|m: int| 0 <= m < n + 1 && all@[m] == k)
                        && self@.pending[k].len() > 0 by {
                    if ids@.contains(k) {
                        let i = choose|i: int| 0 <= i < ids@.len() && ids@[i] == k;
                        if i < before.len() {
                            assert(before.contains(k));
                            let m = choose|m: int| 0 <= m < n && all@[m] == k;
                            assert(0 <= m < n + 1 && all@[m] == k);
                        } else {
                            assert(all@[n as int] == k);
                        }
                    }
                    if (exists|m: int| 0 <= m < n + 1 && all@[m] == k) && self@.pending[k].len()
                        > 0 {
                        let m = choose|m: int| 0 <= m < n + 1 && all@[m] == k;
                        if m < n {
                            assert(before.contains(k));
                            let i = choose|i: int| 0 <= i < before.len() && before[i] == k;
                            assert(ids@[i] == k);
                        } else {
                            assert(ids@[before.len() as int] == k);
                        }
                    }
                }
                assert forall|i: int, j: int| 0 <= i < j < ids@.len() implies ids@[i]
                    < ids@[j] by {
                    if j == before.len() {
                        assert(before[i] <= all@[n - 1]);
                    }
                }
            }
            n = n + 1;
        }
        proof {
            assert forall|k: u64|
                ids@.contains(k) <==> self@.pending.contains_key(k) && self@.pending[k].len()
                    > 0 by {
                if self@.pending.contains_key(k) {
                    assert(all@.contains(k));
                    let m = choose|m: int| 0 <= m < all@.len() && all@[m] == k;
                    assert(0 <= m < n && all@[m] == k);
                }
                if ids@.contains(k) {
                    let m = choose|m: int| 0 <= m < n && all@[m] == k;
                    assert(all@.contains(k));
                }
            }
        }
        ids
    }

    /// Id that the next channel to register gets.
    pub fn next_id(&self) -> (id: u64)
        ensures
            id == self@.next_id,
    {
        self.id
    }

    /// Whether a queue of wakers exists under the id, registered or not.
    pub fn is_known(&self, id: u64) -> (yes: bool)
        ensures
            yes == self@.pending.contains_key(id),
    {
        self.wakers_map.contains_key(&id)
    }

    /// Number of wakers that wait on the channel `id`.
    pub fn pending_len(&self, id: u64) -> (n: usize)
        ensures
            n == if self@.pending.contains_key(id) {
                self@.pending[id].len()
            } else {
                0
            },
    {
        match self.wakers_map.get(&id) {
            Some(entry) => list_len(&entry.pending),
            None => 0,
        }
    }

    /// Whether the channel `id` was registered.
    pub fn is_registered(&self, id: u64) -> (yes: bool)
        ensures
            yes == self@.registered.contains(id),
    {
        match self.wakers_map.get(&id) {
            Some(entry) => entry.registered,
            None => false,
        }
    }

    /// Takes out the wakers that the channel `id` has room for: of the
    /// oldest `room` wakers, or of all if fewer wait, the youngest comes
    /// first.
    pub fn release_channel(&mut self, id: u64, room: usize) -> (wakers: Vec<Waker>)
        ensures
            old(self)@.pending.contains_key(id) ==> {
                let waiting = old(self)@.pending[id];
                let n = least(room as int, waiting.len() as int);
                &&& wakers@ == reversed(waiting.subrange(0, n))
                &&& final(self)@ == (ChannelsView {
                    pending: old(self)@.pending.insert(
                        id,
                        waiting.subrange(n, waiting.len() as int),
                    ),
                    ..old(self)@
                })
            },
            !old(self)@.pending.contains_key(id) ==> wakers@.len() == 0 && final(self)@
                == old(self)@,
    {
        let ghost before = self@;
        let mut entry = match self.wakers_map.remove(&id) {
            Some(entry) => entry,
            None => {
                proof {
                    assert(self@.pending =~= before.pending);
                    assert(self@.registered =~= before.registered);
                }
                return Vec::new();
            },
        };
        let ghost waiting = listed(entry.pending);
        let waiting_len = list_len(&entry.pending);
        let n = if room < waiting_len {
            room
        } else {
            waiting_len
        };
        let mut taken = list_drain_front(&mut entry.pending, n);
        let _ = self.wakers_map.insert(id, entry);
        let ghost front = taken@;
        let mut wakers: Vec<Waker> = Vec::new();
        while taken.len() > 0
            invariant
                taken@.len() + wakers@.len() == front.len(),
                forall|i: int| 0 <= i < taken@.len() ==> taken@[i] == front[i],
                forall|i: int| 0 <= i < wakers@.len() ==> wakers@[i] == front[front.len() - 1 - i],
            decreases taken@.len(),
        {
            let waker = taken.pop().unwrap();
            wakers.push(waker);
        }
        proof {
            assert(wakers@ =~= reversed(front));
            assert(self@.pending =~= before.pending.insert(
                id,
                waiting.subrange(n as int, waiting.len() as int),
            ));
            assert(self@.registered =~= before.registered);
        }
        wakers
    }

    /// Takes out every waker that waits on the channel `id`, oldest first.
    pub fn process_shared_channels_by_id(&mut self, id: u64) -> (wakers: Vec<Waker>)
        ensures
            old(self)@.pending.contains_key(id) ==> wakers@ == old(self)@.pending[id]
                && final(self)@ == (ChannelsView {
                pending: old(self)@.pending.insert(id, Seq::empty()),
                ..old(self)@
            }),
            !old(self)@.pending.contains_key(id) ==> wakers@.len() == 0 && final(self)@
                == old(self)@,
    {
        let ghost before = self@;
        let mut entry = match self.wakers_map.remove(&id) {
            Some(entry) => entry,
            None => {
                proof {
                    assert(self@.pending =~= before.pending);
                    assert(self@.registered =~= before.registered);
                }
                return Vec::new();
            },
        };
        let ghost waiting = listed(entry.pending);
        let n = list_len(&entry.pending);
        let wakers = list_drain_front(&mut entry.pending, n);
        proof {
            assert(listed(entry.pending) =~= Seq::<Waker>::empty());
        }
        let _ = self.wakers_map.insert(id, entry);
        proof {
            assert(wakers@ =~= waiting);
            assert(self@.pending =~= before.pending.insert(id, Seq::empty()));
            assert(self@.registered =~= before.registered);
        }
        wakers
    }
}

impl Reactor {
    /// The timers.
    pub closed spec fn timers(&self) -> TimersView {
        self.timers@
    }

    /// The wakers of the channels.
    pub closed spec fn channels(&self) -> ChannelsView {
        self.shared_channels@
    }

    /// The invariant of the timers.
    pub closed spec fn wf(&self) -> bool {
        self.timers.wf()
    }

    /// Creates the reactor of an executor whose clock reads `start_time`.
    pub fn new_at(start_time: u64) -> (reactor: Self)
        ensures
            reactor.wf(),
            reactor.channels() == (ChannelsView {
                next_id: 0,
                pending: Map::empty(),
                registered: Set::empty(),
                connection: Seq::empty(),
            }),
            reactor.timers().expiry == Map::<u64, u64>::empty(),
    {
        Reactor {
            timers: ReactorTimers::new_at(start_time),
            shared_channels: SharedChannels::new(),
        }
    }

    /// Storage id that the next timer gets.
    pub fn next_timer_id(&self) -> (id: u64)
        ensures
            id == self.timers().staged.next_id,
    {
        self.timers.next_id()
    }

    /// Id that the next channel to register gets.
    pub fn next_channel_id(&self) -> (id: u64)
        ensures
            id == self.channels().next_id,
    {
        self.shared_channels.next_id()
    }

    /// Whether a queue of wakers exists under the id, registered or not.
    pub fn channel_known(&self, id: u64) -> (yes: bool)
        ensures
            yes == self.channels().pending.contains_key(id),
    {
        self.shared_channels.is_known(id)
    }

    /// Registers a channel and returns its id.
    pub fn register_shared_channel(&mut self) -> (id: u64)
        requires
            old(self).channels().next_id < u64::MAX,
            !old(self).channels().pending.contains_key(old(self).channels().next_id),
        ensures
            id == old(self).channels().next_id,
            final(self).channels() == (ChannelsView {
                next_id: (id + 1) as u64,
                pending: old(self).channels().pending.insert(id, Seq::empty()),
                registered: old(self).channels().registered.insert(id),
                ..old(self).channels()
            }),
            final(self).timers() == old(self).timers(),
            old(self).wf() ==> final(self).wf(),
    {
        self.shared_channels.register_shared_channel()
    }

    /// Forgets a channel and the wakers that wait on it.
    pub fn unregister_shared_channel(&mut self, id: u64)
        ensures
            final(self).channels() == (ChannelsView {
                pending: old(self).channels().pending.remove(id),
                registered: old(self).channels().registered.remove(id),
                ..old(self).channels()
            }),
            final(self).timers() == old(self).timers(),
            old(self).wf() ==> final(self).wf(),
    {
        self.shared_channels.unregister_shared_channel(id)
    }

    /// Queues a waker that waits for a connection.
    pub fn add_shared_channel_connection_waker(&mut self, waker: Waker)
        ensures
            final(self).channels() == (ChannelsView {
                connection: old(self).channels().connection.push(waker),
                ..old(self).channels()
            }),
            final(self).timers() == old(self).timers(),
            old(self).wf() ==> final(self).wf(),
    {
        self.shared_channels.add_shared_channel_connection_waker(waker)
    }

    /// Queues a waker that waits on the channel `id`.
    pub fn add_shared_channel_waker(&mut self, id: u64, waker: Waker)
        ensures
            final(self).channels() == (ChannelsView {
                pending: old(self).channels().pending.insert(
                    id,
                    if old(self).channels().pending.contains_key(id) {
                        old(self).channels().pending[id].push(waker)
                    } else {
                        seq![waker]
                    },
                ),
                ..old(self).channels()
            }),
            final(self).timers() == old(self).timers(),
            old(self).wf() ==> final(self).wf(),
    {
        self.shared_channels.add_shared_channel_waker(id, waker)
    }

    /// Takes out the wakers that the channel `id` has room for, the
    /// youngest of them first.
    pub fn release_channel(&mut self, id: u64, room: usize) -> (wakers: Vec<Waker>)
        ensures
            old(self).channels().pending.contains_key(id) ==> {
                let waiting = old(self).channels().pending[id];
                let n = least(room as int, waiting.len() as int);
                &&& wakers@ == reversed(waiting.subrange(0, n))
                &&& final(self).channels() == (ChannelsView {
                    pending: old(self).channels().pending.insert(
                        id,
                        waiting.subrange(n, waiting.len() as int),
                    ),
                    ..old(self).channels()
                })
            },
            !old(self).channels().pending.contains_key(id) ==> wakers@.len() == 0
                && final(self).channels() == old(self).channels(),
            final(self).timers() == old(self).timers(),
            old(self).wf() ==> final(self).wf(),
    {
        self.shared_channels.release_channel(id, room)
    }

    /// Takes out every waker that waits on the channel `id`, oldest first.
    pub fn process_shared_channels_by_id(&mut self, id: u64) -> (wakers: Vec<Waker>)
        ensures
            old(self).channels().pending.contains_key(id) ==> wakers@
                == old(self).channels().pending[id] && final(self).channels() == (ChannelsView {
                pending: old(self).channels().pending.insert(id, Seq::empty()),
                ..old(self).channels()
            }),
            !old(self).channels().pending.contains_key(id) ==> wakers@.len() == 0
                && final(self).channels() == old(self).channels(),
            final(self).timers() == old(self).timers(),
            old(self).wf() ==> final(self).wf(),
    {
        self.shared_channels.process_shared_channels_by_id(id)
    }

    /// Registers a timer. Returns the id to cancel it by.
    pub fn insert_timer(&mut self, when: u64, waker: Waker) -> (id: TimerId)
        requires
            old(self).wf(),
            old(self).timers().staged.next_id < u64::MAX,
        ensures
            final(self).wf(),
            id.index == old(self).timers().staged.next_id as u32,
            id.generation == 0,
            (StagedView {
                next_id: (old(self).timers().staged.next_id + 1) as u64,
                ..old(self).timers().staged
            }).inserted(
                final(self).timers().staged,
                TimerEntry { id: old(self).timers().staged.next_id, expires_at: when, waker },
            ),
            final(self).timers().expiry == old(self).timers().expiry.insert(
                old(self).timers().staged.next_id,
                when,
            ),
            final(self).channels() == old(self).channels(),
    {
        self.timers.insert(when, waker)
    }

    /// Cancels a timer. Says whether the storage held it.
    pub fn remove_timer(&mut self, id: TimerId) -> (found: bool)
        requires
            old(self).wf(),
        ensures
            final(self).wf(),
            found == old(self).timers().expiry.contains_key(id.index as u64),
            final(self).timers().expiry == old(self).timers().expiry.remove(id.index as u64),
            final(self).timers().staged == if old(self).timers().staged.promoted {
                let taken = old(self).timers().staged.as_wheel().take(id.index as u64);
                StagedView {
                    pending: taken.pending,
                    expired: taken.expired,
                    ..old(self).timers().staged
                }
            } else {
                StagedView {
                    pending: old(self).timers().staged.pending.remove(id.index as u64),
                    ..old(self).timers().staged
                }
            },
            final(self).channels() == old(self).channels(),
    {
        self.timers.remove(id)
    }

    /// Whether a timer is registered.
    pub fn timer_exists(&self, id: TimerId) -> (found: bool)
        ensures
            found == self.timers().expiry.contains_key(id.index as u64),
    {
        self.timers.timer_exists(id)
    }

    /// One round of the reactor at the instant `now`: the timers are
    /// advanced and every waker that is due is collected, of the timers
    /// that fell due and of all that waited for a connection. None of them
    /// stays behind. The channels on which wakers wait are listed for the
    /// caller to release as far as each has room.
    pub fn process_external_events(&mut self, now: u64) -> (round: Round)
        requires
            old(self).wf(),
        ensures
            final(self).wf(),
            exists|mid: StagedView|
                old(self).timers().processed(final(self).timers(), now, round.timers@, mid),
            crate::timer::reactor_adapter::next_wait(
                final(self).timers().expiry,
                now,
                round.next_timer,
            ),
            round.connections@ == old(self).channels().connection,
            final(self).channels() == (ChannelsView {
                connection: Seq::empty(),
                ..old(self).channels()
            }),
            forall|k: u64|
                round.channels@.contains(k) <==> final(self).channels().pending.contains_key(k)
                    && final(self).channels().pending[k].len() > 0,
            forall|i: int, j: int|
                0 <= i < j < round.channels@.len() ==> round.channels@[i] < round.channels@[j],
    {
        let ghost before = self.timers@;
        let (next_timer, timers) = self.timers.process_timers(now);
        let ghost after = self.timers@;
        let ghost mid = choose|mid: StagedView|
            before.processed(after, now, timers@, mid);
        let connections = self.shared_channels.take_connection_wakers();
        let channels = self.shared_channels.pending_channels();
        let round = Round { next_timer, timers, connections, channels };
        proof {
            assert(before.processed(after, now, round.timers@, mid));
            assert(old(self).timers() == before);
            assert(self.timers() == after);
            assert(old(self).timers().processed(self.timers(), now, round.timers@, mid));
        }
        round
    }
}

/// The reactor never sleeps past the earliest timer nor past the caller's
/// timeout, and does not sleep at all after a round that woke a task.
pub proof fn law_wait_is_bounded(timeout: Option<u64>, next_timer: Option<u64>, woke: usize)
    ensures
        woke > 0 ==> planned(timeout, next_timer, woke) == Wait::Poll,
        woke == 0 && (timeout is Some || next_timer is Some) ==> planned(
            timeout,
            next_timer,
            woke,
        ) is BlockFor,
        planned(timeout, next_timer, woke) matches Wait::BlockFor(d) ==> (timeout matches Some(t)
            ==> d <= t) && (next_timer matches Some(n) ==> d <= n),
{
}

/// A round fires every timer that was due when it began: the wakers of the
/// timers that had expired before come first, in their order; every pending
/// timer that falls due in the round has its waker among those collected;
/// and no timer that the round leaves behind is due.
pub proof fn law_round_fires_all_due(
    before: TimersView,
    after: TimersView,
    now: u64,
    woke: Seq<Waker>,
    mid: StagedView,
    id: u64,
)
    requires
        before.processed(after, now, woke, mid),
    ensures
        forall|i: int|
            0 <= i < before.staged.expired.len() ==> woke[i] == before.staged.expired[i].waker,
        before.staged.pending.contains_key(id) && due_in_round(
            before.staged,
            now,
            before.staged.pending[id],
        ) ==> exists|i: int|
            0 <= i < woke.len() && #[trigger] mid.expired[i].id == id && woke[i]
                == mid.expired[i].waker && mid.expired[i] == before.staged.pending[id],
        after.staged.pending.contains_key(id) ==> !due_in_round(
            before.staged,
            now,
            after.staged.pending[id],
        ),
        after.staged.expired.len() == 0,
{
    let n = before.staged.expired.len() as int;
    assert(mid.expired.subrange(0, n) == before.staged.expired);
    assert forall|i: int| 0 <= i < n implies woke[i] == before.staged.expired[i].waker by {
        assert(mid.expired.subrange(0, n)[i] == mid.expired[i]);
    }
    let fired = mid.expired.subrange(n, mid.expired.len() as int);
    let a = before.staged.as_wheel();
    let b = mid.as_wheel();
    if before.staged.pending.contains_key(id) && due_in_round(
        before.staged,
        now,
        before.staged.pending[id],
    ) {
        if before.staged.promoted {
            assert(a.pending.contains_key(id) && a.deadline(a.pending[id]) <= b.tick);
            assert(seq_holds(b.expired.subrange(n, b.expired.len() as int), id));
        } else {
            assert(before.staged.pending[id].expires_at <= now);
        }
        assert(seq_holds(fired, id));
        let k = choose|k: int| 0 <= k < fired.len() && fired[k].id == id;
        assert(mid.expired[k + n] == fired[k]);
        assert(before.staged.pending[mid.expired[k + n].id] == mid.expired[k + n]);
    }
    if after.staged.pending.contains_key(id) {
        assert(mid.pending.contains_key(id));
        if before.staged.promoted {
            assert(b.pending.contains_key(id));
            assert(a.pending.contains_key(id) && a.deadline(a.pending[id]) > b.tick);
            assert(b.pending[id] == a.pending[id]);
        } else {
            assert(before.staged.pending.contains_key(id) && before.staged.pending[id].expires_at
                > now);
        }
    }
}
} // verus!
