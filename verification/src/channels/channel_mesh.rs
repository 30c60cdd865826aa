//! Meshes of channels between executors.
//!
//! The executors that join a mesh are ordered by their ids; the place of an
//! executor in that order is its peer id. Once the last one has joined, a
//! channel is made for every pair of peers that the mesh's adapter connects.
//! Each executor then takes the sending ends of its row and the receiving
//! ends of its column.
use crate::channels::shared_channel::new_bounded;
use crate::channels::shared_channel::ChannelError;
use crate::channels::shared_channel::ConnectedReceiver;
use crate::channels::shared_channel::ConnectedSender;
use crate::channels::shared_channel::Received;
use crate::channels::shared_channel::SharedReceiver;
use crate::channels::shared_channel::SharedSender;
use crate::channels::spsc_queue::DISCONNECTED;
use crate::channels::spsc_queue::NEVER_CONNECTED;
use std::marker::PhantomData;
use vstd::prelude::*;

verus! {

/// The role an executor plays in the mesh.
#[derive(Clone, Copy, Debug, PartialEq, Eq, Structural)]
pub enum Role {
    /// The executor produces messages.
    Producer,
    /// The executor consumes messages.
    Consumer,
    /// The executor produces and consumes messages.
    Both,
}

/// An executor that has joined.
pub struct Peer {
    pub executor_id: usize,
    pub role: Role,
}

/// Decides the shape of a mesh.
pub trait MeshAdapter: Clone {
    /// Whether a channel leads from a peer in role `from` to one in role
    /// `to`.
    spec fn connects(&self, from: Role, to: Role) -> bool;

    /// Whether the lists of an executor keep a placeholder for every peer
    /// without a channel.
    spec fn full(&self) -> bool;

    /// Whether a channel leads from a peer in role `from` to one in role
    /// `to`.
    fn connect(&self, from: &Role, to: &Role) -> (yes: bool)
        ensures
            yes == self.connects(*from, *to),
    ;

    /// Whether the lists of an executor keep a placeholder for every peer
    /// without a channel.
    fn is_full(&self) -> (yes: bool)
        ensures
            yes == self.full(),
    ;
}

/// Adapter of the full mesh: every peer is connected to every other.
#[derive(Clone, Copy, Debug)]
pub struct Full;

/// Adapter of the partial mesh: channels lead from producers to consumers.
#[derive(Clone, Copy, Debug)]
pub struct Partial;

/// Why an executor could not join.
#[derive(Clone, Copy, Debug, PartialEq, Eq, Structural)]
pub enum JoinError {
    /// As many executors as the mesh has peers have joined already.
    MeshFull,
}

/// A builder for a mesh of `nr_peers` executors whose channels have
/// `channel_size` slots.
pub struct MeshBuilder<T: Send, A: MeshAdapter> {
    nr_peers: usize,
    channel_size: usize,
    adapter: A,
    marker: PhantomData<T>,
}

/// Number of entries of the sequence that have the given role.
pub open spec fn count_role(peers: Seq<Peer>, role: Role) -> nat
    decreases peers.len(),
{
    if peers.len() == 0 {
        0
    } else {
        count_role(peers.drop_last(), role) + if peers.last().role == role {
            1nat
        } else {
            0nat
        }
    }
}

/// Whether the peers are in the strict order of their executor ids.
pub open spec fn ordered(peers: Seq<Peer>) -> bool {
    forall|i: int, j: int|
        0 <= i < j < peers.len() ==> peers[i].executor_id < peers[j].executor_id
}

/// Whether some peer has this executor id.
pub open spec fn has_joined(peers: Seq<Peer>, executor_id: usize) -> bool {
    exists|i: int| 0 <= i < peers.len() && peers[i].executor_id == executor_id
}

/// What the executors that join a mesh share: who has joined, and the ends
/// of the channels that nobody has taken yet.
#[verifier::reject_recursive_types(T)]
pub struct JoinState<T: Send> {
    nr_peers: usize,
    peers: Vec<Peer>,
    ready: bool,
    senders: Vec<Vec<Option<SharedSender<T>>>>,
    receivers: Vec<Vec<Option<SharedReceiver<T>>>>,
}

/// Takes the entry at `i` out of a list, leaving the place empty.
fn take_at<E>(list: &mut Vec<Option<E>>, i: usize) -> (entry: Option<E>)
    requires
        i < old(list)@.len(),
    ensures
        entry == old(list)@[i as int],
        final(list)@ == old(list)@.update(i as int, None),
{
    let mut entry: Option<E> = None;
    std::mem::swap(&mut list[i], &mut entry);
    entry
}

/// Puts an entry into the place at `i` of a list.
fn put_at<E>(list: &mut Vec<Option<E>>, i: usize, entry: E)
    requires
        i < old(list)@.len(),
    ensures
        final(list)@ == old(list)@.update(i as int, Some(entry)),
{
    list[i] = Some(entry);
}

/// Where a sorted list of peers has the executor `executor_id`, or where it
/// would have to go.
fn find_peer(peers: &Vec<Peer>, executor_id: usize) -> (place: Result<usize, usize>)
    requires
        ordered(peers@),
    ensures
        match place {
            Ok(i) => i < peers@.len() && peers@[i as int].executor_id == executor_id,
            Err(i) => i <= peers@.len() && !has_joined(peers@, executor_id) && (forall|k: int|
                0 <= k < i ==> peers@[k].executor_id < executor_id) && (forall|k: int|
                i <= k < peers@.len() ==> executor_id < peers@[k].executor_id),
        },
{
    let mut low: usize = 0;
    let mut high: usize = peers.len();
    while low < high
        invariant
            low <= high <= peers@.len(),
            ordered(peers@),
            forall|k: int| 0 <= k < low ==> peers@[k].executor_id < executor_id,
            forall|k: int| high <= k < peers@.len() ==> executor_id < peers@[k].executor_id,
        decreases high - low,
    {
        let mid = low + (high - low) / 2;
        let at = peers[mid].executor_id;
        if at == executor_id {
            return Ok(mid);
        } else if at < executor_id {
            low = mid + 1;
        } else {
            high = mid;
        }
    }
    Err(low)
}

/// The ids that an executor in the given role has among the producers and
/// among the consumers: its place among the peers of its role, where it
/// sends or receives at all.
pub fn role_ids(role: Role, role_id: usize) -> (ids: (Option<usize>, Option<usize>))
    ensures
        ids.0 == if role.sends() {
            Some(role_id)
        } else {
            None
        },
        ids.1 == if role.receives() {
            Some(role_id)
        } else {
            None
        },
{
    let producer_id = if role.is_producer() {
        Some(role_id)
    } else {
        None
    };
    let consumer_id = if role.is_consumer() {
        Some(role_id)
    } else {
        None
    };
    (producer_id, consumer_id)
}

/// Number of entries that are there.
pub open spec fn count_some<E>(entries: Seq<Option<E>>) -> nat
    decreases entries.len(),
{
    if entries.len() == 0 {
        0
    } else {
        count_some(entries.drop_last()) + if entries.last() is Some {
            1nat
        } else {
            0nat
        }
    }
}

/// The sending ends of one executor.
#[verifier::reject_recursive_types(T)]
pub struct Senders<T: Send> {
    peer_id: usize,
    producer_id: Option<usize>,
    senders: Vec<Option<ConnectedSender<T>>>,
}

/// The receiving ends of one executor.
#[verifier::reject_recursive_types(T)]
pub struct Receivers<T: Send> {
    peer_id: usize,
    consumer_id: Option<usize>,
    receivers: Vec<Option<ConnectedReceiver<T>>>,
}

/// Number of entries that are `true`.
pub open spec fn count_true(flags: Seq<bool>) -> nat
    decreases flags.len(),
{
    if flags.len() == 0 {
        0
    } else {
        count_true(flags.drop_last()) + if flags.last() {
            1nat
        } else {
            0nat
        }
    }
}

impl Role {
    /// Whether an executor in this role sends.
    pub open spec fn sends(self) -> bool {
        self != Role::Consumer
    }

    /// Whether an executor in this role receives.
    pub open spec fn receives(self) -> bool {
        self != Role::Producer
    }

    /// Whether an executor in this role sends.
    pub fn is_producer(&self) -> (yes: bool)
        ensures
            yes == self.sends(),
    {
        match self {
            Role::Consumer => false,
            _ => true,
        }
    }

    /// Whether an executor in this role receives.
    pub fn is_consumer(&self) -> (yes: bool)
        ensures
            yes == self.receives(),
    {
        match self {
            Role::Producer => false,
            _ => true,
        }
    }
}

impl Peer {
    /// The peer for the executor `executor_id` in the given role.
    pub fn new(executor_id: usize, role: Role) -> (peer: Self)
        ensures
            peer.executor_id == executor_id,
            peer.role == role,
    {
        Self { executor_id, role }
    }
}

impl MeshAdapter for Full {
    open spec fn connects(&self, from: Role, to: Role) -> bool {
        true
    }

    open spec fn full(&self) -> bool {
        true
    }

    fn connect(&self, from: &Role, to: &Role) -> (yes: bool) {
        true
    }

    fn is_full(&self) -> (yes: bool) {
        true
    }
}

impl MeshAdapter for Partial {
    open spec fn connects(&self, from: Role, to: Role) -> bool {
        from == Role::Producer && to == Role::Consumer
    }

    open spec fn full(&self) -> bool {
        false
    }

    fn connect(&self, from: &Role, to: &Role) -> (yes: bool) {
        match (from, to) {
            (Role::Producer, Role::Consumer) => true,
            _ => false,
        }
    }

    fn is_full(&self) -> (yes: bool) {
        false
    }
}

impl<T: Send> MeshBuilder<T, Full> {
    /// Creates a builder for a full mesh.
    pub fn full(nr_peers: usize, channel_size: usize) -> (builder: Self)
        ensures
            builder.spec_nr_peers() == nr_peers,
            builder.spec_channel_size() == channel_size,
    {
        Self::new(nr_peers, channel_size, Full)
    }
}

impl<T: Send> MeshBuilder<T, Partial> {
    /// Creates a builder for a partial mesh.
    pub fn partial(nr_peers: usize, channel_size: usize) -> (builder: Self)
        ensures
            builder.spec_nr_peers() == nr_peers,
            builder.spec_channel_size() == channel_size,
    {
        Self::new(nr_peers, channel_size, Partial)
    }
}

impl<T: Send, A: MeshAdapter> MeshBuilder<T, A> {
    /// Number of peers of the mesh.
    pub closed spec fn spec_nr_peers(&self) -> usize {
        self.nr_peers
    }

    /// Number of slots asked for each channel.
    pub closed spec fn spec_channel_size(&self) -> usize {
        self.channel_size
    }

    /// The adapter.
    pub closed spec fn spec_adapter(&self) -> A {
        self.adapter
    }

    /// Creates a builder with the given adapter.
    pub fn new(nr_peers: usize, channel_size: usize, adapter: A) -> (builder: Self)
        ensures
            builder.spec_nr_peers() == nr_peers,
            builder.spec_channel_size() == channel_size,
            builder.spec_adapter() == adapter,
    {
        MeshBuilder { nr_peers, channel_size, adapter, marker: PhantomData }
    }

    /// Number of peers of the mesh.
    pub fn nr_peers(&self) -> (n: usize)
        ensures
            n == self.spec_nr_peers(),
    {
        self.nr_peers
    }

    /// Number of slots asked for each channel.
    pub fn channel_size(&self) -> (n: usize)
        ensures
            n == self.spec_channel_size(),
    {
        self.channel_size
    }

    /// The adapter.
    pub fn adapter(&self) -> (adapter: &A)
        ensures
            *adapter == self.spec_adapter(),
    {
        &self.adapter
    }

    /// An empty join state for this mesh.
    pub fn join_state(&self) -> (state: JoinState<T>)
        ensures
            state.wf(),
            state.spec_nr_peers() == self.spec_nr_peers(),
            state.peers() == Seq::<Peer>::empty(),
            !state.is_ready(),
    {
        JoinState::new(self.nr_peers)
    }
}

impl<T: Send> JoinState<T> {
    /// Number of peers of the mesh.
    pub closed spec fn spec_nr_peers(&self) -> usize {
        self.nr_peers
    }

    /// The executors that have joined, in the order of their ids.
    pub closed spec fn peers(&self) -> Seq<Peer> {
        self.peers@
    }

    /// Whether the channels have been made.
    pub closed spec fn is_ready(&self) -> bool {
        self.ready
    }

    /// Whether the sending end of the channel from `from` to `to` is there
    /// to be taken.
    pub closed spec fn has_sender(&self, from: int, to: int) -> bool {
        self.senders@[from]@[to] is Some
    }

    /// Whether the receiving end of the channel from `from` to `to` is
    /// there to be taken.
    pub closed spec fn has_receiver(&self, from: int, to: int) -> bool {
        self.receivers@[from]@[to] is Some
    }

    /// The invariant: the peers are in order and no more than the mesh has
    /// room for; there is a place for the two ends of every pair; before the
    /// channels are made, all places are empty.
    pub closed spec fn wf(&self) -> bool {
        &&& ordered(self.peers@)
        &&& self.peers@.len() <= self.nr_peers
        &&& self.senders@.len() == self.nr_peers
        &&& self.receivers@.len() == self.nr_peers
        &&& forall|i: int|
            0 <= i < self.nr_peers ==> (#[trigger] self.senders@[i])@.len() == self.nr_peers
        &&& forall|i: int|
            0 <= i < self.nr_peers ==> (#[trigger] self.receivers@[i])@.len() == self.nr_peers
        &&& !self.ready ==> forall|i: int, j: int|
            0 <= i < self.nr_peers && 0 <= j < self.nr_peers ==> !self.has_sender(i, j)
                && !self.has_receiver(i, j)
    }

    /// Creates the state of a mesh of `nr_peers` executors that nobody has
    /// joined.
    pub fn new(nr_peers: usize) -> (state: Self)
        ensures
            state.wf(),
            state.spec_nr_peers() == nr_peers,
            state.peers() == Seq::<Peer>::empty(),
            !state.is_ready(),
    {
        let mut senders: Vec<Vec<Option<SharedSender<T>>>> = Vec::with_capacity(nr_peers);
        let mut receivers: Vec<Vec<Option<SharedReceiver<T>>>> = Vec::with_capacity(nr_peers);
        let mut row: usize = 0;
        while row < nr_peers
            invariant
                row <= nr_peers,
                senders@.len() == row,
                receivers@.len() == row,
                forall|i: int| 0 <= i < row ==> (#[trigger] senders@[i])@.len() == nr_peers,
                forall|i: int| 0 <= i < row ==> (#[trigger] receivers@[i])@.len() == nr_peers,
                forall|i: int, j: int|
                    0 <= i < row && 0 <= j < nr_peers ==> senders@[i]@[j] is None
                        && receivers@[i]@[j] is None,
            decreases nr_peers - row,
        {
            let mut out: Vec<Option<SharedSender<T>>> = Vec::new();
            let mut into: Vec<Option<SharedReceiver<T>>> = Vec::new();
            let mut col: usize = 0;
            while col < nr_peers
                invariant
                    col <= nr_peers,
                    out@.len() == col,
                    into@.len() == col,
                    forall|j: int| 0 <= j < col ==> out@[j] is None && into@[j] is None,
                decreases nr_peers - col,
            {
                out.push(None);
                into.push(None);
                col = col + 1;
            }
            senders.push(out);
            receivers.push(into);
            row = row + 1;
        }
        Self { nr_peers, peers: Vec::new(), ready: false, senders, receivers }
    }

    /// Number of executors that have joined.
    pub fn joined(&self) -> (n: usize)
        ensures
            n == self.peers().len(),
    {
        self.peers.len()
    }

    /// Whether the channels have been made.
    pub fn ready(&self) -> (yes: bool)
        ensures
            yes == self.is_ready(),
    {
        self.ready
    }

    /// Whether the executor `executor_id` has joined.
    pub fn contains(&self, executor_id: usize) -> (yes: bool)
        requires
            self.wf(),
        ensures
            yes == has_joined(self.peers(), executor_id),
    {
        match find_peer(&self.peers, executor_id) {
            Ok(_) => true,
            Err(_) => false,
        }
    }

    /// Enters the executor `executor_id` in the given role, at its place in
    /// the order of the ids. Says whether it was the last one that the mesh
    /// waited for. A mesh that is complete takes nobody.
    ///
    /// An executor joins a mesh once.
    pub fn register(&mut self, executor_id: usize, role: Role) -> (outcome: Result<
        bool,
        JoinError,
    >)
        requires
            old(self).wf(),
            !has_joined(old(self).peers(), executor_id),
        ensures
            final(self).wf(),
            final(self).spec_nr_peers() == old(self).spec_nr_peers(),
            final(self).is_ready() == old(self).is_ready(),
            match outcome {
                Err(e) => {
                    &&& e == JoinError::MeshFull
                    &&& old(self).peers().len() == old(self).spec_nr_peers()
                    &&& final(self).peers() == old(self).peers()
                },
                Ok(last) => {
                    &&& old(self).peers().len() < old(self).spec_nr_peers()
                    &&& last == (final(self).peers().len() == old(self).spec_nr_peers())
                    &&& exists|at: int|
                        0 <= at <= old(self).peers().len() && #[trigger] final(self).peers()
                            == old(self).peers().insert(at, Peer { executor_id, role })
                },
            },
    {
        if self.peers.len() == self.nr_peers {
            return Err(JoinError::MeshFull);
        }
        let ghost before = self.peers@;
        let index = match find_peer(&self.peers, executor_id) {
            Ok(found) => found,
            Err(gap) => gap,
        };
        self.peers.insert(index, Peer::new(executor_id, role));
        proof {
            let after = self.peers@;
            assert(after == before.insert(index as int, Peer { executor_id, role }));
            assert forall|i: int, j: int| 0 <= i < j < after.len() implies after[i].executor_id
                < after[j].executor_id by {
                let oi = if i < index {
                    i
                } else {
                    i - 1
                };
                let oj = if j < index {
                    j
                } else {
                    j - 1
                };
                if i != index && j != index {
                    assert(before[oi].executor_id < before[oj].executor_id);
                }
            }
            assert forall|i: int, j: int|
                0 <= i < self.nr_peers && 0 <= j < self.nr_peers && !self.ready implies !self.has_sender(
                i,
                j,
            ) && !self.has_receiver(i, j) by {
                assert(!old(self).has_sender(i, j) && !old(self).has_receiver(i, j));
            }
        }
        Ok(self.peers.len() == self.nr_peers)
    }

    /// Place of the executor `executor_id` among the peers, and the number
    /// of peers before it that have the given role.
    pub fn position(&self, executor_id: usize, role: Role) -> (ids: (usize, usize))
        requires
            self.wf(),
            has_joined(self.peers(), executor_id),
        ensures
            ids.0 < self.peers().len(),
            self.peers()[ids.0 as int].executor_id == executor_id,
            ids.1 == count_role(self.peers().subrange(0, ids.0 as int), role),
    {
        let peer_id = match find_peer(&self.peers, executor_id) {
            Ok(found) => found,
            Err(gap) => 0,
        };
        let mut role_id: usize = 0;
        let mut n: usize = 0;
        while n < peer_id
            invariant
                n <= peer_id < self.peers@.len(),
                role_id <= n,
                role_id == count_role(self.peers@.subrange(0, n as int), role),
            decreases peer_id - n,
        {
            proof {
                let longer = self.peers@.subrange(0, n + 1);
                assert(longer.drop_last() =~= self.peers@.subrange(0, n as int));
                assert(longer.last() == self.peers@[n as int]);
            }
            if self.peers[n].role == role {
                role_id = role_id + 1;
            }
            n = n + 1;
        }
        (peer_id, role_id)
    }

    /// Makes a channel for every pair of distinct peers that the adapter
    /// connects. Does nothing where the channels have been made.
    pub fn build<A: MeshAdapter>(&mut self, adapter: &A, channel_size: usize)
        requires
            old(self).wf(),
            old(self).peers().len() == old(self).spec_nr_peers(),
            channel_size <= usize::MAX / 2 + 1,
        ensures
            final(self).wf(),
            final(self).is_ready(),
            final(self).peers() == old(self).peers(),
            final(self).spec_nr_peers() == old(self).spec_nr_peers(),
            !old(self).is_ready() ==> forall|from: int, to: int|
                0 <= from < final(self).spec_nr_peers() && 0 <= to < final(self).spec_nr_peers()
                    ==> #[trigger] final(self).has_sender(from, to) == (from != to
                    && adapter.connects(
                    final(self).peers()[from].role,
                    final(self).peers()[to].role,
                )) && final(self).has_receiver(from, to) == final(self).has_sender(from, to),
            old(self).is_ready() ==> forall|from: int, to: int|
                0 <= from < final(self).spec_nr_peers() && 0 <= to < final(self).spec_nr_peers()
                    ==> #[trigger] final(self).has_sender(from, to) == old(self).has_sender(
                    from,
                    to,
                ) && final(self).has_receiver(from, to) == old(self).has_receiver(from, to),
    {
        if self.ready {
            return ;
        }
        let n = self.peers.len();
        let mut from_idx: usize = 0;
        while from_idx < n
            invariant
                from_idx <= n,
                n == self.nr_peers,
                self.peers@.len() == n,
                self.peers@ == old(self).peers@,
                self.nr_peers == old(self).nr_peers,
                !self.ready,
                channel_size <= usize::MAX / 2 + 1,
                self.senders@.len() == n,
                self.receivers@.len() == n,
                forall|i: int| 0 <= i < n ==> (#[trigger] self.senders@[i])@.len() == n,
                forall|i: int| 0 <= i < n ==> (#[trigger] self.receivers@[i])@.len() == n,
                ordered(self.peers@),
                forall|from: int, to: int|
                    0 <= from < n && 0 <= to < n ==> #[trigger] self.has_sender(from, to) == (from
                        < from_idx && from != to && adapter.connects(
                        self.peers@[from].role,
                        self.peers@[to].role,
                    )) && self.has_receiver(from, to) == self.has_sender(from, to),
            decreases n - from_idx,
        {
            let mut to_idx: usize = 0;
            while to_idx < n
                invariant
                    from_idx < n,
                    to_idx <= n,
                    n == self.nr_peers,
                    self.peers@.len() == n,
                    self.peers@ == old(self).peers@,
                    self.nr_peers == old(self).nr_peers,
                    !self.ready,
                    channel_size <= usize::MAX / 2 + 1,
                    self.senders@.len() == n,
                    self.receivers@.len() == n,
                    forall|i: int| 0 <= i < n ==> (#[trigger] self.senders@[i])@.len() == n,
                    forall|i: int| 0 <= i < n ==> (#[trigger] self.receivers@[i])@.len() == n,
                    ordered(self.peers@),
                    forall|from: int, to: int|
                        0 <= from < n && 0 <= to < n ==> #[trigger] self.has_sender(from, to) == ((
                        from < from_idx || (from == from_idx && to < to_idx)) && from != to
                            && adapter.connects(self.peers@[from].role, self.peers@[to].role))
                            && self.has_receiver(from, to) == self.has_sender(from, to),
                decreases n - to_idx,
            {
                if from_idx != to_idx {
                    let from_role = self.peers[from_idx].role;
                    let to_role = self.peers[to_idx].role;
                    if adapter.connect(&from_role, &to_role) {
                        let ghost before = *self;
                        let (tx, rx) = new_bounded(channel_size);
                        put_at(&mut self.senders[from_idx], to_idx, tx);
                        put_at(&mut self.receivers[from_idx], to_idx, rx);
                        proof {
                            assert forall|from: int, to: int|
                                0 <= from < n && 0 <= to < n implies #[trigger] self.has_sender(
                                from,
                                to,
                            ) == ((from < from_idx || (from == from_idx && to < to_idx + 1))
                                && from != to && adapter.connects(
                                self.peers@[from].role,
                                self.peers@[to].role,
                            )) && self.has_receiver(from, to) == self.has_sender(from, to) by {
                                if from != from_idx || to != to_idx {
                                    assert(self.has_sender(from, to) == before.has_sender(from, to));
                                    assert(self.has_receiver(from, to) == before.has_receiver(
                                        from,
                                        to,
                                    ));
                                }
                            }
                        }
                    }
                }
                to_idx = to_idx + 1;
            }
            from_idx = from_idx + 1;
        }
        let ghost made = *self;
        self.ready = true;
        proof {
            assert forall|from: int, to: int|
                0 <= from < n && 0 <= to < n implies #[trigger] self.has_sender(from, to) == (from
                != to && adapter.connects(self.peers@[from].role, self.peers@[to].role))
                && self.has_receiver(from, to) == self.has_sender(from, to) by {
                assert(self.has_sender(from, to) == made.has_sender(from, to));
                assert(self.has_receiver(from, to) == made.has_receiver(from, to));
            }
        }
    }

    /// Takes the ends that belong to the peer `peer_id`: the sending ends of
    /// its row and the receiving ends of its column, each list in the order
    /// of the peers.
    pub fn take_ends(&mut self, peer_id: usize) -> (ends: (
        Vec<Option<SharedSender<T>>>,
        Vec<Option<SharedReceiver<T>>>,
    ))
        requires
            old(self).wf(),
            old(self).is_ready(),
            peer_id < old(self).spec_nr_peers(),
        ensures
            final(self).wf(),
            final(self).is_ready(),
            final(self).peers() == old(self).peers(),
            final(self).spec_nr_peers() == old(self).spec_nr_peers(),
            ends.0@.len() == old(self).spec_nr_peers(),
            ends.1@.len() == old(self).spec_nr_peers(),
            forall|i: int|
                0 <= i < old(self).spec_nr_peers() ==> (#[trigger] ends.0@[i]) is Some
                    == old(self).has_sender(peer_id as int, i),
            forall|i: int|
                0 <= i < old(self).spec_nr_peers() ==> (#[trigger] ends.1@[i]) is Some
                    == old(self).has_receiver(i, peer_id as int),
            forall|from: int, to: int|
                0 <= from < old(self).spec_nr_peers() && 0 <= to < old(self).spec_nr_peers()
                    ==> #[trigger] final(self).has_sender(from, to) == (from != peer_id
                    && old(self).has_sender(from, to)),
            forall|from: int, to: int|
                0 <= from < old(self).spec_nr_peers() && 0 <= to < old(self).spec_nr_peers()
                    ==> #[trigger] final(self).has_receiver(from, to) == (to != peer_id
                    && old(self).has_receiver(from, to)),
    {
        let n = self.nr_peers;
        let mut row: Vec<Option<SharedSender<T>>> = Vec::with_capacity(n);
        let mut col: Vec<Option<SharedReceiver<T>>> = Vec::with_capacity(n);
        let mut i: usize = 0;
        while i < n
            invariant
                i <= n,
                n == self.nr_peers,
                peer_id < n,
                self.ready,
                self.peers@ == old(self).peers@,
                self.nr_peers == old(self).nr_peers,
                ordered(self.peers@),
                self.peers@.len() <= n,
                self.senders@.len() == n,
                self.receivers@.len() == n,
                forall|k: int| 0 <= k < n ==> (#[trigger] self.senders@[k])@.len() == n,
                forall|k: int| 0 <= k < n ==> (#[trigger] self.receivers@[k])@.len() == n,
                row@.len() == i,
                col@.len() == i,
                forall|k: int|
                    0 <= k < i ==> (#[trigger] row@[k]) is Some == old(self).has_sender(
                        peer_id as int,
                        k,
                    ),
                forall|k: int|
                    0 <= k < i ==> (#[trigger] col@[k]) is Some == old(self).has_receiver(
                        k,
                        peer_id as int,
                    ),
                forall|from: int, to: int|
                    0 <= from < n && 0 <= to < n ==> #[trigger] self.has_sender(from, to) == (!(
                    from == peer_id && to < i) && old(self).has_sender(from, to)),
                forall|from: int, to: int|
                    0 <= from < n && 0 <= to < n ==> #[trigger] self.has_receiver(from, to) == (!(
                    to == peer_id && from < i) && old(self).has_receiver(from, to)),
            decreases n - i,
        {
            let ghost before = *self;
            let sender = take_at(&mut self.senders[peer_id], i);
            let receiver = take_at(&mut self.receivers[i], peer_id);
            proof {
                assert(sender is Some == before.has_sender(peer_id as int, i as int));
                assert(receiver is Some == before.has_receiver(i as int, peer_id as int));
                assert forall|from: int, to: int|
                    0 <= from < n && 0 <= to < n implies #[trigger] self.has_sender(from, to) == (
                !(from == peer_id && to < i + 1) && old(self).has_sender(from, to)) by {
                    assert(before.has_sender(from, to) == (!(from == peer_id && to < i)
                        && old(self).has_sender(from, to)));
                    if !(from == peer_id && to == i) {
                        assert(self.has_sender(from, to) == before.has_sender(from, to));
                    }
                }
                assert forall|from: int, to: int|
                    0 <= from < n && 0 <= to < n implies #[trigger] self.has_receiver(from, to)
                    == (!(to == peer_id && from < i + 1) && old(self).has_receiver(from, to)) by {
                    assert(before.has_receiver(from, to) == (!(to == peer_id && from < i)
                        && old(self).has_receiver(from, to)));
                    if !(to == peer_id && from == i) {
                        assert(self.has_receiver(from, to) == before.has_receiver(from, to));
                    }
                }
            }
            row.push(sender);
            col.push(receiver);
            i = i + 1;
        }
        (row, col)
    }
}

impl<T: Send> Senders<T> {
    /// Place of the local executor among all peers.
    pub closed spec fn spec_peer_id(&self) -> usize {
        self.peer_id
    }

    /// Place of the local executor among the producers.
    pub closed spec fn spec_producer_id(&self) -> Option<usize> {
        self.producer_id
    }

    /// For each entry of the list, whether it is a channel, not a
    /// placeholder.
    pub closed spec fn connected(&self) -> Seq<bool> {
        Seq::new(self.senders@.len(), |i: int| self.senders@[i] is Some)
    }

    /// Connects the sending ends that an executor took from the join state,
    /// for the executor `executor_id`. A full mesh keeps a placeholder where
    /// there is no channel; a partial mesh lists the channels only.
    pub fn connect(
        peer_id: usize,
        producer_id: Option<usize>,
        ends: Vec<Option<SharedSender<T>>>,
        executor_id: usize,
        full: bool,
    ) -> (senders: Self)
        requires
            executor_id != NEVER_CONNECTED,
            executor_id != DISCONNECTED,
        ensures
            senders.spec_peer_id() == peer_id,
            senders.spec_producer_id() == producer_id,
            full ==> senders.connected().len() == ends@.len() && forall|i: int|
                0 <= i < ends@.len() ==> senders.connected()[i] == (#[trigger] ends@[i]) is Some,
            !full ==> senders.connected().len() == count_some(ends@) && forall|i: int|
                0 <= i < senders.connected().len() ==> senders.connected()[i],
    {
        let ghost all = ends@;
        let mut stack = ends;
        let mut back: Vec<Option<ConnectedSender<T>>> = Vec::new();
        // The ends come off the list last first.
        let mut turned: Vec<Option<SharedSender<T>>> = Vec::new();
        while stack.len() > 0
            invariant
                stack@.len() + turned@.len() == all.len(),
                forall|i: int| 0 <= i < stack@.len() ==> stack@[i] == all[i],
                forall|i: int|
                    0 <= i < turned@.len() ==> turned@[i] == all[all.len() - 1 - i],
            decreases stack@.len(),
        {
            let end = stack.pop().unwrap();
            turned.push(end);
        }
        while turned.len() > 0
            invariant
                executor_id != NEVER_CONNECTED,
                executor_id != DISCONNECTED,
                turned@.len() <= all.len(),
                forall|i: int|
                    0 <= i < turned@.len() ==> turned@[i] == all[all.len() - 1 - i],
                full ==> back@.len() == all.len() - turned@.len() && forall|i: int|
                    0 <= i < back@.len() ==> (#[trigger] back@[i]) is Some == all[i] is Some,
                !full ==> back@.len() == count_some(all.subrange(0, all.len() - turned@.len()))
                    && forall|i: int| 0 <= i < back@.len() ==> (#[trigger] back@[i]) is Some,
            decreases turned@.len(),
        {
            let ghost done = all.len() - turned@.len();
            let end = turned.pop().unwrap();
            proof {
                assert(end == all[done]);
                let longer = all.subrange(0, done + 1);
                assert(longer.drop_last() =~= all.subrange(0, done));
                assert(longer.last() == all[done]);
            }
            match end {
                Some(sender) => back.push(Some(sender.connect(executor_id))),
                None => {
                    if full {
                        back.push(None);
                    }
                },
            }
        }
        proof {
            assert(all.subrange(0, all.len() as int) =~= all);
        }
        Senders { peer_id, producer_id, senders: back }
    }

    /// Place of the local executor among all peers.
    pub fn peer_id(&self) -> (id: usize)
        ensures
            id == self.spec_peer_id(),
    {
        self.peer_id
    }

    /// Place of the local executor among the producers.
    pub fn producer_id(&self) -> (id: Option<usize>)
        ensures
            id == self.spec_producer_id(),
    {
        self.producer_id
    }

    /// Number of entries in the list of peers to send to.
    pub fn nr_consumers(&self) -> (n: usize)
        ensures
            n == self.connected().len(),
    {
        self.senders.len()
    }

    /// Sends a message to the `idx`-th consumer without waiting. An index
    /// that names no channel is an invalid argument.
    pub fn try_send_to(&self, idx: usize, msg: T) -> (outcome: Result<(), ChannelError<T>>)
        ensures
            !(idx < self.connected().len() && self.connected()[idx as int]) ==> outcome == Err::<
                (),
                ChannelError<T>,
            >(ChannelError::InvalidArgument),
            idx < self.connected().len() && self.connected()[idx as int] ==> outcome is Ok
                || outcome == Err::<(), ChannelError<T>>(ChannelError::CapacityExceeded(msg))
                || outcome == Err::<(), ChannelError<T>>(ChannelError::PeerDisconnected(msg)),
    {
        if idx >= self.senders.len() {
            return Err(ChannelError::InvalidArgument);
        }
        match &self.senders[idx] {
            Some(consumer) => consumer.try_send(msg),
            None => Err(ChannelError::InvalidArgument),
        }
    }

    /// Closes all sending ends.
    pub fn close(&self) {
        let mut i: usize = 0;
        while i < self.senders.len()
            invariant
                i <= self.senders@.len(),
            decreases self.senders@.len() - i,
        {
            match &self.senders[i] {
                Some(sender) => {
                    let _ = sender.close();
                },
                None => {},
            }
            i = i + 1;
        }
    }
}

impl<T: Send> Receivers<T> {
    /// Place of the local executor among all peers.
    pub closed spec fn spec_peer_id(&self) -> usize {
        self.peer_id
    }

    /// Place of the local executor among the consumers.
    pub closed spec fn spec_consumer_id(&self) -> Option<usize> {
        self.consumer_id
    }

    /// For each entry of the list, whether it is a channel that was not
    /// taken, not a placeholder.
    pub closed spec fn connected(&self) -> Seq<bool> {
        Seq::new(self.receivers@.len(), |i: int| self.receivers@[i] is Some)
    }

    /// Connects the receiving ends that an executor took from the join
    /// state, for the executor `executor_id`. A full mesh keeps a placeholder
    /// where there is no channel; a partial mesh lists the channels only.
    pub fn connect(
        peer_id: usize,
        consumer_id: Option<usize>,
        ends: Vec<Option<SharedReceiver<T>>>,
        executor_id: usize,
        full: bool,
    ) -> (receivers: Self)
        requires
            executor_id != NEVER_CONNECTED,
            executor_id != DISCONNECTED,
        ensures
            receivers.spec_peer_id() == peer_id,
            receivers.spec_consumer_id() == consumer_id,
            full ==> receivers.connected().len() == ends@.len() && forall|i: int|
                0 <= i < ends@.len() ==> receivers.connected()[i] == (#[trigger] ends@[i]) is Some,
            !full ==> receivers.connected().len() == count_some(ends@) && forall|i: int|
                0 <= i < receivers.connected().len() ==> receivers.connected()[i],
    {
        let ghost all = ends@;
        let mut stack = ends;
        let mut back: Vec<Option<ConnectedReceiver<T>>> = Vec::new();
        // The ends come off the list last first.
        let mut turned: Vec<Option<SharedReceiver<T>>> = Vec::new();
        while stack.len() > 0
            invariant
                stack@.len() + turned@.len() == all.len(),
                forall|i: int| 0 <= i < stack@.len() ==> stack@[i] == all[i],
                forall|i: int|
                    0 <= i < turned@.len() ==> turned@[i] == all[all.len() - 1 - i],
            decreases stack@.len(),
        {
            let end = stack.pop().unwrap();
            turned.push(end);
        }
        while turned.len() > 0
            invariant
                executor_id != NEVER_CONNECTED,
                executor_id != DISCONNECTED,
                turned@.len() <= all.len(),
                forall|i: int|
                    0 <= i < turned@.len() ==> turned@[i] == all[all.len() - 1 - i],
                full ==> back@.len() == all.len() - turned@.len() && forall|i: int|
                    0 <= i < back@.len() ==> (#[trigger] back@[i]) is Some == all[i] is Some,
                !full ==> back@.len() == count_some(all.subrange(0, all.len() - turned@.len()))
                    && forall|i: int| 0 <= i < back@.len() ==> (#[trigger] back@[i]) is Some,
            decreases turned@.len(),
        {
            let ghost done = all.len() - turned@.len();
            let end = turned.pop().unwrap();
            proof {
                assert(end == all[done]);
                let longer = all.subrange(0, done + 1);
                assert(longer.drop_last() =~= all.subrange(0, done));
                assert(longer.last() == all[done]);
            }
            match end {
                Some(receiver) => back.push(Some(receiver.connect(executor_id))),
                None => {
                    if full {
                        back.push(None);
                    }
                },
            }
        }
        proof {
            assert(all.subrange(0, all.len() as int) =~= all);
        }
        Receivers { peer_id, consumer_id, receivers: back }
    }

    /// Place of the local executor among all peers.
    pub fn peer_id(&self) -> (id: usize)
        ensures
            id == self.spec_peer_id(),
    {
        self.peer_id
    }

    /// Place of the local executor among the consumers.
    pub fn consumer_id(&self) -> (id: Option<usize>)
        ensures
            id == self.spec_consumer_id(),
    {
        self.consumer_id
    }

    /// Number of entries in the list of peers to receive from.
    pub fn nr_producers(&self) -> (n: usize)
        ensures
            n == self.connected().len(),
    {
        self.receivers.len()
    }

    /// Receives a message from the `idx`-th producer without waiting. An
    /// index that names no channel is an invalid argument.
    pub fn try_recv_from(&self, idx: usize) -> (outcome: Result<Received<T>, ChannelError<T>>)
        ensures
            outcome is Ok <==> idx < self.connected().len() && self.connected()[idx as int],
            outcome is Err ==> outcome == Err::<Received<T>, ChannelError<T>>(
                ChannelError::InvalidArgument,
            ),
    {
        if idx >= self.receivers.len() {
            return Err(ChannelError::InvalidArgument);
        }
        match &self.receivers[idx] {
            Some(producer) => Ok(producer.try_recv()),
            None => Err(ChannelError::InvalidArgument),
        }
    }

    /// Takes the receiving ends out of the list, each with its index,
    /// in the order of the list. Placeholders stay behind in their place.
    pub fn streams(&mut self) -> (taken: Vec<(usize, ConnectedReceiver<T>)>)
        ensures
            final(self).spec_peer_id() == old(self).spec_peer_id(),
            final(self).spec_consumer_id() == old(self).spec_consumer_id(),
            final(self).connected().len() == old(self).connected().len(),
            forall|i: int| 0 <= i < final(self).connected().len() ==> !final(self).connected()[i],
            taken@.len() == count_true(old(self).connected()),
            forall|k: int|
                0 <= k < taken@.len() ==> (#[trigger] taken@[k]).0 < old(self).connected().len()
                    && old(self).connected()[taken@[k].0 as int],
            forall|k: int, m: int| 0 <= k < m < taken@.len() ==> taken@[k].0 < taken@[m].0,
    {
        let ghost before = self.connected();
        let mut taken: Vec<(usize, ConnectedReceiver<T>)> = Vec::new();
        let mut idx: usize = 0;
        while idx < self.receivers.len()
            invariant
                idx <= self.receivers@.len(),
                self.receivers@.len() == before.len(),
                self.peer_id == old(self).peer_id,
                self.consumer_id == old(self).consumer_id,
                before == old(self).connected(),
                forall|i: int| 0 <= i < idx ==> (#[trigger] self.receivers@[i]) is None,
                forall|i: int|
                    idx <= i < before.len() ==> (#[trigger] self.receivers@[i]) is Some
                        == before[i],
                taken@.len() == count_true(before.subrange(0, idx as int)),
                forall|k: int|
                    0 <= k < taken@.len() ==> (#[trigger] taken@[k]).0 < idx && before[taken@[k].0 as int],
                forall|k: int, m: int| 0 <= k < m < taken@.len() ==> taken@[k].0 < taken@[m].0,
            decreases self.receivers@.len() - idx,
        {
            proof {
                let longer = before.subrange(0, idx + 1);
                assert(longer.drop_last() =~= before.subrange(0, idx as int));
                assert(longer.last() == before[idx as int]);
            }
            let mut receiver: Option<ConnectedReceiver<T>> = None;
            std::mem::swap(&mut self.receivers[idx], &mut receiver);
            match receiver {
                Some(recv) => {
                    taken.push((idx, recv));
                },
                None => {},
            }
            idx = idx + 1;
        }
        proof {
            assert(before.subrange(0, before.len() as int) =~= before);
        }
        taken
    }
}
} // verus!
