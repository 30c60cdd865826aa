//! Bounded single-producer single-consumer ring.
//!
//! The ring is a power-of-two array of slots. The consumer's `head` and the
//! producer's `tail` only ever grow (and wrap with the machine word); a
//! position is mapped into the array by masking. The producer keeps a
//! look-ahead `limit`: while `tail` has not reached it, a push needs no probe
//! of the slot it writes to.
//!
//! `Buffer` is the ring itself, with exclusive access. `Producer` and
//! `Consumer` are the two ends that share one buffer. The ends take turns at
//! the buffer under a lock: each operation of an end is one operation of the
//! buffer, on whatever the other end has left. What an operation does to
//! the buffer it finds, and what it answers, is stated on the functions that
//! work on the locked cell (`push_in`, `pop_in` and their like).
use std::sync::Arc;
use std::sync::Mutex;
use std::sync::MutexGuard;
use vstd::arithmetic::div_mod::lemma_fundamental_div_mod;
use vstd::arithmetic::div_mod::lemma_mod_multiples_vanish;
use vstd::arithmetic::power2::lemma_pow2_adds;
use vstd::arithmetic::power2::lemma_pow2_pos;
use vstd::arithmetic::power2::lemma_pow2_strictly_increases;
use vstd::arithmetic::power2::lemma_pow2_unfold;
use vstd::arithmetic::power2::pow2;
use vstd::bits::lemma_usize_low_bits_mask_is_mod;
use vstd::bits::low_bits_mask;
use vstd::layout::unsigned_int_max_values;
use vstd::prelude::*;

verus! {

/// Largest look-ahead stride.
pub const MAX_LOOKAHEAD: usize = 4096;

/// Id of a peer that has never connected.
pub const NEVER_CONNECTED: usize = 0;

/// Id that marks a peer as disconnected.
pub const DISCONNECTED: usize = usize::MAX;

/// State that the producer writes.
pub struct ProducerCacheline {
    /// Position after the last value pushed.
    pub tail: usize,
    /// Position up to which the slots are known to be free.
    pub limit: usize,
    /// 0: never connected; `usize::MAX`: disconnected.
    pub consumer_id: usize,
}

/// State that the consumer writes.
pub struct ConsumerCacheline {
    /// Position of the next value to pop.
    pub head: usize,
    /// 0: never connected; `usize::MAX`: disconnected.
    pub producer_id: usize,
}

/// The ring.
pub struct Buffer<T> {
    buffer_storage: Vec<Option<T>>,
    capacity: usize,
    mask: usize,
    lookahead: usize,
    pcache: ProducerCacheline,
    ccache: ConsumerCacheline,
    exponent: Ghost<nat>,
}

/// What a ring is, seen from outside.
pub struct BufferView<T> {
    /// Number of slots.
    pub capacity: nat,
    /// The values in the ring, the oldest first.
    pub items: Seq<T>,
    /// Position of the next value to pop.
    pub head: usize,
    /// Position after the last value pushed.
    pub tail: usize,
    /// Id of the producer's executor, as the consumer sees it.
    pub producer_id: usize,
    /// Id of the consumer's executor, as the producer sees it.
    pub consumer_id: usize,
}

/// Number of positions from `from` up to `to`, counted around the machine
/// word.
pub open spec fn distance(from: usize, to: usize) -> int {
    if to >= from {
        to - from
    } else {
        to - from + usize::MAX + 1
    }
}

/// The position `by` steps after `from`, counted around the machine word.
pub open spec fn advance(from: usize, by: int) -> usize {
    if from + by > usize::MAX {
        (from + by - usize::MAX - 1) as usize
    } else {
        (from + by) as usize
    }
}

/// The look-ahead stride of a ring with `capacity` slots: a quarter of the
/// capacity, at least 1 and at most `MAX_LOOKAHEAD`.
pub open spec fn lookahead_for(capacity: int) -> int {
    if capacity / 4 < 1 {
        1
    } else if capacity / 4 > 4096 {
        4096
    } else {
        capacity / 4
    }
}

/// Smallest power of two that is at least `n`.
pub open spec fn rounded_up(n: int, p: int) -> bool {
    &&& p >= n
    &&& p >= 1
    &&& exists|k: nat| #[trigger] pow2(k) == p
    &&& p > 1 ==> p / 2 < n
}

/// Two positions less than `cap` apart fall into different slots.
proof fn lemma_slots_differ(head: int, a: int, b: int, cap: int)
    requires
        cap > 0,
        0 <= head,
        0 <= a < b < cap,
    ensures
        (head + a) % cap != (head + b) % cap,
{
    lemma_fundamental_div_mod(head + a, cap);
    lemma_fundamental_div_mod(head + b, cap);
    let qa = (head + a) / cap;
    let qb = (head + b) / cap;
    if (head + a) % cap == (head + b) % cap {
        assert(b - a == cap * qb - cap * qa);
        assert(b - a == cap * (qb - qa)) by (nonlinear_arith)
            requires
                b - a == cap * qb - cap * qa,
        ;
        assert(false) by (nonlinear_arith)
            requires
                b - a == cap * (qb - qa),
                0 < b - a < cap,
        ;
    }
}

/// A position that went around the machine word falls into the slot that
/// it would fall into had it not: the word's range is a multiple of the
/// capacity.
proof fn lemma_wrapped_slot(from: usize, by: int, cap: usize, k: nat)
    requires
        cap == pow2(k),
        k < usize::BITS,
        0 <= by <= usize::MAX,
    ensures
        advance(from, by) as int % (cap as int) == (from + by) % (cap as int),
{
    unsigned_int_max_values();
    lemma_pow2_pos(k);
    if from + by > usize::MAX {
        let rest = (usize::BITS - k) as nat;
        lemma_pow2_adds(k, rest);
        assert(usize::MAX + 1 == pow2(k) * pow2(rest));
        let wrapped = from + by - usize::MAX - 1;
        assert(pow2(k) * pow2(rest) == (cap as int) * (pow2(rest) as int));
        lemma_mod_multiples_vanish(pow2(rest) as int, wrapped, cap as int);
        assert((cap as int) * (pow2(rest) as int) + wrapped == from + by);
    }
}

/// Masking a position with `cap - 1` gives its slot.
proof fn lemma_mask_is_slot(x: usize, cap: usize, k: nat)
    requires
        cap == pow2(k),
        k < usize::BITS,
    ensures
        x & ((cap - 1) as usize) == x % cap,
        (x & ((cap - 1) as usize)) < cap,
{
    lemma_pow2_pos(k);
    lemma_usize_low_bits_mask_is_mod(x, k);
    assert(low_bits_mask(k) == cap - 1);
}

/// The slot of a position that was reached by going around the machine word
/// and then `off` further is the slot of the plain sum.
proof fn lemma_slot_of_advanced(from: usize, by: int, off: int, cap: usize, k: nat)
    requires
        cap == pow2(k),
        k < usize::BITS,
        0 <= by <= usize::MAX,
        0 <= off,
    ensures
        (advance(from, by) + off) % (cap as int) == (from + by + off) % (cap as int),
{
    unsigned_int_max_values();
    lemma_pow2_pos(k);
    if from + by > usize::MAX {
        let rest = (usize::BITS - k) as nat;
        lemma_pow2_adds(k, rest);
        let wrapped = from + by - usize::MAX - 1 + off;
        assert(pow2(k) * pow2(rest) == (cap as int) * (pow2(rest) as int));
        lemma_mod_multiples_vanish(pow2(rest) as int, wrapped, cap as int);
        assert((cap as int) * (pow2(rest) as int) + wrapped == from + by + off);
    }
}

/// Going around the capacity once more leads to the same slot.
proof fn lemma_slot_repeats(x: int, cap: int)
    requires
        cap > 0,
    ensures
        (x + cap) % cap == x % cap,
{
    lemma_mod_multiples_vanish(1, x, cap);
}

/// Allocates the slots of a ring, all empty.
pub fn allocate_buffer<T>(capacity: usize) -> (slots: Vec<Option<T>>)
    ensures
        slots@.len() == capacity,
        forall|i: int| 0 <= i < capacity ==> (#[trigger] slots@[i]) is None,
{
    let mut slots: Vec<Option<T>> = Vec::new();
    let mut n: usize = 0;
    while n < capacity
        invariant
            n <= capacity,
            slots@.len() == n,
            forall|i: int| 0 <= i < n ==> (#[trigger] slots@[i]) is None,
        decreases capacity - n,
    {
        slots.push(None);
        n = n + 1;
    }
    slots
}

/// Declares `std::sync::Mutex` as an opaque type.
#[verifier::external_type_specification]
#[verifier::external_body]
#[verifier::reject_recursive_types(T)]
pub struct ExMutex<T: ?Sized>(Mutex<T>);

/// Declares `std::sync::MutexGuard` as an opaque type.
#[verifier::external_type_specification]
#[verifier::external_body]
#[verifier::reject_recursive_types(T)]
pub struct ExMutexGuard<'a, T: ?Sized + 'a>(MutexGuard<'a, T>);

/// A ring that is known to be well-formed wherever it turns up: the two
/// ends pass the ring between them in this form.
pub(crate) struct Sealed<T> {
    ring: Buffer<T>,
}

/// `Mutex::new`: a new cell that holds the ring.
#[verifier::external_body]
fn new_cell<T>(ring: Sealed<T>) -> (cell: Mutex<Option<Sealed<T>>>) {
    Mutex::new(Some(ring))
}

/// `Arc::clone`: one more handle to the same cell.
#[verifier::external_body]
fn share_again<T>(cell: &Arc<Mutex<Option<Sealed<T>>>>) -> (other: Arc<Mutex<Option<Sealed<T>>>>) {
    Arc::clone(cell)
}

/// `Mutex::lock`: waits for the cell and returns the guard. A poisoned lock
/// is taken over, so the call does not panic. Nothing is known of what the
/// cell holds: the other end may have been there.
#[verifier::external_body]
fn lock<'a, T>(cell: &'a Mutex<Option<Sealed<T>>>) -> (guard: MutexGuard<'a, Option<Sealed<T>>>) {
    cell.lock().unwrap_or_else(|poisoned| poisoned.into_inner())
}

/// `DerefMut::deref_mut` of the guard: the place that the cell guards.
#[verifier::external_body]
fn held<'a, 'b, T>(guard: &'b mut MutexGuard<'a, Option<Sealed<T>>>) -> (place: &'b mut Option<
    Sealed<T>,
>) {
    &mut **guard
}

/// The ring that a cell holds; `None` for a cell that holds none.
pub(crate) open spec fn ring_in<T>(cell: Option<Sealed<T>>) -> Option<BufferView<T>> {
    match cell {
        Some(sealed) => Some(sealed.ring()),
        None => None,
    }
}

/// Takes the ring out of a cell.
fn take_ring<T>(place: &mut Option<Sealed<T>>) -> (ring: Option<Buffer<T>>)
    ensures
        *final(place) is None,
        match *old(place) {
            Some(sealed) => ring is Some && ring->0.wf() && ring->0@ == sealed.ring(),
            None => ring is None,
        },
{
    match place.take() {
        Some(sealed) => Some(sealed.open()),
        None => None,
    }
}

/// Puts a ring into a cell.
fn put_ring<T>(place: &mut Option<Sealed<T>>, ring: Buffer<T>)
    requires
        ring.wf(),
    ensures
        ring_in(*final(place)) == Some(ring@),
{
    *place = Some(Sealed::seal(ring));
}

/// What the number of values in the cell's ring reads as; 0 for a cell
/// without a ring. The cell is left as it was.
pub(crate) fn size_in<T>(place: &mut Option<Sealed<T>>) -> (n: usize)
    ensures
        ring_in(*final(place)) == ring_in(*old(place)),
        n == match ring_in(*old(place)) {
            Some(ring) => ring.size(),
            None => 0,
        },
{
    match take_ring(place) {
        Some(ring) => {
            let n = ring.size();
            put_ring(place, ring);
            n
        },
        None => 0,
    }
}

/// Number of values that the cell's ring can still take, as `size` tells
/// it; 0 for a cell without a ring. The cell is left as it was.
pub(crate) fn free_space_in<T>(place: &mut Option<Sealed<T>>) -> (n: usize)
    ensures
        ring_in(*final(place)) == ring_in(*old(place)),
        n == match ring_in(*old(place)) {
            Some(ring) => ring.capacity - ring.size(),
            None => 0,
        },
{
    match take_ring(place) {
        Some(ring) => {
            let n = ring.free_space();
            put_ring(place, ring);
            n
        },
        None => 0,
    }
}

/// Pushes a value onto the cell's ring. The value comes back, and the cell
/// is left as it was, where the ring turns the push back or the cell holds
/// no ring.
pub(crate) fn push_in<T>(place: &mut Option<Sealed<T>>, v: T) -> (back: Option<T>)
    ensures
        match ring_in(*old(place)) {
            Some(ring) => if ring.refuses() {
                back == Some(v) && ring_in(*final(place)) == Some(ring)
            } else {
                back is None && ring_in(*final(place)) == Some(ring.pushed(v))
            },
            None => back == Some(v) && ring_in(*final(place)) is None,
        },
{
    match take_ring(place) {
        Some(ring) => {
            let mut ring = ring;
            let back = ring.try_push(v);
            put_ring(place, ring);
            back
        },
        None => Some(v),
    }
}

/// Pushes a value onto the cell's ring and tells, with what comes back,
/// whether the consumer was disconnected when the push was made. A cell
/// without a ring counts as disconnected.
pub(crate) fn push_telling_in<T>(place: &mut Option<Sealed<T>>, v: T) -> (out: (Option<T>, bool))
    ensures
        match ring_in(*old(place)) {
            Some(ring) => out.1 == ring.consumer_disconnected() && if ring.refuses() {
                out.0 == Some(v) && ring_in(*final(place)) == Some(ring)
            } else {
                out.0 is None && ring_in(*final(place)) == Some(ring.pushed(v))
            },
            None => out.0 == Some(v) && out.1 && ring_in(*final(place)) is None,
        },
{
    match take_ring(place) {
        Some(ring) => {
            let mut ring = ring;
            let gone = ring.consumer_disconnected();
            let back = ring.try_push(v);
            put_ring(place, ring);
            (back, gone)
        },
        None => (Some(v), true),
    }
}

/// Pops the oldest value off the cell's ring; `None`, and the cell left as
/// it was, where the ring is empty or the cell holds no ring.
pub(crate) fn pop_in<T>(place: &mut Option<Sealed<T>>) -> (out: Option<T>)
    ensures
        match ring_in(*old(place)) {
            Some(ring) => match out {
                Some(v) => ring.items.len() > 0 && v == ring.items[0] && ring_in(*final(place))
                    == Some(ring.popped()),
                None => ring.items.len() == 0 && ring_in(*final(place)) == Some(ring),
            },
            None => out is None && ring_in(*final(place)) is None,
        },
{
    match take_ring(place) {
        Some(ring) => {
            let mut ring = ring;
            let out = ring.try_pop();
            put_ring(place, ring);
            out
        },
        None => None,
    }
}

/// Marks the producer of the cell's ring as disconnected and says whether
/// it was so already. A cell without a ring counts as disconnected.
pub(crate) fn disconnect_producer_in<T>(place: &mut Option<Sealed<T>>) -> (was: bool)
    ensures
        match ring_in(*old(place)) {
            Some(ring) => was == ring.producer_disconnected() && ring_in(*final(place)) == Some(
                ring.without_producer(),
            ),
            None => was && ring_in(*final(place)) is None,
        },
{
    match take_ring(place) {
        Some(ring) => {
            let mut ring = ring;
            let was = ring.disconnect_producer();
            put_ring(place, ring);
            was
        },
        None => true,
    }
}

/// Marks the consumer of the cell's ring as disconnected and says whether
/// it was so already. A cell without a ring counts as disconnected.
pub(crate) fn disconnect_consumer_in<T>(place: &mut Option<Sealed<T>>) -> (was: bool)
    ensures
        match ring_in(*old(place)) {
            Some(ring) => was == ring.consumer_disconnected() && ring_in(*final(place)) == Some(
                ring.without_consumer(),
            ),
            None => was && ring_in(*final(place)) is None,
        },
{
    match take_ring(place) {
        Some(ring) => {
            let mut ring = ring;
            let was = ring.disconnect_consumer();
            put_ring(place, ring);
            was
        },
        None => true,
    }
}

/// Whether the producer of the cell's ring is disconnected. A cell without
/// a ring counts as disconnected. The cell is left as it was.
pub(crate) fn producer_gone_in<T>(place: &mut Option<Sealed<T>>) -> (gone: bool)
    ensures
        ring_in(*final(place)) == ring_in(*old(place)),
        gone == match ring_in(*old(place)) {
            Some(ring) => ring.producer_disconnected(),
            None => true,
        },
{
    match take_ring(place) {
        Some(ring) => {
            let gone = ring.producer_disconnected();
            put_ring(place, ring);
            gone
        },
        None => true,
    }
}

/// Whether the consumer of the cell's ring is disconnected. A cell without
/// a ring counts as disconnected. The cell is left as it was.
pub(crate) fn consumer_gone_in<T>(place: &mut Option<Sealed<T>>) -> (gone: bool)
    ensures
        ring_in(*final(place)) == ring_in(*old(place)),
        gone == match ring_in(*old(place)) {
            Some(ring) => ring.consumer_disconnected(),
            None => true,
        },
{
    match take_ring(place) {
        Some(ring) => {
            let gone = ring.consumer_disconnected();
            put_ring(place, ring);
            gone
        },
        None => true,
    }
}

/// Id of the producer's executor as the cell's ring has it; the disconnect
/// mark for a cell without a ring. The cell is left as it was.
pub(crate) fn producer_id_in<T>(place: &mut Option<Sealed<T>>) -> (id: usize)
    ensures
        ring_in(*final(place)) == ring_in(*old(place)),
        id == match ring_in(*old(place)) {
            Some(ring) => ring.producer_id,
            None => DISCONNECTED,
        },
{
    match take_ring(place) {
        Some(ring) => {
            let id = ring.producer_id();
            put_ring(place, ring);
            id
        },
        None => DISCONNECTED,
    }
}

/// Id of the consumer's executor as the cell's ring has it; the disconnect
/// mark for a cell without a ring. The cell is left as it was.
pub(crate) fn consumer_id_in<T>(place: &mut Option<Sealed<T>>) -> (id: usize)
    ensures
        ring_in(*final(place)) == ring_in(*old(place)),
        id == match ring_in(*old(place)) {
            Some(ring) => ring.consumer_id,
            None => DISCONNECTED,
        },
{
    match take_ring(place) {
        Some(ring) => {
            let id = ring.consumer_id();
            put_ring(place, ring);
            id
        },
        None => DISCONNECTED,
    }
}

/// Records the id of the producer's executor in the cell's ring. A cell
/// without a ring is left as it is.
pub(crate) fn connect_producer_in<T>(place: &mut Option<Sealed<T>>, id: usize)
    requires
        id != NEVER_CONNECTED,
        id != DISCONNECTED,
    ensures
        ring_in(*final(place)) == match ring_in(*old(place)) {
            Some(ring) => Some(BufferView { producer_id: id, ..ring }),
            None => None,
        },
{
    match take_ring(place) {
        Some(ring) => {
            let mut ring = ring;
            ring.connect_producer(id);
            put_ring(place, ring);
        },
        None => {},
    }
}

/// Records the id of the consumer's executor in the cell's ring. A cell
/// without a ring is left as it is.
pub(crate) fn connect_consumer_in<T>(place: &mut Option<Sealed<T>>, id: usize)
    requires
        id != NEVER_CONNECTED,
        id != DISCONNECTED,
    ensures
        ring_in(*final(place)) == match ring_in(*old(place)) {
            Some(ring) => Some(BufferView { consumer_id: id, ..ring }),
            None => None,
        },
{
    match take_ring(place) {
        Some(ring) => {
            let mut ring = ring;
            ring.connect_consumer(id);
            put_ring(place, ring);
        },
        None => {},
    }
}

/// The end of a ring that puts values in. There is one producer for a ring:
/// the type cannot be cloned.
#[verifier::reject_recursive_types(T)]
pub struct Producer<T> {
    buffer: Arc<Mutex<Option<Sealed<T>>>>,
    capacity: usize,
}

/// The end of a ring that takes values out. There is one consumer for a
/// ring: the type cannot be cloned.
#[verifier::reject_recursive_types(T)]
pub struct Consumer<T> {
    buffer: Arc<Mutex<Option<Sealed<T>>>>,
    capacity: usize,
}

/// Creates a ring with at least `capacity` slots and returns its two ends.
pub fn make<T: Send>(capacity: usize) -> (ends: (Producer<T>, Consumer<T>))
    requires
        capacity <= usize::MAX / 2 + 1,
    ensures
        rounded_up(capacity as int, ends.0.spec_capacity() as int),
        ends.1.spec_capacity() == ends.0.spec_capacity(),
{
    inner_make(capacity, 0)
}

/// Creates a ring whose positions start at `initial_value` and returns its
/// two ends.
pub fn inner_make<T>(capacity: usize, initial_value: usize) -> (ends: (Producer<T>, Consumer<T>))
    requires
        capacity <= usize::MAX / 2 + 1,
    ensures
        rounded_up(capacity as int, ends.0.spec_capacity() as int),
        ends.1.spec_capacity() == ends.0.spec_capacity(),
{
    let ring = Buffer::new(capacity, initial_value);
    let slots = ring.capacity();
    let buf = Arc::new(new_cell(Sealed::seal(ring)));
    let other = share_again(&buf);
    (Producer { buffer: other, capacity: slots }, Consumer { buffer: buf, capacity: slots })
}

impl<T> BufferView<T> {
    /// Whether the producer has disconnected.
    pub open spec fn producer_disconnected(self) -> bool {
        self.producer_id == usize::MAX
    }

    /// Whether the consumer has disconnected.
    pub open spec fn consumer_disconnected(self) -> bool {
        self.consumer_id == usize::MAX
    }

    /// Whether a push is turned back: the consumer is gone or every slot
    /// holds a value.
    pub open spec fn refuses(self) -> bool {
        self.consumer_disconnected() || self.items.len() >= self.capacity
    }

    /// The ring after a push of `v` that is not turned back.
    pub open spec fn pushed(self, v: T) -> BufferView<T> {
        BufferView { items: self.items.push(v), tail: advance(self.tail, 1), ..self }
    }

    /// The ring after a pop that found a value.
    pub open spec fn popped(self) -> BufferView<T> {
        BufferView { items: self.items.drop_first(), head: advance(self.head, 1), ..self }
    }

    /// What `size` reports: the difference of the two positions, taken as 0
    /// where `tail` has wrapped and `head` has not, and never more than the
    /// capacity.
    pub open spec fn size(self) -> int {
        let apart = if self.tail >= self.head {
            self.tail - self.head
        } else {
            0
        };
        if apart < self.capacity {
            apart
        } else {
            self.capacity as int
        }
    }

    /// The ring after the producer disconnected.
    pub open spec fn without_producer(self) -> BufferView<T> {
        BufferView { producer_id: DISCONNECTED, ..self }
    }

    /// The ring after the consumer disconnected.
    pub open spec fn without_consumer(self) -> BufferView<T> {
        BufferView { consumer_id: DISCONNECTED, ..self }
    }

    /// The ring after `n` pops that each found a value.
    pub open spec fn popped_times(self, n: nat) -> BufferView<T>
        decreases n,
    {
        if n == 0 {
            self
        } else {
            self.popped().popped_times((n - 1) as nat)
        }
    }
}

impl<T> Buffer<T> {
    /// Number of values in the ring.
    spec fn count(&self) -> int {
        distance(self.ccache.head, self.pcache.tail)
    }

    /// Number of slots from `tail` on that are known to be free.
    spec fn ahead(&self) -> int {
        distance(self.pcache.tail, self.pcache.limit)
    }

    /// Slot of the position `off` steps after `head`.
    spec fn slot_at(&self, off: int) -> int {
        (self.ccache.head + off) % (self.capacity as int)
    }

    /// The ring's invariant: the capacity is a power of two, between `head`
    /// and `tail` lie at most `capacity` positions, exactly their slots hold
    /// a value, and the slots up to `limit` are free.
    pub closed spec fn wf(&self) -> bool {
        &&& self.capacity == pow2(self.exponent@)
        &&& self.exponent@ < usize::BITS
        &&& self.mask == self.capacity - 1
        &&& self.buffer_storage@.len() == self.capacity
        &&& self.lookahead == lookahead_for(self.capacity as int)
        &&& self.count() <= self.capacity
        &&& self.count() + self.ahead() <= self.capacity
        &&& forall|off: int|
            0 <= off < self.capacity ==> ((#[trigger] self.buffer_storage@[self.slot_at(
                off,
            )]) is Some <==> off < self.count())
    }

    /// Creates an empty ring with at least `capacity` slots, rounded up to a
    /// power of two, whose positions start at `initial_value`. Neither end is
    /// connected.
    pub fn new(capacity: usize, initial_value: usize) -> (ring: Self)
        requires
            capacity <= usize::MAX / 2 + 1,
        ensures
            ring.wf(),
            rounded_up(capacity as int, ring@.capacity as int),
            ring@.items == Seq::<T>::empty(),
            ring@.head == initial_value,
            ring@.tail == initial_value,
            ring@.producer_id == NEVER_CONNECTED,
            ring@.consumer_id == NEVER_CONNECTED,
    {
        let mut rounded: usize = 1;
        let ghost mut k: nat = 0;
        proof {
            unsigned_int_max_values();
            vstd::arithmetic::power2::lemma2_to64();
        }
        while rounded < capacity
            invariant
                rounded == pow2(k),
                rounded >= 1,
                rounded > 1 ==> rounded / 2 < capacity,
                capacity <= usize::MAX / 2 + 1,
                usize::MAX as nat == pow2(usize::BITS as nat) - 1,
            decreases
                    (if capacity > rounded {
                        capacity - rounded
                    } else {
                        0
                    }),
        {
            proof {
                lemma_pow2_unfold(k + 1);
            }
            rounded = rounded * 2;
            proof {
                k = k + 1;
            }
        }
        proof {
            if k >= usize::BITS {
                if k > usize::BITS {
                    lemma_pow2_strictly_increases(usize::BITS as nat, k);
                }
                assert(false);
            }
        }
        let buffer_storage = allocate_buffer::<T>(rounded);
        let lookahead = if rounded / 4 < 1 {
            1
        } else if rounded / 4 > MAX_LOOKAHEAD {
            MAX_LOOKAHEAD
        } else {
            rounded / 4
        };
        let ring = Buffer {
            buffer_storage,
            capacity: rounded,
            mask: rounded - 1,
            lookahead,
            pcache: ProducerCacheline {
                tail: initial_value,
                limit: initial_value,
                consumer_id: NEVER_CONNECTED,
            },
            ccache: ConsumerCacheline { head: initial_value, producer_id: NEVER_CONNECTED },
            exponent: Ghost(k),
        };
        proof {
            assert(pow2(k) == rounded);
            assert(ring@.items =~= Seq::<T>::empty());
        }
        ring
    }

    /// Number of slots.
    pub fn capacity(&self) -> (n: usize)
        ensures
            n == self@.capacity,
    {
        self.capacity
    }

    /// The look-ahead stride.
    pub fn lookahead(&self) -> (stride: usize)
        requires
            self.wf(),
        ensures
            stride == lookahead_for(self@.capacity as int),
    {
        self.lookahead
    }

    /// Takes the oldest value out of the ring; `None` when the ring is
    /// empty.
    pub fn try_pop(&mut self) -> (out: Option<T>)
        requires
            old(self).wf(),
        ensures
            final(self).wf(),
            match out {
                Some(v) => old(self)@.items.len() > 0 && v == old(self)@.items[0] && final(self)@
                    == old(self)@.popped(),
                None => old(self)@.items.len() == 0 && final(self)@ == old(self)@,
            },
    {
        let ghost pre = *self;
        let head = self.ccache.head;
        let at = head & self.mask;
        proof {
            lemma_mask_is_slot(head, self.capacity, self.exponent@);
            assert(at == pre.slot_at(0));
        }
        if self.buffer_storage[at].is_none() {
            return None;
        }
        let mut taken: Option<T> = None;
        std::mem::swap(&mut self.buffer_storage[at], &mut taken);
        self.ccache.head = head.wrapping_add(1);
        proof {
            let cap = pre.capacity as int;
            let n = pre.count();
            assert(self.ccache.head == advance(head, 1));
            assert(self.count() == n - 1);
            assert forall|off: int| 0 <= off < cap implies ((#[trigger] self.buffer_storage@[self.slot_at(
                off,
            )]) is Some <==> off < self.count()) by {
                lemma_slot_of_advanced(head, 1, off, pre.capacity, pre.exponent@);
                if off < cap - 1 {
                    assert(self.slot_at(off) == pre.slot_at(off + 1));
                    lemma_slots_differ(head as int, 0, off + 1, cap);
                } else {
                    lemma_slot_repeats(head as int, cap);
                    assert(self.slot_at(off) == at);
                }
            }
            assert forall|i: int| 0 <= i < n - 1 implies self@.items[i] == pre@.items[i + 1] by {
                lemma_slot_of_advanced(head, 1, i, pre.capacity, pre.exponent@);
                assert(self.slot_at(i) == pre.slot_at(i + 1));
                lemma_slots_differ(head as int, 0, i + 1, cap);
            }
            assert(self@.items =~= pre@.items.drop_first());
        }
        taken
    }

    /// Puts a value into the ring. Hands the value back, and changes
    /// nothing, where the consumer is disconnected or the ring is full.
    pub fn try_push(&mut self, v: T) -> (back: Option<T>)
        requires
            old(self).wf(),
        ensures
            final(self).wf(),
            old(self)@.refuses() ==> back == Some(v) && final(self)@ == old(self)@,
            !old(self)@.refuses() ==> back is None && final(self)@ == old(self)@.pushed(v),
    {
        let ghost pre = *self;
        if self.consumer_disconnected() {
            return Some(v);
        }
        let tail = self.pcache.tail;
        let limit = self.pcache.limit;
        let ghost cap = pre.capacity as int;
        let ghost n = pre.count();
        let ghost head = pre.ccache.head;
        proof {
            lemma_pow2_pos(pre.exponent@);
            assert(tail == advance(head, n));
            lemma_mask_is_slot(tail, self.capacity, self.exponent@);
            lemma_slot_of_advanced(head, n, 0, pre.capacity, pre.exponent@);
            assert((tail & self.mask) == (head + n) % cap);
            if n == cap {
                lemma_slot_repeats(head as int, cap);
            }
        }
        if tail == limit {
            let idx = tail.wrapping_add(self.lookahead);
            let probe = idx & self.mask;
            proof {
                let stride = self.lookahead as int;
                assert(1 <= stride <= cap);
                assert(idx == advance(tail, stride));
                lemma_mask_is_slot(idx, self.capacity, self.exponent@);
                lemma_slot_of_advanced(tail, stride, 0, pre.capacity, pre.exponent@);
                lemma_slot_of_advanced(head, n, stride, pre.capacity, pre.exponent@);
                assert(probe == (head + n + stride) % cap);
                let o = if n + stride < cap {
                    n + stride
                } else if n + stride < 2 * cap {
                    n + stride - cap
                } else {
                    0
                };
                if n + stride >= cap {
                    lemma_slot_repeats(head + n + stride - cap, cap);
                    if n + stride >= 2 * cap {
                        lemma_slot_repeats(head + n + stride - 2 * cap, cap);
                    }
                }
                assert(probe == pre.slot_at(o));
                assert(pre.buffer_storage@[pre.slot_at(o)] is Some <==> o < n);
            }
            if self.buffer_storage[probe].is_none() {
                self.pcache.limit = idx;
                proof {
                    let stride = self.lookahead as int;
                    assert(n + stride < cap || (stride == cap && n == 0));
                    assert(self.ahead() == stride);
                }
            } else {
                let here = tail & self.mask;
                if self.buffer_storage[here].is_some() {
                    proof {
                        if n < cap {
                            assert(here == pre.slot_at(n));
                        }
                        assert(n == cap);
                    }
                    return Some(v);
                }
                self.pcache.limit = tail.wrapping_add(1);
                proof {
                    if n == cap {
                        assert(here == pre.slot_at(0));
                    }
                    assert(n < cap);
                    assert(self.ahead() == 1);
                }
            }
        }
        let ghost ready = *self;
        let here = tail & self.mask;
        proof {
            assert(ready.ahead() >= 1);
            assert(n < cap);
            assert(here == pre.slot_at(n));
        }
        self.buffer_storage[here] = Some(v);
        self.pcache.tail = tail.wrapping_add(1);
        proof {
            assert(self.pcache.tail == advance(tail, 1));
            assert(self.count() == n + 1);
            assert(self.ahead() == ready.ahead() - 1);
            assert forall|off: int| 0 <= off < cap implies ((#[trigger] self.buffer_storage@[self.slot_at(
                off,
            )]) is Some <==> off < self.count()) by {
                assert(self.slot_at(off) == pre.slot_at(off));
                if off < n {
                    lemma_slots_differ(head as int, off, n, cap);
                } else if off > n {
                    lemma_slots_differ(head as int, n, off, cap);
                }
            }
            assert forall|i: int| 0 <= i < n implies self@.items[i] == pre@.items[i] by {
                lemma_slots_differ(head as int, i, n, cap);
            }
            assert(self@.items =~= pre@.items.push(v));
        }
        None
    }

    /// Marks the consumer as disconnected. Says whether it was so already.
    pub fn disconnect_consumer(&mut self) -> (was: bool)
        ensures
            was == old(self)@.consumer_disconnected(),
            final(self)@ == old(self)@.without_consumer(),
            old(self).wf() ==> final(self).wf(),
    {
        let ghost pre = *self;
        let before = self.pcache.consumer_id;
        self.pcache.consumer_id = usize::MAX;
        proof {
            Self::lemma_ids_apart(pre, *self);
        }
        before == usize::MAX
    }

    /// Marks the producer as disconnected. Says whether it was so already.
    pub fn disconnect_producer(&mut self) -> (was: bool)
        ensures
            was == old(self)@.producer_disconnected(),
            final(self)@ == old(self)@.without_producer(),
            old(self).wf() ==> final(self).wf(),
    {
        let ghost pre = *self;
        let before = self.ccache.producer_id;
        self.ccache.producer_id = usize::MAX;
        proof {
            Self::lemma_ids_apart(pre, *self);
        }
        before == usize::MAX
    }

    /// Whether the producer is disconnected.
    pub fn producer_disconnected(&self) -> (gone: bool)
        ensures
            gone == self@.producer_disconnected(),
    {
        self.ccache.producer_id == usize::MAX
    }

    /// Whether the consumer is disconnected.
    pub fn consumer_disconnected(&self) -> (gone: bool)
        ensures
            gone == self@.consumer_disconnected(),
    {
        self.pcache.consumer_id == usize::MAX
    }

    /// Records the id of the producer's executor.
    pub fn connect_producer(&mut self, id: usize)
        requires
            id != NEVER_CONNECTED,
            id != DISCONNECTED,
        ensures
            final(self)@ == (BufferView { producer_id: id, ..old(self)@ }),
            old(self).wf() ==> final(self).wf(),
    {
        let ghost pre = *self;
        self.ccache.producer_id = id;
        proof {
            Self::lemma_ids_apart(pre, *self);
        }
    }

    /// Records the id of the consumer's executor.
    pub fn connect_consumer(&mut self, id: usize)
        requires
            id != NEVER_CONNECTED,
            id != DISCONNECTED,
        ensures
            final(self)@ == (BufferView { consumer_id: id, ..old(self)@ }),
            old(self).wf() ==> final(self).wf(),
    {
        let ghost pre = *self;
        self.pcache.consumer_id = id;
        proof {
            Self::lemma_ids_apart(pre, *self);
        }
    }

    /// Id of the producer's executor, as recorded.
    pub fn producer_id(&self) -> (id: usize)
        ensures
            id == self@.producer_id,
    {
        self.ccache.producer_id
    }

    /// Id of the consumer's executor, as recorded.
    pub fn consumer_id(&self) -> (id: usize)
        ensures
            id == self@.consumer_id,
    {
        self.pcache.consumer_id
    }

    /// Number of values in the ring as the two positions tell it: their
    /// difference, never more than the capacity, and 0 where `tail` has
    /// wrapped around the machine word and `head` has not.
    pub fn size(&self) -> (n: usize)
        ensures
            n == self@.size(),
    {
        let apart = self.pcache.tail.saturating_sub(self.ccache.head);
        if self.capacity < apart {
            self.capacity
        } else {
            apart
        }
    }

    /// The ids of the two ends play no part in the invariant or in the
    /// values held.
    proof fn lemma_ids_apart(pre: Self, post: Self)
        requires
            post.buffer_storage == pre.buffer_storage,
            post.capacity == pre.capacity,
            post.mask == pre.mask,
            post.lookahead == pre.lookahead,
            post.exponent == pre.exponent,
            post.pcache.tail == pre.pcache.tail,
            post.pcache.limit == pre.pcache.limit,
            post.ccache.head == pre.ccache.head,
        ensures
            pre.wf() ==> post.wf(),
            post@.items == pre@.items,
    {
        if pre.wf() {
            assert forall|off: int| 0 <= off < post.capacity implies ((
            #[trigger] post.buffer_storage@[post.slot_at(off)]) is Some <==> off
                < post.count()) by {
                assert(post.slot_at(off) == pre.slot_at(off));
            }
        }
        assert(post@.items =~= pre@.items);
    }

    /// Number of values that can be pushed before the ring reports itself
    /// full, as `size` tells it.
    pub fn free_space(&self) -> (n: usize)
        requires
            self.wf(),
        ensures
            n == self@.capacity - self@.size(),
    {
        self.capacity - self.size()
    }

    /// Between `head` and `tail` lie as many positions as the ring holds
    /// values, and never more than the capacity.
    pub proof fn lemma_within_capacity(&self)
        requires
            self.wf(),
        ensures
            self@.items.len() == distance(self@.head, self@.tail),
            0 <= distance(self@.head, self@.tail) <= self@.capacity,
            self@.capacity >= 1,
    {
        lemma_pow2_pos(self.exponent@);
    }
}

impl<T> View for Buffer<T> {
    type V = BufferView<T>;

    closed spec fn view(&self) -> BufferView<T> {
        BufferView {
            capacity: self.capacity as nat,
            items: Seq::new(
                self.count() as nat,
                |i: int| self.buffer_storage@[self.slot_at(i)]->0,
            ),
            head: self.ccache.head,
            tail: self.pcache.tail,
            producer_id: self.ccache.producer_id,
            consumer_id: self.pcache.consumer_id,
        }
    }
}

impl<T> Sealed<T> {
    /// A sealed ring is well-formed.
    #[verifier::type_invariant]
    spec fn sound(self) -> bool {
        self.ring.wf()
    }

    /// The ring under the seal, seen from outside.
    pub(crate) closed spec fn ring(self) -> BufferView<T> {
        self.ring@
    }

    /// Seals a well-formed ring: the seal holds the ring as it is.
    fn seal(ring: Buffer<T>) -> (sealed: Self)
        requires
            ring.wf(),
        ensures
            sealed.ring == ring,
    {
        Sealed { ring }
    }

    /// Takes the ring out of its seal.
    fn open(self) -> (ring: Buffer<T>)
        ensures
            ring.wf(),
            ring == self.ring,
    {
        proof {
            use_type_invariant(&self);
        }
        self.ring
    }
}

impl<T> Producer<T> {
    /// Number of slots of the ring.
    pub closed spec fn spec_capacity(&self) -> usize {
        self.capacity
    }

    /// A second handle to the producer's end, for the hand-over while a
    /// channel is wired up. Only one of the two may ever push.
    pub fn clone_internal(&self) -> (other: Self)
        ensures
            other.spec_capacity() == self.spec_capacity(),
    {
        Producer { buffer: share_again(&self.buffer), capacity: self.capacity }
    }

    /// Number of slots of the ring.
    pub fn capacity(&self) -> (n: usize)
        ensures
            n == self.spec_capacity(),
    {
        self.capacity
    }

    /// Number of values in the ring at the moment of the call.
    pub fn size(&self) -> (n: usize) {
        let mut guard = lock(&self.buffer);
        let place = held(&mut guard);
        size_in(place)
    }

    /// Puts a value into the ring without waiting. Returns `None` when the
    /// value went in; hands the value back when the ring is full or the
    /// consumer is disconnected.
    pub fn try_push(&self, v: T) -> (back: Option<T>)
        ensures
            back is None || back == Some(v),
    {
        let mut guard = lock(&self.buffer);
        let place = held(&mut guard);
        push_in(place, v)
    }

    /// Puts a value into the ring without waiting, as `try_push` does, and
    /// tells whether the consumer was disconnected at that moment.
    pub(crate) fn try_push_telling(&self, v: T) -> (out: (Option<T>, bool))
        ensures
            out.0 is None || out.0 == Some(v),
    {
        let mut guard = lock(&self.buffer);
        let place = held(&mut guard);
        push_telling_in(place, v)
    }

    /// Disconnects the producer, so that the consumer learns that no value
    /// will follow. Says whether the producer was disconnected already.
    pub fn disconnect(&self) -> (was: bool) {
        let mut guard = lock(&self.buffer);
        let place = held(&mut guard);
        disconnect_producer_in(place)
    }

    /// Whether the consumer is disconnected.
    pub fn consumer_disconnected(&self) -> (gone: bool) {
        let mut guard = lock(&self.buffer);
        let place = held(&mut guard);
        consumer_gone_in(place)
    }

    /// Whether the producer is disconnected.
    pub fn producer_disconnected(&self) -> (gone: bool) {
        let mut guard = lock(&self.buffer);
        let place = held(&mut guard);
        producer_gone_in(place)
    }

    /// Number of values that can be pushed before the ring is full, at the
    /// moment of the call.
    pub fn free_space(&self) -> (n: usize) {
        let mut guard = lock(&self.buffer);
        let place = held(&mut guard);
        free_space_in(place)
    }

    /// Records the id of the producer's executor, for the consumer to see.
    pub fn connect(&self, id: usize)
        requires
            id != NEVER_CONNECTED,
            id != DISCONNECTED,
    {
        let mut guard = lock(&self.buffer);
        let place = held(&mut guard);
        connect_producer_in(place, id)
    }

    /// Id of the consumer's executor: 0 while it has not connected,
    /// `usize::MAX` once it has disconnected.
    pub fn peer_id(&self) -> (id: usize) {
        let mut guard = lock(&self.buffer);
        let place = held(&mut guard);
        consumer_id_in(place)
    }
}

impl<T> Consumer<T> {
    /// Number of slots of the ring.
    pub closed spec fn spec_capacity(&self) -> usize {
        self.capacity
    }

    /// A second handle to the consumer's end, for the hand-over while a
    /// channel is wired up. Only one of the two may ever pop.
    pub fn clone_internal(&self) -> (other: Self)
        ensures
            other.spec_capacity() == self.spec_capacity(),
    {
        Consumer { buffer: share_again(&self.buffer), capacity: self.capacity }
    }

    /// Number of slots of the ring.
    pub fn capacity(&self) -> (n: usize)
        ensures
            n == self.spec_capacity(),
    {
        self.capacity
    }

    /// Number of values in the ring at the moment of the call.
    pub fn size(&self) -> (n: usize) {
        let mut guard = lock(&self.buffer);
        let place = held(&mut guard);
        size_in(place)
    }

    /// Disconnects the consumer, so that the producer's pushes are turned
    /// back from now on. Says whether the consumer was disconnected already.
    pub fn disconnect(&self) -> (was: bool) {
        let mut guard = lock(&self.buffer);
        let place = held(&mut guard);
        disconnect_consumer_in(place)
    }

    /// Whether the producer is disconnected.
    pub fn producer_disconnected(&self) -> (gone: bool) {
        let mut guard = lock(&self.buffer);
        let place = held(&mut guard);
        producer_gone_in(place)
    }

    /// Takes the oldest value out of the ring without waiting; `None` when
    /// the ring is empty.
    pub fn try_pop(&self) -> (out: Option<T>) {
        let mut guard = lock(&self.buffer);
        let place = held(&mut guard);
        pop_in(place)
    }

    /// Records the id of the consumer's executor, for the producer to see.
    pub fn connect(&self, id: usize)
        requires
            id != NEVER_CONNECTED,
            id != DISCONNECTED,
    {
        let mut guard = lock(&self.buffer);
        let place = held(&mut guard);
        connect_consumer_in(place, id)
    }

    /// Id of the producer's executor: 0 while it has not connected,
    /// `usize::MAX` once it has disconnected.
    pub fn peer_id(&self) -> (id: usize) {
        let mut guard = lock(&self.buffer);
        let place = held(&mut guard);
        producer_id_in(place)
    }
}

/// Popping `n` times takes the `n` oldest values and leaves the others in
/// their order.
pub proof fn law_pops_take_the_oldest<T>(ring: BufferView<T>, n: nat)
    requires
        n <= ring.items.len(),
    ensures
        ring.popped_times(n).items == ring.items.subrange(n as int, ring.items.len() as int),
    decreases n,
{
    if n == 0 {
        assert(ring.items.subrange(0, ring.items.len() as int) =~= ring.items);
    } else {
        law_pops_take_the_oldest(ring.popped(), (n - 1) as nat);
        assert(ring.popped().items.subrange(n - 1, ring.popped().items.len() as int)
            =~= ring.items.subrange(n as int, ring.items.len() as int));
    }
}

/// Values leave the ring in the order in which they were pushed: a value
/// pushed onto `n` others is the one that a pop finds after `n` pops.
pub proof fn law_first_in_first_out<T>(ring: BufferView<T>, v: T)
    ensures
        ring.pushed(v).popped_times(ring.items.len()).items.len() == 1,
        ring.pushed(v).popped_times(ring.items.len()).items[0] == v,
{
    law_pops_take_the_oldest(ring.pushed(v), ring.items.len());
}

/// Disconnecting an end twice is disconnecting it once: the second call
/// finds the end disconnected and leaves the ring as it is.
pub proof fn law_disconnect_twice<T>(ring: BufferView<T>)
    ensures
        ring.without_producer().producer_disconnected(),
        ring.without_producer().without_producer() == ring.without_producer(),
        ring.without_consumer().consumer_disconnected(),
        ring.without_consumer().without_consumer() == ring.without_consumer(),
        ring.without_consumer().refuses(),
{
}

} // verus!
