//! Slot arena for task storage.
//!
//! One block of `SLOT_CAPACITY` slots of `SLOT_SIZE` bytes each holds the
//! tasks of an executor. The free slots form a list: each free slot names
//! the next one, and the arena names the first. Allocation takes the first
//! slot of the list; deallocation puts a slot in front of it.
//!
//! The arena works on addresses. It is told where its block lies and keeps
//! the links of the free list itself; it never touches the block.
use vstd::prelude::*;

verus! {

/// Bytes in one slot.
pub const SLOT_SIZE: usize = 1024;

/// Largest size that a slot can take.
pub const MAX_TASK_SIZE: usize = 1024;

/// Largest alignment that a slot can give.
pub const MAX_ALIGN: usize = 64;

/// Number of slots.
pub const SLOT_CAPACITY: usize = 100_000;

/// Bytes in the whole block.
pub const ARENA_BYTES: usize = 102_400_000;

/// Marks the end of the free list.
pub const FREE_LIST_END: u32 = u32::MAX;

/// Counters of an arena.
#[derive(Debug, Clone, Copy, PartialEq, Eq, Structural)]
pub struct ArenaStats {
    pub arena_allocs: usize,
    pub arena_deallocs: usize,
    pub heap_fallback_allocs: usize,
    pub active_slots: usize,
    pub peak_active: usize,
    pub slot_capacity: usize,
}

/// The arena.
pub struct TaskArena {
    memory: usize,
    capacity: usize,
    links: Vec<u32>,
    free_head: u32,
    arena_allocs: usize,
    arena_deallocs: usize,
    heap_fallback_allocs: usize,
    active_slots: usize,
    peak_active: usize,
    free: Ghost<Seq<u32>>,
}

/// What an arena is, seen from outside.
pub struct ArenaView {
    /// Address of the block.
    pub base: usize,
    /// The free slots, the one that is handed out next first.
    pub free: Seq<u32>,
    /// The counters.
    pub stats: ArenaStats,
}

/// The address of a slot is the start of that slot.
pub proof fn lemma_slot_round_trip(arena: ArenaView, slot: u32)
    requires
        slot < SLOT_CAPACITY,
        arena.base + ARENA_BYTES <= usize::MAX,
    ensures
        arena.is_slot(arena.address_of(slot)),
        arena.slot_of(arena.address_of(slot)) == slot,
{
    assert((slot * 1024) % 1024 == 0) by (nonlinear_arith);
    assert((slot * 1024) / 1024 == slot) by (nonlinear_arith);
}

impl ArenaView {
    /// Whether an address lies in the block.
    pub open spec fn in_range(self, addr: usize) -> bool {
        self.base <= addr < self.base + ARENA_BYTES
    }

    /// Whether an address is the start of a slot.
    pub open spec fn is_slot(self, addr: usize) -> bool {
        self.in_range(addr) && (addr - self.base) % (SLOT_SIZE as int) == 0
    }

    /// Slot that an address of the block lies in.
    pub open spec fn slot_of(self, addr: usize) -> u32 {
        ((addr - self.base) / (SLOT_SIZE as int)) as u32
    }

    /// Address at which a slot starts.
    pub open spec fn address_of(self, slot: u32) -> usize {
        (self.base + slot * SLOT_SIZE) as usize
    }

    /// Whether a request is served: it fits a slot and a slot is free.
    pub open spec fn serves(self, size: usize, align: usize) -> bool {
        size <= MAX_TASK_SIZE && align <= MAX_ALIGN && self.free.len() > 0
    }

    /// What an allocation returns: the address of the first free slot.
    pub open spec fn allocated(self, size: usize, align: usize) -> Option<usize> {
        if self.serves(size, align) {
            Some(self.address_of(self.free[0]))
        } else {
            None
        }
    }

    /// The arena after an allocation.
    pub open spec fn allocate(self, size: usize, align: usize) -> ArenaView {
        if self.serves(size, align) {
            let active = (self.stats.active_slots + 1) as usize;
            ArenaView {
                free: self.free.drop_first(),
                stats: ArenaStats {
                    arena_allocs: (self.stats.arena_allocs + 1) as usize,
                    active_slots: active,
                    peak_active: if active > self.stats.peak_active {
                        active
                    } else {
                        self.stats.peak_active
                    },
                    ..self.stats
                },
                ..self
            }
        } else {
            self
        }
    }

    /// The arena after the deallocation of an address: the slot that starts
    /// there goes to the front of the free list; any other address changes
    /// nothing.
    pub open spec fn deallocate(self, addr: usize) -> ArenaView {
        if self.is_slot(addr) {
            ArenaView {
                free: seq![self.slot_of(addr)] + self.free,
                stats: ArenaStats {
                    arena_deallocs: (self.stats.arena_deallocs + 1) as usize,
                    active_slots: (self.stats.active_slots - 1) as usize,
                    ..self.stats
                },
                ..self
            }
        } else {
            self
        }
    }

    /// The arena after a reset: every slot is free, in the order of the
    /// slots, and the counters are 0.
    pub open spec fn reset(self) -> ArenaView {
        ArenaView {
            base: self.base,
            free: Seq::new(SLOT_CAPACITY as nat, |i: int| i as u32),
            stats: ArenaStats {
                arena_allocs: 0,
                arena_deallocs: 0,
                heap_fallback_allocs: 0,
                active_slots: 0,
                peak_active: 0,
                slot_capacity: SLOT_CAPACITY,
            },
        }
    }
}

impl View for TaskArena {
    type V = ArenaView;

    closed spec fn view(&self) -> ArenaView {
        ArenaView {
            base: self.memory,
            free: self.free@,
            stats: ArenaStats {
                arena_allocs: self.arena_allocs,
                arena_deallocs: self.arena_deallocs,
                heap_fallback_allocs: self.heap_fallback_allocs,
                active_slots: self.active_slots,
                peak_active: self.peak_active,
                slot_capacity: SLOT_CAPACITY,
            },
        }
    }
}

impl TaskArena {
    /// The invariant: the free list names each free slot once, the links
    /// lead from each free slot to the next, and the counters agree with the
    /// list.
    pub closed spec fn wf(&self) -> bool {
        &&& self.capacity == ARENA_BYTES
        &&& self.memory + ARENA_BYTES <= usize::MAX
        &&& self.links@.len() == SLOT_CAPACITY
        &&& self.free@.len() <= SLOT_CAPACITY
        &&& forall|i: int| 0 <= i < self.free@.len() ==> (#[trigger] self.free@[i]) < SLOT_CAPACITY
        &&& forall|i: int, j: int|
            0 <= i < j < self.free@.len() ==> self.free@[i] != self.free@[j]
        &&& self.free_head == if self.free@.len() == 0 {
            FREE_LIST_END
        } else {
            self.free@[0]
        }
        &&& forall|i: int|
            0 <= i < self.free@.len() ==> #[trigger] self.links@[self.free@[i] as int] == if i + 1
                < self.free@.len() {
                self.free@[i + 1]
            } else {
                FREE_LIST_END
            }
        &&& self.active_slots + self.free@.len() == SLOT_CAPACITY
        &&& self.arena_deallocs + self.active_slots == self.arena_allocs
        &&& self.active_slots <= self.peak_active <= SLOT_CAPACITY
    }

    /// Creates the arena of a block that lies at `memory`. Every slot is
    /// free.
    pub fn new(memory: usize) -> (arena: Self)
        requires
            memory + ARENA_BYTES <= usize::MAX,
        ensures
            arena.wf(),
            arena@ == (ArenaView { base: memory, ..arena@ }).reset(),
    {
        let mut links: Vec<u32> = Vec::new();
        let mut n: usize = 0;
        while n < SLOT_CAPACITY
            invariant
                n <= SLOT_CAPACITY,
                links@.len() == n,
            decreases SLOT_CAPACITY - n,
        {
            links.push(FREE_LIST_END);
            n = n + 1;
        }
        let mut arena = TaskArena {
            memory,
            capacity: ARENA_BYTES,
            links,
            free_head: FREE_LIST_END,
            arena_allocs: 0,
            arena_deallocs: 0,
            heap_fallback_allocs: 0,
            active_slots: 0,
            peak_active: 0,
            free: Ghost(Seq::empty()),
        };
        arena.initialize_free_list();
        arena
    }

    /// Threads every slot into the free list: each slot names the next, the
    /// last names the end, and the list starts at slot 0.
    fn initialize_free_list(&mut self)
        requires
            old(self).links@.len() == SLOT_CAPACITY,
            old(self).capacity == ARENA_BYTES,
            old(self).memory + ARENA_BYTES <= usize::MAX,
            old(self).active_slots == 0,
            old(self).peak_active == 0,
            old(self).arena_allocs == 0,
            old(self).arena_deallocs == 0,
            old(self).heap_fallback_allocs == 0,
        ensures
            final(self).wf(),
            final(self)@ == old(self)@.reset(),
    {
        let mut i: usize = 0;
        while i < SLOT_CAPACITY - 1
            invariant
                i <= SLOT_CAPACITY - 1,
                self.links@.len() == SLOT_CAPACITY,
                forall|k: int| 0 <= k < i ==> #[trigger] self.links@[k] == k + 1,
                self.capacity == old(self).capacity,
                self.memory == old(self).memory,
                self.active_slots == 0,
                self.peak_active == 0,
                self.arena_allocs == 0,
                self.arena_deallocs == 0,
                self.heap_fallback_allocs == 0,
            decreases SLOT_CAPACITY - 1 - i,
        {
            self.links[i] = (i + 1) as u32;
            i = i + 1;
        }
        self.links[SLOT_CAPACITY - 1] = FREE_LIST_END;
        self.free_head = 0;
        proof {
            self.free = Ghost(Seq::new(SLOT_CAPACITY as nat, |i: int| i as u32));
        }
    }

    /// Takes a slot for a request of `size` bytes aligned to `align`.
    /// Returns the address of the slot; `None` where the request does not
    /// fit a slot or no slot is free.
    pub fn try_allocate(&mut self, size: usize, align: usize) -> (slot: Option<usize>)
        requires
            old(self).wf(),
            old(self)@.stats.arena_allocs < usize::MAX,
        ensures
            final(self).wf(),
            slot == old(self)@.allocated(size, align),
            final(self)@ == old(self)@.allocate(size, align),
    {
        if size > MAX_TASK_SIZE || align > MAX_ALIGN {
            return None;
        }
        if self.free_head == FREE_LIST_END {
            return None;
        }
        let ghost pre = *self;
        let slot_index = self.free_head as usize;
        let offset = slot_index * SLOT_SIZE;
        let next_free = self.links[slot_index];
        self.free_head = next_free;
        self.arena_allocs = self.arena_allocs + 1;
        self.active_slots = self.active_slots + 1;
        if self.active_slots > self.peak_active {
            self.peak_active = self.active_slots;
        }
        proof {
            self.free = Ghost(pre.free@.drop_first());
            assert(pre.free@[0] < SLOT_CAPACITY);
            assert forall|i: int| 0 <= i < self.free@.len() implies #[trigger] self.links@[self.free@[i] as int]
                == if i + 1 < self.free@.len() {
                self.free@[i + 1]
            } else {
                FREE_LIST_END
            } by {
                assert(self.free@[i] == pre.free@[i + 1]);
                assert(pre.links@[pre.free@[i + 1] as int] == if i + 2 < pre.free@.len() {
                    pre.free@[i + 2]
                } else {
                    FREE_LIST_END
                });
            }
            assert forall|i: int, j: int| 0 <= i < j < self.free@.len() implies self.free@[i]
                != self.free@[j] by {
                assert(pre.free@[i + 1] != pre.free@[j + 1]);
            }
            assert forall|i: int| 0 <= i < self.free@.len() implies (#[trigger] self.free@[i])
                < SLOT_CAPACITY by {
                assert(pre.free@[i + 1] < SLOT_CAPACITY);
            }
        }
        Some(self.memory + offset)
    }

    /// Gives the slot that starts at `addr` back to the arena. Returns
    /// `false`, and changes nothing, where the address lies outside the
    /// block or is not the start of a slot.
    ///
    /// The slot must be in use: giving back a free slot would tie the free
    /// list into a knot.
    pub fn try_deallocate(&mut self, addr: usize) -> (recycled: bool)
        requires
            old(self).wf(),
            old(self)@.is_slot(addr) ==> !old(self)@.free.contains(old(self)@.slot_of(addr)),
        ensures
            final(self).wf(),
            recycled == old(self)@.is_slot(addr),
            final(self)@ == old(self)@.deallocate(addr),
    {
        let start = self.memory;
        let end = start + self.capacity;
        if addr < start || addr >= end {
            return false;
        }
        let offset = addr - start;
        if offset % SLOT_SIZE != 0 {
            return false;
        }
        let ghost pre = *self;
        let slot_index = offset / SLOT_SIZE;
        proof {
            Self::lemma_some_slot_in_use(pre.free@, slot_index as u32);
        }
        self.links[slot_index] = self.free_head;
        self.free_head = slot_index as u32;
        self.arena_deallocs = self.arena_deallocs + 1;
        self.active_slots = self.active_slots - 1;
        proof {
            let slot = slot_index as u32;
            self.free = Ghost(seq![slot] + pre.free@);
            assert forall|i: int| 0 <= i < self.free@.len() implies #[trigger] self.links@[self.free@[i] as int]
                == if i + 1 < self.free@.len() {
                self.free@[i + 1]
            } else {
                FREE_LIST_END
            } by {
                if i > 0 {
                    assert(self.free@[i] == pre.free@[i - 1]);
                    assert(pre.free@.contains(pre.free@[i - 1]));
                    assert(pre.links@[pre.free@[i - 1] as int] == if i < pre.free@.len() {
                        pre.free@[i]
                    } else {
                        FREE_LIST_END
                    });
                }
            }
            assert forall|i: int, j: int| 0 <= i < j < self.free@.len() implies self.free@[i]
                != self.free@[j] by {
                assert(pre.free@.contains(pre.free@[j - 1]));
                if i > 0 {
                    assert(pre.free@[i - 1] != pre.free@[j - 1]);
                }
            }
            assert forall|i: int| 0 <= i < self.free@.len() implies (#[trigger] self.free@[i])
                < SLOT_CAPACITY by {
                if i > 0 {
                    assert(pre.free@[i - 1] < SLOT_CAPACITY);
                }
            }
        }
        true
    }

    /// A list of distinct slots that lacks one slot is shorter than the
    /// number of slots.
    proof fn lemma_some_slot_in_use(free: Seq<u32>, slot: u32)
        requires
            slot < SLOT_CAPACITY,
            !free.contains(slot),
            forall|i: int| 0 <= i < free.len() ==> (#[trigger] free[i]) < SLOT_CAPACITY,
            forall|i: int, j: int| 0 <= i < j < free.len() ==> free[i] != free[j],
        ensures
            free.len() < SLOT_CAPACITY,
    {
        let all = Set::new(|s: u32| s < SLOT_CAPACITY);
        let rest = all.remove(slot);
        assert(all =~= Set::new(|s: u32| 0 <= s < 100_000u32));
        vstd::set_lib::lemma_int_range(0, 100_000);
        let ints = vstd::set_lib::set_int_range(0, 100_000);
        let as_slot = |i: int| i as u32;
        assert(ints.map(as_slot) =~= all) by {
            assert forall|s: u32| all.contains(s) implies ints.map(as_slot).contains(s) by {
                assert(ints.contains(s as int));
                assert(as_slot(s as int) == s);
            }
        }
        vstd::set_lib::lemma_map_size_bound(ints, all, as_slot);
        assert(all.finite() && all.len() <= 100_000);
        free.unique_seq_to_set();
        assert(free.to_set().subset_of(rest)) by {
            assert forall|s: u32| free.to_set().contains(s) implies rest.contains(s) by {
                let i = choose|i: int| 0 <= i < free.len() && free[i] == s;
                assert(free[i] < SLOT_CAPACITY);
            }
        }
        vstd::set_lib::lemma_len_subset(free.to_set(), rest);
    }

    /// The counters.
    pub fn stats(&self) -> (stats: ArenaStats)
        ensures
            stats == self@.stats,
    {
        ArenaStats {
            arena_allocs: self.arena_allocs,
            arena_deallocs: self.arena_deallocs,
            heap_fallback_allocs: self.heap_fallback_allocs,
            active_slots: self.active_slots,
            peak_active: self.peak_active,
            slot_capacity: SLOT_CAPACITY,
        }
    }

    /// Forgets every allocation: the counters go to 0 and the free list is
    /// built anew over all slots.
    pub fn reset(&mut self)
        requires
            old(self).wf(),
        ensures
            final(self).wf(),
            final(self)@ == old(self)@.reset(),
    {
        self.arena_allocs = 0;
        self.arena_deallocs = 0;
        self.heap_fallback_allocs = 0;
        self.active_slots = 0;
        self.peak_active = 0;
        self.initialize_free_list();
    }

    /// Index of the slot that starts at an address of the block.
    pub fn slot_index(&self, addr: usize) -> (slot: u32)
        requires
            self.wf(),
            self@.is_slot(addr),
        ensures
            slot == self@.slot_of(addr),
            slot < SLOT_CAPACITY,
            self@.address_of(slot) == addr,
    {
        let offset = addr - self.memory;
        proof {
            assert(offset == 1024 * (offset / 1024) + offset % 1024);
        }
        (offset / SLOT_SIZE) as u32
    }

    /// Address at which the slot with this index starts.
    pub fn slot_address(&self, slot: u32) -> (addr: usize)
        requires
            self.wf(),
            slot < SLOT_CAPACITY,
        ensures
            addr == self@.address_of(slot),
            self@.is_slot(addr),
            self@.slot_of(addr) == slot,
    {
        let offset = (slot as usize) * SLOT_SIZE;
        proof {
            assert((slot * 1024) % 1024 == 0) by (nonlinear_arith);
            assert((slot * 1024) / 1024 == slot) by (nonlinear_arith);
        }
        self.memory + offset
    }

    /// The free list names slots of the block, each once.
    pub proof fn lemma_free_list(&self)
        requires
            self.wf(),
        ensures
            self@.base + ARENA_BYTES <= usize::MAX,
            self@.free.len() + self@.stats.active_slots == SLOT_CAPACITY,
            forall|i: int| 0 <= i < self@.free.len() ==> (#[trigger] self@.free[i]) < SLOT_CAPACITY,
            forall|i: int, j: int|
                0 <= i < j < self@.free.len() ==> self@.free[i] != self@.free[j],
            self@.stats.arena_deallocs + self@.stats.active_slots == self@.stats.arena_allocs,
            self@.stats.active_slots <= self@.stats.peak_active <= SLOT_CAPACITY,
            self@.stats.slot_capacity == SLOT_CAPACITY,
    {
    }

    /// Address of the block.
    pub fn base(&self) -> (addr: usize)
        ensures
            addr == self@.base,
    {
        self.memory
    }

    /// Whether the slot with this index is free. Walks the free list.
    pub fn is_free(&self, slot: u32) -> (free: bool)
        requires
            self.wf(),
        ensures
            free == self@.free.contains(slot),
    {
        let mut at = self.free_head;
        let mut n: usize = 0;
        while at != FREE_LIST_END
            invariant
                self.wf(),
                n <= self.free@.len(),
                at == if n < self.free@.len() {
                    self.free@[n as int]
                } else {
                    FREE_LIST_END
                },
                forall|i: int| 0 <= i < n ==> self.free@[i] != slot,
            decreases self.free@.len() - n,
        {
            if at == slot {
                return true;
            }
            at = self.links[at as usize];
            n = n + 1;
        }
        false
    }
}

/// Where the block is aligned to the largest alignment that the arena
/// gives, so is every slot.
pub proof fn law_slots_are_aligned(arena: ArenaView, slot: u32)
    requires
        slot < SLOT_CAPACITY,
        arena.base + ARENA_BYTES <= usize::MAX,
        arena.base % MAX_ALIGN == 0,
    ensures
        arena.address_of(slot) % MAX_ALIGN == 0,
        arena.in_range(arena.address_of(slot)),
        arena.address_of(slot) + SLOT_SIZE <= arena.base + ARENA_BYTES,
{
    assert((slot * 1024) % 64 == 0) by (nonlinear_arith);
    assert(slot * 1024 + 1024 <= 102_400_000) by (nonlinear_arith)
        requires
            slot < 100_000,
    ;
}

/// A slot that was allocated and given back is the one that the next
/// allocation returns: the address stays in the same arena.
pub proof fn law_alloc_dealloc_alloc(arena: ArenaView, size: usize, align: usize)
    requires
        arena.serves(size, align),
        arena.base + ARENA_BYTES <= usize::MAX,
        arena.free[0] < SLOT_CAPACITY,
    ensures
        arena.allocated(size, align) is Some,
        arena.in_range(arena.allocated(size, align)->0),
        arena.is_slot(arena.allocated(size, align)->0),
        arena.allocate(size, align).deallocate(arena.allocated(size, align)->0).allocated(
            size,
            align,
        ) == arena.allocated(size, align),
        arena.allocate(size, align).deallocate(arena.allocated(size, align)->0).free == arena.free,
{
    let addr = arena.allocated(size, align)->0;
    let slot = arena.free[0];
    assert(addr == arena.base + slot * 1024);
    assert((slot * 1024) % 1024 == 0) by (nonlinear_arith);
    assert((slot * 1024) / 1024 == slot) by (nonlinear_arith);
    let after = arena.allocate(size, align);
    assert(after.slot_of(addr) == slot);
    assert(seq![slot] + arena.free.drop_first() =~= arena.free);
}
} // verus!
