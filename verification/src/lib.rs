//! Verified core of a thread-per-core cooperative runtime.
//!
//! Each executor runs on a thread of its own and shares nothing with the
//! others but the rings of its channels. This crate holds the parts of an
//! executor that decide: which slot a task gets and what each event does to
//! it, when a timer fires, what a ring hands over and in which order, which
//! wakers a round of the reactor collects and how long the reactor may then
//! sleep. Reading the clock, owning memory, polling futures, firing wakers and
//! talking to the kernel are left to the caller.
//!
//! * [`task`]: the slot arena and the life cycle of a task.
//! * [`executor`]: the arena, the task headers and the run queues together.
//! * [`timer`]: the hierarchical timing wheel, its staged front end, and the
//!   reactor's table of timers.
//! * [`channels`]: the single-producer single-consumer ring, the channel ends
//!   built on it, and the mesh that connects executors pairwise.
//! * [`reactor`]: the wakers of the shared channels, one round of the
//!   reactor, and the length of its sleep.
//! * [`io_stats`]: the counters of the I/O done.
pub mod channels;
pub mod executor;
pub mod io_stats;
pub mod reactor;
pub mod task;
pub mod timer;
pub mod wake;
