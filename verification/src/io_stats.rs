//! Counters of the I/O that an executor has done.
//!
//! When the kernel reports that an operation is done, the reactor counts
//! the operation and the bytes it moved. One completion can stand for
//! several requests that were merged; `op_count` is their number. The
//! counters are 64 bits wide and wrap around.
use vstd::arithmetic::div_mod::lemma_add_mod_noop_right;
use vstd::arithmetic::div_mod::lemma_small_mod;
use vstd::prelude::*;

verus! {

/// What kind of operation was done.
#[derive(Clone, Copy, Debug, PartialEq, Eq, Structural)]
pub enum IoKind {
    /// A direct read from a file.
    DmaRead,
    /// A direct read that was served by a read already under way.
    DmaReadReused,
    /// A read through the page cache.
    BufferedRead,
    /// A direct write to a file.
    DmaWrite,
    /// A write through the page cache.
    BufferedWrite,
    /// A copy from one file to another inside the kernel.
    CopyFileRange,
    /// A file was opened.
    Open,
    /// A file was closed.
    Close,
}

/// The counters.
#[derive(Clone, Copy, Debug, PartialEq, Eq, Structural)]
pub struct IoStats {
    pub file_reads: u64,
    pub file_bytes_read: u64,
    pub file_deduped_reads: u64,
    pub file_deduped_bytes_read: u64,
    pub file_buffered_reads: u64,
    pub file_buffered_bytes_read: u64,
    pub file_writes: u64,
    pub file_bytes_written: u64,
    pub file_buffered_writes: u64,
    pub file_buffered_bytes_written: u64,
    pub files_opened: u64,
    pub files_closed: u64,
}

/// A number as a 64-bit counter shows it.
pub open spec fn wrapped(x: int) -> u64 {
    (x % 0x1_0000_0000_0000_0000) as u64
}

/// Adds a number of operations to a counter.
fn count(total: u64, op_count: u64) -> (sum: u64)
    ensures
        sum == wrapped(total + op_count),
{
    proof {
        if total + op_count <= u64::MAX {
            lemma_small_mod((total + op_count) as nat, 0x1_0000_0000_0000_0000);
        } else {
            lemma_small_mod(
                (total + op_count - 0x1_0000_0000_0000_0000) as nat,
                0x1_0000_0000_0000_0000,
            );
            vstd::arithmetic::div_mod::lemma_mod_multiples_vanish(
                1,
                total + op_count - 0x1_0000_0000_0000_0000,
                0x1_0000_0000_0000_0000,
            );
        }
    }
    total.wrapping_add(op_count)
}

/// Adds the bytes of a number of operations to a counter.
fn transfer(total: u64, bytes: usize, op_count: u64) -> (sum: u64)
    ensures
        sum == wrapped(total + bytes * op_count),
{
    let moved = (bytes as u64).wrapping_mul(op_count);
    proof {
        let m = 0x1_0000_0000_0000_0000int;
        assert(moved == (bytes * op_count) % m);
        lemma_add_mod_noop_right(total as int, bytes * op_count, m);
    }
    count(total, moved)
}

impl IoStats {
    /// The counters after an operation of the given kind was done:
    /// `result` is the number of bytes that one request moved, `None` where
    /// the operation failed, and `op_count` the number of requests that the
    /// completion stands for. A failed operation counts nothing.
    pub open spec fn after(self, kind: IoKind, result: Option<usize>, op_count: u64) -> IoStats {
        match result {
            None => self,
            Some(bytes) => match kind {
                IoKind::DmaRead => IoStats {
                    file_reads: wrapped(self.file_reads + op_count),
                    file_bytes_read: wrapped(self.file_bytes_read + bytes * op_count),
                    ..self
                },
                IoKind::DmaReadReused => IoStats {
                    file_deduped_reads: wrapped(self.file_deduped_reads + op_count),
                    file_deduped_bytes_read: wrapped(
                        self.file_deduped_bytes_read + bytes * op_count,
                    ),
                    ..self
                },
                IoKind::BufferedRead => IoStats {
                    file_buffered_reads: wrapped(self.file_buffered_reads + op_count),
                    file_buffered_bytes_read: wrapped(
                        self.file_buffered_bytes_read + bytes * op_count,
                    ),
                    ..self
                },
                IoKind::DmaWrite => IoStats {
                    file_writes: wrapped(self.file_writes + op_count),
                    file_bytes_written: wrapped(self.file_bytes_written + bytes * op_count),
                    ..self
                },
                IoKind::BufferedWrite => IoStats {
                    file_buffered_writes: wrapped(self.file_buffered_writes + op_count),
                    file_buffered_bytes_written: wrapped(
                        self.file_buffered_bytes_written + bytes * op_count,
                    ),
                    ..self
                },
                IoKind::CopyFileRange => IoStats {
                    file_reads: wrapped(self.file_reads + op_count),
                    file_bytes_read: wrapped(self.file_bytes_read + bytes * op_count),
                    file_writes: wrapped(self.file_writes + op_count),
                    file_bytes_written: wrapped(self.file_bytes_written + bytes * op_count),
                    ..self
                },
                IoKind::Open => IoStats {
                    files_opened: wrapped(self.files_opened + op_count),
                    ..self
                },
                IoKind::Close => IoStats {
                    files_closed: wrapped(self.files_closed + op_count),
                    ..self
                },
            },
        }
    }

    /// Counters that have counted nothing.
    pub fn new() -> (stats: Self)
        ensures
            stats == (IoStats {
                file_reads: 0,
                file_bytes_read: 0,
                file_deduped_reads: 0,
                file_deduped_bytes_read: 0,
                file_buffered_reads: 0,
                file_buffered_bytes_read: 0,
                file_writes: 0,
                file_bytes_written: 0,
                file_buffered_writes: 0,
                file_buffered_bytes_written: 0,
                files_opened: 0,
                files_closed: 0,
            }),
    {
        IoStats {
            file_reads: 0,
            file_bytes_read: 0,
            file_deduped_reads: 0,
            file_deduped_bytes_read: 0,
            file_buffered_reads: 0,
            file_buffered_bytes_read: 0,
            file_writes: 0,
            file_bytes_written: 0,
            file_buffered_writes: 0,
            file_buffered_bytes_written: 0,
            files_opened: 0,
            files_closed: 0,
        }
    }

    /// Counts an operation that was done.
    pub fn fulfilled(&mut self, kind: IoKind, result: Option<usize>, op_count: u64)
        ensures
            *final(self) == old(self).after(kind, result, op_count),
    {
        let bytes = match result {
            Some(bytes) => bytes,
            None => {
                return ;
            },
        };
        match kind {
            IoKind::DmaRead => {
                self.file_reads = count(self.file_reads, op_count);
                self.file_bytes_read = transfer(self.file_bytes_read, bytes, op_count);
            },
            IoKind::DmaReadReused => {
                self.file_deduped_reads = count(self.file_deduped_reads, op_count);
                self.file_deduped_bytes_read = transfer(
                    self.file_deduped_bytes_read,
                    bytes,
                    op_count,
                );
            },
            IoKind::BufferedRead => {
                self.file_buffered_reads = count(self.file_buffered_reads, op_count);
                self.file_buffered_bytes_read = transfer(
                    self.file_buffered_bytes_read,
                    bytes,
                    op_count,
                );
            },
            IoKind::DmaWrite => {
                self.file_writes = count(self.file_writes, op_count);
                self.file_bytes_written = transfer(self.file_bytes_written, bytes, op_count);
            },
            IoKind::BufferedWrite => {
                self.file_buffered_writes = count(self.file_buffered_writes, op_count);
                self.file_buffered_bytes_written = transfer(
                    self.file_buffered_bytes_written,
                    bytes,
                    op_count,
                );
            },
            IoKind::CopyFileRange => {
                self.file_reads = count(self.file_reads, op_count);
                self.file_bytes_read = transfer(self.file_bytes_read, bytes, op_count);
                self.file_writes = count(self.file_writes, op_count);
                self.file_bytes_written = transfer(self.file_bytes_written, bytes, op_count);
            },
            IoKind::Open => {
                self.files_opened = count(self.files_opened, op_count);
            },
            IoKind::Close => {
                self.files_closed = count(self.files_closed, op_count);
            },
        }
    }
}
} // verus!
