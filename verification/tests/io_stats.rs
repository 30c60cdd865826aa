use glommio::io_stats::{IoKind, IoStats};

#[test]
fn nothing_is_counted_at_first() {
    let stats = IoStats::new();
    assert_eq!(stats.file_reads, 0);
    assert_eq!(stats.file_bytes_written, 0);
    assert_eq!(stats.files_opened, 0);
    assert_eq!(stats.files_closed, 0);
}

#[test]
fn each_kind_counts_in_its_own_place() {
    let mut stats = IoStats::new();
    stats.fulfilled(IoKind::DmaRead, Some(4096), 1);
    stats.fulfilled(IoKind::DmaRead, Some(512), 3);
    assert_eq!((stats.file_reads, stats.file_bytes_read), (4, 4096 + 3 * 512));
    stats.fulfilled(IoKind::DmaReadReused, Some(100), 2);
    assert_eq!((stats.file_deduped_reads, stats.file_deduped_bytes_read), (2, 200));
    stats.fulfilled(IoKind::BufferedRead, Some(7), 1);
    assert_eq!((stats.file_buffered_reads, stats.file_buffered_bytes_read), (1, 7));
    stats.fulfilled(IoKind::DmaWrite, Some(10), 5);
    assert_eq!((stats.file_writes, stats.file_bytes_written), (5, 50));
    stats.fulfilled(IoKind::BufferedWrite, Some(9), 1);
    assert_eq!((stats.file_buffered_writes, stats.file_buffered_bytes_written), (1, 9));
    stats.fulfilled(IoKind::Open, Some(0), 1);
    stats.fulfilled(IoKind::Open, Some(3), 1);
    stats.fulfilled(IoKind::Close, Some(0), 4);
    assert_eq!((stats.files_opened, stats.files_closed), (2, 4));
    assert_eq!((stats.file_reads, stats.file_bytes_read), (4, 4096 + 3 * 512));
}

#[test]
fn a_copy_counts_as_a_read_and_a_write() {
    let mut stats = IoStats::new();
    stats.fulfilled(IoKind::CopyFileRange, Some(1000), 2);
    assert_eq!(stats.file_reads, 2);
    assert_eq!(stats.file_bytes_read, 2000);
    assert_eq!(stats.file_writes, 2);
    assert_eq!(stats.file_bytes_written, 2000);
}

#[test]
fn failed_operations_count_nothing() {
    let mut stats = IoStats::new();
    stats.fulfilled(IoKind::DmaRead, Some(1), 1);
    let before = stats;
    for kind in [
        IoKind::DmaRead,
        IoKind::DmaReadReused,
        IoKind::BufferedRead,
        IoKind::DmaWrite,
        IoKind::BufferedWrite,
        IoKind::CopyFileRange,
        IoKind::Open,
        IoKind::Close,
    ] {
        stats.fulfilled(kind, None, 9);
    }
    assert_eq!(stats, before);
}

#[test]
fn counters_wrap_around() {
    let mut stats = IoStats::new();
    stats.file_writes = u64::MAX;
    stats.file_bytes_written = u64::MAX - 5;
    stats.fulfilled(IoKind::DmaWrite, Some(4), 2);
    assert_eq!(stats.file_writes, 1);
    assert_eq!(stats.file_bytes_written, 2);
    stats.fulfilled(IoKind::DmaWrite, Some(usize::MAX), 2);
    assert_eq!(stats.file_writes, 3);
    assert_eq!(stats.file_bytes_written, 2u64.wrapping_add((usize::MAX as u64).wrapping_mul(2)));
}
