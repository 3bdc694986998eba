use zippy::metrics::{is_update_due, Metrics, MetricsSummary, ProgressTracker};

fn percent(part: u128, whole: u128) -> f64 {
    if whole == 0 {
        return 0.0;
    }
    (part as f64 / whole as f64) * 100.0
}

#[test]
fn test_metrics_basic_operations() {
    let mut metrics = Metrics::new();

    metrics.increment_files();
    metrics.add_bytes_processed(1000);
    metrics.add_bytes_compressed(500);

    assert_eq!(metrics.files_processed, 1);
    assert_eq!(metrics.bytes_processed, 1000);
    assert_eq!(metrics.bytes_compressed, 500);
    let (compressed, processed) = metrics.compression_parts();
    assert_eq!(percent(compressed as u128, processed as u128), 50.0);
}

#[test]
fn test_deduplication_ratio() {
    let mut metrics = Metrics::new();

    metrics.increment_unique_blocks();
    metrics.increment_unique_blocks();
    metrics.increment_duplicate_blocks();
    metrics.increment_duplicate_blocks();
    metrics.increment_duplicate_blocks();

    // 2 unique, 3 duplicates = 5 total, 60% deduplication
    let (duplicates, total) = metrics.deduplication_parts();
    assert_eq!(percent(duplicates, total), 60.0);
}

#[test]
fn test_metrics_reset() {
    let mut metrics = Metrics::new();

    metrics.increment_files();
    metrics.add_bytes_processed(1000);

    metrics.reset();

    assert_eq!(metrics.files_processed, 0);
    assert_eq!(metrics.bytes_processed, 0);
}

#[test]
fn new_metrics_are_zero() {
    let metrics = Metrics::new();
    let zero = MetricsSummary {
        files_processed: 0,
        bytes_processed: 0,
        bytes_compressed: 0,
        unique_blocks: 0,
        duplicate_blocks: 0,
        compression_nanos: 0,
    };
    assert_eq!(metrics.print_summary(), zero);
    assert_eq!(Metrics::default().print_summary(), zero);
    assert_eq!(metrics.deduplication_parts(), (0, 0));
}

#[test]
fn counters_add_up_and_wrap() {
    let mut metrics = Metrics::new();
    metrics.add_bytes_processed(u64::MAX);
    metrics.add_bytes_processed(2);
    assert_eq!(metrics.bytes_processed, 1);
    metrics.add_bytes_compressed(7);
    metrics.add_bytes_compressed(8);
    assert_eq!(metrics.bytes_compressed, 15);
    metrics.increment_files();
    metrics.increment_files();
    assert_eq!(metrics.files_processed, 2);
}

#[test]
fn summary_holds_every_counter() {
    let mut metrics = Metrics::new();
    metrics.increment_files();
    metrics.add_bytes_processed(10);
    metrics.add_bytes_compressed(4);
    metrics.increment_unique_blocks();
    metrics.increment_duplicate_blocks();
    let s = metrics.print_summary();
    assert_eq!(s.files_processed, 1);
    assert_eq!(s.bytes_processed, 10);
    assert_eq!(s.bytes_compressed, 4);
    assert_eq!(s.unique_blocks, 1);
    assert_eq!(s.duplicate_blocks, 1);
    assert_eq!(s.compression_nanos, 0);
    assert_eq!(metrics.speed_parts(), (10, 0));
}

#[test]
fn timing_keeps_the_counters() {
    let mut metrics = Metrics::new();
    metrics.add_bytes_processed(5);
    metrics.start_compression();
    let mut x: u64 = 0;
    for i in 0..100000u64 {
        x = x.wrapping_add(i * i);
    }
    assert!(x > 0);
    metrics.end_compression();
    assert_eq!(metrics.bytes_processed, 5);
    let (bytes, nanos) = metrics.speed_parts();
    assert_eq!(bytes, 5);
    assert!(nanos > 0);
    metrics.reset();
    assert_eq!(metrics.speed_parts(), (0, 0));
}

#[test]
fn end_without_start_changes_nothing() {
    let mut metrics = Metrics::new();
    metrics.add_bytes_processed(5);
    metrics.end_compression();
    assert_eq!(metrics.speed_parts(), (5, 0));
}

#[test]
fn update_is_due_when_forced_or_late() {
    assert!(is_update_due(true, 0, 1_000_000_000));
    assert!(is_update_due(false, 1_000_000_000, 1_000_000_000));
    assert!(is_update_due(false, 2_000_000_000, 1_000_000_000));
    assert!(!is_update_due(false, 999_999_999, 1_000_000_000));
}

#[test]
fn forced_update_reports_the_counters() {
    let mut metrics = Metrics::new();
    metrics.increment_files();
    metrics.add_bytes_processed(77);
    let mut tracker = ProgressTracker::new();
    let report = tracker.update(&metrics, true).unwrap();
    assert_eq!(report.files_processed, 1);
    assert_eq!(report.bytes_processed, 77);
    assert_eq!(report.compression_nanos, 0);
}

#[test]
fn update_right_after_another_is_not_due() {
    let metrics = Metrics::new();
    let mut tracker = ProgressTracker::new();
    assert!(tracker.update(&metrics, true).is_some());
    assert!(tracker.update(&metrics, false).is_none());
}

#[test]
fn deduplication_ratio_is_duplicates_over_references() {
    let mut metrics = Metrics::new();
    for _ in 0..2 {
        metrics.increment_unique_blocks();
    }
    for _ in 0..3 {
        metrics.increment_duplicate_blocks();
    }
    let (duplicates, total) = metrics.deduplication_parts();
    assert_eq!((duplicates, total), (3, 5));
    assert_eq!(duplicates as f64 / total as f64, 0.6);
}
