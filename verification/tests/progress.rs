use scanstate::ScanProgress;

#[test]
fn new_initializes_progress() {
    let progress = ScanProgress::new(10);
    assert_eq!(progress.total, 10);
    assert_eq!(progress.completed, 0);
    assert_eq!(progress.skipped, 0);
    assert_eq!(progress.findings, 0);
}

#[test]
fn record_completed_increments_completed_count() {
    let mut progress = ScanProgress::new(10);
    progress.record_completed();
    assert_eq!(progress.completed, 1);
}

#[test]
fn record_skipped_increments_skipped_count() {
    let mut progress = ScanProgress::new(10);
    progress.record_skipped();
    assert_eq!(progress.skipped, 1);
}

#[test]
fn record_findings_accumulates_findings() {
    let mut progress = ScanProgress::new(10);
    progress.record_findings(2);
    progress.record_findings(3);
    assert_eq!(progress.findings, 5);
}

#[test]
fn default_progress_is_empty() {
    let progress = ScanProgress::default();
    assert_eq!(progress.total, 0);
    assert_eq!(progress.completed, 0);
    assert_eq!(progress.skipped, 0);
    assert_eq!(progress.findings, 0);
}

#[test]
fn processed_counts_completed_and_skipped() {
    let mut progress = ScanProgress::new(10);
    progress.completed = 4;
    progress.skipped = 2;
    assert_eq!(progress.processed(), 6);
    assert_eq!(progress.remaining(), 4);
}

#[test]
fn remaining_is_zero_when_scan_is_complete() {
    let mut progress = ScanProgress::new(5);
    progress.completed = 3;
    progress.skipped = 2;
    assert_eq!(progress.remaining(), 0);
}

#[test]
fn remaining_is_zero_when_more_than_planned_were_processed() {
    let mut progress = ScanProgress::new(100);
    for _ in 0..150 {
        progress.record_completed();
    }
    assert_eq!(progress.processed(), 150);
    assert_eq!(progress.remaining(), 0);
}

#[test]
fn remaining_with_zero_total() {
    let mut progress = ScanProgress::new(0);
    progress.record_completed();
    progress.record_skipped();
    progress.record_findings(10);
    assert_eq!(progress.remaining(), 0);
    assert_eq!(progress.findings, 10);
}

#[test]
fn cloned_progress_keeps_its_counts_and_start() {
    let mut progress = ScanProgress::new(7);
    progress.record_completed();
    progress.record_findings(4);
    let copy = progress.clone();
    assert_eq!(copy.total, 7);
    assert_eq!(copy.completed, 1);
    assert_eq!(copy.findings, 4);
    assert_eq!(copy.start_time, progress.start_time);
}

#[test]
fn starting_at_keeps_the_given_start() {
    let start = std::time::SystemTime::UNIX_EPOCH;
    let progress = ScanProgress::starting_at(10, start);
    assert_eq!(progress.total, 10);
    assert_eq!(progress.completed, 0);
    assert_eq!(progress.skipped, 0);
    assert_eq!(progress.findings, 0);
    assert_eq!(progress.start_time, start);
}

#[test]
fn new_starts_at_the_current_time() {
    let before = std::time::SystemTime::now();
    let progress = ScanProgress::new(3);
    let after = std::time::SystemTime::now();
    assert!(before <= progress.start_time && progress.start_time <= after);
}
