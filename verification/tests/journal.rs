use scanstate::{Entry, ScanStateError, WriteAheadJournal};
use std::path::PathBuf;

fn sample_entry(target_id: &str, status: &str, timestamp: u64, findings_count: usize) -> Entry {
    Entry {
        target_id: target_id.to_string(),
        status: status.to_string(),
        timestamp,
        findings_count,
    }
}

fn json_error() -> serde_json::Error {
    serde_json::from_str::<serde_json::Value>("{corrupt garbage}").unwrap_err()
}

#[test]
fn path_returns_underlying_path() {
    let dir = tempfile::tempdir().unwrap();
    let path = dir.path().join("scan.log");
    let journal = WriteAheadJournal::new(path.clone());
    assert_eq!(journal.path(), path.as_path());
}

#[test]
fn path_is_kept_as_given() {
    let path = PathBuf::from("/tmp/journal/scan.log");
    let journal = WriteAheadJournal::new(path.clone());
    assert_eq!(journal.path(), &path);
    assert_eq!(journal.clone().path(), &path);
}

#[test]
fn frame_record_appends_newline() {
    assert_eq!(WriteAheadJournal::frame_record(b"{\"a\":1}"), b"{\"a\":1}\n".to_vec());
    assert_eq!(WriteAheadJournal::frame_record(b""), b"\n".to_vec());
}

#[test]
fn split_records_returns_lines_in_order() {
    let mut file = Vec::new();
    file.extend(WriteAheadJournal::frame_record(b"first"));
    file.extend(WriteAheadJournal::frame_record(b"second"));
    let records = WriteAheadJournal::split_records(&file);
    assert_eq!(records, vec![b"first\n".to_vec(), b"second\n".to_vec()]);
}

#[test]
fn split_records_skips_blank_lines_and_keeps_unterminated_tail() {
    let file = b"a\n\n  \t\r\nb\n{\"target_id\": \"trunc";
    let records = WriteAheadJournal::split_records(file);
    assert_eq!(
        records,
        vec![b"a\n".to_vec(), b"b\n".to_vec(), b"{\"target_id\": \"trunc".to_vec()]
    );
}

#[test]
fn split_records_of_empty_file_is_empty() {
    assert!(WriteAheadJournal::split_records(b"").is_empty());
    assert!(WriteAheadJournal::split_records(b"\n \n").is_empty());
}

#[test]
fn replay_records_returns_entries_in_order() {
    let first = sample_entry("target-a", "completed", 100, 1);
    let second = sample_entry("target-b", "skipped", 101, 0);
    let replayed =
        WriteAheadJournal::replay_records(vec![Ok(first.clone()), Ok(second.clone())]).unwrap();
    assert_eq!(replayed, vec![first, second]);
}

#[test]
fn replay_records_fails_on_corrupt_entry() {
    let first = sample_entry("target-a", "completed", 100, 1);
    let err = WriteAheadJournal::replay_records(vec![Ok(first), Err(json_error())]).unwrap_err();
    assert!(matches!(err, ScanStateError::Serde(_)));
}

#[test]
fn replay_records_lenient_counts_corrupt_entries() {
    let valid = sample_entry("target-a", "completed", 100, 1);
    let (entries, corrupt) = WriteAheadJournal::replay_records_lenient(vec![
        Ok(valid.clone()),
        Err(json_error()),
        Ok(valid.clone()),
    ]);
    assert_eq!(entries, vec![valid.clone(), valid]);
    assert_eq!(corrupt, 1);
}

#[test]
fn replay_records_lenient_all_corrupt() {
    let (entries, corrupt) =
        WriteAheadJournal::replay_records_lenient(vec![Err(json_error()), Err(json_error())]);
    assert!(entries.is_empty());
    assert_eq!(corrupt, 2);
}

#[test]
fn replay_records_lenient_empty() {
    let (entries, corrupt) = WriteAheadJournal::replay_records_lenient(Vec::new());
    assert!(entries.is_empty());
    assert_eq!(corrupt, 0);
    assert!(WriteAheadJournal::replay_records(Vec::new()).unwrap().is_empty());
}
