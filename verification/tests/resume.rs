use scanstate::{load_or_new, ScanCheckpoint, ScanStateError};

#[test]
fn load_or_new_starts_fresh_when_nothing_was_saved() {
    let cp = load_or_new(None, "my-scan").unwrap();
    assert_eq!(cp.scan_id, "my-scan");
    assert_eq!(cp.completed_count(), 0);
}

#[test]
fn load_or_new_keeps_the_loaded_checkpoint() {
    let mut saved = ScanCheckpoint::new("old-scan");
    saved.mark_complete("target-1");
    let cp = load_or_new(Some(Ok(saved.clone())), "my-scan").unwrap();
    assert_eq!(cp, saved);
    assert_eq!(cp.scan_id, "old-scan");
}

#[test]
fn load_or_new_passes_load_errors_through() {
    let err = serde_json::from_str::<serde_json::Value>("{").unwrap_err();
    let result = load_or_new(Some(Err(ScanStateError::Serde(err))), "my-scan");
    assert!(matches!(result, Err(ScanStateError::Serde(_))));
}
