use scanstate::{Checkpointable, ScanCheckpoint, ScanStateError};

#[test]
fn new_creates_empty_checkpoint() {
    let checkpoint = ScanCheckpoint::new("scan-1");
    assert_eq!(checkpoint.scan_id, "scan-1");
    assert_eq!(checkpoint.completed_count(), 0);
}

#[test]
fn mark_complete_tracks_unique_targets() {
    let mut checkpoint = ScanCheckpoint::new("scan-1");
    checkpoint.mark_complete("target-a");
    checkpoint.mark_complete("target-a");
    checkpoint.mark_complete("target-b");

    assert!(checkpoint.is_complete("target-a"));
    assert!(checkpoint.is_complete("target-b"));
    assert_eq!(checkpoint.completed_count(), 2);
}

#[test]
fn is_complete_returns_false_for_missing_target() {
    let checkpoint = ScanCheckpoint::new("scan-1");
    assert!(!checkpoint.is_complete("missing"));
}

#[test]
fn completed_count_returns_number_of_unique_targets() {
    let mut checkpoint = ScanCheckpoint::new("scan-1");
    checkpoint.mark_complete("target-a");
    checkpoint.mark_complete("target-b");
    checkpoint.mark_complete("target-b");
    assert_eq!(checkpoint.completed_count(), 2);
}

#[test]
fn merge_unions_completed_targets() {
    let mut left = ScanCheckpoint::new("scan-1");
    left.mark_complete("target-a");

    let mut right = ScanCheckpoint::new("scan-1");
    right.mark_complete("target-b");
    right.mark_complete("target-a");

    left.merge(right).unwrap();

    assert!(left.is_complete("target-a"));
    assert!(left.is_complete("target-b"));
    assert_eq!(left.completed_count(), 2);
    assert_eq!(left.scan_id, "scan-1");
}

#[test]
fn merge_empty_into_populated() {
    let mut populated = ScanCheckpoint::new("scan-1");
    populated.mark_complete("a");
    populated.mark_complete("b");

    let empty = ScanCheckpoint::new("scan-1");
    populated.merge(empty).unwrap();
    assert_eq!(populated.completed_count(), 2);
}

#[test]
fn merge_populated_into_empty() {
    let mut empty = ScanCheckpoint::new("scan-1");
    let mut populated = ScanCheckpoint::new("scan-1");
    populated.mark_complete("a");

    empty.merge(populated).unwrap();
    assert_eq!(empty.completed_count(), 1);
    assert!(empty.is_complete("a"));
}

#[test]
fn unicode_target_ids() {
    let mut checkpoint = ScanCheckpoint::new("unicode-test");
    checkpoint.mark_complete("https://日本語.example.com");
    checkpoint.mark_complete("https://пример.ru");
    assert_eq!(checkpoint.completed_count(), 2);
    assert!(checkpoint.is_complete("https://日本語.example.com"));
}

#[test]
fn empty_target_id() {
    let mut checkpoint = ScanCheckpoint::new("test");
    checkpoint.mark_complete("");
    assert!(checkpoint.is_complete(""));
    assert_eq!(checkpoint.completed_count(), 1);
}

#[test]
fn merge_conflict_names_both_scan_ids() {
    let mut left = ScanCheckpoint::new("scan-1");
    left.mark_complete("a");
    let right = ScanCheckpoint::new("scan-2");
    match left.merge(right) {
        Err(ScanStateError::MergeConflict(mine, theirs)) => {
            assert_eq!(mine, "scan-1");
            assert_eq!(theirs, "scan-2");
        }
        other => panic!("unexpected merge outcome: {:?}", other),
    }
    assert_eq!(left.completed_count(), 1);
}

#[test]
fn merge_is_symmetric_in_targets_on_values() {
    let mut a = ScanCheckpoint::new("s");
    a.mark_complete("x");
    a.mark_complete("y");
    let mut b = ScanCheckpoint::new("s");
    b.mark_complete("y");
    b.mark_complete("z");

    let mut ab = a.clone();
    ab.merge(b.clone()).unwrap();
    let mut ba = b.clone();
    ba.merge(a.clone()).unwrap();
    assert_eq!(ab, ba);
    assert_eq!(ab.completed_count(), 3);
}

#[test]
fn marking_twice_equals_marking_once() {
    let mut once = ScanCheckpoint::new("s");
    once.mark_complete("t");
    let mut twice = once.clone();
    twice.mark_complete("t");
    assert_eq!(once, twice);
    assert_eq!(twice.completed_count(), 1);
}

#[test]
fn equality_ignores_completion_order() {
    let mut a = ScanCheckpoint::new("s");
    a.mark_complete("one");
    a.mark_complete("two");
    let mut b = ScanCheckpoint::new("s");
    b.mark_complete("two");
    b.mark_complete("one");
    assert_eq!(a, b);

    let mut c = ScanCheckpoint::new("other");
    c.mark_complete("one");
    c.mark_complete("two");
    assert_ne!(a, c);

    let mut d = ScanCheckpoint::new("s");
    d.mark_complete("one");
    assert_ne!(a, d);
}

#[test]
fn sorted_targets_are_in_byte_order() {
    let mut cp = ScanCheckpoint::new("s");
    for t in ["b", "a", "ab", "", "é", "Z", "b"] {
        cp.mark_complete(t);
    }
    let sorted = cp.completed_targets_sorted();
    assert_eq!(sorted, vec!["", "Z", "a", "ab", "b", "é"]);
}

#[test]
fn sorted_targets_match_std_order_on_many_targets() {
    let mut cp = ScanCheckpoint::new("s");
    for i in (0..1000).rev() {
        cp.mark_complete(format!("https://target-{i}.example.com"));
    }
    let sorted = cp.completed_targets_sorted();
    let mut expected: Vec<String> = (0..1000).map(|i| format!("https://target-{i}.example.com")).collect();
    expected.sort();
    assert_eq!(sorted, expected);
}

#[test]
fn from_parts_keeps_each_target_once() {
    let listed = vec!["target-a".to_string(), "target-b".to_string(), "target-a".to_string()];
    let cp = ScanCheckpoint::from_parts("scan-load".to_string(), &listed);
    assert_eq!(cp.scan_id, "scan-load");
    assert_eq!(cp.completed_count(), 2);
    assert!(cp.is_complete("target-a"));
    assert!(cp.is_complete("target-b"));
}

#[test]
fn saved_listing_restores_checkpoint() {
    let mut cp = ScanCheckpoint::new("stress-test");
    for i in 0..1000 {
        cp.mark_complete(format!("https://target-{i}.example.com"));
    }
    let listed = cp.completed_targets_sorted();
    let restored = ScanCheckpoint::from_parts(cp.scan_id.clone(), &listed);
    assert_eq!(restored, cp);
    assert_eq!(restored.completed_count(), 1000);
    assert!(restored.is_complete("https://target-500.example.com"));
}

#[test]
fn checkpointable_forwards_to_checkpoint() {
    let mut cp = ScanCheckpoint::new("s");
    cp.mark_done("a");
    cp.mark_done("a");
    assert!(cp.is_done("a"));
    assert!(!cp.is_done("b"));
    assert_eq!(cp.done_count(), 1);
    assert!(cp.is_complete("a"));
}

#[test]
fn new_accepts_owned_and_borrowed_ids() {
    let owned = String::from("scan-x");
    let from_ref = ScanCheckpoint::new(&owned);
    let from_owned = ScanCheckpoint::new(owned.clone());
    assert_eq!(from_ref, from_owned);
    assert_eq!(from_ref.scan_id, "scan-x");
}

#[test]
fn saved_parts_restore_checkpoint_with_awkward_ids() {
    let long_id = "a".repeat(100_000);
    for id in [
        long_id.as_str(),
        "",
        "スキャン-日本語",
        "scan\nwith\"quotes\\and\x00nul",
    ] {
        let mut cp = ScanCheckpoint::new(id);
        cp.mark_complete("target\nwith\nnewlines");
        cp.mark_complete("");
        cp.mark_complete("https://例え.テスト/日本語");
        let restored =
            ScanCheckpoint::from_parts(cp.scan_id_str().clone(), &cp.completed_targets_sorted());
        assert_eq!(restored, cp);
        assert_eq!(restored.scan_id, id);
        assert_eq!(restored.completed_count(), 3);
    }
}

#[test]
fn debug_shows_scan_id_and_target_set() {
    let mut cp = ScanCheckpoint::new("scan-1");
    cp.mark_complete("target-a");
    assert_eq!(
        format!("{:?}", cp),
        "ScanCheckpoint { scan_id: \"scan-1\", completed_targets: {\"target-a\"} }"
    );
}
