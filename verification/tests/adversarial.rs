use scanstate::ScanCheckpoint;

#[test]
fn adversarial_100k_targets_checkpoint() {
    let mut checkpoint = ScanCheckpoint::new("stress-test-100k");

    for i in 0..100_000 {
        checkpoint.mark_complete(format!("https://target-{}.example.com/path", i));
    }

    assert_eq!(checkpoint.completed_count(), 100_000);

    assert!(checkpoint.is_complete("https://target-50000.example.com/path"));
    assert!(!checkpoint.is_complete("https://target-999999.example.com/path"));
}

#[test]
fn adversarial_empty_target_id() {
    let mut checkpoint = ScanCheckpoint::new("empty-test");

    checkpoint.mark_complete("");
    checkpoint.mark_complete("");
    checkpoint.mark_complete("");

    assert_eq!(checkpoint.completed_count(), 1);
    assert!(checkpoint.is_complete(""));
}

#[test]
fn adversarial_checkpoint_merge_conflicts() {
    let mut cp1 = ScanCheckpoint::new("scan-1");
    cp1.mark_complete("target-a");
    cp1.mark_complete("target-b");

    let mut cp2 = ScanCheckpoint::new("scan-2");
    cp2.mark_complete("target-b");
    cp2.mark_complete("target-c");

    let result = cp1.merge(cp2);
    assert!(result.is_err());

    assert_eq!(cp1.scan_id, "scan-1");
    assert_eq!(cp1.completed_count(), 2);
    assert!(cp1.is_complete("target-a"));
    assert!(cp1.is_complete("target-b"));
    assert!(!cp1.is_complete("target-c"));
}

#[test]
fn adversarial_duplicate_target_storm() {
    let mut checkpoint = ScanCheckpoint::new("dedupe-test");

    for _ in 0..10_000 {
        checkpoint.mark_complete("same-target");
    }

    assert_eq!(checkpoint.completed_count(), 1);
}

#[test]
fn adversarial_unicode_targets_in_memory() {
    let mut checkpoint = ScanCheckpoint::new("スキャン-日本語-테스트-מבחן");
    checkpoint.mark_complete("https://例え.テスト/日本語");
    checkpoint.mark_complete("https://пример.рф/тест");
    checkpoint.mark_complete("https://مثال.اختبار/عربي");
    checkpoint.mark_complete("https://例子.测试/中文");
    checkpoint.mark_complete("https://émojis.🎉/test-🔒-🔑");

    assert_eq!(checkpoint.completed_count(), 5);
    assert!(checkpoint.is_complete("https://例え.テスト/日本語"));
    assert_eq!(checkpoint.scan_id, "スキャン-日本語-테스트-מבחן");
}

#[test]
fn adversarial_special_character_targets_in_memory() {
    let mut checkpoint = ScanCheckpoint::new("special-chars");
    let special_ids = vec![
        "target\nwith\nnewlines",
        "target\twith\ttabs",
        "target\x00with\x00nulls",
        "target\"with\"quotes",
        "target\\with\\backslashes",
        "{\"json\": \"value\"}",
        "<script>alert(1)</script>",
        "../../../../etc/passwd",
        "$(whoami)",
        "`rm -rf /`",
    ];
    for id in &special_ids {
        checkpoint.mark_complete(*id);
    }
    assert_eq!(checkpoint.completed_count(), special_ids.len());
    let restored = ScanCheckpoint::from_parts(
        checkpoint.scan_id.clone(),
        &checkpoint.completed_targets_sorted(),
    );
    for id in &special_ids {
        assert!(restored.is_complete(id), "Failed to find target: {:?}", id);
    }
}
