use gentleman_manager::snapshot_storage::{
    checked_snapshot_file_name, export_snapshot_file_name, export_snapshot_file_name_at,
    i64_from_capture, is_favorite_archive_snapshot_file_name, is_favorite_archive_snapshot_text,
    is_snapshot_timestamp, previous_snapshot_to_delete, read_meta_summary_from_text,
    text_from_capture, website_prefix_is_defined, website_snapshot_file_prefix,
};

#[test]
fn snapshot_timestamp_shape() {
    assert!(is_snapshot_timestamp("2024_05_29_01_01_01"));
    assert!(!is_snapshot_timestamp("2024-05-29_01_01_01"));
    assert!(!is_snapshot_timestamp("2024_05_29_01_01_0"));
}

#[test]
fn website_prefix_strips_timestamp_and_extension() {
    assert_eq!(
        website_snapshot_file_prefix("漢化快照 2024_05_29_01_01_01.gm-snapshot.json"),
        "漢化快照"
    );
    assert_eq!(website_snapshot_file_prefix("plain.gm-snapshot.json"), "plain");
    assert_eq!(website_snapshot_file_prefix("notes.txt"), "notes.txt");
}

#[test]
fn website_prefix_defined_at_char_boundary() {
    assert!(website_prefix_is_defined("漢化快照 2024_05_29_01_01_01.gm-snapshot.json"));
    assert!(website_prefix_is_defined("short"));
    assert!(!website_prefix_is_defined("ab漢化快照漢化快照漢化快照漢化快照"));
}

#[test]
fn export_name_at_fixed_instant() {
    assert_eq!(
        export_snapshot_file_name_at("  漢化 ", 1716944461),
        "漢化快照 2024_05_29_01_01_01.gm-snapshot.json"
    );
}

#[test]
fn export_name_prefix_round_trip() {
    let name = export_snapshot_file_name("漢化");
    assert!(name.ends_with(".gm-snapshot.json"));
    assert_eq!(website_snapshot_file_prefix(&name), "漢化快照");
}

#[test]
fn meta_summary_reads_fields() {
    let text = r#"{"format":"x","snapshot":{"kind":"global","meta":{"id":"abc","savedAt":"2026-05-29T00:00:00.000Z","totalCount": 12,"totalPages":3,"scanCompletionPercent":100,"scanCompletedPages":3,"scanTargetCateId":-5,"scanTargetLabel":"漢化 \"A\"","scanTargetKind":"category"}}}"#;
    let s = read_meta_summary_from_text(text, "fallback");
    assert_eq!(s.meta_id, "abc");
    assert_eq!(s.saved_at, "2026-05-29T00:00:00.000Z");
    assert_eq!(s.total_count, 12);
    assert_eq!(s.total_pages, 3);
    assert_eq!(s.scan_completion_percent, 100);
    assert_eq!(s.scan_completed_pages, 3);
    assert_eq!(s.cate_id, Some(-5));
    assert_eq!(s.label, "漢化 \"A\"");
    assert_eq!(s.scan_target_kind.as_deref(), Some("category"));
}

#[test]
fn meta_summary_falls_back() {
    let s = read_meta_summary_from_text("{}", "未命名分類");
    assert_eq!(s.label, "未命名分類");
    assert_eq!(s.total_count, 0);
    assert_eq!(s.meta_id, "");
    assert!(s.cate_id.is_none());
    assert!(s.scan_target_kind.is_none());
}

#[test]
fn captures_are_parsed_and_unescaped() {
    assert_eq!(i64_from_capture(Some("-42".to_string())), Some(-42));
    assert_eq!(i64_from_capture(Some("99999999999999999999".to_string())), None);
    assert_eq!(i64_from_capture(None), None);
    assert_eq!(text_from_capture(Some(r#"a\"b\\c"#.to_string())).as_deref(), Some(r#"a"b\c"#));
}

#[test]
fn favorite_archives_are_recognised() {
    assert!(is_favorite_archive_snapshot_file_name("收藏漫畫存檔_2024.json"));
    assert!(is_favorite_archive_snapshot_file_name("收藏分頁存檔_1.json"));
    assert!(!is_favorite_archive_snapshot_file_name("漢化快照.json"));
    assert!(is_favorite_archive_snapshot_text("{\"format\":\"gentleman-manager.favorite-tabs.v1\"}"));
    assert!(!is_favorite_archive_snapshot_text("{\"format\":\"gentleman-manager.snapshot.v1\"}"));
}

#[test]
fn previous_snapshot_choice() {
    assert_eq!(previous_snapshot_to_delete(Some("  /a/b.json ")).as_deref(), Some("/a/b.json"));
    assert_eq!(previous_snapshot_to_delete(Some("content://x")), None);
    assert_eq!(previous_snapshot_to_delete(Some("   ")), None);
    assert_eq!(previous_snapshot_to_delete(None), None);
}

#[test]
fn published_name_is_filtered() {
    assert_eq!(checked_snapshot_file_name("a:b").as_deref(), Some("a：b"));
    assert_eq!(checked_snapshot_file_name("   "), None);
}
