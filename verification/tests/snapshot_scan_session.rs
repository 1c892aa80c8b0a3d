use gentleman_manager::snapshot_catalog::{SnapshotMeta, SnapshotPageRange};
use gentleman_manager::snapshot_scan_session::{
    apply_update_page, collected_comics, dispose_session, export_temp_file_name, finalize_file_name,
    begin_plan, finalize_previous_path, finalized_meta, initial_scan_meta, is_incomplete_scan, new_scan_meta, BeginPlan,
    is_large_snapshot, merge_batch, open_session, original_count_from_loaded,
    original_count_from_stream, session_id_string, session_number, SessionError,
    SnapshotScanFinalizeInput, SnapshotScanRegistry,
};
use gentleman_manager::types::ComicInSearch;
use std::collections::HashSet;

fn comic(id: i64) -> ComicInSearch {
    ComicInSearch {
        id,
        title: format!("t{id}"),
        title_html: format!("<b>t{id}</b>"),
        cover: String::new(),
        additional_info: String::new(),
        list_cate_id: Some(1),
    }
}

fn meta() -> SnapshotMeta {
    initial_scan_meta("m".to_string(), "2026-05-29T00:00:00.000Z".to_string(), 5, "漢化", 10, "category")
}

#[test]
fn session_ids_round_trip() {
    assert_eq!(session_id_string(7), "snap-7");
    assert_eq!(session_number("snap-7"), Some(7));
    assert_eq!(session_number("snap-07"), None);
    assert_eq!(session_number("snap-"), None);
    assert_eq!(session_number("x-7"), None);
    assert_eq!(session_number("snap-18446744073709551616"), None);
}

#[test]
fn open_assigns_numbers_in_order() {
    let mut reg = SnapshotScanRegistry::new();
    let a = open_session(&mut reg, meta(), vec![comic(1), comic(2)], "漢化".to_string(), 5, "category".to_string(), None, None, 0, None);
    let b = open_session(&mut reg, meta(), Vec::new(), "漢化".to_string(), 5, "category".to_string(), None, None, 0, None);
    assert_eq!(a.session_id, "snap-1");
    assert_eq!(b.session_id, "snap-2");
    assert_eq!(a.existing_count, 2);
    assert_eq!(b.existing_count, 0);
    assert_eq!(reg.next_session_number(), 3);
}

#[test]
fn merge_batch_reports_running_total() {
    let mut reg = SnapshotScanRegistry::new();
    let s = open_session(&mut reg, meta(), vec![comic(1)], "漢化".to_string(), 5, "category".to_string(), None, None, 10, None);
    let r = merge_batch(&mut reg, &s.session_id, vec![comic(2), comic(3), comic(2)]).unwrap();
    assert_eq!(r.total_count, 10 + 3);
    let again = merge_batch(&mut reg, &s.session_id, vec![comic(2), comic(3)]).unwrap();
    assert_eq!(again.total_count, 13);
}

#[test]
fn update_page_counts_known_ids_only() {
    let mut reg = SnapshotScanRegistry::new();
    let known: HashSet<i64> = [1, 2].into_iter().collect();
    let s = open_session(&mut reg, meta(), Vec::new(), "漢化".to_string(), 5, "category".to_string(), None, Some(known), 2, None);
    let r = apply_update_page(&mut reg, &s.session_id, vec![comic(3), comic(1), comic(3), comic(4)], 5, 5).unwrap();
    assert_eq!(r.duplicate_hits, 6);
    assert_eq!(r.added_count, 2);
    assert_eq!(r.total_count, 4);
    assert!(r.should_stop);
    let twice = apply_update_page(&mut reg, &s.session_id, vec![comic(3), comic(4)], 0, 5).unwrap();
    assert_eq!(twice.added_count, 0);
    assert_eq!(twice.duplicate_hits, 0);
    assert!(!twice.should_stop);
}

#[test]
fn disposed_session_is_not_found() {
    let mut reg = SnapshotScanRegistry::new();
    let s = open_session(&mut reg, meta(), Vec::new(), "x".to_string(), 5, "category".to_string(), Some("/p".to_string()), None, 0, Some("/c".to_string()));
    let gone = dispose_session(&mut reg, &s.session_id).unwrap();
    assert_eq!(gone.source_cache_path.as_deref(), Some("/c"));
    assert!(dispose_session(&mut reg, &s.session_id).is_none());
    assert_eq!(merge_batch(&mut reg, &s.session_id, vec![comic(1)]).unwrap_err(), SessionError::NotFound);
    assert_eq!(apply_update_page(&mut reg, &s.session_id, vec![comic(1)], 0, 1).unwrap_err(), SessionError::NotFound);
    assert_eq!(merge_batch(&mut reg, "nope", Vec::new()).unwrap_err(), SessionError::NotFound);
}

#[test]
fn collected_comics_are_one_per_id() {
    let mut reg = SnapshotScanRegistry::new();
    let s = open_session(&mut reg, meta(), vec![comic(1), comic(1), comic(2)], "x".to_string(), 5, "category".to_string(), None, None, 0, None);
    let session = dispose_session(&mut reg, &s.session_id).unwrap();
    let mut ids: Vec<i64> = collected_comics(&session).iter().map(|c| c.id).collect();
    ids.sort();
    assert_eq!(ids, vec![1, 2]);
}

#[test]
fn initial_meta_targets() {
    let m = meta();
    assert_eq!(m.scan_target_cate_id, Some(5));
    assert_eq!(m.scan_direction.as_deref(), Some("tailToHead"));
    let albums = initial_scan_meta("m".to_string(), "t".to_string(), 5, "x", 1, "albums");
    assert_eq!(albums.scan_target_cate_id, None);
    let negative = initial_scan_meta("m".to_string(), "t".to_string(), -1, "x", 1, "category");
    assert_eq!(negative.scan_target_cate_id, None);
}

#[test]
fn original_counts() {
    assert_eq!(original_count_from_loaded(5, 7, 0), 5);
    assert_eq!(original_count_from_loaded(0, 7, 0), 7);
    assert_eq!(original_count_from_loaded(5, 7, 9), 9);
    assert_eq!(original_count_from_loaded(5, 7, 3), 5);
    assert_eq!(original_count_from_stream(4, 9), 4);
    assert_eq!(original_count_from_stream(0, 9), 9);
}

#[test]
fn large_and_incomplete_snapshots() {
    assert!(is_large_snapshot(32 * 1024 * 1024));
    assert!(!is_large_snapshot(32 * 1024 * 1024 - 1));
    assert!(is_incomplete_scan(10, 3));
    assert!(!is_incomplete_scan(10, 10));
    assert!(!is_incomplete_scan(10, 0));
}

#[test]
fn finalize_choices() {
    assert_eq!(finalize_file_name(Some("given.json"), Some("L"), "S", 0), "given.json");
    assert_eq!(
        finalize_file_name(Some("  "), Some(" "), "S", 0),
        "S快照 1970_01_01_00_00_00.gm-snapshot.json"
    );
    assert_eq!(finalize_previous_path(Some(" "), Some("/src")).as_deref(), Some("/src"));
    assert_eq!(finalize_previous_path(Some("/prev"), Some("/src")).as_deref(), Some("/prev"));
    assert_eq!(export_temp_file_name("snap/1"), "gm-snapshot-export-snap_1.json");
}

#[test]
fn finalized_meta_takes_progress() {
    let input = SnapshotScanFinalizeInput {
        session_id: "snap-1".to_string(),
        category_directory: "/d".to_string(),
        file_name: None,
        previous_snapshot_path: None,
        total_pages: 20,
        scan_completion_percent: 50,
        scan_completed_pages: 10,
        scan_completed_page_ranges: vec![SnapshotPageRange { start: 11, end: 20 }],
    };
    let m = finalized_meta(meta(), &input, "albums", 5, "L", "now".to_string());
    assert_eq!(m.saved_at, "now");
    assert_eq!(m.total_pages, 20);
    assert_eq!(m.scan_completed_pages, 10);
    assert_eq!(m.scan_completed_page_ranges.len(), 1);
    assert_eq!(m.scan_target_cate_id, None);
    assert_eq!(m.scan_target_label.as_deref(), Some("L"));
}

#[test]
fn new_scan_meta_gets_fresh_id_and_time() {
    let a = new_scan_meta(5, "同人誌", 120, "category");
    let b = new_scan_meta(5, "同人誌", 120, "category");
    assert_eq!(a.id.len(), 36);
    assert_eq!(a.id.as_bytes()[8], b'-');
    assert_ne!(a.id, b.id);
    assert_eq!(a.total_pages, 120);
    assert_eq!(a.total_count, 0);
    assert_eq!(a.scan_direction.as_deref(), Some("tailToHead"));
    assert_eq!(a.scan_target_label.as_deref(), Some("同人誌"));
    assert!(a.saved_at.ends_with('Z'));
}

fn summary(total_pages: i64, done: i64) -> gentleman_manager::snapshot_storage::MetaSummary {
    gentleman_manager::snapshot_storage::MetaSummary {
        meta_id: String::new(),
        saved_at: String::new(),
        total_count: 0,
        total_pages,
        scan_completion_percent: 0,
        scan_completed_pages: done,
        cate_id: None,
        label: String::new(),
        scan_target_kind: None,
    }
}

#[test]
fn begin_plan_steps() {
    assert_eq!(begin_plan(None, "full", None, None), BeginPlan::Fresh);
    assert_eq!(begin_plan(Some("   "), "full", None, None), BeginPlan::Fresh);
    assert_eq!(begin_plan(Some(" a.json "), "full", None, None), BeginPlan::NeedSize("a.json".to_string()));
    assert_eq!(begin_plan(Some("a.json"), "idsOnly", Some(1 << 40), None), BeginPlan::LoadIdsOnly("a.json".to_string()));
    assert_eq!(begin_plan(Some("a.json"), "full", Some(33554431), None), BeginPlan::LoadWhole("a.json".to_string()));
    assert_eq!(begin_plan(Some("a.json"), "full", Some(33554432), None), BeginPlan::NeedSummary("a.json".to_string()));
}

#[test]
fn large_snapshots_are_refused_with_reason() {
    let size: u64 = 40 * 1048576 + 524288; // 40.5 MiB
    let mb = size as f64 / 1024.0 / 1024.0;
    let s = summary(200, 50);
    assert_eq!(
        begin_plan(Some("a.json"), "full", Some(size), Some(&s)),
        BeginPlan::Refused(format!(
            "快照約 {mb:.0} MB，手機無法接續未完成的掃描（已掃 50/200 頁）。請在 PC 版接續後再更新。"
        ))
    );
    let size2: u64 = 41 * 1048576 + 524288;
    let mb2 = size2 as f64 / 1024.0 / 1024.0;
    assert_eq!(
        begin_plan(Some("a.json"), "full", Some(size2), Some(&summary(200, 200))),
        BeginPlan::Refused(format!("快照約 {mb2:.0} MB，手機無法接續掃描。請在 PC 版接續或完成後再以「更新」掃描。"))
    );
    assert_eq!(
        begin_plan(Some("a.json"), "full", Some(33554432 + 700000), Some(&summary(0, 0))),
        BeginPlan::Refused("快照約 33 MB，手機無法接續掃描。請在 PC 版接續或完成後再以「更新」掃描。".to_string())
    );
}
