use gentleman_manager::android_commands::snapshot_search_result;
use gentleman_manager::snapshot_catalog::SnapshotMeta;
use gentleman_manager::snapshot_export::{
    global_snapshot_export, validate_snapshot_export, SnapshotExportError,
};
use gentleman_manager::types::ComicInSearch;

fn meta() -> SnapshotMeta {
    SnapshotMeta {
        id: "test-id".to_string(),
        saved_at: "2026-05-29T00:00:00.000Z".to_string(),
        total_count: 1,
        total_pages: 10,
        scan_completion_percent: 100,
        scan_direction: Some("tailToHead".to_string()),
        scan_completed_pages: 10,
        scan_completed_page_ranges: Vec::new(),
        scan_target_kind: Some("category".to_string()),
        scan_target_cate_id: Some(20),
        scan_target_label: Some("漢化".to_string()),
    }
}

#[test]
fn export_file_passes_validation() {
    let file = global_snapshot_export(meta(), Vec::new(), "2026-05-29T00:00:00.000Z");
    assert_eq!(file.format, "gentleman-manager.snapshot.v1");
    assert_eq!(file.snapshot.kind, "global");
    let ok = validate_snapshot_export(file).unwrap();
    assert_eq!(ok.snapshot.meta.id, "test-id");
}

#[test]
fn foreign_files_are_refused() {
    let mut file = global_snapshot_export(meta(), Vec::new(), "t");
    file.format = "other".to_string();
    assert_eq!(
        validate_snapshot_export(file).unwrap_err(),
        SnapshotExportError::UnsupportedFormat("other".to_string())
    );
    let mut file = global_snapshot_export(meta(), Vec::new(), "t");
    file.snapshot.kind = "tag".to_string();
    assert_eq!(validate_snapshot_export(file).unwrap_err(), SnapshotExportError::NotGlobal);
}

#[test]
fn search_result_counts_matches() {
    let comics = vec![
        ComicInSearch { id: 1, title: "Alpha".to_string(), title_html: String::new(), cover: String::new(), additional_info: String::new(), list_cate_id: None },
        ComicInSearch { id: 2, title: "Beta".to_string(), title_html: String::new(), cover: String::new(), additional_info: String::new(), list_cate_id: None },
    ];
    let r = snapshot_search_result(meta(), &comics, " alpha ");
    assert_eq!(r.total, 1);
    assert_eq!(r.comics[0].id, 1);
}
