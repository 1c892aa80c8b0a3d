use gentleman_manager::snapshot_catalog::{is_skipped_snapshot_dir, is_snapshot_file_candidate, newest_by_label};
use gentleman_manager::snapshot_catalog::{
    filter_comics, header_key, header_to_candidate, latest_per_key, order_by_text,
    resume_candidate_key,
};
use gentleman_manager::snapshot_storage::MetaSummary;
use gentleman_manager::types::ComicInSearch;

fn comic(id: i64, title: &str) -> ComicInSearch {
    ComicInSearch {
        id,
        title: title.to_string(),
        title_html: format!("<em>{title}</em>"),
        cover: String::new(),
        additional_info: String::new(),
        list_cate_id: None,
    }
}

#[test]
fn keyword_filter() {
    let comics = vec![comic(101, "Hello World"), comic(202, "其他"), comic(303, "x")];
    let ids = |v: Vec<ComicInSearch>| v.iter().map(|c| c.id).collect::<Vec<_>>();
    assert_eq!(ids(filter_comics(&comics, "  WORLD ")), vec![101]);
    assert_eq!(ids(filter_comics(&comics, "20")), vec![202]);
    assert_eq!(ids(filter_comics(&comics, "em")), vec![101, 202, 303]);
    assert_eq!(ids(filter_comics(&comics, "   ")), vec![101, 202, 303]);
}

#[test]
fn keys() {
    assert_eq!(header_key(Some(5), "x"), "5");
    assert_eq!(header_key(None, "x"), "x");
    assert_eq!(resume_candidate_key(Some(5), "L", Some("albums")), "albums:L");
    assert_eq!(resume_candidate_key(Some(-5), "L", Some("category")), "-5");
    assert_eq!(resume_candidate_key(None, "L", None), "L");
}

#[test]
fn candidate_from_summary() {
    let summary = MetaSummary {
        meta_id: "id".to_string(),
        saved_at: "t".to_string(),
        total_count: 3,
        total_pages: 2,
        scan_completion_percent: 50,
        scan_completed_pages: 1,
        cate_id: Some(9),
        label: String::new(),
        scan_target_kind: None,
    };
    let c = header_to_candidate(None, "L".to_string(), "/f".to_string(), summary);
    assert_eq!(c.cate_id, Some(9));
    assert_eq!(c.label, "L");
    assert_eq!(c.file_path, "/f");
    assert_eq!(c.total_count, 3);
    assert!(c.modified_ms.is_none());
}

#[test]
fn newest_per_key_then_by_label() {
    let keys: Vec<Vec<char>> = ["a", "b", "a", "a", "b"].iter().map(|k| k.chars().collect()).collect();
    let mtimes = vec![5, 1, 7, 7, 1];
    assert_eq!(latest_per_key(&keys, &mtimes), vec![1, 2]);
    let labels: Vec<Vec<char>> = ["b", "a", "c", "a"].iter().map(|k| k.chars().collect()).collect();
    assert_eq!(order_by_text(&labels), vec![1, 3, 0, 2]);
}

#[test]
fn snapshot_folders_and_files() {
    assert!(is_skipped_snapshot_dir("old"));
    assert!(is_skipped_snapshot_dir("OLD"));
    assert!(is_skipped_snapshot_dir("Old"));
    assert!(!is_skipped_snapshot_dir("older"));
    assert!(is_snapshot_file_candidate(Some("JSON"), "a.gm-snapshot.JSON"));
    assert!(is_snapshot_file_candidate(Some("json"), "x.json"));
    assert!(!is_snapshot_file_candidate(Some("JSON"), "x.JSON"));
    assert!(!is_snapshot_file_candidate(None, "gm-snapshot"));
}

#[test]
fn newest_of_each_key_by_label() {
    let v = |s: &str| s.chars().collect::<Vec<char>>();
    let keys = vec![v("k1"), v("k2"), v("k1"), v("k3")];
    let mtimes = vec![5, 9, 7, 1];
    let labels = vec![v("b"), v("c"), v("b"), v("a")];
    assert_eq!(newest_by_label(&keys, &mtimes, &labels), vec![3, 2, 1]);
}

#[test]
fn order_by_text_keeps_ties_in_order() {
    let v = |s: &str| s.chars().collect::<Vec<char>>();
    assert_eq!(order_by_text(&vec![v("b"), v("a"), v("b"), v("a")]), vec![1, 3, 0, 2]);
}
