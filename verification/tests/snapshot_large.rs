use gentleman_manager::snapshot_catalog::SnapshotMeta;
use gentleman_manager::snapshot_large::{
    comic_baseline_from_parsed, created_at_key_from_groups, find_comics_array_bracket, find_json_object_end,
    merge_comics_like_pc, merge_snapshot_comics, snapshot_comic_object_ranges,
    sort_comics_create_date_desc, SnapshotScanError, LARGE_SNAPSHOT_THRESHOLD,
};
use gentleman_manager::types::ComicInSearch;

fn comic(id: i64, info: &str) -> ComicInSearch {
    ComicInSearch {
        id,
        title: format!("t{id}"),
        title_html: String::new(),
        cover: String::new(),
        additional_info: info.to_string(),
        list_cate_id: None,
    }
}

fn meta() -> SnapshotMeta {
    SnapshotMeta {
        id: "m".to_string(),
        saved_at: "s".to_string(),
        total_count: 0,
        total_pages: 1,
        scan_completion_percent: 0,
        scan_direction: None,
        scan_completed_pages: 0,
        scan_completed_page_ranges: Vec::new(),
        scan_target_kind: None,
        scan_target_cate_id: None,
        scan_target_label: None,
    }
}

#[test]
fn threshold_is_32_mib() {
    assert_eq!(LARGE_SNAPSHOT_THRESHOLD, 32 * 1024 * 1024);
}

#[test]
fn object_ranges_of_comics_array() {
    let data = br#"{"meta":{},"comics": [ {"id":1,"t":"a}"}, {"id":2} ]}"#;
    let ranges = snapshot_comic_object_ranges(data).unwrap();
    assert_eq!(ranges.len(), 2);
    assert_eq!(&data[ranges[0].0..ranges[0].1], br#"{"id":1,"t":"a}"}"#);
    assert_eq!(&data[ranges[1].0..ranges[1].1], br#"{"id":2}"#);
}

#[test]
fn object_range_errors() {
    assert_eq!(find_comics_array_bracket(b"{}"), Err(SnapshotScanError::NoComicsField));
    assert_eq!(find_comics_array_bracket(br#"{"comics": 1}"#), Err(SnapshotScanError::ComicsNotArray));
    assert_eq!(
        snapshot_comic_object_ranges(br#"{"comics":[1]}"#),
        Err(SnapshotScanError::MalformedArray { offset: 11, byte: b'1' })
    );
    assert_eq!(snapshot_comic_object_ranges(br#"{"comics":[{"id":1"#), Err(SnapshotScanError::UnclosedObject { start: 11 }));
    assert_eq!(find_json_object_end(br#"{"a":"\"}"}x"#, 0), Some(11));
}

#[test]
fn baseline_needs_some_id() {
    let (ids, n) = comic_baseline_from_parsed(&[Some(3), None, Some(3), Some(-1)]).unwrap();
    assert_eq!(n, 4);
    assert!(ids.contains(&3) && ids.len() == 1);
    assert_eq!(comic_baseline_from_parsed(&[None, Some(0)]).unwrap_err(), SnapshotScanError::NoComicIds);
    let (empty, zero) = comic_baseline_from_parsed(&[]).unwrap();
    assert!(empty.is_empty() && zero == 0);
}

#[test]
fn merge_appends_new_ids_only() {
    let merged = merge_comics_like_pc(vec![comic(1, ""), comic(2, "")], &[comic(2, ""), comic(3, ""), comic(0, ""), comic(3, "")]);
    let ids: Vec<i64> = merged.iter().map(|c| c.id).collect();
    assert_eq!(ids, vec![1, 2, 3]);
}

#[test]
fn merge_sorts_and_counts() {
    let mut m = meta();
    let old = vec![comic(1, "創建於2020-01-01"), comic(2, "創建於2021-01-01 10:00:00")];
    let merged = merge_snapshot_comics(old, &[comic(3, "創建於2021-01-01 09:00:00"), comic(1, "")], &mut m).unwrap();
    let ids: Vec<i64> = merged.iter().map(|c| c.id).collect();
    assert_eq!(ids, vec![2, 3, 1]);
    assert_eq!(m.total_count, 3);
}

#[test]
fn sort_newest_first_then_id() {
    let mut comics = vec![comic(1, "no date"), comic(5, "創建於2022-03-04"), comic(7, "創建於2022-03-04")];
    sort_comics_create_date_desc(&mut comics);
    let ids: Vec<i64> = comics.iter().map(|c| c.id).collect();
    assert_eq!(ids, vec![7, 5, 1]);
}

#[test]
fn merging_twice_adds_nothing_more() {
    let batch = [comic(4, ""), comic(1, ""), comic(5, "")];
    let once = merge_comics_like_pc(vec![comic(1, ""), comic(2, "")], &batch);
    let ids_once: Vec<i64> = once.iter().map(|c| c.id).collect();
    assert_eq!(ids_once, vec![1, 2, 4, 5]);
    let twice = merge_comics_like_pc(once, &batch);
    let ids_twice: Vec<i64> = twice.iter().map(|c| c.id).collect();
    assert_eq!(ids_twice, ids_once);
}

#[test]
fn newest_first_keeps_ties_in_order() {
    let mut a = comic(3, "創建於2024-01-02");
    a.title = "first".to_string();
    let mut b = comic(3, "創建於2024-01-02 00:00:00");
    b.title = "second".to_string();
    let c = comic(8, "創建於2023-12-31 23:59:59");
    let d = comic(2, "no note");
    let mut comics = vec![d, a, c, b];
    sort_comics_create_date_desc(&mut comics);
    let titles: Vec<&str> = comics.iter().map(|c| c.title.as_str()).collect();
    assert_eq!(titles, vec!["first", "second", "t8", "t2"]);
}

#[test]
fn created_at_keys_from_groups() {
    let s = |x: &str| Some(x.to_string());
    let key = |v: Vec<char>| v.into_iter().collect::<String>();
    assert_eq!(key(created_at_key_from_groups(None)), "");
    assert_eq!(key(created_at_key_from_groups(Some((s("2024-01-02"), None, None, None)))), "2024-01-02 00:00:00");
    assert_eq!(
        key(created_at_key_from_groups(Some((s("2024-01-02"), s("13"), s("04"), s("59"))))),
        "2024-01-02 13:04:59"
    );
    assert_eq!(key(created_at_key_from_groups(Some((None, s("01"), None, None)))), "0000-00-00 01:00:00");
}

#[test]
fn merged_snapshot_keeps_tied_comics_in_order() {
    let mut meta = meta();
    let mut a = comic(3, "");
    a.title = "first".to_string();
    let mut b = comic(3, "");
    b.title = "second".to_string();
    let merged =
        merge_snapshot_comics(vec![a, b, comic(1, "創建於2024-01-01")], &[comic(3, ""), comic(2, "")], &mut meta).unwrap();
    let order: Vec<(i64, String)> = merged.iter().map(|c| (c.id, c.title.clone())).collect();
    assert_eq!(
        order,
        vec![(1, "t1".to_string()), (3, "first".to_string()), (3, "second".to_string()), (2, "t2".to_string())]
    );
    assert_eq!(meta.total_count, 4);
}
