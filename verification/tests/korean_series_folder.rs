use gentleman_manager::korean_series_folder::{
    build_core_folder_name, find_similar_folder_names, is_series_completed_content,
    max_unsorted_folder_number, resolve_korean_series_folder_name, series_folder_has_downloaded_content,
    strip_series_label_meta,
};

#[test]
fn strip_meta_removes_korean_prefix() {
    assert_eq!(strip_series_label_meta("韓漫 / 漢化 傀儡"), "傀儡");
}

#[test]
fn find_similar_matches_existing_folder() {
    let siblings = vec![
        "未分類1. 傀儡-1~100-完".to_string(),
        "其他作品-1~10-完".to_string(),
    ];
    let matches = find_similar_folder_names(&siblings, "韓漫 傀儡");
    assert_eq!(matches, vec!["未分類1. 傀儡-1~100-完"]);
}

#[test]
fn strip_meta_keeps_plain_label() {
    assert_eq!(strip_series_label_meta("傀儡"), "傀儡");
}

#[test]
fn resolve_uses_core_name_in_empty_directory() {
    let siblings: Vec<String> = Vec::new();
    assert_eq!(resolve_korean_series_folder_name(&siblings, "傀儡-1~100-完"), "傀儡-1~100-完");
}

#[test]
fn resolve_numbers_after_largest_unsorted_folder() {
    let siblings = vec![
        "未分類1. 甲".to_string(),
        "未分類7. 乙".to_string(),
        "其他".to_string(),
    ];
    assert_eq!(max_unsorted_folder_number(&siblings), 7);
    assert_eq!(
        resolve_korean_series_folder_name(&siblings, "傀儡-1~100-完"),
        "未分類8. 傀儡-1~100-完"
    );
}

#[test]
fn core_folder_name_carries_episode_range() {
    assert_eq!(build_core_folder_name("傀儡", 1, 100), "傀儡-1~100-完");
    assert_eq!(build_core_folder_name("", 3, 4), "韓漫系列-3~4-完");
}

#[test]
fn completed_content_ignores_partial_downloads() {
    assert!(!is_series_completed_content("a.zip.part", false));
    let entries = vec![("a.zip.part".to_string(), false)];
    assert!(!series_folder_has_downloaded_content(&entries));
}

#[test]
fn stripping_twice_and_searching_by_set() {
    for label in ["韓漫 / 漢化 傀儡", "韓漫 傀儡", "傀儡", "韓漫 · 漢化 傀儡"] {
        let once = strip_series_label_meta(label);
        assert_eq!(strip_series_label_meta(&once), once);
    }
    let a = vec!["未分類1. 傀儡-1~100-完".to_string(), "其他作品-1~10-完".to_string()];
    let b = vec!["其他作品-1~10-完".to_string(), "未分類1. 傀儡-1~100-完".to_string(), "其他作品-1~10-完".to_string()];
    assert_eq!(find_similar_folder_names(&a, "韓漫 傀儡"), find_similar_folder_names(&b, "韓漫 傀儡"));
    let stripped = strip_series_label_meta("韓漫 傀儡");
    assert_eq!(find_similar_folder_names(&a, &stripped), find_similar_folder_names(&a, "韓漫 傀儡"));
}
