use gentleman_manager::commands::{
    is_downloaded_comic_dir, is_leveldb_data_file, latest_index, snapshot_data_dir_parts,
    archived_snapshot_name, greet, korean_series_folder_choice, placeholder_title,
    reader_image_url, should_archive_website_snapshot, similar_korean_series_folders,
    unsorted_numbering_has_room, valid_output_name, SeriesFolderError,
};

#[test]
fn greeting() {
    assert_eq!(greet("Ann"), "Hello, Ann! You've been greeted from Rust!");
}

#[test]
fn placeholder_titles() {
    assert_eq!(placeholder_title("  a/b  ", 3), "a b");
    assert_eq!(placeholder_title("   ", 3), "comic-3");
}

#[test]
fn similar_folders_skip_the_planned_one() {
    let siblings = vec!["未分類1. 傀儡-1~100-完".to_string(), "其他作品-1~10-完".to_string()];
    assert!(unsorted_numbering_has_room(&siblings));
    let similar = similar_korean_series_folders("韓漫 傀儡", 1, 100, &siblings);
    assert_eq!(similar, vec!["未分類1. 傀儡-1~100-完".to_string()]);
}

#[test]
fn series_folder_choice() {
    let siblings = vec!["甲".to_string()];
    assert_eq!(
        korean_series_folder_choice("傀儡", 1, 2, None, &siblings),
        Ok(("未分類1. 傀儡-1~2-完".to_string(), true))
    );
    assert_eq!(korean_series_folder_choice("傀儡", 1, 2, Some(" 甲 "), &siblings), Ok(("甲".to_string(), false)));
    assert_eq!(korean_series_folder_choice("傀儡", 1, 2, Some("  "), &siblings), Err(SeriesFolderError::EmptyName));
    assert_eq!(korean_series_folder_choice("傀儡", 1, 2, Some("乙"), &siblings), Err(SeriesFolderError::NotFound));
}

#[test]
fn output_names() {
    assert!(valid_output_name("a.json"));
    assert!(!valid_output_name("  "));
    assert!(!valid_output_name("a..json"));
}

#[test]
fn archived_names() {
    assert_eq!(archived_snapshot_name("x.gm-snapshot.json", 0), "x.gm-snapshot.json");
    assert_eq!(archived_snapshot_name("x.gm-snapshot.json", 2), "x (2).gm-snapshot.json");
    assert_eq!(archived_snapshot_name("x.json", 1), "x.json (1).gm-snapshot.json");
}

#[test]
fn archive_same_category_only() {
    assert!(should_archive_website_snapshot(
        "漢化快照 2024_05_29_01_01_01.gm-snapshot.json",
        "漢化快照 2025_01_01_00_00_00.gm-snapshot.json"
    ));
    assert!(!should_archive_website_snapshot(
        "其他快照 2024_05_29_01_01_01.gm-snapshot.json",
        "漢化快照 2025_01_01_00_00_00.gm-snapshot.json"
    ));
    assert!(!should_archive_website_snapshot("漢化快照.json", "漢化快照.gm-snapshot.json"));
}

#[test]
fn reader_urls() {
    assert_eq!(reader_image_url("//img/a.jpg"), "https://img/a.jpg");
    assert_eq!(reader_image_url("http://img/a.jpg"), "http://img/a.jpg");
    assert_eq!(reader_image_url("img/a.jpg"), "https://img/a.jpg");
}

#[test]
fn leveldb_data_files() {
    assert!(is_leveldb_data_file("000123.ldb"));
    assert!(is_leveldb_data_file("7.log"));
    assert!(!is_leveldb_data_file("LOG"));
    assert!(!is_leveldb_data_file("MANIFEST-000001.log"));
    assert!(!is_leveldb_data_file("000123.ldb.bak"));
}

#[test]
fn latest_by_modification_time() {
    assert_eq!(latest_index(&vec![]), None);
    assert_eq!(latest_index(&vec![5]), Some(0));
    assert_eq!(latest_index(&vec![3, 7, 7, 1]), Some(2));
    assert_eq!(latest_index(&vec![9, 2, 4]), Some(0));
}

#[test]
fn snapshot_data_dirs() {
    assert_eq!(
        snapshot_data_dir_parts("global"),
        Some(vec![
            "EBWebView".to_string(),
            "Default".to_string(),
            "IndexedDB".to_string(),
            "http_tauri.localhost_0.indexeddb.leveldb".to_string()
        ])
    );
    assert_eq!(
        snapshot_data_dir_parts("scoped"),
        Some(vec![
            "EBWebView".to_string(),
            "Default".to_string(),
            "Local Storage".to_string(),
            "leveldb".to_string()
        ])
    );
    assert_eq!(snapshot_data_dir_parts("other"), None);
}

#[test]
fn temporary_download_folders_are_not_comics() {
    assert!(is_downloaded_comic_dir("some comic"));
    assert!(!is_downloaded_comic_dir(".下載中-123"));
}
