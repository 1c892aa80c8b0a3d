use gentleman_manager::types::ComicInSearch;
use gentleman_manager::wnacg_client::{
    ScopedScanTally, ScopedSearchCache, aggressive_batch, batch_met_challenge, albums_list_url, category_page_url, cate_id_matches_scope, classify_scan_failure,
    comic_page_url, extract_img_list_json, failure_kind_of_lowercase, filter_comics_by_cate,
    gallery_url, get_zip_backup_url, home_url, img_list_brackets_ordered, large_scan_batch_start,
    large_scan_span_bounds, login_cookie, page_span_from_seed, page_turn_delay_ms,
    random_page_span, scoped_scan_plan, shelf_url, site_referer, sort_by_id_desc,
    sort_pages_desc_dedup, tag_page_url, zip_download_page_url, ImgListError, LoginError,
    LoginResp, ScopedScanMode, ScopedScanPlan, ZipLinkError,
};
use gentleman_manager::zip_download::ZipDownloadInfo;

fn comic(id: i64, cate: Option<i64>) -> ComicInSearch {
    ComicInSearch {
        id,
        title: String::new(),
        title_html: String::new(),
        cover: String::new(),
        additional_info: String::new(),
        list_cate_id: cate,
    }
}

#[test]
fn login_checks() {
    let ok = LoginResp { ret: true, html: String::new() };
    let no = LoginResp { ret: false, html: String::new() };
    assert_eq!(login_cookie(500, Some(&ok), None), Err(LoginError::UnexpectedStatus));
    assert_eq!(login_cookie(200, None, None), Err(LoginError::UnreadableBody));
    assert_eq!(login_cookie(200, Some(&no), Some("c".to_string())), Err(LoginError::Refused));
    assert_eq!(login_cookie(200, Some(&ok), None), Err(LoginError::NoCookie));
    assert_eq!(login_cookie(200, Some(&ok), Some("c=1".to_string())), Ok("c=1".to_string()));
}

#[test]
fn addresses() {
    assert_eq!(site_referer("w.com"), "https://w.com/");
    assert_eq!(tag_page_url("w.com", "t", 1), "https://w.com/albums-index-tag-t.html");
    assert_eq!(tag_page_url("w.com", "t", 3), "https://w.com/albums-index-page-3-tag-t.html");
    assert_eq!(category_page_url("w.com", 5, 0), "https://w.com/albums-index-cate-5.html");
    assert_eq!(category_page_url("w.com", 5, 2), "https://w.com/albums-index-page-2-cate-5.html");
    assert_eq!(albums_list_url("w.com", 1), "https://w.com/albums.html");
    assert_eq!(albums_list_url("w.com", 4), "https://w.com/albums-index-page-4.html");
    assert_eq!(home_url("w.com", 1), "https://w.com/");
    assert_eq!(gallery_url("w.com", 9), "https://w.com/photos-gallery-aid-9.html");
    assert_eq!(comic_page_url("w.com", 9), "https://w.com/photos-index-aid-9.html");
    assert_eq!(zip_download_page_url("w.com", 9), "https://w.com/download-index-aid-9.html");
    assert_eq!(shelf_url("w.com", 2, 3), "https://w.com/users-users_fav-page-3-c-2.html");
}

#[test]
fn img_list_json_is_cut_and_quoted() {
    let body = "<html>\nvar imglist = [{ url: fast_img_host+\\\"//img/1.jpg\\\", caption: \\\"[01]\\\"}];\nend";
    assert!(img_list_brackets_ordered(body));
    let json = extract_img_list_json(body).unwrap();
    assert_eq!(json, r#"[{ "url": "//img/1.jpg", "caption": "[01]"}]"#);
}

#[test]
fn img_list_errors() {
    assert_eq!(extract_img_list_json("nothing"), Err(ImgListError::NoImgListLine));
    assert_eq!(extract_img_list_json("var imglist = ]"), Err(ImgListError::NoOpeningBracket));
    assert_eq!(extract_img_list_json("var imglist = ["), Err(ImgListError::NoClosingBracket));
    assert!(!img_list_brackets_ordered("var imglist = ] x ["));
}

#[test]
fn zip_backup_url() {
    let with = ZipDownloadInfo { file_name: "a".to_string(), backup_url: Some("//h/a.zip".to_string()) };
    assert_eq!(get_zip_backup_url(&with), Ok("https://h/a.zip".to_string()));
    let without = ZipDownloadInfo { file_name: "a".to_string(), backup_url: None };
    assert_eq!(get_zip_backup_url(&without), Err(ZipLinkError::NoBackupUrl));
}

#[test]
fn scopes() {
    assert!(cate_id_matches_scope(12, 5));
    assert!(cate_id_matches_scope(5, 5));
    assert!(!cate_id_matches_scope(9, 5));
    assert!(cate_id_matches_scope(21, 19));
    let comics = vec![comic(1, Some(12)), comic(2, None), comic(3, Some(9)), comic(4, Some(5))];
    let ids: Vec<i64> = filter_comics_by_cate(&comics, 5).iter().map(|c| c.id).collect();
    assert_eq!(ids, vec![1, 4]);
}

#[test]
fn sorting_by_id() {
    let mut comics = vec![comic(2, None), comic(9, None), comic(5, None)];
    sort_by_id_desc(&mut comics);
    let ids: Vec<i64> = comics.iter().map(|c| c.id).collect();
    assert_eq!(ids, vec![9, 5, 2]);
}

#[test]
fn page_turn_delays() {
    assert_eq!(page_turn_delay_ms(1), 500 + 137);
    assert_eq!(page_turn_delay_ms(0), 500 + 137);
    assert_eq!(page_turn_delay_ms(10), 500 + 370);
    assert_eq!(page_turn_delay_ms(27), 500 + (27 * 137) % 1000 + 6000);
}

#[test]
fn page_spans() {
    let r = page_span_from_seed(10, 15, 7, 123456789);
    assert!((10..=15).contains(&r));
    assert_eq!(page_span_from_seed(3, 2, 7, 99), 3);
    let s = random_page_span(30, 40, 5);
    assert!((30..=40).contains(&s));
    assert_eq!(large_scan_span_bounds(ScopedScanMode::Conservative, true), (30, 40));
    assert_eq!(large_scan_span_bounds(ScopedScanMode::Aggressive, false), (10, 15));
    assert_eq!(large_scan_batch_start(120, 30), 91);
    assert_eq!(large_scan_batch_start(10, 30), 2);
}

#[test]
fn scan_plans_and_modes() {
    assert_eq!(ScopedScanMode::from_value(Some("aggressive")), ScopedScanMode::Aggressive);
    assert_eq!(ScopedScanMode::from_value(Some("other")), ScopedScanMode::Conservative);
    assert_eq!(ScopedScanMode::from_value(None), ScopedScanMode::Conservative);
    assert_eq!(scoped_scan_plan(ScopedScanMode::Conservative, 1), ScopedScanPlan::SinglePage);
    assert_eq!(scoped_scan_plan(ScopedScanMode::Conservative, 99), ScopedScanPlan::ParallelFast);
    assert_eq!(scoped_scan_plan(ScopedScanMode::Conservative, 100), ScopedScanPlan::RandomizedLarge);
    assert_eq!(scoped_scan_plan(ScopedScanMode::Aggressive, 1), ScopedScanPlan::ManualAggressive);
}

#[test]
fn retry_pages_sorted_once() {
    assert_eq!(sort_pages_desc_dedup(vec![3, 9, 3, 1, 9]), vec![9, 3, 1]);
}

#[test]
fn failure_kinds() {
    assert_eq!(classify_scan_failure("Request TIMED OUT"), "超時");
    assert_eq!(classify_scan_failure("Just a moment..."), "被拒絕");
    assert_eq!(classify_scan_failure("HTTP 429"), "請求過於頻繁");
    assert_eq!(classify_scan_failure("bad status"), "HTTP錯誤");
    assert_eq!(classify_scan_failure("oops"), "其他錯誤");
    assert_eq!(failure_kind_of_lowercase("deadline exceeded"), "超時");
}

#[test]
fn aggressive_batches_run_down_to_page_two() {
    assert_eq!(aggressive_batch(500, 150), (351, (351..=500).rev().collect::<Vec<i64>>()));
    assert_eq!(aggressive_batch(120, 150), (1, (2..=120).rev().collect::<Vec<i64>>()));
    assert_eq!(aggressive_batch(1, 100), (1, Vec::new()));
    assert_eq!(aggressive_batch(2, 1), (2, vec![2]));
}

#[test]
fn challenge_shows_in_failure_kinds() {
    let kinds = vec!["超時".to_string(), "被拒絕".to_string()];
    assert!(batch_met_challenge(&kinds));
    assert!(!batch_met_challenge(&vec!["超時".to_string(), "其他錯誤".to_string()]));
    assert!(!batch_met_challenge(&Vec::new()));
    let kind = classify_scan_failure("Just a moment... challenges.cloudflare.com");
    assert!(batch_met_challenge(&vec![kind]));
}

#[test]
fn tally_counts_comics_in_scope() {
    let mut t = ScopedScanTally::new();
    t.append_page(5, &[comic(1, Some(5)), comic(2, Some(6)), comic(3, None)]);
    assert_eq!(t.comics.len(), 3);
    assert_eq!(t.matched_count, 1);
    assert_eq!(t.completed, 1);
    assert!(!t.is_done(2));
    t.append_page(5, &[comic(4, Some(5))]);
    assert_eq!(t.comics.iter().map(|c| c.id).collect::<Vec<_>>(), vec![1, 2, 3, 4]);
    assert_eq!(t.matched_count, 2);
    assert!(t.is_done(2));
}

#[test]
fn scoped_cache_keeps_one_result() {
    let mut cache = ScopedSearchCache::new();
    assert!(cache.lookup("tag:a").is_none());
    cache.store("tag:a", &[comic(1, Some(5)), comic(2, None)]);
    let hit = cache.lookup("tag:a").unwrap();
    assert_eq!(hit.iter().map(|c| c.id).collect::<Vec<_>>(), vec![1, 2]);
    assert!(cache.lookup("tag:b").is_none());
    cache.store("tag:b", &[comic(3, None)]);
    assert!(cache.lookup("tag:a").is_none());
    assert_eq!(cache.lookup("tag:b").unwrap().len(), 1);
    cache.clear();
    assert!(cache.lookup("tag:b").is_none());
}

#[test]
fn id_sort_keeps_equal_ids_in_order() {
    let mut a = comic(4, None);
    a.title = "a".to_string();
    let mut b = comic(4, None);
    b.title = "b".to_string();
    let mut comics = vec![comic(1, None), a, comic(9, None), b];
    sort_by_id_desc(&mut comics);
    let order: Vec<(i64, String)> = comics.iter().map(|c| (c.id, c.title.clone())).collect();
    assert_eq!(
        order,
        vec![(9, String::new()), (4, "a".to_string()), (4, "b".to_string()), (1, String::new())]
    );
}

#[test]
fn batches_are_taken_in_page_order() {
    let mut t = ScopedScanTally::new();
    t.append_batch(5, vec![(7, vec![comic(70, Some(5))]), (3, vec![comic(30, None), comic(31, Some(5))]), (5, vec![])]);
    assert_eq!(t.comics.iter().map(|c| c.id).collect::<Vec<_>>(), vec![30, 31, 70]);
    assert_eq!(t.matched_count, 2);
    assert_eq!(t.completed, 3);
}
