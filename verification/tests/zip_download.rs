use gentleman_manager::zip_download::{
    is_zip_part_name, normalize_download_url, parse_zip_download_page, zip_download_info_from,
    zip_part_path, ZipPageError,
};

#[test]
fn zip_part_path_appends_suffix() {
    let save = r"C:\dl\每日攻略計畫 30話[完結].zip";
    assert_eq!(zip_part_path(save), r"C:\dl\每日攻略計畫 30話[完結].zip.part");
}

#[test]
fn parse_config_from_reference_snippet() {
    let html = r#"
        const CONFIG = {
            WORKER_API: "https://d1.wcdn.date/api/generate-link",
            FILE_KEY: "down/3611/bcac55289e0065911e8feaeedfb4b526.zip",
            FILE_NAME: "每日攻略計畫 30話[完結].zip"
        };
        <div id="download-area">
            <a class="ads" href="//dl1.wn01.download/down/3611/bcac55289e0065911e8feaeedfb4b526.zip?n=test">
        "#;
    let info = parse_zip_download_page(html).unwrap();
    assert_eq!(info.file_name, "每日攻略計畫 30話[完結].zip");
    assert!(info.backup_url.as_ref().unwrap().starts_with("https://"));
}

#[test]
fn parse_page_gives_exact_backup_url() {
    let html = r#"FILE_NAME: "a.zip" <div id="download-area"><a href="//host/x.zip?n=1">z</a></div>"#;
    let info = parse_zip_download_page(html).unwrap();
    assert_eq!(info.backup_url.as_deref(), Some("https://host/x.zip?n=1"));
}

#[test]
fn page_without_file_name_is_refused() {
    let html = r#"<div id="download-area"></div>"#;
    assert_eq!(parse_zip_download_page(html).unwrap_err(), ZipPageError::MissingFileName);
}

#[test]
fn info_from_found_link() {
    let info = zip_download_info_from(r#"FILE_NAME: "b.zip""#, Some("dl.example/b.zip".to_string())).unwrap();
    assert_eq!(info.file_name, "b.zip");
    assert_eq!(info.backup_url.as_deref(), Some("https://dl.example/b.zip"));
    let none = zip_download_info_from(r#"FILE_NAME: "b.zip""#, None).unwrap();
    assert!(none.backup_url.is_none());
}

#[test]
fn normalize_adds_https_where_needed() {
    assert_eq!(normalize_download_url("//a/b.zip"), "https://a/b.zip");
    assert_eq!(normalize_download_url("http://a/b.zip"), "http://a/b.zip");
    assert_eq!(normalize_download_url("https://a/b.zip"), "https://a/b.zip");
    assert_eq!(normalize_download_url("a/b.zip"), "https://a/b.zip");
}

#[test]
fn zip_part_names() {
    assert!(is_zip_part_name("x.zip.part"));
    assert!(!is_zip_part_name("x.zip"));
    assert!(!is_zip_part_name("x.part"));
}
