use gentleman_manager::types::ComicInSearch;
use gentleman_manager::utils::filename_filter;

#[test]
fn filename_filter_replaces_reserved_characters() {
    assert_eq!(filename_filter(r#" a\b/c:d*e?f"g<h>i|j "#), "a b c：d⭐e？f'g《h》i丨j");
}

#[test]
fn comic_accessors() {
    let c = ComicInSearch {
        id: 4,
        title: "t".to_string(),
        title_html: "<b>t</b>".to_string(),
        cover: String::new(),
        additional_info: "i".to_string(),
        list_cate_id: Some(2),
    };
    assert_eq!(c.id(), 4);
    assert_eq!(c.title(), "t");
    assert_eq!(c.title_html(), "<b>t</b>");
    assert_eq!(c.additional_info(), "i");
    assert_eq!(c.list_cate_id(), Some(2));
    assert_eq!(c.duplicate(), c);
}
