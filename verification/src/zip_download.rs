//! The zip download page: its file name, its backup link, and the names of
//! partial downloads.
use vstd::prelude::*;

use crate::text::{
    chars_of, concat, contains_seq, ends_with, ends_with_chars, find_char, find_chars,
    first_index_of, first_occurrence, lemma_first_index_of, lemma_first_occurrence, occurs_at,
    opt_view, slice_vec, starts_with, starts_with_chars, string_of,
};

verus! {

/// What the download page of a zip tells.
#[derive(Debug, Clone)]
pub struct ZipDownloadInfo {
    pub file_name: String,
    pub backup_url: Option<String>,
}

/// The download page lacks the `FILE_NAME` entry of its configuration.
#[derive(Debug, Clone, Copy, PartialEq, Eq)]
pub enum ZipPageError {
    MissingFileName,
}

pub open spec fn part_suffix() -> Seq<char> {
    seq!['.', 'p', 'a', 'r', 't']
}

pub open spec fn zip_part_suffix() -> Seq<char> {
    seq!['.', 'z', 'i', 'p', '.', 'p', 'a', 'r', 't']
}

/// The path a zip is written to while it downloads: the final path with
/// `.part` appended.
pub fn zip_part_path(save_path: &str) -> (r: String)
    ensures
        r@ == save_path@ + part_suffix(),
{
    let mut v = chars_of(save_path);
    v.push('.');
    v.push('p');
    v.push('a');
    v.push('r');
    v.push('t');
    assert(v@ =~= save_path@ + part_suffix());
    string_of(&v)
}

/// Whether a file name is that of a partial zip download (`*.zip.part`).
pub fn is_zip_part_name(name: &str) -> (b: bool)
    ensures
        b == ends_with(name@, zip_part_suffix()),
{
    let v = chars_of(name);
    let suffix = chars_of(".zip.part");
    proof {
        reveal_strlit(".zip.part");
        assert(suffix@ =~= zip_part_suffix());
    }
    ends_with_chars(&v, &suffix)
}

pub open spec fn config_marker(key: Seq<char>) -> Seq<char> {
    key + seq![':', ' ', '"']
}

/// The quoted value that follows the first `KEY: "` in the page, up to the
/// next double quote.
pub open spec fn config_string(html: Seq<char>, key: Seq<char>) -> Option<Seq<char>> {
    let marker = config_marker(key);
    if !contains_seq(html, marker) {
        None
    } else {
        let rest = html.skip(first_occurrence(html, marker) + marker.len());
        if !rest.contains('"') {
            None
        } else {
            Some(rest.take(first_index_of(rest, '"')))
        }
    }
}

/// The value of configuration entry `key` in the page.
pub fn extract_config_string(html: &str, key: &str) -> (r: Option<String>)
    ensures
        match r {
            Some(v) => config_string(html@, key@) == Some(v@),
            None => config_string(html@, key@) is None,
        },
{
    let h = chars_of(html);
    let mut marker = chars_of(key);
    marker.push(':');
    marker.push(' ');
    marker.push('"');
    assert(marker@ =~= config_marker(key@));
    let hl = h.len();
    match find_chars(&h, &marker) {
        None => None,
        Some(k) => {
            proof {
                lemma_first_occurrence(h@, marker@, k as int);
                assert(occurs_at(h@, marker@, k as int));
                assert(k + marker@.len() <= h@.len());
            }
            let start = k + marker.len();
            let rest = slice_vec(&h, start, hl);
            assert(rest@ =~= h@.skip(start as int));
            match find_char(&rest, '"') {
                None => {
                    assert(!rest@.contains('"'));
                    None
                },
                Some(e) => {
                    proof {
                        lemma_first_index_of(rest@, '"', e as int);
                    }
                    let v = slice_vec(&rest, 0, e);
                    assert(v@ =~= rest@.take(e as int));
                    Some(string_of(&v))
                },
            }
        },
    }
}

pub open spec fn https_prefix() -> Seq<char> {
    seq!['h', 't', 't', 'p', 's', ':', '/', '/']
}

pub open spec fn http_prefix() -> Seq<char> {
    seq!['h', 't', 't', 'p', ':', '/', '/']
}

/// A download link made absolute: a scheme-relative `//host/...` and a link
/// without a scheme get `https://`; an `http://` or `https://` link is kept.
pub open spec fn normalized_url(url: Seq<char>) -> Seq<char> {
    if starts_with(url, seq!['/', '/']) {
        https_prefix() + url.skip(2)
    } else if starts_with(url, http_prefix()) || starts_with(url, https_prefix()) {
        url
    } else {
        https_prefix() + url
    }
}

/// A normalized link always carries an `http://` or `https://` scheme.
pub proof fn lemma_normalized_url_scheme(url: Seq<char>)
    ensures
        starts_with(normalized_url(url), http_prefix()) || starts_with(
            normalized_url(url),
            https_prefix(),
        ),
{
    let r = normalized_url(url);
    if !starts_with(url, seq!['/', '/']) && (starts_with(url, http_prefix()) || starts_with(
        url,
        https_prefix(),
    )) {
    } else if starts_with(url, seq!['/', '/']) {
        assert(r.take(8) =~= https_prefix());
    } else {
        assert(r.take(8) =~= https_prefix());
    }
}

/// Normalizing a link twice gives what normalizing it once gave.
pub proof fn lemma_normalized_url_idempotent(url: Seq<char>)
    ensures
        normalized_url(normalized_url(url)) == normalized_url(url),
{
    let r = normalized_url(url);
    lemma_normalized_url_scheme(url);
    assert(r.len() >= 7 && r[0] == 'h');
    assert(!starts_with(r, seq!['/', '/']));
}

pub fn normalize_download_url(url: &str) -> (r: String)
    ensures
        r@ == normalized_url(url@),
        starts_with(r@, http_prefix()) || starts_with(r@, https_prefix()),
{
    let u = chars_of(url);
    let https = chars_of("https://");
    let http = chars_of("http://");
    let slashes = chars_of("//");
    proof {
        reveal_strlit("https://");
        reveal_strlit("http://");
        reveal_strlit("//");
        assert(https@ =~= https_prefix());
        assert(http@ =~= http_prefix());
        assert(slashes@ =~= seq!['/', '/']);
    }
    let r = if starts_with_chars(&u, &slashes) {
        let rest = slice_vec(&u, 2, u.len());
        assert(rest@ =~= u@.skip(2));
        concat(&https, &rest)
    } else if starts_with_chars(&u, &http) || starts_with_chars(&u, &https) {
        u
    } else {
        concat(&https, &u)
    };
    proof {
        lemma_normalized_url_scheme(url@);
    }
    string_of(&r)
}

/// The value of attribute `attr` on the first element that the CSS
/// selector `selector` picks in the page, as an HTML parser reads it; none
/// where the selector does not parse, nothing is picked, or the element
/// lacks the attribute.
pub uninterp spec fn first_selected_attr(html: Seq<char>, selector: Seq<char>, attr: Seq<char>) -> Option<
    Seq<char>,
>;

/// Parses the page with `scraper::Html::parse_document`, parses `selector`
/// with `scraper::Selector::parse`, takes the first element that
/// `Html::select` yields and reads its attribute `attr`
/// (`Element::attr`). The contract names that result and says nothing
/// more of it.
#[verifier::external_body]
fn select_first_attr(html: &str, selector: &str, attr: &str) -> (r: Option<String>)
    ensures
        opt_view(r) == first_selected_attr(html@, selector@, attr@),
{
    let document = scraper::Html::parse_document(html);
    let selector = scraper::Selector::parse(selector).ok()?;
    let element = document.select(&selector).next()?;
    element.value().attr(attr).map(|h| h.to_string())
}

/// The link of the backup server: the first link under `#download-area`
/// whose `href` contains `.zip`.
pub open spec fn zip_link_href(html: Seq<char>) -> Option<Seq<char>> {
    first_selected_attr(html, "#download-area a[href*='.zip']"@, "href"@)
}

pub open spec fn file_name_key() -> Seq<char> {
    seq!['F', 'I', 'L', 'E', '_', 'N', 'A', 'M', 'E']
}

/// The page's information given the link that the HTML parser found: the
/// file name from the configuration, and the link made absolute.
pub fn zip_download_info_from(html: &str, backup_href: Option<String>) -> (r: Result<
    ZipDownloadInfo,
    ZipPageError,
>)
    ensures
        match config_string(html@, file_name_key()) {
            None => r == Err::<ZipDownloadInfo, ZipPageError>(ZipPageError::MissingFileName),
            Some(name) => r matches Ok(info) && info.file_name@ == name && opt_view(info.backup_url)
                == (match backup_href {
                Some(h) => Some(normalized_url(h@)),
                None => None,
            }),
        },
{
    let key = "FILE_NAME";
    proof {
        reveal_strlit("FILE_NAME");
        assert(key@ =~= file_name_key());
    }
    let file_name = match extract_config_string(html, key) {
        Some(f) => f,
        None => return Err(ZipPageError::MissingFileName),
    };
    let backup_url = match backup_href {
        Some(h) => Some(normalize_download_url(h.as_str())),
        None => None,
    };
    Ok(ZipDownloadInfo { file_name, backup_url })
}

/// Reads the download page of a zip.
pub fn parse_zip_download_page(html: &str) -> (r: Result<ZipDownloadInfo, ZipPageError>)
    ensures
        match config_string(html@, file_name_key()) {
            None => r == Err::<ZipDownloadInfo, ZipPageError>(ZipPageError::MissingFileName),
            Some(name) => r matches Ok(info) && info.file_name@ == name && opt_view(info.backup_url)
                == (match zip_link_href(html@) {
                Some(h) => Some(normalized_url(h)),
                None => None,
            }),
        },
        r matches Ok(info) ==> (info.backup_url matches Some(u) ==> starts_with(u@, http_prefix())
            || starts_with(u@, https_prefix())),
{
    let href = select_first_attr(html, "#download-area a[href*='.zip']", "href");
    proof {
        if let Some(h) = zip_link_href(html@) {
            lemma_normalized_url_scheme(h);
        }
    }
    zip_download_info_from(html, href)
}

} // verus!
