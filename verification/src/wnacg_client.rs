//! The site client's own logic: the addresses it requests, how it reads the
//! image list out of a gallery page, the category scopes a search filters
//! by, the pacing of scoped scans, and what it makes of failures.
use vstd::prelude::*;

use crate::calendar::clock_now;
use crate::text::{
    chars_of, concat, contains_chars, contains_seq, dec_int, dec_i64, find_char, find_chars,
    first_index_of, last_index_of, lemma_first_index_of, lemma_last_index_of, opt_view,
    lowercase, replace_all, replace_all_chars, rfind_char, slice_vec, split_on, split_on_chars,
    string_of, to_lowercase_text,
};
use crate::types::ComicInSearch;
use crate::zip_download::{normalize_download_url, normalized_url, ZipDownloadInfo};

verus! {

/// The answer of the login request.
#[derive(Debug, Clone)]
pub struct LoginResp {
    pub ret: bool,
    pub html: String,
}

/// Why a login failed.
#[derive(Debug, Clone, Copy, PartialEq, Eq, Structural)]
pub enum LoginError {
    /// The answer's HTTP status was not 200.
    UnexpectedStatus,
    /// The answer's body was not a login answer.
    UnreadableBody,
    /// The site refused the name or password.
    Refused,
    /// The answer set no cookie, or one that is not UTF-8.
    NoCookie,
}

/// The cookie a login answer yields, after the checks the client makes in
/// turn: the status, the body, the site's verdict, the cookie header.
pub fn login_cookie(status: u16, resp: Option<&LoginResp>, set_cookie: Option<String>) -> (r: Result<
    String,
    LoginError,
>)
    ensures
        status != 200 ==> r == Err::<String, LoginError>(LoginError::UnexpectedStatus),
        status == 200 && resp is None ==> r == Err::<String, LoginError>(LoginError::UnreadableBody),
        status == 200 ==> (resp matches Some(x) ==> (!x.ret ==> r == Err::<String, LoginError>(
            LoginError::Refused,
        ))),
        status == 200 ==> (resp matches Some(x) ==> (x.ret ==> match set_cookie {
            Some(c) => r matches Ok(v) && v@ == c@,
            None => r == Err::<String, LoginError>(LoginError::NoCookie),
        })),
{
    if status != 200 {
        return Err(LoginError::UnexpectedStatus);
    }
    let x = match resp {
        Some(x) => x,
        None => return Err(LoginError::UnreadableBody),
    };
    if !x.ret {
        return Err(LoginError::Refused);
    }
    match set_cookie {
        Some(c) => Ok(c),
        None => Err(LoginError::NoCookie),
    }
}

// ---------------------------------------------------------------------------
// Addresses
// ---------------------------------------------------------------------------

pub open spec fn https_of(domain: Seq<char>) -> Seq<char> {
    "https://"@ + domain
}

fn https_prefixed(domain: &str) -> (r: Vec<char>)
    ensures
        r@ == https_of(domain@),
{
    concat(&chars_of("https://"), &chars_of(domain))
}

fn append_text(v: Vec<char>, s: &str) -> (r: Vec<char>)
    ensures
        r@ == v@ + s@,
{
    concat(&v, &chars_of(s))
}

fn append_int(v: Vec<char>, n: i64) -> (r: Vec<char>)
    ensures
        r@ == v@ + dec_int(n as int),
{
    concat(&v, &dec_i64(n))
}

/// `https://{domain}/`, the referer of every page request.
pub fn site_referer(domain: &str) -> (r: String)
    ensures
        r@ == https_of(domain@) + "/"@,
{
    string_of(&append_text(https_prefixed(domain), "/"))
}

/// The address of a page of a tag listing.
pub open spec fn tag_page_url_text(domain: Seq<char>, tag: Seq<char>, page: int) -> Seq<char> {
    if page <= 1 {
        https_of(domain) + "/albums-index-tag-"@ + tag + ".html"@
    } else {
        https_of(domain) + "/albums-index-page-"@ + dec_int(page) + "-tag-"@ + tag + ".html"@
    }
}

pub fn tag_page_url(domain: &str, tag: &str, page: i64) -> (r: String)
    ensures
        r@ == tag_page_url_text(domain@, tag@, page as int),
{
    let v = https_prefixed(domain);
    let v = if page <= 1 {
        let v = append_text(v, "/albums-index-tag-");
        let v = append_text(v, tag);
        append_text(v, ".html")
    } else {
        let v = append_text(v, "/albums-index-page-");
        let v = append_int(v, page);
        let v = append_text(v, "-tag-");
        let v = append_text(v, tag);
        append_text(v, ".html")
    };
    string_of(&v)
}

/// The address of a page of a category listing.
pub open spec fn category_page_url_text(domain: Seq<char>, cate_id: int, page: int) -> Seq<char> {
    if page <= 1 {
        https_of(domain) + "/albums-index-cate-"@ + dec_int(cate_id) + ".html"@
    } else {
        https_of(domain) + "/albums-index-page-"@ + dec_int(page) + "-cate-"@ + dec_int(cate_id)
            + ".html"@
    }
}

pub fn category_page_url(domain: &str, cate_id: i64, page: i64) -> (r: String)
    ensures
        r@ == category_page_url_text(domain@, cate_id as int, page as int),
{
    let v = https_prefixed(domain);
    let v = if page <= 1 {
        let v = append_text(v, "/albums-index-cate-");
        let v = append_int(v, cate_id);
        append_text(v, ".html")
    } else {
        let v = append_text(v, "/albums-index-page-");
        let v = append_int(v, page);
        let v = append_text(v, "-cate-");
        let v = append_int(v, cate_id);
        append_text(v, ".html")
    };
    string_of(&v)
}

/// The address of a page of the update list (`first` is the first page's
/// own address: `albums.html` for the list, the site root for the home page).
pub open spec fn listing_url_text(domain: Seq<char>, first: Seq<char>, page: int) -> Seq<char> {
    if page <= 1 {
        https_of(domain) + first
    } else {
        https_of(domain) + "/albums-index-page-"@ + dec_int(page) + ".html"@
    }
}

pub fn albums_list_url(domain: &str, page: i64) -> (r: String)
    ensures
        r@ == listing_url_text(domain@, "/albums.html"@, page as int),
{
    let v = https_prefixed(domain);
    let v = if page <= 1 {
        append_text(v, "/albums.html")
    } else {
        let v = append_text(v, "/albums-index-page-");
        let v = append_int(v, page);
        append_text(v, ".html")
    };
    string_of(&v)
}

pub fn home_url(domain: &str, page: i64) -> (r: String)
    ensures
        r@ == listing_url_text(domain@, "/"@, page as int),
{
    let v = https_prefixed(domain);
    let v = if page <= 1 {
        append_text(v, "/")
    } else {
        let v = append_text(v, "/albums-index-page-");
        let v = append_int(v, page);
        append_text(v, ".html")
    };
    string_of(&v)
}

/// Two numbers in decimal, each followed by a text that does not start with
/// a digit: equal texts mean equal numbers.
proof fn lemma_number_then_mark(a: nat, b: nat, ra: Seq<char>, rb: Seq<char>)
    requires
        ra.len() > 0,
        rb.len() > 0,
        !crate::text::is_ascii_digit(ra[0]),
        !crate::text::is_ascii_digit(rb[0]),
        crate::text::dec_nat(a) + ra == crate::text::dec_nat(b) + rb,
    ensures
        a == b,
{
    crate::text::lemma_dec_nat_digits(a);
    crate::text::lemma_dec_nat_digits(b);
    let da = crate::text::dec_nat(a);
    let db = crate::text::dec_nat(b);
    if da.len() < db.len() {
        assert((da + ra)[da.len() as int] == ra[0]);
        assert((db + rb)[da.len() as int] == db[da.len() as int]);
    }
    if db.len() < da.len() {
        assert((db + rb)[db.len() as int] == rb[0]);
        assert((da + ra)[db.len() as int] == da[db.len() as int]);
    }
    assert(da =~= (da + ra).take(da.len() as int));
    assert(db =~= (db + rb).take(db.len() as int));
    crate::text::lemma_dec_nat_injective(a, b);
}

/// `pre + n + rest` for two page numbers from 2 on: equal texts mean equal
/// pages.
proof fn lemma_page_number_in_url(pre: Seq<char>, rest: Seq<char>, p: int, q: int)
    requires
        p >= 2,
        q >= 2,
        rest.len() > 0,
        !crate::text::is_ascii_digit(rest[0]),
        pre + dec_int(p) + rest == pre + dec_int(q) + rest,
    ensures
        p == q,
{
    let x = pre + dec_int(p) + rest;
    let y = pre + dec_int(q) + rest;
    assert(x.skip(pre.len() as int) =~= crate::text::dec_nat(p as nat) + rest);
    assert(y.skip(pre.len() as int) =~= crate::text::dec_nat(q as nat) + rest);
    lemma_number_then_mark(p as nat, q as nat, rest, rest);
}

/// Page `p` from 2 on of a tag listing is
/// `https://{domain}/albums-index-page-{p}-tag-{tag}.html`, and no two pages
/// from 1 on share an address.
pub proof fn lemma_tag_page_urls(domain: Seq<char>, tag: Seq<char>, p: int, q: int)
    ensures
        p >= 2 ==> tag_page_url_text(domain, tag, p) == "https://"@ + domain + "/albums-index-page-"@
            + crate::text::dec_nat(p as nat) + "-tag-"@ + tag + ".html"@,
        1 <= p < q ==> tag_page_url_text(domain, tag, p) != tag_page_url_text(domain, tag, q),
{
    reveal_strlit("-tag-");
    reveal_strlit("/albums-index-page-");
    reveal_strlit("/albums-index-tag-");
    let h = https_of(domain);
    if 1 <= p < q {
        let x = tag_page_url_text(domain, tag, p);
        let y = tag_page_url_text(domain, tag, q);
        if p == 1 {
            let k: int = h.len() as int + 14;
            assert(x[k] == 't');
            assert(y[k] == 'p');
        } else {
            let pre = h + "/albums-index-page-"@;
            let rest = "-tag-"@ + tag + ".html"@;
            assert(x =~= pre + dec_int(p) + rest);
            assert(y =~= pre + dec_int(q) + rest);
            if x == y {
                lemma_page_number_in_url(pre, rest, p, q);
            }
        }
    }
}

/// Page `p` from 2 on of a category listing is
/// `https://{domain}/albums-index-page-{p}-cate-{id}.html`, and no two pages
/// from 1 on share an address.
pub proof fn lemma_category_page_urls(domain: Seq<char>, cate_id: int, p: int, q: int)
    ensures
        p >= 2 ==> category_page_url_text(domain, cate_id, p) == "https://"@ + domain + "/albums-index-page-"@
            + crate::text::dec_nat(p as nat) + "-cate-"@ + dec_int(cate_id) + ".html"@,
        1 <= p < q ==> category_page_url_text(domain, cate_id, p) != category_page_url_text(domain, cate_id, q),
{
    reveal_strlit("-cate-");
    reveal_strlit("/albums-index-page-");
    reveal_strlit("/albums-index-cate-");
    let h = https_of(domain);
    if 1 <= p < q {
        let x = category_page_url_text(domain, cate_id, p);
        let y = category_page_url_text(domain, cate_id, q);
        if p == 1 {
            let k: int = h.len() as int + 14;
            assert(x[k] == 'c');
            assert(y[k] == 'p');
        } else {
            let pre = h + "/albums-index-page-"@;
            let rest = "-cate-"@ + dec_int(cate_id) + ".html"@;
            assert(x =~= pre + dec_int(p) + rest);
            assert(y =~= pre + dec_int(q) + rest);
            if x == y {
                lemma_page_number_in_url(pre, rest, p, q);
            }
        }
    }
}

/// Page `p` from 2 on of the update list is
/// `https://{domain}/albums-index-page-{p}.html`, the first page
/// `https://{domain}/albums.html`, and no two pages from 1 on share an
/// address.
pub proof fn lemma_albums_list_urls(domain: Seq<char>, p: int, q: int)
    ensures
        p >= 2 ==> listing_url_text(domain, "/albums.html"@, p) == "https://"@ + domain + "/albums-index-page-"@
            + crate::text::dec_nat(p as nat) + ".html"@,
        1 <= p < q ==> listing_url_text(domain, "/albums.html"@, p) != listing_url_text(domain, "/albums.html"@, q),
{
    reveal_strlit(".html");
    reveal_strlit("/albums-index-page-");
    reveal_strlit("/albums.html");
    let h = https_of(domain);
    if 1 <= p < q {
        let x = listing_url_text(domain, "/albums.html"@, p);
        let y = listing_url_text(domain, "/albums.html"@, q);
        if p == 1 {
            let k: int = h.len() as int + 7;
            assert(x[k] == '.');
            assert(y[k] == '-');
        } else {
            let pre = h + "/albums-index-page-"@;
            let rest = ".html"@;
            if x == y {
                lemma_page_number_in_url(pre, rest, p, q);
            }
        }
    }
}

/// Page `p` from 2 on of the home listing is
/// `https://{domain}/albums-index-page-{p}.html`, the first page
/// `https://{domain}/`, and no two pages from 1 on share an address.
pub proof fn lemma_home_urls(domain: Seq<char>, p: int, q: int)
    ensures
        p >= 2 ==> listing_url_text(domain, "/"@, p) == "https://"@ + domain + "/albums-index-page-"@
            + crate::text::dec_nat(p as nat) + ".html"@,
        1 <= p < q ==> listing_url_text(domain, "/"@, p) != listing_url_text(domain, "/"@, q),
{
    reveal_strlit(".html");
    reveal_strlit("/albums-index-page-");
    reveal_strlit("/");
    let h = https_of(domain);
    if 1 <= p < q {
        let x = listing_url_text(domain, "/"@, p);
        let y = listing_url_text(domain, "/"@, q);
        if p == 1 {
            assert(x.len() == h.len() + 1);
            assert(y.len() > h.len() + 1);
        } else {
            let pre = h + "/albums-index-page-"@;
            let rest = ".html"@;
            if x == y {
                lemma_page_number_in_url(pre, rest, p, q);
            }
        }
    }
}

/// `https://{domain}/{kind}-{id}.html` for the pages of one comic.
pub open spec fn comic_url_text(domain: Seq<char>, kind: Seq<char>, id: int) -> Seq<char> {
    https_of(domain) + "/"@ + kind + "-"@ + dec_int(id) + ".html"@
}

fn comic_url(domain: &str, kind: &str, id: i64) -> (r: String)
    ensures
        r@ == comic_url_text(domain@, kind@, id as int),
{
    let v = append_text(https_prefixed(domain), "/");
    let v = append_text(v, kind);
    let v = append_text(v, "-");
    let v = append_int(v, id);
    string_of(&append_text(v, ".html"))
}

/// The gallery page, which lists a comic's images.
pub fn gallery_url(domain: &str, id: i64) -> (r: String)
    ensures
        r@ == comic_url_text(domain@, "photos-gallery-aid"@, id as int),
{
    comic_url(domain, "photos-gallery-aid", id)
}

/// The page of a comic.
pub fn comic_page_url(domain: &str, id: i64) -> (r: String)
    ensures
        r@ == comic_url_text(domain@, "photos-index-aid"@, id as int),
{
    comic_url(domain, "photos-index-aid", id)
}

/// The download page of a comic's zip.
pub fn zip_download_page_url(domain: &str, id: i64) -> (r: String)
    ensures
        r@ == comic_url_text(domain@, "download-index-aid"@, id as int),
{
    comic_url(domain, "download-index-aid", id)
}

/// A page of a favourites shelf.
pub open spec fn shelf_url_text(domain: Seq<char>, shelf_id: int, page: int) -> Seq<char> {
    https_of(domain) + "/users-users_fav-page-"@ + dec_int(page) + "-c-"@ + dec_int(shelf_id)
        + ".html"@
}

pub fn shelf_url(domain: &str, shelf_id: i64, page: i64) -> (r: String)
    ensures
        r@ == shelf_url_text(domain@, shelf_id as int, page as int),
{
    let v = append_text(https_prefixed(domain), "/users-users_fav-page-");
    let v = append_int(v, page);
    let v = append_text(v, "-c-");
    let v = append_int(v, shelf_id);
    string_of(&append_text(v, ".html"))
}

// ---------------------------------------------------------------------------
// The image list of a gallery page
// ---------------------------------------------------------------------------

/// Why the image list could not be cut out of a gallery page.
#[derive(Debug, Clone, Copy, PartialEq, Eq, Structural)]
pub enum ImgListError {
    NoImgListLine,
    NoOpeningBracket,
    NoClosingBracket,
}

pub open spec fn img_list_marker() -> Seq<char> {
    "var imglist = "@
}

/// The index of the first of `lines` that contains `marker`, if any.
pub open spec fn first_line_with(lines: Seq<Seq<char>>, marker: Seq<char>) -> Option<int>
    decreases lines.len(),
{
    if lines.len() == 0 {
        None
    } else if contains_seq(lines[0], marker) {
        Some(0)
    } else {
        match first_line_with(lines.drop_first(), marker) {
            Some(k) => Some(k + 1),
            None => None,
        }
    }
}

/// The JSON text of a gallery's image list: on the first line that holds
/// `var imglist = `, the text from its first `[` to its last `]`, with
/// `url:` and `caption:` quoted as keys, `fast_img_host+` dropped and `\"`
/// made `"`. Lines are split at `\n`; a `\r` before it cannot change the
/// result, which lies between two brackets.
pub open spec fn img_list_json_text(body: Seq<char>) -> Result<Seq<char>, ImgListError> {
    let lines = split_on(body, seq!['\n']);
    match first_line_with(lines, img_list_marker()) {
        None => Err(ImgListError::NoImgListLine),
        Some(k) => {
            let line = lines[k];
            if !line.contains('[') {
                Err(ImgListError::NoOpeningBracket)
            } else if !line.contains(']') {
                Err(ImgListError::NoClosingBracket)
            } else {
                let start = first_index_of(line, '[');
                let end = last_index_of(line, ']');
                let raw = line.subrange(start, end + 1);
                Ok(
                    replace_all(
                        replace_all(
                            replace_all(replace_all(raw, "url:"@, "\"url\":"@), "caption:"@, "\"caption\":"@),
                            "fast_img_host+"@,
                            ""@,
                        ),
                        "\\\""@,
                        "\""@,
                    ),
                )
            }
        },
    }
}

proof fn lemma_first_line_with_range(lines: Seq<Seq<char>>, marker: Seq<char>)
    ensures
        first_line_with(lines, marker) matches Some(k) ==> 0 <= k < lines.len() && contains_seq(
            lines[k],
            marker,
        ),
    decreases lines.len(),
{
    if lines.len() > 0 {
        lemma_first_line_with_range(lines.drop_first(), marker);
    }
}

proof fn lemma_first_line_with_step(lines: Seq<Seq<char>>, marker: Seq<char>, i: int)
    requires
        0 <= i < lines.len(),
        forall|j: int| 0 <= j < i ==> !contains_seq(#[trigger] lines[j], marker),
    ensures
        contains_seq(lines[i], marker) ==> first_line_with(lines, marker) == Some(i),
        !contains_seq(lines[i], marker) ==> (first_line_with(lines, marker) == Some(i)) == false,
    decreases i,
{
    lemma_first_line_with_range(lines.drop_first(), marker);
    if i > 0 {
        assert forall|j: int| 0 <= j < i - 1 implies !contains_seq(#[trigger] lines.drop_first()[j], marker) by {
            assert(lines.drop_first()[j] == lines[j + 1]);
        }
        assert(!contains_seq(lines[0], marker));
        lemma_first_line_with_step(lines.drop_first(), marker, i - 1);
    }
}

proof fn lemma_first_line_with_none(lines: Seq<Seq<char>>, marker: Seq<char>)
    requires
        forall|j: int| 0 <= j < lines.len() ==> !contains_seq(#[trigger] lines[j], marker),
    ensures
        first_line_with(lines, marker) is None,
    decreases lines.len(),
{
    if lines.len() > 0 {
        assert forall|j: int| 0 <= j < lines.len() - 1 implies !contains_seq(#[trigger] lines.drop_first()[j], marker) by {
            assert(lines.drop_first()[j] == lines[j + 1]);
        }
        assert(!contains_seq(lines[0], marker));
        lemma_first_line_with_none(lines.drop_first(), marker);
    }
}

fn replace_text(v: &Vec<char>, from: &str, to: &str) -> (r: Vec<char>)
    requires
        from@.len() > 0,
    ensures
        r@ == replace_all(v@, from@, to@),
{
    let f = chars_of(from);
    let t = chars_of(to);
    replace_all_chars(v, &f, &t)
}

/// The brackets of the image list line are in order: its last `]` is not
/// before its first `[` but by one place at most (else cutting the text
/// between them panics).
pub open spec fn img_list_brackets_in_order(body: Seq<char>) -> bool {
    let lines = split_on(body, seq!['\n']);
    match first_line_with(lines, img_list_marker()) {
        Some(k) => lines[k].contains('[') && lines[k].contains(']') ==> last_index_of(lines[k], ']')
            + 1 >= first_index_of(lines[k], '['),
        None => true,
    }
}

fn img_list_line(body: &str) -> (r: Option<Vec<char>>)
    ensures
        match r {
            Some(line) => first_line_with(split_on(body@, seq!['\n']), img_list_marker()) matches Some(
                k,
            ) && line@ == split_on(body@, seq!['\n'])[k],
            None => first_line_with(split_on(body@, seq!['\n']), img_list_marker()) is None,
        },
{
    let mut nl: Vec<char> = Vec::new();
    nl.push('\n');
    assert(nl@ =~= seq!['\n']);
    let lines = split_on_chars(&chars_of(body), &nl);
    let marker = chars_of("var imglist = ");
    proof {
        reveal_strlit("var imglist = ");
    }
    let ghost ls = split_on(body@, seq!['\n']);
    let mut i: usize = 0;
    let mut found: Option<usize> = None;
    while i < lines.len() && found.is_none()
        invariant
            i <= lines.len(),
            lines@.len() == ls.len(),
            forall|j: int| 0 <= j < lines@.len() ==> (#[trigger] lines@[j])@ == ls[j],
            marker@ == img_list_marker(),
            found is None ==> forall|j: int| 0 <= j < i ==> !contains_seq(#[trigger] ls[j], img_list_marker()),
            found matches Some(k) ==> k < lines@.len() && first_line_with(ls, img_list_marker()) == Some(k as int),
        decreases lines.len() - i + (if found is None { 1int } else { 0int }),
    {
        if contains_chars(&lines[i], &marker) {
            proof {
                lemma_first_line_with_step(ls, img_list_marker(), i as int);
            }
            found = Some(i);
        } else {
            i += 1;
        }
    }
    match found {
        Some(k) => Some(slice_vec(&lines[k], 0, lines[k].len())),
        None => {
            proof {
                lemma_first_line_with_none(ls, img_list_marker());
            }
            None
        },
    }
}

/// Whether `extract_img_list_json` can take `body`.
pub fn img_list_brackets_ordered(body: &str) -> (b: bool)
    ensures
        b == img_list_brackets_in_order(body@),
{
    match img_list_line(body) {
        None => true,
        Some(line) => match (find_char(&line, '['), rfind_char(&line, ']')) {
            (Some(start), Some(end)) => {
                proof {
                    lemma_first_index_of(line@, '[', start as int);
                    lemma_last_index_of(line@, ']', end as int);
                }
                end + 1 >= start
            },
            _ => true,
        },
    }
}

pub fn extract_img_list_json(body: &str) -> (r: Result<String, ImgListError>)
    requires
        img_list_brackets_in_order(body@),
    ensures
        match r {
            Ok(s) => img_list_json_text(body@) == Ok::<Seq<char>, ImgListError>(s@),
            Err(e) => img_list_json_text(body@) == Err::<Seq<char>, ImgListError>(e),
        },
{
    let line = match img_list_line(body) {
        Some(l) => l,
        None => return Err(ImgListError::NoImgListLine),
    };
    let start = match find_char(&line, '[') {
        Some(s) => s,
        None => return Err(ImgListError::NoOpeningBracket),
    };
    let end = match rfind_char(&line, ']') {
        Some(e) => e,
        None => return Err(ImgListError::NoClosingBracket),
    };
    proof {
        lemma_first_index_of(line@, '[', start as int);
        lemma_last_index_of(line@, ']', end as int);
        reveal_strlit("url:");
        reveal_strlit("caption:");
        reveal_strlit("fast_img_host+");
        reveal_strlit("\\\"");
    }
    let raw = slice_vec(&line, start, end + 1);
    let a = replace_text(&raw, "url:", "\"url\":");
    let b = replace_text(&a, "caption:", "\"caption\":");
    let c = replace_text(&b, "fast_img_host+", "");
    let d = replace_text(&c, "\\\"", "\"");
    Ok(string_of(&d))
}

/// The backup (Server 2) address of a zip, made absolute.
#[derive(Debug, Clone, Copy, PartialEq, Eq, Structural)]
pub enum ZipLinkError {
    NoBackupUrl,
}

pub fn get_zip_backup_url(info: &ZipDownloadInfo) -> (r: Result<String, ZipLinkError>)
    ensures
        match info.backup_url {
            Some(u) => r matches Ok(v) && v@ == normalized_url(u@),
            None => r == Err::<String, ZipLinkError>(ZipLinkError::NoBackupUrl),
        },
{
    match &info.backup_url {
        Some(u) => Ok(normalize_download_url(u.as_str())),
        None => Err(ZipLinkError::NoBackupUrl),
    }
}

// ---------------------------------------------------------------------------
// Category scopes
// ---------------------------------------------------------------------------

/// How a scoped scan paces its requests.
#[derive(Debug, Clone, Copy, PartialEq, Eq, Structural)]
pub enum ScopedScanMode {
    Conservative,
    Aggressive,
}

impl ScopedScanMode {
    pub fn from_value(value: Option<&str>) -> (r: ScopedScanMode)
        ensures
            r == (if value matches Some(v) && v@ == "aggressive"@ {
                ScopedScanMode::Aggressive
            } else {
                ScopedScanMode::Conservative
            }),
    {
        match value {
            Some(v) => if crate::text::text_eq(&chars_of(v), &chars_of("aggressive")) {
                ScopedScanMode::Aggressive
            } else {
                ScopedScanMode::Conservative
            },
            None => ScopedScanMode::Conservative,
        }
    }
}

/// A listed category falls in a searched scope: the same category, or one of
/// the sub-categories the site groups under it.
pub open spec fn in_scope(list_cate_id: i64, cate_id: i64) -> bool {
    list_cate_id == cate_id || (cate_id == 5 && (list_cate_id == 1 || list_cate_id == 12
        || list_cate_id == 16 || list_cate_id == 2 || list_cate_id == 37 || list_cate_id == 22
        || list_cate_id == 3)) || (cate_id == 6 && (list_cate_id == 9 || list_cate_id == 13
        || list_cate_id == 17)) || (cate_id == 7 && (list_cate_id == 10 || list_cate_id == 14
        || list_cate_id == 18)) || (cate_id == 19 && (list_cate_id == 20 || list_cate_id == 21))
}

pub fn cate_id_matches_scope(list_cate_id: i64, cate_id: i64) -> (b: bool)
    ensures
        b == in_scope(list_cate_id, cate_id),
{
    list_cate_id == cate_id || match cate_id {
        5 => list_cate_id == 1 || list_cate_id == 12 || list_cate_id == 16 || list_cate_id == 2
            || list_cate_id == 37 || list_cate_id == 22 || list_cate_id == 3,
        6 => list_cate_id == 9 || list_cate_id == 13 || list_cate_id == 17,
        7 => list_cate_id == 10 || list_cate_id == 14 || list_cate_id == 18,
        19 => list_cate_id == 20 || list_cate_id == 21,
        _ => false,
    }
}

/// A comic is in the scope when its listing names a category in it.
pub open spec fn comic_in_scope(c: ComicInSearch, cate_id: i64) -> bool {
    match c.list_cate_id {
        Some(l) => in_scope(l, cate_id),
        None => false,
    }
}

pub fn comic_matches_cate_scope(comic: &ComicInSearch, cate_id: i64) -> (b: bool)
    ensures
        b == comic_in_scope(*comic, cate_id),
{
    match comic.list_cate_id {
        Some(l) => cate_id_matches_scope(l, cate_id),
        None => false,
    }
}

/// The comics in the scope, in their order.
pub open spec fn scope_filter(s: Seq<ComicInSearch>, cate_id: i64) -> Seq<ComicInSearch>
    decreases s.len(),
{
    if s.len() == 0 {
        s
    } else if comic_in_scope(s.last(), cate_id) {
        scope_filter(s.drop_last(), cate_id).push(s.last())
    } else {
        scope_filter(s.drop_last(), cate_id)
    }
}

pub fn filter_comics_by_cate(comics: &[ComicInSearch], cate_id: i64) -> (r: Vec<ComicInSearch>)
    ensures
        r@ == scope_filter(comics@, cate_id),
{
    let mut r: Vec<ComicInSearch> = Vec::new();
    let mut i: usize = 0;
    while i < comics.len()
        invariant
            i <= comics.len(),
            r@ == scope_filter(comics@.take(i as int), cate_id),
        decreases comics.len() - i,
    {
        proof {
            assert(comics@.take(i + 1).drop_last() =~= comics@.take(i as int));
            assert(comics@.take(i + 1).last() == comics@[i as int]);
        }
        if comic_matches_cate_scope(&comics[i], cate_id) {
            r.push(comics[i].duplicate());
        }
        i += 1;
    }
    assert(comics@.take(comics.len() as int) =~= comics@);
    r
}

/// Filtering a list keeps at most its length.
pub proof fn lemma_scope_filter_len(s: Seq<ComicInSearch>, cate_id: i64)
    ensures
        scope_filter(s, cate_id).len() <= s.len(),
    decreases s.len(),
{
    if s.len() > 0 {
        lemma_scope_filter_len(s.drop_last(), cate_id);
    }
}

/// Filtering two lists one after the other is filtering the two together.
pub proof fn lemma_scope_filter_concat(a: Seq<ComicInSearch>, b: Seq<ComicInSearch>, cate_id: i64)
    ensures
        scope_filter(a + b, cate_id) == scope_filter(a, cate_id) + scope_filter(b, cate_id),
    decreases b.len(),
{
    if b.len() == 0 {
        assert(a + b =~= a);
        assert(scope_filter(a, cate_id) + scope_filter(b, cate_id) =~= scope_filter(a, cate_id));
    } else {
        lemma_scope_filter_concat(a, b.drop_last(), cate_id);
        assert((a + b).drop_last() =~= a + b.drop_last());
        assert((a + b).last() == b.last());
        if comic_in_scope(b.last(), cate_id) {
            assert(scope_filter(a, cate_id) + scope_filter(b.drop_last(), cate_id).push(b.last())
                =~= (scope_filter(a, cate_id) + scope_filter(b.drop_last(), cate_id)).push(b.last()));
        }
    }
}

/// What a scoped scan has gathered: every comic of the pages it read, how
/// many of them are in the scope, and how many pages it read.
pub struct ScopedScanTally {
    pub comics: Vec<ComicInSearch>,
    pub matched_count: i64,
    pub completed: i64,
}

/// The count of matches is the number of gathered comics in the scope.
pub open spec fn tally_counts_scope(t: ScopedScanTally, cate_id: i64) -> bool {
    t.matched_count == scope_filter(t.comics@, cate_id).len()
}

impl ScopedScanTally {
    pub fn new() -> (t: ScopedScanTally)
        ensures
            t.comics@.len() == 0,
            t.matched_count == 0,
            t.completed == 0,
    {
        ScopedScanTally { comics: Vec::new(), matched_count: 0, completed: 0 }
    }

    /// Takes in the comics of one more page: all of them are kept, those in
    /// the scope are counted, and the page counts as read.
    pub fn append_page(&mut self, cate_id: i64, page_comics: &[ComicInSearch])
        requires
            old(self).matched_count + page_comics@.len() <= i64::MAX,
            old(self).completed < i64::MAX,
            old(self).matched_count >= 0,
        ensures
            final(self).comics@ == old(self).comics@ + page_comics@,
            final(self).matched_count == old(self).matched_count + scope_filter(page_comics@, cate_id).len(),
            final(self).completed == old(self).completed + 1,
            tally_counts_scope(*old(self), cate_id) ==> tally_counts_scope(*final(self), cate_id),
    {
        let matched = filter_comics_by_cate(page_comics, cate_id);
        proof {
            lemma_scope_filter_len(page_comics@, cate_id);
            lemma_scope_filter_concat(self.comics@, page_comics@, cate_id);
        }
        self.matched_count = self.matched_count + matched.len() as i64;
        let mut i: usize = 0;
        let ghost start = self.comics@;
        let ghost matched_now = self.matched_count;
        let ghost completed_before = self.completed;
        while i < page_comics.len()
            invariant
                i <= page_comics@.len(),
                self.comics@ == start + page_comics@.take(i as int),
                self.matched_count == matched_now,
                self.completed == completed_before,
                completed_before < i64::MAX,
            decreases page_comics.len() - i,
        {
            self.comics.push(page_comics[i].duplicate());
            assert(page_comics@.take(i + 1) =~= page_comics@.take(i as int).push(page_comics@[i as int]));
            i += 1;
        }
        assert(page_comics@.take(page_comics.len() as int) =~= page_comics@);
        self.completed = self.completed + 1;
    }

    /// Whether the scan has read all its pages.
    pub fn is_done(&self, total_pages: i64) -> (b: bool)
        ensures
            b == (self.completed >= total_pages),
    {
        self.completed >= total_pages
    }

    /// Takes in the pages of a batch, each with its comics, in increasing
    /// page order (pages listed twice keep their order), as `append_page`
    /// takes one page.
    pub fn append_batch(&mut self, cate_id: i64, results: Vec<(i64, Vec<ComicInSearch>)>)
        requires
            old(self).matched_count >= 0,
            old(self).matched_count + flat_len(results@) <= i64::MAX,
            old(self).completed + results@.len() <= i64::MAX,
        ensures
            final(self).comics@ == old(self).comics@ + flatten_pages(stable_sort_by_page(results@)),
            final(self).matched_count == old(self).matched_count + scope_filter(
                flatten_pages(stable_sort_by_page(results@)),
                cate_id,
            ).len(),
            final(self).completed == old(self).completed + results@.len(),
            tally_counts_scope(*old(self), cate_id) ==> tally_counts_scope(*final(self), cate_id),
    {
        let ghost orig = results@;
        let sorted = sort_by_page(results);
        proof {
            lemma_flat_len_sort(orig);
            lemma_sort_by_page_len(orig);
        }
        let ghost c0 = self.comics@;
        let ghost m0 = self.matched_count;
        let ghost d0 = self.completed;
        let ghost old_self = *self;
        let mut i: usize = 0;
        while i < sorted.len()
            invariant
                i <= sorted@.len(),
                sorted@ == stable_sort_by_page(orig),
                sorted@.len() == orig.len(),
                flat_len(sorted@) == flat_len(orig),
                m0 >= 0,
                m0 + flat_len(orig) <= i64::MAX,
                d0 + orig.len() <= i64::MAX,
                self.comics@ == c0 + flatten_pages(sorted@.take(i as int)),
                self.matched_count == m0 + scope_filter(flatten_pages(sorted@.take(i as int)), cate_id).len(),
                self.completed == d0 + i,
                tally_counts_scope(old_self, cate_id) ==> tally_counts_scope(*self, cate_id),
                c0 == old_self.comics@,
                m0 == old_self.matched_count,
            decreases sorted.len() - i,
        {
            proof {
                let t = sorted@.take(i as int);
                let t1 = sorted@.take(i + 1);
                assert(t1 =~= t.push(sorted@[i as int]));
                assert(t1.drop_last() =~= t);
                lemma_flat_len_prefix(sorted@, i + 1);
                lemma_flatten_len(t1);
                lemma_scope_filter_len(flatten_pages(t1), cate_id);
                lemma_scope_filter_concat(flatten_pages(t), sorted@[i as int].1@, cate_id);
                lemma_scope_filter_len(flatten_pages(t), cate_id);
                lemma_scope_filter_len(sorted@[i as int].1@, cate_id);
            }
            self.append_page(cate_id, sorted[i].1.as_slice());
            proof {
                let t = sorted@.take(i as int);
                assert(self.comics@ =~= c0 + flatten_pages(sorted@.take(i + 1)));
            }
            i += 1;
        }
        assert(sorted@.take(sorted@.len() as int) =~= sorted@);
    }
}

/// The comics of some pages, one page after another.
pub open spec fn flatten_pages(s: Seq<(i64, Vec<ComicInSearch>)>) -> Seq<ComicInSearch>
    decreases s.len(),
{
    if s.len() == 0 {
        Seq::empty()
    } else {
        flatten_pages(s.drop_last()) + s.last().1@
    }
}

/// How many comics some pages hold.
pub open spec fn flat_len(s: Seq<(i64, Vec<ComicInSearch>)>) -> int
    decreases s.len(),
{
    if s.len() == 0 {
        0
    } else {
        flat_len(s.drop_last()) + s.last().1@.len()
    }
}

/// `x` put after every page whose number is not greater than its own.
pub open spec fn insert_by_page(s: Seq<(i64, Vec<ComicInSearch>)>, x: (i64, Vec<ComicInSearch>)) -> Seq<
    (i64, Vec<ComicInSearch>),
>
    decreases s.len(),
{
    if s.len() == 0 {
        seq![x]
    } else if x.0 < s.last().0 {
        insert_by_page(s.drop_last(), x).push(s.last())
    } else {
        s.push(x)
    }
}

/// The stable sort by page number (`sort_by_key` on the page).
pub open spec fn stable_sort_by_page(s: Seq<(i64, Vec<ComicInSearch>)>) -> Seq<(i64, Vec<ComicInSearch>)>
    decreases s.len(),
{
    if s.len() == 0 {
        s
    } else {
        insert_by_page(stable_sort_by_page(s.drop_last()), s.last())
    }
}

proof fn lemma_flatten_len(s: Seq<(i64, Vec<ComicInSearch>)>)
    ensures
        flatten_pages(s).len() == flat_len(s),
        flat_len(s) >= 0,
    decreases s.len(),
{
    if s.len() > 0 {
        lemma_flatten_len(s.drop_last());
    }
}

proof fn lemma_flat_len_prefix(s: Seq<(i64, Vec<ComicInSearch>)>, i: int)
    requires
        0 <= i <= s.len(),
    ensures
        flat_len(s.take(i)) <= flat_len(s),
    decreases s.len() - i,
{
    if i < s.len() {
        lemma_flat_len_prefix(s, i + 1);
        assert(s.take(i + 1).drop_last() =~= s.take(i));
        lemma_flatten_len(s.take(i));
    } else {
        assert(s.take(i) =~= s);
    }
}

proof fn lemma_flat_len_insert(s: Seq<(i64, Vec<ComicInSearch>)>, x: (i64, Vec<ComicInSearch>))
    ensures
        flat_len(insert_by_page(s, x)) == flat_len(s) + x.1@.len(),
        insert_by_page(s, x).len() == s.len() + 1,
    decreases s.len(),
{
    if s.len() > 0 && x.0 < s.last().0 {
        lemma_flat_len_insert(s.drop_last(), x);
        let i0 = insert_by_page(s.drop_last(), x);
        assert(i0.push(s.last()).drop_last() =~= i0);
        assert(i0.push(s.last()).last() == s.last());
        assert(flat_len(i0.push(s.last())) == flat_len(i0) + s.last().1@.len());
    } else if s.len() == 0 {
        assert(seq![x].drop_last() =~= Seq::<(i64, Vec<ComicInSearch>)>::empty());
        assert(seq![x].last() == x);
        assert(flat_len(seq![x]) == flat_len(Seq::<(i64, Vec<ComicInSearch>)>::empty()) + x.1@.len());
    } else {
        assert(s.push(x).drop_last() =~= s);
        assert(s.push(x).last() == x);
    }
}

proof fn lemma_flat_len_sort(s: Seq<(i64, Vec<ComicInSearch>)>)
    ensures
        flat_len(stable_sort_by_page(s)) == flat_len(s),
    decreases s.len(),
{
    if s.len() > 0 {
        lemma_flat_len_sort(s.drop_last());
        lemma_flat_len_insert(stable_sort_by_page(s.drop_last()), s.last());
    }
}

proof fn lemma_sort_by_page_len(s: Seq<(i64, Vec<ComicInSearch>)>)
    ensures
        stable_sort_by_page(s).len() == s.len(),
    decreases s.len(),
{
    if s.len() > 0 {
        lemma_sort_by_page_len(s.drop_last());
        lemma_flat_len_insert(stable_sort_by_page(s.drop_last()), s.last());
    }
}

proof fn lemma_insert_by_page_at(s: Seq<(i64, Vec<ComicInSearch>)>, x: (i64, Vec<ComicInSearch>), k: int)
    requires
        0 <= k <= s.len(),
        forall|j: int| k <= j < s.len() ==> x.0 < #[trigger] s[j].0,
        k == 0 || s[k - 1].0 <= x.0,
    ensures
        insert_by_page(s, x) == s.insert(k, x),
    decreases s.len(),
{
    if s.len() == k {
        if s.len() == 0 {
            assert(s.insert(0, x) =~= seq![x]);
        } else {
            assert(s.push(x) =~= s.insert(k, x));
        }
    } else {
        let d = s.drop_last();
        assert(x.0 < s[s.len() - 1].0);
        assert forall|j: int| k <= j < d.len() implies x.0 < #[trigger] d[j].0 by {
            assert(d[j] == s[j]);
        }
        lemma_insert_by_page_at(d, x, k);
        assert(d.insert(k, x).push(s.last()) =~= s.insert(k, x));
    }
}

/// Sorts pages by number, keeping the order of pages with the same number.
fn sort_by_page(results: Vec<(i64, Vec<ComicInSearch>)>) -> (r: Vec<(i64, Vec<ComicInSearch>)>)
    ensures
        r@ == stable_sort_by_page(results@),
{
    let ghost orig = results@;
    let mut rest = results;
    let n: usize = rest.len();
    let mut out: Vec<(i64, Vec<ComicInSearch>)> = Vec::new();
    let mut i: usize = 0;
    while rest.len() > 0
        invariant
            orig.len() == n,
            i + rest@.len() == orig.len(),
            rest@ == orig.skip(i as int),
            out@ == stable_sort_by_page(orig.take(i as int)),
        decreases rest.len(),
    {
        let x = rest.remove(0);
        let mut k = out.len();
        while k > 0 && x.0 < out[k - 1].0
            invariant
                k <= out@.len(),
                forall|j: int| k <= j < out@.len() ==> x.0 < #[trigger] out@[j].0,
            decreases k,
        {
            k -= 1;
        }
        proof {
            assert(x == orig[i as int]);
            assert(orig.take(i + 1).drop_last() =~= orig.take(i as int));
            assert(orig.take(i + 1).last() == orig[i as int]);
            lemma_insert_by_page_at(out@, x, k as int);
        }
        out.insert(k, x);
        i += 1;
        assert(rest@ =~= orig.skip(i as int));
    }
    assert(orig.take(orig.len() as int) =~= orig);
    out
}

/// A tally that starts empty and takes pages in with one scope counts, at
/// every step, exactly the gathered comics that are in the scope.
pub proof fn lemma_tally_counts_scope_from_empty(t: ScopedScanTally, cate_id: i64)
    requires
        t.comics@.len() == 0,
        t.matched_count == 0,
    ensures
        tally_counts_scope(t, cate_id),
{
}

/// A copy of a list of comics.
fn duplicate_comics(v: &[ComicInSearch]) -> (r: Vec<ComicInSearch>)
    ensures
        r@ == v@,
{
    let mut r: Vec<ComicInSearch> = Vec::new();
    let mut i: usize = 0;
    while i < v.len()
        invariant
            i <= v@.len(),
            r@ == v@.take(i as int),
        decreases v.len() - i,
    {
        r.push(v[i].duplicate());
        assert(v@.take(i + 1) =~= v@.take(i as int).push(v@[i as int]));
        i += 1;
    }
    assert(v@.take(v.len() as int) =~= v@);
    r
}

/// The result of the last scoped scan, kept under the key of its query so
/// that paging through it does not scan again. It holds one entry at most.
pub struct ScopedSearchCache {
    entry: Option<(String, Vec<ComicInSearch>)>,
}

impl View for ScopedSearchCache {
    type V = Option<(Seq<char>, Seq<ComicInSearch>)>;

    closed spec fn view(&self) -> Option<(Seq<char>, Seq<ComicInSearch>)> {
        match self.entry {
            Some((k, v)) => Some((k@, v@)),
            None => None,
        }
    }
}

/// What a lookup of `key` finds in a cache holding `entry`.
pub open spec fn cache_lookup(entry: Option<(Seq<char>, Seq<ComicInSearch>)>, key: Seq<char>) -> Option<
    Seq<ComicInSearch>,
> {
    match entry {
        Some((k, v)) => if k == key {
            Some(v)
        } else {
            None
        },
        None => None,
    }
}

impl ScopedSearchCache {
    pub fn new() -> (c: ScopedSearchCache)
        ensures
            c@ is None,
    {
        ScopedSearchCache { entry: None }
    }

    /// The comics kept under `key`, if the entry is for that key.
    pub fn lookup(&self, key: &str) -> (r: Option<Vec<ComicInSearch>>)
        ensures
            match r {
                Some(v) => cache_lookup(self@, key@) == Some(v@),
                None => cache_lookup(self@, key@) is None,
            },
    {
        match &self.entry {
            Some((k, v)) => {
                if crate::text::text_eq(&chars_of(k.as_str()), &chars_of(key)) {
                    Some(duplicate_comics(v.as_slice()))
                } else {
                    None
                }
            },
            None => None,
        }
    }

    /// Keeps `comics` under `key`, in place of whatever was kept.
    pub fn store(&mut self, key: &str, comics: &[ComicInSearch])
        ensures
            final(self)@ == Some((key@, comics@)),
    {
        self.entry = Some((key.to_string(), duplicate_comics(comics)));
    }

    /// Forgets the kept result; browsing a listing does this.
    pub fn clear(&mut self)
        ensures
            final(self)@ is None,
    {
        self.entry = None;
    }
}

/// A lookup right after a store finds what was stored under the same key
/// and nothing under another; after a clear it finds nothing.
pub proof fn lemma_cache_read_after_write(key: Seq<char>, comics: Seq<ComicInSearch>, other: Seq<char>)
    ensures
        cache_lookup(Some((key, comics)), key) == Some(comics),
        other != key ==> cache_lookup(Some((key, comics)), other) is None,
        cache_lookup(None, other) is None,
{
}

/// Comics ordered by decreasing ID.
pub open spec fn ids_descending(s: Seq<ComicInSearch>) -> bool {
    forall|i: int, j: int| 0 <= i < j < s.len() ==> #[trigger] s[i].id >= #[trigger] s[j].id
}

proof fn lemma_insert_multiset(s: Seq<ComicInSearch>, k: int, x: ComicInSearch)
    requires
        0 <= k <= s.len(),
    ensures
        s.insert(k, x).to_multiset() == s.to_multiset().insert(x),
{
    broadcast use vstd::seq_lib::group_to_multiset_ensures;

    let t = s.insert(k, x);
    assert(t.remove(k) =~= s);
    assert(t[k] == x);
    assert(t.remove(k).to_multiset() =~= t.to_multiset().remove(x));
    assert(t.to_multiset().count(x) > 0) by {
        assert(t.contains(x));
    }
    assert(t.to_multiset() =~= t.to_multiset().remove(x).insert(x));
}

/// `x` put into a list sorted by decreasing ID after every comic whose ID is
/// at least its own.
pub open spec fn insert_by_id_desc(s: Seq<ComicInSearch>, x: ComicInSearch) -> Seq<ComicInSearch>
    decreases s.len(),
{
    if s.len() == 0 {
        seq![x]
    } else if s.last().id < x.id {
        insert_by_id_desc(s.drop_last(), x).push(s.last())
    } else {
        s.push(x)
    }
}

/// The stable sort by decreasing ID: each comic in turn put after every
/// comic before it whose ID is at least its own, so equal IDs keep their
/// order.
pub open spec fn stable_sort_by_id_desc(s: Seq<ComicInSearch>) -> Seq<ComicInSearch>
    decreases s.len(),
{
    if s.len() == 0 {
        s
    } else {
        insert_by_id_desc(stable_sort_by_id_desc(s.drop_last()), s.last())
    }
}

proof fn lemma_insert_by_id_desc_at(s: Seq<ComicInSearch>, x: ComicInSearch, k: int)
    requires
        0 <= k <= s.len(),
        forall|j: int| k <= j < s.len() ==> #[trigger] s[j].id < x.id,
        k == 0 || s[k - 1].id >= x.id,
    ensures
        insert_by_id_desc(s, x) == s.insert(k, x),
    decreases s.len(),
{
    if s.len() == k {
        if s.len() == 0 {
            assert(s.insert(0, x) =~= seq![x]);
        } else {
            assert(s.push(x) =~= s.insert(k, x));
        }
    } else {
        let d = s.drop_last();
        assert(s[s.len() - 1].id < x.id);
        assert forall|j: int| k <= j < d.len() implies #[trigger] d[j].id < x.id by {
            assert(d[j] == s[j]);
        }
        lemma_insert_by_id_desc_at(d, x, k);
        assert(d.insert(k, x).push(s.last()) =~= s.insert(k, x));
    }
}

/// Sorts comics by decreasing ID, keeping the order of equal IDs.
pub fn sort_by_id_desc(comics: &mut Vec<ComicInSearch>)
    ensures
        final(comics)@ == stable_sort_by_id_desc(old(comics)@),
        final(comics)@.to_multiset() == old(comics)@.to_multiset(),
        ids_descending(final(comics)@),
{
    broadcast use vstd::seq_lib::group_to_multiset_ensures;

    let ghost orig = comics@;
    let mut out: Vec<ComicInSearch> = Vec::new();
    let mut i: usize = 0;
    while i < comics.len()
        invariant
            i <= comics.len(),
            comics@ == orig,
            out@.to_multiset() == orig.take(i as int).to_multiset(),
            ids_descending(out@),
            out@ == stable_sort_by_id_desc(orig.take(i as int)),
        decreases comics.len() - i,
    {
        let x = comics[i].duplicate();
        let mut k = out.len();
        while k > 0 && out[k - 1].id < x.id
            invariant
                k <= out@.len(),
                forall|j: int| k <= j < out@.len() ==> #[trigger] out@[j].id < x.id,
            decreases k,
        {
            k -= 1;
        }
        let ghost before = out@;
        proof {
            assert(orig.take(i + 1) =~= orig.take(i as int).push(orig[i as int]));
            orig.take(i as int).to_multiset_ensures();
            lemma_insert_multiset(before, k as int, x);
            if k > 0 {
                assert(before[k - 1].id >= x.id);
            }
            lemma_insert_by_id_desc_at(before, x, k as int);
            assert(orig.take(i + 1).drop_last() =~= orig.take(i as int));
        }
        out.insert(k, x);
        proof {
            assert(out@ == before.insert(k as int, x));
            assert forall|a: int, b: int| 0 <= a < b < out@.len() implies #[trigger] out@[a].id >= #[trigger] out@[b].id by {
                if a < k && b > k {
                    assert(out@[a] == before[a]);
                    assert(out@[b] == before[b - 1]);
                    assert(before[a].id >= before[k as int - 1].id || a == k - 1);
                } else if a < k && b == k {
                    assert(out@[a] == before[a]);
                } else if a == k {
                    assert(out@[b] == before[b - 1]);
                } else if a < k {
                    assert(out@[a] == before[a]);
                    assert(out@[b] == before[b]);
                } else {
                    assert(out@[a] == before[a - 1]);
                    assert(out@[b] == before[b - 1]);
                }
            }
        }
        i += 1;
    }
    assert(orig.take(orig.len() as int) =~= orig);
    *comics = out;
}

// ---------------------------------------------------------------------------
// Scoped scans: pacing and planning
// ---------------------------------------------------------------------------

/// The pause before turning to page `next_page` of a paced scan: half a
/// second plus a spread of up to a second that depends on the page, and six
/// seconds more every 25 pages.
pub open spec fn page_turn_delay(next_page: int) -> int {
    let page = if next_page < 1 {
        1
    } else {
        next_page
    };
    let base = 500 + (page * 137) % 1000;
    if next_page > 2 && (next_page - 2) % 25 == 0 {
        base + 6000
    } else {
        base
    }
}

pub fn page_turn_delay_ms(next_page: i64) -> (r: u64)
    ensures
        r == page_turn_delay(next_page as int),
{
    let page: u64 = if next_page < 1 {
        1
    } else {
        next_page as u64
    };
    let spread = ((page % 1000) * 137) % 1000;
    assert(((page % 1000) * 137) % 1000 == (page * 137) % 1000) by (nonlinear_arith);
    let base = 500 + spread;
    if next_page > 2 && (next_page - 2) % 25 == 0 {
        base + 6000
    } else {
        base
    }
}

/// The mixing of a scan's page span draw (the SplitMix64 finalizer over the
/// clock's nanoseconds and a salt).
pub open spec fn span_seed(nanos: u64, salt: i64) -> u64 {
    let s0 = nanos ^ vstd::wrapping::u64_specs::wrapping_mul(salt as u64, 0x9E37_79B9_7F4A_7C15);
    let s1 = s0 ^ (s0 >> 30);
    let s2 = vstd::wrapping::u64_specs::wrapping_mul(s1, 0xBF58_476D_1CE4_E5B9);
    let s3 = s2 ^ (s2 >> 27);
    let s4 = vstd::wrapping::u64_specs::wrapping_mul(s3, 0x94D0_49BB_1331_11EB);
    s4 ^ (s4 >> 31)
}

/// A page span in `min..=max` drawn from a seed (`min` where the range is
/// empty).
pub open spec fn span_from_seed(min: i64, max: i64, seed: u64) -> int {
    let range: int = if max - min + 1 < 1 {
        1
    } else {
        max - min + 1
    };
    min + (seed as int) % range
}

pub fn page_span_from_seed(min: i64, max: i64, salt: i64, nanos: u64) -> (r: i64)
    requires
        i64::MIN <= max - min < i64::MAX,
    ensures
        r == span_from_seed(min, max, span_seed(nanos, salt)),
        min <= max ==> min <= r <= max,
        min > max ==> r == min,
{
    let range: u64 = if max - min + 1 < 1 {
        1
    } else {
        (max - min + 1) as u64
    };
    let mut seed = nanos ^ (salt as u64).wrapping_mul(0x9E37_79B9_7F4A_7C15);
    seed = seed ^ (seed >> 30);
    seed = seed.wrapping_mul(0xBF58_476D_1CE4_E5B9);
    seed = seed ^ (seed >> 27);
    seed = seed.wrapping_mul(0x94D0_49BB_1331_11EB);
    seed = seed ^ (seed >> 31);
    let off = seed % range;
    min + off as i64
}

/// Reads the system clock's nanoseconds since the epoch, cut to 64 bits
/// (`SystemTime::now().duration_since(UNIX_EPOCH)`, `as_nanos() as u64`,
/// zero before the epoch). Nothing is promised of the value.
#[verifier::external_body]
fn clock_nanos() -> (r: u64) {
    std::time::SystemTime::now().duration_since(std::time::UNIX_EPOCH).map(|d| d.as_nanos() as u64).unwrap_or_default()
}

/// A page span drawn at random (seeded by the clock) in `min..=max`.
pub fn random_page_span(min: i64, max: i64, salt: i64) -> (r: i64)
    requires
        i64::MIN <= max - min < i64::MAX,
    ensures
        exists|nanos: u64| r == span_from_seed(min, max, span_seed(nanos, salt)),
        min <= max ==> min <= r <= max,
{
    let nanos = clock_nanos();
    page_span_from_seed(min, max, salt, nanos)
}

/// How a conservative or aggressive scan of a large listing picks its next
/// span: a parallel batch of 30 to 40 pages (40 to 50 when aggressive) or a
/// paced run of 10 to 30 pages (10 to 15 when aggressive).
pub fn large_scan_span_bounds(mode: ScopedScanMode, parallel: bool) -> (r: (i64, i64))
    ensures
        r == (if parallel {
            if mode == ScopedScanMode::Conservative {
                (30i64, 40i64)
            } else {
                (40i64, 50i64)
            }
        } else if mode == ScopedScanMode::Conservative {
            (10i64, 30i64)
        } else {
            (10i64, 15i64)
        }),
{
    if parallel {
        if mode == ScopedScanMode::Conservative {
            (30, 40)
        } else {
            (40, 50)
        }
    } else if mode == ScopedScanMode::Conservative {
        (10, 30)
    } else {
        (10, 15)
    }
}

/// The first page of the next span of a large scan that runs from `page`
/// down: `span` pages, but never below page 2 (page 1 is read last).
pub fn large_scan_batch_start(page: i64, span: i64) -> (r: i64)
    requires
        page >= 2,
        span >= 1,
    ensures
        r == (if page - span + 1 < 2 {
            2
        } else {
            page - span + 1
        }),
        2 <= r <= page,
{
    if page - span + 1 < 2 {
        2
    } else {
        page - span + 1
    }
}

/// A scan of a large listing covers every page from `total` down to 2 with
/// spans that meet end to end: each span `start..=page` is followed by one
/// that ends at `start - 1`, so no page is skipped or read twice.
pub proof fn lemma_large_scan_spans_meet(page: int, span: int, start: int)
    requires
        page >= 2,
        span >= 1,
        start == (if page - span + 1 < 2 {
            2
        } else {
            page - span + 1
        }),
    ensures
        2 <= start <= page,
        start - 1 < page,
        start - 1 >= 1,
        start - 1 == 1 <==> start == 2,
{
}

/// Which way a scoped scan goes, by the number of pages of its listing.
#[derive(Debug, Clone, Copy, PartialEq, Eq, Structural)]
pub enum ScopedScanPlan {
    /// One page: read the first page only.
    SinglePage,
    /// Under a hundred pages: read the rest in one parallel batch.
    ParallelFast,
    /// A hundred pages or more: alternate parallel and paced spans.
    RandomizedLarge,
    /// Aggressive mode: batches that the user sends one by one.
    ManualAggressive,
}

pub fn scoped_scan_plan(mode: ScopedScanMode, total_pages: i64) -> (r: ScopedScanPlan)
    ensures
        r == (if mode == ScopedScanMode::Aggressive {
            ScopedScanPlan::ManualAggressive
        } else if total_pages <= 1 {
            ScopedScanPlan::SinglePage
        } else if total_pages < 100 {
            ScopedScanPlan::ParallelFast
        } else {
            ScopedScanPlan::RandomizedLarge
        }),
{
    if mode == ScopedScanMode::Aggressive {
        ScopedScanPlan::ManualAggressive
    } else if total_pages <= 1 {
        ScopedScanPlan::SinglePage
    } else if total_pages < 100 {
        ScopedScanPlan::ParallelFast
    } else {
        ScopedScanPlan::RandomizedLarge
    }
}

/// Pages sorted from the highest down, each once.
pub open spec fn strictly_descending(s: Seq<i64>) -> bool {
    forall|i: int, j: int| 0 <= i < j < s.len() ==> #[trigger] s[i] > #[trigger] s[j]
}

/// The pages an aggressive scan retries: sorted from the highest down, each
/// once (`sort` from high to low, then `dedup`).
pub fn sort_pages_desc_dedup(pages: Vec<i64>) -> (r: Vec<i64>)
    ensures
        strictly_descending(r@),
        r@.to_set() == pages@.to_set(),
{
    let mut out: Vec<i64> = Vec::new();
    let mut i: usize = 0;
    while i < pages.len()
        invariant
            i <= pages.len(),
            strictly_descending(out@),
            out@.to_set() == pages@.take(i as int).to_set(),
        decreases pages.len() - i,
    {
        let x = pages[i];
        let mut k: usize = 0;
        while k < out.len() && out[k] > x
            invariant
                k <= out@.len(),
                forall|j: int| 0 <= j < k ==> #[trigger] out@[j] > x,
            decreases out.len() - k,
        {
            k += 1;
        }
        proof {
            assert(pages@.take(i + 1) =~= pages@.take(i as int).push(x));
            pages@.take(i as int).lemma_push_to_set_commute(x);
        }
        if k < out.len() && out[k] == x {
            assert(out@.to_set().contains(x));
            assert(out@.to_set().insert(x) =~= out@.to_set());
        } else {
            let ghost before = out@;
            out.insert(k, x);
            proof {
                assert(out@ == before.insert(k as int, x));
                assert forall|a: int, b: int| 0 <= a < b < out@.len() implies #[trigger] out@[a] > #[trigger] out@[b] by {
                    if a < k as int && b > k as int {
                        assert(out@[a] == before[a]);
                        assert(out@[b] == before[b - 1]);
                    } else if a < k as int && b == k as int {
                        assert(out@[a] == before[a]);
                    } else if a == k as int {
                        assert(out@[b] == before[b - 1]);
                        assert(k < before.len() ==> before[k as int] < x);
                        if b - 1 > k as int {
                            assert(before[k as int] > before[b - 1]);
                        }
                    } else if a < k as int {
                        assert(out@[a] == before[a]);
                        assert(out@[b] == before[b]);
                    } else {
                        assert(out@[a] == before[a - 1]);
                        assert(out@[b] == before[b - 1]);
                    }
                }
                assert(out@.to_set() =~= before.to_set().insert(x)) by {
                    assert forall|y: i64| out@.to_set().contains(y) <==> before.to_set().insert(x).contains(y) by {
                        if out@.to_set().contains(y) {
                            let j = choose|j: int| 0 <= j < out@.len() && out@[j] == y;
                            if j < k as int {
                                assert(before[j] == y);
                            } else if j > k as int {
                                assert(before[j - 1] == y);
                            }
                        }
                        if before.to_set().contains(y) {
                            let j = choose|j: int| 0 <= j < before.len() && before[j] == y;
                            if j < k as int {
                                assert(out@[j] == y);
                            } else {
                                assert(out@[j + 1] == y);
                            }
                        }
                        if y == x {
                            assert(out@[k as int] == x);
                        }
                    }
                }
            }
        }
        i += 1;
    }
    assert(pages@.take(pages.len() as int) =~= pages@);
    out
}

/// The first page of a fresh batch of an aggressive scan that runs down
/// from `page`: `span` pages, but not below page 1.
pub open spec fn aggressive_batch_start(page: int, span: int) -> int {
    if page - span + 1 < 1 {
        1
    } else {
        page - span + 1
    }
}

/// The pages a fresh batch of an aggressive scan reads, from `page` down to
/// its first page; page 1 is left out, it is read when the scan ends.
pub open spec fn aggressive_batch_pages(page: int, span: int) -> Seq<i64> {
    let start = aggressive_batch_start(page, span);
    let low = if start < 2 {
        2
    } else {
        start
    };
    Seq::new(
        if page >= low {
            (page - low + 1) as nat
        } else {
            0
        },
        |i: int| (page - i) as i64,
    )
}

/// A fresh batch of an aggressive scan at `page` with `span` pages: its
/// first page, and the pages it reads from the highest down.
pub fn aggressive_batch(page: i64, span: i64) -> (r: (i64, Vec<i64>))
    requires
        page >= 1,
        span >= 1,
    ensures
        r.0 == aggressive_batch_start(page as int, span as int),
        r.1@ == aggressive_batch_pages(page as int, span as int),
{
    let start: i64 = if page - span + 1 < 1 {
        1
    } else {
        page - span + 1
    };
    let low: i64 = if start < 2 {
        2
    } else {
        start
    };
    let mut pages: Vec<i64> = Vec::new();
    let mut p: i64 = page;
    while p >= low
        invariant
            2 <= low,
            low - 1 <= p <= page,
            pages@ == Seq::new((page - p) as nat, |i: int| (page - i) as i64),
        decreases p,
    {
        pages.push(p);
        p = p - 1;
        assert(pages@ =~= Seq::new((page - p) as nat, |i: int| (page - i) as i64));
    }
    proof {
        let n: nat = if page >= low {
            (page - low + 1) as nat
        } else {
            0
        };
        assert((page - p) as nat == n);
        assert(pages@ =~= aggressive_batch_pages(page as int, span as int));
    }
    (start, pages)
}

/// Whether a batch met the site's challenge: one of its failed pages is of
/// the kind `被拒絕`.
pub fn batch_met_challenge(failure_kinds: &Vec<String>) -> (b: bool)
    ensures
        b == exists|i: int| 0 <= i < failure_kinds@.len() && #[trigger] failure_kinds@[i]@ == "被拒絕"@,
{
    let refused = chars_of("被拒絕");
    let mut i: usize = 0;
    while i < failure_kinds.len()
        invariant
            i <= failure_kinds@.len(),
            refused@ == "被拒絕"@,
            forall|j: int| 0 <= j < i ==> #[trigger] failure_kinds@[j]@ != "被拒絕"@,
        decreases failure_kinds.len() - i,
    {
        let k = chars_of(failure_kinds[i].as_str());
        if crate::text::text_eq(&k, &refused) {
            return true;
        }
        i += 1;
    }
    false
}

// ---------------------------------------------------------------------------
// What a failure is
// ---------------------------------------------------------------------------

/// The kind of a failed page request, by words of its error chain.
pub open spec fn failure_kind(lower: Seq<char>) -> Seq<char> {
    if contains_seq(lower, "timeout"@) || contains_seq(lower, "timed out"@) || contains_seq(
        lower,
        "deadline"@,
    ) {
        "超時"@
    } else if contains_seq(lower, "just a moment"@) || contains_seq(
        lower,
        "challenges.cloudflare.com"@,
    ) || contains_seq(lower, "/cdn-cgi/challenge-platform"@) || contains_seq(lower, "cf-chl-"@)
        || contains_seq(lower, "enable javascript and cookies"@) {
        "被拒絕"@
    } else if contains_seq(lower, "429"@) || contains_seq(lower, "too many"@) {
        "請求過於頻繁"@
    } else if contains_seq(lower, "status"@) || contains_seq(lower, "狀態碼"@) {
        "HTTP錯誤"@
    } else {
        "其他錯誤"@
    }
}

fn has(v: &Vec<char>, p: &str) -> (b: bool)
    ensures
        b == contains_seq(v@, p@),
{
    contains_chars(v, &chars_of(p))
}

/// The kind of a lower-cased failure text.
pub fn failure_kind_of_lowercase(lower: &str) -> (r: String)
    ensures
        r@ == failure_kind(lower@),
{
    let l = chars_of(lower);
    let s = if has(&l, "timeout") || has(&l, "timed out") || has(&l, "deadline") {
        "超時"
    } else if has(&l, "just a moment") || has(&l, "challenges.cloudflare.com") || has(
        &l,
        "/cdn-cgi/challenge-platform",
    ) || has(&l, "cf-chl-") || has(&l, "enable javascript and cookies") {
        "被拒絕"
    } else if has(&l, "429") || has(&l, "too many") {
        "請求過於頻繁"
    } else if has(&l, "status") || has(&l, "狀態碼") {
        "HTTP錯誤"
    } else {
        "其他錯誤"
    };
    s.to_string()
}

pub fn classify_scan_failure(reason: &str) -> (r: String)
    ensures
        r@ == failure_kind(lowercase(reason@)),
{
    let lower = to_lowercase_text(reason);
    failure_kind_of_lowercase(lower.as_str())
}

} // verus!
