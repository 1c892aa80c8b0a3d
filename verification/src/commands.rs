//! The decisions behind the app's commands: queuing placeholders, choosing
//! a series folder, naming output files, and archiving website snapshots.
use vstd::prelude::*;

use crate::korean_series_folder::{
    build_core_folder_name, core_folder_name, find_similar_folder_names, is_similar_folder,
    max_unsorted_folder_number, max_unsorted_number, resolve_korean_series_folder_name,
    series_folder_name, series_label_core, string_views, strip_series_label_meta,
};
use crate::snapshot_storage::{
    snapshot_suffix, website_prefix, website_prefix_defined, website_snapshot_file_prefix,
};
use crate::text::{
    chars_of, concat, contains_chars, contains_seq, dec_i64, dec_int, dec_u64, ends_with,
    ends_with_chars, slice_vec, string_of, text_eq, trim, trim_chars,
};
use crate::utils::{filename_filter_chars, filtered_file_name};
use crate::zip_download::{normalize_download_url, normalized_url};

verus! {

/// The greeting of the sample command.
pub fn greet(name: &str) -> (r: String)
    ensures
        r@ == "Hello, "@ + name@ + "! You've been greeted from Rust!"@,
{
    let v = concat(&chars_of("Hello, "), &chars_of(name));
    string_of(&concat(&v, &chars_of("! You've been greeted from Rust!")))
}

/// The title a placeholder download task gets: the trimmed title made safe
/// as a file name, or `comic-{id}` where nothing is left of it.
pub open spec fn placeholder_title_text(title: Seq<char>, comic_id: i64) -> Seq<char> {
    let safe = filtered_file_name(trim(title));
    if safe.len() == 0 {
        "comic-"@ + dec_int(comic_id as int)
    } else {
        safe
    }
}

pub fn placeholder_title(title: &str, comic_id: i64) -> (r: String)
    ensures
        r@ == placeholder_title_text(title@, comic_id),
{
    let safe = filename_filter_chars(&trim_chars(&chars_of(title)));
    if safe.len() == 0 {
        string_of(&concat(&chars_of("comic-"), &dec_i64(comic_id)))
    } else {
        string_of(&safe)
    }
}

/// The names of a list without those equal to `name`, in their order.
pub open spec fn without_name(names: Seq<Seq<char>>, name: Seq<char>) -> Seq<Seq<char>>
    decreases names.len(),
{
    if names.len() == 0 {
        names
    } else if names.last() == name {
        without_name(names.drop_last(), name)
    } else {
        without_name(names.drop_last(), name).push(names.last())
    }
}

fn retain_other(names: Vec<String>, name: &str) -> (r: Vec<String>)
    ensures
        string_views(r@) == without_name(string_views(names@), name@),
{
    let n = chars_of(name);
    let mut r: Vec<String> = Vec::new();
    let mut i: usize = 0;
    while i < names.len()
        invariant
            i <= names.len(),
            n@ == name@,
            string_views(r@) == without_name(string_views(names@.take(i as int)), name@),
        decreases names.len() - i,
    {
        proof {
            assert(string_views(names@.take(i + 1)).drop_last() =~= string_views(names@.take(i as int)));
            assert(string_views(names@.take(i + 1)).last() == names@[i as int]@);
        }
        if !text_eq(&chars_of(names[i].as_str()), &n) {
            let ghost prev = r@;
            let x = names[i].clone();
            r.push(x);
            assert(string_views(r@) =~= string_views(prev).push(x@));
        }
        i += 1;
    }
    assert(names@.take(names.len() as int) =~= names@);
    r
}

/// The folder a new download of a series would get.
pub open spec fn planned_series_folder(siblings: Seq<Seq<char>>, series_label: Seq<char>, start: i32, end: i32) -> Seq<char> {
    series_folder_name(
        siblings,
        core_folder_name(series_label_core(series_label), start as int, end as int),
    )
}

/// The existing folders that look like the series, other than the folder a
/// new download of it would get: sorted, each once.
pub fn similar_korean_series_folders(series_label: &str, episode_start: i32, episode_end: i32, siblings: &Vec<String>) -> (r: Vec<String>)
    requires
        max_unsorted_number(string_views(siblings@)) < u32::MAX,
    ensures
        forall|t: Seq<char>| #[trigger]
            string_views(r@).contains(t) <==> (string_views(siblings@).contains(t)
                && is_similar_folder(t, series_label_core(series_label@)) && t != planned_series_folder(
                string_views(siblings@),
                series_label@,
                episode_start,
                episode_end,
            )),
        crate::text::strictly_sorted(string_views(r@)),
{
    let clean = strip_series_label_meta(series_label);
    let core = build_core_folder_name(clean.as_str(), episode_start, episode_end);
    let planned = resolve_korean_series_folder_name(siblings.as_slice(), core.as_str());
    let similar = find_similar_folder_names(siblings.as_slice(), clean.as_str());
    let r = retain_other(similar, planned.as_str());
    proof {
        lemma_without_name(string_views(similar@), planned@);
    }
    r
}

proof fn lemma_without_name(names: Seq<Seq<char>>, name: Seq<char>)
    ensures
        forall|t: Seq<char>| #[trigger] without_name(names, name).contains(t) <==> (names.contains(t) && t != name),
        crate::text::strictly_sorted(names) ==> crate::text::strictly_sorted(without_name(names, name)),
        forall|i: int| 0 <= i < without_name(names, name).len() ==> names.contains(#[trigger] without_name(names, name)[i]),
    decreases names.len(),
{
    if names.len() > 0 {
        let init = names.drop_last();
        lemma_without_name(init, name);
        let w = without_name(names, name);
        let wi = without_name(init, name);
        assert forall|t: Seq<char>| #[trigger] w.contains(t) <==> (names.contains(t) && t != name) by {
            if w.contains(t) {
                let j = choose|j: int| 0 <= j < w.len() && w[j] == t;
                if names.last() == name || j < wi.len() {
                    assert(wi[j] == t);
                    assert(wi.contains(t));
                    let m = choose|m: int| 0 <= m < init.len() && init[m] == t;
                    assert(names[m] == t);
                } else {
                    assert(names[names.len() - 1] == t);
                }
            }
            if names.contains(t) && t != name {
                let m = choose|m: int| 0 <= m < names.len() && names[m] == t;
                if m < names.len() - 1 {
                    assert(init[m] == t);
                    assert(wi.contains(t));
                    let j = choose|j: int| 0 <= j < wi.len() && wi[j] == t;
                    assert(w[j] == t);
                } else {
                    assert(w[w.len() - 1] == t);
                }
            }
        }
        assert forall|i: int| 0 <= i < w.len() implies names.contains(#[trigger] w[i]) by {
            if names.last() == name || i < wi.len() {
                assert(w[i] == wi[i]);
                assert(init.contains(wi[i]));
                let m = choose|m: int| 0 <= m < init.len() && init[m] == wi[i];
                assert(names[m] == wi[i]);
            } else {
                assert(w[i] == names[names.len() - 1]);
            }
        }
        if crate::text::strictly_sorted(names) {
            assert(crate::text::strictly_sorted(init)) by {
                assert forall|a: int, b: int| 0 <= a < b < init.len() implies crate::text::text_lt(#[trigger] init[a], #[trigger] init[b]) by {
                    assert(init[a] == names[a] && init[b] == names[b]);
                }
            }
            if names.last() != name {
                assert forall|a: int, b: int| 0 <= a < b < w.len() implies crate::text::text_lt(#[trigger] w[a], #[trigger] w[b]) by {
                    if b < wi.len() {
                        assert(w[a] == wi[a] && w[b] == wi[b]);
                    } else {
                        assert(w[a] == wi[a]);
                        assert(init.contains(wi[a]));
                        let m = choose|m: int| 0 <= m < init.len() && init[m] == wi[a];
                        assert(names[m] == wi[a]);
                        assert(w[b] == names[names.len() - 1]);
                    }
                }
            }
        }
    }
}

/// Why an existing folder cannot hold a series.
#[derive(Debug, Clone, Copy, PartialEq, Eq, Structural)]
pub enum SeriesFolderError {
    /// The chosen folder name is blank.
    EmptyName,
    /// No folder of that name is in the download directory.
    NotFound,
}

/// The folder a series is downloaded into: the chosen existing folder
/// (trimmed; it must exist), or the planned new folder. The flag says
/// whether the folder is new.
pub fn korean_series_folder_choice(
    series_label: &str,
    episode_start: i32,
    episode_end: i32,
    existing_folder_name: Option<&str>,
    siblings: &Vec<String>,
) -> (r: Result<(String, bool), SeriesFolderError>)
    requires
        max_unsorted_number(string_views(siblings@)) < u32::MAX,
    ensures
        match existing_folder_name {
            None => r matches Ok((f, created)) && created && f@ == planned_series_folder(
                string_views(siblings@),
                series_label@,
                episode_start,
                episode_end,
            ),
            Some(e) => if trim(e@).len() == 0 {
                r == Err::<(String, bool), SeriesFolderError>(SeriesFolderError::EmptyName)
            } else if !string_views(siblings@).contains(trim(e@)) {
                r == Err::<(String, bool), SeriesFolderError>(SeriesFolderError::NotFound)
            } else {
                r matches Ok((f, created)) && !created && f@ == trim(e@)
            },
        },
{
    match existing_folder_name {
        Some(e) => {
            let t = trim_chars(&chars_of(e));
            if t.len() == 0 {
                return Err(SeriesFolderError::EmptyName);
            }
            let mut i: usize = 0;
            let mut found = false;
            while i < siblings.len() && !found
                invariant
                    i <= siblings.len(),
                    found ==> string_views(siblings@).contains(t@),
                    !found ==> forall|j: int| 0 <= j < i ==> siblings@[j]@ != t@,
                decreases siblings.len() - i + (if found { 0int } else { 1int }),
            {
                if text_eq(&chars_of(siblings[i].as_str()), &t) {
                    assert(string_views(siblings@)[i as int] == t@);
                    found = true;
                } else {
                    i += 1;
                }
            }
            if !found {
                proof {
                    if string_views(siblings@).contains(t@) {
                        let j = choose|j: int| 0 <= j < string_views(siblings@).len() && string_views(siblings@)[j] == t@;
                        assert(siblings@[j]@ == t@);
                    }
                }
                return Err(SeriesFolderError::NotFound);
            }
            Ok((string_of(&t), false))
        },
        None => {
            let clean = strip_series_label_meta(series_label);
            let core = build_core_folder_name(clean.as_str(), episode_start, episode_end);
            Ok((resolve_korean_series_folder_name(siblings.as_slice(), core.as_str()), true))
        },
    }
}

/// Whether the `未分類` numbering of these folders leaves room for one
/// more (the next number must fit in a `u32`).
pub fn unsorted_numbering_has_room(siblings: &Vec<String>) -> (b: bool)
    ensures
        b == (max_unsorted_number(string_views(siblings@)) < u32::MAX),
{
    max_unsorted_folder_number(siblings.as_slice()) < 4294967295u32
}

/// A file name an output may be written under: not blank, and free of `..`.
pub fn valid_output_name(name: &str) -> (b: bool)
    ensures
        b == (trim(name@).len() > 0 && !contains_seq(name@, ".."@)),
{
    let v = chars_of(name);
    trim_chars(&v).len() > 0 && !contains_chars(&v, &chars_of(".."))
}

/// The name an archived website snapshot is tried under: the name itself
/// first, then `{stem} ({n}).gm-snapshot.json` for `n` from 1.
pub open spec fn archived_name_text(file_name: Seq<char>, attempt: nat) -> Seq<char> {
    let stem = if ends_with(file_name, snapshot_suffix()) {
        file_name.take(file_name.len() - snapshot_suffix().len())
    } else {
        file_name
    };
    if attempt == 0 {
        file_name
    } else {
        stem + " ("@ + crate::text::dec_nat(attempt) + ")"@ + snapshot_suffix()
    }
}

pub fn archived_snapshot_name(file_name: &str, attempt: u64) -> (r: String)
    ensures
        r@ == archived_name_text(file_name@, attempt as nat),
{
    if attempt == 0 {
        return file_name.to_string();
    }
    let name = chars_of(file_name);
    let suffix = chars_of(".gm-snapshot.json");
    proof {
        reveal_strlit(".gm-snapshot.json");
        assert(suffix@ =~= snapshot_suffix());
    }
    let stem = if ends_with_chars(&name, &suffix) {
        slice_vec(&name, 0, name.len() - suffix.len())
    } else {
        slice_vec(&name, 0, name.len())
    };
    let v = concat(&stem, &chars_of(" ("));
    let v = concat(&v, &dec_u64(attempt));
    let v = concat(&v, &chars_of(")"));
    let v = concat(&v, &suffix);
    assert(v@ =~= archived_name_text(file_name@, attempt as nat));
    string_of(&v)
}

/// An existing website snapshot is moved to `old` when it is a snapshot file
/// of the same category as the one being written.
pub fn should_archive_website_snapshot(existing_name: &str, new_file_name: &str) -> (b: bool)
    requires
        website_prefix_defined(existing_name@),
        website_prefix_defined(new_file_name@),
    ensures
        b == (ends_with(existing_name@, snapshot_suffix()) && website_prefix(existing_name@)
            == website_prefix(new_file_name@)),
{
    let suffix = chars_of(".gm-snapshot.json");
    proof {
        reveal_strlit(".gm-snapshot.json");
        assert(suffix@ =~= snapshot_suffix());
    }
    if !ends_with_chars(&chars_of(existing_name), &suffix) {
        return false;
    }
    let a = website_snapshot_file_prefix(existing_name);
    let b = website_snapshot_file_prefix(new_file_name);
    text_eq(&chars_of(a.as_str()), &chars_of(b.as_str()))
}

/// The address an image of the reader is fetched from: a scheme-relative
/// address and one without a scheme get `https:`; an `http://` or
/// `https://` address is kept.
pub fn reader_image_url(img_url: &str) -> (r: String)
    ensures
        r@ == normalized_url(img_url@),
{
    normalize_download_url(img_url)
}

/// A data file of the web view's LevelDB store: a `.ldb` or `.log` file
/// whose name starts with an ASCII digit.
pub fn is_leveldb_data_file(file_name: &str) -> (b: bool)
    ensures
        b == ((ends_with(file_name@, ".ldb"@) || ends_with(file_name@, ".log"@)) && file_name@.len()
            > 0 && crate::text::is_ascii_digit(file_name@[0])),
{
    let v = chars_of(file_name);
    (ends_with_chars(&v, &chars_of(".ldb")) || ends_with_chars(&v, &chars_of(".log"))) && v.len() > 0
        && '0' <= v[0] && v[0] <= '9'
}

/// The newest of some files by modification time: the last of the newest
/// (`max_by_key`), none for no file.
pub fn latest_index(modified: &Vec<i64>) -> (r: Option<usize>)
    ensures
        modified@.len() == 0 ==> r is None,
        modified@.len() > 0 ==> (r matches Some(k) && k < modified@.len() && (forall|j: int|
            0 <= j < modified@.len() ==> modified@[j] <= modified@[k as int]) && (forall|j: int|
            k < j < modified@.len() ==> modified@[j] < modified@[k as int])),
{
    if modified.len() == 0 {
        return None;
    }
    let mut best: usize = 0;
    let mut i: usize = 1;
    while i < modified.len()
        invariant
            1 <= i <= modified.len(),
            best < i,
            forall|j: int| 0 <= j < i ==> modified@[j] <= modified@[best as int],
            forall|j: int| best < j < i ==> modified@[j] < modified@[best as int],
        decreases modified.len() - i,
    {
        if modified[i] >= modified[best] {
            best = i;
        }
        i += 1;
    }
    Some(best)
}

/// Where the web view keeps a kind of snapshot data, under the app's local
/// data folder: `global` in IndexedDB, `scoped` in Local Storage.
pub fn snapshot_data_dir_parts(snapshot_kind: &str) -> (r: Option<Vec<String>>)
    ensures
        snapshot_kind@ != "global"@ && snapshot_kind@ != "scoped"@ ==> r is None,
        snapshot_kind@ == "global"@ ==> (r matches Some(v) && v@.len() == 4 && v@[0]@ == "EBWebView"@
            && v@[1]@ == "Default"@ && v@[2]@ == "IndexedDB"@ && v@[3]@
            == "http_tauri.localhost_0.indexeddb.leveldb"@),
        snapshot_kind@ == "scoped"@ ==> (r matches Some(v) && v@.len() == 4 && v@[0]@ == "EBWebView"@
            && v@[1]@ == "Default"@ && v@[2]@ == "Local Storage"@ && v@[3]@ == "leveldb"@),
{
    proof {
        reveal_strlit("global");
        reveal_strlit("scoped");
        assert("global"@[0] != "scoped"@[0]);
    }
    let k = chars_of(snapshot_kind);
    if text_eq(&k, &chars_of("global")) {
        let mut v: Vec<String> = Vec::new();
        v.push("EBWebView".to_string());
        v.push("Default".to_string());
        v.push("IndexedDB".to_string());
        v.push("http_tauri.localhost_0.indexeddb.leveldb".to_string());
        Some(v)
    } else if text_eq(&k, &chars_of("scoped")) {
        let mut v: Vec<String> = Vec::new();
        v.push("EBWebView".to_string());
        v.push("Default".to_string());
        v.push("Local Storage".to_string());
        v.push("leveldb".to_string());
        Some(v)
    } else {
        None
    }
}

/// A folder of the download directory that may hold a finished comic: not a
/// temporary download folder.
pub fn is_downloaded_comic_dir(name: &str) -> (b: bool)
    ensures
        b == !crate::text::starts_with(name@, ".下載中-"@),
{
    !crate::text::starts_with_chars(&chars_of(name), &chars_of(".下載中-"))
}

} // verus!
