//! The snapshot search the mobile app runs over a loaded snapshot.
use vstd::prelude::*;

use crate::snapshot_catalog::{filter_comics, keyword_filter, SnapshotMeta};
use crate::text::{chars_of, lowercase, string_of, trim, trim_chars};
use crate::types::ComicInSearch;

verus! {

/// A snapshot's meta, the comics that matched, and how many they are.
#[derive(Debug, Clone)]
pub struct SnapshotSearchResult {
    pub meta: SnapshotMeta,
    pub comics: Vec<ComicInSearch>,
    pub total: usize,
}

/// Searches a loaded snapshot for a keyword (trimmed first).
pub fn snapshot_search_result(meta: SnapshotMeta, comics: &[ComicInSearch], keyword: &str) -> (r:
    SnapshotSearchResult)
    ensures
        r.meta == meta,
        lowercase(trim(trim(keyword@))).len() == 0 ==> r.comics@ == comics@,
        lowercase(trim(trim(keyword@))).len() > 0 ==> r.comics@ == keyword_filter(
            comics@,
            lowercase(trim(trim(keyword@))),
        ),
        r.total == r.comics@.len(),
{
    let kw = string_of(&trim_chars(&chars_of(keyword)));
    let filtered = filter_comics(comics, kw.as_str());
    let total = filtered.len();
    SnapshotSearchResult { meta, comics: filtered, total }
}

} // verus!
