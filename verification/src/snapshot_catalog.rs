//! Snapshot headers in a category directory, resume candidates, and the
//! keyword filter over a loaded snapshot.
use vstd::prelude::*;

use crate::snapshot_storage::MetaSummary;
use crate::text::{
    chars_of, concat, contains_chars, contains_seq, dec_i64, dec_int, lowercase, opt_view, string_of,
    text_eq, text_less, text_lt, to_lowercase_text, trim, trim_chars, lemma_text_lt_total,
    lemma_text_lt_transitive, lemma_text_lt_irreflexive,
};
use crate::types::ComicInSearch;

verus! {

/// The header of one category snapshot file, read without its comics.
#[derive(Debug, Clone, PartialEq, Eq)]
pub struct SnapshotCategoryHeader {
    pub cate_id: Option<i64>,
    pub label: String,
    pub file_path: String,
    pub total_count: i64,
    pub saved_at: String,
    pub modified_ms: Option<i64>,
}

/// The `meta` object of a snapshot.
#[derive(Debug, Clone, PartialEq, Eq)]
pub struct SnapshotMeta {
    pub id: String,
    pub saved_at: String,
    pub total_count: i64,
    pub total_pages: i64,
    pub scan_completion_percent: i64,
    pub scan_direction: Option<String>,
    pub scan_completed_pages: i64,
    pub scan_completed_page_ranges: Vec<SnapshotPageRange>,
    pub scan_target_kind: Option<String>,
    pub scan_target_cate_id: Option<i64>,
    pub scan_target_label: Option<String>,
}

/// A copy of an optional text.
pub fn duplicate_opt_string(o: &Option<String>) -> (r: Option<String>)
    ensures
        r == *o,
{
    match o {
        Some(s) => Some(s.clone()),
        None => None,
    }
}

/// A copy of a list of page ranges.
pub fn duplicate_ranges(v: &Vec<SnapshotPageRange>) -> (r: Vec<SnapshotPageRange>)
    ensures
        r@ == v@,
{
    let mut r: Vec<SnapshotPageRange> = Vec::new();
    let mut i: usize = 0;
    while i < v.len()
        invariant
            i <= v.len(),
            r@ == v@.take(i as int),
        decreases v.len() - i,
    {
        r.push(v[i]);
        assert(v@.take(i as int + 1) == v@.take(i as int).push(v@[i as int]));
        i += 1;
    }
    assert(v@.take(v.len() as int) == v@);
    r
}

impl SnapshotMeta {
    /// A field-by-field copy.
    pub fn duplicate(&self) -> (r: SnapshotMeta)
        ensures
            r.id == self.id,
            r.saved_at == self.saved_at,
            r.total_count == self.total_count,
            r.total_pages == self.total_pages,
            r.scan_completion_percent == self.scan_completion_percent,
            r.scan_direction == self.scan_direction,
            r.scan_completed_pages == self.scan_completed_pages,
            r.scan_completed_page_ranges@ == self.scan_completed_page_ranges@,
            r.scan_target_kind == self.scan_target_kind,
            r.scan_target_cate_id == self.scan_target_cate_id,
            r.scan_target_label == self.scan_target_label,
    {
        SnapshotMeta {
            id: self.id.clone(),
            saved_at: self.saved_at.clone(),
            total_count: self.total_count,
            total_pages: self.total_pages,
            scan_completion_percent: self.scan_completion_percent,
            scan_direction: duplicate_opt_string(&self.scan_direction),
            scan_completed_pages: self.scan_completed_pages,
            scan_completed_page_ranges: duplicate_ranges(&self.scan_completed_page_ranges),
            scan_target_kind: duplicate_opt_string(&self.scan_target_kind),
            scan_target_cate_id: self.scan_target_cate_id,
            scan_target_label: duplicate_opt_string(&self.scan_target_label),
        }
    }
}

/// A range of scanned pages, both ends included.
#[derive(Debug, Clone, Copy, PartialEq, Eq)]
pub struct SnapshotPageRange {
    pub start: i64,
    pub end: i64,
}

/// A snapshot that a scan can resume or update.
#[derive(Debug, Clone, PartialEq, Eq)]
pub struct SnapshotResumeCandidate {
    pub cate_id: Option<i64>,
    pub label: String,
    pub scan_target_kind: Option<String>,
    pub file_path: String,
    pub meta_id: String,
    pub saved_at: String,
    pub modified_ms: Option<i64>,
    pub total_count: i64,
    pub total_pages: i64,
    pub scan_completion_percent: i64,
    pub scan_completed_pages: i64,
}

// ---------------------------------------------------------------------------
// Keys, candidates, and picking the newest snapshot of each category
// ---------------------------------------------------------------------------

/// The key that groups the snapshots of one category: its ID, else its
/// label.
pub open spec fn header_key_text(cate_id: Option<i64>, label: Seq<char>) -> Seq<char> {
    match cate_id {
        Some(id) => dec_int(id as int),
        None => label,
    }
}

pub fn header_key(cate_id: Option<i64>, label: &str) -> (r: String)
    ensures
        r@ == header_key_text(cate_id, label@),
{
    match cate_id {
        Some(id) => string_of(&dec_i64(id)),
        None => label.to_string(),
    }
}

/// The key that groups resumable snapshots: `albums:{label}` for the albums
/// listing, else the category key.
pub open spec fn resume_key_text(cate_id: Option<i64>, label: Seq<char>, kind: Option<Seq<char>>) -> Seq<char> {
    if kind == Some("albums"@) {
        "albums:"@ + label
    } else {
        header_key_text(cate_id, label)
    }
}

pub fn resume_candidate_key(cate_id: Option<i64>, label: &str, scan_target_kind: Option<&str>) -> (r: String)
    ensures
        r@ == resume_key_text(
            cate_id,
            label@,
            match scan_target_kind {
                Some(k) => Some(k@),
                None => None,
            },
        ),
{
    let is_albums = match scan_target_kind {
        Some(k) => text_eq(&chars_of(k), &chars_of("albums")),
        None => false,
    };
    if is_albums {
        return string_of(&concat(&chars_of("albums:"), &chars_of(label)));
    }
    header_key(cate_id, label)
}

/// A resumable snapshot described by its file's summary: the given category
/// unless missing, the summary's label unless empty, no modification time.
pub fn header_to_candidate(cate_id: Option<i64>, label: String, file_path: String, summary: MetaSummary) -> (r:
    SnapshotResumeCandidate)
    ensures
        r.cate_id == (match cate_id {
            Some(c) => Some(c),
            None => summary.cate_id,
        }),
        r.label@ == (if summary.label@.len() == 0 {
            label@
        } else {
            summary.label@
        }),
        r.scan_target_kind == summary.scan_target_kind,
        r.file_path == file_path,
        r.meta_id == summary.meta_id,
        r.saved_at == summary.saved_at,
        r.modified_ms is None,
        r.total_count == summary.total_count,
        r.total_pages == summary.total_pages,
        r.scan_completion_percent == summary.scan_completion_percent,
        r.scan_completed_pages == summary.scan_completed_pages,
{
    SnapshotResumeCandidate {
        cate_id: match cate_id {
            Some(c) => Some(c),
            None => summary.cate_id,
        },
        label: if summary.label.as_str().unicode_len() == 0 {
            label
        } else {
            summary.label
        },
        scan_target_kind: summary.scan_target_kind,
        file_path,
        meta_id: summary.meta_id,
        saved_at: summary.saved_at,
        modified_ms: None,
        total_count: summary.total_count,
        total_pages: summary.total_pages,
        scan_completion_percent: summary.scan_completion_percent,
        scan_completed_pages: summary.scan_completed_pages,
    }
}

/// Entry `i` is the one kept for its key: no entry of the same key is newer,
/// and every earlier one of the same key is older (the first of the newest
/// wins).
pub open spec fn kept_latest(keys: Seq<Seq<char>>, mtimes: Seq<i64>, i: int) -> bool {
    &&& 0 <= i < keys.len()
    &&& forall|j: int| 0 <= j < keys.len() && #[trigger] keys[j] == keys[i] ==> mtimes[j] <= mtimes[i]
    &&& forall|j: int| 0 <= j < i && #[trigger] keys[j] == keys[i] ==> mtimes[j] < mtimes[i]
}

/// The positions of the newest entry of each key, in increasing order.
pub fn latest_per_key(keys: &Vec<Vec<char>>, mtimes: &Vec<i64>) -> (r: Vec<usize>)
    requires
        keys.len() == mtimes.len(),
    ensures
        forall|a: int, b: int| 0 <= a < b < r@.len() ==> #[trigger] r@[a] < #[trigger] r@[b],
        forall|a: int| 0 <= a < r@.len() ==> #[trigger] r@[a] < keys@.len(),
        forall|i: int|
            0 <= i < keys@.len() ==> (r@.contains(i as usize) <==> kept_latest(
                crate::text::views(keys@),
                mtimes@,
                i,
            )),
{
    let ghost ks = crate::text::views(keys@);
    let mut r: Vec<usize> = Vec::new();
    let mut i: usize = 0;
    while i < keys.len()
        invariant
            i <= keys.len(),
            keys.len() == mtimes.len(),
            ks == crate::text::views(keys@),
            forall|a: int, b: int| 0 <= a < b < r@.len() ==> #[trigger] r@[a] < #[trigger] r@[b],
            forall|a: int| 0 <= a < r@.len() ==> #[trigger] r@[a] < i,
            forall|m: int|
                0 <= m < i ==> (r@.contains(m as usize) <==> kept_latest(ks, mtimes@, m)),
        decreases keys.len() - i,
    {
        let mut keep = true;
        let mut j: usize = 0;
        while j < keys.len() && keep
            invariant
                j <= keys.len(),
                keys.len() == mtimes.len(),
                i < keys.len(),
                ks == crate::text::views(keys@),
                keep ==> forall|m: int| 0 <= m < j && #[trigger] ks[m] == ks[i as int] ==> (mtimes@[m] <= mtimes@[i as int] && (m < i ==> mtimes@[m] < mtimes@[i as int])),
                !keep ==> !kept_latest(ks, mtimes@, i as int),
            decreases keys.len() - j + (if keep { 1int } else { 0int }),
        {
            if text_eq(&keys[j], &keys[i]) {
                assert(ks[j as int] == keys@[j as int]@ && ks[i as int] == keys@[i as int]@);
                if mtimes[j] > mtimes[i] || (j < i && mtimes[j] >= mtimes[i]) {
                    keep = false;
                }
            } else {
                assert(ks[j as int] == keys@[j as int]@ && ks[i as int] == keys@[i as int]@);
            }
            j += 1;
        }
        let ghost before = r@;
        proof {
            if keep {
                assert(kept_latest(ks, mtimes@, i as int));
            }
        }
        if keep {
            r.push(i);
        }
        proof {
            assert forall|m: int| 0 <= m < i + 1 implies (r@.contains(m as usize) <==> kept_latest(ks, mtimes@, m)) by {
                if keep {
                    assert(r@ == before.push(i));
                    assert(r@[before.len() as int] == i);
                    if m < i {
                        if r@.contains(m as usize) {
                            let p = choose|p: int| 0 <= p < r@.len() && r@[p] == m as usize;
                            if p < before.len() {
                                assert(before[p] == m as usize);
                                assert(before.contains(m as usize));
                            }
                        }
                        if before.contains(m as usize) {
                            let p = choose|p: int| 0 <= p < before.len() && before[p] == m as usize;
                            assert(r@[p] == m as usize);
                        }
                    }
                } else {
                    assert(r@ == before);
                    if m == i as int && r@.contains(m as usize) {
                        let p = choose|p: int| 0 <= p < r@.len() && r@[p] == m as usize;
                        assert(r@[p] < i);
                    }
                }
            }
            assert forall|a: int| 0 <= a < r@.len() implies #[trigger] r@[a] < i + 1 by {
                if keep && a == before.len() {
                } else {
                    assert(r@[a] == before[a]);
                }
            }
            assert forall|a: int, b: int| 0 <= a < b < r@.len() implies #[trigger] r@[a] < #[trigger] r@[b] by {
                if keep && b == before.len() {
                    assert(r@[a] == before[a]);
                } else {
                    assert(r@[a] == before[a] && r@[b] == before[b]);
                }
            }
        }
        i += 1;
    }
    r
}

/// The positions of some texts in increasing text order, equal texts keeping
/// their order (`sort_by` on the texts).
pub fn order_by_text(keys: &Vec<Vec<char>>) -> (r: Vec<usize>)
    ensures
        r@.len() == keys@.len(),
        forall|a: int| 0 <= a < r@.len() ==> #[trigger] r@[a] < keys@.len(),
        forall|a: int, b: int| 0 <= a < b < r@.len() ==> #[trigger] r@[a] != #[trigger] r@[b],
        forall|a: int, b: int| 0 <= a < b < r@.len() ==> !text_lt(keys@[#[trigger] r@[b] as int]@, keys@[#[trigger] r@[a] as int]@),
        forall|a: int, b: int| 0 <= a < b < r@.len() && keys@[#[trigger] r@[a] as int]@ == keys@[#[trigger] r@[b] as int]@ ==> r@[a] < r@[b],
        forall|m: usize| m < keys@.len() ==> #[trigger] r@.contains(m),
{
    let mut r: Vec<usize> = Vec::new();
    let mut i: usize = 0;
    while i < keys.len()
        invariant
            i <= keys.len(),
            r@.len() == i,
            forall|a: int| 0 <= a < r@.len() ==> #[trigger] r@[a] < i,
            forall|a: int, b: int| 0 <= a < b < r@.len() ==> #[trigger] r@[a] != #[trigger] r@[b],
            forall|a: int, b: int| 0 <= a < b < r@.len() ==> !text_lt(keys@[#[trigger] r@[b] as int]@, keys@[#[trigger] r@[a] as int]@),
            forall|a: int, b: int| 0 <= a < b < r@.len() && keys@[#[trigger] r@[a] as int]@ == keys@[#[trigger] r@[b] as int]@ ==> r@[a] < r@[b],
            forall|m: usize| m < i ==> #[trigger] r@.contains(m),
        decreases keys.len() - i,
    {
        let x = &keys[i];
        let mut k: usize = r.len();
        while k > 0 && text_less(x, &keys[r[k - 1]])
            invariant
                k <= r@.len(),
                i < keys.len(),
                x@ == keys@[i as int]@,
                forall|a: int| 0 <= a < r@.len() ==> #[trigger] r@[a] < i,
                forall|j: int| k <= j < r@.len() ==> text_lt(x@, keys@[#[trigger] r@[j] as int]@),
            decreases k,
        {
            k -= 1;
        }
        let ghost before = r@;
        proof {
            if k > 0 {
                lemma_text_lt_total(x@, keys@[before[k - 1] as int]@);
            }
        }
        r.insert(k, i);
        proof {
            assert(r@ == before.insert(k as int, i));
            assert forall|a: int| 0 <= a < r@.len() implies #[trigger] r@[a] < i + 1 by {
                if a < k { assert(r@[a] == before[a]); } else if a > k { assert(r@[a] == before[a - 1]); }
            }
            assert forall|a: int, b: int| 0 <= a < b < r@.len() implies #[trigger] r@[a] != #[trigger] r@[b] by {
                if a < k && b < k { assert(r@[a] == before[a] && r@[b] == before[b]); }
                else if a < k && b == k { assert(r@[a] == before[a]); }
                else if a < k && b > k { assert(r@[a] == before[a] && r@[b] == before[b - 1]); }
                else if a == k { assert(r@[b] == before[b - 1]); }
                else { assert(r@[a] == before[a - 1] && r@[b] == before[b - 1]); }
            }
            assert forall|a: int, b: int| 0 <= a < b < r@.len() implies !text_lt(keys@[#[trigger] r@[b] as int]@, keys@[#[trigger] r@[a] as int]@) by {
                let kv = |p: int| keys@[p]@;
                if a < k && b < k {
                    assert(r@[a] == before[a] && r@[b] == before[b]);
                } else if a < k && b == k {
                    assert(r@[a] == before[a]);
                    if a < k - 1 {
                        assert(!text_lt(keys@[before[k - 1] as int]@, keys@[before[a] as int]@));
                        lemma_text_lt_total(keys@[before[k - 1] as int]@, keys@[before[a] as int]@);
                        if text_lt(x@, keys@[before[a] as int]@) {
                            if keys@[before[a] as int]@ != keys@[before[k - 1] as int]@ {
                                lemma_text_lt_transitive(x@, keys@[before[a] as int]@, keys@[before[k - 1] as int]@);
                            }
                        }
                    }
                } else if a < k && b > k {
                    assert(r@[a] == before[a] && r@[b] == before[b - 1]);
                } else if a == k {
                    assert(r@[b] == before[b - 1]);
                    lemma_text_lt_irreflexive(x@);
                    if text_lt(keys@[before[b - 1] as int]@, x@) {
                        lemma_text_lt_transitive(x@, keys@[before[b - 1] as int]@, x@);
                    }
                } else {
                    assert(r@[a] == before[a - 1] && r@[b] == before[b - 1]);
                }
            }
        }
        proof {
            assert forall|m: usize| m < i + 1 implies #[trigger] r@.contains(m) by {
                if m == i {
                    assert(r@[k as int] == i);
                } else {
                    assert(before.contains(m));
                    let a = choose|a: int| 0 <= a < before.len() && before[a] == m;
                    if a < k {
                        assert(r@[a] == before[a]);
                    } else {
                        assert(r@[a + 1] == before[a]);
                    }
                }
            }
            assert forall|a: int, b: int| 0 <= a < b < r@.len() && keys@[#[trigger] r@[a] as int]@ == keys@[#[trigger] r@[b] as int]@ implies r@[a] < r@[b] by {
                if a < k && b < k {
                    assert(r@[a] == before[a] && r@[b] == before[b]);
                } else if a < k && b == k {
                    assert(r@[a] == before[a]);
                } else if a < k && b > k {
                    assert(r@[a] == before[a] && r@[b] == before[b - 1]);
                } else if a == k {
                    assert(r@[b] == before[b - 1]);
                    assert(text_lt(x@, keys@[before[b - 1] as int]@));
                    lemma_text_lt_irreflexive(x@);
                } else {
                    assert(r@[a] == before[a - 1] && r@[b] == before[b - 1]);
                }
            }
        }
        i += 1;
    }
    r
}

/// The code of `c` with ASCII upper case letters made lower case.
pub open spec fn ascii_lower(c: char) -> u32 {
    if 'A' <= c <= 'Z' {
        ((c as u32) + 32) as u32
    } else {
        c as u32
    }
}

/// The two texts agree up to ASCII case (`str::eq_ignore_ascii_case`).
pub open spec fn eq_ignore_ascii_case(a: Seq<char>, b: Seq<char>) -> bool {
    a.len() == b.len() && forall|i: int| 0 <= i < a.len() ==> ascii_lower(#[trigger] a[i]) == ascii_lower(b[i])
}

fn ascii_lower_exec(c: char) -> (r: u32)
    ensures
        r == ascii_lower(c),
{
    if 'A' <= c && c <= 'Z' {
        (c as u32) + 32
    } else {
        c as u32
    }
}

fn eq_ignore_ascii_case_exec(a: &str, b: &str) -> (r: bool)
    ensures
        r == eq_ignore_ascii_case(a@, b@),
{
    let av = crate::text::chars_of(a);
    let bv = crate::text::chars_of(b);
    if av.len() != bv.len() {
        return false;
    }
    let mut i: usize = 0;
    while i < av.len()
        invariant
            av@ == a@,
            bv@ == b@,
            av.len() == bv.len(),
            i <= av.len(),
            forall|j: int| 0 <= j < i ==> ascii_lower(#[trigger] av@[j]) == ascii_lower(bv@[j]),
        decreases av.len() - i,
    {
        if ascii_lower_exec(av[i]) != ascii_lower_exec(bv[i]) {
            return false;
        }
        i += 1;
    }
    true
}

/// A folder the snapshot search does not enter: `old`, in any ASCII case.
pub fn is_skipped_snapshot_dir(name: &str) -> (b: bool)
    ensures
        b == eq_ignore_ascii_case(name@, "old"@),
{
    eq_ignore_ascii_case_exec(name, "old")
}

/// A file taken as a snapshot: extension `json` in any ASCII case, and a
/// name that holds `gm-snapshot` or ends with `.json`.
pub fn is_snapshot_file_candidate(extension: Option<&str>, file_name: &str) -> (b: bool)
    ensures
        b == ((match extension {
            Some(e) => eq_ignore_ascii_case(e@, "json"@),
            None => false,
        }) && (contains_seq(file_name@, "gm-snapshot"@) || crate::text::ends_with(file_name@, ".json"@))),
{
    let json_ext = match extension {
        Some(e) => eq_ignore_ascii_case_exec(e, "json"),
        None => false,
    };
    let n = crate::text::chars_of(file_name);
    json_ext && (crate::text::contains_chars(&n, &crate::text::chars_of("gm-snapshot"))
        || crate::text::ends_with_chars(&n, &crate::text::chars_of(".json")))
}

/// The entries to list: the newest of each key (see `latest_per_key`),
/// ordered by label, equal labels in file order.
pub fn newest_by_label(keys: &Vec<Vec<char>>, mtimes: &Vec<i64>, labels: &Vec<Vec<char>>) -> (r: Vec<usize>)
    requires
        keys.len() == mtimes.len(),
        labels.len() == keys.len(),
    ensures
        forall|a: int| 0 <= a < r@.len() ==> #[trigger] r@[a] < keys@.len(),
        forall|a: int, b: int| 0 <= a < b < r@.len() ==> #[trigger] r@[a] != #[trigger] r@[b],
        forall|i: int|
            0 <= i < keys@.len() ==> (r@.contains(i as usize) <==> kept_latest(
                crate::text::views(keys@),
                mtimes@,
                i,
            )),
        forall|a: int, b: int| 0 <= a < b < r@.len() ==> !text_lt(labels@[#[trigger] r@[b] as int]@, labels@[#[trigger] r@[a] as int]@),
        forall|a: int, b: int| 0 <= a < b < r@.len() && labels@[#[trigger] r@[a] as int]@ == labels@[#[trigger] r@[b] as int]@ ==> r@[a] < r@[b],
{
    let kept = latest_per_key(keys, mtimes);
    let mut chosen: Vec<Vec<char>> = Vec::new();
    let mut j: usize = 0;
    while j < kept.len()
        invariant
            j <= kept@.len(),
            labels.len() == keys.len(),
            forall|a: int| 0 <= a < kept@.len() ==> #[trigger] kept@[a] < keys@.len(),
            chosen@.len() == j,
            forall|t: int| 0 <= t < j ==> (#[trigger] chosen@[t])@ == labels@[kept@[t] as int]@,
        decreases kept.len() - j,
    {
        let l = &labels[kept[j]];
        chosen.push(crate::text::slice_vec(l, 0, l.len()));
        proof {
            assert(labels@[kept@[j as int] as int]@.subrange(0, l@.len() as int) =~= labels@[kept@[j as int] as int]@);
        }
        j += 1;
    }
    let order = order_by_text(&chosen);
    let mut r: Vec<usize> = Vec::new();
    let mut a: usize = 0;
    while a < order.len()
        invariant
            a <= order@.len(),
            order@.len() == chosen@.len(),
            chosen@.len() == kept@.len(),
            forall|x: int| 0 <= x < order@.len() ==> #[trigger] order@[x] < chosen@.len(),
            r@.len() == a,
            forall|t: int| 0 <= t < a ==> #[trigger] r@[t] == kept@[order@[t] as int],
        decreases order.len() - a,
    {
        r.push(kept[order[a]]);
        a += 1;
    }
    proof {
        let ks = crate::text::views(keys@);
        assert forall|x: int| 0 <= x < r@.len() implies #[trigger] r@[x] < keys@.len() by {
            assert(r@[x] == kept@[order@[x] as int]);
        }
        assert forall|x: int, y: int| 0 <= x < y < r@.len() implies #[trigger] r@[x] != #[trigger] r@[y] by {
            assert(r@[x] == kept@[order@[x] as int] && r@[y] == kept@[order@[y] as int]);
            assert(order@[x] != order@[y]);
            if order@[x] < order@[y] {
                assert(kept@[order@[x] as int] < kept@[order@[y] as int]);
            } else {
                assert(kept@[order@[y] as int] < kept@[order@[x] as int]);
            }
        }
        assert forall|i: int| 0 <= i < keys@.len() implies (r@.contains(i as usize) <==> kept_latest(ks, mtimes@, i)) by {
            if r@.contains(i as usize) {
                let x = choose|x: int| 0 <= x < r@.len() && r@[x] == i as usize;
                assert(r@[x] == kept@[order@[x] as int]);
                assert(kept@.contains(i as usize));
            }
            if kept_latest(ks, mtimes@, i) {
                assert(kept@.contains(i as usize));
                let m = choose|m: int| 0 <= m < kept@.len() && kept@[m] == i as usize;
                assert(order@.contains(m as usize));
                let x = choose|x: int| 0 <= x < order@.len() && order@[x] == m as usize;
                assert(r@[x] == kept@[order@[x] as int]);
                assert(r@.contains(i as usize));
            }
        }
        assert forall|x: int, y: int| 0 <= x < y < r@.len() implies !text_lt(labels@[#[trigger] r@[y] as int]@, labels@[#[trigger] r@[x] as int]@) by {
            assert(r@[x] == kept@[order@[x] as int] && r@[y] == kept@[order@[y] as int]);
            assert(chosen@[order@[x] as int]@ == labels@[r@[x] as int]@);
            assert(chosen@[order@[y] as int]@ == labels@[r@[y] as int]@);
        }
        assert forall|x: int, y: int| 0 <= x < y < r@.len() && labels@[#[trigger] r@[x] as int]@ == labels@[#[trigger] r@[y] as int]@ implies r@[x] < r@[y] by {
            assert(r@[x] == kept@[order@[x] as int] && r@[y] == kept@[order@[y] as int]);
            assert(chosen@[order@[x] as int]@ == labels@[r@[x] as int]@);
            assert(chosen@[order@[y] as int]@ == labels@[r@[y] as int]@);
            assert(order@[x] < order@[y]);
        }
    }
    r
}

// ---------------------------------------------------------------------------
// The keyword filter over a loaded snapshot
// ---------------------------------------------------------------------------

/// A comic matches a lower-cased keyword when its title, its ID or its HTML
/// title, lower-cased, contains it.
pub open spec fn comic_matches_keyword(c: ComicInSearch, kw: Seq<char>) -> bool {
    contains_seq(lowercase(c.title@), kw) || contains_seq(dec_int(c.id as int), kw)
        || contains_seq(lowercase(c.title_html@), kw)
}

/// The comics that match, in their order.
pub open spec fn keyword_filter(s: Seq<ComicInSearch>, kw: Seq<char>) -> Seq<ComicInSearch>
    decreases s.len(),
{
    if s.len() == 0 {
        s
    } else if comic_matches_keyword(s.last(), kw) {
        keyword_filter(s.drop_last(), kw).push(s.last())
    } else {
        keyword_filter(s.drop_last(), kw)
    }
}

/// The comics of a snapshot that match `keyword` (trimmed and lower-cased);
/// all of them for an empty keyword.
pub fn filter_comics(comics: &[ComicInSearch], keyword: &str) -> (r: Vec<ComicInSearch>)
    ensures
        lowercase(trim(keyword@)).len() == 0 ==> r@ == comics@,
        lowercase(trim(keyword@)).len() > 0 ==> r@ == keyword_filter(comics@, lowercase(trim(keyword@))),
{
    let trimmed = string_of(&trim_chars(&chars_of(keyword)));
    let kw_s = to_lowercase_text(trimmed.as_str());
    let kw = chars_of(kw_s.as_str());
    let mut r: Vec<ComicInSearch> = Vec::new();
    let mut i: usize = 0;
    if kw.len() == 0 {
        while i < comics.len()
            invariant
                i <= comics.len(),
                r@ == comics@.take(i as int),
            decreases comics.len() - i,
        {
            r.push(comics[i].duplicate());
            assert(comics@.take(i + 1) =~= comics@.take(i as int).push(comics@[i as int]));
            i += 1;
        }
        assert(comics@.take(comics.len() as int) =~= comics@);
        return r;
    }
    while i < comics.len()
        invariant
            i <= comics.len(),
            kw@ == lowercase(trim(keyword@)),
            r@ == keyword_filter(comics@.take(i as int), kw@),
        decreases comics.len() - i,
    {
        let c = &comics[i];
        proof {
            assert(comics@.take(i + 1).drop_last() =~= comics@.take(i as int));
            assert(comics@.take(i + 1).last() == comics@[i as int]);
        }
        let t = chars_of(to_lowercase_text(c.title()).as_str());
        let hit = contains_chars(&t, &kw) || contains_chars(&dec_i64(c.id()), &kw) || contains_chars(
            &chars_of(to_lowercase_text(c.title_html()).as_str()),
            &kw,
        );
        if hit {
            r.push(c.duplicate());
        }
        i += 1;
    }
    assert(comics@.take(comics.len() as int) =~= comics@);
    r
}

} // verus!
