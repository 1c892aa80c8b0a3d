//! Snapshot scan sessions: the comics a category scan has collected so far,
//! the IDs that were known when an update scan began, and the registry of
//! open sessions.
use vstd::prelude::*;

use std::collections::{HashMap, HashSet};
use vstd::std_specs::iter::IteratorSpec;

use crate::snapshot_catalog::{duplicate_ranges, SnapshotMeta, SnapshotPageRange};
use crate::snapshot_storage::{export_file_name_text, export_snapshot_file_name_at, MetaSummary};
use crate::text::{
    all_digits, chars_of, dec_int, dec_i64, dec_nat, dec_u64, digits_value, is_ascii_digit, lemma_dec_nat_digits, lemma_dec_nat_injective,
    concat, lemma_dec_nat_value, lemma_digits_value_push, opt_view, replace_all, replace_all_chars,
    slice_vec, string_of, text_eq, trim, trim_chars,
};
use crate::calendar::{iso_timestamp_text, now_iso_timestamp};
use crate::types::ComicInSearch;

verus! {

broadcast use vstd::std_specs::hash::group_hash_axioms;

/// What opening a session reports.
#[derive(Debug, Clone)]
pub struct SnapshotScanBeginResult {
    pub session_id: String,
    pub existing_count: i64,
    pub meta: SnapshotMeta,
}

/// What merging a batch of a full scan reports.
#[derive(Debug, Clone)]
pub struct SnapshotScanMergeResult {
    pub total_count: i64,
}

/// What applying one page of an update scan reports.
#[derive(Debug, Clone)]
pub struct SnapshotScanUpdatePageResult {
    pub duplicate_hits: i64,
    pub added_count: i64,
    pub total_count: i64,
    pub should_stop: bool,
}

/// What the front end sends to close a session and write its snapshot.
#[derive(Debug, Clone)]
pub struct SnapshotScanFinalizeInput {
    pub session_id: String,
    pub category_directory: String,
    pub file_name: Option<String>,
    pub previous_snapshot_path: Option<String>,
    pub total_pages: i64,
    pub scan_completion_percent: i64,
    pub scan_completed_pages: i64,
    pub scan_completed_page_ranges: Vec<SnapshotPageRange>,
}

/// A session operation named a session that is not open.
#[derive(Debug, Clone, Copy, PartialEq, Eq)]
pub enum SessionError {
    NotFound,
}

/// One open scan session.
pub struct SnapshotScanSession {
    pub meta: SnapshotMeta,
    /// The comics collected so far, by ID.
    pub comics: HashMap<i64, ComicInSearch>,
    pub label: String,
    pub cate_id: i64,
    pub scan_target_kind: String,
    pub source_file_path: Option<String>,
    /// The IDs known when the scan began; only these count as duplicates.
    pub baseline_known_ids: HashSet<i64>,
    /// How many comics the snapshot file held before the scan.
    pub original_file_comic_count: i64,
    pub source_cache_path: Option<String>,
}

/// Every field but the collected comics agrees.
pub open spec fn same_but_comics(a: SnapshotScanSession, b: SnapshotScanSession) -> bool {
    &&& a.meta == b.meta
    &&& a.label == b.label
    &&& a.cate_id == b.cate_id
    &&& a.scan_target_kind == b.scan_target_kind
    &&& a.source_file_path == b.source_file_path
    &&& a.baseline_known_ids == b.baseline_known_ids
    &&& a.original_file_comic_count == b.original_file_comic_count
    &&& a.source_cache_path == b.source_cache_path
}

/// The running total that scans report: the comics of the file before the
/// scan plus those collected.
pub open spec fn session_total(s: SnapshotScanSession) -> int {
    s.original_file_comic_count + s.comics@.len()
}

// ---------------------------------------------------------------------------
// Session identifiers
// ---------------------------------------------------------------------------

pub open spec fn session_prefix() -> Seq<char> {
    seq!['s', 'n', 'a', 'p', '-']
}

/// The identifier of the session opened as number `n`.
pub open spec fn session_id_text(n: nat) -> Seq<char> {
    session_prefix() + dec_nat(n)
}

/// The number of the session that `id` names, if it names one.
pub open spec fn session_key(id: Seq<char>) -> Option<u64> {
    if exists|n: u64| id == session_id_text(n as nat) {
        Some(choose|n: u64| id == session_id_text(n as nat))
    } else {
        None
    }
}

proof fn lemma_session_id_injective(a: nat, b: nat)
    requires
        session_id_text(a) == session_id_text(b),
    ensures
        a == b,
{
    assert(dec_nat(a) =~= session_id_text(a).skip(5));
    assert(dec_nat(b) =~= session_id_text(b).skip(5));
    lemma_dec_nat_injective(a, b);
}

proof fn lemma_session_key_of(n: u64)
    ensures
        session_key(session_id_text(n as nat)) == Some(n),
{
    let id = session_id_text(n as nat);
    assert(exists|m: u64| id == session_id_text(m as nat));
    let m = choose|m: u64| id == session_id_text(m as nat);
    lemma_session_id_injective(m as nat, n as nat);
}

/// The value of a run of ASCII digits, if it is not empty and fits in a `u64`.
fn parse_digits_u64(s: &[char]) -> (r: Option<u64>)
    ensures
        r == (if s@.len() > 0 && all_digits(s@) && digits_value(s@) <= u64::MAX {
            Some(digits_value(s@) as u64)
        } else {
            None::<u64>
        }),
{
    if s.len() == 0 {
        return None;
    }
    let mut v: u128 = 0;
    let mut i: usize = 0;
    while i < s.len()
        invariant
            i <= s.len(),
            all_digits(s@.take(i as int)),
            v == digits_value(s@.take(i as int)),
            v <= u64::MAX,
        decreases s.len() - i,
    {
        let c = s[i];
        if !('0' <= c && c <= '9') {
            assert(!is_ascii_digit(s@[i as int]));
            return None;
        }
        proof {
            assert(s@.take(i + 1) =~= s@.take(i as int).push(c));
            lemma_digits_value_push(s@.take(i as int), c);
        }
        let d = (c as u32 - '0' as u32) as u128;
        let nv = v * 10 + d;
        if nv > 18446744073709551615u128 {
            proof {
                assert(all_digits(s@) ==> digits_value(s@) > u64::MAX) by {
                    if all_digits(s@) {
                        lemma_prefix_value_bound(s@, i + 1);
                    }
                }
            }
            return None;
        }
        v = nv;
        i += 1;
    }
    assert(s@.take(s.len() as int) =~= s@);
    Some(v as u64)
}

proof fn lemma_prefix_value_bound(s: Seq<char>, k: int)
    requires
        0 <= k <= s.len(),
        all_digits(s),
    ensures
        digits_value(s.take(k)) <= digits_value(s),
    decreases s.len() - k,
{
    if k < s.len() {
        assert(all_digits(s.drop_last()));
        assert(s.drop_last().take(k) =~= s.take(k));
        lemma_prefix_value_bound(s.drop_last(), k);
        assert(s =~= s.drop_last().push(s.last()));
        lemma_digits_value_push(s.drop_last(), s.last());
    } else {
        assert(s.take(k) =~= s);
    }
}

/// The number of the session that `session_id` names, if any.
pub fn session_number(session_id: &str) -> (r: Option<u64>)
    ensures
        r == session_key(session_id@),
{
    let id = chars_of(session_id);
    let prefix_ok = id.len() >= 5 && id[0] == 's' && id[1] == 'n' && id[2] == 'a' && id[3] == 'p'
        && id[4] == '-';
    if !prefix_ok {
        proof {
            if exists|n: u64| id@ == session_id_text(n as nat) {
                let n = choose|n: u64| id@ == session_id_text(n as nat);
                assert(id@[0] == session_id_text(n as nat)[0]);
                assert(id@[4] == session_id_text(n as nat)[4]);
                lemma_dec_nat_digits(n as nat);
            }
        }
        return None;
    }
    let rest = slice_vec(&id, 5, id.len());
    let parsed = parse_digits_u64(&rest);
    match parsed {
        Some(n) => {
            let text = dec_u64(n);
            if text_eq(&text, &rest) {
                proof {
                    assert(id@ =~= session_prefix() + rest@);
                    lemma_session_key_of(n);
                }
                Some(n)
            } else {
                proof {
                    if exists|m: u64| id@ == session_id_text(m as nat) {
                        let m = choose|m: u64| id@ == session_id_text(m as nat);
                        assert(rest@ =~= dec_nat(m as nat)) by {
                            assert(rest@ =~= id@.skip(5));
                            assert(session_id_text(m as nat).skip(5) =~= dec_nat(m as nat));
                        }
                        lemma_dec_nat_value(m as nat);
                    }
                }
                None
            }
        },
        None => {
            proof {
                if exists|m: u64| id@ == session_id_text(m as nat) {
                    let m = choose|m: u64| id@ == session_id_text(m as nat);
                    assert(rest@ =~= dec_nat(m as nat)) by {
                        assert(rest@ =~= id@.skip(5));
                        assert(session_id_text(m as nat).skip(5) =~= dec_nat(m as nat));
                    }
                    lemma_dec_nat_value(m as nat);
                    lemma_dec_nat_digits(m as nat);
                }
            }
            None
        },
    }
}

/// The text of session identifier number `n`.
pub fn session_id_string(n: u64) -> (r: String)
    ensures
        r@ == session_id_text(n as nat),
{
    let mut v: Vec<char> = Vec::new();
    v.push('s');
    v.push('n');
    v.push('a');
    v.push('p');
    v.push('-');
    let v = concat(&v, &dec_u64(n));
    assert(v@ =~= session_id_text(n as nat));
    crate::text::string_of(&v)
}

// ---------------------------------------------------------------------------
// Merging pages into a session
// ---------------------------------------------------------------------------

/// The collected comics after a batch of a full scan: every comic of the
/// batch is stored under its ID, a later one replacing an earlier one.
pub open spec fn insert_all(m: Map<i64, ComicInSearch>, batch: Seq<ComicInSearch>) -> Map<
    i64,
    ComicInSearch,
>
    decreases batch.len(),
{
    if batch.len() == 0 {
        m
    } else {
        insert_all(m, batch.drop_last()).insert(batch.last().id, batch.last())
    }
}

/// One page of an update scan applied to the collected comics: a comic whose
/// ID was known when the scan began counts as a duplicate hit; one already
/// collected is skipped; any other is added. Gives the comics, the hits on
/// this page and the number added.
pub open spec fn update_page(m: Map<i64, ComicInSearch>, baseline: Set<i64>, page: Seq<ComicInSearch>) -> (
    Map<i64, ComicInSearch>,
    int,
    int,
)
    decreases page.len(),
{
    if page.len() == 0 {
        (m, 0, 0)
    } else {
        let prev = update_page(m, baseline, page.drop_last());
        let c = page.last();
        if baseline.contains(c.id) {
            (prev.0, prev.1 + 1, prev.2)
        } else if prev.0.contains_key(c.id) {
            prev
        } else {
            (prev.0.insert(c.id, c), prev.1, prev.2 + 1)
        }
    }
}

/// How many comics of `page` carry an ID of `known`.
pub open spec fn known_count(page: Seq<ComicInSearch>, known: Set<i64>) -> int
    decreases page.len(),
{
    if page.len() == 0 {
        0
    } else {
        known_count(page.drop_last(), known) + if known.contains(page.last().id) {
            1int
        } else {
            0int
        }
    }
}

/// Applying a page adds exactly the comics it reports as added, never one of
/// the known IDs, keeps every comic already collected, and counts as hits
/// exactly the comics whose ID was known.
pub proof fn lemma_update_page(m: Map<i64, ComicInSearch>, baseline: Set<i64>, page: Seq<ComicInSearch>)
    requires
        m.dom().finite(),
    ensures
        update_page(m, baseline, page).0.dom().finite(),
        update_page(m, baseline, page).0.len() == m.len() + update_page(m, baseline, page).2,
        0 <= update_page(m, baseline, page).2 <= page.len(),
        update_page(m, baseline, page).1 == known_count(page, baseline),
        forall|id: i64| #[trigger] m.contains_key(id) ==> update_page(m, baseline, page).0.contains_key(id)
            && update_page(m, baseline, page).0[id] == m[id],
        forall|id: i64|
            baseline.contains(id) ==> (#[trigger] update_page(m, baseline, page).0.contains_key(id)
                <==> m.contains_key(id)),
    decreases page.len(),
{
    if page.len() > 0 {
        lemma_update_page(m, baseline, page.drop_last());
    }
}

/// Storing a comic under its ID is done once and for all: the stored
/// comics hold every comic of the batch, the last one of each ID winning.
pub proof fn lemma_insert_all_holds_batch(m: Map<i64, ComicInSearch>, batch: Seq<ComicInSearch>)
    ensures
        forall|i: int|
            0 <= i < batch.len() ==> insert_all(m, batch).contains_key(#[trigger] batch[i].id),
        forall|id: i64| #[trigger]
            insert_all(m, batch).contains_key(id) ==> m.contains_key(id) || exists|i: int|
                0 <= i < batch.len() && batch[i].id == id,
    decreases batch.len(),
{
    if batch.len() > 0 {
        lemma_insert_all_holds_batch(m, batch.drop_last());
        assert forall|i: int| 0 <= i < batch.len() implies insert_all(m, batch).contains_key(
            #[trigger] batch[i].id,
        ) by {
            if i < batch.len() - 1 {
                assert(batch.drop_last()[i] == batch[i]);
            }
        }
        assert forall|id: i64| #[trigger]
            insert_all(m, batch).contains_key(id) implies m.contains_key(id) || exists|i: int|
                0 <= i < batch.len() && batch[i].id == id by {
            if id == batch.last().id {
                assert(batch[batch.len() - 1].id == id);
            } else if !m.contains_key(id) {
                assert(insert_all(m, batch.drop_last()).contains_key(id));
                let i = choose|i: int| 0 <= i < batch.drop_last().len() && batch.drop_last()[i].id == id;
                assert(batch.drop_last()[i] == batch[i]);
                assert(batch[i].id == id);
            }
        }
    }
}

/// Merging the same batch twice gives the same comics as merging it once: a
/// full scan may send a batch again without harm.
pub proof fn lemma_merge_batch_idempotent(m: Map<i64, ComicInSearch>, batch: Seq<ComicInSearch>)
    ensures
        insert_all(insert_all(m, batch), batch) == insert_all(m, batch),
    decreases batch.len(),
{
    lemma_insert_all_last_wins(m, batch);
    lemma_insert_all_last_wins(insert_all(m, batch), batch);
    assert(insert_all(insert_all(m, batch), batch) =~= insert_all(m, batch)) by {
        lemma_insert_all_holds_batch(m, batch);
        lemma_insert_all_holds_batch(insert_all(m, batch), batch);
    }
}

/// What a merge stores under an ID: the last comic of the batch with that
/// ID, or what was there before when the batch has none.
pub open spec fn last_with_id(batch: Seq<ComicInSearch>, id: i64) -> Option<ComicInSearch>
    decreases batch.len(),
{
    if batch.len() == 0 {
        None
    } else if batch.last().id == id {
        Some(batch.last())
    } else {
        last_with_id(batch.drop_last(), id)
    }
}

proof fn lemma_insert_all_last_wins(m: Map<i64, ComicInSearch>, batch: Seq<ComicInSearch>)
    ensures
        forall|id: i64| #[trigger] insert_all(m, batch).contains_key(id) ==> insert_all(m, batch)[id]
            == (match last_with_id(batch, id) {
            Some(c) => c,
            None => m[id],
        }),
        forall|id: i64| #[trigger] insert_all(m, batch).contains_key(id) <==> (m.contains_key(id)
            || last_with_id(batch, id) is Some),
    decreases batch.len(),
{
    if batch.len() > 0 {
        lemma_insert_all_last_wins(m, batch.drop_last());
    }
}

/// Applying the same page of an update scan a second time adds nothing and
/// leaves the collected comics as they were; only its duplicate hits are
/// counted again.
pub proof fn lemma_update_page_twice(m: Map<i64, ComicInSearch>, baseline: Set<i64>, page: Seq<ComicInSearch>)
    requires
        m.dom().finite(),
    ensures
        update_page(update_page(m, baseline, page).0, baseline, page).0 == update_page(m, baseline, page).0,
        update_page(update_page(m, baseline, page).0, baseline, page).2 == 0,
        update_page(update_page(m, baseline, page).0, baseline, page).1 == update_page(m, baseline, page).1,
{
    let once = update_page(m, baseline, page).0;
    lemma_update_page(m, baseline, page);
    lemma_update_page_keeps_page(m, baseline, page);
    lemma_update_page_noop(once, baseline, page);
    lemma_update_page(once, baseline, page);
}

proof fn lemma_update_page_keeps_page(m: Map<i64, ComicInSearch>, baseline: Set<i64>, page: Seq<ComicInSearch>)
    ensures
        forall|i: int| 0 <= i < page.len() && !baseline.contains(#[trigger] page[i].id) ==> update_page(m, baseline, page).0.contains_key(page[i].id),
    decreases page.len(),
{
    if page.len() > 0 {
        lemma_update_page_keeps_page(m, baseline, page.drop_last());
        assert forall|i: int| 0 <= i < page.len() && !baseline.contains(#[trigger] page[i].id) implies update_page(m, baseline, page).0.contains_key(page[i].id) by {
            if i < page.len() - 1 {
                assert(page.drop_last()[i] == page[i]);
            }
        }
    }
}

proof fn lemma_update_page_noop(m: Map<i64, ComicInSearch>, baseline: Set<i64>, page: Seq<ComicInSearch>)
    requires
        forall|i: int| 0 <= i < page.len() && !baseline.contains(#[trigger] page[i].id) ==> m.contains_key(page[i].id),
    ensures
        update_page(m, baseline, page).0 == m,
        update_page(m, baseline, page).2 == 0,
    decreases page.len(),
{
    if page.len() > 0 {
        assert forall|i: int| 0 <= i < page.drop_last().len() && !baseline.contains(#[trigger] page.drop_last()[i].id) implies m.contains_key(page.drop_last()[i].id) by {
            assert(page.drop_last()[i] == page[i]);
        }
        lemma_update_page_noop(m, baseline, page.drop_last());
        assert(!baseline.contains(page.last().id) ==> m.contains_key(page[page.len() - 1].id));
    }
}

proof fn lemma_insert_all_len(m: Map<i64, ComicInSearch>, batch: Seq<ComicInSearch>)
    requires
        m.dom().finite(),
    ensures
        insert_all(m, batch).dom().finite(),
        insert_all(m, batch).len() <= m.len() + batch.len(),
    decreases batch.len(),
{
    if batch.len() > 0 {
        lemma_insert_all_len(m, batch.drop_last());
    }
}

fn insert_batch(comics: &mut HashMap<i64, ComicInSearch>, batch: &Vec<ComicInSearch>)
    ensures
        final(comics)@ == insert_all(old(comics)@, batch@),
{
    let mut i: usize = 0;
    while i < batch.len()
        invariant
            i <= batch.len(),
            comics@ == insert_all(old(comics)@, batch@.take(i as int)),
        decreases batch.len() - i,
    {
        let c = batch[i].duplicate();
        proof {
            assert(batch@.take(i + 1).drop_last() =~= batch@.take(i as int));
        }
        comics.insert(c.id, c);
        i += 1;
    }
    assert(batch@.take(batch.len() as int) =~= batch@);
}

// ---------------------------------------------------------------------------
// The registry of open sessions
// ---------------------------------------------------------------------------

/// The open scan sessions, by number, and the number the next one gets.
pub struct SnapshotScanRegistry {
    sessions: HashMap<u64, SnapshotScanSession>,
    next_session: u64,
}

impl View for SnapshotScanRegistry {
    type V = Map<u64, SnapshotScanSession>;

    closed spec fn view(&self) -> Map<u64, SnapshotScanSession> {
        self.sessions@
    }
}

impl SnapshotScanRegistry {
    /// The number the next session will get.
    pub closed spec fn next_number(&self) -> u64 {
        self.next_session
    }

    /// Every open session has a number below the next one.
    pub closed spec fn wf(&self) -> bool {
        &&& self.next_session >= 1
        &&& forall|n: u64| #[trigger] self.sessions@.contains_key(n) ==> n < self.next_session
    }

    pub fn new() -> (r: SnapshotScanRegistry)
        ensures
            r.wf(),
            r@ == Map::<u64, SnapshotScanSession>::empty(),
            r.next_number() == 1,
    {
        SnapshotScanRegistry { sessions: HashMap::new(), next_session: 1 }
    }

    pub fn next_session_number(&self) -> (r: u64)
        ensures
            r == self.next_number(),
    {
        self.next_session
    }

    pub proof fn lemma_wf(&self)
        requires
            self.wf(),
        ensures
            self@.dom().finite(),
            forall|n: u64| #[trigger] self@.contains_key(n) ==> n < self.next_number(),
    {
    }

    /// Whether session `session_id` is open and can take `extra` more comics
    /// without its running total leaving `i64`.
    pub fn has_room(&self, session_id: &str, extra: usize) -> (b: bool)
        requires
            self.wf(),
        ensures
            b == (match session_key(session_id@) {
                Some(n) => self@.contains_key(n) && self@[n].original_file_comic_count
                    + self@[n].comics@.len() + extra <= i64::MAX,
                None => false,
            }),
    {
        match session_number(session_id) {
            Some(n) => {
                match self.sessions.get(&n) {
                    Some(s) => {
                        let len = s.comics.len();
                        (len as i128) + (extra as i128) + (s.original_file_comic_count as i128)
                            <= 9223372036854775807i128
                    },
                    None => false,
                }
            },
            None => false,
        }
    }
}

/// Opens a session over what the caller loaded from the snapshot file, and
/// registers it under the next session number.
///
/// `comics` fills the collected comics, a later comic replacing an earlier
/// one of the same ID. The IDs known at the start are `existing_ids` where
/// given, else the IDs of `comics`. A file count that is not positive is
/// replaced by the number of known IDs.
pub fn open_session(
    registry: &mut SnapshotScanRegistry,
    meta: SnapshotMeta,
    comics: Vec<ComicInSearch>,
    label: String,
    cate_id: i64,
    scan_target_kind: String,
    source_file_path: Option<String>,
    existing_ids: Option<HashSet<i64>>,
    original_file_comic_count: i64,
    source_cache_path: Option<String>,
) -> (r: SnapshotScanBeginResult)
    requires
        old(registry).wf(),
        old(registry).next_number() < u64::MAX,
    ensures
        final(registry).wf(),
        final(registry).next_number() == old(registry).next_number() + 1,
        r.session_id@ == session_id_text(old(registry).next_number() as nat),
        session_key(r.session_id@) == Some(old(registry).next_number()),
        !old(registry)@.contains_key(old(registry).next_number()),
        final(registry)@ == old(registry)@.insert(
            old(registry).next_number(),
            final(registry)@[old(registry).next_number()],
        ),
        ({
            let s = final(registry)@[old(registry).next_number()];
            &&& s.meta == meta
            &&& s.comics@ == insert_all(Map::empty(), comics@)
            &&& s.label == label
            &&& s.cate_id == cate_id
            &&& s.scan_target_kind == scan_target_kind
            &&& s.source_file_path == source_file_path
            &&& s.baseline_known_ids@ == (match existing_ids {
                Some(ids) => ids@,
                None => insert_all(Map::empty(), comics@).dom(),
            })
            &&& s.original_file_comic_count == (if original_file_comic_count > 0 {
                original_file_comic_count as int
            } else {
                s.baseline_known_ids@.len() as i64 as int
            })
            &&& s.source_cache_path == source_cache_path
            &&& r.existing_count == s.original_file_comic_count
        }),
        r.meta.id == meta.id,
        r.meta.saved_at == meta.saved_at,
        r.meta.total_count == meta.total_count,
        r.meta.total_pages == meta.total_pages,
        r.meta.scan_completion_percent == meta.scan_completion_percent,
        r.meta.scan_direction == meta.scan_direction,
        r.meta.scan_completed_pages == meta.scan_completed_pages,
        r.meta.scan_completed_page_ranges@ == meta.scan_completed_page_ranges@,
        r.meta.scan_target_kind == meta.scan_target_kind,
        r.meta.scan_target_cate_id == meta.scan_target_cate_id,
        r.meta.scan_target_label == meta.scan_target_label,
{
    let mut map: HashMap<i64, ComicInSearch> = HashMap::new();
    let mut ids: HashSet<i64> = HashSet::new();
    let mut i: usize = 0;
    while i < comics.len()
        invariant
            i <= comics.len(),
            map@ == insert_all(Map::empty(), comics@.take(i as int)),
            ids@ == map@.dom(),
        decreases comics.len() - i,
    {
        let c = comics[i].duplicate();
        proof {
            assert(comics@.take(i + 1).drop_last() =~= comics@.take(i as int));
        }
        ids.insert(c.id);
        map.insert(c.id, c);
        assert(ids@ =~= map@.dom());
        i += 1;
    }
    assert(comics@.take(comics.len() as int) =~= comics@);
    let baseline = match existing_ids {
        Some(known) => known,
        None => ids,
    };
    let original = if original_file_comic_count > 0 {
        original_file_comic_count
    } else {
        baseline.len() as i64
    };
    let n = registry.next_session;
    let session_id = session_id_string(n);
    proof {
        lemma_session_key_of(n);
    }
    let result_meta = meta.duplicate();
    let session = SnapshotScanSession {
        meta,
        comics: map,
        label,
        cate_id,
        scan_target_kind,
        source_file_path,
        baseline_known_ids: baseline,
        original_file_comic_count: original,
        source_cache_path,
    };
    registry.sessions.insert(n, session);
    registry.next_session = n + 1;
    SnapshotScanBeginResult { session_id, existing_count: original, meta: result_meta }
}

/// Stores every comic of a batch of a full scan in the session, under its
/// ID, and reports the running total.
pub fn merge_batch(registry: &mut SnapshotScanRegistry, session_id: &str, batch: Vec<ComicInSearch>) -> (r:
    Result<SnapshotScanMergeResult, SessionError>)
    requires
        old(registry).wf(),
        match session_key(session_id@) {
            Some(n) => old(registry)@.contains_key(n) ==> old(registry)@[n].original_file_comic_count
                + old(registry)@[n].comics@.len() + batch.len() <= i64::MAX,
            None => true,
        },
    ensures
        final(registry).wf(),
        final(registry).next_number() == old(registry).next_number(),
        match session_key(session_id@) {
            Some(n) if old(registry)@.contains_key(n) => {
                &&& final(registry)@.dom() == old(registry)@.dom()
                &&& forall|m: u64| #[trigger]
                    old(registry)@.contains_key(m) && m != n ==> final(registry)@[m]
                        == old(registry)@[m]
                &&& same_but_comics(final(registry)@[n], old(registry)@[n])
                &&& final(registry)@[n].comics@ == insert_all(old(registry)@[n].comics@, batch@)
                &&& r matches Ok(res) && res.total_count == session_total(final(registry)@[n])
            },
            _ => r == Err::<SnapshotScanMergeResult, SessionError>(SessionError::NotFound)
                && final(registry)@ == old(registry)@,
        },
{
    let key = session_number(session_id);
    let n = match key {
        Some(n) => n,
        None => return Err(SessionError::NotFound),
    };
    let taken = registry.sessions.remove(&n);
    let mut session = match taken {
        Some(s) => s,
        None => {
            assert(registry.sessions@ =~= old(registry).sessions@);
            return Err(SessionError::NotFound);
        },
    };
    proof {
        lemma_insert_all_len(session.comics@, batch@);
    }
    insert_batch(&mut session.comics, &batch);
    let total = ((session.original_file_comic_count as i128) + (session.comics.len() as i128)) as i64;
    let ghost s_new = session;
    registry.sessions.insert(n, session);
    proof {
        assert(registry.sessions@ =~= old(registry).sessions@.insert(n, s_new));
    }
    Ok(SnapshotScanMergeResult { total_count: total })
}

/// Applies one page of an update scan to the session (see `update_page`) and
/// reports the cumulative duplicate hits, the number added from this page,
/// the running total, and whether the hits passed the stop threshold.
pub fn apply_update_page(
    registry: &mut SnapshotScanRegistry,
    session_id: &str,
    comics: Vec<ComicInSearch>,
    cumulative_duplicate_hits: i64,
    duplicate_stop_threshold: i64,
) -> (r: Result<SnapshotScanUpdatePageResult, SessionError>)
    requires
        old(registry).wf(),
        comics.len() <= i64::MAX,
        cumulative_duplicate_hits + comics.len() <= i64::MAX,
        match session_key(session_id@) {
            Some(n) => old(registry)@.contains_key(n) ==> old(registry)@[n].original_file_comic_count
                + old(registry)@[n].comics@.len() + comics.len() <= i64::MAX,
            None => true,
        },
    ensures
        final(registry).wf(),
        final(registry).next_number() == old(registry).next_number(),
        match session_key(session_id@) {
            Some(n) if old(registry)@.contains_key(n) => {
                let s = old(registry)@[n];
                let out = update_page(s.comics@, s.baseline_known_ids@, comics@);
                &&& final(registry)@.dom() == old(registry)@.dom()
                &&& forall|m: u64| #[trigger]
                    old(registry)@.contains_key(m) && m != n ==> final(registry)@[m]
                        == old(registry)@[m]
                &&& same_but_comics(final(registry)@[n], s)
                &&& final(registry)@[n].comics@ == out.0
                &&& r matches Ok(res) && {
                    &&& res.duplicate_hits == cumulative_duplicate_hits + out.1
                    &&& res.added_count == out.2
                    &&& res.total_count == session_total(final(registry)@[n])
                    &&& res.total_count == session_total(s) + res.added_count
                    &&& res.should_stop == (res.duplicate_hits > duplicate_stop_threshold)
                }
            },
            _ => r == Err::<SnapshotScanUpdatePageResult, SessionError>(SessionError::NotFound)
                && final(registry)@ == old(registry)@,
        },
{
    let key = session_number(session_id);
    let n = match key {
        Some(n) => n,
        None => return Err(SessionError::NotFound),
    };
    let taken = registry.sessions.remove(&n);
    let mut session = match taken {
        Some(s) => s,
        None => {
            assert(registry.sessions@ =~= old(registry).sessions@);
            return Err(SessionError::NotFound);
        },
    };
    let ghost s0 = session;
    proof {
        lemma_update_page(s0.comics@, s0.baseline_known_ids@, comics@);
    }
    let mut duplicate_hits = cumulative_duplicate_hits;
    let mut added_count: i64 = 0;
    let mut i: usize = 0;
    while i < comics.len()
        invariant
            i <= comics.len(),
            s0.comics@.dom().finite(),
            session.baseline_known_ids@ == s0.baseline_known_ids@,
            session.original_file_comic_count == s0.original_file_comic_count,
            s0.original_file_comic_count + s0.comics@.len() + comics.len() <= i64::MAX,
            comics.len() <= i64::MAX,
            same_but_comics(session, s0),
            cumulative_duplicate_hits + comics.len() <= i64::MAX,
            ({
                let out = update_page(s0.comics@, s0.baseline_known_ids@, comics@.take(i as int));
                &&& session.comics@ == out.0
                &&& duplicate_hits == cumulative_duplicate_hits + out.1
                &&& added_count == out.2
                &&& out.0.len() == s0.comics@.len() + out.2
                &&& 0 <= out.1 <= i
                &&& 0 <= out.2 <= i
            }),
        decreases comics.len() - i,
    {
        let c = comics[i].duplicate();
        proof {
            assert(comics@.take(i + 1).drop_last() =~= comics@.take(i as int));
            assert(comics@.take(i + 1).last() == comics@[i as int]);
            lemma_update_page(s0.comics@, s0.baseline_known_ids@, comics@.take(i + 1));
            lemma_update_page(s0.comics@, s0.baseline_known_ids@, comics@.take(i as int));
        }
        let id = c.id;
        if session.baseline_known_ids.contains(&id) {
            duplicate_hits = duplicate_hits + 1;
        } else if session.comics.contains_key(&id) {
        } else {
            session.comics.insert(id, c);
            added_count = added_count + 1;
        }
        i += 1;
    }
    assert(comics@.take(comics.len() as int) =~= comics@);
    let total = ((session.original_file_comic_count as i128) + (session.comics.len() as i128)) as i64;
    let ghost s_new = session;
    registry.sessions.insert(n, session);
    proof {
        assert(registry.sessions@ =~= old(registry).sessions@.insert(n, s_new));
    }
    Ok(
        SnapshotScanUpdatePageResult {
            duplicate_hits,
            added_count,
            total_count: total,
            should_stop: duplicate_hits > duplicate_stop_threshold,
        },
    )
}

/// Closes a session and hands it back (its cache file is the caller's to
/// clean up); nothing happens for a session that is not open.
pub fn dispose_session(registry: &mut SnapshotScanRegistry, session_id: &str) -> (r: Option<
    SnapshotScanSession,
>)
    requires
        old(registry).wf(),
    ensures
        final(registry).wf(),
        final(registry).next_number() == old(registry).next_number(),
        match session_key(session_id@) {
            Some(n) if old(registry)@.contains_key(n) => r == Some(old(registry)@[n])
                && final(registry)@ == old(registry)@.remove(n),
            _ => r is None && final(registry)@ == old(registry)@,
        },
{
    match session_number(session_id) {
        Some(n) => {
            let r = registry.sessions.remove(&n);
            proof {
                if !old(registry)@.contains_key(n) {
                    assert(registry.sessions@ =~= old(registry).sessions@);
                }
            }
            r
        },
        None => None,
    }
}

// ---------------------------------------------------------------------------
// Opening and closing: the decisions around the file work
// ---------------------------------------------------------------------------

/// A fresh random identifier for a snapshot (`uuid::Uuid::new_v4`, in its
/// text form). Its value is random; the crate's `Display` writes the
/// hyphenated form, 36 characters with `-` at positions 8, 13, 18 and 23,
/// and that shape is all that is promised.
#[verifier::external_body]
pub(crate) fn fresh_meta_id() -> (r: String)
    ensures
        r@.len() == 36,
        r@[8] == '-' && r@[13] == '-' && r@[18] == '-' && r@[23] == '-',
{
    uuid::Uuid::new_v4().to_string()
}

pub open spec fn tail_to_head() -> Seq<char> {
    seq!['t', 'a', 'i', 'l', 'T', 'o', 'H', 'e', 'a', 'd']
}

pub open spec fn category_kind() -> Seq<char> {
    seq!['c', 'a', 't', 'e', 'g', 'o', 'r', 'y']
}

pub open spec fn albums_kind() -> Seq<char> {
    seq!['a', 'l', 'b', 'u', 'm', 's']
}

/// The category a scan targets: none for the albums listing or a negative
/// category.
pub open spec fn target_cate_id(scan_target_kind: Seq<char>, cate_id: i64) -> Option<i64> {
    if scan_target_kind == albums_kind() || cate_id < 0 {
        None
    } else {
        Some(cate_id)
    }
}

fn target_cate_id_exec(scan_target_kind: &str, cate_id: i64) -> (r: Option<i64>)
    ensures
        r == target_cate_id(scan_target_kind@, cate_id),
{
    let albums = chars_of("albums");
    proof {
        reveal_strlit("albums");
        assert(albums@ =~= albums_kind());
    }
    if text_eq(&chars_of(scan_target_kind), &albums) || cate_id < 0 {
        None
    } else {
        Some(cate_id)
    }
}

fn text_of_literal_tail_to_head() -> (r: String)
    ensures
        r@ == tail_to_head(),
{
    let s = "tailToHead";
    proof {
        reveal_strlit("tailToHead");
    }
    s.to_string()
}

/// The meta of a scan that starts without a snapshot file: no comics, no
/// pages scanned, scanning from the last page to the first.
pub fn initial_scan_meta(id: String, saved_at: String, cate_id: i64, label: &str, total_pages: i64, scan_target_kind: &str) -> (r: SnapshotMeta)
    ensures
        r.id == id,
        r.saved_at == saved_at,
        r.total_count == 0,
        r.total_pages == total_pages,
        r.scan_completion_percent == 0,
        opt_view(r.scan_direction) == Some(tail_to_head()),
        r.scan_completed_pages == 0,
        r.scan_completed_page_ranges@.len() == 0,
        opt_view(r.scan_target_kind) == Some(scan_target_kind@),
        r.scan_target_cate_id == target_cate_id(scan_target_kind@, cate_id),
        opt_view(r.scan_target_label) == Some(label@),
{
    SnapshotMeta {
        id,
        saved_at,
        total_count: 0,
        total_pages,
        scan_completion_percent: 0,
        scan_direction: Some(text_of_literal_tail_to_head()),
        scan_completed_pages: 0,
        scan_completed_page_ranges: Vec::new(),
        scan_target_kind: Some(scan_target_kind.to_string()),
        scan_target_cate_id: target_cate_id_exec(scan_target_kind, cate_id),
        scan_target_label: Some(label.to_string()),
    }
}

/// The meta of a new scan, with a fresh identifier and the present instant
/// as its save time; see `initial_scan_meta` for the rest.
pub fn new_scan_meta(cate_id: i64, label: &str, total_pages: i64, scan_target_kind: &str) -> (r:
    SnapshotMeta)
    ensures
        r.id@.len() == 36,
        r.id@[8] == '-' && r.id@[13] == '-' && r.id@[18] == '-' && r.id@[23] == '-',
        exists|secs: nat, millis: nat| millis < 1000 && r.saved_at@ == iso_timestamp_text(secs, millis),
        r.total_count == 0,
        r.total_pages == total_pages,
        r.scan_completion_percent == 0,
        opt_view(r.scan_direction) == Some(tail_to_head()),
        r.scan_completed_pages == 0,
        r.scan_completed_page_ranges@.len() == 0,
        opt_view(r.scan_target_kind) == Some(scan_target_kind@),
        r.scan_target_cate_id == target_cate_id(scan_target_kind@, cate_id),
        opt_view(r.scan_target_label) == Some(label@),
{
    initial_scan_meta(fresh_meta_id(), now_iso_timestamp(), cate_id, label, total_pages, scan_target_kind)
}

/// The meta of an update scan built from the summary of its snapshot file:
/// the file's identifier (a fresh one where it has none), its page count
/// where positive (else `total_pages`), its kind where given (else
/// `category`), and no page ranges.
pub fn snapshot_meta_from_summary(summary: &MetaSummary, total_pages: i64) -> (r: SnapshotMeta)
    ensures
        summary.meta_id@.len() > 0 ==> r.id@ == summary.meta_id@,
        summary.meta_id@.len() == 0 ==> r.id@.len() == 36 && r.id@[8] == '-' && r.id@[13] == '-'
            && r.id@[18] == '-' && r.id@[23] == '-',
        r.saved_at@ == summary.saved_at@,
        r.total_count == summary.total_count,
        r.total_pages == (if summary.total_pages > 0 {
            summary.total_pages
        } else {
            total_pages
        }),
        r.scan_completion_percent == summary.scan_completion_percent,
        opt_view(r.scan_direction) == Some(tail_to_head()),
        r.scan_completed_pages == summary.scan_completed_pages,
        r.scan_completed_page_ranges@.len() == 0,
        opt_view(r.scan_target_kind) == (match summary.scan_target_kind {
            Some(k) => Some(k@),
            None => Some(category_kind()),
        }),
        r.scan_target_cate_id == summary.cate_id,
        opt_view(r.scan_target_label) == Some(summary.label@),
{
    let id = if summary.meta_id.as_str().unicode_len() == 0 {
        fresh_meta_id()
    } else {
        summary.meta_id.clone()
    };
    let kind = match &summary.scan_target_kind {
        Some(k) => k.clone(),
        None => {
            let c = "category";
            proof {
                reveal_strlit("category");
            }
            c.to_string()
        },
    };
    SnapshotMeta {
        id,
        saved_at: summary.saved_at.clone(),
        total_count: summary.total_count,
        total_pages: if summary.total_pages > 0 {
            summary.total_pages
        } else {
            total_pages
        },
        scan_completion_percent: summary.scan_completion_percent,
        scan_direction: Some(text_of_literal_tail_to_head()),
        scan_completed_pages: summary.scan_completed_pages,
        scan_completed_page_ranges: Vec::new(),
        scan_target_kind: Some(kind),
        scan_target_cate_id: summary.cate_id,
        scan_target_label: Some(summary.label.clone()),
    }
}

/// The comic count of the file before an update scan, when the whole file
/// loaded: the loaded meta's count where positive (else the number of
/// comics), raised to the summary's count where that is positive.
pub open spec fn count_from_loaded(loaded_total: i64, file_count: int, summary_total: i64) -> int {
    let base = if loaded_total > 0 {
        loaded_total as int
    } else {
        file_count
    };
    if summary_total > 0 && summary_total > base {
        summary_total as int
    } else {
        base
    }
}

pub fn original_count_from_loaded(loaded_total: i64, file_count: i64, summary_total: i64) -> (r: i64)
    ensures
        r == count_from_loaded(loaded_total, file_count as int, summary_total),
{
    let base = if loaded_total > 0 {
        loaded_total
    } else {
        file_count
    };
    if summary_total > 0 && summary_total > base {
        summary_total
    } else {
        base
    }
}

/// The comic count of the file before an update scan, when only the comic
/// objects could be read: the summary's count where positive, else the
/// number of objects.
pub fn original_count_from_stream(summary_total: i64, object_count: i64) -> (r: i64)
    ensures
        r == (if summary_total > 0 {
            summary_total
        } else {
            object_count
        }),
{
    if summary_total > 0 {
        summary_total
    } else {
        object_count
    }
}

/// The IDs of some comics.
pub fn comic_id_set(comics: &[ComicInSearch]) -> (r: HashSet<i64>)
    ensures
        forall|id: i64| r@.contains(id) <==> exists|i: int| 0 <= i < comics@.len() && #[trigger] comics@[i].id == id,
{
    let mut r: HashSet<i64> = HashSet::new();
    let mut i: usize = 0;
    while i < comics.len()
        invariant
            i <= comics.len(),
            forall|id: i64| r@.contains(id) <==> exists|j: int| 0 <= j < i && #[trigger] comics@[j].id == id,
        decreases comics.len() - i,
    {
        let id = comics[i].id;
        r.insert(id);
        assert forall|x: i64| r@.contains(x) <==> exists|j: int| 0 <= j < i + 1 && #[trigger] comics@[j].id == x by {
            if r@.contains(x) && x != id {
                let j = choose|j: int| 0 <= j < i && #[trigger] comics@[j].id == x;
                assert(0 <= j < i + 1 && comics@[j].id == x);
            }
            if x == id {
                assert(comics@[i as int].id == x);
            }
        }
        i += 1;
    }
    r
}

/// Whether a snapshot's scan stopped part way: some but not all of its pages
/// were scanned. A large snapshot in that state cannot be resumed here.
pub fn is_incomplete_scan(total_pages: i64, scan_completed_pages: i64) -> (b: bool)
    ensures
        b == (total_pages > 0 && scan_completed_pages > 0 && scan_completed_pages < total_pages),
{
    total_pages > 0 && scan_completed_pages > 0 && scan_completed_pages < total_pages
}

/// A size in bytes as whole mebibytes, rounded to the nearest, a tie to the
/// even neighbour (how `{:.0}` prints `size / 1024 / 1024` as a float).
pub open spec fn mib_rounded(size: nat) -> nat {
    let q = size / 1048576;
    let r = size % 1048576;
    if r > 524288 || (r == 524288 && q % 2 == 1) {
        q + 1
    } else {
        q
    }
}

/// Why a snapshot too large to load whole cannot be resumed on the phone.
pub open spec fn large_refusal_text(size: nat, total_pages: i64, scan_completed_pages: i64) -> Seq<char> {
    if total_pages > 0 && scan_completed_pages > 0 && scan_completed_pages < total_pages {
        "快照約 "@ + dec_nat(mib_rounded(size)) + " MB，手機無法接續未完成的掃描（已掃 "@ + dec_int(
            scan_completed_pages as int,
        ) + "/"@ + dec_int(total_pages as int) + " 頁）。請在 PC 版接續後再更新。"@
    } else {
        "快照約 "@ + dec_nat(mib_rounded(size)) + " MB，手機無法接續掃描。請在 PC 版接續或完成後再以「更新」掃描。"@
    }
}

/// What opening a scan session does next, as far as it knows the snapshot
/// file so far.
#[derive(Debug, Clone, PartialEq, Eq)]
pub enum BeginPlan {
    /// No snapshot file: start from nothing.
    Fresh,
    /// The file (trimmed path) must be opened and its size given.
    NeedSize(String),
    /// An update scan: read the file's summary and the IDs of its comics.
    LoadIdsOnly(String),
    /// A resumed scan: load the whole file.
    LoadWhole(String),
    /// The file is too large to resume: its summary must be read to say why.
    NeedSummary(String),
    /// The scan is refused with this message.
    Refused(String),
}

/// The next step of opening a session: a blank or absent path starts from
/// nothing; an update scan (`idsOnly`) loads IDs only; any other scan loads
/// the whole file, unless the file has 32 MiB or more, which is refused
/// with a message that tells an unfinished scan from a finished one.
pub fn begin_plan(file_path: Option<&str>, existing_load_mode: &str, size: Option<u64>, summary: Option<&MetaSummary>) -> (r: BeginPlan)
    requires
        size matches Some(n) ==> n < 0x20_0000_0000_0000,
    ensures
        match file_path {
            None => r == BeginPlan::Fresh,
            Some(p) => if trim(p@).len() == 0 {
                r == BeginPlan::Fresh
            } else {
                match size {
                    None => (r matches BeginPlan::NeedSize(q) && q@ == trim(p@)),
                    Some(n) => if existing_load_mode@ == "idsOnly"@ {
                        (r matches BeginPlan::LoadIdsOnly(q) && q@ == trim(p@))
                    } else if n < crate::snapshot_large::LARGE_SNAPSHOT_THRESHOLD {
                        (r matches BeginPlan::LoadWhole(q) && q@ == trim(p@))
                    } else {
                        match summary {
                            None => (r matches BeginPlan::NeedSummary(q) && q@ == trim(p@)),
                            Some(m) => (r matches BeginPlan::Refused(msg) && msg@ == large_refusal_text(
                                n as nat,
                                m.total_pages,
                                m.scan_completed_pages,
                            )),
                        }
                    }
                }
            }
        },
{
    let p = match file_path {
        None => return BeginPlan::Fresh,
        Some(p) => p,
    };
    let t = trim_chars(&chars_of(p));
    if t.len() == 0 {
        return BeginPlan::Fresh;
    }
    let path = string_of(&t);
    let n = match size {
        None => return BeginPlan::NeedSize(path),
        Some(n) => n,
    };
    if text_eq(&chars_of(existing_load_mode), &chars_of("idsOnly")) {
        return BeginPlan::LoadIdsOnly(path);
    }
    if n < crate::snapshot_large::LARGE_SNAPSHOT_THRESHOLD {
        return BeginPlan::LoadWhole(path);
    }
    let m = match summary {
        None => return BeginPlan::NeedSummary(path),
        Some(m) => m,
    };
    let q = n / 1048576;
    let rem = n % 1048576;
    let mib = if rem > 524288 || (rem == 524288 && q % 2 == 1) {
        q + 1
    } else {
        q
    };
    let head = concat(&chars_of("快照約 "), &dec_u64(mib));
    let msg = if m.total_pages > 0 && m.scan_completed_pages > 0 && m.scan_completed_pages < m.total_pages {
        let a = concat(&head, &chars_of(" MB，手機無法接續未完成的掃描（已掃 "));
        let b = concat(&a, &dec_i64(m.scan_completed_pages));
        let c = concat(&b, &chars_of("/"));
        let d = concat(&c, &dec_i64(m.total_pages));
        concat(&d, &chars_of(" 頁）。請在 PC 版接續後再更新。"))
    } else {
        concat(&head, &chars_of(" MB，手機無法接續掃描。請在 PC 版接續或完成後再以「更新」掃描。"))
    };
    BeginPlan::Refused(string_of(&msg))
}

/// Whether resuming needs a snapshot too large to load whole.
pub fn is_large_snapshot(size: u64) -> (b: bool)
    ensures
        b == (size >= crate::snapshot_large::LARGE_SNAPSHOT_THRESHOLD),
{
    size >= crate::snapshot_large::LARGE_SNAPSHOT_THRESHOLD
}

/// The meta written when a session closes: the session's meta with the
/// given save time, the page progress the front end reports, and the
/// session's target.
pub fn finalized_meta(
    meta: SnapshotMeta,
    input: &SnapshotScanFinalizeInput,
    scan_target_kind: &str,
    cate_id: i64,
    label: &str,
    saved_at: String,
) -> (r: SnapshotMeta)
    ensures
        r.id == meta.id,
        r.saved_at == saved_at,
        r.total_count == meta.total_count,
        r.total_pages == input.total_pages,
        r.scan_completion_percent == input.scan_completion_percent,
        r.scan_direction == meta.scan_direction,
        r.scan_completed_pages == input.scan_completed_pages,
        r.scan_completed_page_ranges@ == input.scan_completed_page_ranges@,
        opt_view(r.scan_target_kind) == Some(scan_target_kind@),
        r.scan_target_cate_id == target_cate_id(scan_target_kind@, cate_id),
        opt_view(r.scan_target_label) == Some(label@),
{
    let mut m = meta;
    m.saved_at = saved_at;
    m.total_pages = input.total_pages;
    m.scan_completion_percent = input.scan_completion_percent;
    m.scan_completed_pages = input.scan_completed_pages;
    m.scan_completed_page_ranges = duplicate_ranges(&input.scan_completed_page_ranges);
    m.scan_target_kind = Some(scan_target_kind.to_string());
    m.scan_target_cate_id = target_cate_id_exec(scan_target_kind, cate_id);
    m.scan_target_label = Some(label.to_string());
    m
}

/// A text that is present and not blank.
pub open spec fn nonblank(o: Option<Seq<char>>) -> Option<Seq<char>> {
    match o {
        Some(v) => if trim(v).len() > 0 {
            Some(v)
        } else {
            None
        },
        None => None,
    }
}

fn nonblank_exec(o: Option<&str>) -> (r: Option<String>)
    ensures
        opt_view(r) == nonblank(match o {
            Some(v) => Some(v@),
            None => None,
        }),
{
    match o {
        Some(v) => if trim_chars(&chars_of(v)).len() > 0 {
            Some(v.to_string())
        } else {
            None
        },
        None => None,
    }
}

/// The file name a closing session publishes under, at `secs` seconds after
/// the epoch: the one the front end gave where not blank, else the export
/// name of the meta's label (the session's label where that is blank).
pub fn finalize_file_name(file_name: Option<&str>, meta_label: Option<&str>, session_label: &str, secs: u64) -> (r: String)
    ensures
        r@ == (match nonblank(match file_name {
            Some(v) => Some(v@),
            None => None,
        }) {
            Some(f) => f,
            None => export_file_name_text(
                match nonblank(match meta_label {
                    Some(v) => Some(v@),
                    None => None,
                }) {
                    Some(l) => l,
                    None => session_label@,
                },
                secs as nat,
            ),
        }),
{
    match nonblank_exec(file_name) {
        Some(f) => f,
        None => {
            let label = match nonblank_exec(meta_label) {
                Some(l) => l,
                None => session_label.to_string(),
            };
            export_snapshot_file_name_at(label.as_str(), secs)
        },
    }
}

/// The earlier snapshot a closing session replaces: the path the front end
/// gave where not blank, else the file the session was opened from.
pub fn finalize_previous_path(previous_snapshot_path: Option<&str>, source_file_path: Option<&str>) -> (r: Option<String>)
    ensures
        opt_view(r) == (match nonblank(match previous_snapshot_path {
            Some(v) => Some(v@),
            None => None,
        }) {
            Some(p) => Some(p),
            None => match source_file_path {
                Some(s) => Some(s@),
                None => None,
            },
        }),
{
    match nonblank_exec(previous_snapshot_path) {
        Some(p) => Some(p),
        None => match source_file_path {
            Some(s) => Some(s.to_string()),
            None => None,
        },
    }
}

pub open spec fn export_temp_prefix() -> Seq<char> {
    "gm-snapshot-export-"@
}

/// The temporary file a closing session writes: `gm-snapshot-export-{id}.json`
/// with every `/` of the identifier made `_`.
pub fn export_temp_file_name(session_id: &str) -> (r: String)
    ensures
        r@ == export_temp_prefix() + replace_all(session_id@, seq!['/'], seq!['_']) + ".json"@,
{
    let prefix = chars_of("gm-snapshot-export-");
    let mut slash: Vec<char> = Vec::new();
    slash.push('/');
    let mut under: Vec<char> = Vec::new();
    under.push('_');
    let body = replace_all_chars(&chars_of(session_id), &slash, &under);
    assert(slash@ =~= seq!['/']);
    assert(under@ =~= seq!['_']);
    let v = concat(&prefix, &body);
    let v = concat(&v, &chars_of(".json"));
    string_of(&v)
}

/// The comics a session collected, one per ID, in no particular order.
pub fn collected_comics(session: &SnapshotScanSession) -> (r: Vec<ComicInSearch>)
    ensures
        r@.len() == session.comics@.len(),
        r@.to_set() == session.comics@.values(),
{
    let mut r: Vec<ComicInSearch> = Vec::new();
    let values = session.comics.values();
    let ghost g = values;
    proof {
        assert(values.remaining().unref().to_set() == session.comics@.values());
        assert(values.remaining().len() == session.comics@.dom().len());
    }
    for c in it: values
        invariant
            r@ == it.seq().take(it.index() as int).map_values(|x: &ComicInSearch| *x),
            it.seq() == g.remaining(),
            g.remaining().unref().to_set() == session.comics@.values(),
    {
        r.push(c.duplicate());
        assert(it.seq().take(it.index() + 1).map_values(|x: &ComicInSearch| *x) =~= it.seq().take(
            it.index() as int,
        ).map_values(|x: &ComicInSearch| *x).push(*c));
    }
    assert(r@ =~= g.remaining().unref());
    r
}

} // verus!
