//! Large snapshot files: finding the comic objects in the raw JSON bytes,
//! merging new comics into an old snapshot, and the newest-first order.
use vstd::prelude::*;

use crate::snapshot_catalog::SnapshotMeta;
use crate::text::{
    chars_of, concat, lemma_text_lt_irreflexive, lemma_text_lt_total, lemma_text_lt_transitive,
    opt_view, text_eq, text_less, text_lt,
};
use crate::types::ComicInSearch;
use std::collections::HashSet;

verus! {

broadcast use vstd::std_specs::hash::group_hash_axioms;

/// Snapshots larger than this are not loaded whole to resume a scan.
pub const LARGE_SNAPSHOT_THRESHOLD: u64 = 33554432;

/// The bytes `"comics":`.
pub open spec fn comics_marker() -> Seq<u8> {
    seq![0x22u8, 0x63, 0x6f, 0x6d, 0x69, 0x63, 0x73, 0x22, 0x3a]
}

/// `u8::is_ascii_whitespace`.
pub open spec fn is_ascii_ws_byte(b: u8) -> bool {
    b == 0x20 || b == 0x09 || b == 0x0a || b == 0x0c || b == 0x0d
}

pub open spec fn bytes_at(data: Seq<u8>, p: Seq<u8>, i: int) -> bool {
    0 <= i && i + p.len() <= data.len() && data.subrange(i, i + p.len()) == p
}

/// Why the comic objects of a snapshot could not be found.
#[derive(Debug, Clone, Copy, PartialEq, Eq)]
pub enum SnapshotScanError {
    /// The JSON has no `"comics":` field.
    NoComicsField,
    /// What follows `"comics":` is not an array.
    ComicsNotArray,
    /// The array holds something other than an object at this offset.
    MalformedArray { offset: usize, byte: u8 },
    /// The object that starts at this offset has no end.
    UnclosedObject { start: usize },
    /// The array holds objects but none of them is a comic with an id.
    NoComicIds,
}

/// The first index at or after `i` that is not white space.
pub open spec fn skip_ws(data: Seq<u8>, i: int) -> int
    decreases data.len() - i,
{
    if 0 <= i < data.len() && is_ascii_ws_byte(data[i]) {
        skip_ws(data, i + 1)
    } else {
        i
    }
}

/// The first index at or after `i` that is neither white space nor a comma.
pub open spec fn skip_sep(data: Seq<u8>, i: int) -> int
    decreases data.len() - i,
{
    if 0 <= i < data.len() && (is_ascii_ws_byte(data[i]) || data[i] == 0x2c) {
        skip_sep(data, i + 1)
    } else {
        i
    }
}

/// Where the `comics` array begins: the index of its `[`.
pub open spec fn comics_bracket(data: Seq<u8>) -> Result<int, SnapshotScanError> {
    if exists|i: int| bytes_at(data, comics_marker(), i) {
        let pos = choose|i: int|
            bytes_at(data, comics_marker(), i) && forall|j: int|
                0 <= j < i ==> !bytes_at(data, comics_marker(), j);
        let i = skip_ws(data, pos + 9);
        if i < data.len() && data[i] == 0x5b {
            Ok(i)
        } else {
            Err(SnapshotScanError::ComicsNotArray)
        }
    } else {
        Err(SnapshotScanError::NoComicsField)
    }
}

/// State of the object scanner: brace depth, inside a string, after a
/// backslash in a string.
pub struct JsonScan {
    pub depth: int,
    pub in_string: bool,
    pub escape: bool,
}

pub open spec fn json_step(st: JsonScan, c: u8) -> JsonScan {
    if st.in_string {
        if st.escape {
            JsonScan { depth: st.depth, in_string: true, escape: false }
        } else if c == 0x5c {
            JsonScan { depth: st.depth, in_string: true, escape: true }
        } else if c == 0x22 {
            JsonScan { depth: st.depth, in_string: false, escape: false }
        } else {
            st
        }
    } else if c == 0x22 {
        JsonScan { depth: st.depth, in_string: true, escape: false }
    } else if c == 0x7b {
        JsonScan { depth: st.depth + 1, in_string: false, escape: false }
    } else if c == 0x7d {
        JsonScan { depth: st.depth - 1, in_string: false, escape: false }
    } else {
        st
    }
}

/// The scanner's state before it reads the byte at `i`, having started at
/// `start`.
pub open spec fn json_scan(data: Seq<u8>, start: int, i: int) -> JsonScan
    decreases i - start,
{
    if i <= start {
        JsonScan { depth: 0, in_string: false, escape: false }
    } else {
        json_step(json_scan(data, start, i - 1), data[i - 1])
    }
}

/// The byte at `i` is the `}` that brings the depth back to zero.
pub open spec fn closes_at(data: Seq<u8>, start: int, i: int) -> bool {
    start <= i < data.len() && !json_scan(data, start, i).in_string && data[i] == 0x7d
        && json_scan(data, start, i).depth == 1
}

/// The end (exclusive) of the JSON object that starts at `start`: one past
/// the first `}` outside strings that closes the outer brace.
pub open spec fn object_end(data: Seq<u8>, start: int) -> Option<int> {
    if exists|i: int| closes_at(data, start, i) {
        Some(
            (choose|i: int|
                closes_at(data, start, i) && forall|j: int|
                    start <= j < i ==> !closes_at(data, start, j)) + 1,
        )
    } else {
        None
    }
}

pub proof fn lemma_first_close(data: Seq<u8>, start: int, i0: int)
    requires
        closes_at(data, start, i0),
    ensures
        exists|i: int|
            closes_at(data, start, i) && forall|j: int| start <= j < i ==> !closes_at(data, start, j),
    decreases i0 - start,
{
    if exists|j: int| start <= j < i0 && closes_at(data, start, j) {
        let j = choose|j: int| start <= j < i0 && closes_at(data, start, j);
        lemma_first_close(data, start, j);
    }
}

pub proof fn lemma_object_end(data: Seq<u8>, start: int)
    ensures
        object_end(data, start) matches Some(e) ==> start < e <= data.len() && closes_at(
            data,
            start,
            e - 1,
        ),
{
    if exists|i: int| closes_at(data, start, i) {
        let i0 = choose|i: int| closes_at(data, start, i);
        lemma_first_close(data, start, i0);
    }
}

/// The byte ranges of the top-level objects of the array, from `i` on.
#[verifier::opaque]
pub open spec fn object_ranges(data: Seq<u8>, i: int) -> Result<Seq<(int, int)>, SnapshotScanError>
    decreases data.len() - i,
{
    let j = skip_sep(data, i);
    if i < 0 || j >= data.len() || data[j] == 0x5d {
        Ok(Seq::empty())
    } else if data[j] != 0x7b {
        Err(SnapshotScanError::MalformedArray { offset: j as usize, byte: data[j] })
    } else {
        match object_end(data, j) {
            None => Err(SnapshotScanError::UnclosedObject { start: j as usize }),
            Some(e) => {
                proof {
                    lemma_object_end(data, j);
                    lemma_skip_sep_ge(data, i);
                }
                match object_ranges(data, e) {
                    Ok(rest) => Ok(seq![(j, e)] + rest),
                    Err(err) => Err(err),
                }
            },
        }
    }
}

pub proof fn lemma_object_ranges_step(data: Seq<u8>, i: int)
    requires
        0 <= i,
    ensures
        ({
            let j = skip_sep(data, i);
            &&& (j >= data.len() || data[j] == 0x5d) ==> object_ranges(data, i) == Ok::<
                Seq<(int, int)>,
                SnapshotScanError,
            >(Seq::empty())
            &&& (j < data.len() && data[j] != 0x5d && data[j] != 0x7b) ==> object_ranges(data, i)
                == Err::<Seq<(int, int)>, SnapshotScanError>(
                SnapshotScanError::MalformedArray { offset: j as usize, byte: data[j] },
            )
            &&& (j < data.len() && data[j] == 0x7b && object_end(data, j) is None) ==> object_ranges(
                data,
                i,
            ) == Err::<Seq<(int, int)>, SnapshotScanError>(
                SnapshotScanError::UnclosedObject { start: j as usize },
            )
            &&& (j < data.len() && data[j] == 0x7b && object_end(data, j) is Some) ==> object_ranges(
                data,
                i,
            ) == (match object_ranges(data, object_end(data, j)->0) {
                Ok(rest) => Ok::<Seq<(int, int)>, SnapshotScanError>(
                    seq![(j, object_end(data, j)->0)] + rest,
                ),
                Err(err) => Err::<Seq<(int, int)>, SnapshotScanError>(err),
            })
        }),
{
    reveal(object_ranges);
}

pub proof fn lemma_skip_sep_ge(data: Seq<u8>, i: int)
    ensures
        skip_sep(data, i) >= i,
    decreases data.len() - i,
{
    if 0 <= i < data.len() && (is_ascii_ws_byte(data[i]) || data[i] == 0x2c) {
        lemma_skip_sep_ge(data, i + 1);
    }
}

fn is_ascii_ws_byte_exec(b: u8) -> (r: bool)
    ensures
        r == is_ascii_ws_byte(b),
{
    b == 0x20 || b == 0x09 || b == 0x0a || b == 0x0c || b == 0x0d
}

fn bytes_at_exec(data: &[u8], p: &[u8], i: usize) -> (r: bool)
    ensures
        r == bytes_at(data@, p@, i as int),
{
    if i > data.len() || p.len() > data.len() - i {
        return false;
    }
    let mut k: usize = 0;
    while k < p.len()
        invariant
            k <= p.len(),
            i + p.len() <= data.len(),
            forall|m: int| 0 <= m < k ==> data@[i + m] == p@[m],
        decreases p.len() - k,
    {
        if data[i + k] != p[k] {
            assert(data@.subrange(i as int, i + p.len())[k as int] != p@[k as int]);
            return false;
        }
        k += 1;
    }
    assert(data@.subrange(i as int, i + p.len()) =~= p@);
    true
}

/// Index of the `[` that opens the `comics` array of a snapshot.
pub fn find_comics_array_bracket(data: &[u8]) -> (r: Result<usize, SnapshotScanError>)
    ensures
        match r {
            Ok(i) => comics_bracket(data@) == Ok::<int, SnapshotScanError>(i as int),
            Err(e) => comics_bracket(data@) == Err::<int, SnapshotScanError>(e),
        },
{
    let marker: Vec<u8> = vec![0x22u8, 0x63, 0x6f, 0x6d, 0x69, 0x63, 0x73, 0x22, 0x3a];
    assert(marker@ =~= comics_marker());
    let mut pos: usize = 0;
    let mut found = false;
    while pos < data.len() && !found
        invariant
            pos <= data.len(),
            marker@ == comics_marker(),
            forall|j: int| 0 <= j < pos ==> !bytes_at(data@, comics_marker(), j),
            found ==> bytes_at(data@, comics_marker(), pos as int),
        decreases data.len() - pos + (if found { 0int } else { 1int }),
    {
        if bytes_at_exec(data, &marker, pos) {
            found = true;
        } else {
            pos += 1;
        }
    }
    if !found {
        assert forall|j: int| !bytes_at(data@, comics_marker(), j) by {
            if j >= pos {
                assert(j + 9 > data@.len());
            }
        }
        return Err(SnapshotScanError::NoComicsField);
    }
    let ghost p = choose|i: int|
        bytes_at(data@, comics_marker(), i) && forall|j: int|
            0 <= j < i ==> !bytes_at(data@, comics_marker(), j);
    assert(p == pos) by {
        if p < pos {
            assert(!bytes_at(data@, comics_marker(), p));
        }
        if p > pos {
            assert(!bytes_at(data@, comics_marker(), pos as int));
        }
    }
    let mut i = pos + 9;
    while i < data.len() && is_ascii_ws_byte_exec(data[i])
        invariant
            pos + 9 <= i <= data.len(),
            skip_ws(data@, pos + 9) == skip_ws(data@, i as int),
        decreases data.len() - i,
    {
        i += 1;
    }
    assert(skip_ws(data@, i as int) == i);
    if i >= data.len() || data[i] != 0x5b {
        return Err(SnapshotScanError::ComicsNotArray);
    }
    Ok(i)
}

/// One past the `}` that closes the object starting at `start`.
pub fn find_json_object_end(data: &[u8], start: usize) -> (r: Option<usize>)
    ensures
        match r {
            Some(e) => object_end(data@, start as int) == Some(e as int),
            None => object_end(data@, start as int) == None::<int>,
        },
{
    let mut depth: i128 = 0;
    let mut in_string = false;
    let mut escape = false;
    let mut i = start;
    while i < data.len()
        invariant
            start <= i,
            i > data.len() ==> i == start,
            ({
                let st = json_scan(data@, start as int, i as int);
                st.depth == depth && st.in_string == in_string && st.escape == escape
            }),
            -(i - start) <= depth <= i - start,
            !in_string ==> !escape,
            forall|j: int| start <= j < i ==> !closes_at(data@, start as int, j),
        decreases data.len() - i,
    {
        let c = data[i];
        if in_string {
            if escape {
                escape = false;
            } else if c == 0x5c {
                escape = true;
            } else if c == 0x22 {
                in_string = false;
            }
        } else {
            if c == 0x22 {
                in_string = true;
            } else if c == 0x7b {
                depth = depth + 1;
            } else if c == 0x7d {
                depth = depth - 1;
                if depth == 0 {
                    proof {
                        assert(json_scan(data@, start as int, i as int).depth == 1);
                        assert(closes_at(data@, start as int, i as int));
                        lemma_first_close(data@, start as int, i as int);
                        let f = choose|k: int|
                            closes_at(data@, start as int, k) && forall|j: int|
                                start <= j < k ==> !closes_at(data@, start as int, j);
                        if f < i {
                            assert(!closes_at(data@, start as int, f));
                        }
                        if f > i {
                            assert(!closes_at(data@, start as int, i as int));
                        }
                    }
                    return Some(i + 1);
                }
            }
        }
        assert(json_scan(data@, start as int, i + 1) == json_step(
            json_scan(data@, start as int, i as int),
            data@[i as int],
        ));
        i += 1;
    }
    assert forall|j: int| !closes_at(data@, start as int, j) by {}
    None
}

/// Byte ranges as pairs of integers.
pub open spec fn int_ranges(v: Seq<(usize, usize)>) -> Seq<(int, int)> {
    v.map_values(|p: (usize, usize)| (p.0 as int, p.1 as int))
}

fn skip_sep_exec(data: &[u8], i: usize) -> (j: usize)
    requires
        i <= data.len(),
    ensures
        j == skip_sep(data@, i as int),
        i <= j <= data.len(),
{
    let mut j = i;
    while j < data.len() && (is_ascii_ws_byte_exec(data[j]) || data[j] == 0x2c)
        invariant
            i <= j <= data.len(),
            skip_sep(data@, i as int) == skip_sep(data@, j as int),
        decreases data.len() - j,
    {
        j += 1;
    }
    j
}

enum RangeStep {
    Done,
    Failed(SnapshotScanError),
    Object(usize, usize),
}

/// One step of the array scan from `i`.
fn range_step(data: &[u8], i: usize) -> (r: RangeStep)
    requires
        i <= data.len(),
    ensures
        match r {
            RangeStep::Done => object_ranges(data@, i as int) == Ok::<
                Seq<(int, int)>,
                SnapshotScanError,
            >(Seq::empty()),
            RangeStep::Failed(e) => object_ranges(data@, i as int) == Err::<
                Seq<(int, int)>,
                SnapshotScanError,
            >(e),
            RangeStep::Object(start, end) => i <= start < end <= data.len() && object_ranges(
                data@,
                i as int,
            ) == (match object_ranges(data@, end as int) {
                Ok(rest) => Ok::<Seq<(int, int)>, SnapshotScanError>(
                    seq![(start as int, end as int)] + rest,
                ),
                Err(err) => Err::<Seq<(int, int)>, SnapshotScanError>(err),
            }),
        },
{
    let j = skip_sep_exec(data, i);
    proof {
        lemma_object_ranges_step(data@, i as int);
    }
    if j >= data.len() || data[j] == 0x5d {
        return RangeStep::Done;
    }
    if data[j] != 0x7b {
        return RangeStep::Failed(SnapshotScanError::MalformedArray { offset: j, byte: data[j] });
    }
    match find_json_object_end(data, j) {
        Some(e) => {
            proof {
                lemma_object_end(data@, j as int);
            }
            RangeStep::Object(j, e)
        },
        None => RangeStep::Failed(SnapshotScanError::UnclosedObject { start: j }),
    }
}

/// The byte ranges of the objects in the `comics` array whose `[` is at
/// `array_bracket`.
pub fn collect_comic_object_ranges(data: &[u8], array_bracket: usize) -> (r: Result<
    Vec<(usize, usize)>,
    SnapshotScanError,
>)
    requires
        array_bracket < data.len(),
    ensures
        match r {
            Ok(v) => object_ranges(data@, array_bracket + 1) == Ok::<
                Seq<(int, int)>,
                SnapshotScanError,
            >(int_ranges(v@)),
            Err(e) => object_ranges(data@, array_bracket + 1) == Err::<
                Seq<(int, int)>,
                SnapshotScanError,
            >(e),
        },
{
    let mut ranges: Vec<(usize, usize)> = Vec::new();
    let mut i = array_bracket + 1;
    let ghost target = object_ranges(data@, array_bracket + 1);
    assert(int_ranges(ranges@) =~= Seq::<(int, int)>::empty());
    loop
        invariant
            array_bracket + 1 <= i <= data.len(),
            target == object_ranges(data@, array_bracket + 1),
            (match object_ranges(data@, i as int) {
                Ok(rest) => target == Ok::<Seq<(int, int)>, SnapshotScanError>(
                    int_ranges(ranges@) + rest,
                ),
                Err(e) => target == Err::<Seq<(int, int)>, SnapshotScanError>(e),
            }),
        decreases data.len() - i,
    {
        match range_step(data, i) {
            RangeStep::Done => {
                assert(int_ranges(ranges@) + Seq::<(int, int)>::empty() =~= int_ranges(ranges@));
                return Ok(ranges);
            },
            RangeStep::Failed(e) => {
                return Err(e);
            },
            RangeStep::Object(start, end) => {
                let ghost before = int_ranges(ranges@);
                ranges.push((start, end));
                proof {
                    let after = int_ranges(ranges@);
                    assert(after =~= before.push((start as int, end as int)));
                    match object_ranges(data@, end as int) {
                        Ok(rest) => {
                            assert(before + (seq![(start as int, end as int)] + rest) =~= after
                                + rest);
                        },
                        Err(e) => {},
                    }
                }
                i = end;
            },
        }
    }
}


// ---------------------------------------------------------------------------
// Comic ids of a snapshot
// ---------------------------------------------------------------------------

/// The byte ranges of the comic objects of a snapshot: the objects of the
/// array that follows its first `"comics":`.
pub open spec fn comic_object_ranges(data: Seq<u8>) -> Result<Seq<(int, int)>, SnapshotScanError> {
    match comics_bracket(data) {
        Ok(b) => object_ranges(data, b + 1),
        Err(e) => Err(e),
    }
}

pub fn snapshot_comic_object_ranges(data: &[u8]) -> (r: Result<Vec<(usize, usize)>, SnapshotScanError>)
    ensures
        match r {
            Ok(v) => comic_object_ranges(data@) == Ok::<Seq<(int, int)>, SnapshotScanError>(int_ranges(v@)),
            Err(e) => comic_object_ranges(data@) == Err::<Seq<(int, int)>, SnapshotScanError>(e),
        },
{
    let bracket = match find_comics_array_bracket(data) {
        Ok(b) => b,
        Err(e) => return Err(e),
    };
    collect_comic_object_ranges(data, bracket)
}

/// The positive ids among the comics that could be read.
pub open spec fn parsed_ids(parsed: Seq<Option<i64>>) -> Set<i64> {
    Set::new(|id: i64| id > 0 && parsed.contains(Some(id)))
}

pub open spec fn positive_at(parsed: Seq<Option<i64>>, j: int) -> bool {
    parsed[j] is Some && parsed[j]->0 > 0
}

/// Some object was read as a comic with a positive id.
pub open spec fn has_parsed_id(parsed: Seq<Option<i64>>) -> bool {
    exists|j: int| 0 <= j < parsed.len() && #[trigger] positive_at(parsed, j)
}

/// The baseline of a snapshot for an update scan: the ids of the comic
/// objects that could be read (`None` for one that could not) and the number
/// of objects. An array with objects but no readable comic id is refused.
pub fn comic_baseline_from_parsed(parsed: &[Option<i64>]) -> (r: Result<
    (HashSet<i64>, usize),
    SnapshotScanError,
>)
    ensures
        match r {
            Ok((ids, n)) => ids@ == parsed_ids(parsed@) && n == parsed@.len() && (has_parsed_id(
                parsed@,
            ) || parsed@.len() == 0),
            Err(e) => e == SnapshotScanError::NoComicIds && !has_parsed_id(parsed@)
                && parsed@.len() > 0,
        },
{
    let mut ids: HashSet<i64> = HashSet::new();
    let mut found_any = false;
    let mut i: usize = 0;
    while i < parsed.len()
        invariant
            i <= parsed.len(),
            ids@ == parsed_ids(parsed@.take(i as int)),
            found_any == exists|j: int| 0 <= j < i && #[trigger] positive_at(parsed@, j),
        decreases parsed.len() - i,
    {
        proof {
            assert(parsed@.take(i + 1) =~= parsed@.take(i as int).push(parsed@[i as int]));
        }
        match parsed[i] {
            Some(id) => {
                if id > 0 {
                    ids.insert(id);
                    found_any = true;
                }
            },
            None => {},
        }
        proof {
            let t = parsed@.take(i + 1);
            assert forall|x: i64| ids@.contains(x) <==> parsed_ids(t).contains(x) by {
                if t.contains(Some(x)) && x > 0 {
                    let j = choose|j: int| 0 <= j < t.len() && t[j] == Some(x);
                    if j < i {
                        assert(parsed@.take(i as int)[j] == Some(x));
                        assert(parsed@.take(i as int).contains(Some(x)));
                    }
                }
                if parsed@.take(i as int).contains(Some(x)) {
                    let j = choose|j: int| 0 <= j < i && parsed@.take(i as int)[j] == Some(x);
                    assert(t[j] == Some(x));
                }
                if parsed@[i as int] == Some(x) {
                    assert(t[i as int] == Some(x));
                }
            }
            assert(ids@ =~= parsed_ids(t));
            if positive_at(parsed@, i as int) {
                assert(exists|j: int| 0 <= j < i + 1 && #[trigger] positive_at(parsed@, j));
            }
        }
        i += 1;
    }
    assert(parsed@.take(parsed.len() as int) =~= parsed@);
    if !found_any && parsed.len() > 0 {
        return Err(SnapshotScanError::NoComicIds);
    }
    Ok((ids, parsed.len()))
}

// ---------------------------------------------------------------------------
// Merging new comics into a snapshot
// ---------------------------------------------------------------------------

/// The ids of a list of comics.
pub open spec fn comic_ids(s: Seq<ComicInSearch>) -> Set<i64> {
    Set::new(|id: i64| exists|i: int| 0 <= i < s.len() && #[trigger] s[i].id == id)
}

/// The old comics, then each new comic whose id is positive and not yet
/// present, in the order of the batch.
pub open spec fn merged_comics(existing: Seq<ComicInSearch>, batch: Seq<ComicInSearch>) -> Seq<
    ComicInSearch,
>
    decreases batch.len(),
{
    if batch.len() == 0 {
        existing
    } else {
        let m = merged_comics(existing, batch.drop_last());
        let c = batch.last();
        if c.id <= 0 || comic_ids(m).contains(c.id) {
            m
        } else {
            m.push(c)
        }
    }
}

proof fn lemma_comic_ids_push(s: Seq<ComicInSearch>, c: ComicInSearch)
    ensures
        comic_ids(s.push(c)) == comic_ids(s).insert(c.id),
{
    assert forall|x: i64| comic_ids(s.push(c)).contains(x) <==> comic_ids(s).insert(c.id).contains(x) by {
        if comic_ids(s.push(c)).contains(x) && x != c.id {
            let i = choose|i: int| 0 <= i < s.push(c).len() && #[trigger] s.push(c)[i].id == x;
            assert(s[i].id == x);
        }
        if comic_ids(s).contains(x) {
            let i = choose|i: int| 0 <= i < s.len() && #[trigger] s[i].id == x;
            assert(s.push(c)[i].id == x);
        }
        if x == c.id {
            assert(s.push(c)[s.len() as int].id == x);
        }
    }
    assert(comic_ids(s.push(c)) =~= comic_ids(s).insert(c.id));
}

fn ids_of(v: &Vec<ComicInSearch>) -> (r: HashSet<i64>)
    ensures
        r@ == comic_ids(v@),
{
    let mut seen: HashSet<i64> = HashSet::new();
    let mut i: usize = 0;
    while i < v.len()
        invariant
            i <= v.len(),
            seen@ == comic_ids(v@.take(i as int)),
        decreases v.len() - i,
    {
        proof {
            assert(v@.take(i + 1) =~= v@.take(i as int).push(v@[i as int]));
            lemma_comic_ids_push(v@.take(i as int), v@[i as int]);
        }
        seen.insert(v[i].id());
        i += 1;
    }
    assert(v@.take(v.len() as int) =~= v@);
    seen
}

/// Keeps every old comic and appends the new ids only (`mergeComicsInto`).
pub fn merge_comics_like_pc(existing: Vec<ComicInSearch>, batch: &[ComicInSearch]) -> (r: Vec<
    ComicInSearch,
>)
    ensures
        r@ == merged_comics(existing@, batch@),
{
    let mut existing = existing;
    let mut seen = ids_of(&existing);
    let ghost ex0 = existing@;
    let mut i: usize = 0;
    while i < batch.len()
        invariant
            i <= batch.len(),
            existing@ == merged_comics(ex0, batch@.take(i as int)),
            seen@ == comic_ids(existing@),
        decreases batch.len() - i,
    {
        let comic = &batch[i];
        proof {
            assert(batch@.take(i + 1).drop_last() =~= batch@.take(i as int));
            assert(batch@.take(i + 1).last() == batch@[i as int]);
        }
        if comic.id() <= 0 || seen.contains(&comic.id()) {
            i += 1;
            continue;
        }
        seen.insert(comic.id());
        proof {
            lemma_comic_ids_push(existing@, *comic);
        }
        existing.push(comic.duplicate());
        i += 1;
    }
    assert(batch@.take(batch.len() as int) =~= batch@);
    existing
}

/// Number of new comics with a positive id that the old list lacks,
/// counting a repeated new id each time.
pub open spec fn unique_new_count(old_ids: Set<i64>, batch: Seq<ComicInSearch>) -> nat
    decreases batch.len(),
{
    if batch.len() == 0 {
        0
    } else {
        unique_new_count(old_ids, batch.drop_last()) + if batch.last().id > 0 && !old_ids.contains(
            batch.last().id,
        ) {
            1nat
        } else {
            0nat
        }
    }
}


/// The comics appended by a merge all have distinct ids.
pub open spec fn distinct_ids(s: Seq<ComicInSearch>) -> bool {
    forall|i: int, j: int| 0 <= i < j < s.len() ==> #[trigger] s[i].id != #[trigger] s[j].id
}

proof fn lemma_merged_ids(existing: Seq<ComicInSearch>, batch: Seq<ComicInSearch>)
    ensures
        forall|x: i64|
            #[trigger] comic_ids(merged_comics(existing, batch)).contains(x) <==> (comic_ids(
                existing,
            ).contains(x) || (x > 0 && comic_ids(batch).contains(x))),
    decreases batch.len(),
{
    if batch.len() > 0 {
        let b0 = batch.drop_last();
        lemma_merged_ids(existing, b0);
        let m = merged_comics(existing, b0);
        let c = batch.last();
        if !(c.id <= 0 || comic_ids(m).contains(c.id)) {
            lemma_comic_ids_push(m, c);
        }
        assert forall|x: i64| comic_ids(batch).contains(x) <==> (comic_ids(b0).contains(x) || x
            == c.id) by {
            if comic_ids(batch).contains(x) && x != c.id {
                let i = choose|i: int| 0 <= i < batch.len() && #[trigger] batch[i].id == x;
                assert(b0[i].id == x);
            }
            if comic_ids(b0).contains(x) {
                let i = choose|i: int| 0 <= i < b0.len() && #[trigger] b0[i].id == x;
                assert(batch[i].id == x);
            }
            if x == c.id {
                assert(batch[batch.len() - 1].id == x);
            }
        }
    }
}

/// Merging a batch of distinct ids adds exactly the new ids that are
/// positive and not in the old list.
pub proof fn lemma_merge_count(existing: Seq<ComicInSearch>, batch: Seq<ComicInSearch>)
    requires
        distinct_ids(batch),
    ensures
        merged_comics(existing, batch).len() == existing.len() + unique_new_count(
            comic_ids(existing),
            batch,
        ),
    decreases batch.len(),
{
    if batch.len() > 0 {
        let b0 = batch.drop_last();
        let c = batch.last();
        assert(distinct_ids(b0));
        lemma_merge_count(existing, b0);
        lemma_merged_ids(existing, b0);
        if comic_ids(b0).contains(c.id) {
            let i = choose|i: int| 0 <= i < b0.len() && #[trigger] b0[i].id == c.id;
            assert(batch[i].id != batch[batch.len() - 1].id);
        }
    }
}

/// A merge keeps the old comics, in their order, in front.
pub proof fn lemma_merge_keeps_existing(existing: Seq<ComicInSearch>, batch: Seq<ComicInSearch>)
    ensures
        merged_comics(existing, batch).len() >= existing.len(),
        merged_comics(existing, batch).take(existing.len() as int) == existing,
    decreases batch.len(),
{
    if batch.len() == 0 {
        assert(existing.take(existing.len() as int) =~= existing);
    } else {
        lemma_merge_keeps_existing(existing, batch.drop_last());
        let m = merged_comics(existing, batch.drop_last());
        assert(m.push(batch.last()).take(existing.len() as int) =~= m.take(existing.len() as int));
    }
}

proof fn lemma_merge_nothing_new(existing: Seq<ComicInSearch>, batch: Seq<ComicInSearch>)
    requires
        forall|x: i64| x > 0 && #[trigger] comic_ids(batch).contains(x) ==> comic_ids(existing).contains(x),
    ensures
        merged_comics(existing, batch) == existing,
    decreases batch.len(),
{
    if batch.len() > 0 {
        let b0 = batch.drop_last();
        assert forall|x: i64| x > 0 && #[trigger] comic_ids(b0).contains(x) implies comic_ids(
            existing,
        ).contains(x) by {
            let i = choose|i: int| 0 <= i < b0.len() && #[trigger] b0[i].id == x;
            assert(batch[i].id == x);
            assert(comic_ids(batch).contains(x));
        }
        lemma_merge_nothing_new(existing, b0);
        let c = batch.last();
        if c.id > 0 {
            assert(batch[batch.len() - 1].id == c.id);
            assert(comic_ids(batch).contains(c.id));
        }
    }
}

/// Merging the same batch a second time adds nothing.
pub proof fn lemma_merge_idempotent(existing: Seq<ComicInSearch>, batch: Seq<ComicInSearch>)
    ensures
        merged_comics(merged_comics(existing, batch), batch) == merged_comics(existing, batch),
{
    lemma_merged_ids(existing, batch);
    lemma_merge_nothing_new(merged_comics(existing, batch), batch);
}

/// The merged comic list disagrees with the expected count.
#[derive(Debug, Clone, Copy, PartialEq, Eq)]
pub struct MergeCountMismatch {
    pub merged: usize,
    pub expected: usize,
    pub old_len: usize,
    pub unique_new: usize,
}

fn unique_new_count_exec(old_ids: &HashSet<i64>, batch: &[ComicInSearch]) -> (n: usize)
    ensures
        n == unique_new_count(old_ids@, batch@),
{
    let mut n: usize = 0;
    let mut i: usize = 0;
    while i < batch.len()
        invariant
            i <= batch.len(),
            n == unique_new_count(old_ids@, batch@.take(i as int)),
            n <= i,
        decreases batch.len() - i,
    {
        proof {
            assert(batch@.take(i + 1).drop_last() =~= batch@.take(i as int));
            assert(batch@.take(i + 1).last() == batch@[i as int]);
        }
        if batch[i].id() > 0 && !old_ids.contains(&batch[i].id()) {
            n += 1;
        }
        i += 1;
    }
    assert(batch@.take(batch.len() as int) =~= batch@);
    n
}

/// The comics of an updated snapshot: the old comics with the new ids
/// appended (`upsertGlobalSnapshot`), sorted newest first with ties kept in
/// that order (a stable sort), and `meta.totalCount`
/// set to their number. A merge whose count disagrees with the old count
/// plus the new unique ids is refused.
pub fn merge_snapshot_comics(
    old_comics: Vec<ComicInSearch>,
    new_comics: &[ComicInSearch],
    meta: &mut SnapshotMeta,
) -> (r: Result<Vec<ComicInSearch>, MergeCountMismatch>)
    requires
        old_comics@.len() + new_comics@.len() <= usize::MAX,
    ensures
        ({
            let merged = merged_comics(old_comics@, new_comics@);
            let expected = old_comics@.len() + unique_new_count(comic_ids(old_comics@), new_comics@);
            match r {
                Ok(v) => merged.len() == expected && v@ == stable_sort_newest_first(merged)
                    && v@.to_multiset() == merged.to_multiset() && newest_first(v@) && final(meta).total_count == v@.len() as i64 && *final(meta)
                    == (SnapshotMeta { total_count: final(meta).total_count, ..*old(meta) }),
                Err(e) => merged.len() != expected && e == MergeCountMismatch {
                    merged: merged.len() as usize,
                    expected: expected as usize,
                    old_len: old_comics@.len() as usize,
                    unique_new: unique_new_count(comic_ids(old_comics@), new_comics@) as usize,
                } && *final(meta) == *old(meta),
            }
        }),
{
    let old_len = old_comics.len();
    let seen_old = ids_of(&old_comics);
    let unique_new = unique_new_count_exec(&seen_old, new_comics);
    proof {
        lemma_merged_len_bound(old_comics@, new_comics@);
    }
    let expected = old_len + unique_new;
    let mut merged = merge_comics_like_pc(old_comics, new_comics);
    if merged.len() != expected {
        return Err(MergeCountMismatch { merged: merged.len(), expected, old_len, unique_new });
    }
    sort_comics_create_date_desc(&mut merged);
    meta.total_count = merged.len() as i64;
    Ok(merged)
}

proof fn lemma_merged_len_bound(existing: Seq<ComicInSearch>, batch: Seq<ComicInSearch>)
    ensures
        merged_comics(existing, batch).len() <= existing.len() + batch.len(),
        unique_new_count(comic_ids(existing), batch) <= batch.len(),
    decreases batch.len(),
{
    if batch.len() > 0 {
        lemma_merged_len_bound(existing, batch.drop_last());
    }
}

// ---------------------------------------------------------------------------
// Newest-first order
// ---------------------------------------------------------------------------

/// Groups 1 to 4 of the first match of `pattern` in `text`, as the `regex`
/// crate finds them: none where the pattern does not compile or nothing
/// matches; within a match, a group that took no part is none.
pub uninterp spec fn regex_four_groups(pattern: Seq<char>, text: Seq<char>) -> Option<
    (Option<Seq<char>>, Option<Seq<char>>, Option<Seq<char>>, Option<Seq<char>>),
>;

/// Compiles `pattern` with `regex::Regex::new`, takes the first match in
/// `text` (`Regex::captures`) and gives its groups 1 to 4
/// (`Captures::get`). The contract names that result and says nothing more
/// of it.
#[verifier::external_body]
fn capture_four_groups(pattern: &str, text: &str) -> (r: Option<
    (Option<String>, Option<String>, Option<String>, Option<String>),
>)
    ensures
        match r {
            Some((a, b, c, d)) => regex_four_groups(pattern@, text@) == Some(
                (opt_view(a), opt_view(b), opt_view(c), opt_view(d)),
            ),
            None => regex_four_groups(pattern@, text@) is None,
        },
{
    let re = regex::Regex::new(pattern).ok()?;
    let c = re.captures(text)?;
    Some((
        c.get(1).map(|m| m.as_str().to_string()),
        c.get(2).map(|m| m.as_str().to_string()),
        c.get(3).map(|m| m.as_str().to_string()),
        c.get(4).map(|m| m.as_str().to_string()),
    ))
}

/// The creation note of a comic: its date, then an optional time.
pub open spec fn created_at_pattern() -> Seq<char> {
    r"創建於(\d{4}-\d{2}-\d{2})(?:\s+(\d{2}):(\d{2}):(\d{2}))?"@
}

pub open spec fn or_zeros(o: Option<Seq<char>>) -> Seq<char> {
    match o {
        Some(s) => s,
        None => seq!['0', '0'],
    }
}

pub open spec fn or_zero_date(o: Option<Seq<char>>) -> Seq<char> {
    match o {
        Some(s) => s,
        None => "0000-00-00"@,
    }
}

/// `YYYY-MM-DD hh:mm:ss` from the creation note of a comic, with a missing
/// time read as midnight; empty without a note.
pub open spec fn created_at_key(info: Seq<char>) -> Seq<char> {
    created_key_of_groups(regex_four_groups(created_at_pattern(), info))
}

/// The sort key built from what the creation-note pattern captured: the
/// date (`0000-00-00` if absent), then hour, minute and second (`00` each
/// if absent); empty without a match.
pub open spec fn created_key_of_groups(
    groups: Option<(Option<Seq<char>>, Option<Seq<char>>, Option<Seq<char>>, Option<Seq<char>>)>,
) -> Seq<char> {
    match groups {
        Some((d, h, m, s)) => or_zero_date(d) + seq![' '] + or_zeros(h) + seq![':'] + or_zeros(m)
            + seq![':'] + or_zeros(s),
        None => Seq::empty(),
    }
}

/// The optional captures as texts.
pub open spec fn groups_view(
    g: Option<(Option<String>, Option<String>, Option<String>, Option<String>)>,
) -> Option<(Option<Seq<char>>, Option<Seq<char>>, Option<Seq<char>>, Option<Seq<char>>)> {
    match g {
        Some((d, h, m, s)) => Some((opt_view(d), opt_view(h), opt_view(m), opt_view(s))),
        None => None,
    }
}

/// `a` goes before `b`: a later creation time, or the same and a larger id.
pub open spec fn goes_before(a: ComicInSearch, b: ComicInSearch) -> bool {
    let ka = created_at_key(a.additional_info@);
    let kb = created_at_key(b.additional_info@);
    text_lt(kb, ka) || (ka == kb && a.id > b.id)
}

/// Newest first: no comic goes before one that precedes it.
pub open spec fn newest_first(s: Seq<ComicInSearch>) -> bool {
    forall|i: int, j: int| 0 <= i < j < s.len() ==> !goes_before(#[trigger] s[j], #[trigger] s[i])
}

fn or_zeros_exec(o: Option<String>) -> (r: Vec<char>)
    ensures
        r@ == or_zeros(opt_view(o)),
{
    match o {
        Some(s) => chars_of(s.as_str()),
        None => {
            let z = vec!['0', '0'];
            assert(z@ =~= seq!['0', '0']);
            z
        },
    }
}

/// The sort key built from the four captures of the creation-note pattern
/// (none: the note did not match).
pub fn created_at_key_from_groups(
    groups: Option<(Option<String>, Option<String>, Option<String>, Option<String>)>,
) -> (r: Vec<char>)
    ensures
        r@ == created_key_of_groups(groups_view(groups)),
{
    match groups {
        None => Vec::new(),
        Some((d, h, m, s)) => {
            let sp = vec![' '];
            let colon = vec![':'];
            assert(sp@ =~= seq![' ']);
            assert(colon@ =~= seq![':']);
            let date = match d {
                Some(d) => chars_of(d.as_str()),
                None => chars_of("0000-00-00"),
            };
            let a = concat(&date, &sp);
            let b = concat(&a, &or_zeros_exec(h));
            let c = concat(&b, &colon);
            let e = concat(&c, &or_zeros_exec(m));
            let f = concat(&e, &colon);
            concat(&f, &or_zeros_exec(s))
        },
    }
}

fn comic_created_at_sort_key(additional_info: &str) -> (r: Vec<char>)
    ensures
        r@ == created_at_key(additional_info@),
{
    let g = capture_four_groups(
        r"創建於(\d{4}-\d{2}-\d{2})(?:\s+(\d{2}):(\d{2}):(\d{2}))?",
        additional_info,
    );
    created_at_key_from_groups(g)
}

fn goes_before_exec(a: &ComicInSearch, ka: &Vec<char>, b: &ComicInSearch, kb: &Vec<char>) -> (r:
    bool)
    requires
        ka@ == created_at_key(a.additional_info@),
        kb@ == created_at_key(b.additional_info@),
    ensures
        r == goes_before(*a, *b),
{
    text_less(kb, ka) || (text_eq(ka, kb) && a.id() > b.id())
}

proof fn lemma_goes_before_order(a: ComicInSearch, b: ComicInSearch, c: ComicInSearch)
    ensures
        !goes_before(a, a),
        goes_before(a, b) ==> !goes_before(b, a),
        goes_before(a, b) && goes_before(b, c) ==> goes_before(a, c),
        !goes_before(a, b) && !goes_before(b, a) ==> created_at_key(a.additional_info@)
            == created_at_key(b.additional_info@) && a.id == b.id,
        !goes_before(a, b) && !goes_before(b, c) ==> !goes_before(a, c),
{
    let ka = created_at_key(a.additional_info@);
    let kb = created_at_key(b.additional_info@);
    let kc = created_at_key(c.additional_info@);
    lemma_text_lt_irreflexive(ka);
    lemma_text_lt_total(ka, kb);
    lemma_text_lt_total(kb, kc);
    lemma_text_lt_total(ka, kc);
    if text_lt(kb, ka) && text_lt(kc, kb) {
        lemma_text_lt_transitive(kc, kb, ka);
    }
    if text_lt(ka, kb) && text_lt(kb, kc) {
        lemma_text_lt_transitive(ka, kb, kc);
    }
}

proof fn lemma_insert_multiset(s: Seq<ComicInSearch>, k: int, x: ComicInSearch)
    requires
        0 <= k <= s.len(),
    ensures
        s.insert(k, x).to_multiset() == s.to_multiset().insert(x),
{
    broadcast use vstd::seq_lib::group_to_multiset_ensures;

    let t = s.insert(k, x);
    assert(t.remove(k) =~= s);
    assert(t[k] == x);
    assert(t.remove(k).to_multiset() =~= t.to_multiset().remove(x));
    assert(t.to_multiset().count(x) > 0) by {
        assert(t.contains(x));
    }
    assert(t.to_multiset() =~= t.to_multiset().remove(x).insert(x));
}

/// `x` put into a newest-first list after every comic that it does not go
/// before.
pub open spec fn insert_newest_first(s: Seq<ComicInSearch>, x: ComicInSearch) -> Seq<ComicInSearch>
    decreases s.len(),
{
    if s.len() == 0 {
        seq![x]
    } else if goes_before(x, s.last()) {
        insert_newest_first(s.drop_last(), x).push(s.last())
    } else {
        s.push(x)
    }
}

/// The stable newest-first sort: each comic in turn put after every comic
/// before it that it does not go before, so comics that tie keep their
/// order.
pub open spec fn stable_sort_newest_first(s: Seq<ComicInSearch>) -> Seq<ComicInSearch>
    decreases s.len(),
{
    if s.len() == 0 {
        s
    } else {
        insert_newest_first(stable_sort_newest_first(s.drop_last()), s.last())
    }
}

proof fn lemma_insert_newest_first_at(s: Seq<ComicInSearch>, x: ComicInSearch, k: int)
    requires
        0 <= k <= s.len(),
        forall|j: int| k <= j < s.len() ==> goes_before(x, #[trigger] s[j]),
        k == 0 || !goes_before(x, s[k - 1]),
    ensures
        insert_newest_first(s, x) == s.insert(k, x),
    decreases s.len(),
{
    if s.len() == k {
        if s.len() == 0 {
            assert(s.insert(0, x) =~= seq![x]);
        } else {
            assert(s.push(x) =~= s.insert(k, x));
        }
    } else {
        let d = s.drop_last();
        assert(goes_before(x, s[s.len() - 1]));
        assert forall|j: int| k <= j < d.len() implies goes_before(x, #[trigger] d[j]) by {
            assert(d[j] == s[j]);
        }
        lemma_insert_newest_first_at(d, x, k);
        assert(d.insert(k, x).push(s.last()) =~= s.insert(k, x));
    }
}

/// Sorts comics newest first by their creation note, then by id
/// (`createDateDesc`); comics that tie keep their order.
pub fn sort_comics_create_date_desc(comics: &mut Vec<ComicInSearch>)
    ensures
        final(comics)@ == stable_sort_newest_first(old(comics)@),
        final(comics)@.to_multiset() == old(comics)@.to_multiset(),
        newest_first(final(comics)@),
{
    broadcast use vstd::seq_lib::group_to_multiset_ensures;

    let ghost orig = comics@;
    let mut out: Vec<ComicInSearch> = Vec::new();
    let mut keys: Vec<Vec<char>> = Vec::new();
    let mut i: usize = 0;
    while i < comics.len()
        invariant
            i <= comics.len(),
            comics@ == orig,
            out@.len() == keys@.len(),
            forall|j: int| 0 <= j < keys@.len() ==> (#[trigger] keys@[j])@ == created_at_key(out@[j].additional_info@),
            out@.to_multiset() == orig.take(i as int).to_multiset(),
            newest_first(out@),
            out@ == stable_sort_newest_first(orig.take(i as int)),
        decreases comics.len() - i,
    {
        let x = comics[i].duplicate();
        let kx = comic_created_at_sort_key(x.additional_info());
        let mut k = out.len();
        while k > 0 && goes_before_exec(&x, &kx, &out[k - 1], &keys[k - 1])
            invariant
                k <= out@.len(),
                out@.len() == keys@.len(),
                forall|j: int| 0 <= j < keys@.len() ==> (#[trigger] keys@[j])@ == created_at_key(out@[j].additional_info@),
                kx@ == created_at_key(x.additional_info@),
                forall|j: int| k <= j < out@.len() ==> goes_before(x, #[trigger] out@[j]),
            decreases k,
        {
            k -= 1;
        }
        let ghost before = out@;
        let ghost keys_before = keys@;
        proof {
            assert(orig.take(i + 1) =~= orig.take(i as int).push(orig[i as int]));
            orig.take(i as int).to_multiset_ensures();
            assert(orig.take(i as int).push(orig[i as int]).to_multiset() =~= orig.take(
                i as int,
            ).to_multiset().insert(orig[i as int]));
            assert forall|j: int| 0 <= j < k implies !goes_before(x, #[trigger] before[j]) by {
                if k > 0 {
                    lemma_goes_before_order(before[j], before[k - 1], x);
                    lemma_goes_before_order(x, before[k - 1], before[j]);
                }
            }
            lemma_insert_newest_first_at(before, x, k as int);
            assert(orig.take(i + 1).drop_last() =~= orig.take(i as int));
        }
        out.insert(k, x);
        keys.insert(k, kx);
        proof {
            lemma_insert_multiset(before, k as int, orig[i as int]);
            let nv = out@;
            assert(nv =~= before.insert(k as int, orig[i as int]));
            assert forall|a: int, b: int| 0 <= a < b < nv.len() implies !goes_before(
                #[trigger] nv[b],
                #[trigger] nv[a],
            ) by {
                if a < k && b < k {
                } else if a < k && b == k {
                    assert(!goes_before(x, before[a]));
                } else if a < k && b > k {
                    assert(nv[b] == before[b - 1]);
                } else if a == k {
                    assert(nv[b] == before[b - 1]);
                    assert(goes_before(x, before[b - 1]));
                    lemma_goes_before_order(x, before[b - 1], x);
                } else {
                    assert(nv[a] == before[a - 1]);
                    assert(nv[b] == before[b - 1]);
                }
            }
            assert forall|j: int| 0 <= j < keys@.len() implies (#[trigger] keys@[j])@ == created_at_key(out@[j].additional_info@) by {
                if j > k {
                    assert(keys@[j] == keys_before[j - 1]);
                }
            }
        }
        i += 1;
    }
    assert(orig.take(orig.len() as int) =~= orig);
    *comics = out;
}

} // verus!
