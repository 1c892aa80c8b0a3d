//! Names of snapshot files, the summary read from the head of a snapshot, and
//! the choices made when a snapshot is published.
use vstd::prelude::*;

use crate::calendar::{
    civil_date, clock_now, days_before_year_10000, file_timestamp, file_timestamp_text,
    lemma_civil_date, lemma_civil_year_below_10000,
};
use crate::text::{
    byte_len, chars_of, concat, contains_chars, contains_seq, ends_with, ends_with_chars,
    dec_padded, is_ascii_digit, lemma_byte_len_ascii, lemma_byte_len_bounds, lemma_byte_len_concat,
    lemma_byte_len_push, lemma_dec_padded_exact, opt_view, parse_i64, parse_i64_chars, pow10,
    replace_all, replace_all_chars, slice_vec, starts_with, starts_with_chars, string_of, trim,
    trim_chars, utf8_len,
};
use crate::utils::{filename_filter_chars, filtered_file_name};

verus! {

pub open spec fn snapshot_suffix() -> Seq<char> {
    seq!['.', 'g', 'm', '-', 's', 'n', 'a', 'p', 's', 'h', 'o', 't', '.', 'j', 's', 'o', 'n']
}

/// A `YYYY_MM_DD_HH_MM_SS` timestamp: nineteen bytes, underscores at the
/// separator places and ASCII digits elsewhere.
pub open spec fn is_snapshot_timestamp_text(v: Seq<char>) -> bool {
    &&& byte_len(v) == 19
    &&& forall|i: int|
        0 <= i < v.len() ==> if i == 4 || i == 7 || i == 10 || i == 13 || i == 16 {
            #[trigger] v[i] == '_'
        } else {
            is_ascii_digit(v[i])
        }
}

pub fn is_snapshot_timestamp(value: &str) -> (b: bool)
    ensures
        b == is_snapshot_timestamp_text(value@),
{
    let v = chars_of(value);
    if crate::text::byte_len_chars(&v) != 19 {
        return false;
    }
    let mut i: usize = 0;
    while i < v.len()
        invariant
            i <= v.len(),
            v@ == value@,
            byte_len(v@) == 19,
            forall|j: int|
                0 <= j < i ==> if j == 4 || j == 7 || j == 10 || j == 13 || j == 16 {
                    #[trigger] v@[j] == '_'
                } else {
                    is_ascii_digit(v@[j])
                },
        decreases v.len() - i,
    {
        let c = v[i];
        let ok = if i == 4 || i == 7 || i == 10 || i == 13 || i == 16 {
            c == '_'
        } else {
            '0' <= c && c <= '9'
        };
        if !ok {
            proof {
                let k = i as int;
                assert(v@[k] == c);
                if is_snapshot_timestamp_text(v@) {
                    assert(if k == 4 || k == 7 || k == 10 || k == 13 || k == 16 {
                        v@[k] == '_'
                    } else {
                        is_ascii_digit(v@[k])
                    });
                }
            }
            return false;
        }
        i += 1;
    }
    true
}

/// The file name without `.gm-snapshot.json`.
pub open spec fn snapshot_stem(name: Seq<char>) -> Seq<char> {
    if ends_with(name, snapshot_suffix()) {
        name.take(name.len() - snapshot_suffix().len())
    } else {
        name
    }
}

/// The stem with a trailing ` YYYY_MM_DD_HH_MM_SS` removed, which names the
/// same category across the snapshots of several scans.
pub open spec fn website_prefix(name: Seq<char>) -> Seq<char> {
    let stem = snapshot_stem(name);
    if byte_len(stem) > 20 && stem.len() >= 20 && stem[stem.len() - 20] == ' '
        && is_snapshot_timestamp_text(stem.skip(stem.len() - 19)) {
        stem.take(stem.len() - 20)
    } else {
        stem
    }
}

/// The stem splits into a head and a tail of twenty bytes at a character
/// boundary, or is no longer than twenty bytes (else the split panics).
pub open spec fn website_prefix_defined(name: Seq<char>) -> bool {
    let stem = snapshot_stem(name);
    byte_len(stem) > 20 ==> exists|k: int|
        0 <= k <= stem.len() && #[trigger] byte_len(stem.take(k)) + 20 == byte_len(stem)
}

proof fn lemma_byte_len_take_grows(s: Seq<char>, a: int, b: int)
    requires
        0 <= a < b <= s.len(),
    ensures
        byte_len(s.take(a)) < byte_len(s.take(b)),
    decreases b - a,
{
    assert(s.take(a + 1) =~= s.take(a).push(s[a]));
    lemma_byte_len_push(s.take(a), s[a]);
    if a + 1 < b {
        lemma_byte_len_take_grows(s, a + 1, b);
    }
}

/// Whether `website_snapshot_file_prefix` can take `file_name`.
pub fn website_prefix_is_defined(file_name: &str) -> (b: bool)
    ensures
        b == website_prefix_defined(file_name@),
{
    let name = chars_of(file_name);
    let suffix = chars_of(".gm-snapshot.json");
    proof {
        reveal_strlit(".gm-snapshot.json");
        assert(suffix@ =~= snapshot_suffix());
    }
    let stem = if ends_with_chars(&name, &suffix) {
        slice_vec(&name, 0, name.len() - suffix.len())
    } else {
        slice_vec(&name, 0, name.len())
    };
    assert(stem@ =~= snapshot_stem(file_name@));
    let total = crate::text::byte_len_chars(&stem);
    if total <= 20 {
        return true;
    }
    let target = total - 20;
    let mut acc: u128 = 0;
    let mut i: usize = 0;
    assert(stem@.take(0) =~= Seq::<char>::empty());
    while acc < target && i < stem.len()
        invariant
            i <= stem.len(),
            acc == byte_len(stem@.take(i as int)),
            acc <= 4 * i,
            target + 20 == byte_len(stem@),
            forall|k: int| 0 <= k < i ==> #[trigger] byte_len(stem@.take(k)) < target,
        decreases stem.len() - i,
    {
        let c = stem[i];
        let w: u128 = if (c as u32) < 0x80 {
            1
        } else if (c as u32) < 0x800 {
            2
        } else if (c as u32) < 0x10000 {
            3
        } else {
            4
        };
        proof {
            assert(stem@.take(i + 1) =~= stem@.take(i as int).push(c));
            lemma_byte_len_push(stem@.take(i as int), c);
        }
        acc = acc + w;
        i += 1;
    }
    proof {
        assert(stem@.take(stem@.len() as int) =~= stem@);
        if acc == target {
            assert(byte_len(stem@.take(i as int)) + 20 == byte_len(stem@));
        } else {
            assert forall|k: int| 0 <= k <= stem@.len() implies #[trigger] byte_len(stem@.take(k))
                + 20 != byte_len(stem@) by {
                if k > i {
                    lemma_byte_len_take_grows(stem@, i as int, k);
                }
            }
        }
    }
    acc == target
}

/// The part of a snapshot file name that names its category: the stem
/// without a trailing ` YYYY_MM_DD_HH_MM_SS`.
pub fn website_snapshot_file_prefix(file_name: &str) -> (r: String)
    requires
        website_prefix_defined(file_name@),
    ensures
        r@ == website_prefix(file_name@),
{
    let name = chars_of(file_name);
    let suffix = chars_of(".gm-snapshot.json");
    proof {
        reveal_strlit(".gm-snapshot.json");
        assert(suffix@ =~= snapshot_suffix());
    }
    let stem = if ends_with_chars(&name, &suffix) {
        slice_vec(&name, 0, name.len() - suffix.len())
    } else {
        slice_vec(&name, 0, name.len())
    };
    assert(stem@ =~= snapshot_stem(file_name@));
    let n = stem.len();
    if crate::text::byte_len_chars(&stem) > 20 && n >= 20 && stem[n - 20] == ' ' {
        let ts = slice_vec(&stem, n - 19, n);
        assert(ts@ =~= stem@.skip(n - 19));
        let ts_text = string_of(&ts);
        if is_snapshot_timestamp(ts_text.as_str()) {
            let head = slice_vec(&stem, 0, n - 20);
            assert(head@ =~= stem@.take(n - 20));
            return string_of(&head);
        }
    }
    string_of(&stem)
}

/// `快照`, appended to a label to name its snapshot.
pub open spec fn snapshot_word() -> Seq<char> {
    seq!['快', '照']
}

pub open spec fn snapshot_fallback() -> Seq<char> {
    seq!['s', 'n', 'a', 'p', 's', 'h', 'o', 't']
}

/// The category part of an exported snapshot's name: the trimmed label with
/// `快照` appended, made safe as a file name; `snapshot` where that is empty.
pub open spec fn export_base_name(label: Seq<char>) -> Seq<char> {
    let safe = filtered_file_name(trim(label) + snapshot_word());
    if safe.len() == 0 {
        snapshot_fallback()
    } else {
        safe
    }
}

/// `{label}快照 YYYY_MM_DD_HH_MM_SS.gm-snapshot.json` for an instant given
/// in seconds since the epoch.
pub open spec fn export_file_name_text(label: Seq<char>, secs: nat) -> Seq<char> {
    export_base_name(label) + seq![' '] + file_timestamp_text(secs) + snapshot_suffix()
}

fn export_base(label: &str) -> (r: Vec<char>)
    ensures
        r@ == export_base_name(label@),
{
    let l = trim_chars(&chars_of(label));
    let mut base = l;
    base.push('快');
    base.push('照');
    assert(base@ =~= trim(label@) + snapshot_word());
    let safe = filename_filter_chars(&base);
    if safe.len() == 0 {
        let f = chars_of("snapshot");
        proof {
            reveal_strlit("snapshot");
            assert(f@ =~= snapshot_fallback());
        }
        f
    } else {
        safe
    }
}

/// The name an exported snapshot of `scan_target_label` gets at the instant
/// `secs` seconds after the epoch.
pub fn export_snapshot_file_name_at(scan_target_label: &str, secs: u64) -> (r: String)
    ensures
        r@ == export_file_name_text(scan_target_label@, secs as nat),
{
    let base = export_base(scan_target_label);
    let ts = chars_of(file_timestamp(secs).as_str());
    let suffix = chars_of(".gm-snapshot.json");
    proof {
        reveal_strlit(".gm-snapshot.json");
        assert(suffix@ =~= snapshot_suffix());
    }
    let mut v = base;
    v.push(' ');
    let v = concat(&v, &ts);
    let v = concat(&v, &suffix);
    assert(v@ =~= export_file_name_text(scan_target_label@, secs as nat));
    string_of(&v)
}

/// The name an exported snapshot of `scan_target_label` gets now.
pub fn export_snapshot_file_name(scan_target_label: &str) -> (r: String)
    ensures
        exists|secs: nat| r@ == export_file_name_text(scan_target_label@, secs),
{
    let (secs, _) = clock_now();
    export_snapshot_file_name_at(scan_target_label, secs)
}

proof fn lemma_file_timestamp_shape(secs: nat)
    requires
        secs < days_before_year_10000() * 86400,
    ensures
        is_snapshot_timestamp_text(file_timestamp_text(secs)),
        file_timestamp_text(secs).len() == 19,
{
    let n = (secs / 86400) as int;
    lemma_civil_date(n);
    lemma_civil_year_below_10000(n);
    let date = civil_date(n);
    let tod = secs % 86400;
    assert(pow10(2) == 100 && pow10(4) == 10000) by {
        reveal_with_fuel(pow10, 5);
    }
    lemma_dec_padded_exact(date.0 as nat, 4);
    lemma_dec_padded_exact(date.1 as nat, 2);
    lemma_dec_padded_exact(date.2 as nat, 2);
    lemma_dec_padded_exact(tod / 3600, 2);
    lemma_dec_padded_exact((tod % 3600) / 60, 2);
    lemma_dec_padded_exact(tod % 60, 2);
    let a = dec_padded(date.0 as nat, 4);
    let b = dec_padded(date.1 as nat, 2);
    let c = dec_padded(date.2 as nat, 2);
    let d = dec_padded(tod / 3600, 2);
    let e = dec_padded((tod % 3600) / 60, 2);
    let f = dec_padded(tod % 60, 2);
    let u = seq!['_'];
    let t = file_timestamp_text(secs);
    assert(t == a + u + b + u + c + u + d + u + e + u + f);
    assert forall|i: int| 0 <= i < t.len() implies if i == 4 || i == 7 || i == 10 || i == 13 || i
        == 16 {
        #[trigger] t[i] == '_'
    } else {
        is_ascii_digit(t[i])
    } by {
        if i < 4 {
            assert(t[i] == a[i]);
        } else if i == 4 {
        } else if i < 7 {
            assert(t[i] == b[i - 5]);
        } else if i == 7 {
        } else if i < 10 {
            assert(t[i] == c[i - 8]);
        } else if i == 10 {
        } else if i < 13 {
            assert(t[i] == d[i - 11]);
        } else if i == 13 {
        } else if i < 16 {
            assert(t[i] == e[i - 14]);
        } else if i == 16 {
        } else {
            assert(t[i] == f[i - 17]);
        }
    }
    assert forall|i: int| 0 <= i < t.len() implies (#[trigger] t[i] as u32) < 0x80 by {
        if i == 4 || i == 7 || i == 10 || i == 13 || i == 16 {
            assert(t[i] == '_');
        } else {
            assert(is_ascii_digit(t[i]));
        }
    }
    lemma_byte_len_ascii(t);
}

/// The category part of the name of a snapshot exported for a label, at any
/// instant before the year 10000, is the label's export name: the timestamp
/// and the extension come off again.
pub proof fn lemma_export_name_prefix(label: Seq<char>, secs: nat)
    requires
        secs < days_before_year_10000() * 86400,
    ensures
        website_prefix_defined(export_file_name_text(label, secs)),
        website_prefix(export_file_name_text(label, secs)) == export_base_name(label),
{
    let base = export_base_name(label);
    let ts = file_timestamp_text(secs);
    lemma_file_timestamp_shape(secs);
    let stem = base + seq![' '] + ts;
    let name = export_file_name_text(label, secs);
    assert(name == stem + snapshot_suffix());
    assert(name.skip(name.len() - snapshot_suffix().len()) =~= snapshot_suffix());
    assert(name.take(name.len() - snapshot_suffix().len()) =~= stem);
    assert(snapshot_stem(name) == stem);
    assert(base.len() > 0);
    lemma_byte_len_bounds(base);
    assert forall|i: int| 0 <= i < ts.len() implies (#[trigger] ts[i] as u32) < 0x80 by {
        if i == 4 || i == 7 || i == 10 || i == 13 || i == 16 {
            assert(ts[i] == '_');
        } else {
            assert(is_ascii_digit(ts[i]));
        }
    }
    lemma_byte_len_ascii(ts);
    lemma_byte_len_ascii(seq![' ']);
    lemma_byte_len_concat(base, seq![' ']);
    lemma_byte_len_concat(base + seq![' '], ts);
    assert(byte_len(stem) == byte_len(base) + 20);
    assert(stem.take(base.len() as int) =~= base);
    assert(byte_len(stem.take(base.len() as int)) + 20 == byte_len(stem));
    assert(stem.len() == base.len() + 20);
    assert(stem[stem.len() - 20] == ' ');
    assert(stem.skip(stem.len() - 19) =~= ts);
    assert(stem.take(stem.len() - 20) =~= base);
}

/// What the head of a snapshot file tells before its comics are read.
#[derive(Debug, Clone)]
pub struct MetaSummary {
    pub meta_id: String,
    pub saved_at: String,
    pub total_count: i64,
    pub total_pages: i64,
    pub scan_completion_percent: i64,
    pub scan_completed_pages: i64,
    pub cate_id: Option<i64>,
    pub label: String,
    pub scan_target_kind: Option<String>,
}

/// Capture group 1 of the first match of `pattern` in `text`, as the `regex`
/// crate finds it; none where the pattern does not compile, nothing matches
/// or the group took no part.
pub uninterp spec fn regex_first_group(pattern: Seq<char>, text: Seq<char>) -> Option<Seq<char>>;

/// Compiles `pattern` with `regex::Regex::new`, takes the first match in
/// `text` (`Regex::captures`) and gives its group 1 (`Captures::get(1)`).
/// The contract names that result and says nothing more of it.
#[verifier::external_body]
fn first_capture_group(pattern: &str, text: &str) -> (r: Option<String>)
    ensures
        opt_view(r) == regex_first_group(pattern@, text@),
{
    let re = regex::Regex::new(pattern).ok()?;
    let caps = re.captures(text)?;
    caps.get(1).map(|m| m.as_str().to_string())
}

/// `"key"\s*:\s*(-?\d+)`: a JSON number field.
pub open spec fn number_field_pattern(key: Seq<char>) -> Seq<char> {
    seq!['"'] + key + seq!['"', '\\', 's', '*', ':', '\\', 's', '*', '(', '-', '?', '\\', 'd', '+', ')']
}

/// `"key"\s*:\s*"((?:\\.|[^"\\])*)"`: a JSON string field.
pub open spec fn text_field_pattern(key: Seq<char>) -> Seq<char> {
    seq!['"'] + key + seq![
        '"',
        '\\',
        's',
        '*',
        ':',
        '\\',
        's',
        '*',
        '"',
        '(',
        '(',
        '?',
        ':',
        '\\',
        '\\',
        '.',
        '|',
        '[',
        '^',
        '"',
        '\\',
        '\\',
        ']',
        ')',
        '*',
        ')',
        '"',
    ]
}

/// A captured JSON string with its escaped quotes and backslashes undone, in
/// that order.
pub open spec fn unescape_json_text(c: Seq<char>) -> Seq<char> {
    replace_all(replace_all(c, seq!['\\', '"'], seq!['"']), seq!['\\', '\\'], seq!['\\'])
}

/// The number in field `key`, by the first match of its pattern.
pub open spec fn summary_number(text: Seq<char>, key: Seq<char>) -> Option<i64> {
    match regex_first_group(number_field_pattern(key), text) {
        Some(c) => parse_i64(c),
        None => None,
    }
}

/// The text in field `key`, by the first match of its pattern.
pub open spec fn summary_text(text: Seq<char>, key: Seq<char>) -> Option<Seq<char>> {
    match regex_first_group(text_field_pattern(key), text) {
        Some(c) => Some(unescape_json_text(c)),
        None => None,
    }
}

/// The number a captured field holds, where it parses as an `i64`.
pub fn i64_from_capture(capture: Option<String>) -> (r: Option<i64>)
    ensures
        r == (match opt_view(capture) {
            Some(c) => parse_i64(c),
            None => None,
        }),
{
    match capture {
        Some(c) => parse_i64_chars(&chars_of(c.as_str())),
        None => None,
    }
}

/// The text a captured field holds, unescaped.
pub fn text_from_capture(capture: Option<String>) -> (r: Option<String>)
    ensures
        opt_view(r) == (match opt_view(capture) {
            Some(c) => Some(unescape_json_text(c)),
            None => None,
        }),
{
    match capture {
        Some(c) => {
            let v = chars_of(c.as_str());
            let mut quote_pat: Vec<char> = Vec::new();
            quote_pat.push('\\');
            quote_pat.push('"');
            let mut quote: Vec<char> = Vec::new();
            quote.push('"');
            let mut slash_pat: Vec<char> = Vec::new();
            slash_pat.push('\\');
            slash_pat.push('\\');
            let mut slash: Vec<char> = Vec::new();
            slash.push('\\');
            let once = replace_all_chars(&v, &quote_pat, &quote);
            let twice = replace_all_chars(&once, &slash_pat, &slash);
            assert(quote_pat@ =~= seq!['\\', '"']);
            assert(quote@ =~= seq!['"']);
            assert(slash_pat@ =~= seq!['\\', '\\']);
            assert(slash@ =~= seq!['\\']);
            Some(string_of(&twice))
        },
        None => None,
    }
}

fn read_number_field(text: &str, key: &str) -> (r: Option<i64>)
    ensures
        r == summary_number(text@, key@),
{
    let mut p: Vec<char> = Vec::new();
    p.push('"');
    let p = concat(&p, &chars_of(key));
    let tail = chars_of("\"\\s*:\\s*(-?\\d+)");
    proof {
        reveal_strlit("\"\\s*:\\s*(-?\\d+)");
        assert(tail@ =~= seq![
            '"',
            '\\',
            's',
            '*',
            ':',
            '\\',
            's',
            '*',
            '(',
            '-',
            '?',
            '\\',
            'd',
            '+',
            ')',
        ]);
    }
    let p = concat(&p, &tail);
    assert(p@ =~= number_field_pattern(key@));
    let pattern = string_of(&p);
    i64_from_capture(first_capture_group(pattern.as_str(), text))
}

fn read_text_field(text: &str, key: &str) -> (r: Option<String>)
    ensures
        opt_view(r) == summary_text(text@, key@),
{
    let mut p: Vec<char> = Vec::new();
    p.push('"');
    let p = concat(&p, &chars_of(key));
    let tail = chars_of("\"\\s*:\\s*\"((?:\\\\.|[^\"\\\\])*)\"");
    proof {
        reveal_strlit("\"\\s*:\\s*\"((?:\\\\.|[^\"\\\\])*)\"");
        assert(tail@ =~= seq![
            '"',
            '\\',
            's',
            '*',
            ':',
            '\\',
            's',
            '*',
            '"',
            '(',
            '(',
            '?',
            ':',
            '\\',
            '\\',
            '.',
            '|',
            '[',
            '^',
            '"',
            '\\',
            '\\',
            ']',
            ')',
            '*',
            ')',
            '"',
        ]);
    }
    let p = concat(&p, &tail);
    assert(p@ =~= text_field_pattern(key@));
    let pattern = string_of(&p);
    text_from_capture(first_capture_group(pattern.as_str(), text))
}

/// A field's value where present, else the given default.
pub open spec fn number_or(o: Option<i64>, d: i64) -> i64 {
    match o {
        Some(v) => v,
        None => d,
    }
}

/// A text that is present and not empty.
pub open spec fn nonempty_text(o: Option<Seq<char>>) -> Option<Seq<char>> {
    match o {
        Some(v) => if v.len() > 0 {
            Some(v)
        } else {
            None
        },
        None => None,
    }
}

/// Reads the meta fields of a snapshot from the head of its text: each field
/// by the first match of its pattern, `0` for a missing number, an empty text
/// for a missing identifier or time, and `fallback_label` for a missing or
/// empty label.
pub fn read_meta_summary_from_text(text: &str, fallback_label: &str) -> (r: MetaSummary)
    ensures
        r.cate_id == summary_number(text@, "scanTargetCateId"@),
        r.label@ == (match nonempty_text(summary_text(text@, "scanTargetLabel"@)) {
            Some(l) => l,
            None => fallback_label@,
        }),
        opt_view(r.scan_target_kind) == nonempty_text(summary_text(text@, "scanTargetKind"@)),
        r.meta_id@ == (match summary_text(text@, "id"@) {
            Some(v) => v,
            None => Seq::<char>::empty(),
        }),
        r.saved_at@ == (match summary_text(text@, "savedAt"@) {
            Some(v) => v,
            None => Seq::<char>::empty(),
        }),
        r.total_count == number_or(summary_number(text@, "totalCount"@), 0),
        r.total_pages == number_or(summary_number(text@, "totalPages"@), 0),
        r.scan_completion_percent == number_or(summary_number(text@, "scanCompletionPercent"@), 0),
        r.scan_completed_pages == number_or(summary_number(text@, "scanCompletedPages"@), 0),
{
    let cate_id = read_number_field(text, "scanTargetCateId");
    let label = match read_text_field(text, "scanTargetLabel") {
        Some(l) => if l.as_str().unicode_len() > 0 {
            l
        } else {
            fallback_label.to_string()
        },
        None => fallback_label.to_string(),
    };
    let scan_target_kind = match read_text_field(text, "scanTargetKind") {
        Some(k) => if k.as_str().unicode_len() > 0 {
            Some(k)
        } else {
            None
        },
        None => None,
    };
    let meta_id = match read_text_field(text, "id") {
        Some(v) => v,
        None => String::new(),
    };
    let saved_at = match read_text_field(text, "savedAt") {
        Some(v) => v,
        None => String::new(),
    };
    let total_count = match read_number_field(text, "totalCount") {
        Some(v) => v,
        None => 0,
    };
    let total_pages = match read_number_field(text, "totalPages") {
        Some(v) => v,
        None => 0,
    };
    let scan_completion_percent = match read_number_field(text, "scanCompletionPercent") {
        Some(v) => v,
        None => 0,
    };
    let scan_completed_pages = match read_number_field(text, "scanCompletedPages") {
        Some(v) => v,
        None => 0,
    };
    MetaSummary {
        meta_id,
        saved_at,
        total_count,
        total_pages,
        scan_completion_percent,
        scan_completed_pages,
        cate_id,
        label,
        scan_target_kind,
    }
}

/// Whether a file name is that of a favourites archive rather than a
/// category snapshot.
pub fn is_favorite_archive_snapshot_file_name(name: &str) -> (b: bool)
    ensures
        b == (starts_with(name@, "收藏漫畫存檔_"@) || starts_with(name@, "收藏分頁存檔_"@)),
{
    let n = chars_of(name);
    let a = chars_of("收藏漫畫存檔_");
    let b = chars_of("收藏分頁存檔_");
    starts_with_chars(&n, &a) || starts_with_chars(&n, &b)
}

/// Whether a file's text is that of a favourites archive.
pub fn is_favorite_archive_snapshot_text(text: &str) -> (b: bool)
    ensures
        b == (contains_seq(text@, "gentleman-manager.favorite-comics.v1"@) || contains_seq(
            text@,
            "gentleman-manager.favorite-tabs.v1"@,
        )),
{
    let t = chars_of(text);
    let a = chars_of("gentleman-manager.favorite-comics.v1");
    let b = chars_of("gentleman-manager.favorite-tabs.v1");
    contains_chars(&t, &a) || contains_chars(&t, &b)
}

/// The local file a publish replaces: the given path, trimmed, unless it is
/// missing, blank or a `content://` document.
pub fn previous_snapshot_to_delete(previous_snapshot_path: Option<&str>) -> (r: Option<String>)
    ensures
        opt_view(r) == (match previous_snapshot_path {
            Some(p) => if trim(p@).len() == 0 || starts_with(p@, "content://"@) {
                None
            } else {
                Some(trim(p@))
            },
            None => None,
        }),
{
    match previous_snapshot_path {
        None => None,
        Some(p) => {
            let v = chars_of(p);
            let t = trim_chars(&v);
            let scheme = chars_of("content://");
            if t.len() == 0 || starts_with_chars(&v, &scheme) {
                None
            } else {
                Some(string_of(&t))
            }
        },
    }
}

/// The name a snapshot is published under: the given name made safe as a
/// file name; none where nothing is left of it.
pub fn checked_snapshot_file_name(file_name: &str) -> (r: Option<String>)
    ensures
        opt_view(r) == (if filtered_file_name(file_name@).len() == 0 {
            None
        } else {
            Some(filtered_file_name(file_name@))
        }),
{
    let f = filename_filter_chars(&chars_of(file_name));
    if f.len() == 0 {
        None
    } else {
        Some(string_of(&f))
    }
}

} // verus!
