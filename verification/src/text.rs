//! Character-level text operations shared by the name, path and page parsers.
//!
//! Texts are handled as sequences of Unicode scalar values (`Seq<char>`);
//! where the behaviour depends on the UTF-8 byte length of a text, the byte
//! length is computed from the characters.
use vstd::prelude::*;

verus! {

/// Unicode `White_Space` characters, as `char::is_whitespace` documents them.
pub open spec fn is_white_space(c: char) -> bool {
    ||| ('\u{9}' <= c && c <= '\u{d}')
    ||| c == ' '
    ||| c == '\u{85}'
    ||| c == '\u{a0}'
    ||| c == '\u{1680}'
    ||| ('\u{2000}' <= c && c <= '\u{200a}')
    ||| c == '\u{2028}'
    ||| c == '\u{2029}'
    ||| c == '\u{202f}'
    ||| c == '\u{205f}'
    ||| c == '\u{3000}'
}

/// The text without its leading white space.
pub open spec fn trim_start(s: Seq<char>) -> Seq<char>
    decreases s.len(),
{
    if s.len() > 0 && is_white_space(s[0]) {
        trim_start(s.drop_first())
    } else {
        s
    }
}

/// The text without its trailing white space.
pub open spec fn trim_end(s: Seq<char>) -> Seq<char>
    decreases s.len(),
{
    if s.len() > 0 && is_white_space(s.last()) {
        trim_end(s.drop_last())
    } else {
        s
    }
}

/// The text without leading and trailing white space (`str::trim`).
pub open spec fn trim(s: Seq<char>) -> Seq<char> {
    trim_end(trim_start(s))
}

pub open spec fn starts_with(s: Seq<char>, p: Seq<char>) -> bool {
    p.len() <= s.len() && s.take(p.len() as int) == p
}

pub open spec fn ends_with(s: Seq<char>, p: Seq<char>) -> bool {
    p.len() <= s.len() && s.skip(s.len() - p.len()) == p
}

/// `p` occurs in `s` starting at index `i`.
pub open spec fn occurs_at(s: Seq<char>, p: Seq<char>, i: int) -> bool {
    0 <= i && i + p.len() <= s.len() && s.subrange(i, i + p.len()) == p
}

pub open spec fn contains_seq(s: Seq<char>, p: Seq<char>) -> bool {
    exists|i: int| occurs_at(s, p, i)
}

/// Index of the first occurrence of `p` in `s` (meaningful when there is one).
pub open spec fn first_occurrence(s: Seq<char>, p: Seq<char>) -> int {
    choose|k: int| occurs_at(s, p, k) && forall|j: int| 0 <= j < k ==> !occurs_at(s, p, j)
}

/// `s` with every non-overlapping occurrence of the non-empty `p` removed,
/// scanning from the left (`str::replace(p, "")`).
pub open spec fn remove_all(s: Seq<char>, p: Seq<char>) -> Seq<char>
    decreases s.len(),
{
    if p.len() == 0 || s.len() < p.len() {
        s
    } else if starts_with(s, p) {
        remove_all(s.skip(p.len() as int), p)
    } else {
        seq![s[0]] + remove_all(s.drop_first(), p)
    }
}

/// Number of bytes of `c` in UTF-8 (`char::len_utf8`).
pub open spec fn utf8_len(c: char) -> nat {
    if (c as u32) < 0x80 {
        1
    } else if (c as u32) < 0x800 {
        2
    } else if (c as u32) < 0x10000 {
        3
    } else {
        4
    }
}

/// Number of bytes of the text in UTF-8 (`str::len`).
pub open spec fn byte_len(s: Seq<char>) -> nat
    decreases s.len(),
{
    if s.len() == 0 {
        0
    } else {
        byte_len(s.drop_last()) + utf8_len(s.last())
    }
}

pub open spec fn is_ascii_alpha(c: char) -> bool {
    ('a' <= c && c <= 'z') || ('A' <= c && c <= 'Z')
}

pub open spec fn is_ascii_digit(c: char) -> bool {
    '0' <= c && c <= '9'
}

/// Lexicographic order of texts by character code, which is the order of
/// their UTF-8 bytes (`Ord for str`).
pub open spec fn text_lt(a: Seq<char>, b: Seq<char>) -> bool
    decreases a.len(),
{
    if a.len() == 0 {
        b.len() > 0
    } else if b.len() == 0 {
        false
    } else if a[0] != b[0] {
        a[0] < b[0]
    } else {
        text_lt(a.drop_first(), b.drop_first())
    }
}

/// Digits of a natural number in base ten.
pub open spec fn dec_nat(n: nat) -> Seq<char>
    decreases n,
{
    if n < 10 {
        seq![digit_char(n)]
    } else {
        dec_nat(n / 10) + seq![digit_char(n % 10)]
    }
}

pub open spec fn digit_char(d: nat) -> char {
    if d == 0 {
        '0'
    } else if d == 1 {
        '1'
    } else if d == 2 {
        '2'
    } else if d == 3 {
        '3'
    } else if d == 4 {
        '4'
    } else if d == 5 {
        '5'
    } else if d == 6 {
        '6'
    } else if d == 7 {
        '7'
    } else if d == 8 {
        '8'
    } else {
        '9'
    }
}

/// Decimal text of an integer, as `Display` writes it.
pub open spec fn dec_int(i: int) -> Seq<char> {
    if i < 0 {
        seq!['-'] + dec_nat((-i) as nat)
    } else {
        dec_nat(i as nat)
    }
}

/// Decimal text padded with zeros on the left to at least `width` digits
/// (`{:0width$}` for a non-negative integer).
pub open spec fn dec_padded(n: nat, width: nat) -> Seq<char> {
    let d = dec_nat(n);
    if d.len() >= width {
        d
    } else {
        Seq::new((width - d.len()) as nat, |i: int| '0') + d
    }
}

/// Value of a sequence of ASCII digits.
pub open spec fn digits_value(s: Seq<char>) -> nat
    decreases s.len(),
{
    if s.len() == 0 {
        0
    } else {
        digits_value(s.drop_last()) * 10 + ((s.last() as u32) - ('0' as u32)) as nat
    }
}

pub open spec fn all_digits(s: Seq<char>) -> bool {
    forall|i: int| 0 <= i < s.len() ==> is_ascii_digit(#[trigger] s[i])
}

/// What `str::parse::<u32>` gives: an optional `+`, then at least one ASCII
/// digit, and a value that fits.
pub open spec fn parse_u32(s: Seq<char>) -> Option<u32> {
    let digits = if s.len() > 0 && s[0] == '+' {
        s.drop_first()
    } else {
        s
    };
    if digits.len() == 0 || !all_digits(digits) || digits_value(digits) > u32::MAX {
        None
    } else {
        Some(digits_value(digits) as u32)
    }
}

/// What `str::parse::<u16>` gives.
pub open spec fn parse_u16(s: Seq<char>) -> Option<u16> {
    let digits = if s.len() > 0 && s[0] == '+' {
        s.drop_first()
    } else {
        s
    };
    if digits.len() == 0 || !all_digits(digits) || digits_value(digits) > u16::MAX {
        None
    } else {
        Some(digits_value(digits) as u16)
    }
}

/// What `str::parse::<i64>` gives: an optional sign, then at least one ASCII
/// digit, and a value that fits.
pub open spec fn parse_i64(s: Seq<char>) -> Option<i64> {
    let neg = s.len() > 0 && s[0] == '-';
    let digits = if s.len() > 0 && (s[0] == '+' || s[0] == '-') {
        s.drop_first()
    } else {
        s
    };
    if digits.len() == 0 || !all_digits(digits) {
        None
    } else if neg {
        if digits_value(digits) <= 0x8000_0000_0000_0000 {
            Some((0 - digits_value(digits)) as i64)
        } else {
            None
        }
    } else if digits_value(digits) <= i64::MAX {
        Some(digits_value(digits) as i64)
    } else {
        None
    }
}

/// `s` with every non-overlapping occurrence of the non-empty `p` replaced by
/// `q`, scanning from the left (`str::replace`).
pub open spec fn replace_all(s: Seq<char>, p: Seq<char>, q: Seq<char>) -> Seq<char>
    decreases s.len(),
{
    if p.len() == 0 || s.len() < p.len() {
        s
    } else if starts_with(s, p) {
        q + replace_all(s.skip(p.len() as int), p, q)
    } else {
        seq![s[0]] + replace_all(s.drop_first(), p, q)
    }
}

/// The first index of `s` holding a character of `seps`, if any.
pub open spec fn first_sep(s: Seq<char>, seps: Seq<char>) -> int {
    choose|k: int|
        0 <= k < s.len() && seps.contains(s[k]) && forall|j: int|
            0 <= j < k ==> !seps.contains(#[trigger] s[j])
}

pub open spec fn has_sep(s: Seq<char>, seps: Seq<char>) -> bool {
    exists|k: int| 0 <= k < s.len() && seps.contains(#[trigger] s[k])
}

/// The pieces of `s` between the characters of `seps` (`str::split` with a
/// set of characters): always at least one piece, possibly empty ones.
#[verifier::opaque]
pub open spec fn split_on(s: Seq<char>, seps: Seq<char>) -> Seq<Seq<char>>
    decreases s.len(),
{
    if has_sep(s, seps) {
        let k = first_sep(s, seps);
        if 0 <= k < s.len() {
            seq![s.take(k)] + split_on(s.skip(k + 1), seps)
        } else {
            seq![s]
        }
    } else {
        seq![s]
    }
}

/// Index of the first `c` in `s`.
pub open spec fn first_index_of(s: Seq<char>, c: char) -> int {
    choose|k: int| 0 <= k < s.len() && s[k] == c && forall|j: int| 0 <= j < k ==> s[j] != c
}

/// Index of the last `c` in `s`.
pub open spec fn last_index_of(s: Seq<char>, c: char) -> int {
    choose|k: int| 0 <= k < s.len() && s[k] == c && forall|j: int| k < j < s.len() ==> s[j] != c
}

/// The text of an optional string.
pub open spec fn opt_view(o: Option<String>) -> Option<Seq<char>> {
    match o {
        Some(s) => Some(s@),
        None => None,
    }
}

/// The texts held by a vector of character vectors.
pub open spec fn views(v: Seq<Vec<char>>) -> Seq<Seq<char>> {
    v.map_values(|x: Vec<char>| x@)
}

/// Texts in strictly increasing order, so without repeats.
pub open spec fn strictly_sorted(v: Seq<Seq<char>>) -> bool {
    forall|i: int, j: int| 0 <= i < j < v.len() ==> text_lt(#[trigger] v[i], #[trigger] v[j])
}

// ---------------------------------------------------------------------------
// Lemmas
// ---------------------------------------------------------------------------


proof fn lemma_first_sep(s: Seq<char>, seps: Seq<char>)
    requires
        has_sep(s, seps),
    ensures
        0 <= first_sep(s, seps) < s.len(),
        seps.contains(s[first_sep(s, seps)]),
        forall|j: int| 0 <= j < first_sep(s, seps) ==> !seps.contains(#[trigger] s[j]),
    decreases s.len(),
{
    let k0 = choose|k: int| 0 <= k < s.len() && seps.contains(#[trigger] s[k]);
    lemma_min_sep(s, seps, k0);
}

proof fn lemma_min_sep(s: Seq<char>, seps: Seq<char>, k0: int)
    requires
        0 <= k0 < s.len(),
        seps.contains(s[k0]),
    ensures
        exists|k: int|
            0 <= k < s.len() && seps.contains(s[k]) && forall|j: int|
                0 <= j < k ==> !seps.contains(#[trigger] s[j]),
    decreases k0,
{
    if exists|j: int| 0 <= j < k0 && seps.contains(#[trigger] s[j]) {
        let j = choose|j: int| 0 <= j < k0 && seps.contains(#[trigger] s[j]);
        lemma_min_sep(s, seps, j);
    } else {
        assert(forall|j: int| 0 <= j < k0 ==> !seps.contains(#[trigger] s[j]));
    }
}

/// The pieces after the first separator.
proof fn lemma_split_on_step(s: Seq<char>, seps: Seq<char>, k: int)
    requires
        0 <= k < s.len(),
        seps.contains(s[k]),
        forall|j: int| 0 <= j < k ==> !seps.contains(#[trigger] s[j]),
    ensures
        split_on(s, seps) == seq![s.take(k)] + split_on(s.skip(k + 1), seps),
{
    reveal(split_on);
    assert(has_sep(s, seps));
    lemma_first_sep(s, seps);
    let f = first_sep(s, seps);
    if f < k {
        assert(!seps.contains(s[f]));
    }
    if f > k {
        assert(!seps.contains(s[k]));
    }
}

proof fn lemma_split_on_none(s: Seq<char>, seps: Seq<char>)
    requires
        forall|j: int| 0 <= j < s.len() ==> !seps.contains(#[trigger] s[j]),
    ensures
        split_on(s, seps) == seq![s],
{
    reveal(split_on);
}

/// No piece of a split holds a separator.
pub proof fn lemma_split_on_pieces(s: Seq<char>, seps: Seq<char>)
    ensures
        forall|i: int, j: int|
            0 <= i < split_on(s, seps).len() && 0 <= j < split_on(s, seps)[i].len() ==> !seps.contains(
                #[trigger] split_on(s, seps)[i][j],
            ),
    decreases s.len(),
{
    reveal(split_on);
    if has_sep(s, seps) {
        lemma_first_sep(s, seps);
        let k = first_sep(s, seps);
        lemma_split_on_pieces(s.skip(k + 1), seps);
        let rest = split_on(s.skip(k + 1), seps);
        assert forall|i: int, j: int|
            0 <= i < split_on(s, seps).len() && 0 <= j < split_on(s, seps)[i].len() implies !seps.contains(
                #[trigger] split_on(s, seps)[i][j],
            ) by {
            if i == 0 {
                assert(split_on(s, seps)[0] == s.take(k));
                assert(s.take(k)[j] == s[j]);
            } else {
                assert(split_on(s, seps)[i] == rest[i - 1]);
            }
        }
    }
}

/// Splitting a text with a separator-free front: the front joins the first
/// piece, the other pieces stay.
pub proof fn lemma_split_on_front(p: Seq<char>, r: Seq<char>, seps: Seq<char>)
    requires
        forall|j: int| 0 <= j < p.len() ==> !seps.contains(#[trigger] p[j]),
    ensures
        split_on(p + r, seps).len() == split_on(r, seps).len(),
        split_on(p + r, seps)[0] == p + split_on(r, seps)[0],
        forall|i: int| 1 <= i < split_on(r, seps).len() ==> #[trigger] split_on(p + r, seps)[i] == split_on(r, seps)[i],
{
    reveal(split_on);
    let s = p + r;
    if has_sep(r, seps) {
        lemma_first_sep(r, seps);
        let k = first_sep(r, seps);
        assert(s[p.len() + k] == r[k]);
        assert forall|j: int| 0 <= j < p.len() + k implies !seps.contains(#[trigger] s[j]) by {
            if j < p.len() {
                assert(s[j] == p[j]);
            } else {
                assert(s[j] == r[j - p.len()]);
            }
        }
        lemma_split_on_step(s, seps, p.len() + k);
        lemma_split_on_step(r, seps, k);
        assert(s.take(p.len() + k) =~= p + r.take(k));
        assert(s.skip(p.len() + k + 1) =~= r.skip(k + 1));
    } else {
        assert forall|j: int| 0 <= j < s.len() implies !seps.contains(#[trigger] s[j]) by {
            if j < p.len() {
                assert(s[j] == p[j]);
            } else {
                assert(s[j] == r[j - p.len()]);
                if seps.contains(r[j - p.len()]) {
                    assert(has_sep(r, seps));
                }
            }
        }
        lemma_split_on_none(s, seps);
        assert forall|j: int| 0 <= j < r.len() implies !seps.contains(#[trigger] r[j]) by {
            if seps.contains(r[j]) {
                assert(has_sep(r, seps));
            }
        }
        lemma_split_on_none(r, seps);
    }
}

/// Splitting a text with a separator-free end: the end joins the last
/// piece, the other pieces stay.
pub proof fn lemma_split_on_back(r: Seq<char>, w: Seq<char>, seps: Seq<char>)
    requires
        forall|j: int| 0 <= j < w.len() ==> !seps.contains(#[trigger] w[j]),
    ensures
        split_on(r + w, seps).len() == split_on(r, seps).len(),
        split_on(r + w, seps).last() == split_on(r, seps).last() + w,
        forall|i: int| 0 <= i < split_on(r, seps).len() - 1 ==> #[trigger] split_on(r + w, seps)[i] == split_on(r, seps)[i],
    decreases r.len(),
{
    reveal(split_on);
    let s = r + w;
    if has_sep(r, seps) {
        lemma_first_sep(r, seps);
        let k = first_sep(r, seps);
        assert(s[k] == r[k]);
        assert forall|j: int| 0 <= j < k implies !seps.contains(#[trigger] s[j]) by {
            assert(s[j] == r[j]);
        }
        lemma_split_on_step(s, seps, k);
        lemma_split_on_step(r, seps, k);
        assert(s.take(k) =~= r.take(k));
        assert(s.skip(k + 1) =~= r.skip(k + 1) + w);
        lemma_split_on_back(r.skip(k + 1), w, seps);
        let a = split_on(r.skip(k + 1) + w, seps);
        let b = split_on(r.skip(k + 1), seps);
        assert forall|i: int| 0 <= i < split_on(r, seps).len() - 1 implies #[trigger] split_on(r + w, seps)[i] == split_on(r, seps)[i] by {
            if i > 0 {
                assert(split_on(r + w, seps)[i] == a[i - 1]);
                assert(split_on(r, seps)[i] == b[i - 1]);
            }
        }
    } else {
        assert forall|j: int| 0 <= j < s.len() implies !seps.contains(#[trigger] s[j]) by {
            if j < r.len() {
                assert(s[j] == r[j]);
                if seps.contains(r[j]) {
                    assert(has_sep(r, seps));
                }
            } else {
                assert(s[j] == w[j - r.len()]);
            }
        }
        lemma_split_on_none(s, seps);
        assert forall|j: int| 0 <= j < r.len() implies !seps.contains(#[trigger] r[j]) by {
            if seps.contains(r[j]) {
                assert(has_sep(r, seps));
            }
        }
        lemma_split_on_none(r, seps);
    }
}

pub proof fn lemma_text_lt_irreflexive(a: Seq<char>)
    ensures
        !text_lt(a, a),
    decreases a.len(),
{
    if a.len() > 0 {
        lemma_text_lt_irreflexive(a.drop_first());
    }
}

pub proof fn lemma_text_lt_transitive(a: Seq<char>, b: Seq<char>, c: Seq<char>)
    requires
        text_lt(a, b),
        text_lt(b, c),
    ensures
        text_lt(a, c),
    decreases a.len(),
{
    if a.len() > 0 && b.len() > 0 && c.len() > 0 {
        if a[0] == b[0] && b[0] == c[0] {
            lemma_text_lt_transitive(a.drop_first(), b.drop_first(), c.drop_first());
        }
    }
}

pub proof fn lemma_text_lt_total(a: Seq<char>, b: Seq<char>)
    ensures
        a != b ==> text_lt(a, b) || text_lt(b, a),
        !(text_lt(a, b) && text_lt(b, a)),
    decreases a.len(),
{
    if a.len() > 0 && b.len() > 0 {
        lemma_text_lt_total(a.drop_first(), b.drop_first());
        if a[0] == b[0] && a.drop_first() == b.drop_first() {
            assert(a =~= seq![a[0]] + a.drop_first());
            assert(b =~= seq![b[0]] + b.drop_first());
        }
    } else if a.len() == 0 && b.len() == 0 {
        assert(a =~= b);
    }
}

pub proof fn lemma_first_index_of(s: Seq<char>, c: char, k: int)
    requires
        0 <= k < s.len(),
        s[k] == c,
        forall|j: int| 0 <= j < k ==> s[j] != c,
    ensures
        first_index_of(s, c) == k,
{
    let f = first_index_of(s, c);
    assert(0 <= f < s.len() && s[f] == c && forall|j: int| 0 <= j < f ==> s[j] != c);
    if f < k {
        assert(s[f] != c);
    }
    if f > k {
        assert(s[k] != c);
    }
}

pub proof fn lemma_last_index_of(s: Seq<char>, c: char, k: int)
    requires
        0 <= k < s.len(),
        s[k] == c,
        forall|j: int| k < j < s.len() ==> s[j] != c,
    ensures
        last_index_of(s, c) == k,
{
    let f = last_index_of(s, c);
    assert(0 <= f < s.len() && s[f] == c && forall|j: int| f < j < s.len() ==> s[j] != c);
    if f < k {
        assert(s[k] != c);
    }
    if f > k {
        assert(s[f] != c);
    }
}

pub proof fn lemma_trim_len(s: Seq<char>)
    ensures
        trim(s).len() <= s.len(),
        trim_start(s).len() <= s.len(),
{
    lemma_trim_start_len(s);
    lemma_trim_end_len(trim_start(s));
}

proof fn lemma_trim_start_len(s: Seq<char>)
    ensures
        trim_start(s).len() <= s.len(),
    decreases s.len(),
{
    if s.len() > 0 && is_white_space(s[0]) {
        lemma_trim_start_len(s.drop_first());
    }
}

proof fn lemma_trim_end_len(s: Seq<char>)
    ensures
        trim_end(s).len() <= s.len(),
    decreases s.len(),
{
    if s.len() > 0 && is_white_space(s.last()) {
        lemma_trim_end_len(s.drop_last());
    }
}

proof fn lemma_trim_start_skip(s: Seq<char>, k: int)
    requires
        0 <= k <= s.len(),
        forall|j: int| 0 <= j < k ==> is_white_space(#[trigger] s[j]),
    ensures
        trim_start(s) == trim_start(s.skip(k)),
    decreases k,
{
    if k > 0 {
        assert(s.drop_first().skip(k - 1) =~= s.skip(k));
        assert forall|j: int| 0 <= j < k - 1 implies is_white_space(#[trigger] s.drop_first()[j]) by {
            assert(s.drop_first()[j] == s[j + 1]);
        }
        lemma_trim_start_skip(s.drop_first(), k - 1);
    } else {
        assert(s.skip(0) =~= s);
    }
}

proof fn lemma_trim_end_take(s: Seq<char>, k: int)
    requires
        0 <= k <= s.len(),
        forall|j: int| k <= j < s.len() ==> is_white_space(#[trigger] s[j]),
    ensures
        trim_end(s) == trim_end(s.take(k)),
    decreases s.len() - k,
{
    if k < s.len() {
        assert(s.drop_last().take(k) =~= s.take(k));
        assert forall|j: int| k <= j < s.drop_last().len() implies is_white_space(
            #[trigger] s.drop_last()[j],
        ) by {
            assert(s.drop_last()[j] == s[j]);
        }
        lemma_trim_end_take(s.drop_last(), k);
    } else {
        assert(s.take(k) =~= s);
    }
}

/// A text with no white space at either end.
pub open spec fn is_trimmed(s: Seq<char>) -> bool {
    s.len() == 0 || (!is_white_space(s[0]) && !is_white_space(s.last()))
}

/// Leading white space removed is a suffix of the text.
pub proof fn lemma_trim_start_suffix(s: Seq<char>)
    ensures
        exists|k: int| 0 <= k <= s.len() && trim_start(s) == #[trigger] s.skip(k),
        trim_start(s).len() == 0 || !is_white_space(trim_start(s)[0]),
    decreases s.len(),
{
    if s.len() > 0 && is_white_space(s[0]) {
        lemma_trim_start_suffix(s.drop_first());
        let k = choose|k: int| 0 <= k <= s.drop_first().len() && trim_start(s.drop_first()) == #[trigger] s.drop_first().skip(k);
        assert(s.drop_first().skip(k) =~= s.skip(k + 1));
    } else {
        assert(s.skip(0) =~= s);
    }
}

/// Trailing white space removed is a prefix of the text.
pub proof fn lemma_trim_end_prefix(s: Seq<char>)
    ensures
        exists|k: int| 0 <= k <= s.len() && trim_end(s) == #[trigger] s.take(k),
        trim_end(s).len() == 0 || !is_white_space(trim_end(s).last()),
    decreases s.len(),
{
    if s.len() > 0 && is_white_space(s.last()) {
        lemma_trim_end_prefix(s.drop_last());
        let k = choose|k: int| 0 <= k <= s.drop_last().len() && trim_end(s.drop_last()) == #[trigger] s.drop_last().take(k);
        assert(s.drop_last().take(k) =~= s.take(k));
    } else {
        assert(s.take(s.len() as int) =~= s);
    }
}

/// A trimmed text is a piece of the text, with no white space at its ends.
pub proof fn lemma_trim_shape(s: Seq<char>)
    ensures
        is_trimmed(trim(s)),
        exists|a: int, b: int| 0 <= a <= b <= s.len() && trim(s) == #[trigger] s.subrange(a, b),
{
    lemma_trim_start_suffix(s);
    let u = trim_start(s);
    let a = choose|k: int| 0 <= k <= s.len() && u == #[trigger] s.skip(k);
    lemma_trim_end_prefix(u);
    let b = choose|k: int| 0 <= k <= u.len() && trim_end(u) == #[trigger] u.take(k);
    assert(u.take(b) =~= s.subrange(a, a + b));
    if trim(s).len() > 0 {
        assert(trim(s)[0] == u[0]);
    }
}

/// A trimmed text stays as it is under `trim`.
pub proof fn lemma_trim_of_trimmed(s: Seq<char>)
    requires
        is_trimmed(s),
    ensures
        trim(s) == s,
{
}

/// Where trimming cuts: only white space before and after the piece kept.
pub proof fn lemma_trim_cuts(s: Seq<char>)
    ensures
        exists|a: int, b: int|
            0 <= a <= b <= s.len() && trim(s) == #[trigger] s.subrange(a, b) && (forall|j: int|
                0 <= j < a ==> is_white_space(#[trigger] s[j])) && (forall|j: int|
                b <= j < s.len() ==> is_white_space(#[trigger] s[j])),
{
    lemma_trim_start_cut(s);
    let u = trim_start(s);
    let a = choose|k: int| 0 <= k <= s.len() && u == #[trigger] s.skip(k) && forall|j: int| 0 <= j < k ==> is_white_space(#[trigger] s[j]);
    lemma_trim_end_cut(u);
    let b = choose|k: int| 0 <= k <= u.len() && trim_end(u) == #[trigger] u.take(k) && forall|j: int| k <= j < u.len() ==> is_white_space(#[trigger] u[j]);
    assert(u.take(b) =~= s.subrange(a, a + b));
    assert forall|j: int| a + b <= j < s.len() implies is_white_space(#[trigger] s[j]) by {
        assert(s[j] == u[j - a]);
    }
}

proof fn lemma_trim_start_cut(s: Seq<char>)
    ensures
        exists|k: int| 0 <= k <= s.len() && trim_start(s) == #[trigger] s.skip(k) && forall|j: int| 0 <= j < k ==> is_white_space(#[trigger] s[j]),
    decreases s.len(),
{
    if s.len() > 0 && is_white_space(s[0]) {
        lemma_trim_start_cut(s.drop_first());
        let d = s.drop_first();
        let k = choose|k: int| 0 <= k <= d.len() && trim_start(d) == #[trigger] d.skip(k) && forall|j: int| 0 <= j < k ==> is_white_space(#[trigger] d[j]);
        assert(d.skip(k) =~= s.skip(k + 1));
        assert forall|j: int| 0 <= j < k + 1 implies is_white_space(#[trigger] s[j]) by {
            if j > 0 {
                assert(s[j] == d[j - 1]);
            }
        }
    } else {
        assert(s.skip(0) =~= s);
    }
}

proof fn lemma_trim_end_cut(s: Seq<char>)
    ensures
        exists|k: int| 0 <= k <= s.len() && trim_end(s) == #[trigger] s.take(k) && forall|j: int| k <= j < s.len() ==> is_white_space(#[trigger] s[j]),
    decreases s.len(),
{
    if s.len() > 0 && is_white_space(s.last()) {
        lemma_trim_end_cut(s.drop_last());
        let d = s.drop_last();
        let k = choose|k: int| 0 <= k <= d.len() && trim_end(d) == #[trigger] d.take(k) && forall|j: int| k <= j < d.len() ==> is_white_space(#[trigger] d[j]);
        assert(d.take(k) =~= s.take(k));
        assert forall|j: int| k <= j < s.len() implies is_white_space(#[trigger] s[j]) by {
            if j < d.len() {
                assert(s[j] == d[j]);
            }
        }
    } else {
        assert(s.take(s.len() as int) =~= s);
    }
}

/// A text trims to nothing exactly when it is all white space.
pub proof fn lemma_trim_empty(s: Seq<char>)
    ensures
        trim(s).len() == 0 <==> forall|j: int| 0 <= j < s.len() ==> is_white_space(#[trigger] s[j]),
{
    lemma_trim_cuts(s);
    let (a, b) = choose|a: int, b: int|
        0 <= a <= b <= s.len() && trim(s) == #[trigger] s.subrange(a, b) && (forall|j: int|
            0 <= j < a ==> is_white_space(#[trigger] s[j])) && (forall|j: int|
            b <= j < s.len() ==> is_white_space(#[trigger] s[j]));
    lemma_trim_shape(s);
    if trim(s).len() == 0 {
        assert forall|j: int| 0 <= j < s.len() implies is_white_space(#[trigger] s[j]) by {
            if a <= j < b {
                assert(false);
            }
        }
    } else {
        assert(!is_white_space(trim(s)[0]));
        assert(trim(s)[0] == s[a]);
    }
}

/// White space added at the end does not change the trimmed text.
pub proof fn lemma_trim_append_white(s: Seq<char>, w: Seq<char>)
    requires
        forall|j: int| 0 <= j < w.len() ==> is_white_space(#[trigger] w[j]),
    ensures
        trim(s + w) == trim(s),
{
    lemma_trim_cuts(s);
    let (a, b) = choose|a: int, b: int|
        0 <= a <= b <= s.len() && trim(s) == #[trigger] s.subrange(a, b) && (forall|j: int|
            0 <= j < a ==> is_white_space(#[trigger] s[j])) && (forall|j: int|
            b <= j < s.len() ==> is_white_space(#[trigger] s[j]));
    lemma_trim_shape(s);
    let t = s + w;
    if a == b {
        lemma_trim_empty(s);
        assert forall|j: int| 0 <= j < t.len() implies is_white_space(#[trigger] t[j]) by {
            if j < s.len() {
                assert(t[j] == s[j]);
            } else {
                assert(t[j] == w[j - s.len()]);
            }
        }
        lemma_trim_empty(t);
        lemma_trim_empty(s);
    } else {
        // trim_start(t) = t.skip(a), whose last non-blank is at b - 1.
        assert forall|j: int| 0 <= j < a implies is_white_space(#[trigger] t[j]) by {
            assert(t[j] == s[j]);
        }
        lemma_trim_start_skip(t, a);
        assert(!is_white_space(t.skip(a)[0])) by {
            assert(t.skip(a)[0] == s[a]);
            assert(trim(s)[0] == s[a]);
        }
        assert(trim_start(t.skip(a)) == t.skip(a));
        let u = t.skip(a);
        assert forall|j: int| b - a <= j < u.len() implies is_white_space(#[trigger] u[j]) by {
            if j + a < s.len() {
                assert(u[j] == s[j + a]);
            } else {
                assert(u[j] == w[j + a - s.len()]);
            }
        }
        lemma_trim_end_take(u, b - a);
        assert(!is_white_space(u.take(b - a).last())) by {
            assert(u.take(b - a).last() == s[b - 1]);
            assert(trim(s).last() == s[b - 1]);
        }
        assert(u.take(b - a) =~= s.subrange(a, b));
    }
}

/// Trimming twice is trimming once.
pub proof fn lemma_trim_idempotent(s: Seq<char>)
    ensures
        trim(trim(s)) == trim(s),
{
    lemma_trim_shape(s);
    lemma_trim_of_trimmed(trim(s));
}

pub proof fn lemma_byte_len_push(s: Seq<char>, c: char)
    ensures
        byte_len(s.push(c)) == byte_len(s) + utf8_len(c),
{
    assert(s.push(c).drop_last() =~= s);
}

pub proof fn lemma_byte_len_concat(a: Seq<char>, b: Seq<char>)
    ensures
        byte_len(a + b) == byte_len(a) + byte_len(b),
    decreases b.len(),
{
    if b.len() == 0 {
        assert(a + b =~= a);
    } else {
        assert((a + b).drop_last() =~= a + b.drop_last());
        lemma_byte_len_concat(a, b.drop_last());
    }
}

pub proof fn lemma_byte_len_bounds(s: Seq<char>)
    ensures
        s.len() <= byte_len(s) <= 4 * s.len(),
    decreases s.len(),
{
    if s.len() > 0 {
        lemma_byte_len_bounds(s.drop_last());
    }
}

pub proof fn lemma_digits_value_push(s: Seq<char>, c: char)
    ensures
        digits_value(s.push(c)) == digits_value(s) * 10 + ((c as u32) - ('0' as u32)) as nat,
{
    assert(s.push(c).drop_last() =~= s);
}

/// An occurrence with none before it is the first occurrence.
pub proof fn lemma_first_occurrence(s: Seq<char>, p: Seq<char>, k: int)
    requires
        occurs_at(s, p, k),
        forall|j: int| 0 <= j < k ==> !occurs_at(s, p, j),
    ensures
        first_occurrence(s, p) == k,
        contains_seq(s, p),
{
    let f = first_occurrence(s, p);
    assert(occurs_at(s, p, f) && forall|j: int| 0 <= j < f ==> !occurs_at(s, p, j));
    if f < k {
        assert(!occurs_at(s, p, f));
    }
    if k < f {
        assert(!occurs_at(s, p, k));
    }
}

pub open spec fn pow10(k: nat) -> nat
    decreases k,
{
    if k == 0 {
        1
    } else {
        10 * pow10((k - 1) as nat)
    }
}

/// The decimal digits of a number are ASCII digits, at least one.
pub proof fn lemma_dec_nat_digits(n: nat)
    ensures
        all_digits(dec_nat(n)),
        dec_nat(n).len() > 0,
    decreases n,
{
    if n >= 10 {
        lemma_dec_nat_digits(n / 10);
        assert(dec_nat(n) == dec_nat(n / 10) + seq![digit_char(n % 10)]);
    }
}

/// A number below `10^k` has at most `k` digits.
pub proof fn lemma_dec_nat_short(n: nat, k: nat)
    requires
        k >= 1,
        n < pow10(k),
    ensures
        dec_nat(n).len() <= k,
    decreases n,
{
    if n >= 10 {
        assert(pow10(1) == 10) by {
            reveal_with_fuel(pow10, 2);
        }
        assert(k >= 2);
        assert(n / 10 < pow10((k - 1) as nat));
        lemma_dec_nat_short(n / 10, (k - 1) as nat);
    }
}

/// A number below `10^w` padded to `w` digits takes exactly `w` ASCII digits.
pub proof fn lemma_dec_padded_exact(n: nat, w: nat)
    requires
        w >= 1,
        n < pow10(w),
    ensures
        dec_padded(n, w).len() == w,
        all_digits(dec_padded(n, w)),
{
    lemma_dec_nat_short(n, w);
    lemma_dec_nat_digits(n);
    let d = dec_nat(n);
    if d.len() < w {
        let z = Seq::new((w - d.len()) as nat, |i: int| '0');
        assert forall|i: int| 0 <= i < dec_padded(n, w).len() implies is_ascii_digit(
            #[trigger] dec_padded(n, w)[i],
        ) by {
            if i >= z.len() {
                assert(dec_padded(n, w)[i] == d[i - z.len()]);
            }
        }
    }
}

/// A text of ASCII characters takes one byte per character.
pub proof fn lemma_byte_len_ascii(s: Seq<char>)
    requires
        forall|i: int| 0 <= i < s.len() ==> (#[trigger] s[i] as u32) < 0x80,
    ensures
        byte_len(s) == s.len(),
    decreases s.len(),
{
    if s.len() > 0 {
        assert(forall|i: int| 0 <= i < s.drop_last().len() ==> s.drop_last()[i] == s[i]);
        lemma_byte_len_ascii(s.drop_last());
        assert((s[s.len() - 1] as u32) < 0x80);
    }
}

/// Reading the decimal digits of `n` back gives `n`.
pub proof fn lemma_dec_nat_value(n: nat)
    ensures
        digits_value(dec_nat(n)) == n,
    decreases n,
{
    if n < 10 {
        assert(dec_nat(n) == seq![digit_char(n)]);
        assert(seq![digit_char(n)] == Seq::<char>::empty().push(digit_char(n)));
        lemma_digits_value_push(Seq::<char>::empty(), digit_char(n));
    } else {
        lemma_dec_nat_value(n / 10);
        assert(dec_nat(n) == dec_nat(n / 10).push(digit_char(n % 10)));
        lemma_digits_value_push(dec_nat(n / 10), digit_char(n % 10));
    }
}

/// Distinct numbers have distinct decimal texts.
pub proof fn lemma_dec_nat_injective(a: nat, b: nat)
    requires
        dec_nat(a) == dec_nat(b),
    ensures
        a == b,
{
    lemma_dec_nat_value(a);
    lemma_dec_nat_value(b);
}

// ---------------------------------------------------------------------------
// Executable operations
// ---------------------------------------------------------------------------

/// `String::push`, which appends one character; the contract says just
/// that of the text.
#[verifier::external_body]
fn push_char(s: &mut String, c: char)
    ensures
        final(s)@ == old(s)@.push(c),
{
    s.push(c);
}

/// The lower-case form of a text, as `str::to_lowercase` gives it.
pub uninterp spec fn lowercase(s: Seq<char>) -> Seq<char>;

/// `str::to_lowercase`, whose Unicode case mapping the contract names
/// without stating.
#[verifier::external_body]
pub(crate) fn to_lowercase_text(s: &str) -> (r: String)
    ensures
        r@ == lowercase(s@),
{
    s.to_lowercase()
}

/// The characters of a text.
pub fn chars_of(s: &str) -> (v: Vec<char>)
    ensures
        v@ == s@,
{
    let mut v: Vec<char> = Vec::new();
    for c in it: s.chars()
        invariant
            v@ == it.seq().take(it.index() as int),
    {
        v.push(c);
    }
    v
}

/// The text made of the given characters.
pub fn string_of(v: &[char]) -> (s: String)
    ensures
        s@ == v@,
{
    let mut s = String::new();
    let mut i: usize = 0;
    while i < v.len()
        invariant
            i <= v.len(),
            s@ == v@.take(i as int),
        decreases v.len() - i,
    {
        push_char(&mut s, v[i]);
        assert(v@.take(i as int + 1) == v@.take(i as int).push(v@[i as int]));
        i += 1;
    }
    assert(v@.take(v.len() as int) == v@);
    s
}

pub fn is_white_space_char(c: char) -> (b: bool)
    ensures
        b == is_white_space(c),
{
    ('\u{9}' <= c && c <= '\u{d}') || c == ' ' || c == '\u{85}' || c == '\u{a0}' || c
        == '\u{1680}' || ('\u{2000}' <= c && c <= '\u{200a}') || c == '\u{2028}' || c
        == '\u{2029}' || c == '\u{202f}' || c == '\u{205f}' || c == '\u{3000}'
}

/// Copy of `s[from..to]`.
pub fn slice_vec(s: &[char], from: usize, to: usize) -> (r: Vec<char>)
    requires
        from <= to <= s.len(),
    ensures
        r@ == s@.subrange(from as int, to as int),
{
    let mut r: Vec<char> = Vec::new();
    let mut i = from;
    while i < to
        invariant
            from <= i <= to <= s.len(),
            r@ == s@.subrange(from as int, i as int),
        decreases to - i,
    {
        r.push(s[i]);
        assert(s@.subrange(from as int, i + 1) == s@.subrange(from as int, i as int).push(
            s@[i as int],
        ));
        i += 1;
    }
    r
}

/// `s1 + s2`.
pub fn concat(a: &[char], b: &[char]) -> (r: Vec<char>)
    ensures
        r@ == a@ + b@,
{
    let mut r = slice_vec(a, 0, a.len());
    assert(a@.subrange(0, a@.len() as int) =~= a@);
    let mut i: usize = 0;
    while i < b.len()
        invariant
            i <= b.len(),
            r@ == a@ + b@.take(i as int),
        decreases b.len() - i,
    {
        r.push(b[i]);
        assert(a@ + b@.take(i + 1) =~= (a@ + b@.take(i as int)).push(b@[i as int]));
        i += 1;
    }
    assert(b@.take(b.len() as int) =~= b@);
    r
}

/// `str::trim`.
pub fn trim_chars(s: &[char]) -> (r: Vec<char>)
    ensures
        r@ == trim(s@),
{
    let n = s.len();
    let mut i: usize = 0;
    while i < n && is_white_space_char(s[i])
        invariant
            i <= n == s.len(),
            forall|j: int| 0 <= j < i ==> is_white_space(#[trigger] s@[j]),
        decreases n - i,
    {
        i += 1;
    }
    proof {
        lemma_trim_start_skip(s@, i as int);
        if i < n {
            assert(s@.skip(i as int)[0] == s@[i as int]);
        }
    }
    let ghost t = s@.skip(i as int);
    assert(trim_start(s@) == t);
    let mut j: usize = n;
    while j > i && is_white_space_char(s[j - 1])
        invariant
            i <= j <= n == s.len(),
            t == s@.skip(i as int),
            forall|k: int| (j - i) <= k < t.len() ==> is_white_space(#[trigger] t[k]),
        decreases j,
    {
        j -= 1;
    }
    proof {
        lemma_trim_end_take(t, (j - i) as int);
        let u = t.take((j - i) as int);
        if j > i {
            assert(u.last() == s@[j - 1]);
        }
        assert(u =~= s@.subrange(i as int, j as int));
    }
    slice_vec(s, i, j)
}

/// `s.starts_with(p)`.
pub fn starts_with_chars(s: &[char], p: &[char]) -> (b: bool)
    ensures
        b == starts_with(s@, p@),
{
    if p.len() > s.len() {
        return false;
    }
    let mut i: usize = 0;
    while i < p.len()
        invariant
            i <= p.len() <= s.len(),
            forall|k: int| 0 <= k < i ==> s@[k] == p@[k],
        decreases p.len() - i,
    {
        if s[i] != p[i] {
            assert(s@.take(p.len() as int)[i as int] != p@[i as int]);
            return false;
        }
        i += 1;
    }
    assert(s@.take(p.len() as int) =~= p@);
    true
}

/// Whether `p` occurs in `s` at index `at`.
pub fn occurs_at_chars(s: &[char], p: &[char], at: usize) -> (b: bool)
    ensures
        b == occurs_at(s@, p@, at as int),
{
    if at > s.len() || p.len() > s.len() - at {
        return false;
    }
    let mut i: usize = 0;
    while i < p.len()
        invariant
            i <= p.len(),
            at + p.len() <= s.len(),
            forall|k: int| 0 <= k < i ==> s@[at + k] == p@[k],
        decreases p.len() - i,
    {
        if s[at + i] != p[i] {
            assert(s@.subrange(at as int, at + p.len())[i as int] != p@[i as int]);
            return false;
        }
        i += 1;
    }
    assert(s@.subrange(at as int, at + p.len()) =~= p@);
    true
}

/// `s.ends_with(p)`.
pub fn ends_with_chars(s: &[char], p: &[char]) -> (b: bool)
    ensures
        b == ends_with(s@, p@),
{
    if p.len() > s.len() {
        return false;
    }
    let at = s.len() - p.len();
    let b = occurs_at_chars(s, p, at);
    assert(s@.subrange(at as int, at + p.len()) =~= s@.skip(at as int));
    b
}

/// Index of the first occurrence of `p` in `s` at or after `from`.
pub fn find_from(s: &[char], p: &[char], from: usize) -> (r: Option<usize>)
    ensures
        match r {
            Some(k) => from <= k && occurs_at(s@, p@, k as int) && forall|j: int|
                from <= j < k ==> !occurs_at(s@, p@, j),
            None => forall|j: int| from <= j ==> !occurs_at(s@, p@, j),
        },
{
    let mut k = from;
    while k < s.len()
        invariant
            from <= k,
            forall|j: int| from <= j < k ==> !occurs_at(s@, p@, j),
        decreases s.len() - k,
    {
        if occurs_at_chars(s, p, k) {
            return Some(k);
        }
        k += 1;
    }
    if k == s.len() && occurs_at_chars(s, p, k) {
        return Some(k);
    }
    None
}

/// `s.find(p)`.
pub fn find_chars(s: &[char], p: &[char]) -> (r: Option<usize>)
    ensures
        match r {
            Some(k) => occurs_at(s@, p@, k as int) && forall|j: int|
                0 <= j < k ==> !occurs_at(s@, p@, j),
            None => !contains_seq(s@, p@),
        },
{
    find_from(s, p, 0)
}

/// `s.contains(p)`.
pub fn contains_chars(s: &[char], p: &[char]) -> (b: bool)
    ensures
        b == contains_seq(s@, p@),
{
    find_chars(s, p).is_some()
}

/// Index of the first `c` in `s`.
pub fn find_char(s: &[char], c: char) -> (r: Option<usize>)
    ensures
        match r {
            Some(k) => k < s.len() && s@[k as int] == c && forall|j: int|
                0 <= j < k ==> s@[j] != c,
            None => forall|j: int| 0 <= j < s.len() ==> s@[j] != c,
        },
{
    let mut k: usize = 0;
    while k < s.len()
        invariant
            k <= s.len(),
            forall|j: int| 0 <= j < k ==> s@[j] != c,
        decreases s.len() - k,
    {
        if s[k] == c {
            return Some(k);
        }
        k += 1;
    }
    None
}

/// Index of the last `c` in `s`.
pub fn rfind_char(s: &[char], c: char) -> (r: Option<usize>)
    ensures
        match r {
            Some(k) => k < s.len() && s@[k as int] == c && forall|j: int|
                k < j < s.len() ==> s@[j] != c,
            None => forall|j: int| 0 <= j < s.len() ==> s@[j] != c,
        },
{
    let mut k: usize = s.len();
    while k > 0
        invariant
            k <= s.len(),
            forall|j: int| k <= j < s.len() ==> s@[j] != c,
        decreases k,
    {
        if s[k - 1] == c {
            return Some(k - 1);
        }
        k -= 1;
    }
    None
}

/// Whether `c` occurs in `s`.
pub fn has_char(s: &[char], c: char) -> (b: bool)
    ensures
        b == s@.contains(c),
{
    match find_char(s, c) {
        Some(k) => {
            assert(s@[k as int] == c);
            true
        },
        None => false,
    }
}

/// `s.replace(p, "")` for a non-empty `p`.
pub fn remove_all_chars(s: &[char], p: &[char]) -> (r: Vec<char>)
    requires
        p.len() > 0,
    ensures
        r@ == remove_all(s@, p@),
{
    let mut out: Vec<char> = Vec::new();
    let mut i: usize = 0;
    assert(s@.skip(0) =~= s@);
    assert(out@ + remove_all(s@, p@) =~= remove_all(s@, p@));
    while i < s.len()
        invariant
            i <= s.len(),
            p.len() > 0,
            out@ + remove_all(s@.skip(i as int), p@) == remove_all(s@, p@),
        decreases s.len() - i,
    {
        let ghost rest = s@.skip(i as int);
        if occurs_at_chars(s, p, i) {
            assert(rest.take(p.len() as int) =~= s@.subrange(i as int, i + p.len()));
            assert(rest.skip(p.len() as int) =~= s@.skip(i + p.len()));
            i += p.len();
        } else {
            proof {
                if rest.len() >= p.len() {
                    assert(rest.take(p.len() as int) =~= s@.subrange(i as int, i + p.len()));
                }
                assert(rest.drop_first() =~= s@.skip(i + 1));
                if rest.len() < p.len() {
                    assert(rest == seq![rest[0]] + rest.drop_first());
                    lemma_remove_all_short(rest.drop_first(), p@);
                }
            }
            out.push(s[i]);
            assert(out@ =~= out@.drop_last().push(rest[0]));
            assert(seq![rest[0]] + remove_all(rest.drop_first(), p@) == remove_all(rest, p@));
            assert(out@ + remove_all(s@.skip(i + 1), p@) =~= out@.drop_last() + (seq![rest[0]]
                + remove_all(rest.drop_first(), p@)));
            i += 1;
        }
    }
    assert(s@.skip(i as int) =~= Seq::<char>::empty());
    assert(out@ + Seq::<char>::empty() =~= out@);
    out
}

proof fn lemma_remove_all_short(s: Seq<char>, p: Seq<char>)
    requires
        s.len() < p.len(),
    ensures
        remove_all(s, p) == s,
{
}


proof fn lemma_split_advance(s: Seq<char>, seps: Seq<char>, start: int, k: int)
    requires
        0 <= start <= k < s.len(),
        seps.contains(s[k]),
        forall|j: int| start <= j < k ==> !seps.contains(#[trigger] s[j]),
    ensures
        split_on(s.skip(start), seps) == seq![s.subrange(start, k)] + split_on(s.skip(k + 1), seps),
{
    let rest = s.skip(start);
    let kk = k - start;
    assert forall|j: int| 0 <= j < kk implies !seps.contains(#[trigger] rest[j]) by {
        assert(rest[j] == s[start + j]);
    }
    assert(rest[kk] == s[k]);
    lemma_split_on_step(rest, seps, kk);
    assert(rest.take(kk) =~= s.subrange(start, k));
    assert(rest.skip(kk + 1) =~= s.skip(k + 1));
}

/// `s.split(seps)`: the pieces between the characters of `seps`.
pub fn split_on_chars(s: &[char], seps: &[char]) -> (r: Vec<Vec<char>>)
    ensures
        r@.len() == split_on(s@, seps@).len(),
        forall|i: int| 0 <= i < r@.len() ==> (#[trigger] r@[i])@ == split_on(s@, seps@)[i],
{
    let mut r: Vec<Vec<char>> = Vec::new();
    let mut start: usize = 0;
    let mut k: usize = 0;
    let ghost done: Seq<Seq<char>> = Seq::empty();
    assert(s@.skip(0) =~= s@);
    while k < s.len()
        invariant
            start <= k <= s.len(),
            r@.len() == done.len(),
            forall|i: int| 0 <= i < r@.len() ==> (#[trigger] r@[i])@ == done[i],
            done + split_on(s@.skip(start as int), seps@) == split_on(s@, seps@),
            forall|j: int| start <= j < k ==> !seps@.contains(#[trigger] s@[j]),
        decreases s.len() - k,
    {
        if has_char(seps, s[k]) {
            let piece = slice_vec(s, start, k);
            proof {
                lemma_split_advance(s@, seps@, start as int, k as int);
                assert(done + split_on(s@.skip(start as int), seps@) =~= done.push(piece@)
                    + split_on(s@.skip(k + 1), seps@));
                done = done.push(piece@);
            }
            r.push(piece);
            start = k + 1;
        }
        k += 1;
    }
    let piece = slice_vec(s, start, s.len());
    proof {
        let rest = s@.skip(start as int);
        assert forall|j: int| 0 <= j < rest.len() implies !seps@.contains(#[trigger] rest[j]) by {
            assert(rest[j] == s@[start + j]);
        }
        lemma_split_on_none(rest, seps@);
        assert(rest =~= piece@);
        assert(done + split_on(rest, seps@) =~= done.push(piece@));
        done = done.push(piece@);
    }
    r.push(piece);
    r
}

/// Texts in non-decreasing order.
pub open spec fn sorted_texts(v: Seq<Seq<char>>) -> bool {
    forall|i: int, j: int| 0 <= i < j < v.len() ==> !text_lt(#[trigger] v[j], #[trigger] v[i])
}

proof fn lemma_insert_multiset_texts(s: Seq<Seq<char>>, k: int, x: Seq<char>)
    requires
        0 <= k <= s.len(),
    ensures
        s.insert(k, x).to_multiset() == s.to_multiset().insert(x),
{
    broadcast use vstd::seq_lib::group_to_multiset_ensures;

    let t = s.insert(k, x);
    assert(t.remove(k) =~= s);
    assert(t[k] == x);
    assert(t.remove(k).to_multiset() =~= t.to_multiset().remove(x));
    assert(t.to_multiset().count(x) > 0) by {
        assert(t.contains(x));
    }
    assert(t.to_multiset() =~= t.to_multiset().remove(x).insert(x));
}

/// Sorts texts by character code, keeping repeats (`sort` on strings).
pub fn sort_texts(v: Vec<Vec<char>>) -> (r: Vec<Vec<char>>)
    ensures
        sorted_texts(views(r@)),
        views(r@).to_multiset() == views(v@).to_multiset(),
{
    broadcast use vstd::seq_lib::group_to_multiset_ensures;

    let mut r: Vec<Vec<char>> = Vec::new();
    let mut i: usize = 0;
    while i < v.len()
        invariant
            i <= v.len(),
            sorted_texts(views(r@)),
            views(r@).to_multiset() == views(v@.take(i as int)).to_multiset(),
        decreases v.len() - i,
    {
        let x = &v[i];
        let ghost rv = views(r@);
        let mut k: usize = r.len();
        while k > 0 && text_less(x, &r[k - 1])
            invariant
                k <= r.len(),
                rv == views(r@),
                forall|j: int| k <= j < rv.len() ==> text_lt(x@, #[trigger] rv[j]),
            decreases k,
        {
            k -= 1;
        }
        proof {
            let vt = views(v@.take(i as int));
            assert(views(v@.take(i + 1)) =~= vt.push(x@));
            vt.to_multiset_ensures();
            lemma_insert_multiset_texts(rv, k as int, x@);
            if k > 0 {
                lemma_text_lt_total(x@, rv[k - 1]);
            }
        }
        r.insert(k, x.clone());
        proof {
            let nv = views(r@);
            assert(nv =~= rv.insert(k as int, x@));
            assert forall|a: int, b: int| 0 <= a < b < nv.len() implies !text_lt(
                #[trigger] nv[b],
                #[trigger] nv[a],
            ) by {
                if a < k && b < k {
                    assert(nv[a] == rv[a] && nv[b] == rv[b]);
                } else if a < k && b == k {
                    assert(nv[a] == rv[a]);
                    if a < k - 1 {
                        assert(!text_lt(rv[k - 1], rv[a]));
                        lemma_text_lt_total(rv[k - 1], rv[a]);
                        if text_lt(x@, rv[a]) {
                            if rv[a] == rv[k - 1] {
                            } else {
                                lemma_text_lt_transitive(x@, rv[a], rv[k - 1]);
                            }
                        }
                    }
                } else if a < k && b > k {
                    assert(nv[a] == rv[a]);
                    assert(nv[b] == rv[b - 1]);
                } else if a == k {
                    assert(nv[b] == rv[b - 1]);
                    lemma_text_lt_irreflexive(x@);
                    assert(text_lt(x@, rv[b - 1]));
                    if text_lt(rv[b - 1], x@) {
                        lemma_text_lt_transitive(x@, rv[b - 1], x@);
                    }
                } else {
                    assert(nv[a] == rv[a - 1]);
                    assert(nv[b] == rv[b - 1]);
                }
            }
        }
        i += 1;
    }
    assert(v@.take(v.len() as int) =~= v@);
    r
}

/// Sorts the texts and drops repeats (`sort` followed by `dedup`).
pub fn sort_dedup_texts(v: Vec<Vec<char>>) -> (r: Vec<Vec<char>>)
    ensures
        strictly_sorted(views(r@)),
        views(r@).to_set() == views(v@).to_set(),
{
    let mut r: Vec<Vec<char>> = Vec::new();
    let mut i: usize = 0;
    while i < v.len()
        invariant
            i <= v.len(),
            strictly_sorted(views(r@)),
            forall|t: Seq<char>| #[trigger] views(r@).contains(t) <==> views(v@.take(i as int)).contains(t),
        decreases v.len() - i,
    {
        let x = &v[i];
        let ghost rv = views(r@);
        let mut k: usize = 0;
        while k < r.len() && text_less(&r[k], x)
            invariant
                k <= r.len(),
                rv == views(r@),
                forall|j: int| 0 <= j < k ==> text_lt(#[trigger] rv[j], x@),
            decreases r.len() - k,
        {
            k += 1;
        }
        let ghost vt = views(v@.take(i as int));
        let ghost vt1 = views(v@.take(i + 1));
        assert(vt1 =~= vt.push(x@));
        if k < r.len() && text_eq(&r[k], x) {
            assert(rv[k as int] == x@);
            assert forall|t: Seq<char>| #[trigger] rv.contains(t) <==> vt1.contains(t) by {
                if t == x@ {
                    assert(rv[k as int] == t);
                }
                if vt1.contains(t) && t != x@ {
                    let j = choose|j: int| 0 <= j < vt1.len() && vt1[j] == t;
                    assert(vt[j] == t);
                    assert(vt.contains(t));
                }
                if vt.contains(t) {
                    let j = choose|j: int| 0 <= j < vt.len() && vt[j] == t;
                    assert(vt1[j] == t);
                }
            }
        } else {
            proof {
                if k < r.len() {
                    lemma_text_lt_total(rv[k as int], x@);
                    assert(text_lt(x@, rv[k as int]));
                    assert forall|j: int| k <= j < rv.len() implies text_lt(x@, #[trigger] rv[j]) by {
                        if j > k {
                            lemma_text_lt_transitive(x@, rv[k as int], rv[j]);
                        }
                    }
                }
            }
            r.insert(k, x.clone());
            proof {
                let nv = views(r@);
                assert(nv =~= rv.insert(k as int, x@));
                assert forall|a: int, b: int| 0 <= a < b < nv.len() implies text_lt(
                    #[trigger] nv[a],
                    #[trigger] nv[b],
                ) by {
                    if a < k && b < k {
                        assert(text_lt(rv[a], rv[b]));
                    } else if a < k && b == k {
                    } else if a < k && b > k {
                        assert(nv[b] == rv[b - 1]);
                        assert(text_lt(rv[a], rv[b - 1]));
                    } else if a == k {
                        assert(nv[b] == rv[b - 1]);
                    } else {
                        assert(nv[a] == rv[a - 1]);
                        assert(nv[b] == rv[b - 1]);
                        assert(text_lt(rv[a - 1], rv[b - 1]));
                    }
                }
                assert forall|t: Seq<char>| #[trigger] nv.contains(t) <==> vt1.contains(t) by {
                    if nv.contains(t) {
                        let j = choose|j: int| 0 <= j < nv.len() && nv[j] == t;
                        if j < k {
                            assert(rv[j] == t);
                            assert(rv.contains(t));
                        } else if j > k {
                            assert(rv[j - 1] == t);
                            assert(rv.contains(t));
                        }
                        if t != x@ {
                            assert(vt.contains(t));
                            let m = choose|m: int| 0 <= m < vt.len() && vt[m] == t;
                            assert(vt1[m] == t);
                        } else {
                            assert(vt1[vt.len() as int] == t);
                        }
                    }
                    if vt1.contains(t) {
                        if t == x@ {
                            assert(nv[k as int] == t);
                        } else {
                            let m = choose|m: int| 0 <= m < vt1.len() && vt1[m] == t;
                            assert(vt[m] == t);
                            assert(vt.contains(t));
                            assert(rv.contains(t));
                            let j = choose|j: int| 0 <= j < rv.len() && rv[j] == t;
                            if j < k {
                                assert(nv[j] == t);
                            } else {
                                assert(nv[j + 1] == t);
                            }
                        }
                    }
                }
            }
        }
        i += 1;
    }
    assert(v@.take(v.len() as int) =~= v@);
    assert(views(r@).to_set() =~= views(v@).to_set());
    r
}

/// Number of bytes of the text in UTF-8.
pub fn byte_len_chars(s: &[char]) -> (n: u128)
    ensures
        n == byte_len(s@),
{
    let mut n: u128 = 0;
    let mut i: usize = 0;
    while i < s.len()
        invariant
            i <= s.len(),
            n == byte_len(s@.take(i as int)),
            n <= 4 * i,
        decreases s.len() - i,
    {
        let c = s[i];
        let w: u128 = if (c as u32) < 0x80 {
            1
        } else if (c as u32) < 0x800 {
            2
        } else if (c as u32) < 0x10000 {
            3
        } else {
            4
        };
        proof {
            assert(s@.take(i + 1) =~= s@.take(i as int).push(c));
            lemma_byte_len_push(s@.take(i as int), c);
        }
        n = n + w;
        i += 1;
    }
    assert(s@.take(s.len() as int) =~= s@);
    n
}

/// `a < b` in the order of `str`.
pub fn text_less(a: &[char], b: &[char]) -> (r: bool)
    ensures
        r == text_lt(a@, b@),
{
    let mut i: usize = 0;
    assert(a@.skip(0) =~= a@);
    assert(b@.skip(0) =~= b@);
    while i < a.len() && i < b.len() && a[i] == b[i]
        invariant
            i <= a.len(),
            i <= b.len(),
            forall|k: int| 0 <= k < i ==> a@[k] == b@[k],
            text_lt(a@, b@) == text_lt(a@.skip(i as int), b@.skip(i as int)),
        decreases a.len() - i,
    {
        proof {
            let sa = a@.skip(i as int);
            let sb = b@.skip(i as int);
            assert(sa.drop_first() =~= a@.skip(i + 1));
            assert(sb.drop_first() =~= b@.skip(i + 1));
        }
        i += 1;
    }
    proof {
        let sa = a@.skip(i as int);
        let sb = b@.skip(i as int);
        if i < a.len() && i < b.len() {
            assert(sa[0] == a@[i as int]);
            assert(sb[0] == b@[i as int]);
        }
    }
    if i == a.len() {
        i < b.len()
    } else if i == b.len() {
        false
    } else {
        a[i] < b[i]
    }
}

/// Whether two texts are equal.
pub fn text_eq(a: &[char], b: &[char]) -> (r: bool)
    ensures
        r == (a@ == b@),
{
    if a.len() != b.len() {
        return false;
    }
    let r = starts_with_chars(a, b);
    assert(a@.take(b.len() as int) =~= a@);
    r
}

/// Decimal text of a natural number.
pub fn dec_u64(n: u64) -> (r: Vec<char>)
    ensures
        r@ == dec_nat(n as nat),
    decreases n,
{
    let d = n % 10;
    let c = if d == 0 {
        '0'
    } else if d == 1 {
        '1'
    } else if d == 2 {
        '2'
    } else if d == 3 {
        '3'
    } else if d == 4 {
        '4'
    } else if d == 5 {
        '5'
    } else if d == 6 {
        '6'
    } else if d == 7 {
        '7'
    } else if d == 8 {
        '8'
    } else {
        '9'
    };
    if n < 10 {
        let mut v = Vec::new();
        v.push(c);
        assert(v@ =~= seq![digit_char(n as nat)]);
        v
    } else {
        let mut v = dec_u64(n / 10);
        v.push(c);
        assert(v@ =~= dec_nat((n / 10) as nat) + seq![digit_char((n % 10) as nat)]);
        v
    }
}

/// Decimal text of a signed integer.
pub fn dec_i64(x: i64) -> (r: Vec<char>)
    ensures
        r@ == dec_int(x as int),
{
    if x < 0 {
        let mag: u64 = if x == i64::MIN {
            9223372036854775808u64
        } else {
            (-x) as u64
        };
        let d = dec_u64(mag);
        let mut r = Vec::new();
        r.push('-');
        let r = concat(&r, &d);
        assert(seq!['-'] =~= seq!['-']);
        r
    } else {
        dec_u64(x as u64)
    }
}

/// Decimal text padded on the left with zeros to `width` digits.
pub fn dec_u64_padded(n: u64, width: usize) -> (r: Vec<char>)
    ensures
        r@ == dec_padded(n as nat, width as nat),
{
    let d = dec_u64(n);
    if d.len() >= width {
        return d;
    }
    let mut z: Vec<char> = Vec::new();
    let pad = width - d.len();
    while z.len() < pad
        invariant
            z.len() <= pad,
            forall|i: int| 0 <= i < z.len() ==> z@[i] == '0',
        decreases pad - z.len(),
    {
        z.push('0');
    }
    assert(z@ =~= Seq::new((width - d@.len()) as nat, |i: int| '0'));
    concat(&z, &d)
}

/// `s.parse::<i64>().ok()`.
pub fn parse_i64_chars(s: &[char]) -> (r: Option<i64>)
    ensures
        r == parse_i64(s@),
{
    let neg = s.len() > 0 && s[0] == '-';
    let start: usize = if s.len() > 0 && (s[0] == '+' || s[0] == '-') {
        1
    } else {
        0
    };
    let ghost digits = if s@.len() > 0 && (s@[0] == '+' || s@[0] == '-') {
        s@.drop_first()
    } else {
        s@
    };
    assert(digits =~= s@.skip(start as int));
    if start == s.len() {
        return None;
    }
    let mut v: u128 = 0;
    let mut i = start;
    while i < s.len()
        invariant
            start <= i <= s.len(),
            digits == s@.skip(start as int),
            digits == (if s@.len() > 0 && (s@[0] == '+' || s@[0] == '-') {
                s@.drop_first()
            } else {
                s@
            }),
            neg == (s@.len() > 0 && s@[0] == '-'),
            all_digits(s@.subrange(start as int, i as int)),
            v == digits_value(s@.subrange(start as int, i as int)),
            v <= 0x8000_0000_0000_0000,
        decreases s.len() - i,
    {
        let c = s[i];
        if !('0' <= c && c <= '9') {
            assert(digits[i - start] == c);
            assert(!is_ascii_digit(digits[i - start]));
            assert(!all_digits(digits));
            return None;
        }
        let d = (c as u32 - '0' as u32) as u128;
        proof {
            assert(s@.subrange(start as int, i + 1) =~= s@.subrange(start as int, i as int).push(c));
            lemma_digits_value_push(s@.subrange(start as int, i as int), c);
        }
        let nv = v * 10 + d;
        if nv > 0x8000_0000_0000_0000u128 {
            proof {
                lemma_digits_value_prefix_bound(digits, (i + 1 - start) as int);
                assert(digits.take((i + 1 - start) as int) =~= s@.subrange(start as int, i + 1));
                assert(all_digits(digits) ==> digits_value(digits) > 0x8000_0000_0000_0000);
            }
            return None;
        }
        v = nv;
        i += 1;
    }
    assert(s@.subrange(start as int, s.len() as int) =~= digits);
    if neg {
        if v == 0x8000_0000_0000_0000u128 {
            Some(i64::MIN)
        } else {
            Some(-(v as i64))
        }
    } else if v <= 0x7fff_ffff_ffff_ffffu128 {
        Some(v as i64)
    } else {
        None
    }
}

/// `str::replace(p, q)` for a non-empty `p`.
pub fn replace_all_chars(s: &[char], p: &[char], q: &[char]) -> (r: Vec<char>)
    requires
        p.len() > 0,
    ensures
        r@ == replace_all(s@, p@, q@),
{
    let mut out: Vec<char> = Vec::new();
    let mut i: usize = 0;
    assert(s@.skip(0) =~= s@);
    assert(out@ + replace_all(s@, p@, q@) =~= replace_all(s@, p@, q@));
    while i < s.len()
        invariant
            i <= s.len(),
            p.len() > 0,
            out@ + replace_all(s@.skip(i as int), p@, q@) == replace_all(s@, p@, q@),
        decreases s.len() - i,
    {
        let ghost rest = s@.skip(i as int);
        if occurs_at_chars(s, p, i) {
            assert(rest.take(p.len() as int) =~= s@.subrange(i as int, i + p.len()));
            assert(rest.skip(p.len() as int) =~= s@.skip(i + p.len()));
            let ghost before = out@;
            out = concat(&out, q);
            assert(out@ + replace_all(s@.skip(i + p.len()), p@, q@) =~= before + (q@ + replace_all(
                rest.skip(p.len() as int),
                p@,
                q@,
            )));
            i += p.len();
        } else {
            proof {
                if rest.len() >= p.len() {
                    assert(rest.take(p.len() as int) =~= s@.subrange(i as int, i + p.len()));
                }
                assert(rest.drop_first() =~= s@.skip(i + 1));
                if rest.len() < p.len() {
                    lemma_replace_all_short(rest.drop_first(), p@, q@);
                    lemma_replace_all_short(rest, p@, q@);
                    assert(rest =~= seq![rest[0]] + rest.drop_first());
                }
            }
            out.push(s[i]);
            assert(out@ =~= out@.drop_last().push(rest[0]));
            assert(seq![rest[0]] + replace_all(rest.drop_first(), p@, q@) == replace_all(rest, p@, q@));
            assert(out@ + replace_all(s@.skip(i + 1), p@, q@) =~= out@.drop_last() + (seq![rest[0]]
                + replace_all(rest.drop_first(), p@, q@)));
            i += 1;
        }
    }
    assert(s@.skip(i as int) =~= Seq::<char>::empty());
    assert(out@ + Seq::<char>::empty() =~= out@);
    out
}

proof fn lemma_replace_all_short(s: Seq<char>, p: Seq<char>, q: Seq<char>)
    requires
        s.len() < p.len(),
    ensures
        replace_all(s, p, q) == s,
{
}

/// `s.parse::<u32>().ok()`.
pub fn parse_u32_chars(s: &[char]) -> (r: Option<u32>)
    ensures
        r == parse_u32(s@),
{
    let start: usize = if s.len() > 0 && s[0] == '+' {
        1
    } else {
        0
    };
    let ghost digits = if s@.len() > 0 && s@[0] == '+' {
        s@.drop_first()
    } else {
        s@
    };
    assert(digits =~= s@.skip(start as int));
    if start == s.len() {
        return None;
    }
    let mut v: u64 = 0;
    let mut i = start;
    while i < s.len()
        invariant
            start <= i <= s.len(),
            digits == s@.skip(start as int),
            digits == (if s@.len() > 0 && s@[0] == '+' {
                s@.drop_first()
            } else {
                s@
            }),
            all_digits(s@.subrange(start as int, i as int)),
            v == digits_value(s@.subrange(start as int, i as int)),
            v <= u32::MAX,
        decreases s.len() - i,
    {
        let c = s[i];
        if !('0' <= c && c <= '9') {
            assert(digits[i - start] == c);
            assert(!is_ascii_digit(digits[i - start]));
            assert(!all_digits(digits));
            return None;
        }
        let d = (c as u32 - '0' as u32) as u64;
        proof {
            assert(s@.subrange(start as int, i + 1) =~= s@.subrange(start as int, i as int).push(c));
            lemma_digits_value_push(s@.subrange(start as int, i as int), c);
        }
        let nv = v * 10 + d;
        if nv > 4294967295u64 {
            proof {
                lemma_digits_value_prefix_bound(digits, (i + 1 - start) as int);
                assert(digits.take((i + 1 - start) as int) =~= s@.subrange(start as int, i + 1));
                assert(all_digits(digits) ==> digits_value(digits) > u32::MAX);
            }
            return None;
        }
        v = nv;
        i += 1;
    }
    assert(s@.subrange(start as int, s.len() as int) =~= digits);
    Some(v as u32)
}

/// A run of digits is worth at least as much as any of its prefixes.
proof fn lemma_digits_value_prefix_bound(s: Seq<char>, k: int)
    requires
        0 <= k <= s.len(),
    ensures
        all_digits(s) ==> digits_value(s.take(k)) <= digits_value(s),
    decreases s.len() - k,
{
    if k < s.len() && all_digits(s) {
        assert(all_digits(s.drop_last()));
        assert(s.drop_last().take(k) =~= s.take(k));
        lemma_digits_value_prefix_bound(s.drop_last(), k);
        assert(digits_value(s) == digits_value(s.drop_last()) * 10 + ((s.last() as u32) - ('0' as u32)) as nat);
        assert(is_ascii_digit(s[s.len() - 1]));
    } else if k == s.len() {
        assert(s.take(k) =~= s);
    }
}

} // verus!
