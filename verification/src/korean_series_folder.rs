//! Folder names for Korean comic series downloads, and the similarity test
//! that finds an existing folder for a series.
use vstd::prelude::*;

use crate::text::{
    byte_len, byte_len_chars, chars_of, concat, contains_seq, dec_i64, dec_int, dec_nat, dec_u64,
    contains_chars, ends_with, ends_with_chars, find_char, lemma_last_index_of, rfind_char,
    sort_dedup_texts, strictly_sorted, first_index_of, has_char, is_ascii_alpha, last_index_of,
    lemma_first_index_of, lemma_trim_len, parse_u32, parse_u32_chars, remove_all,
    remove_all_chars, slice_vec, split_on, split_on_chars, starts_with, starts_with_chars,
    string_of, text_eq, trim, trim_chars, views,
};
use crate::utils::{filename_filter_chars, filtered_file_name};

verus! {

// ---------------------------------------------------------------------------
// Constants of the naming scheme
// ---------------------------------------------------------------------------

/// The category and language marks that may lead a series label.
pub open spec fn meta_token(i: int) -> Seq<char> {
    if i == 0 {
        seq!['韓', '漫']
    } else if i == 1 {
        seq!['漢', '化']
    } else if i == 2 {
        seq!['生', '肉']
    } else if i == 3 {
        seq!['日', '語']
    } else if i == 4 {
        seq!['E', 'n', 'g', 'l', 'i', 's', 'h']
    } else if i == 5 {
        seq!['同', '人', '誌']
    } else if i == 6 {
        seq!['單', '行', '本']
    } else if i == 7 {
        seq!['雜', '誌', '&', '短', '篇']
    } else if i == 8 {
        seq!['3', 'D', '&', '漫', '畫']
    } else {
        seq!['A', 'I', '圖', '集']
    }
}

pub const META_TOKEN_COUNT: usize = 10;

/// The separators that may follow a mark.
pub open spec fn meta_sep(k: int) -> Seq<char> {
    if k == 0 {
        seq![' ', '/', ' ']
    } else if k == 1 {
        seq!['/']
    } else if k == 2 {
        seq![' ']
    } else {
        seq!['／']
    }
}

/// The words that say whether a series is complete; they are ignored when
/// names are compared.
pub open spec fn completion_phrase(i: int) -> Seq<char> {
    if i == 0 {
        seq!['未', '完', '結']
    } else if i == 1 {
        seq!['已', '完', '結']
    } else if i == 2 {
        seq!['連', '載', '中']
    } else if i == 3 {
        seq!['完', '結']
    } else if i == 4 {
        seq!['完', '结']
    } else {
        seq!['完']
    }
}

/// Comparable texts shorter than this many UTF-8 bytes are too weak to match.
pub const MIN_COMPARABLE_LEN: u128 = 2;

pub open spec fn unsorted_prefix() -> Seq<char> {
    seq!['未', '分', '類']
}

pub open spec fn sorted_prefix() -> Seq<char> {
    seq!['分', '類']
}

fn meta_token_chars(i: usize) -> (v: Vec<char>)
    requires
        i < 10,
    ensures
        v@ == meta_token(i as int),
{
    let v = if i == 0 {
        vec!['韓', '漫']
    } else if i == 1 {
        vec!['漢', '化']
    } else if i == 2 {
        vec!['生', '肉']
    } else if i == 3 {
        vec!['日', '語']
    } else if i == 4 {
        vec!['E', 'n', 'g', 'l', 'i', 's', 'h']
    } else if i == 5 {
        vec!['同', '人', '誌']
    } else if i == 6 {
        vec!['單', '行', '本']
    } else if i == 7 {
        vec!['雜', '誌', '&', '短', '篇']
    } else if i == 8 {
        vec!['3', 'D', '&', '漫', '畫']
    } else {
        vec!['A', 'I', '圖', '集']
    };
    assert(v@ =~= meta_token(i as int));
    v
}

fn meta_sep_chars(k: usize) -> (v: Vec<char>)
    requires
        k < 4,
    ensures
        v@ == meta_sep(k as int),
{
    let v = if k == 0 {
        vec![' ', '/', ' ']
    } else if k == 1 {
        vec!['/']
    } else if k == 2 {
        vec![' ']
    } else {
        vec!['／']
    };
    assert(v@ =~= meta_sep(k as int));
    v
}

fn completion_phrase_chars(i: usize) -> (v: Vec<char>)
    requires
        i < 6,
    ensures
        v@ == completion_phrase(i as int),
{
    let v = if i == 0 {
        vec!['未', '完', '結']
    } else if i == 1 {
        vec!['已', '完', '結']
    } else if i == 2 {
        vec!['連', '載', '中']
    } else if i == 3 {
        vec!['完', '結']
    } else if i == 4 {
        vec!['完', '结']
    } else {
        vec!['完']
    };
    assert(v@ =~= completion_phrase(i as int));
    v
}

// ---------------------------------------------------------------------------
// Comparable text
// ---------------------------------------------------------------------------

/// CJK ideographs and ASCII letters are the characters that names are
/// compared by.
pub open spec fn is_comparable_char(c: char) -> bool {
    ('\u{4e00}' <= c && c <= '\u{9fff}') || ('\u{3400}' <= c && c <= '\u{4dbf}') || is_ascii_alpha(
        c,
    )
}

/// Lower case of a comparable character: ideographs have no case.
pub open spec fn comparable_lower(c: char) -> char {
    if 'A' <= c && c <= 'Z' {
        ((c as u32) + 32) as char
    } else {
        c
    }
}

pub open spec fn comparable_filter(s: Seq<char>) -> Seq<char>
    decreases s.len(),
{
    if s.len() == 0 {
        Seq::empty()
    } else if is_comparable_char(s.last()) {
        comparable_filter(s.drop_last()).push(comparable_lower(s.last()))
    } else {
        comparable_filter(s.drop_last())
    }
}

pub open spec fn remove_phrases(s: Seq<char>, i: int) -> Seq<char>
    decreases 6 - i,
{
    if i >= 6 || i < 0 {
        s
    } else {
        remove_phrases(remove_all(s, completion_phrase(i)), i + 1)
    }
}

/// The ideographs and lower-cased ASCII letters of a text, without the
/// completion words.
pub open spec fn comparable_text(s: Seq<char>) -> Seq<char> {
    remove_phrases(comparable_filter(s), 0)
}

/// A text is strong enough to be compared when its comparable text has at
/// least two UTF-8 bytes.
pub open spec fn comparable_enough(s: Seq<char>) -> bool {
    byte_len(comparable_text(s)) >= 2
}

fn comparable_lower_exec(c: char) -> (r: char)
    ensures
        r == comparable_lower(c),
{
    if 'A' <= c && c <= 'Z' {
        let u = (c as u32) + 32;
        let r = (u as u8) as char;
        assert((u as u8) as int == u as int);
        assert(r == ((c as u32) + 32) as char);
        r
    } else {
        c
    }
}

fn extract_comparable_text(text: &[char]) -> (r: Vec<char>)
    ensures
        r@ == comparable_text(text@),
{
    let mut buf: Vec<char> = Vec::new();
    let mut i: usize = 0;
    while i < text.len()
        invariant
            i <= text.len(),
            buf@ == comparable_filter(text@.take(i as int)),
        decreases text.len() - i,
    {
        let c = text[i];
        assert(text@.take(i + 1).drop_last() =~= text@.take(i as int));
        if ('\u{4e00}' <= c && c <= '\u{9fff}') || ('\u{3400}' <= c && c <= '\u{4dbf}') || ('a'
            <= c && c <= 'z') || ('A' <= c && c <= 'Z') {
            buf.push(comparable_lower_exec(c));
        }
        i += 1;
    }
    assert(text@.take(text.len() as int) =~= text@);
    let mut k: usize = 0;
    while k < 6
        invariant
            k <= 6,
            remove_phrases(buf@, k as int) == comparable_text(text@),
        decreases 6 - k,
    {
        let phrase = completion_phrase_chars(k);
        buf = remove_all_chars(&buf, &phrase);
        k += 1;
    }
    buf
}

fn is_comparable_enough(text: &[char]) -> (b: bool)
    ensures
        b == comparable_enough(text@),
{
    let c = extract_comparable_text(text);
    byte_len_chars(&c) >= MIN_COMPARABLE_LEN
}

// ---------------------------------------------------------------------------
// Stripping the leading marks of a series label
// ---------------------------------------------------------------------------

pub open spec fn is_mark_gap(c: char) -> bool {
    c == ' ' || c == '/' || c == '／'
}

pub open spec fn trim_start_gaps(s: Seq<char>) -> Seq<char>
    decreases s.len(),
{
    if s.len() > 0 && is_mark_gap(s[0]) {
        trim_start_gaps(s.drop_first())
    } else {
        s
    }
}

/// The label after the first of the separators (from `k` on) that follows
/// `tok` at its start, or the label itself.
pub open spec fn after_mark_and_sep(s: Seq<char>, tok: Seq<char>, k: int) -> Seq<char>
    decreases 4 - k,
{
    if k >= 4 || k < 0 {
        s
    } else if starts_with(s, tok + meta_sep(k)) {
        trim(s.skip((tok + meta_sep(k)).len() as int))
    } else {
        after_mark_and_sep(s, tok, k + 1)
    }
}

/// One mark's turn in a pass over the marks.
pub open spec fn token_step(s: Seq<char>, tok: Seq<char>) -> Seq<char> {
    let s1 = after_mark_and_sep(s, tok, 0);
    let s2 = if s1 == tok {
        Seq::empty()
    } else {
        s1
    };
    if starts_with(s2, tok.push(' ')) || starts_with(s2, tok.push('/')) {
        trim(trim_start_gaps(s2.skip(tok.len() as int)))
    } else {
        s2
    }
}

/// A pass over the marks from the `i`-th on.
pub open spec fn meta_pass(s: Seq<char>, i: int) -> Seq<char>
    decreases 10 - i,
{
    if i >= 10 || i < 0 {
        s
    } else {
        meta_pass(token_step(s, meta_token(i)), i + 1)
    }
}

/// Passes over the marks until one changes nothing.
pub open spec fn strip_marks(s: Seq<char>) -> Seq<char>
    decreases s.len(),
{
    let t = meta_pass(s, 0);
    if t.len() < s.len() {
        strip_marks(t)
    } else {
        s
    }
}

/// The non-empty trimmed pieces.
pub open spec fn nonempty_trimmed(parts: Seq<Seq<char>>) -> Seq<Seq<char>>
    decreases parts.len(),
{
    if parts.len() == 0 {
        Seq::empty()
    } else if trim(parts.last()).len() > 0 {
        nonempty_trimmed(parts.drop_last()).push(trim(parts.last()))
    } else {
        nonempty_trimmed(parts.drop_last())
    }
}

/// A label of the form `韓漫 · 系列名` (a search scope) keeps only its last part.
pub open spec fn after_scope_dot(s: Seq<char>) -> Seq<char> {
    if s.contains('·') {
        let parts = nonempty_trimmed(split_on(s, seq!['·']));
        if parts.len() > 1 && comparable_enough(parts.last()) {
            parts.last()
        } else {
            s
        }
    } else {
        s
    }
}

/// The series name in a label: without the scope prefix and the leading
/// category and language marks.
pub open spec fn series_label_core(label: Seq<char>) -> Seq<char> {
    strip_marks(after_scope_dot(trim(label)))
}

/// A text that begins with none of the marks followed by a separator and is
/// not a mark alone.
pub open spec fn free_of_marks(s: Seq<char>) -> bool {
    forall|i: int, k: int|
        0 <= i < 10 && 0 <= k < 4 ==> !starts_with(s, #[trigger] meta_token(i) + #[trigger] meta_sep(k))
            && s != meta_token(i)
}

proof fn lemma_trim_start_gaps_len(s: Seq<char>)
    ensures
        trim_start_gaps(s).len() <= s.len(),
    decreases s.len(),
{
    if s.len() > 0 && is_mark_gap(s[0]) {
        lemma_trim_start_gaps_len(s.drop_first());
    }
}

proof fn lemma_after_mark_and_sep(s: Seq<char>, tok: Seq<char>, k: int)
    requires
        tok.len() > 0,
        0 <= k <= 4,
    ensures
        after_mark_and_sep(s, tok, k) == s || after_mark_and_sep(s, tok, k).len() < s.len(),
        after_mark_and_sep(s, tok, k) == s ==> forall|j: int|
            k <= j < 4 ==> !starts_with(s, tok + #[trigger] meta_sep(j)),
    decreases 4 - k,
{
    if k < 4 {
        if starts_with(s, tok + meta_sep(k)) {
            let p = tok + meta_sep(k);
            lemma_trim_len(s.skip(p.len() as int));
        } else {
            lemma_after_mark_and_sep(s, tok, k + 1);
        }
    }
}

proof fn lemma_token_step(s: Seq<char>, tok: Seq<char>)
    requires
        tok.len() > 0,
    ensures
        token_step(s, tok) == s || token_step(s, tok).len() < s.len(),
        token_step(s, tok) == s ==> s != tok && forall|j: int|
            0 <= j < 4 ==> !starts_with(s, tok + #[trigger] meta_sep(j)),
{
    lemma_after_mark_and_sep(s, tok, 0);
    let s1 = after_mark_and_sep(s, tok, 0);
    let s2 = if s1 == tok {
        Seq::<char>::empty()
    } else {
        s1
    };
    if starts_with(s2, tok.push(' ')) || starts_with(s2, tok.push('/')) {
        lemma_trim_start_gaps_len(s2.skip(tok.len() as int));
        lemma_trim_len(trim_start_gaps(s2.skip(tok.len() as int)));
    }
}

proof fn lemma_meta_pass(s: Seq<char>, i: int)
    requires
        0 <= i <= 10,
    ensures
        meta_pass(s, i) == s || meta_pass(s, i).len() < s.len(),
        meta_pass(s, i) == s ==> forall|j: int, k: int|
            i <= j < 10 && 0 <= k < 4 ==> !starts_with(s, #[trigger] meta_token(j) + #[trigger] meta_sep(k))
                && s != meta_token(j),
    decreases 10 - i,
{
    if i < 10 {
        let t = token_step(s, meta_token(i));
        lemma_token_step(s, meta_token(i));
        lemma_meta_pass(t, i + 1);
    }
}

/// What is left after the marks are stripped begins with no mark.
proof fn lemma_strip_marks_free(s: Seq<char>)
    ensures
        free_of_marks(strip_marks(s)),
    decreases s.len(),
{
    let t = meta_pass(s, 0);
    lemma_meta_pass(s, 0);
    if t.len() < s.len() {
        lemma_strip_marks_free(t);
    }
}

/// A trimmed text without the scope dot `·`.
pub open spec fn trimmed_without_dot(s: Seq<char>) -> bool {
    crate::text::is_trimmed(s) && !s.contains('·')
}

proof fn lemma_piece_without_dot(s: Seq<char>, a: int, b: int)
    requires
        0 <= a <= b <= s.len(),
        !s.contains('·'),
    ensures
        !s.subrange(a, b).contains('·'),
{
    if s.subrange(a, b).contains('·') {
        let j = choose|j: int| 0 <= j < b - a && s.subrange(a, b)[j] == '·';
        assert(s[a + j] == '·');
    }
}

/// Trimming a piece without the dot after dropping `n` characters.
proof fn lemma_trim_skip_without_dot(s: Seq<char>, n: int)
    requires
        0 <= n <= s.len(),
        !s.contains('·'),
    ensures
        trimmed_without_dot(trim(s.skip(n))),
{
    lemma_piece_without_dot(s, n, s.len() as int);
    assert(s.skip(n) =~= s.subrange(n, s.len() as int));
    crate::text::lemma_trim_shape(s.skip(n));
    let u = s.skip(n);
    let (a, b) = choose|a: int, b: int| 0 <= a <= b <= u.len() && trim(u) == #[trigger] u.subrange(a, b);
    lemma_piece_without_dot(u, a, b);
}

proof fn lemma_trim_start_gaps_skip(s: Seq<char>)
    ensures
        exists|k: int| 0 <= k <= s.len() && trim_start_gaps(s) == #[trigger] s.skip(k),
    decreases s.len(),
{
    if s.len() > 0 && is_mark_gap(s[0]) {
        lemma_trim_start_gaps_skip(s.drop_first());
        let k = choose|k: int| 0 <= k <= s.drop_first().len() && trim_start_gaps(s.drop_first()) == #[trigger] s.drop_first().skip(k);
        assert(s.drop_first().skip(k) =~= s.skip(k + 1));
    } else {
        assert(s.skip(0) =~= s);
    }
}

proof fn lemma_after_mark_keeps(s: Seq<char>, tok: Seq<char>, k: int)
    requires
        trimmed_without_dot(s),
    ensures
        trimmed_without_dot(after_mark_and_sep(s, tok, k)),
    decreases 4 - k,
{
    if k >= 4 || k < 0 {
    } else if starts_with(s, tok + meta_sep(k)) {
        lemma_trim_skip_without_dot(s, (tok + meta_sep(k)).len() as int);
    } else {
        lemma_after_mark_keeps(s, tok, k + 1);
    }
}

proof fn lemma_token_step_keeps(s: Seq<char>, tok: Seq<char>)
    requires
        trimmed_without_dot(s),
    ensures
        trimmed_without_dot(token_step(s, tok)),
{
    lemma_after_mark_keeps(s, tok, 0);
    let s1 = after_mark_and_sep(s, tok, 0);
    let s2 = if s1 == tok {
        Seq::<char>::empty()
    } else {
        s1
    };
    assert(trimmed_without_dot(s2));
    if starts_with(s2, tok.push(' ')) || starts_with(s2, tok.push('/')) {
        let u = s2.skip(tok.len() as int);
        lemma_piece_without_dot(s2, tok.len() as int, s2.len() as int);
        assert(u =~= s2.subrange(tok.len() as int, s2.len() as int));
        lemma_trim_start_gaps_skip(u);
        let k = choose|k: int| 0 <= k <= u.len() && trim_start_gaps(u) == #[trigger] u.skip(k);
        lemma_trim_skip_without_dot(u, k);
    }
}

proof fn lemma_meta_pass_keeps(s: Seq<char>, i: int)
    requires
        trimmed_without_dot(s),
    ensures
        trimmed_without_dot(meta_pass(s, i)),
    decreases 10 - i,
{
    if !(i >= 10 || i < 0) {
        lemma_token_step_keeps(s, meta_token(i));
        lemma_meta_pass_keeps(token_step(s, meta_token(i)), i + 1);
    }
}

proof fn lemma_strip_marks_keeps(s: Seq<char>)
    requires
        trimmed_without_dot(s),
    ensures
        trimmed_without_dot(strip_marks(s)),
    decreases s.len(),
{
    let t = meta_pass(s, 0);
    lemma_meta_pass_keeps(s, 0);
    if t.len() < s.len() {
        lemma_strip_marks_keeps(t);
    }
}

proof fn lemma_strip_marks_settled(s: Seq<char>)
    ensures
        meta_pass(strip_marks(s), 0).len() >= strip_marks(s).len(),
    decreases s.len(),
{
    let t = meta_pass(s, 0);
    if t.len() < s.len() {
        lemma_strip_marks_settled(t);
    }
}

/// Stripping the marks twice is stripping them once.
pub proof fn lemma_strip_marks_idempotent(s: Seq<char>)
    ensures
        strip_marks(strip_marks(s)) == strip_marks(s),
{
    lemma_strip_marks_settled(s);
}

proof fn lemma_nonempty_trimmed_pieces(parts: Seq<Seq<char>>)
    requires
        forall|i: int, j: int| 0 <= i < parts.len() && 0 <= j < parts[i].len() ==> #[trigger] parts[i][j] != '·',
    ensures
        forall|i: int| 0 <= i < nonempty_trimmed(parts).len() ==> trimmed_without_dot(#[trigger] nonempty_trimmed(parts)[i]),
    decreases parts.len(),
{
    if parts.len() > 0 {
        let d = parts.drop_last();
        assert forall|i: int, j: int| 0 <= i < d.len() && 0 <= j < d[i].len() implies #[trigger] d[i][j] != '·' by {
            assert(d[i] == parts[i]);
        }
        lemma_nonempty_trimmed_pieces(d);
        let l = parts.last();
        assert(!l.contains('·')) by {
            if l.contains('·') {
                let j = choose|j: int| 0 <= j < l.len() && l[j] == '·';
                assert(parts[parts.len() - 1][j] == '·');
            }
        }
        assert(l.skip(0) =~= l);
        lemma_trim_skip_without_dot(l, 0);
        let nd = nonempty_trimmed(d);
        assert forall|i: int| 0 <= i < nonempty_trimmed(parts).len() implies trimmed_without_dot(#[trigger] nonempty_trimmed(parts)[i]) by {
            if trim(l).len() > 0 {
                assert(nonempty_trimmed(parts) == nd.push(trim(l)));
                if i < nd.len() {
                    assert(nonempty_trimmed(parts)[i] == nd[i]);
                }
            } else {
                assert(nonempty_trimmed(parts) == nd);
            }
        }
    }
}

/// `x` is `s` with text free of `·` cut from its front and white space cut
/// from its back, or `x` holds no `·` at all.
pub open spec fn cut_piece(x: Seq<char>, s: Seq<char>) -> bool {
    !x.contains('·') || exists|a: int, b: int|
        0 <= a <= b <= s.len() && x == #[trigger] s.subrange(a, b) && !s.take(a).contains('·') && (forall|j: int|
            b <= j < s.len() ==> crate::text::is_white_space(#[trigger] s[j]))
}

proof fn lemma_cut_refl(s: Seq<char>)
    ensures
        cut_piece(s, s),
{
    assert(s.subrange(0, s.len() as int) =~= s);
    assert(s.take(0) =~= Seq::<char>::empty());
}

proof fn lemma_cut_trans(y: Seq<char>, x: Seq<char>, s: Seq<char>)
    requires
        cut_piece(y, x),
        cut_piece(x, s),
    ensures
        cut_piece(y, s),
{
    if y.contains('·') {
        let (a2, b2) = choose|a: int, b: int|
            0 <= a <= b <= x.len() && y == #[trigger] x.subrange(a, b) && !x.take(a).contains('·') && (forall|j: int|
                b <= j < x.len() ==> crate::text::is_white_space(#[trigger] x[j]));
        assert(x.contains('·')) by {
            let j = choose|j: int| 0 <= j < y.len() && y[j] == '·';
            assert(x[a2 + j] == '·');
        }
        let (a1, b1) = choose|a: int, b: int|
            0 <= a <= b <= s.len() && x == #[trigger] s.subrange(a, b) && !s.take(a).contains('·') && (forall|j: int|
                b <= j < s.len() ==> crate::text::is_white_space(#[trigger] s[j]));
        assert(y =~= s.subrange(a1 + a2, a1 + b2));
        let pre = s.take(a1 + a2);
        assert(!pre.contains('·')) by {
            if pre.contains('·') {
                let j = choose|j: int| 0 <= j < pre.len() && pre[j] == '·';
                if j < a1 {
                    assert(s.take(a1)[j] == '·');
                } else {
                    assert(x.take(a2)[j - a1] == '·');
                }
            }
        }
        assert forall|j: int| a1 + b2 <= j < s.len() implies crate::text::is_white_space(#[trigger] s[j]) by {
            if j < b1 {
                assert(s[j] == x[j - a1]);
            }
        }
        assert(s.subrange(a1 + a2, a1 + b2) == s.subrange(a1 + a2, a1 + b2));
    }
}

proof fn lemma_cut_trim(s: Seq<char>)
    ensures
        cut_piece(trim(s), s),
{
    crate::text::lemma_trim_cuts(s);
    let (a, b) = choose|a: int, b: int|
        0 <= a <= b <= s.len() && trim(s) == #[trigger] s.subrange(a, b) && (forall|j: int|
            0 <= j < a ==> crate::text::is_white_space(#[trigger] s[j])) && (forall|j: int|
            b <= j < s.len() ==> crate::text::is_white_space(#[trigger] s[j]));
    assert(!s.take(a).contains('·')) by {
        if s.take(a).contains('·') {
            let j = choose|j: int| 0 <= j < a && s.take(a)[j] == '·';
            assert(crate::text::is_white_space(s[j]));
        }
    }
}

proof fn lemma_cut_skip(s: Seq<char>, n: int)
    requires
        0 <= n <= s.len(),
        !s.take(n).contains('·'),
    ensures
        cut_piece(s.skip(n), s),
{
    assert(s.skip(n) =~= s.subrange(n, s.len() as int));
}

proof fn lemma_meta_texts_without_dot(i: int, k: int)
    ensures
        !(meta_token(i) + meta_sep(k)).contains('·'),
        !meta_token(i).contains('·'),
{
    let t = meta_token(i) + meta_sep(k);
    if t.contains('·') {
        let j = choose|j: int| 0 <= j < t.len() && t[j] == '·';
        if j < meta_token(i).len() {
            assert(meta_token(i)[j] == '·');
        } else {
            assert(meta_sep(k)[j - meta_token(i).len()] == '·');
        }
    }
}

proof fn lemma_cut_gaps(s: Seq<char>)
    ensures
        cut_piece(trim_start_gaps(s), s),
    decreases s.len(),
{
    if s.len() > 0 && is_mark_gap(s[0]) {
        lemma_cut_gaps(s.drop_first());
        lemma_cut_skip(s, 1);
        assert(s.skip(1) =~= s.drop_first());
        lemma_cut_trans(trim_start_gaps(s.drop_first()), s.drop_first(), s);
    } else {
        lemma_cut_refl(s);
    }
}

proof fn lemma_cut_after_mark(s: Seq<char>, i: int, k: int)
    ensures
        cut_piece(after_mark_and_sep(s, meta_token(i), k), s),
        crate::text::is_trimmed(s) ==> crate::text::is_trimmed(after_mark_and_sep(s, meta_token(i), k)),
    decreases 4 - k,
{
    let tok = meta_token(i);
    if k >= 4 || k < 0 {
        lemma_cut_refl(s);
    } else if starts_with(s, tok + meta_sep(k)) {
        let n = (tok + meta_sep(k)).len() as int;
        lemma_meta_texts_without_dot(i, k);
        assert(s.take(n) == tok + meta_sep(k));
        lemma_cut_skip(s, n);
        lemma_cut_trim(s.skip(n));
        lemma_cut_trans(trim(s.skip(n)), s.skip(n), s);
        crate::text::lemma_trim_shape(s.skip(n));
    } else {
        lemma_cut_after_mark(s, i, k + 1);
    }
}

proof fn lemma_cut_token_step(s: Seq<char>, i: int)
    ensures
        cut_piece(token_step(s, meta_token(i)), s),
        crate::text::is_trimmed(s) ==> crate::text::is_trimmed(token_step(s, meta_token(i))),
{
    let tok = meta_token(i);
    lemma_cut_after_mark(s, i, 0);
    let s1 = after_mark_and_sep(s, tok, 0);
    let s2 = if s1 == tok {
        Seq::<char>::empty()
    } else {
        s1
    };
    assert(cut_piece(s2, s));
    if starts_with(s2, tok.push(' ')) || starts_with(s2, tok.push('/')) {
        let n = tok.len() as int;
        lemma_meta_texts_without_dot(i, 0);
        assert(s2.take(n) =~= tok) by {
            if starts_with(s2, tok.push(' ')) {
                assert(s2.take(n) =~= tok.push(' ').take(n));
            } else {
                assert(s2.take(n) =~= tok.push('/').take(n));
            }
        }
        lemma_cut_skip(s2, n);
        lemma_cut_gaps(s2.skip(n));
        lemma_cut_trans(trim_start_gaps(s2.skip(n)), s2.skip(n), s2);
        lemma_cut_trim(trim_start_gaps(s2.skip(n)));
        lemma_cut_trans(trim(trim_start_gaps(s2.skip(n))), trim_start_gaps(s2.skip(n)), s2);
        lemma_cut_trans(trim(trim_start_gaps(s2.skip(n))), s2, s);
        crate::text::lemma_trim_shape(trim_start_gaps(s2.skip(n)));
    }
}

proof fn lemma_cut_meta_pass(s: Seq<char>, i: int)
    ensures
        cut_piece(meta_pass(s, i), s),
        crate::text::is_trimmed(s) ==> crate::text::is_trimmed(meta_pass(s, i)),
    decreases 10 - i,
{
    if i >= 10 || i < 0 {
        lemma_cut_refl(s);
    } else {
        let t = token_step(s, meta_token(i));
        lemma_cut_token_step(s, i);
        lemma_cut_meta_pass(t, i + 1);
        lemma_cut_trans(meta_pass(t, i + 1), t, s);
    }
}

proof fn lemma_cut_strip_marks(s: Seq<char>)
    ensures
        cut_piece(strip_marks(s), s),
        crate::text::is_trimmed(s) ==> crate::text::is_trimmed(strip_marks(s)),
    decreases s.len(),
{
    let t = meta_pass(s, 0);
    lemma_cut_meta_pass(s, 0);
    if t.len() < s.len() {
        lemma_cut_strip_marks(t);
        lemma_cut_trans(strip_marks(t), t, s);
    } else {
        lemma_cut_refl(s);
    }
}

proof fn lemma_nt_compare(a: Seq<Seq<char>>, b: Seq<Seq<char>>)
    requires
        a.len() == b.len(),
        a.len() >= 1,
        forall|i: int| 1 <= i < a.len() ==> trim(#[trigger] a[i]) == trim(b[i]),
        trim(a[0]).len() > 0 ==> trim(b[0]).len() > 0,
    ensures
        nonempty_trimmed(a).len() <= nonempty_trimmed(b).len(),
        nonempty_trimmed(a).len() > 1 ==> nonempty_trimmed(a).last() == nonempty_trimmed(b).last(),
    decreases a.len(),
{
    let a1 = a.drop_last();
    let b1 = b.drop_last();
    if a.len() == 1 {
        assert(nonempty_trimmed(a1).len() == 0);
        assert(nonempty_trimmed(b1).len() == 0);
    } else {
        assert forall|i: int| 1 <= i < a1.len() implies trim(#[trigger] a1[i]) == trim(b1[i]) by {
            assert(a1[i] == a[i] && b1[i] == b[i]);
        }
        assert(a1[0] == a[0] && b1[0] == b[0]);
        lemma_nt_compare(a1, b1);
        assert(trim(a.last()) == trim(b.last())) by {
            assert(a.last() == a[a.len() - 1]);
            assert(b.last() == b[b.len() - 1]);
        }
    }
}

proof fn lemma_nt_elements_trimmed(parts: Seq<Seq<char>>)
    ensures
        forall|i: int| 0 <= i < nonempty_trimmed(parts).len() ==> crate::text::is_trimmed(#[trigger] nonempty_trimmed(parts)[i]),
    decreases parts.len(),
{
    if parts.len() > 0 {
        let d = parts.drop_last();
        lemma_nt_elements_trimmed(d);
        crate::text::lemma_trim_shape(parts.last());
        let nd = nonempty_trimmed(d);
        assert forall|i: int| 0 <= i < nonempty_trimmed(parts).len() implies crate::text::is_trimmed(#[trigger] nonempty_trimmed(parts)[i]) by {
            if trim(parts.last()).len() > 0 {
                assert(nonempty_trimmed(parts) == nd.push(trim(parts.last())));
                if i < nd.len() {
                    assert(nonempty_trimmed(parts)[i] == nd[i]);
                }
            } else {
                assert(nonempty_trimmed(parts) == nd);
            }
        }
    }
}

proof fn lemma_cut_split_pieces(p: Seq<char>, x: Seq<char>, w: Seq<char>)
    requires
        !p.contains('·'),
        forall|j: int| 0 <= j < w.len() ==> crate::text::is_white_space(#[trigger] w[j]),
    ensures
        split_on(x, seq!['·']).len() >= 1,
        split_on(x, seq!['·']).len() == split_on(p + (x + w), seq!['·']).len(),
        forall|i: int|
            1 <= i < split_on(x, seq!['·']).len() ==> trim(#[trigger] split_on(x, seq!['·'])[i]) == trim(
                split_on(p + (x + w), seq!['·'])[i],
            ),
        trim(split_on(x, seq!['·'])[0]).len() > 0 ==> trim(split_on(p + (x + w), seq!['·'])[0]).len() > 0,
{
    let dot = seq!['·'];
    assert forall|j: int| 0 <= j < p.len() implies !dot.contains(#[trigger] p[j]) by {
        if dot.contains(p[j]) {
            assert(dot[0] == '·');
            assert(p.contains(p[j]));
        }
    }
    assert forall|j: int| 0 <= j < w.len() implies !dot.contains(#[trigger] w[j]) by {
        assert(crate::text::is_white_space(w[j]));
        if dot.contains(w[j]) {
            assert(dot[0] == '·');
        }
    }
    crate::text::lemma_split_on_back(x, w, dot);
    crate::text::lemma_split_on_front(p, x + w, dot);
    let sx = split_on(x, dot);
    let sxw = split_on(x + w, dot);
    let st = split_on(p + (x + w), dot);
    assert(sx.len() >= 1) by {
        reveal(split_on);
    }
    assert forall|i: int| 1 <= i < sx.len() implies trim(#[trigger] sx[i]) == trim(st[i]) by {
        assert(st[i] == sxw[i]);
        if i == sx.len() - 1 {
            assert(sxw[i] == sxw.last());
            assert(sx[i] == sx.last());
            crate::text::lemma_trim_append_white(sx.last(), w);
        }
    }
    if trim(sx[0]).len() > 0 {
        crate::text::lemma_trim_empty(sx[0]);
        let j = choose|j: int| 0 <= j < sx[0].len() && !crate::text::is_white_space(#[trigger] sx[0][j]);
        if sx.len() == 1 {
            assert(sxw[0] == sxw.last());
            assert(sx[0] == sx.last());
            assert(sxw[0][j] == sx[0][j]);
        } else {
            assert(sxw[0] == sx[0]);
        }
        assert(st[0][p.len() + j] == sxw[0][j]);
        crate::text::lemma_trim_empty(st[0]);
    }
}

proof fn lemma_cut_decompose(t: Seq<char>, x: Seq<char>) -> (pw: (Seq<char>, Seq<char>))
    requires
        cut_piece(x, t),
        x.contains('·'),
    ensures
        t == pw.0 + (x + pw.1),
        !pw.0.contains('·'),
        forall|j: int| 0 <= j < pw.1.len() ==> crate::text::is_white_space(#[trigger] pw.1[j]),
{
    let (a, b) = choose|a: int, b: int|
        0 <= a <= b <= t.len() && x == #[trigger] t.subrange(a, b) && !t.take(a).contains('·') && (forall|j: int|
            b <= j < t.len() ==> crate::text::is_white_space(#[trigger] t[j]));
    let p = t.take(a);
    let w = t.skip(b);
    assert(t =~= p + (x + w));
    assert forall|j: int| 0 <= j < w.len() implies crate::text::is_white_space(#[trigger] w[j]) by {
        assert(w[j] == t[b + j]);
    }
    (p, w)
}

/// The last non-empty piece of a text split at `·` is trimmed and holds no `·`.
proof fn lemma_last_piece_without_dot(t: Seq<char>)
    ensures
        nonempty_trimmed(split_on(t, seq!['·'])).len() > 0 ==> trimmed_without_dot(
            nonempty_trimmed(split_on(t, seq!['·'])).last(),
        ),
{
    let parts = nonempty_trimmed(split_on(t, seq!['·']));
    crate::text::lemma_split_on_pieces(t, seq!['·']);
    let sp = split_on(t, seq!['·']);
    assert forall|i: int, j: int| 0 <= i < sp.len() && 0 <= j < sp[i].len() implies #[trigger] sp[i][j] != '·' by {
        assert(!seq!['·'].contains(sp[i][j]));
        if sp[i][j] == '·' {
            assert(seq!['·'][0] == '·');
        }
    }
    lemma_nonempty_trimmed_pieces(sp);
    if parts.len() > 0 {
        assert(trimmed_without_dot(parts[parts.len() - 1]));
    }
}

/// When the pieces of `x` are no more than those of `t` and share its last
/// one, a scope prefix that `t` keeps is kept in `x` too.
proof fn lemma_scope_dot_keep(x: Seq<char>, t: Seq<char>)
    requires
        x.contains('·'),
        t.contains('·'),
        after_scope_dot(t) == t,
        nonempty_trimmed(split_on(t, seq!['·'])).len() > 0 ==> !nonempty_trimmed(
            split_on(t, seq!['·']),
        ).last().contains('·'),
        nonempty_trimmed(split_on(x, seq!['·'])).len() > 1 ==> nonempty_trimmed(split_on(t, seq!['·'])).len()
            > 1 && nonempty_trimmed(split_on(x, seq!['·'])).last() == nonempty_trimmed(
            split_on(t, seq!['·']),
        ).last(),
    ensures
        after_scope_dot(x) == x,
{
    let nt = nonempty_trimmed(split_on(t, seq!['·']));
    assert(!(nt.len() > 1 && comparable_enough(nt.last()))) by {
        if nt.len() > 1 && comparable_enough(nt.last()) {
            assert(after_scope_dot(t) == nt.last());
            assert(!nt.last().contains('·'));
        }
    }
}

/// A label whose scope prefix is kept keeps it after its front is cut.
#[verifier::spinoff_prover]
proof fn lemma_scope_dot_stays(t: Seq<char>, x: Seq<char>)
    requires
        after_scope_dot(t) == t,
        cut_piece(x, t),
    ensures
        after_scope_dot(x) == x,
{
    if x.contains('·') {
        let dot = seq!['·'];
        let (p, w) = lemma_cut_decompose(t, x);
        assert(t.contains('·')) by {
            let j = choose|j: int| 0 <= j < x.len() && x[j] == '·';
            assert(t[p.len() + j] == '·');
        }
        lemma_cut_split_pieces(p, x, w);
        assert(split_on(t, dot) == split_on(p + (x + w), dot));
        lemma_nt_compare(split_on(x, dot), split_on(t, dot));
        lemma_last_piece_without_dot(t);
        lemma_scope_dot_keep(x, t);
    }
}

/// Taking the series name of the series name changes nothing.
pub proof fn lemma_series_label_core_idempotent(label: Seq<char>)
    ensures
        series_label_core(series_label_core(label)) == series_label_core(label),
{
    let t = trim(label);
    let u = after_scope_dot(t);
    crate::text::lemma_trim_shape(label);
    if u != t {
        let parts = nonempty_trimmed(split_on(t, seq!['·']));
        lemma_last_piece_without_dot(t);
        assert(u == parts.last());
        lemma_strip_marks_keeps(u);
        assert(after_scope_dot(strip_marks(u)) == strip_marks(u));
    } else {
        lemma_cut_strip_marks(u);
        lemma_scope_dot_stays(t, strip_marks(u));
    }
    let x = strip_marks(u);
    crate::text::lemma_trim_of_trimmed(x);
    lemma_strip_marks_idempotent(u);
}

/// Trims `/`, `／` and spaces at the start.
fn trim_start_gaps_exec(s: &[char]) -> (r: Vec<char>)
    ensures
        r@ == trim_start_gaps(s@),
{
    let mut i: usize = 0;
    assert(s@.skip(0) =~= s@);
    while i < s.len() && (s[i] == ' ' || s[i] == '/' || s[i] == '／')
        invariant
            i <= s.len(),
            trim_start_gaps(s@) == trim_start_gaps(s@.skip(i as int)),
        decreases s.len() - i,
    {
        assert(s@.skip(i as int).drop_first() =~= s@.skip(i + 1));
        i += 1;
    }
    proof {
        if i < s.len() {
            assert(s@.skip(i as int)[0] == s@[i as int]);
        }
    }
    let r = slice_vec(s, i, s.len());
    assert(r@ =~= s@.skip(i as int));
    r
}

fn token_step_exec(rest: Vec<char>, tok: &[char]) -> (r: (Vec<char>, bool))
    requires
        tok.len() > 0,
    ensures
        r.0@ == token_step(rest@, tok@),
        r.1 == (r.0@ != rest@),
{
    let ghost s = rest@;
    let mut rest = rest;
    let mut changed = false;
    let mut k: usize = 0;
    while k < 4 && !changed
        invariant
            k <= 4,
            after_mark_and_sep(s, tok@, 0) == (if changed {
                rest@
            } else {
                after_mark_and_sep(s, tok@, k as int)
            }),
            !changed ==> rest@ == s,
            changed ==> rest@.len() < s.len(),
            tok@.len() > 0,
        decreases 4 - k + (if changed { 0int } else { 1int }),
    {
        let sep = meta_sep_chars(k);
        let prefix = concat(tok, &sep);
        if starts_with_chars(&rest, &prefix) {
            let tail = slice_vec(&rest, prefix.len(), rest.len());
            assert(tail@ =~= s.skip(prefix@.len() as int));
            rest = trim_chars(&tail);
            proof {
                lemma_trim_len(tail@);
            }
            changed = true;
        } else {
            k += 1;
        }
    }
    assert(rest@ == after_mark_and_sep(s, tok@, 0));
    assert(changed ==> rest@.len() < s.len());
    if text_eq(&rest, tok) {
        rest = Vec::new();
        changed = true;
    }
    let ghost s2 = rest@;
    assert(changed ==> s2.len() < s.len());
    let mut tok_space = slice_vec(tok, 0, tok.len());
    tok_space.push(' ');
    let mut tok_slash = slice_vec(tok, 0, tok.len());
    tok_slash.push('/');
    assert(tok@.subrange(0, tok@.len() as int) =~= tok@);
    if starts_with_chars(&rest, &tok_space) || starts_with_chars(&rest, &tok_slash) {
        let tail = slice_vec(&rest, tok.len(), rest.len());
        assert(tail@ =~= s2.skip(tok@.len() as int));
        let g = trim_start_gaps_exec(&tail);
        rest = trim_chars(&g);
        proof {
            lemma_trim_start_gaps_len(tail@);
            lemma_trim_len(g@);
        }
        changed = true;
    }
    (rest, changed)
}


fn meta_pass_exec(rest: Vec<char>) -> (r: (Vec<char>, bool))
    ensures
        r.0@ == meta_pass(rest@, 0),
        r.1 == (r.0@ != rest@),
        r.1 ==> r.0@.len() < rest@.len(),
{
    let ghost s = rest@;
    let mut rest = rest;
    let mut changed = false;
    let mut i: usize = 0;
    while i < META_TOKEN_COUNT
        invariant
            i <= 10,
            meta_pass(s, 0) == meta_pass(rest@, i as int),
            rest@.len() <= s.len(),
            changed == (rest@ != s),
            changed ==> rest@.len() < s.len(),
        decreases 10 - i,
    {
        let tok = meta_token_chars(i);
        let (t, ch) = token_step_exec(rest, &tok);
        proof {
            lemma_token_step(rest@, tok@);
        }
        rest = t;
        changed = changed || ch;
        i += 1;
    }
    assert(meta_pass(rest@, 10) == rest@);
    (rest, changed)
}

fn strip_marks_exec(v: Vec<char>) -> (r: Vec<char>)
    ensures
        r@ == strip_marks(v@),
{
    let ghost target = strip_marks(v@);
    let mut rest = v;
    let mut done = false;
    while !done
        invariant
            strip_marks(rest@) == target,
            done ==> rest@ == target,
        decreases rest@.len() + (if done { 0int } else { 1int }),
    {
        let copy = slice_vec(&rest, 0, rest.len());
        assert(copy@ =~= rest@);
        let (t, ch) = meta_pass_exec(copy);
        if ch {
            rest = t;
        } else {
            proof {
                lemma_meta_pass(rest@, 0);
            }
            done = true;
        }
    }
    rest
}

fn nonempty_trimmed_exec(parts: &Vec<Vec<char>>) -> (r: Vec<Vec<char>>)
    ensures
        views(r@) == nonempty_trimmed(views(parts@)),
{
    let mut r: Vec<Vec<char>> = Vec::new();
    let mut i: usize = 0;
    while i < parts.len()
        invariant
            i <= parts.len(),
            views(r@) == nonempty_trimmed(views(parts@).take(i as int)),
        decreases parts.len() - i,
    {
        let t = trim_chars(&parts[i]);
        proof {
            let pv = views(parts@);
            assert(pv.take(i + 1).drop_last() =~= pv.take(i as int));
            assert(pv.take(i + 1).last() == parts@[i as int]@);
        }
        if t.len() > 0 {
            r.push(t);
            assert(views(r@) =~= views(r@).drop_last().push(r@.last()@));
        }
        i += 1;
    }
    assert(views(parts@).take(parts.len() as int) =~= views(parts@));
    r
}

fn after_scope_dot_exec(s: &[char]) -> (r: Vec<char>)
    ensures
        r@ == after_scope_dot(s@),
{
    if has_char(s, '·') {
        let dot = vec!['·'];
        assert(dot@ =~= seq!['·']);
        let parts = split_on_chars(s, &dot);
        assert(views(parts@) =~= split_on(s@, seq!['·']));
        let kept = nonempty_trimmed_exec(&parts);
        if kept.len() > 1 {
            let last = &kept[kept.len() - 1];
            assert(views(kept@).last() == last@);
            if is_comparable_enough(last) {
                return slice_vec(last, 0, last.len());
            }
        }
    }
    slice_vec(s, 0, s.len())
}

/// Removes the category and language marks (such as `韓漫 / 漢化 `) at the
/// start of a series label, and a search-scope prefix such as `韓漫 · `.
pub fn strip_series_label_meta(label: &str) -> (r: String)
    ensures
        r@ == series_label_core(label@),
        free_of_marks(r@),
{
    let v = chars_of(label);
    let t = trim_chars(&v);
    let d = after_scope_dot_exec(&t);
    let m = strip_marks_exec(d);
    proof {
        lemma_strip_marks_free(after_scope_dot(trim(label@)));
    }
    string_of(&m)
}

// ---------------------------------------------------------------------------
// Folder names
// ---------------------------------------------------------------------------

pub open spec fn default_series_name() -> Seq<char> {
    seq!['韓', '漫', '系', '列']
}

/// `{系列名}-{起}~{迄}-完`, the series name made safe for a file name.
pub open spec fn core_folder_name(clean_label: Seq<char>, start: int, end: int) -> Seq<char> {
    let safe = filtered_file_name(clean_label);
    let name = if safe.len() == 0 {
        default_series_name()
    } else {
        safe
    };
    name + seq!['-'] + dec_int(start) + seq!['~'] + dec_int(end) + seq!['-', '完']
}

pub fn build_core_folder_name(clean_label: &str, episode_start: i32, episode_end: i32) -> (r:
    String)
    ensures
        r@ == core_folder_name(clean_label@, episode_start as int, episode_end as int),
{
    let v = chars_of(clean_label);
    let safe = filename_filter_chars(&v);
    let name = if safe.len() == 0 {
        let d = vec!['韓', '漫', '系', '列'];
        assert(d@ =~= default_series_name());
        d
    } else {
        safe
    };
    let dash = vec!['-'];
    let tilde = vec!['~'];
    let tail = vec!['-', '完'];
    let a = concat(&name, &dash);
    let b = concat(&a, &dec_i64(episode_start as i64));
    let c = concat(&b, &tilde);
    let d = concat(&c, &dec_i64(episode_end as i64));
    let e = concat(&d, &tail);
    assert(dash@ =~= seq!['-']);
    assert(tilde@ =~= seq!['~']);
    assert(tail@ =~= seq!['-', '完']);
    string_of(&e)
}

/// The texts of a list of strings.
pub open spec fn string_views(v: Seq<String>) -> Seq<Seq<char>> {
    v.map_values(|x: String| x@)
}

/// The number `N` of a folder named `未分類N. …`.
#[verifier::opaque]
pub open spec fn unsorted_number(name: Seq<char>) -> Option<u32> {
    if starts_with(name, unsorted_prefix()) {
        let rest = name.skip(3);
        if rest.contains('.') {
            parse_u32(trim(rest.take(first_index_of(rest, '.'))))
        } else {
            None
        }
    } else {
        None
    }
}

/// The largest `N` of the `未分類N.` folders, or 0.
pub open spec fn max_unsorted_number(names: Seq<Seq<char>>) -> nat
    decreases names.len(),
{
    if names.len() == 0 {
        0
    } else {
        let m = max_unsorted_number(names.drop_last());
        match unsorted_number(names.last()) {
            Some(n) => if n > m {
                n as nat
            } else {
                m
            },
            None => m,
        }
    }
}

/// The folder name for a new series: the core name alone in an empty
/// download directory, else `未分類N. {core}` numbered after the largest
/// `未分類` folder.
pub open spec fn series_folder_name(siblings: Seq<Seq<char>>, core: Seq<char>) -> Seq<char> {
    if siblings.len() == 0 {
        core
    } else {
        unsorted_prefix() + dec_nat(max_unsorted_number(siblings) + 1) + seq!['.', ' '] + core
    }
}

proof fn lemma_max_unsorted_bound(names: Seq<Seq<char>>)
    ensures
        max_unsorted_number(names) <= u32::MAX,
    decreases names.len(),
{
    if names.len() > 0 {
        lemma_max_unsorted_bound(names.drop_last());
    }
}

proof fn lemma_max_unsorted_bounds(names: Seq<Seq<char>>)
    ensures
        forall|i: int| 0 <= i < names.len() ==> (#[trigger] unsorted_number(names[i]) matches Some(m) ==> m
            <= max_unsorted_number(names)),
        max_unsorted_number(names) == 0 || exists|i: int|
            0 <= i < names.len() && #[trigger] unsorted_number(names[i]) == Some(
                max_unsorted_number(names) as u32,
            ),
    decreases names.len(),
{
    if names.len() > 0 {
        let d = names.drop_last();
        lemma_max_unsorted_bounds(d);
        lemma_max_unsorted_bound(d);
        assert forall|i: int| 0 <= i < names.len() implies (#[trigger] unsorted_number(names[i]) matches Some(m)
            ==> m <= max_unsorted_number(names)) by {
            if i < d.len() {
                assert(names[i] == d[i]);
            }
        }
        if max_unsorted_number(names) != 0 {
            if max_unsorted_number(names) == max_unsorted_number(d) {
                let i = choose|i: int|
                    0 <= i < d.len() && #[trigger] unsorted_number(d[i]) == Some(max_unsorted_number(d) as u32);
                assert(names[i] == d[i]);
            } else {
                assert(unsorted_number(names[names.len() - 1]) == Some(max_unsorted_number(names) as u32));
            }
        }
    }
}

/// The number given to a new `未分類N.` folder is larger than the number of
/// every `未分類M.` folder already there.
pub proof fn lemma_series_folder_number_is_fresh(siblings: Seq<Seq<char>>, core: Seq<char>)
    requires
        siblings.len() > 0,
    ensures
        exists|n: nat|
            #![trigger dec_nat(n)]
            series_folder_name(siblings, core) == unsorted_prefix() + dec_nat(n) + seq!['.', ' '] + core
                && forall|i: int|
                0 <= i < siblings.len() ==> (#[trigger] unsorted_number(siblings[i]) matches Some(m) ==> m < n),
{
    lemma_max_unsorted_bounds(siblings);
    let n = max_unsorted_number(siblings) + 1;
    assert(series_folder_name(siblings, core) == unsorted_prefix() + dec_nat(n) + seq!['.', ' '] + core);
}

/// The name of a new series folder depends on the set of sibling names
/// only, not on the order in which they are listed or on repeats.
pub proof fn lemma_series_folder_name_depends_on_set(s1: Seq<Seq<char>>, s2: Seq<Seq<char>>, core: Seq<char>)
    requires
        s1.to_set() == s2.to_set(),
    ensures
        series_folder_name(s1, core) == series_folder_name(s2, core),
{
    lemma_max_unsorted_bounds(s1);
    lemma_max_unsorted_bounds(s2);
    lemma_max_unsorted_bound(s1);
    lemma_max_unsorted_bound(s2);
    let m1 = max_unsorted_number(s1);
    let m2 = max_unsorted_number(s2);
    if m1 != 0 {
        let i = choose|i: int| 0 <= i < s1.len() && #[trigger] unsorted_number(s1[i]) == Some(m1 as u32);
        assert(s1.to_set().contains(s1[i]));
        assert(s2.contains(s1[i]));
        let j = choose|j: int| 0 <= j < s2.len() && s2[j] == s1[i];
        assert(unsorted_number(s2[j]) == Some(m1 as u32));
        assert(m1 <= m2);
    }
    if m2 != 0 {
        let i = choose|i: int| 0 <= i < s2.len() && #[trigger] unsorted_number(s2[i]) == Some(m2 as u32);
        assert(s2.to_set().contains(s2[i]));
        assert(s1.contains(s2[i]));
        let j = choose|j: int| 0 <= j < s1.len() && s1[j] == s2[i];
        assert(unsorted_number(s1[j]) == Some(m2 as u32));
        assert(m2 <= m1);
    }
    assert(m1 == m2);
    if s1.len() == 0 && s2.len() > 0 {
        assert(s2.to_set().contains(s2[0]));
        assert(s1.to_set() =~= Set::<Seq<char>>::empty());
    }
    if s2.len() == 0 && s1.len() > 0 {
        assert(s1.to_set().contains(s1[0]));
        assert(s2.to_set() =~= Set::<Seq<char>>::empty());
    }
}

fn unsorted_number_exec(name: &[char]) -> (r: Option<u32>)
    ensures
        r == unsorted_number(name@),
{
    reveal(unsorted_number);
    let prefix = vec!['未', '分', '類'];
    assert(prefix@ =~= unsorted_prefix());
    if !starts_with_chars(name, &prefix) {
        return None;
    }
    let rest = slice_vec(name, 3, name.len());
    assert(rest@ =~= name@.skip(3));
    match find_char(&rest, '.') {
        Some(k) => {
            proof {
                lemma_first_index_of(rest@, '.', k as int);
                assert(rest@.contains('.'));
            }
            let head = slice_vec(&rest, 0, k);
            assert(head@ =~= rest@.take(k as int));
            let t = trim_chars(&head);
            parse_u32_chars(&t)
        },
        None => {
            assert(!rest@.contains('.'));
            None
        },
    }
}

/// The largest `N` among the `未分類N.` folders, 0 where there is none.
pub fn max_unsorted_folder_number(sibling_dir_names: &[String]) -> (r: u32)
    ensures
        r as nat == max_unsorted_number(string_views(sibling_dir_names@)),
{
    let ghost names = string_views(sibling_dir_names@);
    let mut max_misc: u32 = 0;
    let mut i: usize = 0;
    while i < sibling_dir_names.len()
        invariant
            i <= sibling_dir_names.len(),
            names == string_views(sibling_dir_names@),
            max_misc as nat == max_unsorted_number(names.take(i as int)),
        decreases sibling_dir_names.len() - i,
    {
        let name = chars_of(sibling_dir_names[i].as_str());
        let n = unsorted_number_exec(&name);
        proof {
            assert(names.take(i + 1).drop_last() =~= names.take(i as int));
            assert(names.take(i + 1).last() == names[i as int]);
        }
        if let Some(n) = n {
            if n > max_misc {
                max_misc = n;
            }
        }
        i += 1;
    }
    assert(names.take(sibling_dir_names.len() as int) =~= names);
    max_misc
}

/// Names the folder of a new series: `{core_name}` when the download
/// directory has no sub-folder, else `未分類N. {core_name}` with `N` one more
/// than the largest number among the `未分類N.` folders.
#[verifier::spinoff_prover]
#[verifier::rlimit(30)]
pub fn resolve_korean_series_folder_name(sibling_dir_names: &[String], core_name: &str) -> (r:
    String)
    requires
        max_unsorted_number(string_views(sibling_dir_names@)) < u32::MAX,
    ensures
        r@ == series_folder_name(string_views(sibling_dir_names@), core_name@),
{
    let ghost names = string_views(sibling_dir_names@);
    let mut has_any_subdirectory = false;
    let mut max_misc: u32 = 0;
    let mut i: usize = 0;
    while i < sibling_dir_names.len()
        invariant
            i <= sibling_dir_names.len(),
            names == string_views(sibling_dir_names@),
            max_misc as nat == max_unsorted_number(names.take(i as int)),
            has_any_subdirectory == (i > 0),
        decreases sibling_dir_names.len() - i,
    {
        has_any_subdirectory = true;
        let name = chars_of(sibling_dir_names[i].as_str());
        let n = unsorted_number_exec(&name);
        proof {
            assert(names.take(i + 1).drop_last() =~= names.take(i as int));
            assert(names.take(i + 1).last() == names[i as int]);
        }
        if let Some(n) = n {
            if n > max_misc {
                max_misc = n;
            }
        }
        i += 1;
    }
    assert(names.take(sibling_dir_names.len() as int) =~= names);
    let core = chars_of(core_name);
    if has_any_subdirectory {
        let prefix = vec!['未', '分', '類'];
        let sep = vec!['.', ' '];
        assert(prefix@ =~= unsorted_prefix());
        assert(sep@ =~= seq!['.', ' ']);
        let num = dec_u64(max_misc as u64 + 1);
        let a = concat(&prefix, &num);
        let b = concat(&a, &sep);
        let c = concat(&b, &core);
        string_of(&c)
    } else {
        string_of(&core)
    }
}

// ---------------------------------------------------------------------------
// Similar folders
// ---------------------------------------------------------------------------

/// A catalogue line without its `未分類N.` or `分類N.` numbering.
pub open spec fn strip_catalog_prefix(line: Seq<char>) -> Seq<char> {
    let t = trim(line);
    if starts_with(t, unsorted_prefix()) && t.skip(3).contains('.') {
        let rest = t.skip(3);
        trim(rest.skip(first_index_of(rest, '.') + 1))
    } else if starts_with(t, sorted_prefix()) && t.skip(2).contains('.') {
        let rest = t.skip(2);
        trim(rest.skip(first_index_of(rest, '.') + 1))
    } else {
        t
    }
}

/// A name without its `-{起}~{迄}-完` episode range.
pub open spec fn strip_episode(text: Seq<char>) -> Seq<char> {
    let r = trim(text);
    if r.contains('-') {
        let idx = last_index_of(r, '-');
        let tail = r.skip(idx + 1);
        if (tail.contains('~') || tail.contains('～')) && (ends_with(tail, seq!['完']) || ends_with(
            tail,
            seq!['完', '结'],
        )) {
            trim(r.take(idx))
        } else {
            r
        }
    } else {
        r
    }
}

pub open spec fn alias_seps() -> Seq<char> {
    seq!['/', '／', '|', '｜']
}

/// The trimmed pieces that are strong enough to compare.
pub open spec fn comparable_pieces(parts: Seq<Seq<char>>) -> Seq<Seq<char>>
    decreases parts.len(),
{
    if parts.len() == 0 {
        Seq::empty()
    } else if comparable_enough(trim(parts.last())) {
        comparable_pieces(parts.drop_last()).push(trim(parts.last()))
    } else {
        comparable_pieces(parts.drop_last())
    }
}

/// The alternative names of a series written `名一 / 名二 | 名三`.
pub open spec fn series_aliases(text: Seq<char>) -> Seq<Seq<char>> {
    let t = trim(text);
    if t.len() == 0 {
        Seq::empty()
    } else {
        let segs = comparable_pieces(split_on(t, alias_seps()));
        if segs.len() == 0 {
            seq![t]
        } else {
            segs
        }
    }
}

/// `x` is one of the names that a series label stands for.
pub open spec fn label_candidate(label: Seq<char>, x: Seq<char>) -> bool {
    comparable_enough(x) && exists|a: Seq<char>|
        #[trigger] series_aliases(series_label_core(label)).contains(a) && (x == a || x
            == strip_episode(a))
}

/// `x` is one of the names that a folder name stands for.
pub open spec fn folder_candidate(folder: Seq<char>, x: Seq<char>) -> bool {
    comparable_enough(x) && exists|a: Seq<char>|
        #[trigger] series_aliases(strip_catalog_prefix(folder)).contains(a) && (x == a || x
            == strip_episode(a) || x == strip_episode(strip_catalog_prefix(a)))
}

/// Two names match when their comparable texts are equal or one holds the
/// other (the longer one only when the shorter has at least three bytes).
pub open spec fn names_match(a: Seq<char>, b: Seq<char>) -> bool {
    let x = comparable_text(a);
    let y = comparable_text(b);
    byte_len(x) >= 2 && byte_len(y) >= 2 && (x == y || contains_seq(y, x) || (byte_len(y) >= 3
        && byte_len(x) > byte_len(y) && contains_seq(x, y)))
}

/// Some name of the folder matches some name of the series.
pub open spec fn folder_matches_label(folder: Seq<char>, label: Seq<char>) -> bool {
    exists|lc: Seq<char>, fc: Seq<char>|
        #[trigger] label_candidate(label, lc) && #[trigger] folder_candidate(folder, fc)
            && names_match(lc, fc)
}


fn strip_after_numbering(t: &[char], skip: usize) -> (r: Option<Vec<char>>)
    requires
        skip <= t.len(),
    ensures
        match r {
            Some(v) => t@.skip(skip as int).contains('.') && v@ == trim(
                t@.skip(skip as int).skip(first_index_of(t@.skip(skip as int), '.') + 1),
            ),
            None => !t@.skip(skip as int).contains('.'),
        },
{
    let rest = slice_vec(t, skip, t.len());
    assert(rest@ =~= t@.skip(skip as int));
    match find_char(&rest, '.') {
        Some(k) => {
            proof {
                lemma_first_index_of(rest@, '.', k as int);
                assert(rest@.contains('.'));
            }
            let after = slice_vec(&rest, k + 1, rest.len());
            assert(after@ =~= rest@.skip(k + 1));
            Some(trim_chars(&after))
        },
        None => {
            assert(!rest@.contains('.'));
            None
        },
    }
}

fn strip_catalog_line_prefix(line: &[char]) -> (r: Vec<char>)
    ensures
        r@ == strip_catalog_prefix(line@),
{
    let t = trim_chars(line);
    let unsorted = vec!['未', '分', '類'];
    let sorted = vec!['分', '類'];
    assert(unsorted@ =~= unsorted_prefix());
    assert(sorted@ =~= sorted_prefix());
    if starts_with_chars(&t, &unsorted) {
        if let Some(v) = strip_after_numbering(&t, 3) {
            return v;
        }
    }
    if starts_with_chars(&t, &sorted) {
        if let Some(v) = strip_after_numbering(&t, 2) {
            return v;
        }
    }
    t
}

fn strip_episode_suffix(text: &[char]) -> (r: Vec<char>)
    ensures
        r@ == strip_episode(text@),
{
    let rest = trim_chars(text);
    match rfind_char(&rest, '-') {
        Some(idx) => {
            proof {
                lemma_last_index_of(rest@, '-', idx as int);
                assert(rest@.contains('-'));
            }
            let tail = slice_vec(&rest, idx + 1, rest.len());
            assert(tail@ =~= rest@.skip(idx + 1));
            let wan = vec!['完'];
            let wanjie = vec!['完', '结'];
            assert(wan@ =~= seq!['完']);
            assert(wanjie@ =~= seq!['完', '结']);
            if (has_char(&tail, '~') || has_char(&tail, '～')) && (ends_with_chars(&tail, &wan)
                || ends_with_chars(&tail, &wanjie)) {
                let head = slice_vec(&rest, 0, idx);
                assert(head@ =~= rest@.take(idx as int));
                return trim_chars(&head);
            }
            rest
        },
        None => {
            assert(!rest@.contains('-'));
            rest
        },
    }
}

fn split_series_name_aliases(text: &[char]) -> (r: Vec<Vec<char>>)
    ensures
        views(r@) == series_aliases(text@),
{
    let trimmed = trim_chars(text);
    if trimmed.len() == 0 {
        let r: Vec<Vec<char>> = Vec::new();
        assert(views(r@) =~= Seq::<Seq<char>>::empty());
        return r;
    }
    let seps = vec!['/', '／', '|', '｜'];
    assert(seps@ =~= alias_seps());
    let parts = split_on_chars(&trimmed, &seps);
    let ghost pv = split_on(trimmed@, alias_seps());
    assert(views(parts@) =~= pv);
    let mut segs: Vec<Vec<char>> = Vec::new();
    let mut i: usize = 0;
    while i < parts.len()
        invariant
            i <= parts.len(),
            pv == views(parts@),
            views(segs@) == comparable_pieces(pv.take(i as int)),
        decreases parts.len() - i,
    {
        let t = trim_chars(&parts[i]);
        proof {
            assert(pv.take(i + 1).drop_last() =~= pv.take(i as int));
            assert(pv.take(i + 1).last() == parts@[i as int]@);
        }
        if is_comparable_enough(&t) {
            segs.push(t);
            assert(views(segs@) =~= views(segs@).drop_last().push(segs@.last()@));
        }
        i += 1;
    }
    assert(pv.take(parts.len() as int) =~= pv);
    if segs.len() == 0 {
        let mut r: Vec<Vec<char>> = Vec::new();
        r.push(trimmed);
        assert(views(r@) =~= seq![trim(text@)]);
        r
    } else {
        segs
    }
}

/// The candidate names of a label (`from_folder == false`) or of a folder
/// name, before sorting.
fn candidate_pool(text: &[char], from_folder: bool) -> (r: Vec<Vec<char>>)
    ensures
        forall|x: Seq<char>| #[trigger]
            views(r@).contains(x) <==> (if from_folder {
                folder_candidate(text@, x)
            } else {
                label_candidate(text@, x)
            }),
{
    let base = if from_folder {
        strip_catalog_line_prefix(text)
    } else {
        let t = trim_chars(text);
        let d = after_scope_dot_exec(&t);
        strip_marks_exec(d)
    };
    let aliases = split_series_name_aliases(&base);
    let ghost av = views(aliases@);
    let mut out: Vec<Vec<char>> = Vec::new();
    let mut i: usize = 0;
    while i < aliases.len()
        invariant
            i <= aliases.len(),
            av == views(aliases@),
            forall|x: Seq<char>| #[trigger]
                views(out@).contains(x) <==> comparable_enough(x) && exists|j: int|
                    0 <= j < i && (x == av[j] || x == strip_episode(av[j]) || (from_folder && x
                        == strip_episode(strip_catalog_prefix(av[j])))),
        decreases aliases.len() - i,
    {
        let alias = &aliases[i];
        let c1 = slice_vec(alias, 0, alias.len());
        assert(c1@ =~= av[i as int]);
        let c2 = strip_episode_suffix(alias);
        let ghost before = views(out@);
        let mut added: Vec<Vec<char>> = Vec::new();
        added.push(c1);
        added.push(c2);
        if from_folder {
            let p = strip_catalog_line_prefix(alias);
            added.push(strip_episode_suffix(&p));
        }
        let mut k: usize = 0;
        while k < added.len()
            invariant
                k <= added.len(),
                av == views(aliases@),
                i < aliases.len(),
                added@.len() == (if from_folder { 3int } else { 2int }),
                added@[0]@ == av[i as int],
                added@[1]@ == strip_episode(av[i as int]),
                from_folder ==> added@[2]@ == strip_episode(strip_catalog_prefix(av[i as int])),
                forall|x: Seq<char>| #[trigger]
                    views(out@).contains(x) <==> (before.contains(x) || (comparable_enough(x)
                        && exists|m: int| 0 <= m < k && x == added@[m]@)),
            decreases added.len() - k,
        {
            if is_comparable_enough(&added[k]) {
                let ghost prev = views(out@);
                let c = slice_vec(&added[k], 0, added[k].len());
                assert(c@ =~= added@[k as int]@);
                out.push(c);
                proof {
                    assert(views(out@) =~= prev.push(added@[k as int]@));
                    assert forall|x: Seq<char>| #[trigger]
                        views(out@).contains(x) <==> (before.contains(x) || (comparable_enough(x)
                            && exists|m: int| 0 <= m < k + 1 && x == added@[m]@)) by {
                        if x == added@[k as int]@ {
                            assert(views(out@)[prev.len() as int] == x);
                        }
                        if views(out@).contains(x) && x != added@[k as int]@ {
                            let j = choose|j: int| 0 <= j < views(out@).len() && views(out@)[j] == x;
                            assert(prev[j] == x);
                        }
                        if prev.contains(x) {
                            let j = choose|j: int| 0 <= j < prev.len() && prev[j] == x;
                            assert(views(out@)[j] == x);
                        }
                    }
                }
            } else {
                assert forall|x: Seq<char>| #[trigger]
                    views(out@).contains(x) <==> (before.contains(x) || (comparable_enough(x)
                        && exists|m: int| 0 <= m < k + 1 && x == added@[m]@)) by {
                    if comparable_enough(x) && exists|m: int| 0 <= m < k + 1 && x == added@[m]@ {
                        let m = choose|m: int| 0 <= m < k + 1 && x == added@[m]@;
                        assert(m < k);
                    }
                }
            }
            k += 1;
        }
        proof {
            assert forall|x: Seq<char>| #[trigger]
                views(out@).contains(x) <==> comparable_enough(x) && exists|j: int|
                    0 <= j < i + 1 && (x == av[j] || x == strip_episode(av[j]) || (from_folder
                        && x == strip_episode(strip_catalog_prefix(av[j])))) by {
                if views(out@).contains(x) && !before.contains(x) {
                    let m = choose|m: int| 0 <= m < added@.len() && x == added@[m]@;
                    assert(0 <= i < i + 1);
                }
                if comparable_enough(x) && exists|j: int|
                    0 <= j < i + 1 && (x == av[j] || x == strip_episode(av[j]) || (from_folder
                        && x == strip_episode(strip_catalog_prefix(av[j])))) {
                    let j = choose|j: int|
                        0 <= j < i + 1 && (x == av[j] || x == strip_episode(av[j]) || (
                        from_folder && x == strip_episode(strip_catalog_prefix(av[j]))));
                    if j == i {
                        if x == av[j] {
                            assert(x == added@[0]@);
                        } else if x == strip_episode(av[j]) {
                            assert(x == added@[1]@);
                        } else {
                            assert(x == added@[2]@);
                        }
                    }
                }
            }
        }
        i += 1;
    }
    proof {
        let core = if from_folder {
            strip_catalog_prefix(text@)
        } else {
            series_label_core(text@)
        };
        assert(av == series_aliases(core));
        assert forall|x: Seq<char>| #[trigger]
            views(out@).contains(x) <==> (if from_folder {
                folder_candidate(text@, x)
            } else {
                label_candidate(text@, x)
            }) by {
            if views(out@).contains(x) {
                let j = choose|j: int|
                    0 <= j < aliases.len() && (x == av[j] || x == strip_episode(av[j]) || (
                    from_folder && x == strip_episode(strip_catalog_prefix(av[j]))));
                assert(av.contains(av[j]));
            }
            if from_folder && folder_candidate(text@, x) {
                let a = choose|a: Seq<char>|
                    #[trigger] series_aliases(strip_catalog_prefix(text@)).contains(a) && (x == a
                        || x == strip_episode(a) || x == strip_episode(strip_catalog_prefix(a)));
                let j = choose|j: int| 0 <= j < av.len() && av[j] == a;
                assert(0 <= j < aliases.len());
            }
            if !from_folder && label_candidate(text@, x) {
                let a = choose|a: Seq<char>|
                    #[trigger] series_aliases(series_label_core(text@)).contains(a) && (x == a || x
                        == strip_episode(a));
                let j = choose|j: int| 0 <= j < av.len() && av[j] == a;
                assert(0 <= j < aliases.len());
            }
        }
    }
    out
}

fn names_match_exec(a: &[char], b: &[char]) -> (r: bool)
    ensures
        r == names_match(a@, b@),
{
    let x = extract_comparable_text(a);
    let y = extract_comparable_text(b);
    let lx = byte_len_chars(&x);
    let ly = byte_len_chars(&y);
    if lx < MIN_COMPARABLE_LEN || ly < MIN_COMPARABLE_LEN {
        return false;
    }
    if text_eq(&x, &y) {
        return true;
    }
    if contains_chars(&y, &x) {
        return true;
    }
    if ly >= 3 && lx > ly && contains_chars(&x, &y) {
        return true;
    }
    false
}

/// Whether the folder is probably the one of the series.
fn folder_matches_series_label(folder_name: &[char], series_label: &[char]) -> (r: bool)
    ensures
        r == folder_matches_label(folder_name@, series_label@),
{
    let labels = sort_dedup_texts(candidate_pool(series_label, false));
    let folders = sort_dedup_texts(candidate_pool(folder_name, true));
    let ghost lv = views(labels@);
    let ghost fv = views(folders@);
    assert forall|x: Seq<char>| #[trigger] lv.contains(x) <==> label_candidate(series_label@, x) by {
        assert(lv.to_set().contains(x) == lv.contains(x));
    }
    assert forall|x: Seq<char>| #[trigger] fv.contains(x) <==> folder_candidate(folder_name@, x) by {
        assert(fv.to_set().contains(x) == fv.contains(x));
    }
    if labels.len() == 0 || folders.len() == 0 {
        proof {
            if folder_matches_label(folder_name@, series_label@) {
                let (lc, fc) = choose|lc: Seq<char>, fc: Seq<char>|
                    #[trigger] label_candidate(series_label@, lc) && #[trigger] folder_candidate(
                        folder_name@,
                        fc,
                    ) && names_match(lc, fc);
                assert(lv.contains(lc));
                assert(fv.contains(fc));
            }
        }
        return false;
    }
    let mut i: usize = 0;
    while i < labels.len()
        invariant
            i <= labels.len(),
            lv == views(labels@),
            fv == views(folders@),
            forall|x: Seq<char>| #[trigger] lv.contains(x) <==> label_candidate(series_label@, x),
            forall|x: Seq<char>| #[trigger] fv.contains(x) <==> folder_candidate(folder_name@, x),
            forall|p: int, q: int|
                0 <= p < i && 0 <= q < fv.len() ==> !names_match(#[trigger] lv[p], #[trigger] fv[q]),
        decreases labels.len() - i,
    {
        let mut j: usize = 0;
        while j < folders.len()
            invariant
                j <= folders.len(),
                i < labels.len(),
                lv == views(labels@),
                fv == views(folders@),
                forall|x: Seq<char>| #[trigger] lv.contains(x) <==> label_candidate(series_label@, x),
                forall|x: Seq<char>| #[trigger] fv.contains(x) <==> folder_candidate(folder_name@, x),
                forall|q: int| 0 <= q < j ==> !names_match(lv[i as int], #[trigger] fv[q]),
            decreases folders.len() - j,
        {
            if names_match_exec(&labels[i], &folders[j]) {
                proof {
                    assert(lv.contains(lv[i as int]));
                    assert(fv.contains(fv[j as int]));
                    assert(label_candidate(series_label@, lv[i as int]));
                    assert(folder_candidate(folder_name@, fv[j as int]));
                }
                return true;
            }
            j += 1;
        }
        i += 1;
    }
    proof {
        if folder_matches_label(folder_name@, series_label@) {
            let (lc, fc) = choose|lc: Seq<char>, fc: Seq<char>|
                #[trigger] label_candidate(series_label@, lc) && #[trigger] folder_candidate(
                    folder_name@,
                    fc,
                ) && names_match(lc, fc);
            assert(lv.contains(lc));
            assert(fv.contains(fc));
            let p = choose|p: int| 0 <= p < lv.len() && lv[p] == lc;
            let q = choose|q: int| 0 <= q < fv.len() && fv[q] == fc;
            assert(!names_match(lv[p], fv[q]));
        }
    }
    false
}

/// A sub-folder that the similarity search looks at: not hidden, and
/// probably the folder of the series.
pub open spec fn is_similar_folder(name: Seq<char>, label: Seq<char>) -> bool {
    !(name.len() > 0 && name[0] == '.') && folder_matches_label(name, label)
}

/// Two lists sorted in strictly increasing text order that hold the same
/// texts are the same list.
pub proof fn lemma_strictly_sorted_unique(a: Seq<Seq<char>>, b: Seq<Seq<char>>)
    requires
        strictly_sorted(a),
        strictly_sorted(b),
        forall|t: Seq<char>| a.contains(t) <==> b.contains(t),
    ensures
        a == b,
    decreases a.len(),
{
    if a.len() == 0 {
        if b.len() > 0 {
            assert(b.contains(b[0]));
        }
        assert(a =~= b);
    } else {
        assert(a.contains(a[0]));
        assert(b.len() > 0);
        assert(b.contains(b[0]));
        let i = choose|i: int| 0 <= i < a.len() && a[i] == b[0];
        let j = choose|j: int| 0 <= j < b.len() && b[j] == a[0];
        if i > 0 && j > 0 {
            assert(crate::text::text_lt(a[0], a[i]));
            assert(crate::text::text_lt(b[0], b[j]));
            crate::text::lemma_text_lt_transitive(a[0], b[0], a[0]);
            crate::text::lemma_text_lt_irreflexive(a[0]);
        } else if i > 0 {
            assert(crate::text::text_lt(a[0], a[i]));
            crate::text::lemma_text_lt_irreflexive(a[0]);
        } else if j > 0 {
            assert(crate::text::text_lt(b[0], b[j]));
            crate::text::lemma_text_lt_irreflexive(b[0]);
        }
        assert(a[0] == b[0]);
        let a1 = a.drop_first();
        let b1 = b.drop_first();
        assert forall|t: Seq<char>| a1.contains(t) <==> b1.contains(t) by {
            if a1.contains(t) {
                let p = choose|p: int| 0 <= p < a1.len() && a1[p] == t;
                assert(a.contains(t) && a[p + 1] == t);
                assert(crate::text::text_lt(a[0], a[p + 1]));
                crate::text::lemma_text_lt_irreflexive(t);
                let q = choose|q: int| 0 <= q < b.len() && b[q] == t;
                if q == 0 {
                    assert(false);
                }
                assert(b1[q - 1] == t);
            }
            if b1.contains(t) {
                let p = choose|p: int| 0 <= p < b1.len() && b1[p] == t;
                assert(b.contains(t) && b[p + 1] == t);
                assert(crate::text::text_lt(b[0], b[p + 1]));
                crate::text::lemma_text_lt_irreflexive(t);
                let q = choose|q: int| 0 <= q < a.len() && a[q] == t;
                if q == 0 {
                    assert(false);
                }
                assert(a1[q - 1] == t);
            }
        }
        lemma_strictly_sorted_unique(a1, b1);
        assert(a =~= b1.insert(0, b[0]));
        assert(b =~= b1.insert(0, b[0]));
    }
}

/// A set of texts listed in strictly increasing text order.
pub open spec fn sorted_listing(s: Set<Seq<char>>) -> Seq<Seq<char>> {
    choose|r: Seq<Seq<char>>| strictly_sorted(r) && forall|t: Seq<char>| #[trigger] r.contains(t) <==> s.contains(t)
}

/// The names among `names` similar to `label`, sorted, each once.
pub open spec fn similar_folder_names(names: Seq<Seq<char>>, label: Seq<char>) -> Seq<Seq<char>> {
    sorted_listing(names.to_set().filter(|t: Seq<char>| is_similar_folder(t, label)))
}

/// Which similar folders are found depends on the set of sibling names
/// only, not on their order or repeats.
pub proof fn lemma_similar_folder_names_depend_on_set(names1: Seq<Seq<char>>, names2: Seq<Seq<char>>, label: Seq<char>)
    requires
        names1.to_set() == names2.to_set(),
    ensures
        similar_folder_names(names1, label) == similar_folder_names(names2, label),
{
}

/// Looking for folders similar to a label's series name finds what looking
/// for the label itself finds.
pub proof fn lemma_similar_folder_names_of_stripped_label(names: Seq<Seq<char>>, label: Seq<char>)
    ensures
        similar_folder_names(names, series_label_core(label)) == similar_folder_names(names, label),
{
    lemma_series_label_core_idempotent(label);
    assert forall|x: Seq<char>| label_candidate(series_label_core(label), x) == label_candidate(label, x) by {}
    assert forall|t: Seq<char>| is_similar_folder(t, series_label_core(label)) == is_similar_folder(t, label) by {
        assert(folder_matches_label(t, series_label_core(label)) == folder_matches_label(t, label)) by {
            if folder_matches_label(t, label) {
                let (lc, fc) = choose|lc: Seq<char>, fc: Seq<char>| #[trigger] label_candidate(label, lc) && #[trigger] folder_candidate(t, fc) && names_match(lc, fc);
                assert(label_candidate(series_label_core(label), lc));
            }
            if folder_matches_label(t, series_label_core(label)) {
                let (lc, fc) = choose|lc: Seq<char>, fc: Seq<char>| #[trigger] label_candidate(series_label_core(label), lc) && #[trigger] folder_candidate(t, fc) && names_match(lc, fc);
                assert(label_candidate(label, lc));
            }
        }
    }
    assert(names.to_set().filter(|t: Seq<char>| is_similar_folder(t, series_label_core(label))) =~= names.to_set().filter(|t: Seq<char>| is_similar_folder(t, label)));
}

/// The existing sub-folders of the download directory whose names are
/// similar to the series name, sorted and without repeats.
pub fn find_similar_folder_names(sibling_dir_names: &[String], series_label: &str) -> (r: Vec<
    String,
>)
    ensures
        strictly_sorted(string_views(r@)),
        forall|t: Seq<char>| #[trigger]
            string_views(r@).contains(t) <==> (string_views(sibling_dir_names@).contains(t)
                && is_similar_folder(t, series_label@)),
        string_views(r@) == similar_folder_names(string_views(sibling_dir_names@), series_label@),
{
    let label = chars_of(series_label);
    let ghost sv = string_views(sibling_dir_names@);
    let mut kept: Vec<Vec<char>> = Vec::new();
    let mut i: usize = 0;
    while i < sibling_dir_names.len()
        invariant
            i <= sibling_dir_names.len(),
            sv == string_views(sibling_dir_names@),
            label@ == series_label@,
            forall|t: Seq<char>| #[trigger]
                views(kept@).contains(t) <==> (sv.take(i as int).contains(t) && is_similar_folder(
                    t,
                    series_label@,
                )),
        decreases sibling_dir_names.len() - i,
    {
        let name = chars_of(sibling_dir_names[i].as_str());
        let hidden = name.len() > 0 && name[0] == '.';
        let ghost prev = views(kept@);
        assert(sv.take(i + 1) =~= sv.take(i as int).push(name@));
        if !hidden && folder_matches_series_label(&name, &label) {
            kept.push(name);
            proof {
                assert(views(kept@) =~= prev.push(sv[i as int]));
                assert forall|t: Seq<char>| #[trigger]
                    views(kept@).contains(t) <==> (sv.take(i + 1).contains(t) && is_similar_folder(
                        t,
                        series_label@,
                    )) by {
                    lemma_contains_push(prev, sv[i as int], t);
                    lemma_contains_push(sv.take(i as int), sv[i as int], t);
                }
            }
        } else {
            proof {
                assert forall|t: Seq<char>| #[trigger]
                    views(kept@).contains(t) <==> (sv.take(i + 1).contains(t) && is_similar_folder(
                        t,
                        series_label@,
                    )) by {
                    lemma_contains_push(sv.take(i as int), sv[i as int], t);
                }
            }
        }
        i += 1;
    }
    assert(sv.take(sibling_dir_names.len() as int) =~= sv);
    let sorted = sort_dedup_texts(kept);
    let mut r: Vec<String> = Vec::new();
    let mut k: usize = 0;
    while k < sorted.len()
        invariant
            k <= sorted.len(),
            string_views(r@) =~= views(sorted@).take(k as int),
        decreases sorted.len() - k,
    {
        r.push(string_of(&sorted[k]));
        assert(views(sorted@).take(k + 1) =~= views(sorted@).take(k as int).push(sorted@[k as int]@));
        k += 1;
    }
    assert(views(sorted@).take(sorted.len() as int) =~= views(sorted@));
    assert forall|t: Seq<char>| #[trigger] string_views(r@).contains(t) <==> views(kept@).contains(t) by {
        assert(views(sorted@).to_set().contains(t) == views(sorted@).contains(t));
        assert(views(kept@).to_set().contains(t) == views(kept@).contains(t));
    }
    proof {
        let nv = string_views(sibling_dir_names@);
        let f = nv.to_set().filter(|t: Seq<char>| is_similar_folder(t, series_label@));
        let rv = string_views(r@);
        assert forall|t: Seq<char>| #[trigger] rv.contains(t) <==> f.contains(t) by {
            assert(nv.to_set().contains(t) == nv.contains(t));
        }
        let c = sorted_listing(f);
        assert(strictly_sorted(c) && forall|t: Seq<char>| #[trigger] c.contains(t) <==> f.contains(t));
        lemma_strictly_sorted_unique(c, rv);
    }
    r
}

proof fn lemma_contains_push(s: Seq<Seq<char>>, x: Seq<char>, t: Seq<char>)
    ensures
        s.push(x).contains(t) <==> (s.contains(t) || t == x),
{
    if s.push(x).contains(t) && t != x {
        let j = choose|j: int| 0 <= j < s.push(x).len() && s.push(x)[j] == t;
        assert(s[j] == t);
    }
    if s.contains(t) {
        let j = choose|j: int| 0 <= j < s.len() && s[j] == t;
        assert(s.push(x)[j] == t);
    }
    if t == x {
        assert(s.push(x)[s.len() as int] == t);
    }
}

/// What a download leaves behind while it runs (removable on cancel): hidden
/// or `.下載中-` folders, `.part` files and the metadata file.
pub open spec fn incomplete_artifact(name: Seq<char>, is_dir: bool) -> bool {
    if is_dir {
        starts_with(name, seq!['.', '下', '載', '中', '-']) || starts_with(name, seq!['.'])
    } else {
        ends_with(name, seq!['.', 'p', 'a', 'r', 't']) || name == seq!['元', '數', '據', '.', 'j', 's', 'o', 'n']
    }
}

/// A downloaded episode: a complete ZIP file or a finished sub-folder.
pub open spec fn completed_content(name: Seq<char>, is_dir: bool) -> bool {
    !incomplete_artifact(name, is_dir) && (is_dir || ends_with(name, seq!['.', 'z', 'i', 'p']))
}

fn is_series_incomplete_artifact(name: &[char], is_dir: bool) -> (b: bool)
    ensures
        b == incomplete_artifact(name@, is_dir),
{
    if is_dir {
        let tmp = vec!['.', '下', '載', '中', '-'];
        let dot = vec!['.'];
        assert(tmp@ =~= seq!['.', '下', '載', '中', '-']);
        assert(dot@ =~= seq!['.']);
        return starts_with_chars(name, &tmp) || starts_with_chars(name, &dot);
    }
    let part = vec!['.', 'p', 'a', 'r', 't'];
    let meta = vec!['元', '數', '據', '.', 'j', 's', 'o', 'n'];
    assert(part@ =~= seq!['.', 'p', 'a', 'r', 't']);
    assert(meta@ =~= seq!['元', '數', '據', '.', 'j', 's', 'o', 'n']);
    ends_with_chars(name, &part) || text_eq(name, &meta)
}

/// Whether a directory entry is a finished episode (a complete ZIP or a
/// non-temporary sub-folder).
pub fn is_series_completed_content(name: &str, is_dir: bool) -> (b: bool)
    ensures
        b == completed_content(name@, is_dir),
{
    let v = chars_of(name);
    if is_series_incomplete_artifact(&v, is_dir) {
        return false;
    }
    if is_dir {
        return true;
    }
    let zip = vec!['.', 'z', 'i', 'p'];
    assert(zip@ =~= seq!['.', 'z', 'i', 'p']);
    ends_with_chars(&v, &zip)
}

/// Whether a series folder already holds a downloaded episode, given its
/// entries as (name, is directory).
pub fn series_folder_has_downloaded_content(entries: &[(String, bool)]) -> (b: bool)
    ensures
        b == exists|i: int| 0 <= i < entries@.len() && completed_content(#[trigger] entries@[i].0@, entries@[i].1),
{
    let mut i: usize = 0;
    while i < entries.len()
        invariant
            i <= entries.len(),
            forall|j: int| 0 <= j < i ==> !completed_content(#[trigger] entries@[j].0@, entries@[j].1),
        decreases entries.len() - i,
    {
        if is_series_completed_content(entries[i].0.as_str(), entries[i].1) {
            return true;
        }
        i += 1;
    }
    false
}

} // verus!
