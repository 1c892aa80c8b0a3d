//! File-name sanitising shared by the download and snapshot code.
use vstd::prelude::*;

use crate::text::{chars_of, string_of, trim, trim_chars};

verus! {

/// The character that stands in a file name for `c`: the characters that
/// file systems refuse are replaced by look-alikes or a space.
pub open spec fn file_name_char(c: char) -> char {
    if c == '\\' || c == '/' || c == '\n' {
        ' '
    } else if c == ':' {
        '：'
    } else if c == '*' {
        '⭐'
    } else if c == '?' {
        '？'
    } else if c == '"' {
        '\''
    } else if c == '<' {
        '《'
    } else if c == '>' {
        '》'
    } else if c == '|' {
        '丨'
    } else {
        c
    }
}

pub open spec fn map_file_name_chars(s: Seq<char>) -> Seq<char> {
    Seq::new(s.len(), |i: int| file_name_char(s[i]))
}

/// The file name that `filename_filter` makes of a text.
pub open spec fn filtered_file_name(s: Seq<char>) -> Seq<char> {
    trim(map_file_name_chars(s))
}

fn file_name_char_exec(c: char) -> (r: char)
    ensures
        r == file_name_char(c),
{
    if c == '\\' || c == '/' || c == '\n' {
        ' '
    } else if c == ':' {
        '：'
    } else if c == '*' {
        '⭐'
    } else if c == '?' {
        '？'
    } else if c == '"' {
        '\''
    } else if c == '<' {
        '《'
    } else if c == '>' {
        '》'
    } else if c == '|' {
        '丨'
    } else {
        c
    }
}

/// `filename_filter` on characters.
pub fn filename_filter_chars(s: &[char]) -> (r: Vec<char>)
    ensures
        r@ == filtered_file_name(s@),
{
    let mut m: Vec<char> = Vec::new();
    let mut i: usize = 0;
    while i < s.len()
        invariant
            i <= s.len(),
            m@ =~= Seq::new(i as nat, |k: int| file_name_char(s@[k])),
        decreases s.len() - i,
    {
        m.push(file_name_char_exec(s[i]));
        i += 1;
    }
    trim_chars(&m)
}

/// Replaces the characters that file systems refuse and trims the result.
pub fn filename_filter(s: &str) -> (r: String)
    ensures
        r@ == filtered_file_name(s@),
{
    let v = chars_of(s);
    let f = filename_filter_chars(&v);
    string_of(&f)
}

} // verus!
