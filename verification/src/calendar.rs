//! Proleptic Gregorian dates counted from the Unix epoch, and the UTC
//! timestamps that snapshots carry.
use vstd::prelude::*;

use crate::text::{dec_padded, dec_u64_padded, concat, string_of};

verus! {

pub open spec fn is_leap_year(y: int) -> bool {
    y % 4 == 0 && (y % 100 != 0 || y % 400 == 0)
}

pub open spec fn year_length(y: int) -> int {
    if is_leap_year(y) {
        366
    } else {
        365
    }
}

/// Number of leap years among `1..=n`.
pub open spec fn leap_years_through(n: int) -> int {
    n / 4 - n / 100 + n / 400
}

/// Days from 1970-01-01 to the first day of year `y`.
pub open spec fn days_before_year(y: int) -> int {
    365 * (y - 1970) + leap_years_through(y - 1) - leap_years_through(1969)
}

pub open spec fn month_length(y: int, m: int) -> int {
    if m == 2 {
        if is_leap_year(y) {
            29
        } else {
            28
        }
    } else if m == 4 || m == 6 || m == 9 || m == 11 {
        30
    } else {
        31
    }
}

/// Days from the first of January to the first day of month `m` (`m == 13`
/// gives the length of the year).
pub open spec fn days_before_month(y: int, m: int) -> int {
    let leap_day: int = if m >= 3 && is_leap_year(y) {
        1
    } else {
        0
    };
    let common: int = if m <= 1 {
        0
    } else if m == 2 {
        31
    } else if m == 3 {
        59
    } else if m == 4 {
        90
    } else if m == 5 {
        120
    } else if m == 6 {
        151
    } else if m == 7 {
        181
    } else if m == 8 {
        212
    } else if m == 9 {
        243
    } else if m == 10 {
        273
    } else if m == 11 {
        304
    } else if m == 12 {
        334
    } else {
        365
    };
    common + leap_day
}

pub open spec fn is_valid_date(y: int, m: int, d: int) -> bool {
    1970 <= y && 1 <= m <= 12 && 1 <= d <= month_length(y, m)
}

/// Days from 1970-01-01 to the given date.
pub open spec fn days_since_epoch(y: int, m: int, d: int) -> int {
    days_before_year(y) + days_before_month(y, m) + d - 1
}

/// The calendar date `n` days after 1970-01-01.
pub open spec fn civil_date(n: int) -> (int, int, int) {
    choose|ymd: (int, int, int)|
        is_valid_date(ymd.0, ymd.1, ymd.2) && days_since_epoch(ymd.0, ymd.1, ymd.2) == n
}

proof fn lemma_year_step(y: int)
    requires
        y >= 1,
    ensures
        days_before_year(y + 1) == days_before_year(y) + year_length(y),
{
}

proof fn lemma_era(e: int)
    requires
        e >= 0,
    ensures
        days_before_year(1970 + 400 * e) == 146097 * e,
{
    assert((1969 + 400 * e) / 4 == 492 + 100 * e);
    assert((1969 + 400 * e) / 100 == 19 + 4 * e);
    assert((1969 + 400 * e) / 400 == 4 + e);
}

proof fn lemma_month_step(y: int, m: int)
    requires
        1 <= m <= 12,
    ensures
        days_before_month(y, m + 1) == days_before_month(y, m) + month_length(y, m),
        days_before_month(y, 13) == year_length(y),
        0 <= days_before_month(y, m),
{
}

proof fn lemma_years_grow(a: int, b: int)
    requires
        1 <= a < b,
    ensures
        days_before_year(b) >= days_before_year(a) + year_length(a),
    decreases b - a,
{
    lemma_year_step(a);
    if b > a + 1 {
        lemma_years_grow(a + 1, b);
        lemma_year_step(a + 1);
    }
}

proof fn lemma_months_grow(y: int, a: int, b: int)
    requires
        1 <= a < b <= 13,
    ensures
        days_before_month(y, b) >= days_before_month(y, a) + month_length(y, a),
{
}

/// A day count names at most one valid date.
pub proof fn lemma_date_unique(y1: int, m1: int, d1: int, y2: int, m2: int, d2: int)
    requires
        is_valid_date(y1, m1, d1),
        is_valid_date(y2, m2, d2),
        days_since_epoch(y1, m1, d1) == days_since_epoch(y2, m2, d2),
    ensures
        y1 == y2 && m1 == m2 && d1 == d2,
{
    lemma_month_step(y1, m1);
    lemma_month_step(y2, m2);
    lemma_month_step(y1, 12);
    lemma_month_step(y2, 12);
    if y1 < y2 {
        lemma_years_grow(y1, y2);
        lemma_months_grow(y1, m1, 13);
    } else if y2 < y1 {
        lemma_years_grow(y2, y1);
        lemma_months_grow(y2, m2, 13);
    } else if m1 < m2 {
        lemma_months_grow(y1, m1, m2);
    } else if m2 < m1 {
        lemma_months_grow(y1, m2, m1);
    }
}

proof fn lemma_date_exists(n: int)
    requires
        n >= 0,
    ensures
        exists|ymd: (int, int, int)|
            is_valid_date(ymd.0, ymd.1, ymd.2) && days_since_epoch(ymd.0, ymd.1, ymd.2) == n,
    decreases n,
{
    if n == 0 {
        let w = (1970int, 1int, 1int);
        assert(is_valid_date(w.0, w.1, w.2) && days_since_epoch(w.0, w.1, w.2) == n);
    } else {
        lemma_date_exists(n - 1);
        let p = choose|ymd: (int, int, int)|
            is_valid_date(ymd.0, ymd.1, ymd.2) && days_since_epoch(ymd.0, ymd.1, ymd.2) == n - 1;
        let (y, m, d) = p;
        lemma_month_step(y, m);
        if d < month_length(y, m) {
            let w = (y, m, d + 1);
            assert(is_valid_date(w.0, w.1, w.2) && days_since_epoch(w.0, w.1, w.2) == n);
        } else if m < 12 {
            let w = (y, m + 1, 1int);
            assert(is_valid_date(w.0, w.1, w.2) && days_since_epoch(w.0, w.1, w.2) == n);
        } else {
            lemma_year_step(y);
            let w = (y + 1, 1int, 1int);
            assert(is_valid_date(w.0, w.1, w.2) && days_since_epoch(w.0, w.1, w.2) == n);
        }
    }
}

/// Every day from the epoch on has its calendar date.
pub proof fn lemma_civil_date(n: int)
    requires
        n >= 0,
    ensures
        is_valid_date(civil_date(n).0, civil_date(n).1, civil_date(n).2),
        days_since_epoch(civil_date(n).0, civil_date(n).1, civil_date(n).2) == n,
{
    lemma_date_exists(n);
}

/// Days before the year 10000.
pub open spec fn days_before_year_10000() -> int {
    2932897
}

/// A day before the year 10000 has a four-digit year.
pub proof fn lemma_civil_year_below_10000(n: int)
    requires
        0 <= n < days_before_year_10000(),
    ensures
        civil_date(n).0 < 10000,
{
    lemma_civil_date(n);
    let (y, m, d) = civil_date(n);
    assert(days_before_year(10000) == days_before_year_10000());
    lemma_month_step(y, m);
    if y > 10000 {
        lemma_years_grow(10000, y);
    }
}

fn is_leap_year_exec(y: u64) -> (b: bool)
    ensures
        b == is_leap_year(y as int),
{
    y % 4 == 0 && (y % 100 != 0 || y % 400 == 0)
}

fn year_length_exec(y: u64) -> (n: u64)
    ensures
        n == year_length(y as int),
{
    if is_leap_year_exec(y) {
        366
    } else {
        365
    }
}

fn month_length_exec(y: u64, m: u64) -> (n: u64)
    ensures
        n == month_length(y as int, m as int),
{
    if m == 2 {
        if is_leap_year_exec(y) {
            29
        } else {
            28
        }
    } else if m == 4 || m == 6 || m == 9 || m == 11 {
        30
    } else {
        31
    }
}

/// The calendar date `days` days after 1970-01-01, as (year, month, day).
pub fn civil_from_days(days: u64) -> (r: (u64, u64, u64))
    ensures
        is_valid_date(r.0 as int, r.1 as int, r.2 as int),
        days_since_epoch(r.0 as int, r.1 as int, r.2 as int) == days,
        (r.0 as int, r.1 as int, r.2 as int) == civil_date(days as int),
{
    let era = days / 146_097;
    let mut rem = days % 146_097;
    let base: u64 = 1970 + 400 * era;
    let mut year: u64 = base;
    proof {
        lemma_era(era as int);
    }
    while rem >= year_length_exec(year)
        invariant
            year >= 1970,
            base == 1970 + 400 * era,
            era == days / 146_097,
            year - base <= 146_097 - rem,
            rem < 146_097,
            days_before_year(year as int) + rem == days,
        decreases rem,
    {
        let len = year_length_exec(year);
        proof {
            lemma_year_step(year as int);
        }
        rem = rem - len;
        year = year + 1;
    }
    let mut month: u64 = 1;
    proof {
        lemma_month_step(year as int, 1);
    }
    while rem >= month_length_exec(year, month)
        invariant
            1 <= month <= 12,
            year >= 1970,
            rem + days_before_month(year as int, month as int) < year_length(year as int),
            days_before_year(year as int) + days_before_month(year as int, month as int) + rem
                == days,
        decreases 12 - month,
    {
        proof {
            lemma_month_step(year as int, month as int);
            lemma_month_step(year as int, 12);
        }
        rem = rem - month_length_exec(year, month);
        month = month + 1;
    }
    let r = (year, month, rem + 1);
    proof {
        let w = civil_date(days as int);
        assert(is_valid_date(r.0 as int, r.1 as int, r.2 as int) && days_since_epoch(
            r.0 as int,
            r.1 as int,
            r.2 as int,
        ) == days);
        let ymd = (r.0 as int, r.1 as int, r.2 as int);
        assert(is_valid_date(ymd.0, ymd.1, ymd.2) && days_since_epoch(ymd.0, ymd.1, ymd.2)
            == days);
        lemma_date_unique(ymd.0, ymd.1, ymd.2, w.0, w.1, w.2);
    }
    r
}

/// `YYYY-MM-DDTHH:MM:SS.mmmZ` for `secs` seconds and `millis` milliseconds
/// after the epoch (the form of `Date.toISOString()`).
pub open spec fn iso_timestamp_text(secs: nat, millis: nat) -> Seq<char> {
    let date = civil_date((secs / 86400) as int);
    let tod = secs % 86400;
    dec_padded(date.0 as nat, 4) + seq!['-'] + dec_padded(date.1 as nat, 2) + seq!['-']
        + dec_padded(date.2 as nat, 2) + seq!['T'] + dec_padded(tod / 3600, 2) + seq![':']
        + dec_padded((tod % 3600) / 60, 2) + seq![':'] + dec_padded(tod % 60, 2) + seq!['.']
        + dec_padded(millis, 3) + seq!['Z']
}

/// `YYYY_MM_DD_HH_MM_SS` for `secs` seconds after the epoch.
pub open spec fn file_timestamp_text(secs: nat) -> Seq<char> {
    let date = civil_date((secs / 86400) as int);
    let tod = secs % 86400;
    dec_padded(date.0 as nat, 4) + seq!['_'] + dec_padded(date.1 as nat, 2) + seq!['_']
        + dec_padded(date.2 as nat, 2) + seq!['_'] + dec_padded(tod / 3600, 2) + seq!['_']
        + dec_padded((tod % 3600) / 60, 2) + seq!['_'] + dec_padded(tod % 60, 2)
}

fn push_padded(out: Vec<char>, n: u64, width: usize, sep: char) -> (r: Vec<char>)
    ensures
        r@ == out@ + dec_padded(n as nat, width as nat) + seq![sep],
{
    let d = dec_u64_padded(n, width);
    let mut r = concat(&out, &d);
    r.push(sep);
    r
}

/// The ISO timestamp of an instant given as seconds and milliseconds since
/// the epoch.
pub fn iso_timestamp(secs: u64, millis: u32) -> (r: String)
    requires
        millis < 1000,
    ensures
        r@ == iso_timestamp_text(secs as nat, millis as nat),
{
    let (y, m, d) = civil_from_days(secs / 86400);
    let tod = secs % 86400;
    let v: Vec<char> = Vec::new();
    let v = push_padded(v, y, 4, '-');
    let v = push_padded(v, m, 2, '-');
    let v = push_padded(v, d, 2, 'T');
    let v = push_padded(v, tod / 3600, 2, ':');
    let v = push_padded(v, (tod % 3600) / 60, 2, ':');
    let v = push_padded(v, tod % 60, 2, '.');
    let v = push_padded(v, millis as u64, 3, 'Z');
    proof {
        assert(v@ =~= iso_timestamp_text(secs as nat, millis as nat));
    }
    string_of(&v)
}

/// The timestamp that names a snapshot file, for an instant given in seconds
/// since the epoch.
pub fn file_timestamp(secs: u64) -> (r: String)
    ensures
        r@ == file_timestamp_text(secs as nat),
{
    let (y, m, d) = civil_from_days(secs / 86400);
    let tod = secs % 86400;
    let v: Vec<char> = Vec::new();
    let v = push_padded(v, y, 4, '_');
    let v = push_padded(v, m, 2, '_');
    let v = push_padded(v, d, 2, '_');
    let v = push_padded(v, tod / 3600, 2, '_');
    let v = push_padded(v, (tod % 3600) / 60, 2, '_');
    let v = concat(&v, &dec_u64_padded(tod % 60, 2));
    proof {
        assert(v@ =~= file_timestamp_text(secs as nat));
    }
    string_of(&v)
}

/// Reads the system clock: seconds and the millisecond part since the Unix
/// epoch (`SystemTime::now().duration_since(UNIX_EPOCH)`, zero for a clock
/// set before the epoch). Nothing is promised of the instant itself; the
/// millisecond part is below one thousand, as `Duration::subsec_millis`
/// documents.
#[verifier::external_body]
pub(crate) fn clock_now() -> (r: (u64, u32))
    ensures
        r.1 < 1000,
{
    let d = std::time::SystemTime::now().duration_since(std::time::UNIX_EPOCH).unwrap_or_default();
    (d.as_secs(), d.subsec_millis())
}

/// The ISO timestamp of the present instant.
pub fn now_iso_timestamp() -> (r: String)
    ensures
        exists|secs: nat, millis: nat| millis < 1000 && r@ == iso_timestamp_text(secs, millis),
{
    let (secs, millis) = clock_now();
    iso_timestamp(secs, millis)
}

} // verus!
