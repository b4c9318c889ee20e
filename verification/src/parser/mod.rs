//! Reading hand-history files: format detection, dates, amounts.
use vstd::prelude::*;
use crate::text::{chars_of, contains, contains_exec, is_digit, upper_seq, upper_vec, string_of};


pub mod betclic;
pub mod betclic_hand;
pub mod common;
pub mod expresso;
pub mod ipoker;
pub mod ipoker_file;
pub mod stars;
pub mod stars_hand;
pub mod summaries;
pub mod winamax;

verus! {

/// Division truncating towards zero, as Rust's `/` on signed integers.
pub open spec fn tdiv(a: int, b: int) -> int {
    if a >= 0 {
        a / b
    } else {
        -((-a) / b)
    }
}

/// Remainder matching `tdiv`, as Rust's `%` on signed integers.
pub open spec fn trem(a: int, b: int) -> int {
    a - b * tdiv(a, b)
}

/// Days from 1970-01-01 to year `y`, month `m`, day `d` (Howard Hinnant's formula).
pub open spec fn spec_days_from_civil(y: int, m: int, d: int) -> int {
    let y1 = if m <= 2 { y - 1 } else { y };
    let era = tdiv(if y1 >= 0 { y1 } else { y1 - 399 }, 400);
    let yoe = y1 - era * 400;
    let mp = trem(m + 9, 12);
    let doy = tdiv(153 * mp + 2, 5) + d - 1;
    let doe = yoe * 365 + tdiv(yoe, 4) - tdiv(yoe, 100) + doy;
    era * 146097 + doe - 719468
}

/// Bound on years, months and days that keeps the arithmetic within `i64`.
pub open spec fn civil_in_range(x: int) -> bool {
    -0x20_0000_0000_0000 <= x <= 0x20_0000_0000_0000
}

pub open spec fn in_i64(x: int) -> bool {
    i64::MIN <= x <= i64::MAX
}

/// Every step of `days_from_civil`'s `i64` arithmetic stays within `i64`.
pub open spec fn civil_fits(y: int, m: int, d: int) -> bool {
    let y1 = if m <= 2 { y - 1 } else { y };
    let a = if y1 >= 0 { y1 } else { y1 - 399 };
    let era = tdiv(a, 400);
    let yoe = y1 - era * 400;
    let mp = trem(m + 9, 12);
    let q = tdiv(153 * mp + 2, 5);
    let doe = yoe * 365 + tdiv(yoe, 4) - tdiv(yoe, 100) + (q + d - 1);
    &&& in_i64(y1)
    &&& in_i64(a)
    &&& in_i64(m + 9)
    &&& in_i64(q + d)
    &&& in_i64(q + d - 1)
    &&& in_i64(yoe * 365 + tdiv(yoe, 4) - tdiv(yoe, 100) + (q + d - 1))
    &&& in_i64(era * 146097)
    &&& in_i64(era * 146097 + doe)
    &&& in_i64(era * 146097 + doe - 719468)
}

proof fn lemma_civil_in_range_fits(y: int, m: int, d: int)
    requires
        civil_in_range(y),
        civil_in_range(m),
        civil_in_range(d),
    ensures
        civil_fits(y, m, d),
{
    let y1 = if m <= 2 { y - 1 } else { y };
    let a = if y1 >= 0 { y1 } else { y1 - 399 };
    let era = tdiv(a, 400);
    assert(-0x1_0000_0000_0000int <= era <= 0x1_0000_0000_0000int);
    let yoe = y1 - era * 400;
    assert(-800 <= yoe <= 800);
    let mp = trem(m + 9, 12);
    assert(-12 < mp < 12);
}

/// Days since 1970-01-01 (Howard Hinnant's algorithm).
pub fn days_from_civil(y: i64, m: i64, d: i64) -> (r: i64)
    requires
        civil_fits(y as int, m as int, d as int),
    ensures
        r == spec_days_from_civil(y as int, m as int, d as int),
{
    let y = if m <= 2 { y - 1 } else { y };
    let era = (if y >= 0 { y } else { y - 399 }) / 400;
    let yoe = y - era * 400;
    let mp = (m + 9) % 12;
    assert(mp == trem(m + 9, 12));
    let q = (153 * mp + 2) / 5;
    let doy = q + d - 1;
    let doe = yoe * 365 + yoe / 4 - yoe / 100 + doy;
    era * 146097 + doe - 719468
}

/// Value of a string of ASCII digits.
pub open spec fn digits_val(d: Seq<char>) -> nat
    decreases d.len(),
{
    if d.len() == 0 {
        0
    } else {
        digits_val(d.drop_last()) * 10 + ((d.last() as u32) - ('0' as u32)) as nat
    }
}

/// End of the run of ASCII digits starting at `i`.
pub open spec fn run_end(s: Seq<char>, i: int) -> int
    decreases s.len() - i,
{
    if 0 <= i < s.len() && is_digit(s[i]) {
        run_end(s, i + 1)
    } else {
        i
    }
}

/// Maximal runs of ASCII digits of `s` from position `i` on.
pub open spec fn digit_runs(s: Seq<char>, i: int) -> Seq<Seq<char>>
    decreases s.len() - i, 1int,
{
    if i < 0 || i >= s.len() {
        Seq::empty()
    } else if !is_digit(s[i]) {
        digit_runs(s, i + 1)
    } else {
        let e = run_end(s, i);
        proof {
            lemma_run_end(s, i);
        }
        seq![s.subrange(i, e)] + digit_runs(s, e)
    }
}

pub proof fn lemma_run_end(s: Seq<char>, i: int)
    requires
        0 <= i < s.len(),
        is_digit(s[i]),
    ensures
        i < run_end(s, i) <= s.len(),
    decreases s.len() - i,
{
    assert(run_end(s, i) == run_end(s, i + 1));
    if i + 1 < s.len() && is_digit(s[i + 1]) {
        lemma_run_end(s, i + 1);
    } else {
        assert(run_end(s, i + 1) == i + 1);
    }
}

proof fn lemma_kept_nonneg(rs: Seq<Seq<char>>)
    ensures
        forall|k: int| 0 <= k < kept_values(rs).len() ==> kept_values(rs)[k] >= 0,
    decreases rs.len(),
{
    if rs.len() > 0 {
        let prev = kept_values(rs.drop_last());
        lemma_kept_nonneg(rs.drop_last());
        assert forall|k: int| 0 <= k < kept_values(rs).len() implies kept_values(rs)[k] >= 0 by {
            if k < prev.len() {
                assert(kept_values(rs)[k] == prev[k]);
            }
        }
    }
}

/// Values of the runs that fit an `i64` (the others fail to parse and are dropped).
pub open spec fn kept_values(rs: Seq<Seq<char>>) -> Seq<int>
    decreases rs.len(),
{
    if rs.len() == 0 {
        Seq::empty()
    } else {
        let prev = kept_values(rs.drop_last());
        let v = digits_val(rs.last());
        if v <= i64::MAX {
            prev.push(v as int)
        } else {
            prev
        }
    }
}

/// Numbers read from a date: the first six runs of digits, those too large for `i64`
/// left out.
pub open spec fn date_values(s: Seq<char>) -> Seq<int> {
    kept_values(first_runs(s))
}

/// At most the first six runs of digits.
pub open spec fn first_runs(s: Seq<char>) -> Seq<Seq<char>> {
    let r = digit_runs(s, 0);
    if r.len() > 6 { r.take(6) } else { r }
}

/// The `i64` arithmetic of `parse_date` stays within `i64` on the numbers of the date:
/// `days_from_civil` and the sum of the seconds.
pub open spec fn date_fits(s: Seq<char>) -> bool {
    let v = date_values(s);
    v.len() < 3 || {
        let days = spec_days_from_civil(v[0], v[1], v[2]);
        let h = field_or_zero(v, 3);
        let mi = field_or_zero(v, 4);
        let se = field_or_zero(v, 5);
        &&& civil_fits(v[0], v[1], v[2])
        &&& in_i64(days * 86400)
        &&& in_i64(h * 3600)
        &&& in_i64(mi * 60)
        &&& in_i64(days * 86400 + h * 3600)
        &&& in_i64(days * 86400 + h * 3600 + mi * 60)
        &&& in_i64(days * 86400 + h * 3600 + mi * 60 + se)
    }
}

/// The date fits `date_fits`, and the time it gives lies where `utc_to_paris` can convert
/// it.
pub open spec fn date_tz_fits(s: Seq<char>) -> bool {
    date_fits(s) && (spec_parse_date(s) matches Some(t) ==> ts_in_range(t))
}

pub open spec fn field_or_zero(v: Seq<int>, k: int) -> int {
    if k < v.len() { v[k] } else { 0 }
}

/// Seconds since 1970-01-01 00:00:00 of a date "Y M D [h [m [s]]]" written with any
/// separators; `None` with fewer than three numbers.
pub open spec fn spec_parse_date(s: Seq<char>) -> Option<int> {
    let v = date_values(s);
    if v.len() < 3 {
        None
    } else {
        Some(spec_days_from_civil(v[0], v[1], v[2]) * 86400 + field_or_zero(v, 3) * 3600
            + field_or_zero(v, 4) * 60 + field_or_zero(v, 5))
    }
}

/// Reads the run of digits starting at `i`: its end and its value if it fits an `i64`.
fn read_run(v: &Vec<char>, i: usize) -> (r: (usize, Option<i64>))
    requires
        i < v@.len(),
        is_digit(v@[i as int]),
    ensures
        r.0 == run_end(v@, i as int),
        match r.1 {
            Some(x) => x == digits_val(v@.subrange(i as int, r.0 as int)),
            None => digits_val(v@.subrange(i as int, r.0 as int)) > i64::MAX,
        },
{
    let mut j = i;
    let mut val: i64 = 0;
    let mut big = false;
    while j < v.len() && '0' <= v[j] && v[j] <= '9'
        invariant
            i <= j <= v@.len(),
            run_end(v@, i as int) == run_end(v@, j as int),
            !big ==> val == digits_val(v@.subrange(i as int, j as int)),
            big ==> digits_val(v@.subrange(i as int, j as int)) > i64::MAX,
            val >= 0,
        decreases v@.len() - j,
    {
        let d = ((v[j] as u32) - ('0' as u32)) as i64;
        assert(v@.subrange(i as int, j + 1).drop_last() == v@.subrange(i as int, j as int));
        if !big {
            if val > (i64::MAX - d) / 10 {
                big = true;
            } else {
                val = val * 10 + d;
            }
        }
        j = j + 1;
    }
    (j, if big { None } else { Some(val) })
}

/// The numbers of a date (see `date_values`).
fn date_numbers(v: &Vec<char>) -> (r: Vec<i64>)
    ensures
        r@.len() == date_values(v@).len(),
        forall|k: int| 0 <= k < r@.len() ==> r@[k] as int == date_values(v@)[k],
{
    let ghost s = v@;
    let ghost mut acc: Seq<Seq<char>> = Seq::empty();
    let mut out: Vec<i64> = Vec::new();
    let mut count: usize = 0;
    let mut i: usize = 0;
    while i < v.len() && count < 6
        invariant
            s == v@,
            i <= s.len(),
            count == acc.len(),
            count <= 6,
            digit_runs(s, 0) == acc + digit_runs(s, i as int),
            out@.len() == kept_values(acc).len(),
            forall|k: int| 0 <= k < out@.len() ==> out@[k] as int == kept_values(acc)[k],
        decreases s.len() - i,
    {
        if '0' <= v[i] && v[i] <= '9' {
            let (e, val) = read_run(v, i);
            proof {
                lemma_run_end(s, i as int);
                assert(digit_runs(s, i as int) == seq![s.subrange(i as int, e as int)] + digit_runs(s, e as int));
                assert(acc.push(s.subrange(i as int, e as int)).drop_last() == acc);
                assert(acc + digit_runs(s, i as int) == acc.push(s.subrange(i as int, e as int)) + digit_runs(s, e as int));
                acc = acc.push(s.subrange(i as int, e as int));
            }
            if let Some(x) = val {
                out.push(x);
            }
            count = count + 1;
            i = e;
        } else {
            i = i + 1;
        }
    }
    proof {
        if count == 6 {
            if digit_runs(s, 0).len() > 6 {
                assert(digit_runs(s, 0).take(6) =~= acc);
            } else {
                assert(digit_runs(s, 0) =~= acc);
            }
        } else {
            assert(digit_runs(s, i as int) == Seq::<Seq<char>>::empty());
            assert(digit_runs(s, 0) =~= acc);
        }
        assert(first_runs(s) == acc);
    }
    out
}

fn fits64(x: i128) -> (r: bool)
    ensures
        r == in_i64(x as int),
{
    -9223372036854775808i128 <= x && x <= 9223372036854775807i128
}

/// Checks that `days_from_civil` can compute with `i64` arithmetic (see `civil_fits`).
fn civil_fits_exec(y: i64, m: i64, d: i64) -> (r: bool)
    ensures
        r == civil_fits(y as int, m as int, d as int),
{
    let y = y as i128;
    let m = m as i128;
    let d = d as i128;
    let y1 = if m <= 2 { y - 1 } else { y };
    let a = if y1 >= 0 { y1 } else { y1 - 399 };
    let era = a / 400;
    assert(era == tdiv(a as int, 400));
    let yoe = y1 - era * 400;
    let mp = (m + 9) % 12;
    assert(mp == trem(m + 9, 12));
    let q = (153 * mp + 2) / 5;
    assert(q == tdiv(153 * mp + 2, 5));
    assert(-800 <= yoe <= 800);
    let e = yoe * 365 + yoe / 4 - yoe / 100 + (q + d - 1);
    let doe = e;
    fits64(y1) && fits64(a) && fits64(m + 9) && fits64(q + d) && fits64(q + d - 1) && fits64(e) && fits64(
        era * 146097,
    ) && fits64(era * 146097 + doe) && fits64(era * 146097 + doe - 719468)
}

/// Checks `date_fits`.
pub fn date_in_range(s: &str) -> (r: bool)
    ensures
        r == date_fits(s@),
{
    let v = chars_of(s);
    let nums = date_numbers(&v);
    if nums.len() < 3 {
        return true;
    }
    let ghost vals = date_values(s@);
    proof {
        lemma_kept_nonneg(first_runs(s@));
    }
    let (y, mo, d) = (nums[0], nums[1], nums[2]);
    let h = if nums.len() > 3 { nums[3] } else { 0 };
    let mi = if nums.len() > 4 { nums[4] } else { 0 };
    let se = if nums.len() > 5 { nums[5] } else { 0 };
    assert(h == field_or_zero(vals, 3) && mi == field_or_zero(vals, 4) && se == field_or_zero(vals, 5));
    if !civil_fits_exec(y, mo, d) {
        return false;
    }
    let days = days_from_civil(y, mo, d) as i128;
    let a = days * 86400;
    let b = (h as i128) * 3600;
    let c = (mi as i128) * 60;
    fits64(a) && fits64(b) && fits64(c) && fits64(a + b) && fits64(a + b + c) && fits64(a + b + c + (se as i128))
}

/// Checks `date_tz_fits`.
pub fn date_tz_in_range(s: &str) -> (r: bool)
    ensures
        r == date_tz_fits(s@),
{
    if !date_in_range(s) {
        return false;
    }
    match parse_date(s) {
        Some(t) => ts_fits(t),
        None => true,
    }
}

/// "2026-09-19 22:26:13" or "2026/09/19 22:26:13" -> seconds (naive local time).
pub fn parse_date(s: &str) -> (r: Option<i64>)
    requires
        date_fits(s@),
    ensures
        match r {
            Some(t) => spec_parse_date(s@) == Some(t as int),
            None => spec_parse_date(s@) is None,
        },
{
    let v = chars_of(s);
    let nums = date_numbers(&v);
    if nums.len() < 3 {
        return None;
    }
    let ghost vals = date_values(s@);
    proof {
        lemma_kept_nonneg(first_runs(s@));
    }
    let (y, mo, d) = (nums[0], nums[1], nums[2]);
    let h = if nums.len() > 3 { nums[3] } else { 0 };
    let mi = if nums.len() > 4 { nums[4] } else { 0 };
    let se = if nums.len() > 5 { nums[5] } else { 0 };
    assert(h == field_or_zero(vals, 3) && mi == field_or_zero(vals, 4) && se == field_or_zero(vals, 5));
    let days = days_from_civil(y, mo, d);
    Some(days * 86400 + h * 3600 + mi * 60 + se)
}

/// Day number of the last Sunday of month `m` (March or October) of year `y`.
pub open spec fn spec_last_sunday(y: int, m: int) -> int {
    let d = spec_days_from_civil(y, m, 31);
    d - (d + 4) % 7
}

/// Paris local time of a UTC timestamp: CEST (+2 h) from the last Sunday of March, 01:00 UTC,
/// to the last Sunday of October, 01:00 UTC, of the timestamp's year (by mean year length),
/// CET (+1 h) otherwise.
pub open spec fn spec_utc_to_paris(ts: int) -> int {
    let y = 1970 + ts / 31_556_952;
    let a = spec_last_sunday(y, 3) * 86400 + 3600;
    let b = spec_last_sunday(y, 10) * 86400 + 3600;
    ts + if a <= ts && ts < b { 7200int } else { 3600int }
}

/// The timestamps on which `utc_to_paris`'s `i64` arithmetic does not overflow.
pub open spec fn ts_in_range(ts: int) -> bool {
    let y = 1970 + ts / 31_556_952;
    &&& in_i64(ts)
    &&& in_i64(spec_last_sunday(y, 3) * 86400 + 3600)
    &&& in_i64(spec_last_sunday(y, 10) * 86400 + 3600)
    &&& in_i64(spec_utc_to_paris(ts))
}

/// Day numbers of the 31st of March or October of years within `±2^40`.
proof fn lemma_days_bound(y: int, m: int)
    requires
        -0x100_0000_0000 <= y <= 0x100_0000_0000,
        m == 3 || m == 10,
    ensures
        -0x8_0000_0000_0000 <= spec_days_from_civil(y, m, 31) <= 0x8_0000_0000_0000,
{
    let a = if y >= 0 { y } else { y - 399 };
    let era = tdiv(a, 400);
    assert(-0x1_0000_0000 <= era <= 0x1_0000_0000);
    let yoe = y - era * 400;
    assert(0 <= yoe < 400);
    let mp = trem(m + 9, 12);
    assert(mp == 0 || mp == 7);
    let doy = tdiv(153 * mp + 2, 5) + 31 - 1;
    assert(0 <= doy < 400);
    let doe = yoe * 365 + tdiv(yoe, 4) - tdiv(yoe, 100) + doy;
    assert(0 <= yoe * 365 < 146000) by (nonlinear_arith)
        requires 0 <= yoe < 400;
    assert(0 <= doe < 200000);
    assert(-0x1_0000_0000 * 146097 <= era * 146097 <= 0x1_0000_0000 * 146097) by (nonlinear_arith)
        requires -0x1_0000_0000 <= era <= 0x1_0000_0000;
}

#[verifier::spinoff_prover]
#[verifier::rlimit(40)]
fn last_sunday(y: i64, m: i64) -> (r: i64)
    requires
        -0x100_0000_0000 <= y <= 0x100_0000_0000,
        m == 3 || m == 10,
    ensures
        r == spec_last_sunday(y as int, m as int),
        -0x10_0000_0000_0000 <= r <= 0x10_0000_0000_0000,
{
    proof {
        lemma_civil_in_range_fits(y as int, m as int, 31);
        lemma_days_bound(y as int, m as int);
    }
    let d = days_from_civil(y, m, 31);
    let x = (d + 4) % 7;
    let e = if x < 0 { x + 7 } else { x };
    assert(e == (d + 4) % 7);
    d - e
}

/// Checks `ts_in_range`.
pub fn ts_fits(ts: i64) -> (r: bool)
    ensures
        r == ts_in_range(ts as int),
{
    let q = ts / 31_556_952;
    let q = if ts % 31_556_952 < 0 { q - 1 } else { q };
    assert(q == ts as int / 31_556_952);
    assert(-0x80_0000_0000 <= q <= 0x80_0000_0000);
    let y = 1970 + q;
    let a = (last_sunday(y, 3) as i128) * 86400 + 3600;
    let b = (last_sunday(y, 10) as i128) * 86400 + 3600;
    let t = ts as i128;
    let r = t + if t >= a && t < b { 7200 } else { 3600 };
    fits64(a) && fits64(b) && fits64(r)
}

/// UTC time -> Paris time (CET/CEST). Timestamps of the application are naive local times.
pub fn utc_to_paris(ts: i64) -> (r: i64)
    requires
        ts_in_range(ts as int),
    ensures
        r == spec_utc_to_paris(ts as int),
{
    let q = ts / 31_556_952;
    let q = if ts % 31_556_952 < 0 { q - 1 } else { q };
    assert(q == ts as int / 31_556_952);
    assert(-0x80_0000_0000 <= q <= 0x80_0000_0000);
    let y = 1970 + q;
    let a = last_sunday(y, 3) * 86400 + 3600;
    let b = last_sunday(y, 10) * 86400 + 3600;
    ts + if ts >= a && ts < b { 7200 } else { 3600 }
}

pub open spec fn spec_parse_date_tz(s: Seq<char>) -> Option<int> {
    match spec_parse_date(s) {
        None => None,
        Some(ts) => Some(
            if contains(upper_seq(s), "UTC"@) || contains(upper_seq(s), "GMT"@) {
                spec_utc_to_paris(ts)
            } else {
                ts
            },
        ),
    }
}

/// Like `parse_date`, converting to Paris time the dates marked UTC or GMT.
pub fn parse_date_tz(s: &str) -> (r: Option<i64>)
    requires
        date_tz_fits(s@),
    ensures
        match r {
            Some(t) => spec_parse_date_tz(s@) == Some(t as int),
            None => spec_parse_date_tz(s@) is None,
        },
{
    let ts = match parse_date(s) {
        Some(t) => t,
        None => return None,
    };
    let u = upper_vec(&chars_of(s));
    let utc = chars_of("UTC");
    let gmt = chars_of("GMT");
    if contains_exec(&u, &utc) || contains_exec(&u, &gmt) {
        Some(utc_to_paris(ts))
    } else {
        Some(ts)
    }
}

/// Raw content of a source to parse.
pub struct RawSource {
    pub name: String,
    pub content: String,
}

/// A decimal number written in a history: `(-1 if negative) * digits / 10^scale`.
#[derive(Debug, Clone, PartialEq, Eq)]
pub struct Decimal {
    pub negative: bool,
    /// all the digits, integer part then fraction, each in `0..10`
    pub digits: Vec<u8>,
    /// number of fraction digits at the end of `digits`
    pub scale: usize,
}

/// Character kept by the number reader: digits and minus signs as they are, decimal commas
/// and points as a point; anything else dropped.
pub open spec fn num_char(c: char) -> Option<char> {
    if is_digit(c) || c == '-' {
        Some(c)
    } else if c == ',' || c == '.' {
        Some('.')
    } else {
        None
    }
}

pub open spec fn filtered(s: Seq<char>) -> Seq<char>
    decreases s.len(),
{
    if s.len() == 0 {
        Seq::empty()
    } else {
        let prev = filtered(s.drop_last());
        match num_char(s.last()) {
            Some(c) => prev.push(c),
            None => prev,
        }
    }
}

/// A point occurs in `t` at or after `j`.
pub open spec fn dot_after(t: Seq<char>, j: int) -> bool {
    exists|k: int| j <= k < t.len() && t[k] == '.'
}

/// The first `n` characters of `t` without the points that another point follows (only the
/// last point is kept as the decimal separator).
pub open spec fn keep_last_dot(t: Seq<char>, n: int) -> Seq<char>
    decreases n,
{
    if n <= 0 {
        Seq::empty()
    } else {
        let prev = keep_last_dot(t, n - 1);
        if t[n - 1] == '.' && dot_after(t, n) {
            prev
        } else {
            prev.push(t[n - 1])
        }
    }
}

/// The number text: filtered, with a single decimal point.
pub open spec fn num_text(s: Seq<char>) -> Seq<char> {
    keep_last_dot(filtered(s), filtered(s).len() as int)
}

pub open spec fn unsigned_part(n: Seq<char>) -> Seq<char> {
    if n.len() > 0 && n[0] == '-' { n.drop_first() } else { n }
}

/// The number text is a valid float literal: an optional leading minus, no other minus,
/// at least one digit.
pub open spec fn valid_num(n: Seq<char>) -> bool {
    let b = unsigned_part(n);
    (forall|i: int| 0 <= i < b.len() ==> b[i] != '-') && (exists|i: int| 0 <= i < b.len() && is_digit(b[i]))
}

/// Digit values of the digits of `b`, in order.
pub open spec fn digit_values(b: Seq<char>) -> Seq<u8>
    decreases b.len(),
{
    if b.len() == 0 {
        Seq::empty()
    } else {
        let prev = digit_values(b.drop_last());
        if is_digit(b.last()) {
            prev.push(((b.last() as u32) - ('0' as u32)) as u8)
        } else {
            prev
        }
    }
}

/// Number of characters after the point, or 0.
pub open spec fn frac_len(b: Seq<char>) -> int {
    match crate::text::find(b, "."@) {
        Some(q) => b.len() - q - 1,
        None => 0,
    }
}

/// The value read by `parse_num`: the number text as a decimal, or zero when it is not a
/// valid literal.
pub open spec fn spec_parse_num(s: Seq<char>) -> (bool, Seq<u8>, int) {
    let n = num_text(s);
    if valid_num(n) {
        (n.len() > 0 && n[0] == '-', digit_values(unsigned_part(n)), frac_len(unsigned_part(n)))
    } else {
        (false, Seq::empty(), 0)
    }
}

fn filter_num(v: &Vec<char>) -> (t: Vec<char>)
    ensures
        t@ == filtered(v@),
{
    let mut t: Vec<char> = Vec::new();
    let mut i: usize = 0;
    while i < v.len()
        invariant
            i <= v@.len(),
            t@ == filtered(v@.take(i as int)),
        decreases v@.len() - i,
    {
        let c = v[i];
        assert(v@.take(i + 1).drop_last() == v@.take(i as int));
        assert(v@.take(i + 1).last() == c);
        if ('0' <= c && c <= '9') || c == '-' {
            t.push(c);
        } else if c == ',' || c == '.' {
            t.push('.');
        }
        i = i + 1;
    }
    assert(v@.take(v@.len() as int) == v@);
    t
}

fn keep_last_dot_exec(t: &Vec<char>) -> (r: Vec<char>)
    ensures
        r@ == keep_last_dot(t@, t@.len() as int),
{
    let mut last: Option<usize> = None;
    let mut i: usize = 0;
    while i < t.len()
        invariant
            i <= t@.len(),
            match last {
                Some(p) => p < i && t@[p as int] == '.' && forall|k: int| p < k < i ==> t@[k] != '.',
                None => forall|k: int| 0 <= k < i ==> t@[k] != '.',
            },
        decreases t@.len() - i,
    {
        if t[i] == '.' {
            last = Some(i);
        }
        i = i + 1;
    }
    let mut r: Vec<char> = Vec::new();
    let mut j: usize = 0;
    while j < t.len()
        invariant
            j <= t@.len(),
            match last {
                Some(p) => p < t@.len() && t@[p as int] == '.' && forall|k: int| p < k < t@.len() ==> t@[k] != '.',
                None => forall|k: int| 0 <= k < t@.len() ==> t@[k] != '.',
            },
            r@ == keep_last_dot(t@, j as int),
        decreases t@.len() - j,
    {
        let drop = t[j] == '.' && match last {
            Some(p) => p > j,
            None => false,
        };
        proof {
            match last {
                Some(p) => {
                    if p > j {
                        assert(dot_after(t@, j + 1));
                    } else if dot_after(t@, j + 1) {
                        let k = choose|k: int| j + 1 <= k < t@.len() && t@[k] == '.';
                        assert(false);
                    }
                },
                None => {
                    if dot_after(t@, j + 1) {
                        let k = choose|k: int| j + 1 <= k < t@.len() && t@[k] == '.';
                        assert(false);
                    }
                },
            }
        }
        if !drop {
            r.push(t[j]);
        }
        j = j + 1;
    }
    r
}

/// "1 010", "0,35\u{20ac}", "\u{20ac}4.65", "N/A" -> decimal number (zero when no number can
/// be read).
pub fn parse_num(s: &str) -> (r: Decimal)
    ensures
        (r.negative, r.digits@, r.scale as int) == spec_parse_num(s@),
{
    let v = chars_of(s);
    let f = filter_num(&v);
    let n = keep_last_dot_exec(&f);
    let ghost nt = num_text(s@);
    assert(n@ == nt);
    let neg = n.len() > 0 && n[0] == '-';
    let start: usize = if neg { 1 } else { 0 };
    let ghost b = unsigned_part(nt);
    assert(b == n@.subrange(start as int, n@.len() as int));
    let mut ok_minus = true;
    let mut has_digit = false;
    let mut digits: Vec<u8> = Vec::new();
    let mut dot: Option<usize> = None;
    let mut i = start;
    while i < n.len()
        invariant
            start <= i <= n@.len(),
            b == n@.subrange(start as int, n@.len() as int),
            ok_minus == (forall|k: int| start <= k < i ==> n@[k] != '-'),
            has_digit == (exists|k: int| start <= k < i && is_digit(n@[k])),
            digits@ == digit_values(n@.subrange(start as int, i as int)),
            match dot {
                Some(q) => start <= q < i && n@[q as int] == '.' && forall|k: int| start <= k < q ==> n@[k] != '.',
                None => forall|k: int| start <= k < i ==> n@[k] != '.',
            },
        decreases n@.len() - i,
    {
        let c = n[i];
        assert(n@.subrange(start as int, i + 1).drop_last() == n@.subrange(start as int, i as int));
        assert(n@.subrange(start as int, i + 1).last() == c);
        if c == '-' {
            ok_minus = false;
        }
        if '0' <= c && c <= '9' {
            has_digit = true;
            digits.push(((c as u32) - ('0' as u32)) as u8);
        }
        if c == '.' && dot.is_none() {
            dot = Some(i);
        }
        i = i + 1;
    }
    proof {
        assert(ok_minus == (forall|k: int| 0 <= k < b.len() ==> b[k] != '-')) by {
            if ok_minus {
                assert forall|k: int| 0 <= k < b.len() implies b[k] != '-' by {
                    assert(b[k] == n@[start + k]);
                }
            } else {
                let k = choose|k: int| start <= k < n@.len() && !(n@[k] != '-');
                assert(b[k - start] == n@[k]);
            }
        }
        assert(has_digit == (exists|k: int| 0 <= k < b.len() && is_digit(b[k]))) by {
            if has_digit {
                let k = choose|k: int| start <= k < n@.len() && is_digit(n@[k]);
                assert(b[k - start] == n@[k]);
            } else {
                assert forall|k: int| 0 <= k < b.len() implies !is_digit(b[k]) by {
                    assert(b[k] == n@[start + k]);
                }
            }
        }
    }
    if !(ok_minus && has_digit) {
        return Decimal { negative: false, digits: Vec::new(), scale: 0 };
    }
    let scale: usize = match dot {
        Some(q) => {
            proof {
                reveal_strlit(".");
                assert("."@ == seq!['.']);
                assert forall|k: int| 0 <= k < q - start implies b[k] != '.' by {
                    assert(b[k] == n@[start + k]);
                }
                assert(b[q - start] == n@[q as int]);
                lemma_find_first_char(b, '.', q - start);
            }
            n.len() - q - 1
        },
        None => {
            proof {
                reveal_strlit(".");
                assert("."@ == seq!['.']);
                assert forall|k: int| 0 <= k < b.len() implies b[k] != '.' by {
                    assert(b[k] == n@[start + k]);
                }
                lemma_find_no_char(b, '.');
            }
            0
        },
    };
    Decimal { negative: neg, digits, scale }
}

proof fn lemma_find_first_char(b: Seq<char>, c: char, q: int)
    requires
        0 <= q < b.len(),
        b[q] == c,
        forall|k: int| 0 <= k < q ==> b[k] != c,
    ensures
        crate::text::find(b, seq![c]) == Some(q),
{
    assert forall|k: int| 0 <= k < q implies !crate::text::occurs_at(b, seq![c], k) by {
        if crate::text::occurs_at(b, seq![c], k) {
            assert(b.subrange(k, k + 1)[0] == b[k]);
        }
    }
    assert(b.subrange(q, q + 1) =~= seq![c]);
    crate::text::lemma_find_from_skip_pub(b, seq![c], 0, q);
}

proof fn lemma_find_no_char(b: Seq<char>, c: char)
    requires
        forall|k: int| 0 <= k < b.len() ==> b[k] != c,
    ensures
        crate::text::find(b, seq![c]) is None,
{
    assert forall|k: int| 0 <= k < b.len() implies !crate::text::occurs_at(b, seq![c], k) by {
        if crate::text::occurs_at(b, seq![c], k) {
            assert(b.subrange(k, k + 1)[0] == b[k]);
        }
    }
    crate::text::lemma_find_from_skip_pub(b, seq![c], 0, b.len() as int);
    assert(crate::text::find_from(b, seq![c], b.len() as int) is None);
}

/// Spaces allowed inside a number ("1 000"): space, no-break space, narrow no-break space.
pub open spec fn thousands_space(c: char) -> bool {
    c == ' ' || c == '\u{a0}' || c == '\u{202f}'
}

/// Index of the first ASCII digit at or after `i` (or the length).
pub open spec fn first_digit(s: Seq<char>, i: int) -> int
    decreases s.len() - i,
{
    if i < 0 || i >= s.len() {
        s.len() as int
    } else if is_digit(s[i]) {
        i
    } else {
        first_digit(s, i + 1)
    }
}

/// Characters of the number that starts at `i`: digits, points and commas, the spaces
/// between them skipped, up to the first other character.
pub open spec fn number_chars(s: Seq<char>, i: int) -> Seq<char>
    decreases s.len() - i,
{
    if i < 0 || i >= s.len() {
        Seq::empty()
    } else if is_digit(s[i]) || s[i] == '.' || s[i] == ',' {
        seq![s[i]] + number_chars(s, i + 1)
    } else if thousands_space(s[i]) {
        number_chars(s, i + 1)
    } else {
        Seq::empty()
    }
}

/// Text of the first number of `s`.
pub open spec fn first_number_text(s: Seq<char>) -> Seq<char> {
    number_chars(s, first_digit(s, 0))
}

/// First number of a string ("to 40 and is all-in" -> 40), thousands spaces allowed.
pub fn first_num(s: &str) -> (r: Option<Decimal>)
    ensures
        match r {
            None => first_number_text(s@).len() == 0,
            Some(d) => first_number_text(s@).len() > 0 && (d.negative, d.digits@, d.scale as int)
                == spec_parse_num(first_number_text(s@)),
        },
{
    let v = chars_of(s);
    let n = v.len();
    let mut i: usize = 0;
    while i < n && !('0' <= v[i] && v[i] <= '9')
        invariant
            n == v@.len(),
            v@ == s@,
            i <= n,
            first_digit(v@, 0) == first_digit(v@, i as int),
        decreases n - i,
    {
        i = i + 1;
    }
    assert(first_digit(v@, i as int) == i as int);
    let ghost start = i as int;
    let mut buf: Vec<char> = Vec::new();
    assert(buf@ + number_chars(v@, i as int) == number_chars(v@, i as int));
    let mut done = false;
    while i < n && !done
        invariant
            n == v@.len(),
            v@ == s@,
            start <= i <= n,
            start == first_digit(v@, 0),
            number_chars(v@, start) == buf@ + number_chars(v@, i as int),
            done ==> number_chars(v@, i as int) == Seq::<char>::empty(),
        decreases n - i, if done { 0int } else { 1int },
    {
        let c = v[i];
        if ('0' <= c && c <= '9') || c == '.' || c == ',' {
            buf.push(c);
            assert(number_chars(v@, i as int) == seq![c] + number_chars(v@, i + 1));
            assert(buf@ + number_chars(v@, i + 1) == (buf@.drop_last() + seq![c]) + number_chars(v@, i + 1));
            assert(buf@.drop_last() + seq![c] == buf@);
        } else if c == ' ' || c == '\u{a0}' || c == '\u{202f}' {
        } else {
            assert(number_chars(v@, i as int) == Seq::<char>::empty());
            done = true;
        }
        if !done {
            i = i + 1;
        }
    }
    proof {
        if !done {
            assert(number_chars(v@, i as int) == Seq::<char>::empty());
        }
        assert(buf@ + Seq::<char>::empty() == buf@);
    }
    if buf.len() == 0 {
        return None;
    }
    let text = string_of(&buf, 0, buf.len());
    assert(buf@.subrange(0, buf@.len() as int) == buf@);
    Some(parse_num(text.as_str()))
}

/// Hand-history formats the parsers read.
#[derive(Debug, Clone, Copy, PartialEq, Eq, Structural)]
pub enum Format {
    IPoker,
    Winamax,
    Betclic,
    Stars,
}

/// `s` without its leading byte-order marks.
pub open spec fn strip_bom(s: Seq<char>) -> Seq<char>
    decreases s.len(),
{
    if s.len() > 0 && s[0] == '\u{feff}' {
        strip_bom(s.drop_first())
    } else {
        s
    }
}

/// Format of a content, the formats tried in order: iPoker, Winamax, Betclic, PokerStars.
pub open spec fn spec_format(c: Seq<char>) -> Option<Format> {
    let c = strip_bom(c);
    if ipoker::spec_looks_like(c) {
        Some(Format::IPoker)
    } else if winamax::spec_looks_like(c) {
        Some(Format::Winamax)
    } else if betclic::spec_looks_like(c) {
        Some(Format::Betclic)
    } else if stars::spec_looks_like(c) {
        Some(Format::Stars)
    } else {
        None
    }
}

proof fn lemma_strip_bom_at(s: Seq<char>, i: int)
    requires
        0 <= i <= s.len(),
        forall|j: int| 0 <= j < i ==> s[j] == '\u{feff}',
        i == s.len() || s[i] != '\u{feff}',
    ensures
        strip_bom(s) == s.subrange(i, s.len() as int),
    decreases i,
{
    if i > 0 {
        assert(s.drop_first() == s.subrange(1, s.len() as int));
        lemma_strip_bom_at(s.drop_first(), i - 1);
        assert(s.drop_first().subrange(i - 1, s.drop_first().len() as int) == s.subrange(i, s.len() as int));
    } else {
        assert(s.subrange(0, s.len() as int) == s);
    }
}

/// Which parser reads a source (`None`: unknown format).
pub fn detect_format(src: &RawSource) -> (r: Option<Format>)
    ensures
        r == spec_format(src.content@),
{
    let v = chars_of(src.content.as_str());
    let mut i: usize = 0;
    while i < v.len() && v[i] == '\u{feff}'
        invariant
            i <= v@.len(),
            forall|j: int| 0 <= j < i ==> v@[j] == '\u{feff}',
        decreases v@.len() - i,
    {
        i = i + 1;
    }
    proof {
        lemma_strip_bom_at(v@, i as int);
    }
    let c = string_of(&v, i, v.len());
    let cs = c.as_str();
    if ipoker::looks_like(cs) {
        Some(Format::IPoker)
    } else if winamax::looks_like(cs) {
        Some(Format::Winamax)
    } else if betclic::looks_like(cs) {
        Some(Format::Betclic)
    } else if stars::looks_like(cs) {
        Some(Format::Stars)
    } else {
        None
    }
}

/// UTF-8 decoding of `bytes` (`String::from_utf8`): `Ok` exactly when the bytes are valid
/// UTF-8, with a string whose UTF-8 encoding is those bytes.
#[verifier::external_body]
fn utf8_decode(bytes: Vec<u8>) -> (r: Result<String, Vec<u8>>)
    ensures
        match r {
            Ok(s) => vstd::utf8::valid_utf8(bytes@) && vstd::utf8::encode_utf8(s@) == bytes@,
            Err(b) => !vstd::utf8::valid_utf8(bytes@) && b@ == bytes@,
        },
{
    String::from_utf8(bytes).map_err(|e| e.into_bytes())
}

/// Text of a file: UTF-8 if the bytes are valid UTF-8, otherwise read as Latin-1 (one
/// character per byte).
pub open spec fn spec_read_text(bytes: Seq<u8>) -> Seq<char> {
    if vstd::utf8::valid_utf8(bytes) {
        vstd::utf8::decode_utf8(bytes)
    } else {
        Seq::new(bytes.len(), |i: int| bytes[i] as char)
    }
}

/// Decodes the bytes of a file (UTF-8, Latin-1 as a fallback).
pub fn read_text(bytes: Vec<u8>) -> (r: String)
    ensures
        r@ == spec_read_text(bytes@),
{
    let ghost orig = bytes@;
    match utf8_decode(bytes) {
        Ok(s) => {
            proof {
                vstd::utf8::encode_utf8_decode_utf8(s@);
            }
            s
        },
        Err(b) => {
            let mut s = String::new();
            let mut i: usize = 0;
            while i < b.len()
                invariant
                    i <= b@.len(),
                    s@ == Seq::new(i as nat, |k: int| b@[k] as char),
                decreases b@.len() - i,
            {
                crate::model::push_char(&mut s, b[i] as char);
                assert(s@ =~= Seq::new((i + 1) as nat, |k: int| b@[k] as char));
                i = i + 1;
            }
            assert(b@ == orig);
            s
        },
    }
}

} // verus!
