//! Results broken down by calendar periods.
use vstd::prelude::*;
use crate::parser::{tdiv, trem, spec_days_from_civil};
use crate::model::push_char;
use crate::stats::{spec_weekday, weekday};
use crate::text::{chars_of, same_chars};
use vstd::string::StringExecFns;

verus! {

/// Year, month, day of a day number (inverse of `days_from_civil`).
#[verifier::opaque]
pub open spec fn spec_civil(day: int) -> (int, int, int) {
    let z = day + 719468;
    let era = tdiv(if z >= 0 { z } else { z - 146096 }, 146097);
    let doe = z - era * 146097;
    let yoe = tdiv(doe - tdiv(doe, 1460) + tdiv(doe, 36524) - tdiv(doe, 146096), 365);
    let y = yoe + era * 400;
    let doy = doe - (365 * yoe + tdiv(yoe, 4) - tdiv(yoe, 100));
    let mp = tdiv(5 * doy + 2, 153);
    let d = doy - tdiv(153 * mp + 2, 5) + 1;
    let m = if mp < 10 { mp + 3 } else { mp - 9 };
    (if m <= 2 { y + 1 } else { y }, m, d)
}

/// The day numbers on which `civil`'s `i64` arithmetic does not overflow.
pub open spec fn day_in_range(day: int) -> bool {
    i64::MIN <= day <= i64::MAX - 719468
}

proof fn lemma_floor_era(z: int)
    ensures
        tdiv(if z >= 0 { z } else { z - 146096 }, 146097) == z / 146097,
{
}

proof fn lemma_doe_range(z: int)
    ensures
        0 <= z - (z / 146097) * 146097 < 146097,
{
}

/// Year, month and day of a day number counted from 1970-01-01.
pub fn civil(day: i64) -> (r: (i64, i64, i64))
    requires
        day_in_range(day as int),
    ensures
        (r.0 as int, r.1 as int, r.2 as int) == spec_civil(day as int),
{
    proof {
        reveal(spec_civil);
    }
    let z = day + 719468;
    let era = (if z >= 0 { z } else { z - 146096 }) / 146097;
    proof {
        lemma_floor_era(z as int);
        lemma_doe_range(z as int);
    }
    let doe = z - era * 146097;
    let yoe = (doe - doe / 1460 + doe / 36524 - doe / 146096) / 365;
    let y = yoe + era * 400;
    let doy = doe - (365 * yoe + yoe / 4 - yoe / 100);
    let mp = (5 * doy + 2) / 153;
    let d = doy - (153 * mp + 2) / 5 + 1;
    let m = if mp < 10 { mp + 3 } else { mp - 9 };
    (if m <= 2 { y + 1 } else { y }, m, d)
}

proof fn lemma_yoe_range(doe: int)
    requires
        0 <= doe < 146097,
    ensures
        0 <= doe - doe / 1460 + doe / 36524 - doe / 146096 < 146000,
{
}

#[verifier::spinoff_prover]
#[verifier::rlimit(50)]
proof fn lemma_doy_range(doe: int)
    requires
        0 <= doe < 146097,
    ensures
        ({
            let yoe = (doe - doe / 1460 + doe / 36524 - doe / 146096) / 365;
            let doy = doe - (365 * yoe + yoe / 4 - yoe / 100);
            0 <= doy <= 365
        }),
{
    lemma_yoe_range(doe);
}

/// `civil` inverts `days_from_civil`: the date of a day number gives back that day number.
pub proof fn lemma_civil_round_trip(day: int)
    requires
        day_in_range(day),
    ensures
        ({
            let (y, m, d) = spec_civil(day);
            spec_days_from_civil(y, m, d) == day
        }),
{
    reveal(spec_civil);
    let z = day + 719468;
    lemma_floor_era(z);
    lemma_doe_range(z);
    let era = z / 146097;
    let doe = z - era * 146097;
    lemma_yoe_range(doe);
    lemma_doy_range(doe);
    let e = doe - doe / 1460 + doe / 36524 - doe / 146096;
    assert(tdiv(doe, 1460) == doe / 1460);
    assert(tdiv(doe, 36524) == doe / 36524);
    assert(tdiv(doe, 146096) == doe / 146096);
    assert(tdiv(e, 365) == e / 365);
    let yoe = e / 365;
    assert(0 <= yoe < 400);
    let y = yoe + era * 400;
    let doy = doe - (365 * yoe + yoe / 4 - yoe / 100);
    assert(0 <= doy <= 365);
    let mp = (5 * doy + 2) / 153;
    assert(0 <= mp < 12);
    let dd = doy - (153 * mp + 2) / 5 + 1;
    let m = if mp < 10 { mp + 3 } else { mp - 9 };
    let (ry, rm, rd) = spec_civil(day);
    assert(rm == m && rd == dd);
    assert(ry == (if m <= 2 { y + 1 } else { y }));
    // back through `days_from_civil`
    let y1 = if rm <= 2 { ry - 1 } else { ry };
    assert(y1 == y);
    assert(tdiv(if y1 >= 0 { y1 } else { y1 - 399 }, 400) == era) by {
        assert(y1 / 400 == era);
    }
    assert(trem(rm + 9, 12) == mp);
    assert(tdiv(153 * mp + 2, 5) == (153 * mp + 2) / 5);
    assert(tdiv(yoe, 4) == yoe / 4 && tdiv(yoe, 100) == yoe / 100);
}

/// A leap year of the proleptic Gregorian calendar.
pub open spec fn is_leap(y: int) -> bool {
    y % 4 == 0 && (y % 100 != 0 || y % 400 == 0)
}

/// Number of days of month `m` of year `y`.
pub open spec fn days_in_month(y: int, m: int) -> int {
    if m == 2 {
        if is_leap(y) { 29 } else { 28 }
    } else if m == 4 || m == 6 || m == 9 || m == 11 {
        30
    } else {
        31
    }
}

/// A year of the era, split into centuries, four-year groups and years.
proof fn lemma_yoe_of_doe(yoe: int, doy: int)
    requires
        0 <= yoe < 400,
        0 <= doy <= 364 || (doy == 365 && (yoe + 1) % 4 == 0 && ((yoe + 1) % 100 != 0 || (yoe + 1) % 400 == 0)),
    ensures
        ({
            let doe = 365 * yoe + yoe / 4 - yoe / 100 + doy;
            &&& 0 <= doe < 146097
            &&& (doe - doe / 1460 + doe / 36524 - doe / 146096) / 365 == yoe
        }),
{
    let c = yoe / 100;
    let b = (yoe % 100) / 4;
    let r = yoe % 4;
    assert(yoe == 100 * c + 4 * b + r && 0 <= c < 4 && 0 <= b < 25 && 0 <= r < 4);
    assert(yoe / 4 == 25 * c + b);
    let doe = 365 * yoe + yoe / 4 - yoe / 100 + doy;
    assert(doe == 36524 * c + 1461 * b + 365 * r + doy);
    if doy == 365 {
        assert(r == 3);
        assert(b < 24 || c == 3);
    }
    assert((doe - doe / 1460 + doe / 36524 - doe / 146096) / 365 == yoe) by (nonlinear_arith)
        requires
            doe == 36524 * c + 1461 * b + 365 * r + doy,
            yoe == 100 * c + 4 * b + r,
            0 <= c < 4,
            0 <= b < 25,
            0 <= r < 4,
            0 <= doy <= 364 || (doy == 365 && r == 3 && (b < 24 || c == 3)),
    ;
}

/// Law: a valid date turned into a day number and back is the same date.
#[verifier::spinoff_prover]
#[verifier::rlimit(60)]
pub proof fn lemma_days_round_trip(y: int, m: int, d: int)
    requires
        1 <= m <= 12,
        1 <= d <= days_in_month(y, m),
    ensures
        spec_civil(spec_days_from_civil(y, m, d)) == (y, m, d),
{
    reveal(spec_civil);
    let y1 = if m <= 2 { y - 1 } else { y };
    let era = y1 / 400;
    assert(tdiv(if y1 >= 0 { y1 } else { y1 - 399 }, 400) == era);
    let yoe = y1 - era * 400;
    assert(0 <= yoe < 400);
    let mp = if m <= 2 { m + 9 } else { m - 3 };
    assert(trem(m + 9, 12) == mp);
    let q = (153 * mp + 2) / 5;
    assert(tdiv(153 * mp + 2, 5) == q);
    let doy = q + d - 1;
    assert(tdiv(yoe, 4) == yoe / 4 && tdiv(yoe, 100) == yoe / 100);
    // the year of the era that ends in February of `y1 + 1` has a 29 February when that
    // year is a leap year
    assert((y1 + 1) % 4 == (yoe + 1) % 4 && (y1 + 1) % 100 == (yoe + 1) % 100 && (y1 + 1) % 400 == (yoe + 1) % 400)
        by (nonlinear_arith)
        requires
            y1 == era * 400 + yoe,
    ;
    if mp == 0 { assert(q == 0 && doy <= 30); }
    else if mp == 1 { assert(q == 31 && doy <= 60); }
    else if mp == 2 { assert(q == 61 && doy <= 91); }
    else if mp == 3 { assert(q == 92 && doy <= 121); }
    else if mp == 4 { assert(q == 122 && doy <= 152); }
    else if mp == 5 { assert(q == 153 && doy <= 183); }
    else if mp == 6 { assert(q == 184 && doy <= 213); }
    else if mp == 7 { assert(q == 214 && doy <= 244); }
    else if mp == 8 { assert(q == 245 && doy <= 274); }
    else if mp == 9 { assert(q == 275 && doy <= 305); }
    else if mp == 10 { assert(q == 306 && doy <= 336); }
    else { assert(q == 337 && y == y1 + 1 && m == 2 && doy <= 365); }
    lemma_yoe_of_doe(yoe, doy);
    let doe = 365 * yoe + yoe / 4 - yoe / 100 + doy;
    let day = era * 146097 + doe - 719468;
    assert(spec_days_from_civil(y, m, d) == day);
    let z = day + 719468;
    lemma_floor_era(z);
    assert(z / 146097 == era) by (nonlinear_arith)
        requires
            z == era * 146097 + doe,
            0 <= doe < 146097,
    ;
    let e = doe - doe / 1460 + doe / 36524 - doe / 146096;
    assert(tdiv(doe, 1460) == doe / 1460);
    assert(tdiv(doe, 36524) == doe / 36524);
    assert(tdiv(doe, 146096) == doe / 146096);
    lemma_yoe_range(doe);
    assert(tdiv(e, 365) == e / 365);
    assert(e / 365 == yoe);
    let doy2 = doe - (365 * yoe + yoe / 4 - yoe / 100);
    assert(doy2 == doy);
    assert(tdiv(5 * doy + 2, 153) == (5 * doy + 2) / 153);
    assert((5 * doy + 2) / 153 == mp);
    assert(tdiv(153 * mp + 2, 5) == q);
}

// ---------------------------------------------------------------- period keys

/// Decimal digits of `n`.
pub open spec fn dec_nat(n: nat) -> Seq<char>
    decreases n,
{
    if n < 10 {
        seq![(n + 48) as char]
    } else {
        dec_nat(n / 10) + seq![((n % 10) + 48) as char]
    }
}

/// `n` as Rust's `{}` writes it.
pub open spec fn dec(n: int) -> Seq<char> {
    if n < 0 {
        seq!['-'] + dec_nat((-n) as nat)
    } else {
        dec_nat(n as nat)
    }
}

/// `n` as Rust's `{:02}` writes it.
pub open spec fn pad2(n: int) -> Seq<char> {
    if 0 <= n < 10 {
        seq!['0'] + dec(n)
    } else {
        dec(n)
    }
}

fn digit_char(d: u64) -> (c: char)
    requires
        d < 10,
    ensures
        c == (d + 48) as char,
{
    if d == 0 { '0' } else if d == 1 { '1' } else if d == 2 { '2' } else if d == 3 { '3' }
    else if d == 4 { '4' } else if d == 5 { '5' } else if d == 6 { '6' } else if d == 7 { '7' }
    else if d == 8 { '8' } else { '9' }
}

fn push_nat(s: &mut String, n: u64)
    ensures
        final(s)@ == old(s)@ + dec_nat(n as nat),
    decreases n,
{
    if n >= 10 {
        push_nat(s, n / 10);
    }
    push_char(s, digit_char(n % 10));
    assert(final(s)@ =~= old(s)@ + dec_nat(n as nat));
}

fn push_int(s: &mut String, n: i64)
    ensures
        final(s)@ == old(s)@ + dec(n as int),
{
    if n < 0 {
        push_char(s, '-');
        let m: u64 = if n == i64::MIN { 9223372036854775808u64 } else { (-n) as u64 };
        push_nat(s, m);
        assert(final(s)@ =~= old(s)@ + dec(n as int));
    } else {
        push_nat(s, n as u64);
    }
}

fn push_pad2(s: &mut String, n: i64)
    ensures
        final(s)@ == old(s)@ + pad2(n as int),
{
    if 0 <= n && n < 10 {
        push_char(s, '0');
        push_int(s, n);
        assert(final(s)@ =~= old(s)@ + pad2(n as int));
    } else {
        push_int(s, n);
    }
}

/// Short French name of month `m` (1 = January).
pub open spec fn month_name(m: int) -> Seq<char> {
    if m == 1 { "Janv"@ } else if m == 2 { "F\u{e9}vr"@ } else if m == 3 { "Mars"@ }
    else if m == 4 { "Avr"@ } else if m == 5 { "Mai"@ } else if m == 6 { "Juin"@ }
    else if m == 7 { "Juil"@ } else if m == 8 { "Ao\u{fb}t"@ } else if m == 9 { "Sept"@ }
    else if m == 10 { "Oct"@ } else if m == 11 { "Nov"@ } else { "D\u{e9}c"@ }
}

/// French name of weekday `w` (0 = Monday).
pub open spec fn weekday_name(w: int) -> Seq<char> {
    if w == 0 { "Lundi"@ } else if w == 1 { "Mardi"@ } else if w == 2 { "Mercredi"@ }
    else if w == 3 { "Jeudi"@ } else if w == 4 { "Vendredi"@ } else if w == 5 { "Samedi"@ }
    else { "Dimanche"@ }
}

fn month_str(m: i64) -> (r: &'static str)
    ensures
        r@ == month_name(m as int),
{
    if m == 1 { "Janv" } else if m == 2 { "F\u{e9}vr" } else if m == 3 { "Mars" }
    else if m == 4 { "Avr" } else if m == 5 { "Mai" } else if m == 6 { "Juin" }
    else if m == 7 { "Juil" } else if m == 8 { "Ao\u{fb}t" } else if m == 9 { "Sept" }
    else if m == 10 { "Oct" } else if m == 11 { "Nov" } else { "D\u{e9}c" }
}

fn weekday_str(w: u8) -> (r: &'static str)
    ensures
        r@ == weekday_name(w as int),
{
    if w == 0 { "Lundi" } else if w == 1 { "Mardi" } else if w == 2 { "Mercredi" }
    else if w == 3 { "Jeudi" } else if w == 4 { "Vendredi" } else if w == 5 { "Samedi" }
    else { "Dimanche" }
}

/// The groupings that do not depend on the date (buy-in, multiplier, room, tables).
pub open spec fn undated_group(g: Seq<char>) -> bool {
    g == "buyin"@ || g == "multiplier"@ || g == "room"@ || g == "tables"@
}

/// Key and sort value of a tournament of day `day` started at timestamp `start` in the
/// results grouped by `group` ("day", "week", "year", "hour", "weekday", otherwise the
/// month); none for the groupings that do not depend on the date.
pub open spec fn spec_period_key(group: Seq<char>, day: int, start: int) -> Option<(Seq<char>, int)> {
    let (y, m, d) = spec_civil(day);
    if group == "day"@ {
        Some((pad2(d) + "/"@ + pad2(m) + "/"@ + dec(y), day))
    } else if group == "week"@ {
        let monday = day - spec_weekday(day);
        let (yy, mm, dd) = spec_civil(monday);
        Some(("Sem. "@ + pad2(dd) + "/"@ + pad2(mm) + "/"@ + dec(yy), monday))
    } else if group == "year"@ {
        Some((dec(y), y))
    } else if undated_group(group) {
        None
    } else if group == "hour"@ {
        let h = (start % 86400) / 3600;
        Some((pad2(h) + "h"@, h))
    } else if group == "weekday"@ {
        let w = spec_weekday(day);
        Some((weekday_name(w), w))
    } else {
        Some((month_name(m) + " "@ + dec(trem(y, 100)), y * 12 + m))
    }
}

fn is_word(g: &Vec<char>, w: &str) -> (r: bool)
    ensures
        r == (g@ == w@),
{
    let v = chars_of(w);
    same_chars(g, &v)
}

fn date_key(prefix: &str, day: i64) -> (r: String)
    requires
        day_in_range(day as int),
    ensures
        ({
            let (y, m, d) = spec_civil(day as int);
            r@ == prefix@ + pad2(d) + "/"@ + pad2(m) + "/"@ + dec(y)
        }),
{
    let (y, m, d) = civil(day);
    let mut key = String::from_str(prefix);
    push_pad2(&mut key, d);
    key.append("/");
    push_pad2(&mut key, m);
    key.append("/");
    push_int(&mut key, y);
    key
}

fn hour_key(start: i64) -> (r: (String, i64))
    ensures
        r.1 == (start as int % 86400) / 3600,
        r.0@ == pad2(r.1 as int) + "h"@,
{
    let q = start % 86400;
    let e = if q < 0 { q + 86400 } else { q };
    assert(e == (start as int) % 86400);
    let h = e / 3600;
    let mut key = String::new();
    push_pad2(&mut key, h);
    key.append("h");
    (key, h)
}

fn month_key(day: i64) -> (r: (String, i64))
    requires
        day_in_range(day as int),
    ensures
        ({
            let (y, m, d) = spec_civil(day as int);
            r.0@ == month_name(m) + " "@ + dec(trem(y, 100)) && r.1 == y * 12 + m
        }),
{
    let (y, m, d) = civil(day);
    proof {
        lemma_civil_bounds(day as int);
    }
    let mut key = String::from_str(month_str(m));
    key.append(" ");
    push_int(&mut key, y % 100);
    (key, y * 12 + m)
}

/// Years of representable day numbers stay far inside `i64`.
proof fn lemma_civil_bounds(day: int)
    requires
        day_in_range(day),
    ensures
        -0x100_0000_0000_0000 <= spec_civil(day).0 <= 0x100_0000_0000_0000,
        1 <= spec_civil(day).1 <= 12,
{
    reveal(spec_civil);
    let z = day + 719468;
    lemma_floor_era(z);
    lemma_doe_range(z);
    let era = z / 146097;
    let doe = z - era * 146097;
    lemma_yoe_range(doe);
    lemma_doy_range(doe);
    let e = doe - doe / 1460 + doe / 36524 - doe / 146096;
    assert(tdiv(doe, 1460) == doe / 1460);
    assert(tdiv(doe, 36524) == doe / 36524);
    assert(tdiv(doe, 146096) == doe / 146096);
    assert(tdiv(e, 365) == e / 365);
    let yoe = e / 365;
    let doy = doe - (365 * yoe + yoe / 4 - yoe / 100);
    assert(tdiv(yoe, 4) == yoe / 4 && tdiv(yoe, 100) == yoe / 100);
    let mp = (5 * doy + 2) / 153;
    assert(0 <= mp < 12);
    assert(tdiv(5 * doy + 2, 153) == mp);
}

/// Key and sort value of a tournament in the results grouped by a date period (see
/// `spec_period_key`).
pub fn period_key(group: &str, day: i64, start: i64) -> (r: Option<(String, i64)>)
    requires
        day_in_range(day as int),
        day_in_range(day - 6),
    ensures
        match (r, spec_period_key(group@, day as int, start as int)) {
            (Some((k, v)), Some((sk, sv))) => k@ == sk && v == sv,
            (None, None) => true,
            _ => false,
        },
{
    let g = chars_of(group);
    if is_word(&g, "day") {
        let k = date_key("", day);
        proof {
            reveal_strlit("");
            let sk = spec_period_key(group@, day as int, start as int)->0;
            assert(k@ =~= sk.0);
        }
        return Some((k, day));
    }
    if is_word(&g, "week") {
        let w = weekday(day);
        let monday = day - w as i64;
        return Some((date_key("Sem. ", monday), monday));
    }
    if is_word(&g, "year") {
        let (y, m, d) = civil(day);
        let mut key = String::new();
        push_int(&mut key, y);
        return Some((key, y));
    }
    if is_word(&g, "buyin") || is_word(&g, "multiplier") || is_word(&g, "room") || is_word(&g, "tables") {
        return None;
    }
    if is_word(&g, "hour") {
        return Some(hour_key(start));
    }
    if is_word(&g, "weekday") {
        let w = weekday(day);
        return Some((String::from_str(weekday_str(w)), w as i64));
    }
    Some(month_key(day))
}

/// Law: different months have different names.
pub proof fn lemma_month_names_differ(m1: int, m2: int)
    requires
        1 <= m1 <= 12,
        1 <= m2 <= 12,
        m1 != m2,
    ensures
        month_name(m1) != month_name(m2),
{
    reveal_strlit("Janv");
    reveal_strlit("F\u{e9}vr");
    reveal_strlit("Mars");
    reveal_strlit("Avr");
    reveal_strlit("Mai");
    reveal_strlit("Juin");
    reveal_strlit("Juil");
    reveal_strlit("Ao\u{fb}t");
    reveal_strlit("Sept");
    reveal_strlit("Oct");
    reveal_strlit("Nov");
    reveal_strlit("D\u{e9}c");
    if month_name(m1) == month_name(m2) {
        let a = month_name(m1);
        let b = month_name(m2);
        assert(a.len() == b.len());
        assert(a[0] == b[0] && a[1] == b[1] && a[2] == b[2]);
        if a.len() > 3 {
            assert(a[3] == b[3]);
        }
    }
}

/// Law: results grouped by month give two days of one year that fall in different months
/// rows with different labels.
pub proof fn lemma_month_keys_differ(d1: int, d2: int)
    requires
        spec_civil(d1).0 == spec_civil(d2).0,
        spec_civil(d1).1 != spec_civil(d2).1,
        1 <= spec_civil(d1).1 <= 12,
        1 <= spec_civil(d2).1 <= 12,
    ensures
        spec_period_key("month"@, d1, 0) is Some,
        spec_period_key("month"@, d2, 0) is Some,
        (spec_period_key("month"@, d1, 0)->0).0 != (spec_period_key("month"@, d2, 0)->0).0,
{
    reveal_strlit("month");
    reveal_strlit("day");
    reveal_strlit("week");
    reveal_strlit("year");
    reveal_strlit("buyin");
    reveal_strlit("multiplier");
    reveal_strlit("room");
    reveal_strlit("tables");
    reveal_strlit("hour");
    reveal_strlit("weekday");
    assert("month"@.len() == 5 && "day"@.len() == 3 && "week"@.len() == 4 && "year"@.len() == 4);
    assert("hour"@.len() == 4 && "weekday"@.len() == 7 && "multiplier"@.len() == 10 && "room"@.len() == 4);
    assert("tables"@.len() == 6 && "month"@[0] == 'm' && "buyin"@[0] == 'b');
    assert("month"@ != "day"@ && "month"@ != "week"@ && "month"@ != "year"@ && "month"@ != "hour"@);
    assert("month"@ != "weekday"@ && !undated_group("month"@));
    let (y, m1, _d1) = spec_civil(d1);
    let (_y2, m2, _d2) = spec_civil(d2);
    let tail = " "@ + dec(trem(y, 100));
    let a = month_name(m1);
    let b = month_name(m2);
    lemma_month_names_differ(m1, m2);
    assert((spec_period_key("month"@, d1, 0)->0).0 == a + tail);
    assert((spec_period_key("month"@, d2, 0)->0).0 == b + tail);
    if a + tail == b + tail {
        assert(a.len() == b.len());
        assert(a =~= (a + tail).subrange(0, a.len() as int));
        assert(b =~= (b + tail).subrange(0, b.len() as int));
    }
}

/// Law: different weekdays have different names.
pub proof fn lemma_weekday_names_differ(w1: int, w2: int)
    requires
        0 <= w1 < 7,
        0 <= w2 < 7,
        w1 != w2,
    ensures
        weekday_name(w1) != weekday_name(w2),
{
    reveal_strlit("Lundi");
    reveal_strlit("Mardi");
    reveal_strlit("Mercredi");
    reveal_strlit("Jeudi");
    reveal_strlit("Vendredi");
    reveal_strlit("Samedi");
    reveal_strlit("Dimanche");
    if weekday_name(w1) == weekday_name(w2) {
        let a = weekday_name(w1);
        let b = weekday_name(w2);
        assert(a.len() == b.len());
        assert(a[0] == b[0] && a[1] == b[1]);
    }
}

/// Law: months sort by year then month: the sort value of one day's month row is smaller
/// than another's exactly when its year is earlier, or the same with an earlier month, and
/// equal exactly when both fall in the same month of the same year.
pub proof fn lemma_month_order(d1: int, d2: int)
    requires
        day_in_range(d1),
        day_in_range(d2),
    ensures
        spec_period_key("month"@, d1, 0) is Some,
        spec_period_key("month"@, d2, 0) is Some,
        ({
            let (y1, m1, _a) = spec_civil(d1);
            let (y2, m2, _b) = spec_civil(d2);
            let v1 = (spec_period_key("month"@, d1, 0)->0).1;
            let v2 = (spec_period_key("month"@, d2, 0)->0).1;
            &&& (v1 < v2) <==> (y1 < y2 || (y1 == y2 && m1 < m2))
            &&& (v1 == v2) <==> (y1 == y2 && m1 == m2)
        }),
{
    lemma_civil_bounds(d1);
    lemma_civil_bounds(d2);
    reveal_strlit("month");
    reveal_strlit("day");
    reveal_strlit("week");
    reveal_strlit("year");
    reveal_strlit("buyin");
    reveal_strlit("multiplier");
    reveal_strlit("room");
    reveal_strlit("tables");
    reveal_strlit("hour");
    reveal_strlit("weekday");
    assert("month"@.len() == 5 && "day"@.len() == 3 && "week"@.len() == 4 && "year"@.len() == 4);
    assert("hour"@.len() == 4 && "weekday"@.len() == 7 && "multiplier"@.len() == 10 && "room"@.len() == 4);
    assert("tables"@.len() == 6 && "month"@[0] == 'm' && "buyin"@[0] == 'b');
    assert("month"@ != "day"@ && "month"@ != "week"@ && "month"@ != "year"@ && "month"@ != "hour"@);
    assert("month"@ != "weekday"@ && !undated_group("month"@));
}

/// Law: results grouped by week fall under the Monday that starts the day's week.
pub proof fn lemma_week_monday(day: int, start: int)
    ensures
        spec_period_key("week"@, day, start) is Some,
        ({
            let monday = (spec_period_key("week"@, day, start)->0).1;
            &&& spec_weekday(monday) == 0
            &&& day - 6 <= monday <= day
        }),
{
    reveal_strlit("week");
    reveal_strlit("day");
    assert("week"@.len() == 4 && "day"@.len() == 3);
    assert("week"@ != "day"@);
}

} // verus!
