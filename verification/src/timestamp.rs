//! RFC 3339 timestamps of the form `YYYY-MM-DDTHH:MM:SSZ`, as GitHub gives
//! them, and their conversion to seconds since the Unix epoch.
use vstd::prelude::*;

use crate::text::{
    all_digits, chars_of, decimal, digits_value, is_digit, parse_u64, parse_u64_spec, split_once,
    split_once_exec, unsigned_body,
};

verus! {

/// The fields of a timestamp, as written (not checked to form a valid date).
pub struct Timestamp {
    pub year: u64,
    pub month: u64,
    pub day: u64,
    pub hour: u64,
    pub minute: u64,
    pub second: u64,
}

/// Splits `s` into three parts at the first two occurrences of `c`, as
/// `splitn(3, c)` does when it yields three parts.
pub open spec fn three_parts(s: Seq<char>, c: char) -> Option<(Seq<char>, Seq<char>, Seq<char>)> {
    match split_once(s, c) {
        Some((a, rest)) => match split_once(rest, c) {
            Some((b, r)) => Some((a, b, r)),
            None => None,
        },
        None => None,
    }
}

/// Three numbers written as three parts separated by `c`.
pub open spec fn three_numbers(s: Seq<char>, c: char) -> Option<(u64, u64, u64)> {
    match three_parts(s, c) {
        Some((a, b, r)) => match (parse_u64_spec(a), parse_u64_spec(b), parse_u64_spec(r)) {
            (Some(x), Some(y), Some(z)) => Some((x, y, z)),
            _ => None,
        },
        None => None,
    }
}

/// The fields of `s`: it ends in `Z`; before that, a date `Y-M-D`, a `T`,
/// and a time `h:m:s`, each a `u64` in decimal.
pub open spec fn timestamp_fields(s: Seq<char>) -> Option<Timestamp> {
    if s.len() > 0 && s.last() == 'Z' {
        match split_once(s.drop_last(), 'T') {
            Some((date, time)) => match (three_numbers(date, '-'), three_numbers(time, ':')) {
                (Some((y, mo, d)), Some((h, mi, se))) => Some(
                    Timestamp { year: y, month: mo, day: d, hour: h, minute: mi, second: se },
                ),
                _ => None,
            },
            None => None,
        }
    } else {
        None
    }
}

/// The year that the day count starts from: years begin in March, so January
/// and February count to the year before.
pub open spec fn shifted_year(t: Timestamp) -> int {
    if t.month <= 2 {
        t.year - 1
    } else {
        t.year as int
    }
}

/// The month counted from March (March is 0).
pub open spec fn shifted_month(t: Timestamp) -> int {
    if t.month > 2 {
        t.month - 3
    } else {
        t.month + 9
    }
}

/// Days from the start of the shifted year (1 March) to the given day.
pub open spec fn day_of_shifted_year(t: Timestamp) -> int {
    (153 * shifted_month(t) + 2) / 5 + t.day - 1
}

/// Days from 1 March of year 0 to 1 March of the shifted year `y` (`y >= 0`),
/// counted in whole 400-year eras of 146097 days and the years since.
pub open spec fn days_to_year(y: int) -> int {
    let era = y / 400;
    let yoe = y - era * 400;
    era * 146097 + yoe * 365 + yoe / 4 - yoe / 100
}

/// Days from 1 March of year 0 to the given day.
pub open spec fn days_from_year_zero(t: Timestamp) -> int {
    days_to_year(shifted_year(t)) + day_of_shifted_year(t)
}

/// Days from 1 March of year 0 to 1 January 1970.
pub open spec fn epoch_day() -> int {
    719468
}

/// Whether the conversion's arithmetic stays within `u64`: the shifted year is
/// not negative, and no intermediate value leaves the range.
pub open spec fn arithmetic_fits(t: Timestamp) -> bool {
    let y = shifted_year(t);
    let x = shifted_month(t);
    let doy_plus = (153 * x + 2) / 5 + t.day;
    let yoe = y - (y / 400) * 400;
    &&& y >= 0
    &&& 153 * x + 2 <= u64::MAX
    &&& 1 <= doy_plus <= u64::MAX
    &&& yoe * 365 + yoe / 4 - yoe / 100 + doy_plus - 1 <= u64::MAX
    &&& days_from_year_zero(t) <= u64::MAX
    &&& days_from_year_zero(t) >= epoch_day() ==> (days_from_year_zero(t) - epoch_day()) * 86400
        + t.hour * 3600 + t.minute * 60 + t.second <= u64::MAX
}

/// Seconds since the Unix epoch of a timestamp; `None` before the epoch.
pub open spec fn unix_seconds(t: Timestamp) -> Option<int> {
    if days_from_year_zero(t) >= epoch_day() {
        Some(
            (days_from_year_zero(t) - epoch_day()) * 86400 + t.hour * 3600 + t.minute * 60
                + t.second,
        )
    } else {
        None
    }
}

/// Whether converting `s` stays within `u64` (trivially so when `s` is no timestamp).
pub open spec fn timestamp_fits(s: Seq<char>) -> bool {
    match timestamp_fields(s) {
        Some(t) => arithmetic_fits(t),
        None => true,
    }
}

/// What `parse_rfc3339` gives for `s`.
pub open spec fn parse_rfc3339_spec(s: Seq<char>) -> Option<u64> {
    match timestamp_fields(s) {
        Some(t) => match unix_seconds(t) {
            Some(v) => Some(v as u64),
            None => None,
        },
        None => None,
    }
}

/// Parses three numbers separated by `c`.
fn parse_three(s: &Vec<char>, c: char) -> (res: Option<(u64, u64, u64)>)
    ensures
        res == three_numbers(s@, c),
{
    let (a, rest) = match split_once_exec(s, c) {
        Some(p) => p,
        None => return None,
    };
    let (b, r) = match split_once_exec(&rest, c) {
        Some(p) => p,
        None => return None,
    };
    let x = match parse_u64(&a) {
        Some(x) => x,
        None => return None,
    };
    let y = match parse_u64(&b) {
        Some(y) => y,
        None => return None,
    };
    let z = match parse_u64(&r) {
        Some(z) => z,
        None => return None,
    };
    Some((x, y, z))
}

/// The fields of a timestamp written as `Y-M-DTh:m:sZ`.
pub fn parse_timestamp_fields(s: &str) -> (res: Option<Timestamp>)
    ensures
        res == timestamp_fields(s@),
{
    let cs = chars_of(s);
    if cs.len() == 0 || cs[cs.len() - 1] != 'Z' {
        return None;
    }
    let body = crate::text::slice_chars(&cs, 0, cs.len() - 1);
    assert(body@ =~= s@.drop_last());
    let (date, time) = match split_once_exec(&body, 'T') {
        Some(p) => p,
        None => return None,
    };
    let (y, mo, d) = match parse_three(&date, '-') {
        Some(v) => v,
        None => return None,
    };
    let (h, mi, se) = match parse_three(&time, ':') {
        Some(v) => v,
        None => return None,
    };
    Some(Timestamp { year: y, month: mo, day: d, hour: h, minute: mi, second: se })
}

/// Whether the conversion of `t` stays within `u64`.
pub fn arithmetic_fits_exec(t: &Timestamp) -> (res: bool)
    ensures
        res == arithmetic_fits(*t),
{
    if t.month <= 2 && t.year == 0 {
        return false;
    }
    let y: u64 = if t.month <= 2 {
        t.year - 1
    } else {
        t.year
    };
    let x: u64 = if t.month > 2 {
        t.month - 3
    } else {
        t.month + 9
    };
    let m153 = match x.checked_mul(153) {
        Some(v) => v,
        None => return false,
    };
    let m153p = match m153.checked_add(2) {
        Some(v) => v,
        None => return false,
    };
    let doy_plus = match (m153p / 5).checked_add(t.day) {
        Some(v) => v,
        None => return false,
    };
    if doy_plus < 1 {
        return false;
    }
    let doy = doy_plus - 1;
    let era = y / 400;
    let yoe = y - era * 400;
    proof {
        assert(0 <= yoe < 400) by (nonlinear_arith)
            requires
                era == y / 400,
                yoe == y - era * 400,
        ;
    }
    let base = yoe * 365 + yoe / 4 - yoe / 100;
    let doe = match base.checked_add(doy) {
        Some(v) => v,
        None => return false,
    };
    let era_days = match era.checked_mul(146097) {
        Some(v) => v,
        None => return false,
    };
    let days = match era_days.checked_add(doe) {
        Some(v) => v,
        None => return false,
    };
    assert(days == days_from_year_zero(*t));
    if days < 719468 {
        return true;
    }
    let unix_days = days - 719468;
    let a = match unix_days.checked_mul(86400) {
        Some(v) => v,
        None => return false,
    };
    let b = match t.hour.checked_mul(3600) {
        Some(v) => v,
        None => return false,
    };
    let c = match t.minute.checked_mul(60) {
        Some(v) => v,
        None => return false,
    };
    let ab = match a.checked_add(b) {
        Some(v) => v,
        None => return false,
    };
    let abc = match ab.checked_add(c) {
        Some(v) => v,
        None => return false,
    };
    match abc.checked_add(t.second) {
        Some(_) => true,
        None => false,
    }
}

/// Whether converting `s` stays within `u64`.
pub fn timestamp_fits_exec(s: &str) -> (res: bool)
    ensures
        res == timestamp_fits(s@),
{
    match parse_timestamp_fields(s) {
        Some(t) => arithmetic_fits_exec(&t),
        None => true,
    }
}

/// Seconds since the Unix epoch of a timestamp whose arithmetic fits in `u64`;
/// `None` before the epoch.
pub fn to_unix_seconds(t: &Timestamp) -> (res: Option<u64>)
    requires
        arithmetic_fits(*t),
    ensures
        match unix_seconds(*t) {
            Some(v) => res == Some(v as u64),
            None => res is None,
        },
{
    let y: u64 = if t.month <= 2 {
        t.year - 1
    } else {
        t.year
    };
    let era = y / 400;
    let yoe = y - era * 400;
    proof {
        assert(0 <= yoe < 400) by (nonlinear_arith)
            requires
                era == y / 400,
                yoe == y - era * 400,
        ;
    }
    let doy = (153 * (if t.month > 2 {
        t.month - 3
    } else {
        t.month + 9
    }) + 2) / 5 + t.day - 1;
    let doe = yoe * 365 + yoe / 4 - yoe / 100 + doy;
    let days = era * 146097 + doe;
    let unix_days = match days.checked_sub(719468) {
        Some(d) => d,
        None => return None,
    };
    Some(unix_days * 86400 + t.hour * 3600 + t.minute * 60 + t.second)
}

/// Parses an RFC 3339 UTC timestamp `Y-M-DTh:m:sZ` into seconds since the Unix
/// epoch. `None` when `s` is not of that form or lies before the epoch.
pub fn parse_rfc3339(s: &str) -> (res: Option<u64>)
    requires
        timestamp_fits(s@),
    ensures
        res == parse_rfc3339_spec(s@),
{
    match parse_timestamp_fields(s) {
        Some(t) => to_unix_seconds(&t),
        None => None,
    }
}

// ---------------------------------------------------------------------------
// The proleptic Gregorian calendar, counted day by day
// ---------------------------------------------------------------------------

pub open spec fn is_leap_year(y: int) -> bool {
    y % 4 == 0 && (y % 100 != 0 || y % 400 == 0)
}

pub open spec fn days_in_year(y: int) -> int {
    if is_leap_year(y) {
        366
    } else {
        365
    }
}

pub open spec fn days_in_month(y: int, m: int) -> int {
    if m == 2 {
        if is_leap_year(y) {
            29
        } else {
            28
        }
    } else if m == 4 || m == 6 || m == 9 || m == 11 {
        30
    } else {
        31
    }
}

/// Days from 1 January of year `y` to the first of month `m`.
pub open spec fn days_before_month(y: int, m: int) -> int
    decreases m,
{
    if m <= 1 {
        0
    } else {
        days_before_month(y, m - 1) + days_in_month(y, m - 1)
    }
}

/// Days from 1 January 1970 to 1 January of year `y` (`y >= 1970`).
pub open spec fn days_before_year(y: int) -> int
    decreases y - 1970,
{
    if y <= 1970 {
        0
    } else {
        days_before_year(y - 1) + days_in_year(y - 1)
    }
}

/// A real date and time of day: a month of the year, a day of that month, and
/// a time within the day.
pub open spec fn is_valid_timestamp(t: Timestamp) -> bool {
    &&& 1 <= t.month <= 12
    &&& 1 <= t.day <= days_in_month(t.year as int, t.month as int)
    &&& t.hour < 24
    &&& t.minute < 60
    &&& t.second < 60
}

/// Seconds from 1970-01-01T00:00:00Z to a valid timestamp of 1970 or later,
/// counted over the calendar.
pub open spec fn calendar_seconds(t: Timestamp) -> int {
    (days_before_year(t.year as int) + days_before_month(t.year as int, t.month as int) + t.day - 1)
        * 86400 + t.hour * 3600 + t.minute * 60 + t.second
}

/// From one 1 March to the next, `days_to_year` grows by the length of the
/// year that holds the February in between.
proof fn lemma_days_to_year_step(y: int)
    requires
        y >= 1,
    ensures
        days_to_year(y) == days_to_year(y - 1) + 365 + if is_leap_year(y) {
            1int
        } else {
            0int
        },
{
    let e1 = y / 400;
    let e0 = (y - 1) / 400;
    let r1 = y - e1 * 400;
    let r0 = (y - 1) - e0 * 400;
    assert(0 <= r1 < 400 && 0 <= r0 < 400) by (nonlinear_arith)
        requires
            y >= 1,
            e1 == y / 400,
            e0 == (y - 1) / 400,
            r1 == y - e1 * 400,
            r0 == (y - 1) - e0 * 400,
    ;
    if y % 400 == 0 {
        assert(r1 == 0 && r0 == 399 && e1 == e0 + 1) by (nonlinear_arith)
            requires
                y >= 1,
                y % 400 == 0,
                e1 == y / 400,
                e0 == (y - 1) / 400,
                r1 == y - e1 * 400,
                r0 == (y - 1) - e0 * 400,
        ;
        assert(is_leap_year(y));
    } else {
        assert(r1 == r0 + 1 && e1 == e0) by (nonlinear_arith)
            requires
                y >= 1,
                y % 400 != 0,
                e1 == y / 400,
                e0 == (y - 1) / 400,
                r1 == y - e1 * 400,
                r0 == (y - 1) - e0 * 400,
        ;
        assert(y % 4 == r1 % 4 && y % 100 == r1 % 100) by (nonlinear_arith)
            requires
                r1 == y - e1 * 400,
        ;
        assert(r1 / 4 == r0 / 4 + (if r1 % 4 == 0 { 1int } else { 0int }));
        assert(r1 / 100 == r0 / 100 + (if r1 % 100 == 0 { 1int } else { 0int }));
    }
}

/// The day count before each month of March onward.
proof fn lemma_days_before_month_from_march(y: int, m: int)
    requires
        3 <= m <= 12,
    ensures
        days_before_month(y, m) == 59 + (if is_leap_year(y) {
            1int
        } else {
            0int
        }) + (153 * (m - 3) + 2) / 5,
{
    reveal_with_fuel(days_before_month, 13);
}

/// Counting from 1 March of year 0 to 1 January of `y` gives the epoch day
/// plus the days from the epoch to `y`.
proof fn lemma_january_first(y: int)
    requires
        y >= 1970,
    ensures
        days_to_year(y - 1) + 306 - epoch_day() == days_before_year(y),
    decreases y - 1970,
{
    if y > 1970 {
        lemma_january_first(y - 1);
        lemma_days_to_year_step(y - 1);
    } else {
        assert(days_to_year(1969) == 719162);
    }
}

/// For a valid timestamp of 1970 or later, the day count of the conversion
/// is the number of calendar days since 1 January 1970.
pub proof fn lemma_days_since_epoch(t: Timestamp)
    requires
        is_valid_timestamp(t),
        t.year >= 1970,
    ensures
        days_from_year_zero(t) - epoch_day() == days_before_year(t.year as int) + days_before_month(
            t.year as int,
            t.month as int,
        ) + t.day - 1,
{
    let y = t.year as int;
    lemma_january_first(y);
    if t.month <= 2 {
        reveal_with_fuel(days_before_month, 3);
    } else {
        lemma_days_to_year_step(y);
        lemma_days_before_month_from_march(y, t.month as int);
    }
}

/// The conversion counts seconds over the calendar: for every valid timestamp
/// of 1970 or later it gives the seconds elapsed since 1970-01-01T00:00:00Z.
pub proof fn law_unix_seconds_is_calendar_time(t: Timestamp)
    requires
        is_valid_timestamp(t),
        t.year >= 1970,
    ensures
        unix_seconds(t) == Some(calendar_seconds(t)),
{
    lemma_days_since_epoch(t);
    assert(days_before_year(t.year as int) >= 0) by {
        lemma_days_before_year_nonneg(t.year as int);
    }
    assert(days_before_month(t.year as int, t.month as int) >= 0) by {
        lemma_days_before_month_nonneg(t.year as int, t.month as int);
    }
}

proof fn lemma_days_before_year_nonneg(y: int)
    ensures
        days_before_year(y) >= 0,
    decreases y - 1970,
{
    if y > 1970 {
        lemma_days_before_year_nonneg(y - 1);
    }
}

proof fn lemma_days_before_month_nonneg(y: int, m: int)
    ensures
        days_before_month(y, m) >= 0,
    decreases m,
{
    if m > 1 {
        lemma_days_before_month_nonneg(y, m - 1);
    }
}

/// Parsing a timestamp string that names a valid time of 1970 or later gives
/// the seconds elapsed since 1970-01-01T00:00:00Z.
pub proof fn law_parse_rfc3339_is_calendar_time(s: Seq<char>)
    requires
        timestamp_fields(s) is Some,
        is_valid_timestamp(timestamp_fields(s)->0),
        timestamp_fields(s)->0.year >= 1970,
        timestamp_fits(s),
    ensures
        parse_rfc3339_spec(s) == Some(calendar_seconds(timestamp_fields(s)->0) as u64),
        calendar_seconds(timestamp_fields(s)->0) <= u64::MAX,
{
    let t = timestamp_fields(s)->0;
    law_unix_seconds_is_calendar_time(t);
    lemma_days_since_epoch(t);
}

proof fn lemma_days_to_year_monotonic(a: int, b: int)
    requires
        0 <= a <= b,
    ensures
        days_to_year(a) + 365 * (b - a) <= days_to_year(b),
    decreases b - a,
{
    if a < b {
        lemma_days_to_year_monotonic(a, b - 1);
        lemma_days_to_year_step(b);
    }
}

/// A valid time before 1970 (from 1 March of year 0 on) lies before the epoch:
/// the conversion gives no value for it.
pub proof fn law_before_epoch_is_none(t: Timestamp)
    requires
        is_valid_timestamp(t),
        t.year < 1970,
        shifted_year(t) >= 0,
    ensures
        unix_seconds(t) is None,
{
    let y = t.year as int;
    if t.month >= 3 {
        lemma_days_to_year_monotonic(y, 1969);
    } else {
        lemma_days_to_year_monotonic(y - 1, 1969);
    }
    assert(days_to_year(1969) == 719162);
}

/// Every valid time from year 1 to year 1,000,000,000 converts without
/// leaving `u64`.
pub proof fn law_valid_timestamps_fit(t: Timestamp)
    requires
        is_valid_timestamp(t),
        1 <= t.year <= 1_000_000_000,
    ensures
        arithmetic_fits(t),
{
    let y = shifted_year(t);
    let era = y / 400;
    let yoe = y - era * 400;
    assert(0 <= yoe < 400 && 0 <= era <= 2_500_000) by (nonlinear_arith)
        requires
            0 <= y <= 1_000_000_000,
            era == y / 400,
            yoe == y - era * 400,
    ;
    assert(0 <= day_of_shifted_year(t) <= 400);
    assert(days_from_year_zero(t) <= 2_500_000 * 146097 + 400 * 365 + 400);
}

// ---------------------------------------------------------------------------
// Timestamps as written
// ---------------------------------------------------------------------------

/// A timestamp written `Y-M-DTh:m:sZ` from its parts.
pub open spec fn timestamp_text(
    y: Seq<char>,
    mo: Seq<char>,
    d: Seq<char>,
    h: Seq<char>,
    mi: Seq<char>,
    se: Seq<char>,
) -> Seq<char> {
    y + seq!['-'] + mo + seq!['-'] + d + seq!['T'] + h + seq![':'] + mi + seq![':'] + se + seq!['Z']
}

/// `part` is a nonempty run of decimal digits that denotes `n`.
pub open spec fn writes_number(part: Seq<char>, n: u64) -> bool {
    &&& part.len() > 0
    &&& all_digits(part)
    &&& digits_value(part) == n
}

/// `n` in decimal, padded with leading zeros to at least `width` digits, as
/// `format!("{:0width$}", n)` writes it.
pub open spec fn zero_padded(n: nat, width: nat) -> Seq<char> {
    if decimal(n).len() < width {
        Seq::new((width - decimal(n).len()) as nat, |i: int| '0') + decimal(n)
    } else {
        decimal(n)
    }
}

/// Leading zeros do not change the value of a run of digits.
proof fn lemma_leading_zeros(z: Seq<char>, d: Seq<char>)
    requires
        forall|i: int| 0 <= i < z.len() ==> z[i] == '0',
    ensures
        digits_value(z + d) == digits_value(d),
    decreases d.len(),
{
    if d.len() == 0 {
        assert(z + d =~= z);
        lemma_zeros_value(z);
    } else {
        assert((z + d).drop_last() =~= z + d.drop_last());
        assert((z + d).last() == d.last());
        lemma_leading_zeros(z, d.drop_last());
    }
}

proof fn lemma_zeros_value(z: Seq<char>)
    requires
        forall|i: int| 0 <= i < z.len() ==> z[i] == '0',
    ensures
        digits_value(z) == 0,
    decreases z.len(),
{
    if z.len() > 0 {
        lemma_zeros_value(z.drop_last());
    }
}

/// A zero-padded number is a run of digits that denotes it.
pub proof fn lemma_zero_padded_writes(n: u64, width: nat)
    ensures
        writes_number(zero_padded(n as nat, width), n),
{
    crate::text::lemma_decimal_digits(n as nat);
    let dn = decimal(n as nat);
    if dn.len() < width {
        let z = Seq::new((width - dn.len()) as nat, |i: int| '0');
        lemma_leading_zeros(z, dn);
        let p = z + dn;
        assert forall|i: int| 0 <= i < p.len() implies is_digit(#[trigger] p[i]) by {
            if i >= z.len() {
                assert(p[i] == dn[i - z.len()]);
            }
        }
    }
}

/// A run of digits parses to what it denotes.
proof fn lemma_parse_number(part: Seq<char>, n: u64)
    requires
        writes_number(part, n),
    ensures
        parse_u64_spec(part) == Some(n),
{
    assert(is_digit(part[0]));
    assert(unsigned_body(part) == part);
}

/// Three numbers written with separator `c` between them.
proof fn lemma_three_numbers(a: Seq<char>, b: Seq<char>, r: Seq<char>, c: char, x: u64, y: u64, z: u64)
    requires
        writes_number(a, x),
        writes_number(b, y),
        writes_number(r, z),
        !is_digit(c),
    ensures
        three_numbers(a + seq![c] + b + seq![c] + r, c) == Some((x, y, z)),
{
    let s = a + seq![c] + b + seq![c] + r;
    assert(s =~= a + seq![c] + (b + seq![c] + r));
    assert forall|i: int| 0 <= i < a.len() implies a[i] != c by {
        assert(is_digit(a[i]));
    }
    crate::text::lemma_split_once_after(a, c, b + seq![c] + r);
    assert forall|i: int| 0 <= i < b.len() implies b[i] != c by {
        assert(is_digit(b[i]));
    }
    crate::text::lemma_split_once_after(b, c, r);
    lemma_parse_number(a, x);
    lemma_parse_number(b, y);
    lemma_parse_number(r, z);
}

/// Parsing a timestamp written as `Y-M-DTh:m:sZ`, each field a run of decimal
/// digits (zero padding included), that names a valid time from 1970 to year
/// 1,000,000,000, gives the seconds elapsed since 1970-01-01T00:00:00Z.
pub proof fn law_written_timestamp_is_calendar_time(
    y: Seq<char>,
    mo: Seq<char>,
    d: Seq<char>,
    h: Seq<char>,
    mi: Seq<char>,
    se: Seq<char>,
    t: Timestamp,
)
    requires
        writes_number(y, t.year),
        writes_number(mo, t.month),
        writes_number(d, t.day),
        writes_number(h, t.hour),
        writes_number(mi, t.minute),
        writes_number(se, t.second),
        is_valid_timestamp(t),
        1970 <= t.year <= 1_000_000_000,
    ensures
        timestamp_fits(timestamp_text(y, mo, d, h, mi, se)),
        parse_rfc3339_spec(timestamp_text(y, mo, d, h, mi, se)) == Some(calendar_seconds(t) as u64),
        calendar_seconds(t) <= u64::MAX,
{
    let s = timestamp_text(y, mo, d, h, mi, se);
    let date = y + seq!['-'] + mo + seq!['-'] + d;
    let time = h + seq![':'] + mi + seq![':'] + se;
    assert(s.drop_last() =~= date + seq!['T'] + time);
    assert(s.last() == 'Z');
    assert forall|i: int| 0 <= i < date.len() implies date[i] != 'T' by {
        if i < y.len() {
            assert(is_digit(y[i]));
        } else if y.len() < i < y.len() + 1 + mo.len() {
            assert(date[i] == mo[i - y.len() - 1]);
            assert(is_digit(mo[i - y.len() - 1]));
        } else if y.len() + 1 + mo.len() < i {
            assert(date[i] == d[i - y.len() - 2 - mo.len()]);
            assert(is_digit(d[i - y.len() - 2 - mo.len()]));
        }
    }
    crate::text::lemma_split_once_after(date, 'T', time);
    lemma_three_numbers(y, mo, d, '-', t.year, t.month, t.day);
    lemma_three_numbers(h, mi, se, ':', t.hour, t.minute, t.second);
    assert(timestamp_fields(s) == Some(t));
    law_valid_timestamps_fit(t);
    law_parse_rfc3339_is_calendar_time(s);
}

/// The same for the zero-padded form `format!("{:04}-{:02}-{:02}T{:02}:{:02}:{:02}Z", ..)`.
pub proof fn law_formatted_timestamp_is_calendar_time(t: Timestamp)
    requires
        is_valid_timestamp(t),
        1970 <= t.year <= 1_000_000_000,
    ensures
        parse_rfc3339_spec(
            timestamp_text(
                zero_padded(t.year as nat, 4),
                zero_padded(t.month as nat, 2),
                zero_padded(t.day as nat, 2),
                zero_padded(t.hour as nat, 2),
                zero_padded(t.minute as nat, 2),
                zero_padded(t.second as nat, 2),
            ),
        ) == Some(calendar_seconds(t) as u64),
{
    lemma_zero_padded_writes(t.year, 4);
    lemma_zero_padded_writes(t.month, 2);
    lemma_zero_padded_writes(t.day, 2);
    lemma_zero_padded_writes(t.hour, 2);
    lemma_zero_padded_writes(t.minute, 2);
    lemma_zero_padded_writes(t.second, 2);
    law_written_timestamp_is_calendar_time(
        zero_padded(t.year as nat, 4),
        zero_padded(t.month as nat, 2),
        zero_padded(t.day as nat, 2),
        zero_padded(t.hour as nat, 2),
        zero_padded(t.minute as nat, 2),
        zero_padded(t.second as nat, 2),
        t,
    );
}

} // verus!
