//! Civil calendar arithmetic over seconds since the Unix epoch.
//!
//! Timestamps are persisted as RFC 3339 text in UTC, so the store needs to
//! turn epoch seconds into a civil date and back. Everything here is plain
//! integer arithmetic: a year scan from 1969 upward (1969 is included so that
//! a trailing week that starts shortly before the epoch still has a date),
//! month tables, fixed-width decimal labels, and a parser for the exact
//! timestamp shape the store writes (with an optional fractional-second part
//! and either a `Z` or a `+00:00` suffix).

use vstd::prelude::*;
use vstd::arithmetic::div_mod::{lemma_fundamental_div_mod, lemma_fundamental_div_mod_converse};
use vstd::string::StringSliceAdditionalSpecFns;

verus! {

/// Latest supported instant, 9999-12-24T23:59:59 UTC, in epoch seconds.
/// The ceiling stays a week short of the calendar's last day so that the
/// Sunday-ending trailing week of any supported instant still has a
/// four-digit-year label.
pub const TS_MAX: u64 = 253401695999;

/// Epoch day of 10000-01-01; every supported day is strictly below it.
pub const DAY_END: i64 = 2932897;

pub open spec fn is_leap_year(y: int) -> bool {
    y % 4 == 0 && (y % 100 != 0 || y % 400 == 0)
}

pub open spec fn days_in_year(y: int) -> int {
    if is_leap_year(y) {
        366
    } else {
        365
    }
}

pub open spec fn days_in_month(y: int, m: int) -> int {
    if m == 2 {
        if is_leap_year(y) {
            29
        } else {
            28
        }
    } else if m == 4 || m == 6 || m == 9 || m == 11 {
        30
    } else {
        31
    }
}

/// Days from 1970-01-01 to the first day of year `y` (so -365 for 1969).
pub open spec fn days_to_year(y: int) -> int
    decreases y - 1969 when y >= 1969
{
    if y <= 1969 {
        -365
    } else {
        days_to_year(y - 1) + days_in_year(y - 1)
    }
}

/// Days from the first day of year `y` to the first day of its month `m`.
pub open spec fn days_to_month(y: int, m: int) -> int
    decreases m when m >= 1
{
    if m <= 1 {
        0
    } else {
        days_to_month(y, m - 1) + days_in_month(y, m - 1)
    }
}

/// Leap years strictly before year `y` (as an absolute count since year 1).
pub open spec fn leaps_before(y: int) -> int {
    (y - 1) / 4 - (y - 1) / 100 + (y - 1) / 400
}

/// Walks years upward until the day falls inside one; yields the year and
/// the day-of-year.
pub open spec fn year_scan(y: int, acc: int, d: int) -> (int, int)
    decreases d - acc when acc <= d && y >= 1969
{
    if acc + days_in_year(y) <= d {
        year_scan(y + 1, acc + days_in_year(y), d)
    } else {
        (y, d - acc)
    }
}

/// Walks months upward until the remaining days fall inside one; yields the
/// month and the zero-based day-of-month.
pub open spec fn month_scan(y: int, m: int, rem: int) -> (int, int)
    decreases 12 - m when m <= 12
{
    if m < 12 && days_in_month(y, m) <= rem {
        month_scan(y, m + 1, rem - days_in_month(y, m))
    } else {
        (m, rem)
    }
}

/// The civil (year, month, day-of-month) of epoch day `d`.
pub open spec fn spec_civil_of_day(d: int) -> (int, int, int) {
    let yr = year_scan(1969, -365, d);
    let mr = month_scan(yr.0, 1, yr.1);
    (yr.0, mr.0, mr.1 + 1)
}

/// How a division by a positive constant moves when its argument steps down
/// by one.
proof fn lemma_div_step(t: int, k: int)
    requires
        1 <= k,
    ensures
        t / k - (t - 1) / k == if t % k == 0 { 1int } else { 0int },
{
    let q = t / k;
    let r = t % k;
    lemma_fundamental_div_mod(t, k);
    assert(t == k * q + r);
    if r == 0 {
        assert((q - 1) * k + (k - 1) == k * q - 1) by (nonlinear_arith);
        lemma_fundamental_div_mod_converse(t - 1, k, q - 1, k - 1);
    } else {
        assert(q * k == k * q) by (nonlinear_arith);
        lemma_fundamental_div_mod_converse(t - 1, k, q, r - 1);
    }
}

/// Closed form for `days_to_year`, so that concrete years far from 1970 can
/// be evaluated without unrolling the recursion.
pub proof fn lemma_days_to_year_closed(y: int)
    requires
        y >= 1969,
    ensures
        days_to_year(y) == 365 * (y - 1970) + leaps_before(y) - leaps_before(1970),
    decreases y - 1969,
{
    if y == 1969 {
        assert(leaps_before(1969) == 477);
        assert(leaps_before(1970) == 477);
    } else {
        lemma_days_to_year_closed(y - 1);
        let t = y - 1;
        lemma_div_step(t, 4);
        lemma_div_step(t, 100);
        lemma_div_step(t, 400);
        assert(leaps_before(y) - leaps_before(y - 1) == if is_leap_year(y - 1) { 1int } else { 0int });
    }
}

/// `days_to_year` grows with the year.
pub proof fn lemma_days_to_year_mono(a: int, b: int)
    requires
        1969 <= a <= b,
    ensures
        days_to_year(a) <= days_to_year(b),
    decreases b - a,
{
    if a < b {
        lemma_days_to_year_mono(a, b - 1);
    }
}

/// The twelve months of a year exactly cover it.
pub proof fn lemma_days_to_month_full(y: int)
    ensures
        days_to_month(y, 13) == days_in_year(y),
{
    reveal_with_fuel(days_to_month, 13);
}

/// `days_to_month` grows with the month.
pub proof fn lemma_days_to_month_mono(y: int, a: int, b: int)
    requires
        1 <= a <= b,
    ensures
        days_to_month(y, a) <= days_to_month(y, b),
    decreases b - a,
{
    if a < b {
        lemma_days_to_month_mono(y, a, b - 1);
    }
}

/// What the year scan finds: the unique year whose span holds day `d`.
proof fn lemma_year_scan(y0: int, d: int)
    requires
        1969 <= y0,
        days_to_year(y0) <= d,
    ensures
        ({
            let yr = year_scan(y0, days_to_year(y0), d);
            &&& y0 <= yr.0
            &&& days_to_year(yr.0) + yr.1 == d
            &&& 0 <= yr.1 < days_in_year(yr.0)
        }),
    decreases d - days_to_year(y0),
{
    let acc = days_to_year(y0);
    if acc + days_in_year(y0) <= d {
        assert(days_to_year(y0 + 1) == acc + days_in_year(y0));
        lemma_year_scan(y0 + 1, d);
    }
}

/// What the month scan finds: the unique month whose span holds the
/// day-of-year.
proof fn lemma_month_scan(y: int, m0: int, doy: int)
    requires
        1 <= m0 <= 12,
        days_to_month(y, m0) <= doy < days_in_year(y),
    ensures
        ({
            let mr = month_scan(y, m0, doy - days_to_month(y, m0));
            &&& m0 <= mr.0 <= 12
            &&& days_to_month(y, mr.0) + mr.1 == doy
            &&& 0 <= mr.1 < days_in_month(y, mr.0)
        }),
    decreases 12 - m0,
{
    lemma_days_to_month_full(y);
    let rem0 = doy - days_to_month(y, m0);
    if m0 < 12 && days_in_month(y, m0) <= rem0 {
        assert(days_to_month(y, m0 + 1) == days_to_month(y, m0) + days_in_month(y, m0));
        lemma_month_scan(y, m0 + 1, doy);
    }
}

/// The civil decomposition of a supported day is valid and reassembles to
/// that day.
pub proof fn lemma_civil_of_day(d: int)
    requires
        -365 <= d < DAY_END,
    ensures
        ({
            let c = spec_civil_of_day(d);
            &&& 1969 <= c.0 <= 9999
            &&& 1 <= c.1 <= 12
            &&& 1 <= c.2 <= days_in_month(c.0, c.1)
            &&& days_to_year(c.0) + days_to_month(c.0, c.1) + (c.2 - 1) == d
        }),
{
    lemma_year_scan(1969, d);
    let yr = year_scan(1969, -365, d);
    lemma_month_scan(yr.0, 1, yr.1);
    if yr.0 > 9999 {
        lemma_days_to_year_mono(10000, yr.0);
        lemma_days_to_year_closed(10000);
        assert(leaps_before(10000) == 2424);
        assert(leaps_before(1970) == 477);
    }
}

// ---------------------------------------------------------------------------
// Executable calendar arithmetic
// ---------------------------------------------------------------------------

pub fn is_leap_year_x(y: i64) -> (r: bool)
    requires
        0 <= y,
    ensures
        r == is_leap_year(y as int),
{
    y % 4 == 0 && (y % 100 != 0 || y % 400 == 0)
}

pub fn days_in_year_x(y: i64) -> (r: u16)
    requires
        0 <= y,
    ensures
        r == days_in_year(y as int),
{
    if is_leap_year_x(y) {
        366
    } else {
        365
    }
}

pub fn days_in_month_x(y: i64, m: u8) -> (r: u8)
    requires
        0 <= y,
    ensures
        r == days_in_month(y as int, m as int),
{
    if m == 2 {
        if is_leap_year_x(y) {
            29
        } else {
            28
        }
    } else if m == 4 || m == 6 || m == 9 || m == 11 {
        30
    } else {
        31
    }
}

/// Days from 1970-01-01 to the first day of year `y`.
pub fn days_to_year_x(y: i64) -> (r: i64)
    requires
        1969 <= y <= 10000,
    ensures
        r == days_to_year(y as int),
{
    let mut yy: i64 = 1969;
    let mut acc: i64 = -365;
    while yy < y
        invariant
            1969 <= yy <= 10000,
            yy <= y <= 10000,
            acc == days_to_year(yy as int),
            -365 <= acc <= 366 * (yy - 1969) - 365,
        decreases y - yy,
    {
        acc = acc + days_in_year_x(yy) as i64;
        yy = yy + 1;
    }
    acc
}

/// Days from the first day of year `y` to the first day of its month `m`.
pub fn days_to_month_x(y: i64, m: u8) -> (r: i64)
    requires
        0 <= y,
        1 <= m <= 13,
    ensures
        r == days_to_month(y as int, m as int),
{
    let mut mm: u8 = 1;
    let mut acc: i64 = 0;
    while mm < m
        invariant
            1 <= mm <= m <= 13,
            0 <= y,
            acc == days_to_month(y as int, mm as int),
            0 <= acc <= 31 * (mm - 1),
        decreases m - mm,
    {
        acc = acc + days_in_month_x(y, mm) as i64;
        mm = mm + 1;
    }
    acc
}

/// The civil (year, month, day-of-month) of epoch day `d`.
pub fn civil_of_day(d: i64) -> (r: (i64, u8, u8))
    requires
        -365 <= d < DAY_END,
    ensures
        r.0 == spec_civil_of_day(d as int).0,
        r.1 == spec_civil_of_day(d as int).1,
        r.2 == spec_civil_of_day(d as int).2,
        1969 <= r.0 <= 9999,
        1 <= r.1 <= 12,
        1 <= r.2 <= 31,
        days_to_year(r.0 as int) + days_to_month(r.0 as int, r.1 as int) + r.2 - 1 == d,
{
    proof {
        lemma_civil_of_day(d as int);
    }
    let ghost gd = d as int;
    let mut y: i64 = 1969;
    let mut acc: i64 = -365;
    let mut diy: u16 = days_in_year_x(y);
    while acc + diy as i64 <= d
        invariant
            1969 <= y <= 10000,
            acc == days_to_year(y as int),
            acc <= gd,
            -365 <= gd < DAY_END,
            gd == d as int,
            diy == days_in_year(y as int),
            year_scan(1969, -365, gd) == year_scan(y as int, acc as int, gd),
        decreases gd - acc,
    {
        acc = acc + diy as i64;
        y = y + 1;
        proof {
            if y as int > 10000 {
                lemma_days_to_year_mono(10000, y as int);
                lemma_days_to_year_closed(10000);
                assert(leaps_before(10000) == 2424);
                assert(leaps_before(1970) == 477);
            }
        }
        diy = days_in_year_x(y);
    }
    assert(year_scan(y as int, acc as int, gd) == (y as int, gd - acc));
    let doy: i64 = d - acc;
    let ghost gdoy = doy as int;
    let mut m: u8 = 1;
    let mut rem: i64 = doy;
    let mut dim: u8 = days_in_month_x(y, m);
    while m < 12 && dim as i64 <= rem
        invariant
            1 <= m <= 12,
            0 <= y,
            dim == days_in_month(y as int, m as int),
            month_scan(y as int, 1, gdoy) == month_scan(y as int, m as int, rem as int),
            0 <= rem <= gdoy < 366,
        decreases 12 - m,
    {
        rem = rem - dim as i64;
        m = m + 1;
        dim = days_in_month_x(y, m);
    }
    assert(month_scan(y as int, m as int, rem as int) == (m as int, rem as int));
    (y, m, (rem + 1) as u8)
}

// ---------------------------------------------------------------------------
// Bucket keys
// ---------------------------------------------------------------------------

/// The epoch day holding an instant.
pub open spec fn spec_day_of_ts(ts: int) -> int {
    ts / 86400
}

/// The epoch day a trailing week window starts on: the record's day rolled
/// forward to the nearest Sunday, minus six. Deliberately a Sunday-ending
/// seven-day window, not an ISO week.
pub open spec fn spec_week_start_of_ts(ts: int) -> int {
    let d = ts / 86400;
    d + (10 - d % 7) % 7 - 6
}

/// Calendar months numbered consecutively: year times twelve plus the
/// zero-based month.
pub open spec fn spec_month_key_of_ts(ts: int) -> int {
    let c = spec_civil_of_day(ts / 86400);
    c.0 * 12 + c.1 - 1
}

pub fn day_of_ts(ts: u64) -> (r: i64)
    requires
        ts <= TS_MAX,
    ensures
        r == spec_day_of_ts(ts as int),
        0 <= r < DAY_END - 7,
{
    (ts / 86400) as i64
}

pub fn week_start_of_ts(ts: u64) -> (r: i64)
    requires
        ts <= TS_MAX,
    ensures
        r == spec_week_start_of_ts(ts as int),
        -6 <= r,
        r <= spec_day_of_ts(ts as int),
        r + 6 < DAY_END,
{
    let d = (ts / 86400) as i64;
    d + (10 - d % 7) % 7 - 6
}

pub fn month_key_of_ts(ts: u64) -> (r: i64)
    requires
        ts <= TS_MAX,
    ensures
        r == spec_month_key_of_ts(ts as int),
        0 <= r < 120000,
{
    let d = (ts / 86400) as i64;
    let c = civil_of_day(d);
    c.0 * 12 + c.1 as i64 - 1
}

// ---------------------------------------------------------------------------
// Fixed-width decimal labels
// ---------------------------------------------------------------------------

/// ASCII bytes read as characters.
pub open spec fn ascii_chars(b: Seq<u8>) -> Seq<char> {
    b.map_values(|x: u8| x as char)
}

pub open spec fn dec2_bytes(n: int) -> Seq<u8> {
    seq![(48 + n / 10) as u8, (48 + n % 10) as u8]
}

pub open spec fn dec4_bytes(n: int) -> Seq<u8> {
    seq![
        (48 + n / 1000) as u8,
        (48 + (n / 100) % 10) as u8,
        (48 + (n / 10) % 10) as u8,
        (48 + n % 10) as u8,
    ]
}

/// The `YYYY-MM-DD` label of a civil date.
pub open spec fn date_bytes(y: int, m: int, d: int) -> Seq<u8> {
    dec4_bytes(y) + seq![45u8] + dec2_bytes(m) + seq![45u8] + dec2_bytes(d)
}

/// The `YYYY-MM` label of a month key.
pub open spec fn month_label_bytes(k: int) -> Seq<u8> {
    dec4_bytes(k / 12) + seq![45u8] + dec2_bytes(k % 12 + 1)
}

/// The `YYYY-MM-DD` label of an epoch day.
pub open spec fn day_label_bytes(d: int) -> Seq<u8> {
    let c = spec_civil_of_day(d);
    date_bytes(c.0, c.1, c.2)
}

/// Relies on String::from_utf8: bytes below 0x80 decode to one character
/// each.
#[verifier::external_body]
pub(crate) fn ascii_string(bytes: Vec<u8>) -> (r: String)
    requires
        forall|i: int| 0 <= i < bytes@.len() ==> bytes@[i] < 128,
    ensures
        r@ == ascii_chars(bytes@),
{
    match String::from_utf8(bytes) {
        Ok(s) => s,
        Err(_) => String::new(),
    }
}

fn push_dec2(buf: &mut Vec<u8>, n: u8)
    requires
        n < 100,
        forall|i: int| 0 <= i < old(buf)@.len() ==> old(buf)@[i] < 128,
    ensures
        final(buf)@ == old(buf)@ + dec2_bytes(n as int),
        forall|i: int| 0 <= i < final(buf)@.len() ==> final(buf)@[i] < 128,
{
    buf.push(48 + n / 10);
    buf.push(48 + n % 10);
    assert(buf@ =~= old(buf)@ + dec2_bytes(n as int));
}

fn push_dec4(buf: &mut Vec<u8>, n: i64)
    requires
        0 <= n < 10000,
        forall|i: int| 0 <= i < old(buf)@.len() ==> old(buf)@[i] < 128,
    ensures
        final(buf)@ == old(buf)@ + dec4_bytes(n as int),
        forall|i: int| 0 <= i < final(buf)@.len() ==> final(buf)@[i] < 128,
{
    buf.push(48 + (n / 1000) as u8);
    buf.push(48 + ((n / 100) % 10) as u8);
    buf.push(48 + ((n / 10) % 10) as u8);
    buf.push(48 + (n % 10) as u8);
    assert(buf@ =~= old(buf)@ + dec4_bytes(n as int));
}

/// The `YYYY-MM-DD` label of an epoch day.
pub fn day_label(d: i64) -> (r: String)
    requires
        -365 <= d < DAY_END,
    ensures
        r@ == ascii_chars(day_label_bytes(d as int)),
{
    let c = civil_of_day(d);
    let mut buf: Vec<u8> = Vec::new();
    push_dec4(&mut buf, c.0);
    buf.push(45);
    push_dec2(&mut buf, c.1);
    buf.push(45);
    push_dec2(&mut buf, c.2);
    assert(buf@ =~= day_label_bytes(d as int));
    ascii_string(buf)
}

/// The `YYYY-MM` label of a month key.
pub fn month_label(k: i64) -> (r: String)
    requires
        0 <= k < 120000,
    ensures
        r@ == ascii_chars(month_label_bytes(k as int)),
{
    let mut buf: Vec<u8> = Vec::new();
    push_dec4(&mut buf, k / 12);
    buf.push(45);
    push_dec2(&mut buf, (k % 12) as u8 + 1);
    assert(buf@ =~= month_label_bytes(k as int));
    ascii_string(buf)
}

// ---------------------------------------------------------------------------
// RFC 3339 timestamps
// ---------------------------------------------------------------------------

/// The timestamp text the store writes: `YYYY-MM-DDThh:mm:ss+00:00`.
pub open spec fn rfc_bytes(ts: int) -> Seq<u8> {
    let sod = ts % 86400;
    let c = spec_civil_of_day(ts / 86400);
    date_bytes(c.0, c.1, c.2) + seq![84u8] + dec2_bytes(sod / 3600) + seq![58u8] + dec2_bytes(
        (sod % 3600) / 60,
    ) + seq![58u8] + dec2_bytes(sod % 60) + seq![43u8, 48u8, 48u8, 58u8, 48u8, 48u8]
}

/// Renders an instant as the store's timestamp text.
pub fn format_rfc3339(ts: u64) -> (r: String)
    requires
        ts <= TS_MAX,
    ensures
        r@ == ascii_chars(rfc_bytes(ts as int)),
{
    let d = (ts / 86400) as i64;
    let c = civil_of_day(d);
    let sod = ts % 86400;
    let h = (sod / 3600) as u8;
    let mi = ((sod % 3600) / 60) as u8;
    let s = (sod % 60) as u8;
    let mut buf: Vec<u8> = Vec::new();
    push_dec4(&mut buf, c.0);
    buf.push(45);
    push_dec2(&mut buf, c.1);
    buf.push(45);
    push_dec2(&mut buf, c.2);
    buf.push(84);
    push_dec2(&mut buf, h);
    buf.push(58);
    push_dec2(&mut buf, mi);
    buf.push(58);
    push_dec2(&mut buf, s);
    buf.push(43);
    buf.push(48);
    buf.push(48);
    buf.push(58);
    buf.push(48);
    buf.push(48);
    assert(buf@ =~= rfc_bytes(ts as int));
    ascii_string(buf)
}

pub open spec fn is_digit(b: u8) -> bool {
    48 <= b <= 57
}

/// The decimal value of the byte at `i`.
pub open spec fn dig(bs: Seq<u8>, i: int) -> int {
    bs[i] - 48
}

/// First index at or after `i` holding no digit.
pub open spec fn digits_end(bs: Seq<u8>, i: int) -> int
    decreases bs.len() - i when i <= bs.len()
{
    if i < bs.len() && is_digit(bs[i]) {
        digits_end(bs, i + 1)
    } else {
        i
    }
}

/// A UTC offset: either `Z` or `+00:00`, ending the text.
pub open spec fn offset_ok(bs: Seq<u8>, i: int) -> bool {
    ||| (bs.len() == i + 1 && bs[i] == 90)
    ||| (bs.len() == i + 6 && bs[i] == 43 && bs[i + 1] == 48 && bs[i + 2] == 48 && bs[i + 3] == 58
        && bs[i + 4] == 48 && bs[i + 5] == 48)
}

/// After the seconds: an optional `.digits` fraction, then the offset.
pub open spec fn tail_ok(bs: Seq<u8>) -> bool {
    if bs.len() > 19 && bs[19] == 46 {
        digits_end(bs, 20) > 20 && offset_ok(bs, digits_end(bs, 20))
    } else {
        offset_ok(bs, 19)
    }
}

pub open spec fn shape_ok(bs: Seq<u8>) -> bool {
    &&& bs.len() >= 20
    &&& is_digit(bs[0]) && is_digit(bs[1]) && is_digit(bs[2]) && is_digit(bs[3])
    &&& bs[4] == 45
    &&& is_digit(bs[5]) && is_digit(bs[6])
    &&& bs[7] == 45
    &&& is_digit(bs[8]) && is_digit(bs[9])
    &&& bs[10] == 84
    &&& is_digit(bs[11]) && is_digit(bs[12])
    &&& bs[13] == 58
    &&& is_digit(bs[14]) && is_digit(bs[15])
    &&& bs[16] == 58
    &&& is_digit(bs[17]) && is_digit(bs[18])
    &&& tail_ok(bs)
}

pub open spec fn year_of(bs: Seq<u8>) -> int {
    dig(bs, 0) * 1000 + dig(bs, 1) * 100 + dig(bs, 2) * 10 + dig(bs, 3)
}

pub open spec fn month_of(bs: Seq<u8>) -> int {
    dig(bs, 5) * 10 + dig(bs, 6)
}

pub open spec fn dom_of(bs: Seq<u8>) -> int {
    dig(bs, 8) * 10 + dig(bs, 9)
}

pub open spec fn hour_of(bs: Seq<u8>) -> int {
    dig(bs, 11) * 10 + dig(bs, 12)
}

pub open spec fn min_of(bs: Seq<u8>) -> int {
    dig(bs, 14) * 10 + dig(bs, 15)
}

pub open spec fn sec_of(bs: Seq<u8>) -> int {
    dig(bs, 17) * 10 + dig(bs, 18)
}

pub open spec fn fields_ok(bs: Seq<u8>) -> bool {
    &&& 1970 <= year_of(bs)
    &&& 1 <= month_of(bs) <= 12
    &&& 1 <= dom_of(bs) <= days_in_month(year_of(bs), month_of(bs))
    &&& hour_of(bs) <= 23
    &&& min_of(bs) <= 59
    &&& sec_of(bs) <= 59
}

/// The instant a well-formed timestamp text denotes (fractional seconds are
/// truncated).
pub open spec fn ts_of_fields(bs: Seq<u8>) -> int {
    86400 * (days_to_year(year_of(bs)) + days_to_month(year_of(bs), month_of(bs)) + dom_of(bs) - 1)
        + 3600 * hour_of(bs) + 60 * min_of(bs) + sec_of(bs)
}

/// What parsing a timestamp text yields.
pub open spec fn parse_ts_bytes(bs: Seq<u8>) -> Option<int> {
    if shape_ok(bs) && fields_ok(bs) && ts_of_fields(bs) <= TS_MAX {
        Some(ts_of_fields(bs))
    } else {
        None
    }
}

/// A well-formed timestamp denotes a supported instant.
pub proof fn lemma_ts_of_fields_range(bs: Seq<u8>)
    requires
        shape_ok(bs),
        fields_ok(bs),
    ensures
        0 <= ts_of_fields(bs) <= 253402300799,
{
    let y = year_of(bs);
    let m = month_of(bs);
    let dom = dom_of(bs);
    lemma_days_to_year_mono(1969, y);
    lemma_days_to_year_mono(1970, y);
    lemma_days_to_month_mono(y, 1, m);
    lemma_days_to_month_full(y);
    lemma_days_to_month_mono(y, m + 1, 13);
    assert(days_to_month(y, m + 1) == days_to_month(y, m) + days_in_month(y, m));
    assert(days_to_year(y + 1) == days_to_year(y) + days_in_year(y));
    if y + 1 <= 10000 {
        lemma_days_to_year_mono(y + 1, 10000);
    }
    lemma_days_to_year_closed(10000);
    assert(leaps_before(10000) == 2424);
    assert(leaps_before(1970) == 477);
    assert(y + 1 <= 10000);
}

/// Parses the store's timestamp text; `None` on any malformed text.
pub fn parse_rfc3339(s: &str) -> (r: Option<u64>)
    ensures
        match r {
            Some(t) => parse_ts_bytes(s.spec_bytes()) == Some(t as int) && t <= TS_MAX,
            None => parse_ts_bytes(s.spec_bytes()) is None,
        },
{
    let bs = s.as_bytes();
    let n = bs.len();
    if n < 20 {
        return None;
    }
    if !(digit_at(bs, 0) && digit_at(bs, 1) && digit_at(bs, 2) && digit_at(bs, 3) && bs[4] == 45
        && digit_at(bs, 5) && digit_at(bs, 6) && bs[7] == 45 && digit_at(bs, 8) && digit_at(bs, 9)
        && bs[10] == 84 && digit_at(bs, 11) && digit_at(bs, 12) && bs[13] == 58 && digit_at(bs, 14)
        && digit_at(bs, 15) && bs[16] == 58 && digit_at(bs, 17) && digit_at(bs, 18)) {
        return None;
    }
    // Fraction, if present, then the offset.
    let mut fe: usize = 19;
    if bs[19] == 46 {
        fe = 20;
        while fe < n && bs[fe] >= 48 && bs[fe] <= 57
            invariant
                20 <= fe <= n,
                n == bs@.len(),
                digits_end(bs@, 20) == digits_end(bs@, fe as int),
            decreases n - fe,
        {
            fe = fe + 1;
        }
        assert(digits_end(bs@, fe as int) == fe as int);
        if fe == 20 {
            return None;
        }
    }
    let tail_len = n - fe;
    let offset_fine = if tail_len == 1 {
        bs[fe] == 90
    } else if tail_len == 6 {
        bs[fe] == 43 && bs[fe + 1] == 48 && bs[fe + 2] == 48 && bs[fe + 3] == 58 && bs[fe + 4]
            == 48 && bs[fe + 5] == 48
    } else {
        false
    };
    if !offset_fine {
        return None;
    }
    assert(shape_ok(bs@));
    let y = (bs[0] - 48) as i64 * 1000 + (bs[1] - 48) as i64 * 100 + (bs[2] - 48) as i64 * 10 + (
    bs[3] - 48) as i64;
    let mo = (bs[5] - 48) * 10 + (bs[6] - 48);
    let dom = (bs[8] - 48) * 10 + (bs[9] - 48);
    let h = (bs[11] - 48) * 10 + (bs[12] - 48);
    let mi = (bs[14] - 48) * 10 + (bs[15] - 48);
    let sec = (bs[17] - 48) * 10 + (bs[18] - 48);
    if !(1970 <= y && 1 <= mo && mo <= 12 && 1 <= dom && h <= 23 && mi <= 59 && sec <= 59) {
        return None;
    }
    if dom > days_in_month_x(y, mo) {
        return None;
    }
    proof {
        lemma_ts_of_fields_range(bs@);
    }
    let days = days_to_year_x(y) + days_to_month_x(y, mo) + dom as i64 - 1;
    let ts = 86400 * days + 3600 * (h as i64) + 60 * (mi as i64) + sec as i64;
    if ts as u64 > TS_MAX {
        return None;
    }
    Some(ts as u64)
}

/// Whether the byte at `i` is a decimal digit.
fn digit_at(bs: &[u8], i: usize) -> (r: bool)
    requires
        i < bs@.len(),
    ensures
        r == is_digit(bs@[i as int]),
{
    48 <= bs[i] && bs[i] <= 57
}


/// Recomposing a number below ten thousand from its four decimal digits.
proof fn lemma_four_digits(y: int)
    requires
        0 <= y < 10000,
    ensures
        (y / 1000) * 1000 + ((y / 100) % 10) * 100 + ((y / 10) % 10) * 10 + y % 10 == y,
{
    lemma_fundamental_div_mod(y, 10);
    lemma_fundamental_div_mod(y / 10, 10);
    lemma_fundamental_div_mod(y / 100, 10);
    vstd::arithmetic::div_mod::lemma_div_denominator(y, 10, 10);
    vstd::arithmetic::div_mod::lemma_div_denominator(y, 100, 10);
    assert((y / 10) / 10 == y / 100);
    assert((y / 100) / 10 == y / 1000);
}

/// Recomposing a number below one hundred from its two decimal digits.
proof fn lemma_two_digits(v: int)
    requires
        0 <= v < 100,
    ensures
        (v / 10) * 10 + v % 10 == v,
{
    lemma_fundamental_div_mod(v, 10);
}

/// A rendered timestamp always parses back to the instant it rendered:
/// what the store writes, the store reads back exactly.
pub proof fn lemma_rfc3339_round_trip(ts: u64)
    requires
        ts <= TS_MAX,
    ensures
        parse_ts_bytes(rfc_bytes(ts as int)) == Some(ts as int),
{
    let t = ts as int;
    let d = t / 86400;
    let sod = t % 86400;
    lemma_fundamental_div_mod(t, 86400);
    vstd::arithmetic::div_mod::lemma_div_pos_is_pos(t, 86400);
    vstd::arithmetic::div_mod::lemma_div_is_ordered(t, TS_MAX as int, 86400);
    vstd::arithmetic::div_mod::lemma_mod_division_less_than_divisor(t, 86400);
    lemma_civil_of_day(d);
    let c = spec_civil_of_day(d);
    let y = c.0;
    let mo = c.1;
    let dom = c.2;
    if y <= 1969 {
        lemma_days_to_month_full(y);
        lemma_days_to_month_mono(y, mo + 1, 13);
        assert(days_to_month(y, mo + 1) == days_to_month(y, mo) + days_in_month(y, mo));
        assert(d < 0);
    }
    assert(1970 <= y <= 9999);
    let h = sod / 3600;
    let mi = (sod % 3600) / 60;
    let sec = sod % 60;
    vstd::arithmetic::div_mod::lemma_mod_division_less_than_divisor(sod, 3600);
    vstd::arithmetic::div_mod::lemma_mod_division_less_than_divisor(sod % 3600, 60);
    vstd::arithmetic::div_mod::lemma_mod_division_less_than_divisor(sod, 60);
    vstd::arithmetic::div_mod::lemma_div_is_ordered(sod, 86399, 3600);
    vstd::arithmetic::div_mod::lemma_div_is_ordered(sod % 3600, 3599, 60);
    vstd::arithmetic::div_mod::lemma_div_pos_is_pos(sod, 3600);
    vstd::arithmetic::div_mod::lemma_div_pos_is_pos(sod % 3600, 60);
    vstd::arithmetic::div_mod::lemma_div_is_ordered(1000, y, 1000);
    vstd::arithmetic::div_mod::lemma_div_is_ordered(y, 9999, 1000);
    vstd::arithmetic::div_mod::lemma_mod_division_less_than_divisor(y, 10);
    vstd::arithmetic::div_mod::lemma_mod_division_less_than_divisor(y / 10, 10);
    vstd::arithmetic::div_mod::lemma_mod_division_less_than_divisor(y / 100, 10);
    let b = rfc_bytes(t);
    assert(dec4_bytes(y).len() == 4);
    assert(dec2_bytes(mo).len() == 2);
    assert(date_bytes(y, mo, dom).len() == 10);
    assert(b.len() == 25);
    assert(b[0] == (48 + y / 1000) as u8);
    assert(b[1] == (48 + (y / 100) % 10) as u8);
    assert(b[2] == (48 + (y / 10) % 10) as u8);
    assert(b[3] == (48 + y % 10) as u8);
    assert(b[4] == 45u8);
    assert(b[5] == (48 + mo / 10) as u8);
    assert(b[6] == (48 + mo % 10) as u8);
    assert(b[7] == 45u8);
    assert(b[8] == (48 + dom / 10) as u8);
    assert(b[9] == (48 + dom % 10) as u8);
    assert(b[10] == 84u8);
    assert(b[11] == (48 + h / 10) as u8);
    assert(b[12] == (48 + h % 10) as u8);
    assert(b[13] == 58u8);
    assert(b[14] == (48 + mi / 10) as u8);
    assert(b[15] == (48 + mi % 10) as u8);
    assert(b[16] == 58u8);
    assert(b[17] == (48 + sec / 10) as u8);
    assert(b[18] == (48 + sec % 10) as u8);
    assert(b[19] == 43u8);
    assert(b[20] == 48u8);
    assert(b[21] == 48u8);
    assert(b[22] == 58u8);
    assert(b[23] == 48u8);
    assert(b[24] == 48u8);
    vstd::arithmetic::div_mod::lemma_mod_division_less_than_divisor(mo, 10);
    vstd::arithmetic::div_mod::lemma_mod_division_less_than_divisor(dom, 10);
    vstd::arithmetic::div_mod::lemma_mod_division_less_than_divisor(h, 10);
    vstd::arithmetic::div_mod::lemma_mod_division_less_than_divisor(mi, 10);
    vstd::arithmetic::div_mod::lemma_mod_division_less_than_divisor(sec, 10);
    vstd::arithmetic::div_mod::lemma_div_pos_is_pos(mo, 10);
    vstd::arithmetic::div_mod::lemma_div_pos_is_pos(dom, 10);
    vstd::arithmetic::div_mod::lemma_div_pos_is_pos(h, 10);
    vstd::arithmetic::div_mod::lemma_div_pos_is_pos(mi, 10);
    vstd::arithmetic::div_mod::lemma_div_pos_is_pos(sec, 10);
    vstd::arithmetic::div_mod::lemma_div_is_ordered(mo, 99, 10);
    vstd::arithmetic::div_mod::lemma_div_is_ordered(dom, 99, 10);
    vstd::arithmetic::div_mod::lemma_div_is_ordered(h, 99, 10);
    vstd::arithmetic::div_mod::lemma_div_is_ordered(mi, 99, 10);
    vstd::arithmetic::div_mod::lemma_div_is_ordered(sec, 99, 10);
    assert(shape_ok(b));
    lemma_four_digits(y);
    assert(year_of(b) == y);
    lemma_two_digits(mo);
    assert(month_of(b) == mo);
    lemma_two_digits(dom);
    assert(dom_of(b) == dom);
    lemma_two_digits(h);
    assert(hour_of(b) == h);
    lemma_two_digits(mi);
    assert(min_of(b) == mi);
    lemma_two_digits(sec);
    assert(sec_of(b) == sec);
    assert(fields_ok(b));
    lemma_fundamental_div_mod(sod, 3600);
    lemma_fundamental_div_mod(sod % 3600, 60);
    assert((sod % (60int * 60int)) % 60 == sod % 60) by {
        vstd::arithmetic::div_mod::lemma_mod_mod(sod, 60, 60);
    }
    assert(3600 * h + 60 * mi + sec == sod);
    assert(ts_of_fields(b) == t);
}

} // verus!
