//! Civil time (UTC) of Unix timestamps, and the date forms of ISO 9660.
use vstd::prelude::*;
use crate::order::{lex_by_first_difference, lex_le};

verus! {

/// Whether `y` is a leap year of the (proleptic) Gregorian calendar.
pub open spec fn is_leap(y: int) -> bool {
    y % 4 == 0 && (y % 100 != 0 || y % 400 == 0)
}

/// Days of month `m` in year `y`.
pub open spec fn month_days(y: int, m: int) -> int {
    if m == 2 {
        if is_leap(y) {
            29
        } else {
            28
        }
    } else if m == 4 || m == 6 || m == 9 || m == 11 {
        30
    } else {
        31
    }
}

/// Days of year `y` before the first of month `m`.
pub open spec fn days_before_month(y: int, m: int) -> int
    decreases m,
{
    if m <= 1 {
        0
    } else {
        days_before_month(y, m - 1) + month_days(y, m - 1)
    }
}

/// Days from the first day of year 1 to the first day of year `y`.
pub open spec fn days_before_year(y: int) -> int {
    365 * (y - 1) + (y - 1) / 4 - (y - 1) / 100 + (y - 1) / 400
}

/// A date of the Gregorian calendar.
pub struct Date {
    pub year: int,
    pub month: int,
    pub day: int,
}

/// Whether month and day exist in that year.
pub open spec fn is_date(t: Date) -> bool {
    1 <= t.month <= 12 && 1 <= t.day <= month_days(t.year, t.month)
}

/// Days from 1970-01-01 to a date.
pub open spec fn day_number(t: Date) -> int {
    days_before_year(t.year) + days_before_month(t.year, t.month) + t.day - 1 - 719162
}

/// The date `z` days after 1970-01-01.
pub open spec fn civil(z: int) -> Date {
    choose|t: Date| is_date(t) && #[trigger] day_number(t) == z
}

proof fn months(y: int)
    ensures
        days_before_month(y, 1) == 0,
        days_before_month(y, 2) == 31,
        days_before_month(y, 3) == 59 + if is_leap(y) { 1int } else { 0 },
        days_before_month(y, 4) == days_before_month(y, 3) + 31,
        days_before_month(y, 5) == days_before_month(y, 3) + 61,
        days_before_month(y, 6) == days_before_month(y, 3) + 92,
        days_before_month(y, 7) == days_before_month(y, 3) + 122,
        days_before_month(y, 8) == days_before_month(y, 3) + 153,
        days_before_month(y, 9) == days_before_month(y, 3) + 184,
        days_before_month(y, 10) == days_before_month(y, 3) + 214,
        days_before_month(y, 11) == days_before_month(y, 3) + 245,
        days_before_month(y, 12) == days_before_month(y, 3) + 275,
{
    reveal_with_fuel(days_before_month, 13);
}

proof fn floor_step(y: int, k: int)
    requires
        k > 0,
    ensures
        y / k - (y - 1) / k == if y % k == 0 {
            1int
        } else {
            0
        },
{
    let q = y / k;
    let r = y % k;
    vstd::arithmetic::div_mod::lemma_fundamental_div_mod(y, k);
    assert(0 <= r < k) by (nonlinear_arith)
        requires
            r == y % k,
            k > 0,
    ;
    if r == 0 {
        assert(y - 1 == (q - 1) * k + (k - 1)) by (nonlinear_arith)
            requires
                y == k * q,
        ;
        vstd::arithmetic::div_mod::lemma_fundamental_div_mod_converse(y - 1, k, q - 1, k - 1);
    } else {
        assert(y - 1 == q * k + (r - 1)) by (nonlinear_arith)
            requires
                y == k * q + r,
        ;
        vstd::arithmetic::div_mod::lemma_fundamental_div_mod_converse(y - 1, k, q, r - 1);
    }
}

proof fn year_length(y: int)
    ensures
        days_before_year(y + 1) == days_before_year(y) + 365 + if is_leap(y) { 1int } else { 0 },
{
    floor_step(y, 4);
    floor_step(y, 100);
    floor_step(y, 400);
    divisors(y);
}

proof fn divisors(y: int)
    ensures
        y % 100 == 0 ==> y % 4 == 0,
        y % 400 == 0 ==> y % 100 == 0,
{
}

/// The year that starts in March, from its place in the 400-year era.
proof fn march_year(w: int, era: int, century: int, quad: int, part: int)
    requires
        w == era * 400 + 100 * century + 4 * quad + part,
        0 <= century <= 3,
        0 <= quad <= 24,
        0 <= part <= 3,
    ensures
        w / 4 == 100 * era + 25 * century + quad,
        w / 100 == 4 * era + century,
        w / 400 == era,
        part == 3 && (quad < 24 || century == 3) ==> is_leap(w + 1),
{
    let v = w + 1;
    if part == 3 {
        assert(v == 4 * (100 * era + 25 * century + quad + 1));
        if quad < 24 {
            assert(v == 100 * (4 * era + century) + (4 * quad + 4));
            assert(v % 100 != 0);
        } else if century == 3 {
            assert(v == 400 * (era + 1));
        }
    }
}

proof fn years_grow(a: int, b: int)
    requires
        a < b,
    ensures
        days_before_year(a) + 365 + (if is_leap(a) { 1int } else { 0 }) <= days_before_year(b),
    decreases b - a,
{
    year_length(a);
    if a + 1 < b {
        years_grow(a + 1, b);
    }
}

/// Two dates with the same day number are the same date.
pub proof fn day_number_injective(s: Date, t: Date)
    requires
        is_date(s),
        is_date(t),
        day_number(s) == day_number(t),
    ensures
        s == t,
{
    months(s.year);
    months(t.year);
    if s.year < t.year {
        years_grow(s.year, t.year);
    } else if t.year < s.year {
        years_grow(t.year, s.year);
    }
}

/// `civil` gives back every date from its day number.
pub proof fn civil_of_day_number(t: Date)
    requires
        is_date(t),
    ensures
        civil(day_number(t)) == t,
{
    let s = civil(day_number(t));
    assert(is_date(s) && day_number(s) == day_number(t));
    day_number_injective(s, t);
}

/// The date and time of day of a Unix timestamp.
pub struct Utc {
    pub date: Date,
    pub hour: int,
    pub minute: int,
    pub second: int,
}

/// A timestamp read as a signed number of seconds.
pub open spec fn signed_seconds(secs: u64) -> int {
    if secs <= i64::MAX {
        secs as int
    } else {
        secs - 0x1_0000_0000_0000_0000
    }
}

/// Date and time of day `secs` seconds after 1970-01-01T00:00:00.
pub open spec fn utc(secs: u64) -> Utc {
    let s = signed_seconds(secs);
    Utc {
        date: civil(s / 86400),
        hour: s % 86400 / 3600,
        minute: s % 86400 % 3600 / 60,
        second: s % 86400 % 60,
    }
}

/// The year of a timestamp, in 16 bits.
pub open spec fn utc_year(secs: u64) -> int {
    utc(secs).date.year % 65536
}

/// Quotient and remainder with `0 <= remainder < b`.
fn floor_div(a: i64, b: u64) -> (q: (i64, u64))
    requires
        0 < b < 0x4000_0000_0000_0000,
    ensures
        q.0 == a as int / b as int,
        q.1 == a as int % b as int,
{
    if a >= 0 {
        let u: u64 = a as u64;
        proof {
            let x = u as int;
            let y = b as int;
            assert(0 <= x / y <= x && 0 <= x % y < y) by (nonlinear_arith)
                requires
                    0 <= x,
                    0 < y,
            ;
        }
        ((u / b) as i64, u % b)
    } else {
        let u: u64 = (-(a + 1)) as u64;
        let q: u64 = u / b;
        let r: u64 = u % b;
        proof {
            let x = u as int;
            let y = b as int;
            let z = a as int;
            assert(z == -x - 1);
            assert(0 <= x / y <= x && 0 <= x % y < y) by (nonlinear_arith)
                requires
                    0 <= x,
                    0 < y,
            ;
            let qq = -(x / y) - 1;
            let rr = y - 1 - x % y;
            assert(x == y * (x / y) + x % y) by (nonlinear_arith)
                requires
                    0 < y,
            ;
            assert(z == qq * y + rr) by (nonlinear_arith)
                requires
                    z == -x - 1,
                    x == y * (x / y) + x % y,
                    qq == -(x / y) - 1,
                    rr == y - 1 - x % y,
            ;
            vstd::arithmetic::div_mod::lemma_fundamental_div_mod_converse(z, y, qq, rr);
        }
        (-(q as i64) - 1, b - 1 - r)
    }
}

/// A day of a 400-year era, split into centuries, four-year spans, years and days.
proof fn era_parts(doe: int, century: int, quad: int, part: int, doy: int)
    requires
        0 <= doe < 146_097,
        century == if doe / 36_524 < 3 {
            doe / 36_524
        } else {
            3
        },
        quad == (doe - century * 36_524) / 1461,
        part == ({
            let doq = doe - century * 36_524 - quad * 1461;
            if doq / 365 < 3 {
                doq / 365
            } else {
                3
            }
        }),
        doy == doe - century * 36_524 - quad * 1461 - part * 365,
    ensures
        0 <= century <= 3,
        0 <= quad <= 24,
        0 <= part <= 3,
        0 <= doy <= 365,
        doy == 365 ==> part == 3 && (quad < 24 || century == 3),
{
    let doc = doe - century * 36_524;
    assert(0 <= doc < 36_525);
    assert(doc == 36_524 ==> century == 3);
    let doq = doc - quad * 1461;
    assert(0 <= doq < 1461);
    assert(quad == 24 ==> doq <= 1460);
}

/// A day of a year that starts in March, split into month and day.
proof fn march_parts(doy: int, mp: int, before: int)
    requires
        0 <= doy <= 365,
        mp == (5 * doy + 2) / 153,
        before == (153 * mp + 2) / 5,
    ensures
        0 <= mp <= 11,
        before <= doy,
        before == if mp == 0 {
            0int
        } else if mp == 1 {
            31
        } else if mp == 2 {
            61
        } else if mp == 3 {
            92
        } else if mp == 4 {
            122
        } else if mp == 5 {
            153
        } else if mp == 6 {
            184
        } else if mp == 7 {
            214
        } else if mp == 8 {
            245
        } else if mp == 9 {
            275
        } else if mp == 10 {
            306
        } else {
            337
        },
        mp == 11 ==> doy - before <= 28,
        mp == 1 || mp == 3 || mp == 6 || mp == 8 ==> doy - before < 30,
        mp < 11 ==> doy - before < 31,
        doy - before == 28 && mp == 11 ==> doy == 365,
{
}

/// The date of day `doy` of the year that starts in March of year `w`.
proof fn march_date(w: int, doy: int, mp: int, before: int, y: int, m: int) -> (t: Date)
    requires
        0 <= doy <= 365,
        doy == 365 ==> is_leap(w + 1),
        mp == (5 * doy + 2) / 153,
        before == (153 * mp + 2) / 5,
        m == if mp < 10 {
            mp + 3
        } else {
            mp - 9
        },
        y == if m <= 2 {
            w + 1
        } else {
            w
        },
    ensures
        t == (Date { year: y, month: m, day: doy - before + 1 }),
        is_date(t),
        day_number(t) == 365 * w + w / 4 - w / 100 + w / 400 + doy - 719_468,
{
    march_parts(doy, mp, before);
    months(y);
    year_length(w);
    assert(days_before_year(w + 1) == 365 * w + w / 4 - w / 100 + w / 400);
    Date { year: y, month: m, day: doy - before + 1 }
}

/// The date `z` days after 1970-01-01, as (year, month, day).
fn civil_from_days(z: i64) -> (t: (i64, u8, u8))
    requires
        -200_000_000_000_000 <= z <= 200_000_000_000_000,
    ensures
        (Date { year: t.0 as int, month: t.1 as int, day: t.2 as int }) == civil(z as int),
        is_date(civil(z as int)),
        day_number(civil(z as int)) == z,
        -1_000_000_000_000 <= t.0 <= 1_000_000_000_000,
{
    // Days and years count from 0000-03-01, so that a leap day ends its year.
    let (era, doe): (i64, u64) = floor_div(z + 719_468, 146_097);
    let century: u64 = if doe / 36_524 < 3 {
        doe / 36_524
    } else {
        3
    };
    let doc: u64 = doe - century * 36_524;
    let quad: u64 = doc / 1461;
    let doq: u64 = doc - quad * 1461;
    let part: u64 = if doq / 365 < 3 {
        doq / 365
    } else {
        3
    };
    let yoe: u64 = 100 * century + 4 * quad + part;
    let doy: u64 = doq - part * 365;
    proof {
        era_parts(doe as int, century as int, quad as int, part as int, doy as int);
        march_parts(doy as int, (5 * doy + 2) as int / 153, (153 * ((5 * doy + 2) as int / 153) + 2) / 5);
    }
    let mp: u64 = (5 * doy + 2) / 153;
    let d: u64 = doy - (153 * mp + 2) / 5 + 1;
    let m: u64 = if mp < 10 {
        mp + 3
    } else {
        mp - 9
    };
    let from_march: i64 = yoe as i64 + era * 400;
    let y: i64 = if m <= 2 {
        from_march + 1
    } else {
        from_march
    };
    proof {
        let w = from_march as int;
        march_year(w, era as int, century as int, quad as int, part as int);
        let t = march_date(w, doy as int, mp as int, (153 * mp + 2) as int / 5, y as int, m as int);
        civil_of_day_number(t);
    }
    (y, m as u8, d as u8)
}

/// Converts Unix seconds to (year, month, day, hour, minute, second) in UTC.
pub fn unix_to_utc(secs: u64) -> (t: (u16, u8, u8, u8, u8, u8))
    ensures
        t.0 == utc_year(secs),
        t.1 == utc(secs).date.month,
        t.2 == utc(secs).date.day,
        t.3 == utc(secs).hour,
        t.4 == utc(secs).minute,
        t.5 == utc(secs).second,
        is_date(utc(secs).date),
        day_number(utc(secs).date) == signed_seconds(secs) / 86400,
{
    let signed: i64 = if secs <= 0x7fff_ffff_ffff_ffff {
        secs as i64
    } else {
        -((0xffff_ffff_ffff_ffff - secs) as i64) - 1
    };
    assert(signed == signed_seconds(secs));
    let (days, rem): (i64, u64) = floor_div(signed, 86_400);
    let (y, mo, d): (i64, u8, u8) = civil_from_days(days);
    let (_cycles, year): (i64, u64) = floor_div(y, 65_536);
    (
        year as u16,
        mo,
        d,
        (rem / 3600) as u8,
        (rem % 3600 / 60) as u8,
        (rem % 60) as u8,
    )
}

/// The components of a timestamp add up to the timestamp.
pub proof fn utc_inverse(secs: u64)
    ensures
        is_date(utc(secs).date),
        0 <= utc(secs).hour < 24,
        0 <= utc(secs).minute < 60,
        0 <= utc(secs).second < 60,
        day_number(utc(secs).date) * 86400 + utc(secs).hour * 3600 + utc(secs).minute * 60 + utc(
            secs,
        ).second == signed_seconds(secs),
{
    let s = signed_seconds(secs);
    day_has_date(s / 86400);
}

/// Every day has a date.
pub proof fn day_has_date(z: int)
    ensures
        is_date(civil(z)),
        day_number(civil(z)) == z,
{
    let era = (z + 719_468) / 146_097;
    let doe = (z + 719_468) % 146_097;
    let century = if doe / 36_524 < 3 {
        doe / 36_524
    } else {
        3
    };
    let quad = (doe - century * 36_524) / 1461;
    let doq = doe - century * 36_524 - quad * 1461;
    let part = if doq / 365 < 3 {
        doq / 365
    } else {
        3
    };
    let doy = doq - part * 365;
    era_parts(doe, century, quad, part, doy);
    let w = era * 400 + 100 * century + 4 * quad + part;
    march_year(w, era, century, quad, part);
    let mp = (5 * doy + 2) / 153;
    let m = if mp < 10 {
        mp + 3
    } else {
        mp - 9
    };
    let y = if m <= 2 {
        w + 1
    } else {
        w
    };
    let t = march_date(w, doy, mp, (153 * mp + 2) / 5, y, m);
    civil_of_day_number(t);
}

/// The ASCII digit of `v` at the place with value `unit`.
#[verifier::opaque]
pub open spec fn digit_at(v: int, unit: int) -> u8 {
    (48 + v / unit % 10) as u8
}

/// Two ASCII digits.
pub open spec fn two_digits(v: int) -> Seq<u8> {
    seq![digit_at(v, 10), digit_at(v, 1)]
}

/// Four ASCII digits.
pub open spec fn four_digits(v: int) -> Seq<u8> {
    seq![digit_at(v, 1000), digit_at(v, 100), digit_at(v, 10), digit_at(v, 1)]
}

/// The volume date of a timestamp: "YYYYMMDDHHMMSScc" with zero hundredths.
pub open spec fn volume_date(secs: u64) -> Seq<u8> {
    let t = utc(secs);
    four_digits(utc_year(secs)) + two_digits(t.date.month) + two_digits(t.date.day) + two_digits(
        t.hour,
    ) + two_digits(t.minute) + two_digits(t.second) + two_digits(0)
}

/// The directory-record date of a timestamp: years since 1900 (kept within
/// one byte), month, day, hour, minute, second, and a zero offset from UTC.
pub open spec fn record_date(secs: u64) -> Seq<u8> {
    let t = utc(secs);
    let year = utc_year(secs) - 1900;
    seq![
        if year < 0 {
            0u8
        } else if year > 255 {
            255u8
        } else {
            year as u8
        },
        t.date.month as u8,
        t.date.day as u8,
        t.hour as u8,
        t.minute as u8,
        t.second as u8,
        0u8,
    ]
}

/// Of two dates, the one with the smaller day number comes first.
proof fn dates_in_order(s: Date, t: Date)
    requires
        is_date(s),
        is_date(t),
        day_number(s) < day_number(t),
    ensures
        s.year <= t.year,
        s.year == t.year ==> s.month <= t.month,
        s.year == t.year && s.month == t.month ==> s.day < t.day,
{
    months(s.year);
    months(t.year);
    if t.year < s.year {
        years_grow(t.year, s.year);
    }
}

/// Timestamps before the year 10000 have years of four digits.
pub proof fn year_in_range(secs: u64)
    requires
        secs < 253_402_300_800,
    ensures
        1970 <= utc(secs).date.year <= 9999,
        utc_year(secs) == utc(secs).date.year,
{
    utc_inverse(secs);
    let t = utc(secs).date;
    months(t.year);
    if t.year < 1970 {
        years_grow(t.year, 1970);
    } else if t.year > 9999 {
        years_grow(9999, t.year);
    }
}

proof fn two_in_order(v: int, w: int)
    requires
        0 <= v < w < 100,
    ensures
        digit_at(v, 10) < digit_at(w, 10) || digit_at(v, 10) == digit_at(w, 10) && digit_at(v, 1)
            < digit_at(w, 1),
{
    reveal(digit_at);
}

/// Where the places above agree, the next digit grows with the number.
proof fn digit_in_order(v: int, w: int, unit: int)
    requires
        0 <= v <= w,
        unit > 0,
        v / unit / 10 == w / unit / 10,
    ensures
        digit_at(v, unit) <= digit_at(w, unit),
        digit_at(v, unit) == digit_at(w, unit) ==> v / unit == w / unit,
{
    reveal(digit_at);
    vstd::arithmetic::div_mod::lemma_div_is_ordered(v, w, unit);
    vstd::arithmetic::div_mod::lemma_div_pos_is_pos(v, unit);
    vstd::arithmetic::div_mod::lemma_div_pos_is_pos(w, unit);
}

proof fn four_in_order(v: int, w: int) -> (k: int)
    requires
        0 <= v < w <= 9999,
    ensures
        0 <= k < 4,
        forall|i: int| 0 <= i < k ==> #[trigger] four_digits(v)[i] == four_digits(w)[i],
        four_digits(v)[k] < four_digits(w)[k],
{
    digit_in_order(v, w, 1000);
    if digit_at(v, 1000) != digit_at(w, 1000) {
        0
    } else {
        assert(v / 100 / 10 == v / 1000 && w / 100 / 10 == w / 1000);
        digit_in_order(v, w, 100);
        if digit_at(v, 100) != digit_at(w, 100) {
            1
        } else {
            assert(v / 10 / 10 == v / 100 && w / 10 / 10 == w / 100);
            digit_in_order(v, w, 10);
            if digit_at(v, 10) != digit_at(w, 10) {
                2
            } else {
                assert(v / 1 / 10 == v / 10 && w / 1 / 10 == w / 10);
                digit_in_order(v, w, 1);
                3
            }
        }
    }
}

/// Volume dates are sixteen digits, and end with the zero hundredths.
pub proof fn volume_date_is_digits(secs: u64)
    ensures
        volume_date(secs).len() == 16,
        forall|i: int| 0 <= i < 16 ==> 48 <= #[trigger] volume_date(secs)[i] <= 57,
        volume_date(secs)[14] == 48,
        volume_date(secs)[15] == 48,
{
    reveal(digit_at);
    utc_inverse(secs);
}

/// Up to the end of the year 9999, the later of two timestamps has the later
/// volume date in byte order.
pub proof fn volume_dates_in_order(a: u64, b: u64)
    requires
        a < b < 253_402_300_800,
    ensures
        lex_le(volume_date(a), volume_date(b)),
        volume_date(a) != volume_date(b),
{
    year_in_range(a);
    year_in_range(b);
    moments_in_order(a, b);
    utc_inverse(a);
    utc_inverse(b);
    digits_in_order(utc(a), utc(b));
}

/// A moment comes before another one.
spec fn earlier(s: Utc, t: Utc) -> bool {
    ||| s.date.year < t.date.year
    ||| s.date.year == t.date.year && {
        ||| s.date.month < t.date.month
        ||| s.date.month == t.date.month && {
            ||| s.date.day < t.date.day
            ||| s.date.day == t.date.day && {
                ||| s.hour < t.hour
                ||| s.hour == t.hour && {
                    ||| s.minute < t.minute
                    ||| s.minute == t.minute && s.second < t.second
                }
            }
        }
    }
}

proof fn moments_in_order(a: u64, b: u64)
    requires
        a < b < 253_402_300_800,
    ensures
        earlier(utc(a), utc(b)),
{
    utc_inverse(a);
    utc_inverse(b);
    let s = utc(a);
    let t = utc(b);
    if day_number(s.date) != day_number(t.date) {
        assert(day_number(s.date) < day_number(t.date));
        dates_in_order(s.date, t.date);
    } else {
        day_number_injective(s.date, t.date);
    }
}

/// The digits of a moment.
spec fn digits_of(t: Utc) -> Seq<u8> {
    four_digits(t.date.year) + two_digits(t.date.month) + two_digits(t.date.day) + two_digits(
        t.hour,
    ) + two_digits(t.minute) + two_digits(t.second) + two_digits(0)
}

proof fn digits_in_order(s: Utc, t: Utc)
    requires
        earlier(s, t),
        0 <= s.date.year <= 9999,
        0 <= t.date.year <= 9999,
        is_date(s.date),
        is_date(t.date),
        0 <= s.hour < 24,
        0 <= t.hour < 24,
        0 <= s.minute < 60,
        0 <= t.minute < 60,
        0 <= s.second < 60,
        0 <= t.second < 60,
    ensures
        lex_le(digits_of(s), digits_of(t)),
        digits_of(s) != digits_of(t),
{
    let x = digits_of(s);
    let y = digits_of(t);
    if s.date.year < t.date.year {
        let k = four_in_order(s.date.year, t.date.year);
        assert forall|i: int| 0 <= i < k implies #[trigger] x[i] == y[i] by {
            assert(four_digits(s.date.year)[i] == four_digits(t.date.year)[i]);
        }
        lex_by_first_difference(x, y, k);
    } else if s.date.month < t.date.month {
        two_in_order(s.date.month, t.date.month);
        pair_decides(x, y, 4);
    } else if s.date.day < t.date.day {
        two_in_order(s.date.day, t.date.day);
        pair_decides(x, y, 6);
    } else if s.hour < t.hour {
        two_in_order(s.hour, t.hour);
        pair_decides(x, y, 8);
    } else if s.minute < t.minute {
        two_in_order(s.minute, t.minute);
        pair_decides(x, y, 10);
    } else {
        two_in_order(s.second, t.second);
        pair_decides(x, y, 12);
    }
}

/// The first pair of digits that differs decides.
proof fn pair_decides(x: Seq<u8>, y: Seq<u8>, k: int)
    requires
        0 <= k < x.len() - 1,
        x.len() == y.len(),
        forall|i: int| 0 <= i < k ==> #[trigger] x[i] == y[i],
        x[k] < y[k] || x[k] == y[k] && x[k + 1] < y[k + 1],
    ensures
        lex_le(x, y),
        x != y,
{
    if x[k] < y[k] {
        lex_by_first_difference(x, y, k);
    } else {
        lex_by_first_difference(x, y, k + 1);
    }
}

fn digit(v: u16, unit: u16) -> (d: u8)
    requires
        unit > 0,
    ensures
        d == digit_at(v as int, unit as int),
{
    proof {
        reveal(digit_at);
        let x = v as int;
        let y = unit as int;
        assert(x / y >= 0) by (nonlinear_arith)
            requires
                x >= 0,
                y > 0,
        ;
    }
    48 + (v / unit % 10) as u8
}

/// The 16-digit ISO 9660 volume date "YYYYMMDDHHMMSScc" of a timestamp (`cc`,
/// hundredths of a second, is always "00").
pub fn iso_volume_date_digits(secs: u64) -> (out: [u8; 16])
    requires
        utc_year(secs) <= 9999,
    ensures
        out@ == volume_date(secs),
{
    let (y, mo, d, h, mi, s): (u16, u8, u8, u8, u8, u8) = unix_to_utc(secs);
    let out: [u8; 16] = [
        digit(y, 1000),
        digit(y, 100),
        digit(y, 10),
        digit(y, 1),
        digit(mo as u16, 10),
        digit(mo as u16, 1),
        digit(d as u16, 10),
        digit(d as u16, 1),
        digit(h as u16, 10),
        digit(h as u16, 1),
        digit(mi as u16, 10),
        digit(mi as u16, 1),
        digit(s as u16, 10),
        digit(s as u16, 1),
        digit(0, 10),
        digit(0, 1),
    ];
    assert(out@ =~= volume_date(secs));
    out
}

/// The 7-byte ISO 9660 directory-record date of a timestamp: [year-1900,
/// month, day, hour, minute, second, offset], where the offset 0 is UTC.
pub fn iso_record_date(secs: u64) -> (out: [u8; 7])
    ensures
        out@ == record_date(secs),
{
    let (y, mo, d, h, mi, s): (u16, u8, u8, u8, u8, u8) = unix_to_utc(secs);
    let year: u8 = if y < 1900 {
        0
    } else if y - 1900 > 255 {
        255
    } else {
        (y - 1900) as u8
    };
    let out: [u8; 7] = [year, mo, d, h, mi, s, 0];
    assert(out@ =~= record_date(secs));
    out
}

// ---------------------------------------------------------------------------
// what dates say
// ---------------------------------------------------------------------------

/// Day 0 is 1970-01-01, and the next day is the next one of the calendar: of
/// the month, of the year, or the first one of the next year. Every fourth year
/// has a 29th of February, but for those of a century that 400 does not divide.
pub proof fn days_follow_each_other(z: int)
    ensures
        civil(0) == (Date { year: 1970, month: 1, day: 1 }),
        ({
            let d = civil(z);
            let last = if d.month == 2 {
                if d.year % 400 == 0 || d.year % 4 == 0 && d.year % 100 != 0 {
                    29int
                } else {
                    28
                }
            } else if d.month == 4 || d.month == 6 || d.month == 9 || d.month == 11 {
                30
            } else {
                31
            };
            &&& 1 <= d.month <= 12
            &&& 1 <= d.day <= last
            &&& civil(z + 1) == if d.day < last {
                Date { year: d.year, month: d.month, day: d.day + 1 }
            } else if d.month < 12 {
                Date { year: d.year, month: d.month + 1, day: 1 }
            } else {
                Date { year: d.year + 1, month: 1, day: 1 }
            }
        }),
{
    let epoch = Date { year: 1970, month: 1, day: 1 };
    months(1970);
    civil_of_day_number(epoch);
    day_has_date(z);
    let d = civil(z);
    let last = month_days(d.year, d.month);
    let next = if d.day < last {
        Date { year: d.year, month: d.month, day: d.day + 1 }
    } else if d.month < 12 {
        Date { year: d.year, month: d.month + 1, day: 1 }
    } else {
        Date { year: d.year + 1, month: 1, day: 1 }
    };
    assert(d.year % 400 == 0 ==> d.year % 4 == 0);
    if d.day == last && d.month == 12 {
        months(d.year);
        months(d.year + 1);
        year_length(d.year);
    }
    assert(day_number(next) == z + 1);
    civil_of_day_number(next);
}

/// The time of day of a timestamp and the days before it add up to the
/// timestamp, which is taken as a signed number.
pub proof fn timestamps_read_back(secs: u64)
    ensures
        ({
            let t = utc(secs);
            let s = if secs < 0x8000_0000_0000_0000 {
                secs as int
            } else {
                secs - 0x1_0000_0000_0000_0000
            };
            &&& 0 <= t.hour < 24
            &&& 0 <= t.minute < 60
            &&& 0 <= t.second < 60
            &&& exists|z: int|
                t.date == #[trigger] civil(z) && s == 86400 * z + 3600 * t.hour + 60 * t.minute
                    + t.second
        }),
{
    utc_inverse(secs);
    let t = utc(secs);
    civil_of_day_number(t.date);
    assert(t.date == civil(day_number(t.date)));
}

/// The date in a directory record reads back: years from 1900 up to 2155, and
/// 2155 for every later one; month, day, hour, minute, second; and no offset
/// from UTC.
pub proof fn record_dates_read_back(secs: u64)
    requires
        secs < 253_402_300_800,
    ensures
        ({
            let t = utc(secs);
            let r = record_date(secs);
            &&& r.len() == 7
            &&& r[0] + 1900 == if t.date.year <= 2155 {
                t.date.year
            } else {
                2155
            }
            &&& r[1] == t.date.month
            &&& r[2] == t.date.day
            &&& r[3] == t.hour
            &&& r[4] == t.minute
            &&& r[5] == t.second
            &&& r[6] == 0
        }),
{
    year_in_range(secs);
    utc_inverse(secs);
}

/// The date in a volume descriptor reads back: four digits of the year, two of
/// month, day, hour, minute and second, and no hundredths.
pub proof fn volume_dates_read_back(secs: u64)
    requires
        secs < 253_402_300_800,
    ensures
        ({
            let t = utc(secs);
            let v = volume_date(secs);
            &&& v.len() == 16
            &&& 1000 * (v[0] - 48) + 100 * (v[1] - 48) + 10 * (v[2] - 48) + (v[3] - 48)
                == t.date.year
            &&& 10 * (v[4] - 48) + (v[5] - 48) == t.date.month
            &&& 10 * (v[6] - 48) + (v[7] - 48) == t.date.day
            &&& 10 * (v[8] - 48) + (v[9] - 48) == t.hour
            &&& 10 * (v[10] - 48) + (v[11] - 48) == t.minute
            &&& 10 * (v[12] - 48) + (v[13] - 48) == t.second
            &&& v[14] == 48
            &&& v[15] == 48
        }),
{
    year_in_range(secs);
    utc_inverse(secs);
    let t = utc(secs);
    two_digits_read(t.date.month);
    two_digits_read(t.date.day);
    two_digits_read(t.hour);
    two_digits_read(t.minute);
    two_digits_read(t.second);
    two_digits_read(0);
    four_digits_read(t.date.year);
}

proof fn two_digits_read(x: int)
    requires
        0 <= x < 100,
    ensures
        10 * (two_digits(x)[0] - 48) + (two_digits(x)[1] - 48) == x,
        x == 0 ==> two_digits(x)[0] == 48 && two_digits(x)[1] == 48,
{
    reveal(digit_at);
}

proof fn four_digits_read(x: int)
    requires
        0 <= x < 10000,
    ensures
        1000 * (four_digits(x)[0] - 48) + 100 * (four_digits(x)[1] - 48) + 10 * (four_digits(x)[2]
            - 48) + (four_digits(x)[3] - 48) == x,
{
    reveal(digit_at);
    assert(x / 10 == 10 * (x / 100) + x / 10 % 10);
    assert(x / 100 == 10 * (x / 1000) + x / 100 % 10);
}

} // verus!
