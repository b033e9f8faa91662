//! The Gregorian calendar, and the day stamp that versions a snapshot.

use vstd::prelude::*;

verus! {

/// The leap years of the Gregorian calendar, carried back before its adoption.
pub open spec fn is_leap(y: int) -> bool {
    (y % 4 == 0 && y % 100 != 0) || y % 400 == 0
}

pub open spec fn days_in_year(y: int) -> int {
    if is_leap(y) {
        366
    } else {
        365
    }
}

pub open spec fn days_in_month(y: int, m: int) -> int {
    if m == 2 {
        if is_leap(y) {
            29
        } else {
            28
        }
    } else if m == 4 || m == 6 || m == 9 || m == 11 {
        30
    } else {
        31
    }
}

/// The days of year `y` before the first of month `m`.
pub open spec fn days_before_month(y: int, m: int) -> int
    decreases m,
{
    if m <= 1 {
        0
    } else {
        days_before_month(y, m - 1) + days_in_month(y, m - 1)
    }
}

/// The days from 1 January 1970 to 1 January of year `y`.
pub open spec fn year_start(y: int) -> int
    decreases
            (if y >= 1970 {
                y - 1970
            } else {
                1970 - y
            }),
{
    if y == 1970 {
        0
    } else if y > 1970 {
        year_start(y - 1) + days_in_year(y - 1)
    } else {
        year_start(y + 1) - days_in_year(y)
    }
}

/// `y`-`m`-`d` is a date of the calendar.
pub open spec fn is_date(y: int, m: int, d: int) -> bool {
    1 <= m <= 12 && 1 <= d <= days_in_month(y, m)
}

/// The days from 1 January 1970 to the date `y`-`m`-`d`.
pub open spec fn day_number(y: int, m: int, d: int) -> int {
    year_start(y) + days_before_month(y, m) + d - 1
}

/// `y`-`m`-`d` is the date of day `z`, counted from 1 January 1970.
pub open spec fn date_of_day(y: int, m: int, d: int, z: int) -> bool {
    is_date(y, m, d) && day_number(y, m, d) == z
}

/// The leap days before year `y`.
spec fn leap_days_before(y: int) -> int {
    (y - 1) / 4 - (y - 1) / 100 + (y - 1) / 400
}

proof fn quotient_step(y: int, k: int)
    requires
        k == 4 || k == 100 || k == 400,
    ensures
        y / k - (y - 1) / k == (if y % k == 0 {
            1int
        } else {
            0
        }),
{
}

/// A year adds a leap day exactly if it is a leap year.
proof fn leap_day_step(y: int)
    ensures
        leap_days_before(y + 1) - leap_days_before(y) == (if is_leap(y) {
            1int
        } else {
            0
        }),
{
    quotient_step(y, 4);
    quotient_step(y, 100);
    quotient_step(y, 400);
    assert(y % 400 == 0 ==> y % 100 == 0);
    assert(y % 100 == 0 ==> y % 4 == 0);
}

proof fn year_start_closed_form(y: int)
    ensures
        year_start(y) == 365 * (y - 1970) + leap_days_before(y) - 477,
    decreases
            (if y >= 1970 {
                y - 1970
            } else {
                1970 - y
            }),
{
    if y > 1970 {
        year_start_closed_form(y - 1);
        leap_day_step(y - 1);
    } else if y < 1970 {
        year_start_closed_form(y + 1);
        leap_day_step(y);
    }
}

proof fn days_before_month_values(y: int)
    ensures
        days_before_month(y, 1) == 0,
        days_before_month(y, 2) == 31,
        days_before_month(y, 3) == 31 + days_in_month(y, 2),
        days_before_month(y, 4) == 62 + days_in_month(y, 2),
        days_before_month(y, 5) == 92 + days_in_month(y, 2),
        days_before_month(y, 6) == 123 + days_in_month(y, 2),
        days_before_month(y, 7) == 153 + days_in_month(y, 2),
        days_before_month(y, 8) == 184 + days_in_month(y, 2),
        days_before_month(y, 9) == 215 + days_in_month(y, 2),
        days_before_month(y, 10) == 245 + days_in_month(y, 2),
        days_before_month(y, 11) == 276 + days_in_month(y, 2),
        days_before_month(y, 12) == 306 + days_in_month(y, 2),
        days_before_month(y, 13) == days_in_year(y),
{
    reveal_with_fuel(days_before_month, 13);
}

/// The year, counted from March, within a cycle of 400 years.
proof fn year_of_cycle(doe: int)
    requires
        0 <= doe < 146097,
    ensures
        ({
            let yoe = (doe - doe / 1460 + doe / 36524 - doe / 146096) / 365;
            &&& 0 <= yoe < 400
            &&& 0 <= doe - (365 * yoe + yoe / 4 - yoe / 100) < 365 + (yoe + 1) / 4 - yoe / 4 - (
            yoe + 1) / 100 + yoe / 100 + (yoe + 1) / 400
        }),
{
}

/// The month and day of day `doy` of a year counted from 1 March.
proof fn month_of_march_year(doy: int)
    requires
        0 <= doy <= 365,
    ensures
        ({
            let mp = (5 * doy + 2) / 153;
            let d = doy - (153 * mp + 2) / 5 + 1;
            let first = (153 * mp + 2) / 5;
            &&& 0 <= mp <= 11
            &&& 1 <= d <= 31
            &&& mp == 0 ==> first == 0
            &&& mp == 1 ==> first == 31 && d <= 30
            &&& mp == 2 ==> first == 61
            &&& mp == 3 ==> first == 92 && d <= 30
            &&& mp == 4 ==> first == 122
            &&& mp == 5 ==> first == 153
            &&& mp == 6 ==> first == 184 && d <= 30
            &&& mp == 7 ==> first == 214
            &&& mp == 8 ==> first == 245 && d <= 30
            &&& mp == 9 ==> first == 275
            &&& mp == 10 ==> first == 306
            &&& mp == 11 ==> first == 337 && d <= 29
        }),
{
}

/// The first of March of year `yoe + 400 * era`, and the leap years around it.
proof fn march_first(era: int, yoe: int)
    requires
        0 <= yoe < 400,
    ensures
        ({
            let y = yoe + 400 * era;
            &&& year_start(y) + 31 + days_in_month(y, 2) == era * 146097 + 365 * yoe + yoe / 4 - yoe
                / 100 - 719468
            &&& year_start(y + 1) == year_start(y) + days_in_year(y)
            &&& (yoe + 1) / 4 - yoe / 4 - (yoe + 1) / 100 + yoe / 100 + (yoe + 1) / 400 == (
            if is_leap(y + 1) {
                1int
            } else {
                0
            })
        }),
{
    let y = yoe + 400 * era;
    year_start_closed_form(y);
    leap_day_step(y);
    leap_day_step(y + 1);
    assert(y / 4 == yoe / 4 + 100 * era);
    assert(y / 100 == yoe / 100 + 4 * era);
    assert(y / 400 == era);
    assert((y + 1) / 4 == (yoe + 1) / 4 + 100 * era);
    assert((y + 1) / 100 == (yoe + 1) / 100 + 4 * era);
    assert((y + 1) / 400 == (yoe + 1) / 400 + era);
    if y >= 1970 {
        assert(year_start(y + 1) == year_start(y) + days_in_year(y));
    } else {
        assert(year_start(y) == year_start(y + 1) - days_in_year(y));
    }
}

/// The date that the arithmetic of `civil_from_days` arrives at.
proof fn date_of_march_day(era: int, yoe: int, doy: int)
    requires
        0 <= yoe < 400,
        0 <= doy < 365 + (yoe + 1) / 4 - yoe / 4 - (yoe + 1) / 100 + yoe / 100 + (yoe + 1) / 400,
    ensures
        ({
            let mp = (5 * doy + 2) / 153;
            let d = doy - (153 * mp + 2) / 5 + 1;
            let m = if mp < 10 {
                mp + 3
            } else {
                mp - 9
            };
            let y = yoe + 400 * era + (if m <= 2 {
                1int
            } else {
                0
            });
            &&& is_date(y, m, d)
            &&& day_number(y, m, d) == era * 146097 + 365 * yoe + yoe / 4 - yoe / 100 - 719468 + doy
        }),
{
    let y = yoe + 400 * era;
    march_first(era, yoe);
    month_of_march_year(doy);
    days_before_month_values(y);
    days_before_month_values(y + 1);
}

/// The cycle of 400 years (146097 days) that day `z` falls into, and its day there.
fn cycle_of(z: i64) -> (r: (i64, u64))
    requires
        z >= i64::MIN + 146096,
    ensures
        z == r.0 * 146097 + r.1,
        r.1 < 146097,
{
    let era: i64 = (if z >= 0 {
        z
    } else {
        z - 146096
    }) / 146097;
    (era, (z - era * 146097) as u64)
}

/// The date of day `z`, with the whole year.
fn date_from_days(z: i64) -> (r: (i64, u32, u32))
    requires
        z <= i64::MAX - 719468,
    ensures
        date_of_day(r.0 as int, r.1 as int, r.2 as int, z as int),
{
    let (era, doe): (i64, u64) = cycle_of(z + 719468);
    proof {
        year_of_cycle(doe as int);
    }
    let yoe: u64 = (doe - doe / 1460 + doe / 36524 - doe / 146096) / 365;
    let y: i64 = yoe as i64 + era * 400;
    let doy: u64 = doe - (365 * yoe + yoe / 4 - yoe / 100);
    proof {
        month_of_march_year(doy as int);
        date_of_march_day(era as int, yoe as int, doy as int);
    }
    let mp: u64 = (5 * doy + 2) / 153;
    let d: u32 = (doy - (153 * mp + 2) / 5 + 1) as u32;
    let m: u32 = (if mp < 10 {
        mp + 3
    } else {
        mp - 9
    }) as u32;
    let y: i64 = if m <= 2 {
        y + 1
    } else {
        y
    };
    (y, m, d)
}

/// The Gregorian date that lies `z` days after 1 January 1970 (or `-z` days
/// before): year, month and day. The year is cut down to its low 32 bits.
pub fn civil_from_days(z: i64) -> (r: (i32, u32, u32))
    requires
        z <= i64::MAX - 719468,
    ensures
        exists|y: int| #[trigger]
            date_of_day(y, r.1 as int, r.2 as int, z as int) && r.0 == y as i32,
{
    let (y, m, d): (i64, u32, u32) = date_from_days(z);
    let r: (i32, u32, u32) = (#[verifier::truncate] (y as i32), m, d);
    assert(date_of_day(y as int, r.1 as int, r.2 as int, z as int));
    r
}

/// The later of two years starts later, by a year's days at least.
proof fn year_start_ordered(x: int, y: int)
    requires
        x < y,
    ensures
        year_start(x) + days_in_year(x) <= year_start(y),
        year_start(x) + 365 * (y - x) <= year_start(y),
    decreases y - x,
{
    if x + 1 < y {
        year_start_ordered(x, y - 1);
    }
    if y > 1970 {
        assert(year_start(y) == year_start(y - 1) + days_in_year(y - 1));
    } else {
        assert(year_start(y - 1) == year_start(y) - days_in_year(y - 1));
    }
}

proof fn days_before_month_ordered(y: int, m: int, n: int)
    requires
        1 <= m < n,
    ensures
        days_before_month(y, m) + days_in_month(y, m) <= days_before_month(y, n),
    decreases n - m,
{
    if m + 1 < n {
        days_before_month_ordered(y, m, n - 1);
    }
}

/// The days of a year that a date comes after number fewer than the year has.
proof fn date_within_year(y: int, m: int, d: int)
    requires
        is_date(y, m, d),
    ensures
        0 <= days_before_month(y, m) + d - 1 < days_in_year(y),
{
    days_before_month_values(y);
    if m > 1 {
        days_before_month_ordered(y, 1, m);
    }
    days_before_month_ordered(y, m, 13);
}

/// A day has one date only.
pub proof fn date_is_unique(y1: int, m1: int, d1: int, y2: int, m2: int, d2: int, z: int)
    requires
        date_of_day(y1, m1, d1, z),
        date_of_day(y2, m2, d2, z),
    ensures
        y1 == y2,
        m1 == m2,
        d1 == d2,
{
    date_within_year(y1, m1, d1);
    date_within_year(y2, m2, d2);
    if y1 < y2 {
        year_start_ordered(y1, y2);
    } else if y2 < y1 {
        year_start_ordered(y2, y1);
    } else if m1 < m2 {
        days_before_month_ordered(y1, m1, m2);
    } else if m2 < m1 {
        days_before_month_ordered(y1, m2, m1);
    }
}

/// Every day has a date.
pub proof fn every_day_has_a_date(z: int)
    ensures
        exists|y: int, m: int, d: int| date_of_day(y, m, d, z),
{
    let era = (z + 719468) / 146097;
    let doe = (z + 719468) % 146097;
    year_of_cycle(doe);
    let yoe = (doe - doe / 1460 + doe / 36524 - doe / 146096) / 365;
    let doy = doe - (365 * yoe + yoe / 4 - yoe / 100);
    date_of_march_day(era, yoe, doy);
    let mp = (5 * doy + 2) / 153;
    let m = if mp < 10 {
        mp + 3
    } else {
        mp - 9
    };
    let y = yoe + 400 * era + (if m <= 2 {
        1int
    } else {
        0
    });
    assert(date_of_day(y, m, doy - (153 * mp + 2) / 5 + 1, z));
}

/// The date after `y`-`m`-`d`: the next day of the month, or the first of the
/// next month, or 1 January of the next year.
pub open spec fn next_date(y: int, m: int, d: int) -> (int, int, int) {
    if d < days_in_month(y, m) {
        (y, m, d + 1)
    } else if m < 12 {
        (y, m + 1, 1)
    } else {
        (y + 1, 1, 1)
    }
}

/// The day after has the date after.
pub proof fn next_day_has_next_date(y: int, m: int, d: int, z: int)
    requires
        date_of_day(y, m, d, z),
    ensures
        ({
            let (y1, m1, d1) = next_date(y, m, d);
            date_of_day(y1, m1, d1, z + 1)
        }),
{
    days_before_month_values(y);
    days_before_month_values(y + 1);
    if y >= 1970 {
        assert(year_start(y + 1) == year_start(y) + days_in_year(y));
    } else {
        assert(year_start(y) == year_start(y + 1) - days_in_year(y));
    }
}

/// The decimal digit for a number below ten.
pub open spec fn digit(n: nat) -> char {
    (('0' as nat) + n) as char
}

/// A number in decimal notation.
pub open spec fn decimal(n: nat) -> Seq<char>
    decreases n,
{
    if n < 10 {
        seq![digit(n)]
    } else {
        decimal(n / 10).push(digit(n % 10))
    }
}

/// A number in decimal notation, brought to `width` digits with leading zeros.
pub open spec fn padded(n: nat, width: nat) -> Seq<char> {
    let digits = decimal(n);
    if digits.len() >= width {
        digits
    } else {
        Seq::new((width - digits.len()) as nat, |i: int| '0') + digits
    }
}

/// The stamp of a date: `YYYY-MM-DD`.
pub open spec fn stamp(y: nat, m: nat, d: nat) -> Seq<char> {
    padded(y, 4) + seq!['-'] + padded(m, 2) + seq!['-'] + padded(d, 2)
}

/// `s` is the stamp of day `z`, counted from 1 January 1970.
pub open spec fn is_day_stamp(s: Seq<char>, z: int) -> bool {
    exists|y: int, m: int, d: int|
        {
            &&& #[trigger] date_of_day(y, m, d, z)
            &&& y >= 0
            &&& s == stamp(y as nat, m as nat, d as nat)
        }
}

fn digit_text(n: u32) -> (r: &'static str)
    requires
        n < 10,
    ensures
        r@ == seq![digit(n as nat)],
{
    proof {
        reveal_strlit("0");
        reveal_strlit("1");
        reveal_strlit("2");
        reveal_strlit("3");
        reveal_strlit("4");
        reveal_strlit("5");
        reveal_strlit("6");
        reveal_strlit("7");
        reveal_strlit("8");
        reveal_strlit("9");
    }
    match n {
        0 => "0",
        1 => "1",
        2 => "2",
        3 => "3",
        4 => "4",
        5 => "5",
        6 => "6",
        7 => "7",
        8 => "8",
        _ => "9",
    }
}

fn append_decimal(out: &mut String, n: u32)
    ensures
        final(out)@ == old(out)@ + decimal(n as nat),
    decreases n,
{
    if n >= 10 {
        append_decimal(out, n / 10);
    }
    out.append(digit_text(n % 10));
}

fn decimal_width(n: u32) -> (r: usize)
    ensures
        r == decimal(n as nat).len(),
        r <= 10,
{
    let mut rest: u32 = n;
    let mut r: usize = 1;
    while rest >= 10
        invariant
            decimal(n as nat).len() + 1 == r + decimal(rest as nat).len(),
            r == 1 ==> rest <= 4_294_967_295,
            r == 2 ==> rest <= 429_496_729,
            r == 3 ==> rest <= 42_949_672,
            r == 4 ==> rest <= 4_294_967,
            r == 5 ==> rest <= 429_496,
            r == 6 ==> rest <= 42_949,
            r == 7 ==> rest <= 4_294,
            r == 8 ==> rest <= 429,
            r == 9 ==> rest <= 42,
            r == 10 ==> rest <= 4,
            1 <= r <= 10,
        decreases rest,
    {
        rest = rest / 10;
        r = r + 1;
    }
    r
}

fn append_padded(out: &mut String, n: u32, width: usize)
    ensures
        final(out)@ == old(out)@ + padded(n as nat, width as nat),
{
    let mut have: usize = decimal_width(n);
    let ghost digits = decimal(n as nat);
    let ghost before = out@;
    proof {
        reveal_strlit("0");
    }
    while have < width
        invariant
            digits.len() <= have,
            have <= width || have == digits.len(),
            out@ == before + Seq::new((have - digits.len()) as nat, |i: int| '0'),
            "0"@ == seq!['0'],
        decreases width - have,
    {
        out.append("0");
        have = have + 1;
    }
    append_decimal(out, n);
}

/// The stamp of the day that holds the instant `now_ms` milliseconds after the
/// start of 1970 (UTC).
pub fn today_yyyy_mm_dd(now_ms: u64) -> (r: String)
    ensures
        is_day_stamp(r@, now_ms as int / 86_400_000),
{
    let secs: u64 = now_ms / 1000;
    let days: u64 = secs / 86_400;
    let (y, m, d): (i32, u32, u32) = civil_from_days(days as i64);
    proof {
        reveal_strlit("-");
        let w = choose|w: int|
            #[trigger] date_of_day(w, m as int, d as int, days as int) && y == w as i32;
        date_within_year(w, m as int, d as int);
        if w < 1970 {
            year_start_ordered(w, 1970);
        } else if w > 1970 {
            year_start_ordered(1970, w);
        }
        assert(1970 <= w <= i32::MAX);
        assert(date_of_day(y as int, m as int, d as int, now_ms as int / 86_400_000));
    }
    let mut out: String = String::new();
    append_padded(&mut out, y as u32, 4);
    out.append("-");
    append_padded(&mut out, m, 2);
    out.append("-");
    append_padded(&mut out, d, 2);
    assert(out@ =~= stamp(y as nat, m as nat, d as nat));
    out
}

/// A day has one stamp only.
pub proof fn day_stamp_is_unique(s: Seq<char>, t: Seq<char>, z: int)
    requires
        is_day_stamp(s, z),
        is_day_stamp(t, z),
    ensures
        s == t,
{
    let (y1, m1, d1) = choose|y: int, m: int, d: int|
        #[trigger] date_of_day(y, m, d, z) && y >= 0 && s == stamp(y as nat, m as nat, d as nat);
    let (y2, m2, d2) = choose|y: int, m: int, d: int|
        #[trigger] date_of_day(y, m, d, z) && y >= 0 && t == stamp(y as nat, m as nat, d as nat);
    date_is_unique(y1, m1, d1, y2, m2, d2, z);
}

/// The number that a sequence of decimal digits writes.
pub open spec fn value(s: Seq<char>) -> int
    decreases s.len(),
{
    if s.len() == 0 {
        0
    } else {
        10 * value(s.drop_last()) + (s.last() as int - '0' as int)
    }
}

proof fn decimal_value(n: nat)
    ensures
        value(decimal(n)) == n,
        decimal(n).len() >= 1,
        n < 100 ==> decimal(n).len() <= 2,
    decreases n,
{
    let s = decimal(n);
    if n < 10 {
        assert(s.drop_last() =~= Seq::<char>::empty());
        assert(value(s.drop_last()) == 0);
    } else {
        decimal_value(n / 10);
        assert(s.drop_last() =~= decimal(n / 10));
    }
}

proof fn leading_zero_value(k: nat, s: Seq<char>)
    ensures
        value(Seq::new(k, |i: int| '0') + s) == value(s),
    decreases k, s.len(),
{
    let zeros = Seq::new(k, |i: int| '0');
    let all = zeros + s;
    if s.len() > 0 {
        leading_zero_value(k, s.drop_last());
        assert(all.drop_last() =~= zeros + s.drop_last());
    } else if k > 0 {
        let fewer = Seq::new((k - 1) as nat, |i: int| '0');
        leading_zero_value((k - 1) as nat, s);
        assert(all.drop_last() =~= fewer + s);
    } else {
        assert(all =~= s);
    }
}

proof fn padded_value(n: nat, width: nat)
    ensures
        value(padded(n, width)) == n,
        width == 2 && n < 100 ==> padded(n, width).len() == 2,
{
    decimal_value(n);
    let digits = decimal(n);
    if digits.len() < width {
        leading_zero_value((width - digits.len()) as nat, digits);
    }
}

/// Days apart have stamps apart.
pub proof fn day_stamps_tell_days_apart(s: Seq<char>, z1: int, z2: int)
    requires
        is_day_stamp(s, z1),
        is_day_stamp(s, z2),
    ensures
        z1 == z2,
{
    let (y1, m1, d1) = choose|y: int, m: int, d: int|
        #[trigger] date_of_day(y, m, d, z1) && y >= 0 && s == stamp(y as nat, m as nat, d as nat);
    let (y2, m2, d2) = choose|y: int, m: int, d: int|
        #[trigger] date_of_day(y, m, d, z2) && y >= 0 && s == stamp(y as nat, m as nat, d as nat);
    let n = s.len() as int;
    padded_value(y1 as nat, 4);
    padded_value(y2 as nat, 4);
    padded_value(m1 as nat, 2);
    padded_value(m2 as nat, 2);
    padded_value(d1 as nat, 2);
    padded_value(d2 as nat, 2);
    assert(s.subrange(n - 2, n) =~= padded(d1 as nat, 2));
    assert(s.subrange(n - 2, n) =~= padded(d2 as nat, 2));
    assert(s.subrange(n - 5, n - 3) =~= padded(m1 as nat, 2));
    assert(s.subrange(n - 5, n - 3) =~= padded(m2 as nat, 2));
    assert(s.subrange(0, n - 6) =~= padded(y1 as nat, 4));
    assert(s.subrange(0, n - 6) =~= padded(y2 as nat, 4));
}

/// The date of day `z`: months and days are those of the Gregorian calendar, years
/// have 365 days and every fourth one a day more, but for the hundredth ones that
/// are not four-hundredth ones, and day 0 is 1 January 1970.
pub proof fn days_are_counted_from_1970(y: int, m: int, d: int, z: int)
    ensures
        date_of_day(y, m, d, z) <==> ({
            let leap = if y % 400 == 0 || (y % 4 == 0 && y % 100 != 0) {
                1int
            } else {
                0
            };
            let before = 365 * (y - 1970) + (y - 1) / 4 - (y - 1) / 100 + (y - 1) / 400 - 477;
            ||| m == 1 && 1 <= d <= 31 && z == before + d - 1
            ||| m == 2 && 1 <= d <= 28 + leap && z == before + 31 + d - 1
            ||| m == 3 && 1 <= d <= 31 && z == before + leap + 59 + d - 1
            ||| m == 4 && 1 <= d <= 30 && z == before + leap + 90 + d - 1
            ||| m == 5 && 1 <= d <= 31 && z == before + leap + 120 + d - 1
            ||| m == 6 && 1 <= d <= 30 && z == before + leap + 151 + d - 1
            ||| m == 7 && 1 <= d <= 31 && z == before + leap + 181 + d - 1
            ||| m == 8 && 1 <= d <= 31 && z == before + leap + 212 + d - 1
            ||| m == 9 && 1 <= d <= 30 && z == before + leap + 243 + d - 1
            ||| m == 10 && 1 <= d <= 31 && z == before + leap + 273 + d - 1
            ||| m == 11 && 1 <= d <= 30 && z == before + leap + 304 + d - 1
            ||| m == 12 && 1 <= d <= 31 && z == before + leap + 334 + d - 1
        }),
{
    year_start_closed_form(y);
    days_before_month_values(y);
}

/// A character is a decimal digit.
pub open spec fn is_digit(c: char) -> bool {
    48 <= c as int <= 57
}

proof fn decimal_digits(n: nat)
    ensures
        forall|i: int| 0 <= i < decimal(n).len() ==> is_digit(#[trigger] decimal(n)[i]),
        decimal(n).len() >= 1,
        decimal(n).len() > 1 ==> decimal(n)[0] as int != 48,
        n > 0 ==> decimal(n)[0] as int != 48,
    decreases n,
{
    if n >= 10 {
        decimal_digits(n / 10);
    }
}

proof fn padded_digits(n: nat, width: nat)
    ensures
        padded(n, width).len() >= width,
        forall|i: int| 0 <= i < padded(n, width).len() ==> is_digit(#[trigger] padded(n, width)[i]),
        padded(n, width).len() > width && width >= 1 ==> padded(n, width)[0] as int != 48,
{
    decimal_digits(n);
}

/// A stamp spells the date of its day: the year in four digits, or in as many as it
/// needs, then month and day in two digits each, set apart by dashes.
pub proof fn stamps_spell_the_date(s: Seq<char>, z: int)
    requires
        is_day_stamp(s, z),
    ensures
        s.len() >= 10,
        s.len() > 10 ==> s[0] as int != 48,
        s[s.len() - 6] == '-',
        s[s.len() - 3] == '-',
        forall|i: int|
            0 <= i < s.len() && i != s.len() - 6 && i != s.len() - 3 ==> is_digit(#[trigger] s[i]),
        date_of_day(
            value(s.subrange(0, s.len() - 6)),
            value(s.subrange(s.len() - 5, s.len() - 3)),
            value(s.subrange(s.len() - 2, s.len() as int)),
            z,
        ),
{
    let (y, m, d) = choose|y: int, m: int, d: int|
        #[trigger] date_of_day(y, m, d, z) && y >= 0 && s == stamp(y as nat, m as nat, d as nat);
    let n = s.len() as int;
    let (ys, ms, ds) = (padded(y as nat, 4), padded(m as nat, 2), padded(d as nat, 2));
    padded_value(y as nat, 4);
    padded_value(m as nat, 2);
    padded_value(d as nat, 2);
    padded_digits(y as nat, 4);
    padded_digits(m as nat, 2);
    padded_digits(d as nat, 2);
    assert(s.subrange(n - 2, n) =~= ds);
    assert(s.subrange(n - 5, n - 3) =~= ms);
    assert(s.subrange(0, n - 6) =~= ys);
    assert forall|i: int| 0 <= i < n && i != n - 6 && i != n - 3 implies is_digit(
        #[trigger] s[i],
    ) by {
        if i < n - 6 {
            assert(s[i] == ys[i]);
        } else if i < n - 3 {
            assert(s[i] == ms[i - (n - 5)]);
        } else {
            assert(s[i] == ds[i - (n - 2)]);
        }
    }
    if n > 10 {
        assert(s[0] == ys[0]);
    }
}

/// Digits write the sum of their values, each ten times the one behind it.
pub proof fn digits_write_their_value(s: Seq<char>, c: char)
    ensures
        value(Seq::empty()) == 0,
        value(s.push(c)) == 10 * value(s) + (c as int - 48),
{
    assert(s.push(c).drop_last() =~= s);
}

} // verus!
