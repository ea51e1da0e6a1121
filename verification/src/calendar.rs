//! Proleptic Gregorian calendar: days since 1970-01-01 to a civil date, and
//! the time-of-day split of an epoch time.
use vstd::prelude::*;

verus! {

/// Whether `y` is a leap year.
pub open spec fn is_leap(y: int) -> bool {
    (y % 4 == 0 && y % 100 != 0) || y % 400 == 0
}

/// Number of days of month `m` (1 to 12) of year `y`.
pub open spec fn month_days(y: int, m: int) -> int {
    if m == 2 {
        if is_leap(y) {
            29
        } else {
            28
        }
    } else if m == 4 || m == 6 || m == 9 || m == 11 {
        30
    } else {
        31
    }
}

/// Number of days of year `y` before the first of month `m` (1 to 12).
pub open spec fn days_before_month(y: int, m: int) -> int {
    let base: int = if m == 1 {
        0
    } else if m == 2 {
        31
    } else if m == 3 {
        59
    } else if m == 4 {
        90
    } else if m == 5 {
        120
    } else if m == 6 {
        151
    } else if m == 7 {
        181
    } else if m == 8 {
        212
    } else if m == 9 {
        243
    } else if m == 10 {
        273
    } else if m == 11 {
        304
    } else {
        334
    };
    if m > 2 && is_leap(y) {
        base + 1
    } else {
        base
    }
}

/// Number of leap years among the years `1..=x` (counted with sign for
/// `x < 0`, so that differences count the leap years in between).
pub open spec fn leap_count(x: int) -> int {
    x / 4 - x / 100 + x / 400
}

/// Number of days from 1970-01-01 to the date `y-m-d`.
pub open spec fn days_from_civil(y: int, m: int, d: int) -> int {
    365 * (y - 1970) + (leap_count(y - 1) - leap_count(1969)) + days_before_month(y, m) + d - 1
}

/// Whether `y-m-d` is a valid date.
pub open spec fn valid_date(y: int, m: int, d: int) -> bool {
    1 <= m <= 12 && 1 <= d <= month_days(y, m)
}

/// Days of the March-based years `0..k` of a 400-year era.
spec fn era_days(k: int) -> int {
    365 * k + k / 4 - k / 100
}

proof fn lemma_year_of_era(doe: int)
    requires
        0 <= doe <= 146096,
    ensures
        ({
            let yoe = (doe - doe / 1460 + doe / 36524 - doe / 146096) / 365;
            &&& 0 <= yoe <= 399
            &&& era_days(yoe) <= doe
            &&& doe - era_days(yoe) <= 364 + (if is_leap(yoe + 1) { 1int } else { 0int })
        }),
{
    let c = doe / 36524;
    let q = doe / 1460;
    let yoe = (doe - doe / 1460 + doe / 36524 - doe / 146096) / 365;
    assert(0 <= c <= 4);
}

/// Offset of the first day of March-based month `k` (0 = March) within its
/// year.
spec fn march_month_start(k: int) -> int {
    (153 * k + 2) / 5
}

proof fn lemma_month_of_year(doy: int, leap: bool)
    requires
        0 <= doy <= 364 + (if leap { 1int } else { 0int }),
    ensures
        ({
            let mp = (5 * doy + 2) / 153;
            let d = doy - march_month_start(mp) + 1;
            &&& 0 <= mp <= 11
            &&& 1 <= d
            &&& mp < 10 ==> d <= month_days(2001, mp + 3)
            &&& mp == 10 ==> d <= 31
            &&& mp == 11 ==> d <= 28 + (if leap { 1int } else { 0int })
        }),
{
    let mp = (5 * doy + 2) / 153;
    assert(0 <= mp <= 11);
    assert(march_month_start(0) == 0);
    assert(march_month_start(1) == 31);
    assert(march_month_start(2) == 61);
    assert(march_month_start(3) == 92);
    assert(march_month_start(4) == 122);
    assert(march_month_start(5) == 153);
    assert(march_month_start(6) == 184);
    assert(march_month_start(7) == 214);
    assert(march_month_start(8) == 245);
    assert(march_month_start(9) == 275);
    assert(march_month_start(10) == 306);
    assert(march_month_start(11) == 337);
    assert(march_month_start(12) == 367);
    assert(march_month_start(mp) <= doy < march_month_start(mp + 1));
}

proof fn lemma_div_step(x: int, d: int)
    requires
        0 < d,
    ensures
        x / d - (x - 1) / d == (if x % d == 0 { 1int } else { 0int }),
{
    let q = (x - 1) / d;
    let r = (x - 1) % d;
    assert(x - 1 == d * q + r) by {
        vstd::arithmetic::div_mod::lemma_fundamental_div_mod(x - 1, d);
    }
    if r + 1 < d {
        vstd::arithmetic::div_mod::lemma_div_multiples_vanish_fancy(q, r + 1, d);
        vstd::arithmetic::div_mod::lemma_mod_multiples_vanish(q, r + 1, d);
        vstd::arithmetic::div_mod::lemma_small_mod((r + 1) as nat, d as nat);
    } else {
        assert(x == d * (q + 1) + 0) by {
            vstd::arithmetic::mul::lemma_mul_is_distributive_add(d, q, 1);
        }
        vstd::arithmetic::div_mod::lemma_div_multiples_vanish_fancy(q + 1, 0, d);
        vstd::arithmetic::div_mod::lemma_mod_multiples_vanish(q + 1, 0, d);
    }
}

proof fn lemma_leap_count_step(x: int)
    ensures
        leap_count(x) == leap_count(x - 1) + (if is_leap(x) { 1int } else { 0int }),
{
    lemma_div_step(x, 4);
    lemma_div_step(x, 100);
    lemma_div_step(x, 400);
    lemma_shift_div(x % 400, 4, 100 * (x / 400));
    lemma_shift_div(x % 400, 100, 4 * (x / 400));
    vstd::arithmetic::div_mod::lemma_fundamental_div_mod(x, 400);
    assert(x % 400 + 4 * (100 * (x / 400)) == x) by {
        assert(4 * (100 * (x / 400)) == 400 * (x / 400));
    }
    assert(x % 400 + 100 * (4 * (x / 400)) == x) by {
        assert(100 * (4 * (x / 400)) == 400 * (x / 400));
    }
}

proof fn lemma_shift_div(k: int, d: int, e: int)
    requires
        0 < d,
    ensures
        (k + d * e) / d == k / d + e,
        (k + d * e) % d == k % d,
{
    let q = k / d;
    let r = k % d;
    assert(k == d * q + r) by {
        vstd::arithmetic::div_mod::lemma_fundamental_div_mod(k, d);
    }
    assert(k + d * e == d * (q + e) + r) by {
        vstd::arithmetic::mul::lemma_mul_is_distributive_add(d, q, e);
    }
    vstd::arithmetic::div_mod::lemma_div_multiples_vanish_fancy(q + e, r, d);
    vstd::arithmetic::div_mod::lemma_mod_multiples_vanish(q + e, r, d);
    vstd::arithmetic::div_mod::lemma_small_mod(r as nat, d as nat);
}

proof fn lemma_leap_count_era(k: int, e: int)
    ensures
        leap_count(k + 400 * e) == leap_count(k) + 97 * e,
        is_leap(k + 400 * e) == is_leap(k),
{
    lemma_shift_div(k, 4, 100 * e);
    lemma_shift_div(k, 100, 4 * e);
    lemma_shift_div(k, 400, e);
    assert(4 * (100 * e) == 400 * e);
    assert(100 * (4 * e) == 400 * e);
}

/// The civil date of day `z` (days since 1970-01-01), computed as the
/// executable code does, in mathematical integers.
spec fn civil_of(z: int) -> (int, int, int) {
    let zz = z + 719468;
    let era = zz / 146097;
    let doe = zz - era * 146097;
    let yoe = (doe - doe / 1460 + doe / 36524 - doe / 146096) / 365;
    let y = yoe + era * 400;
    let doy = doe - era_days(yoe);
    let mp = (5 * doy + 2) / 153;
    let d = doy - march_month_start(mp) + 1;
    let m = if mp < 10 { mp + 3 } else { mp - 9 };
    (if m <= 2 { y + 1 } else { y }, m, d)
}

#[verifier::spinoff_prover]
proof fn lemma_civil_of(z: int)
    ensures
        valid_date(civil_of(z).0, civil_of(z).1, civil_of(z).2),
        days_from_civil(civil_of(z).0, civil_of(z).1, civil_of(z).2) == z,
{
    let zz = z + 719468;
    let era = zz / 146097;
    let doe = zz - era * 146097;
    assert(0 <= doe <= 146096);
    lemma_year_of_era(doe);
    let yoe = (doe - doe / 1460 + doe / 36524 - doe / 146096) / 365;
    let y = yoe + era * 400;
    let doy = doe - era_days(yoe);
    lemma_month_of_year(doy, is_leap(yoe + 1));
    let mp = (5 * doy + 2) / 153;
    let d = doy - march_month_start(mp) + 1;
    lemma_leap_count_era(yoe, era);
    lemma_leap_count_era(yoe + 1, era);
    lemma_leap_count_step(y);
    lemma_leap_count_step(y + 1);
    assert(leap_count(yoe) == yoe / 4 - yoe / 100);
    assert(march_month_start(mp) == if mp == 0 {
        0int
    } else if mp == 1 {
        31
    } else if mp == 2 {
        61
    } else if mp == 3 {
        92
    } else if mp == 4 {
        122
    } else if mp == 5 {
        153
    } else if mp == 6 {
        184
    } else if mp == 7 {
        214
    } else if mp == 8 {
        245
    } else if mp == 9 {
        275
    } else if mp == 10 {
        306
    } else {
        337
    });
}

/// The date of day `z` (days since 1970-01-01): the valid date that
/// `days_from_civil` maps to `z` (there is exactly one, see
/// `lemma_civil_unique`).
pub open spec fn civil_date(z: int) -> (int, int, int) {
    choose|t: (int, int, int)| valid_date(t.0, t.1, t.2) && days_from_civil(t.0, t.1, t.2) == z
}

proof fn lemma_leap_count_monotone(a: int, b: int)
    requires
        a <= b,
    ensures
        leap_count(a) <= leap_count(b),
    decreases b - a,
{
    if a < b {
        lemma_leap_count_step(b);
        lemma_leap_count_monotone(a, b - 1);
    }
}

proof fn lemma_day_of_year(y: int, m: int, d: int)
    requires
        valid_date(y, m, d),
    ensures
        0 <= days_before_month(y, m) + d - 1 < 365 + (if is_leap(y) { 1int } else { 0int }),
{
}

proof fn lemma_day_of_year_unique(y: int, m1: int, d1: int, m2: int, d2: int)
    requires
        valid_date(y, m1, d1),
        valid_date(y, m2, d2),
        days_before_month(y, m1) + d1 == days_before_month(y, m2) + d2,
    ensures
        m1 == m2 && d1 == d2,
{
}

/// Distinct valid dates are distinct days: the date of a day is unique.
pub proof fn lemma_civil_unique(y1: int, m1: int, d1: int, y2: int, m2: int, d2: int)
    requires
        valid_date(y1, m1, d1),
        valid_date(y2, m2, d2),
        days_from_civil(y1, m1, d1) == days_from_civil(y2, m2, d2),
    ensures
        y1 == y2 && m1 == m2 && d1 == d2,
{
    lemma_day_of_year(y1, m1, d1);
    lemma_day_of_year(y2, m2, d2);
    if y1 < y2 {
        lemma_leap_count_step(y1);
        lemma_leap_count_monotone(y1, y2 - 1);
    } else if y2 < y1 {
        lemma_leap_count_step(y2);
        lemma_leap_count_monotone(y2, y1 - 1);
    } else {
        lemma_day_of_year_unique(y1, m1, d1, m2, d2);
    }
}


/// The civil date `(year, month, day)` of day `z`, counted from
/// 1970-01-01 (negative before it).
#[verifier::spinoff_prover]
pub fn civil_from_days(z: i64) -> (r: (i64, u32, u32))
    requires
        z <= i64::MAX - 719468,
    ensures
        (r.0 as int, r.1 as int, r.2 as int) == civil_date(z as int),
        valid_date(r.0 as int, r.1 as int, r.2 as int),
        days_from_civil(r.0 as int, r.1 as int, r.2 as int) == z,
        z >= 0 ==> r.0 >= 1970,
{
    proof {
        lemma_civil_of(z as int);
        let t = civil_of(z as int);
        let c = civil_date(z as int);
        lemma_civil_unique(c.0, c.1, c.2, t.0, t.1, t.2);
        if z >= 0 && t.0 < 1970 {
            lemma_day_of_year(t.0, t.1, t.2);
            lemma_leap_count_monotone(t.0, 1969);
            lemma_leap_count_step(1969);
        }
    }
    let z = z + 719468;
    let era = if z >= 0 {
        z
    } else {
        z - 146096
    } / 146097;
    assert(era == z as int / 146097);
    let doe = z - era * 146097;
    let yoe = (doe - doe / 1460 + doe / 36524 - doe / 146096) / 365;
    proof {
        lemma_year_of_era(doe as int);
    }
    let y = yoe + era * 400;
    let doy = doe - (365 * yoe + yoe / 4 - yoe / 100);
    proof {
        lemma_month_of_year(doy as int, is_leap(yoe + 1));
    }
    let mp = (5 * doy + 2) / 153;
    let d = (doy - (153 * mp + 2) / 5 + 1) as u32;
    let m = if mp < 10 {
        mp + 3
    } else {
        mp - 9
    } as u32;
    (if m <= 2 {
        y + 1
    } else {
        y
    }, m, d)
}

} // verus!
