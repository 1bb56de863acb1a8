//! Calendar dates of Unix timestamps (proleptic Gregorian calendar, UTC).
use vstd::prelude::*;
use crate::text::{padded_int, push_char, push_padded_int};

verus! {

/// Integer division rounding toward zero, as Rust's `/` on signed integers.
pub open spec fn tdiv(a: int, b: int) -> int {
    if a >= 0 {
        a / b
    } else {
        -((-a) / b)
    }
}

/// The remainder of `tdiv`, as Rust's `%` on signed integers.
pub open spec fn trem(a: int, b: int) -> int {
    if a >= 0 {
        a % b
    } else {
        -((-a) % b)
    }
}

pub open spec fn is_leap_year(y: int) -> bool {
    y % 4 == 0 && (y % 100 != 0 || y % 400 == 0)
}

/// The number of days of month `m` (1 to 12) of year `y`.
pub open spec fn days_in_month(y: int, m: int) -> int {
    if m == 2 {
        if is_leap_year(y) {
            29
        } else {
            28
        }
    } else if m == 4 || m == 6 || m == 9 || m == 11 {
        30
    } else {
        31
    }
}

/// The number of days from 1970-01-01 to the date `y-m-d` (negative before it).
pub open spec fn days_from_civil(y: int, m: int, d: int) -> int {
    let yy = if m <= 2 {
        y - 1
    } else {
        y
    };
    let era = yy / 400;
    let yoe = yy - era * 400;
    let mp = if m > 2 {
        m - 3
    } else {
        m + 9
    };
    let doy = (153 * mp + 2) / 5 + d - 1;
    let doe = yoe * 365 + yoe / 4 - yoe / 100 + doy;
    era * 146097 + doe - 719468
}

/// `(y, m, d)` is the date `z` days after 1970-01-01.
pub open spec fn is_civil_date(z: int, y: int, m: int, d: int) -> bool {
    &&& 1 <= m <= 12
    &&& 1 <= d <= days_in_month(y, m)
    &&& days_from_civil(y, m, d) == z
}

proof fn lemma_year_of_era(doe: int, yoe: int, doy: int)
    requires
        0 <= doe <= 146096,
        yoe == (doe - doe / 1460 + doe / 36524 - doe / 146096) / 365,
        doy == doe - (365 * yoe + yoe / 4 - yoe / 100),
    ensures
        0 <= yoe <= 399,
        0 <= doy <= 365,
        doy == 365 ==> (yoe + 1) % 4 == 0 && ((yoe + 1) % 100 != 0 || yoe == 399),
{
    assert(0 <= yoe <= 399 && 0 <= doy <= 365 && (doy == 365 ==> (yoe + 1) % 4 == 0 && ((yoe
        + 1) % 100 != 0 || yoe == 399))) by (nonlinear_arith)
        requires
            0 <= doe <= 146096,
            yoe == (doe - doe / 1460 + doe / 36524 - doe / 146096) / 365,
            doy == doe - (365 * yoe + yoe / 4 - yoe / 100),
    ;
}

proof fn lemma_month_day(doy: int, mp: int, d: int, m: int)
    requires
        0 <= doy <= 365,
        mp == (5 * doy + 2) / 153,
        d == doy - (153 * mp + 2) / 5 + 1,
        m == if mp < 10 {
            mp + 3
        } else {
            mp - 9
        },
    ensures
        0 <= mp <= 11,
        1 <= m <= 12,
        mp == if m > 2 {
            m - 3
        } else {
            m + 9
        },
        1 <= d,
        m != 2 ==> d <= days_in_month(0, m),
        m == 2 ==> d <= 28 || (d == 29 && doy == 365),
{
    assert(0 <= mp <= 11 && 1 <= d && (mp != 11 ==> d <= days_in_month(0, m)) && (mp == 11 ==> (d
        <= 28 || (d == 29 && doy == 365)))) by (nonlinear_arith)
        requires
            0 <= doy <= 365,
            mp == (5 * doy + 2) / 153,
            d == doy - (153 * mp + 2) / 5 + 1,
            m == if mp < 10 {
                mp + 3
            } else {
                mp - 9
            },
    ;
}

proof fn lemma_leap_shift(yoe: int, era: int)
    requires
        0 <= yoe <= 399,
        (yoe + 1) % 4 == 0 && ((yoe + 1) % 100 != 0 || yoe == 399),
    ensures
        is_leap_year(yoe + 1 + era * 400),
{
    assert(is_leap_year(yoe + 1 + era * 400)) by (nonlinear_arith)
        requires
            0 <= yoe <= 399,
            (yoe + 1) % 4 == 0 && ((yoe + 1) % 100 != 0 || yoe == 399),
    ;
}

proof fn lemma_days_from_civil_back(era: int, yoe: int, doe: int, doy: int, mp: int, d: int, m: int)
    requires
        0 <= yoe <= 399,
        0 <= mp <= 11,
        mp == if m > 2 {
            m - 3
        } else {
            m + 9
        },
        doy == (153 * mp + 2) / 5 + d - 1,
        doe == yoe * 365 + yoe / 4 - yoe / 100 + doy,
    ensures
        days_from_civil(
            if m <= 2 {
                yoe + era * 400 + 1
            } else {
                yoe + era * 400
            },
            m,
            d,
        ) == era * 146097 + doe - 719468,
{
    let y = yoe + era * 400;
    assert(y / 400 == era && y - (y / 400) * 400 == yoe) by (nonlinear_arith)
        requires
            0 <= yoe <= 399,
            y == yoe + era * 400,
    ;
}

/// The date `z` days after 1970-01-01, as (year, month, day).
pub fn civil_from_days(z: i64) -> (r: (i64, i64, i64))
    requires
        -200000000000000 <= z <= 200000000000000,
    ensures
        is_civil_date(z as int, r.0 as int, r.1 as int, r.2 as int),
{
    let zz = z + 719468;
    let era = (if zz >= 0 {
        zz
    } else {
        zz - 146096
    }) / 146097;
    let doe = zz - era * 146097;
    assert(era == (zz as int) / 146097 && 0 <= doe <= 146096) by (nonlinear_arith)
        requires
            era == tdiv(
                if zz >= 0 {
                    zz as int
                } else {
                    zz - 146096
                },
                146097,
            ),
            doe == zz - era * 146097,
    ;
    let yoe = (doe - doe / 1460 + doe / 36524 - doe / 146096) / 365;
    let y = yoe + era * 400;
    let doy = doe - (365 * yoe + yoe / 4 - yoe / 100);
    proof {
        lemma_year_of_era(doe as int, yoe as int, doy as int);
    }
    let mp = (5 * doy + 2) / 153;
    let d = doy - (153 * mp + 2) / 5 + 1;
    let m = if mp < 10 {
        mp + 3
    } else {
        mp - 9
    };
    let year = if m <= 2 {
        y + 1
    } else {
        y
    };
    proof {
        lemma_month_day(doy as int, mp as int, d as int, m as int);
        if m == 2 && d == 29 {
            lemma_leap_shift(yoe as int, era as int);
        }
        lemma_days_from_civil_back(
            era as int,
            yoe as int,
            doe as int,
            doy as int,
            mp as int,
            d as int,
            m as int,
        );
    }
    (year, m, d)
}

proof fn lemma_yoe_recovered(yoe: int, doy: int, doe: int)
    requires
        0 <= yoe <= 399,
        0 <= doy <= 365,
        doy == 365 ==> (yoe + 1) % 4 == 0 && ((yoe + 1) % 100 != 0 || (yoe + 1) % 400 == 0),
        doe == 365 * yoe + yoe / 4 - yoe / 100 + doy,
    ensures
        (doe - doe / 1460 + doe / 36524 - doe / 146096) / 365 == yoe,
        0 <= doe <= 146096,
{
    assert((doe - doe / 1460 + doe / 36524 - doe / 146096) / 365 == yoe && 0 <= doe <= 146096)
        by (nonlinear_arith)
        requires
            0 <= yoe <= 399,
            0 <= doy <= 365,
            doy == 365 ==> (yoe + 1) % 4 == 0 && ((yoe + 1) % 100 != 0 || (yoe + 1) % 400 == 0),
            doe == 365 * yoe + yoe / 4 - yoe / 100 + doy,
    ;
}

proof fn lemma_mp_recovered(mp: int, d: int, doy: int)
    requires
        0 <= mp <= 11,
        1 <= d,
        mp == 11 ==> d <= 29,
        mp == 1 || mp == 3 || mp == 6 || mp == 8 ==> d <= 30,
        d <= 31,
        doy == (153 * mp + 2) / 5 + d - 1,
    ensures
        (5 * doy + 2) / 153 == mp,
        0 <= doy <= 365,
        mp == 11 && d == 29 ==> doy == 365,
{
    assert((5 * doy + 2) / 153 == mp && 0 <= doy <= 365 && (mp == 11 && d == 29 ==> doy == 365))
        by (nonlinear_arith)
        requires
            0 <= mp <= 11,
            1 <= d,
            mp == 11 ==> d <= 29,
            mp == 1 || mp == 3 || mp == 6 || mp == 8 ==> d <= 30,
            d <= 31,
            doy == (153 * mp + 2) / 5 + d - 1,
    ;
}

proof fn lemma_leap_of_era(yoe: int, era: int)
    requires
        0 <= yoe <= 399,
        is_leap_year(yoe + era * 400 + 1),
    ensures
        (yoe + 1) % 4 == 0 && ((yoe + 1) % 100 != 0 || (yoe + 1) % 400 == 0),
{
    assert((yoe + 1) % 4 == 0 && ((yoe + 1) % 100 != 0 || (yoe + 1) % 400 == 0))
        by (nonlinear_arith)
        requires
            0 <= yoe <= 399,
            is_leap_year(yoe + era * 400 + 1),
    ;
}

/// The era, day of era, year of era and day of year behind a valid date.
proof fn lemma_date_parts(z: int, y: int, m: int, d: int) -> (r: (int, int, int, int))
    requires
        is_civil_date(z, y, m, d),
    ensures
        ({
            let (era, doe, yoe, doy) = r;
            let mp = if m > 2 {
                m - 3
            } else {
                m + 9
            };
            &&& 0 <= doe <= 146096
            &&& z + 719468 == era * 146097 + doe
            &&& 0 <= yoe <= 399
            &&& (doe - doe / 1460 + doe / 36524 - doe / 146096) / 365 == yoe
            &&& doy == doe - (365 * yoe + yoe / 4 - yoe / 100)
            &&& (5 * doy + 2) / 153 == mp
            &&& d == doy - (153 * mp + 2) / 5 + 1
            &&& (if m <= 2 {
                y - 1
            } else {
                y
            }) == yoe + era * 400
        }),
{
    let yy = if m <= 2 {
        y - 1
    } else {
        y
    };
    let era = yy / 400;
    let yoe = yy - era * 400;
    let mp = if m > 2 {
        m - 3
    } else {
        m + 9
    };
    let doy = (153 * mp + 2) / 5 + d - 1;
    let doe = yoe * 365 + yoe / 4 - yoe / 100 + doy;
    assert(0 <= yoe <= 399 && yy == yoe + era * 400) by (nonlinear_arith)
        requires
            era == yy / 400,
            yoe == yy - era * 400,
    ;
    lemma_mp_recovered(mp, d, doy);
    if doy == 365 {
        assert(m == 2 && d == 29);
        lemma_leap_of_era(yoe, era);
    }
    lemma_yoe_recovered(yoe, doy, doe);
    (era, doe, yoe, doy)
}

/// A day count has exactly one calendar date.
pub proof fn law_civil_date_unique(z: int, y1: int, m1: int, d1: int, y2: int, m2: int, d2: int)
    requires
        is_civil_date(z, y1, m1, d1),
        is_civil_date(z, y2, m2, d2),
    ensures
        y1 == y2 && m1 == m2 && d1 == d2,
{
    let (e1, doe1, yoe1, doy1) = lemma_date_parts(z, y1, m1, d1);
    let (e2, doe2, yoe2, doy2) = lemma_date_parts(z, y2, m2, d2);
    assert(e1 == e2) by (nonlinear_arith)
        requires
            0 <= doe1 <= 146096,
            0 <= doe2 <= 146096,
            e1 * 146097 + doe1 == e2 * 146097 + doe2,
    ;
}

/// The date of `ts` seconds after 1970-01-01 00:00 UTC, counting whole
/// days toward zero as Rust's `/` does.
pub open spec fn date_of_timestamp(ts: int, y: int, m: int, d: int) -> bool {
    is_civil_date(tdiv(ts, 86400), y, m, d)
}

/// `YYYY-MM-DD`, each field zero-padded (`format!("{:04}-{:02}-{:02}", ..)`).
pub open spec fn date_text(y: int, m: int, d: int) -> Seq<char> {
    padded_int(y, 4) + seq!['-'] + padded_int(m, 2) + seq!['-'] + padded_int(d, 2)
}

/// The calendar date of a Unix timestamp, as `YYYY-MM-DD`.
pub fn ts_to_date(ts: i64) -> (r: String)
    ensures
        exists|y: int, m: int, d: int| date_of_timestamp(ts as int, y, m, d) && r@ == date_text(y, m, d),
{
    let (y, m, d) = civil_from_days(ts / 86400);
    let mut s = String::new();
    push_padded_int(&mut s, y, 4);
    push_char(&mut s, '-');
    push_padded_int(&mut s, m, 2);
    push_char(&mut s, '-');
    push_padded_int(&mut s, d, 2);
    assert(s@ =~= date_text(y as int, m as int, d as int));
    assert(date_of_timestamp(ts as int, y as int, m as int, d as int));
    s
}

} // verus!
