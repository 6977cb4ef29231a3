//! FILETIME ticks: 100 ns units since 1601-01-01T00:00:00 UTC.

use crate::numbers;
use crate::text;
use vstd::prelude::*;

verus! {

/// Ticks from 1601-01-01 to 1970-01-01.
pub const FILETIME_UNIX_EPOCH: i64 = 116_444_736_000_000_000;

/// Days from 1601-01-01 to 1970-01-01.
pub const DAYS_1601_TO_1970: i64 = 134_774;

/// The nearest value in range.
pub open spec fn clamped(v: int) -> int {
    if v > i64::MAX {
        i64::MAX as int
    } else if v < i64::MIN {
        i64::MIN as int
    } else {
        v
    }
}

/// Unix milliseconds of a tick count, rounded down.
pub open spec fn ms_of_ticks(ft: int) -> int {
    clamped(ft - FILETIME_UNIX_EPOCH) / 10_000
}

/// The tick count of Unix milliseconds. What is too late is the last tick;
/// what is too early is the epoch after the first tick.
pub open spec fn ticks_of_ms(ms: int) -> int {
    let ft = ms * 10_000 + FILETIME_UNIX_EPOCH;
    if ft > i64::MAX {
        i64::MAX as int
    } else if ft < i64::MIN {
        i64::MIN + FILETIME_UNIX_EPOCH
    } else {
        ft
    }
}

proof fn lemma_floor_negative(k: int, b: int)
    requires
        k >= 0,
        b > 0,
    ensures
        (-(k + 1)) / b == -(k / b) - 1,
{
    let q = k / b;
    let r = k % b;
    vstd::arithmetic::div_mod::lemma_fundamental_div_mod(k, b);
    vstd::arithmetic::div_mod::lemma_mod_bound(k, b);
    assert(-(k + 1) == (-q - 1) * b + (b - 1 - r)) by (nonlinear_arith)
        requires
            k == b * q + r,
    ;
    vstd::arithmetic::div_mod::lemma_fundamental_div_mod_converse(
        -(k + 1),
        b,
        -q - 1,
        b - 1 - r,
    );
}

/// Division rounded down.
fn floor_div(a: i64, b: i64) -> (q: i64)
    requires
        b > 1,
    ensures
        q == a as int / b as int,
{
    if a >= 0 {
        proof {
            vstd::arithmetic::div_mod::lemma_div_is_ordered_by_denominator(a as int, 1, b as int);
        }
        (a as u64 / b as u64) as i64
    } else {
        let k = (-(a + 1)) as u64;
        proof {
            lemma_floor_negative(k as int, b as int);
            vstd::arithmetic::div_mod::lemma_div_is_ordered_by_denominator(k as int, 1, b as int);
            vstd::arithmetic::div_mod::lemma_div_pos_is_pos(k as int, b as int);
        }
        let q = (k / b as u64) as i64;
        -q - 1
    }
}

/// Converts ticks to Unix milliseconds, rounding down. Saturates instead of
/// overflowing.
pub fn filetime_to_unix_ms(ft: i64) -> (ms: i64)
    ensures
        ms == ms_of_ticks(ft as int),
{
    let shifted = if ft < i64::MIN + FILETIME_UNIX_EPOCH {
        i64::MIN
    } else {
        ft - FILETIME_UNIX_EPOCH
    };
    floor_div(shifted, 10_000)
}

/// Converts Unix milliseconds to ticks. Exact wherever the result can be
/// represented, and saturating beyond.
pub fn unix_ms_to_filetime(ms: i64) -> (ft: i64)
    ensures
        ft == ticks_of_ms(ms as int),
{
    let ft = ms as i128 * 10_000 + FILETIME_UNIX_EPOCH as i128;
    if ft > i64::MAX as i128 {
        i64::MAX
    } else if ft < i64::MIN as i128 {
        i64::MIN + FILETIME_UNIX_EPOCH
    } else {
        ft as i64
    }
}

/// Milliseconds to ticks is exact wherever the ticks can be represented.
pub proof fn law_ms_is_exact(ms: int)
    requires
        i64::MIN <= ms * 10_000 + FILETIME_UNIX_EPOCH <= i64::MAX,
    ensures
        ticks_of_ms(ms) == ms * 10_000 + FILETIME_UNIX_EPOCH,
{
}

/// Milliseconds to ticks and back is exact wherever both differences of ticks
/// can be represented, the millisecond that the first tick lies in included.
pub proof fn law_ms_round_trip(ms: int)
    requires
        i64::MIN / 10_000 <= ms,
        ms * 10_000 + FILETIME_UNIX_EPOCH <= i64::MAX,
    ensures
        ms_of_ticks(ticks_of_ms(ms)) == ms,
{
}

/// Ticks to milliseconds and back goes to the start of the millisecond: never
/// later, and less than 10 000 ticks earlier.
pub proof fn law_ticks_round_down(ft: int)
    requires
        i64::MIN + FILETIME_UNIX_EPOCH <= ft <= i64::MAX,
    ensures
        ticks_of_ms(ms_of_ticks(ft)) <= ft < ticks_of_ms(ms_of_ticks(ft)) + 10_000,
{
}

/// The Gregorian leap years among the years 1 to `y`, counted on to any year.
pub open spec fn leaps(y: int) -> int {
    y / 4 - y / 100 + y / 400
}

pub open spec fn is_leap(y: int) -> bool {
    y % 4 == 0 && (y % 100 != 0 || y % 400 == 0)
}

pub open spec fn month_days(y: int, m: int) -> int {
    if m == 2 {
        if is_leap(y) {
            29
        } else {
            28
        }
    } else if m == 4 || m == 6 || m == 9 || m == 11 {
        30
    } else {
        31
    }
}

/// Days of the year `y` before the month `m`.
pub open spec fn days_before_month(y: int, m: int) -> int
    decreases m,
{
    if m <= 1 {
        0
    } else {
        days_before_month(y, m - 1) + month_days(y, m - 1)
    }
}

/// A date of the proleptic Gregorian calendar.
pub open spec fn is_date(y: int, m: int, d: int) -> bool {
    1 <= m <= 12 && 1 <= d <= month_days(y, m)
}

/// Days from 1970-01-01 to the date.
pub open spec fn day_number(y: int, m: int, d: int) -> int {
    365 * (y - 1970) + leaps(y - 1) - leaps(1969) + days_before_month(y, m) + d - 1
}

proof fn lemma_months(y: int)
    ensures
        days_before_month(y, 1) == 0,
        days_before_month(y, 2) == 31,
        ({
            let f = 59 + if is_leap(y) {
                1int
            } else {
                0
            };
            &&& days_before_month(y, 3) == f
            &&& days_before_month(y, 4) == f + 31
            &&& days_before_month(y, 5) == f + 61
            &&& days_before_month(y, 6) == f + 92
            &&& days_before_month(y, 7) == f + 122
            &&& days_before_month(y, 8) == f + 153
            &&& days_before_month(y, 9) == f + 184
            &&& days_before_month(y, 10) == f + 214
            &&& days_before_month(y, 11) == f + 245
            &&& days_before_month(y, 12) == f + 275
            &&& days_before_month(y, 13) == f + 306
        }),
{
    reveal_with_fuel(days_before_month, 14);
}

proof fn lemma_leaps(y: int)
    ensures
        leaps(y) - leaps(y - 1) == if is_leap(y) {
            1int
        } else {
            0
        },
{
}

/// A date lies within its year.
proof fn lemma_in_year(y: int, m: int, d: int)
    requires
        is_date(y, m, d),
    ensures
        day_number(y, 1, 1) <= day_number(y, m, d) < day_number(y + 1, 1, 1),
{
    lemma_months(y);
    lemma_months(y + 1);
    lemma_leaps(y);
}

proof fn lemma_years_grow(a: int, b: int)
    requires
        a < b,
    ensures
        day_number(a + 1, 1, 1) <= day_number(b, 1, 1),
    decreases b - a,
{
    if a + 1 < b {
        lemma_years_grow(a, b - 1);
        lemma_leaps(b - 1);
        assert(days_before_month(b, 1) == 0 && days_before_month(b - 1, 1) == 0);
    }
}

/// Each day has one date.
pub proof fn law_date_is_unique(y: int, m: int, d: int, y2: int, m2: int, d2: int)
    requires
        is_date(y, m, d),
        is_date(y2, m2, d2),
        day_number(y, m, d) == day_number(y2, m2, d2),
    ensures
        y == y2,
        m == m2,
        d == d2,
{
    lemma_in_year(y, m, d);
    lemma_in_year(y2, m2, d2);
    if y < y2 {
        lemma_years_grow(y, y2);
    }
    if y2 < y {
        lemma_years_grow(y2, y);
    }
    lemma_months(y);
}

/// A year counted from March, and the day of that year.
struct MarchDay {
    y: i64,
    day: i64,
}

/// Days from 0000-03-01 to the first of March of the year `y`.
spec fn march_start(y: int) -> int {
    365 * y + leaps(y)
}

/// The year, counted from March, of the day `z` after 0000-03-01.
fn march_day(z: i64) -> (r: MarchDay)
    requires
        -0x1_0000_0000 <= z <= 0x1_0000_0000,
    ensures
        march_start(r.y as int) + r.day == z,
        0 <= r.day <= 365,
        r.day == 365 ==> is_leap(r.y + 1),
        -0x1_0000_0000 <= r.y <= 0x1_0000_0000,
{
    let era = floor_div(z, 146_097);
    let doe = z - era * 146_097;
    assert(0 <= doe < 146_097);
    let mut c = doe / 36_524;
    if c > 3 {
        c = 3;
    }
    let in_c = doe - c * 36_524;
    assert(0 <= in_c <= 36_524);
    assert(c < 3 ==> in_c < 36_524);
    let q = in_c / 1_461;
    let in_q = in_c - q * 1_461;
    assert(0 <= q <= 24 && 0 <= in_q < 1_461);
    let mut y1 = in_q / 365;
    if y1 > 3 {
        y1 = 3;
    }
    let day = in_q - y1 * 365;
    let yoe = 100 * c + 4 * q + y1;
    let y = 400 * era + yoe;
    proof {
        assert(0 <= yoe < 400);
        assert(yoe / 4 == 25 * c + q);
        assert(yoe / 100 == c);
        assert(y / 4 == 100 * era + yoe / 4);
        assert(y / 100 == 4 * era + yoe / 100);
        assert(y / 400 == era);
        if day == 365 {
            assert(y1 == 3 && in_q == 1_460);
            assert(q < 24 || c == 3);
            assert((y + 1) % 4 == 0);
            if q < 24 {
                assert((yoe + 1) % 100 == 4 * q + 4);
                assert((y + 1) % 100 == (yoe + 1) % 100);
            } else {
                assert(yoe + 1 == 400);
                assert((y + 1) % 400 == 0);
            }
        }
    }
    MarchDay { y, day }
}

/// The date of the day `days` after 1970-01-01.
fn civil_from_days(days: i64) -> (r: (i64, u32, u32))
    requires
        -0x1000_0000 <= days <= 0x1000_0000,
    ensures
        is_date(r.0 as int, r.1 as int, r.2 as int),
        day_number(r.0 as int, r.1 as int, r.2 as int) == days,
        -0x1_0000_0001 <= r.0 <= 0x1_0000_0001,
{
    let march = march_day(days + 719_468);
    let doy = march.day;
    let mp = (5 * doy + 2) / 153;
    let d = doy - (153 * mp + 2) / 5 + 1;
    let m = if mp < 10 {
        mp + 3
    } else {
        mp - 9
    };
    let y = if m <= 2 {
        march.y + 1
    } else {
        march.y
    };
    proof {
        lemma_months(y as int);
        lemma_leaps(march.y as int);
        lemma_leaps(march.y + 1);
        assert(0 <= mp <= 11);
        assert(leaps(1969) == 477);
        lemma_month_of_day(doy as int, mp as int, d as int);
    }
    (y, m as u32, d as u32)
}

/// How the day of a year counted from March falls into its months.
proof fn lemma_month_of_day(doy: int, mp: int, d: int)
    requires
        0 <= doy <= 365,
        mp == (5 * doy + 2) / 153,
        d == doy - (153 * mp + 2) / 5 + 1,
    ensures
        0 <= mp <= 11,
        1 <= d,
        mp == 0 ==> doy == d - 1 && d <= 31,
        mp == 1 ==> doy == 31 + d - 1 && d <= 30,
        mp == 2 ==> doy == 61 + d - 1 && d <= 31,
        mp == 3 ==> doy == 92 + d - 1 && d <= 30,
        mp == 4 ==> doy == 122 + d - 1 && d <= 31,
        mp == 5 ==> doy == 153 + d - 1 && d <= 31,
        mp == 6 ==> doy == 184 + d - 1 && d <= 30,
        mp == 7 ==> doy == 214 + d - 1 && d <= 31,
        mp == 8 ==> doy == 245 + d - 1 && d <= 30,
        mp == 9 ==> doy == 275 + d - 1 && d <= 31,
        mp == 10 ==> doy == 306 + d - 1 && d <= 31,
        mp == 11 ==> doy == 337 + d - 1 && d <= 29 && (d == 29 ==> doy == 365),
{
}

/// A year with at least four digits, and a sign before the year 0.
pub open spec fn year_text(y: int) -> Seq<char> {
    if y < 0 {
        seq!['-'] + text::padded((-y) as nat, 4)
    } else {
        text::padded(y as nat, 4)
    }
}

/// A date and time of day in the form `YYYY-MM-DDTHH:MM:SS`.
pub open spec fn stamp_text(y: int, m: int, d: int, tod: int) -> Seq<char> {
    year_text(y) + seq!['-'] + text::padded(m as nat, 2) + seq!['-'] + text::padded(d as nat, 2)
        + seq!['T'] + text::padded((tod / 3_600) as nat, 2) + seq![':'] + text::padded(
        (tod % 3_600 / 60) as nat,
        2,
    ) + seq![':'] + text::padded((tod % 60) as nat, 2)
}

/// The whole second of a tick count.
pub open spec fn second_of(ft: int) -> int {
    ft / 10_000_000
}

/// UTC `YYYY-MM-DDTHH:MM:SS` of a tick count; fractions of a second are
/// dropped downwards.
pub fn format_filetime_utc(ft: i64) -> (s: String)
    ensures
        exists|y: int, m: int, d: int|
            {
                &&& #[trigger] is_date(y, m, d)
                &&& day_number(y, m, d) == second_of(ft as int) / 86_400 - DAYS_1601_TO_1970
                &&& s@ == stamp_text(y, m, d, second_of(ft as int) % 86_400)
            },
{
    let secs = floor_div(ft, 10_000_000);
    let days = floor_div(secs, 86_400);
    let tod = (secs - days * 86_400) as u64;
    assert(tod == secs as int % 86_400);
    let (y, m, d) = civil_from_days(days - DAYS_1601_TO_1970);
    let mut s = String::new();
    if y < 0 {
        s.push('-');
        text::push_padded(&mut s, (-y) as u64, 4);
    } else {
        text::push_padded(&mut s, y as u64, 4);
    }
    assert(s@ =~= year_text(y as int));
    s.push('-');
    text::push_padded(&mut s, m as u64, 2);
    s.push('-');
    text::push_padded(&mut s, d as u64, 2);
    s.push('T');
    text::push_padded(&mut s, tod / 3_600, 2);
    s.push(':');
    text::push_padded(&mut s, tod % 3_600 / 60, 2);
    s.push(':');
    text::push_padded(&mut s, tod % 60, 2);
    assert(s@ =~= stamp_text(y as int, m as int, d as int, tod as int));
    assert(is_date(y as int, m as int, d as int));
    s
}

/// The stamp of a year from 0 to 9999 has 19 characters: year, month, day, hour,
/// minute and second as numbers of fixed width, with their separators.
pub proof fn law_stamps_read_back(y: int, m: int, d: int, tod: int)
    requires
        0 <= y <= 9999,
        1 <= m <= 12,
        1 <= d <= 31,
        0 <= tod < 86_400,
    ensures
        ({
            let s = stamp_text(y, m, d, tod);
            &&& s.len() == 19
            &&& s[4] == '-' && s[7] == '-' && s[10] == 'T' && s[13] == ':' && s[16] == ':'
            &&& text::digits_value(s.subrange(0, 4)) == y
            &&& text::digits_value(s.subrange(5, 7)) == m
            &&& text::digits_value(s.subrange(8, 10)) == d
            &&& 3600 * text::digits_value(s.subrange(11, 13)) + 60 * text::digits_value(
                s.subrange(14, 16),
            ) + text::digits_value(s.subrange(17, 19)) == tod
            &&& text::digits_value(s.subrange(14, 16)) < 60
            &&& text::digits_value(s.subrange(17, 19)) < 60
        }),
{
    let s = stamp_text(y, m, d, tod);
    let a = text::padded(y as nat, 4);
    let b = text::padded(m as nat, 2);
    let c = text::padded(d as nat, 2);
    let h = text::padded((tod / 3_600) as nat, 2);
    let i = text::padded((tod % 3_600 / 60) as nat, 2);
    let j = text::padded((tod % 60) as nat, 2);
    lemma_width(y as nat, 4);
    lemma_width(m as nat, 2);
    lemma_width(d as nat, 2);
    lemma_width((tod / 3_600) as nat, 2);
    lemma_width((tod % 3_600 / 60) as nat, 2);
    lemma_width((tod % 60) as nat, 2);
    assert(s.subrange(0, 4) =~= a);
    assert(s.subrange(5, 7) =~= b);
    assert(s.subrange(8, 10) =~= c);
    assert(s.subrange(11, 13) =~= h);
    assert(s.subrange(14, 16) =~= i);
    assert(s.subrange(17, 19) =~= j);
}

/// A number of few digits takes exactly the width.
proof fn lemma_width(n: nat, width: nat)
    requires
        width == 2 && n < 100 || width == 4 && n < 10_000,
    ensures
        text::padded(n, width).len() == width,
        text::digits_value(text::padded(n, width)) == n,
{
    numbers::law_padded_numbers_read_back(n, width);
    reveal_with_fuel(text::padded, 5);
}

/// A year of five digits is written whole, and one before the year 0 has a sign.
pub proof fn law_years_are_whole(y: int)
    ensures
        y >= 0 ==> text::digits_value(year_text(y)) == y && year_text(y).len() >= 4,
        y < 0 ==> year_text(y)[0] == '-' && text::digits_value(
            year_text(y).subrange(1, year_text(y).len() as int),
        ) == -y && year_text(y).len() >= 5,
{
    if y >= 0 {
        numbers::law_padded_numbers_read_back(y as nat, 4);
    } else {
        let p = text::padded((-y) as nat, 4);
        numbers::law_padded_numbers_read_back((-y) as nat, 4);
        assert(year_text(y).subrange(1, year_text(y).len() as int) =~= p);
    }
}

/// Days are counted one by one from 1970-01-01, through months of 28 to 31 days
/// and years of 365 or 366; 1601-01-01 is 134774 days before.
pub proof fn law_days_follow_one_another(y: int, m: int, d: int)
    requires
        is_date(y, m, d),
    ensures
        day_number(1970, 1, 1) == 0,
        day_number(1601, 1, 1) == -134_774,
        is_date(y, m, d + 1) ==> day_number(y, m, d + 1) == day_number(y, m, d) + 1,
        !is_date(y, m, d + 1) && m < 12 ==> day_number(y, m + 1, 1) == day_number(y, m, d) + 1
            && is_date(y, m + 1, 1),
        !is_date(y, m, d + 1) && m == 12 ==> day_number(y + 1, 1, 1) == day_number(y, m, d) + 1
            && is_date(y + 1, 1, 1),
        month_days(y, 1) == 31 && month_days(y, 3) == 31 && month_days(y, 5) == 31 && month_days(
            y,
            7,
        ) == 31 && month_days(y, 8) == 31 && month_days(y, 10) == 31 && month_days(y, 12) == 31,
        month_days(y, 4) == 30 && month_days(y, 6) == 30 && month_days(y, 9) == 30 && month_days(
            y,
            11,
        ) == 30,
        month_days(y, 2) == (if y % 400 == 0 || y % 4 == 0 && y % 100 != 0 {
            29int
        } else {
            28
        }),
        FILETIME_UNIX_EPOCH == 134_774 * 86_400 * 10_000_000,
{
    lemma_months(y);
    reveal_with_fuel(days_before_month, 13);
    assert(leaps(y) - leaps(y - 1) == (if is_leap(y) {
        1int
    } else {
        0
    }));
}

} // verus!
