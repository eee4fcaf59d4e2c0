//! Epoch-seconds helpers: UTC RFC 3339 formatting on the proleptic Gregorian
//! calendar.
//!
//! `SNAPREF_TIME` (unix epoch seconds) overrides the clock so that
//! snapshots, and therefore snapshot ids, are fully reproducible in
//! tests, demos and CI pipelines.

use vstd::prelude::*;

use crate::decimal::{decimal, i64_value, numeral, parse_i64};
use crate::text::{trim, trimmed};

verus! {

/// A leap year of the Gregorian calendar.
pub open spec fn leap(y: int) -> bool {
    y % 4 == 0 && (y % 100 != 0 || y % 400 == 0)
}

/// How many days a year has.
pub open spec fn days_in_year(y: int) -> int {
    if leap(y) {
        366
    } else {
        365
    }
}

/// How many days a month has.
pub open spec fn days_in_month(y: int, m: int) -> int {
    if m == 2 {
        if leap(y) {
            29
        } else {
            28
        }
    } else if m == 4 || m == 6 || m == 9 || m == 11 {
        30
    } else {
        31
    }
}

/// Days from 1970-01-01 to the first day of a year.
pub open spec fn year_start(y: int) -> int {
    365 * (y - 1970) + (y - 1) / 4 - (y - 1) / 100 + (y - 1) / 400 - 477
}

/// Days from the first day of a year to the first day of a month.
pub open spec fn month_start(y: int, m: int) -> int
    decreases m,
{
    if m <= 1 {
        0
    } else {
        month_start(y, m - 1) + days_in_month(y, m - 1)
    }
}

/// A point in time, in UTC.
pub struct Moment {
    pub year: int,
    pub month: int,
    pub day: int,
    pub hour: int,
    pub minute: int,
    pub second: int,
}

/// The fields are those of a day of the calendar and a time of that day.
pub open spec fn valid_moment(t: Moment) -> bool {
    &&& 1 <= t.month <= 12
    &&& 1 <= t.day <= days_in_month(t.year, t.month)
    &&& 0 <= t.hour < 24
    &&& 0 <= t.minute < 60
    &&& 0 <= t.second < 60
}

/// Days from 1970-01-01 to the day of a moment.
pub open spec fn day_number(t: Moment) -> int {
    year_start(t.year) + month_start(t.year, t.month) + t.day - 1
}

/// Seconds from 1970-01-01T00:00:00Z to a moment.
pub open spec fn epoch_of(t: Moment) -> int {
    day_number(t) * 86_400 + t.hour * 3600 + t.minute * 60 + t.second
}

/// The text with zeros put in front until it has `width` characters.
pub open spec fn zero_filled(s: Seq<char>, width: int) -> Seq<char>
    decreases width - s.len(),
{
    if s.len() >= width {
        s
    } else {
        zero_filled(seq!['0'] + s, width)
    }
}

/// A number with at least `width` characters; a minus sign counts as one.
pub open spec fn padded_number(n: int, width: int) -> Seq<char> {
    if n < 0 {
        seq!['-'] + zero_filled(numeral((-n) as nat), width - 1)
    } else {
        zero_filled(numeral(n as nat), width)
    }
}

/// A moment as `YYYY-MM-DDTHH:MM:SSZ`.
pub open spec fn moment_text(t: Moment) -> Seq<char> {
    padded_number(t.year, 4) + "-"@ + padded_number(t.month, 2) + "-"@ + padded_number(t.day, 2)
        + "T"@ + padded_number(t.hour, 2) + ":"@ + padded_number(t.minute, 2) + ":"@
        + padded_number(t.second, 2) + "Z"@
}

/// Years follow one another without gap, each as long as the calendar says, and
/// 1970 starts at day zero.
pub proof fn law_years_have_their_length(y: int)
    ensures
        year_start(1970) == 0,
        year_start(y + 1) == year_start(y) + days_in_year(y),
{
    lemma_leap_count(y);
}

proof fn lemma_step_4(y: int)
    ensures
        y / 4 - (y - 1) / 4 == (if y % 4 == 0 {
            1int
        } else {
            0int
        }),
{
}

proof fn lemma_step_100(y: int)
    ensures
        y / 100 - (y - 1) / 100 == (if y % 100 == 0 {
            1int
        } else {
            0int
        }),
{
}

proof fn lemma_step_400(y: int)
    ensures
        y / 400 - (y - 1) / 400 == (if y % 400 == 0 {
            1int
        } else {
            0int
        }),
{
}

proof fn lemma_multiples(y: int)
    ensures
        y % 100 == 0 ==> y % 4 == 0,
        y % 400 == 0 ==> y % 100 == 0,
{
    if y % 100 == 0 {
        let q = y / 100;
        assert(y == 4 * (25 * q));
    }
    if y % 400 == 0 {
        let q = y / 400;
        assert(y == 100 * (4 * q));
    }
}

/// The leap years counted by the three quotients.
proof fn lemma_leap_count(y: int)
    ensures
        (if leap(y) {
            1int
        } else {
            0int
        }) == (y / 4 - (y - 1) / 4) - (y / 100 - (y - 1) / 100) + (y / 400 - (y - 1) / 400),
{
    lemma_step_4(y);
    lemma_step_100(y);
    lemma_step_400(y);
    lemma_multiples(y);
}

/// The months of a year fill it exactly.
pub proof fn law_months_fill_the_year(y: int)
    ensures
        month_start(y, 12) + days_in_month(y, 12) == days_in_year(y),
{
    lemma_month_starts(y);
}

/// Where the months of a year start.
proof fn lemma_month_starts(y: int)
    ensures
        ({
            let l: int = if leap(y) {
                1
            } else {
                0
            };
            &&& month_start(y, 1) == 0
            &&& month_start(y, 2) == 31
            &&& month_start(y, 3) == 59 + l
            &&& month_start(y, 4) == 90 + l
            &&& month_start(y, 5) == 120 + l
            &&& month_start(y, 6) == 151 + l
            &&& month_start(y, 7) == 181 + l
            &&& month_start(y, 8) == 212 + l
            &&& month_start(y, 9) == 243 + l
            &&& month_start(y, 10) == 273 + l
            &&& month_start(y, 11) == 304 + l
            &&& month_start(y, 12) == 334 + l
        }),
{
    reveal_with_fuel(month_start, 13);
}

/// Days before the first of March of a year, from the quotients of that year.
proof fn lemma_march_start(y: int)
    ensures
        year_start(y) + month_start(y, 3) == 365 * y + y / 4 - y / 100 + y / 400 - 719_468,
        year_start(y + 1) == 365 * y + y / 4 - y / 100 + y / 400 - 719_468 + 306,
{
    lemma_leap_count(y);
    lemma_month_starts(y);
}

/// The quotients of a year in a cycle of 400 years.
proof fn lemma_cycle(era: int, yoe: int)
    requires
        0 <= yoe < 400,
    ensures
        ({
            let y = 400 * era + yoe;
            &&& 365 * y + y / 4 - y / 100 + y / 400 == 146_097 * era + 365 * yoe + yoe / 4 - yoe
                / 100
            &&& y % 4 == yoe % 4
            &&& y % 100 == yoe % 100
            &&& y % 400 == yoe
        }),
{
    let y = 400 * era + yoe;
    assert(y / 4 == 100 * era + yoe / 4);
    assert(y / 100 == 4 * era + yoe / 100);
    assert(y / 400 == era);
}

/// The year of a 400-year cycle that starts in March, and the day of that year.
fn year_of_cycle(doe: i64) -> (r: (i64, i64))
    requires
        0 <= doe < 146_097,
    ensures
        ({
            let (yoe, doy) = r;
            &&& 0 <= yoe < 400
            &&& 0 <= doy <= 365
            &&& doe == 365 * yoe + yoe / 4 - yoe / 100 + doy
            &&& doy == 365 ==> (yoe + 1) % 4 == 0 && ((yoe + 1) % 100 != 0 || yoe == 399)
        }),
{
    let century: i64 = if doe == 146_096 {
        3
    } else {
        doe / 36_524
    };
    let rest: i64 = doe - 36_524 * century;
    let quad: i64 = rest / 1461;
    let left: i64 = rest - 1461 * quad;
    let year: i64 = if left == 1460 {
        3
    } else {
        left / 365
    };
    let doy: i64 = left - 365 * year;
    let yoe: i64 = 100 * century + 4 * quad + year;
    proof {
        assert(0 <= century <= 3);
        assert(0 <= rest <= 36_524);
        assert(0 <= quad <= 24);
        assert(0 <= left <= 1460);
        assert(0 <= year <= 3);
        assert(yoe / 4 == 25 * century + quad);
        assert(yoe / 100 == century);
    }
    (yoe, doy)
}

/// The month, counted from March as zero, and the day of the month.
fn month_of_year(doy: i64) -> (r: (i64, i64))
    requires
        0 <= doy <= 365,
    ensures
        ({
            let (mp, day) = r;
            &&& 0 <= mp <= 11
            &&& doy == march_offset(mp as int) + day - 1
            &&& 1 <= day
            &&& mp < 11 ==> day <= march_offset(mp + 1) - march_offset(mp as int)
            &&& mp == 11 ==> day <= 29
        }),
{
    let mp: i64 = (5 * doy + 2) / 153;
    let day: i64 = doy - (153 * mp + 2) / 5 + 1;
    proof {
        assert(0 <= mp <= 11);
        assert((153 * mp + 2) / 5 == march_offset(mp as int));
    }
    (mp, day)
}

/// Days from the first of March to the first of the month that is `mp` months
/// later.
pub open spec fn march_offset(mp: int) -> int {
    if mp <= 0 {
        0
    } else if mp == 1 {
        31
    } else if mp == 2 {
        61
    } else if mp == 3 {
        92
    } else if mp == 4 {
        122
    } else if mp == 5 {
        153
    } else if mp == 6 {
        184
    } else if mp == 7 {
        214
    } else if mp == 8 {
        245
    } else if mp == 9 {
        275
    } else if mp == 10 {
        306
    } else {
        337
    }
}

/// The date `day` days into the month `mp` after the March of `y`.
proof fn lemma_date(y: int, mp: int, day: int, doy: int)
    requires
        0 <= mp <= 11,
        0 <= doy <= 365,
        doy == march_offset(mp) + day - 1,
        1 <= day,
        mp < 11 ==> day <= march_offset(mp + 1) - march_offset(mp),
        mp == 11 ==> day <= 29,
        doy == 365 ==> leap(y + 1),
    ensures
        ({
            let month = if mp < 10 {
                mp + 3
            } else {
                mp - 9
            };
            let year = if month <= 2 {
                y + 1
            } else {
                y
            };
            &&& 1 <= month <= 12
            &&& 1 <= day <= days_in_month(year, month)
            &&& year_start(year) + month_start(year, month) + day - 1 == 365 * y + y / 4 - y / 100
                + y / 400 - 719_468 + doy
        }),
{
    lemma_march_start(y);
    lemma_month_starts(y);
    lemma_month_starts(y + 1);
}

/// Append `n` with at least `width` characters to `out`.
fn push_padded(out: &mut String, n: i64, width: usize)
    requires
        i64::MIN < n,
        1 <= width <= 4,
    ensures
        final(out)@ == old(out)@ + padded_number(n as int, width as int),
{
    let ghost start = out@;
    let (size, room): (u64, usize) = if n < 0 {
        ((-n) as u64, width - 1)
    } else {
        (n as u64, width)
    };
    let digits = decimal(size);
    let ghost whole = padded_number(n as int, width as int);
    if n < 0 {
        out.push('-');
    }
    let ghost head = out@;
    let ghost body = zero_filled(numeral(size as nat), room as int);
    let len: usize = crate::text::chars_of(digits.as_str()).len();
    let mut missing: usize = if len < room {
        room - len
    } else {
        0
    };
    let ghost mut tail = digits@;
    let ghost mut zeros = Seq::<char>::empty();
    while missing > 0
        invariant
            out@ == head + zeros,
            tail == zeros + digits@,
            zero_filled(digits@, room as int) == zero_filled(tail, room as int),
            missing > 0 ==> tail.len() + missing == room,
            missing == 0 ==> tail.len() >= room,
            forall|i: int| 0 <= i < zeros.len() ==> zeros[i] == '0',
        decreases missing,
    {
        out.push('0');
        proof {
            assert(seq!['0'] + tail =~= zeros.push('0') + digits@);
            tail = zeros.push('0') + digits@;
            zeros = zeros.push('0');
            assert(out@ =~= head + zeros);
        }
        missing = missing - 1;
    }
    out.append(digits.as_str());
    proof {
        assert(zero_filled(tail, room as int) == tail);
        assert(out@ =~= head + tail);
        assert(out@ =~= start + whole);
    }
}

/// The year, month and day of a day number.
fn civil_date(days: i64) -> (r: (i64, i64, i64))
    requires
        -200_000_000_000_000 <= days <= 200_000_000_000_000,
    ensures
        ({
            let (year, month, day) = r;
            &&& 1 <= month <= 12
            &&& 1 <= day <= days_in_month(year as int, month as int)
            &&& year_start(year as int) + month_start(year as int, month as int) + day - 1 == days
            &&& -1_000_000_000_000 <= year <= 1_000_000_000_000
        }),
{
    // Years that start in March, in cycles of 400.
    let z: i64 = days + 719_468;
    let mut era: i64 = z / 146_097;
    let mut doe: i64 = z % 146_097;
    if doe < 0 {
        doe = doe + 146_097;
        era = era - 1;
    }
    assert(z == 146_097 * era + doe);
    let (yoe, doy) = year_of_cycle(doe);
    let (mp, day) = month_of_year(doy);
    let month: i64 = if mp < 10 {
        mp + 3
    } else {
        mp - 9
    };
    let shift: i64 = if month <= 2 {
        1
    } else {
        0
    };
    let year: i64 = yoe + era * 400 + shift;
    proof {
        let y = 400 * era + yoe;
        lemma_cycle(era as int, yoe as int);
        if doy == 365 {
            lemma_leap_after(era as int, yoe as int);
        }
        lemma_date(y, mp as int, day as int, doy as int);
    }
    (year, month, day)
}

proof fn lemma_leap_after(era: int, yoe: int)
    requires
        0 <= yoe < 400,
        (yoe + 1) % 4 == 0,
        (yoe + 1) % 100 != 0 || yoe == 399,
    ensures
        leap(400 * era + yoe + 1),
{
    let y = 400 * era + yoe + 1;
    if yoe == 399 {
        assert(y == 400 * (era + 1));
        lemma_multiples(y);
    } else {
        lemma_cycle(era, yoe + 1);
    }
}

/// The day number of a second, and the hour, minute and second of that day.
fn split_epoch(epoch: i64) -> (r: (i64, i64, i64, i64))
    ensures
        ({
            let (days, hour, minute, second) = r;
            &&& epoch == days * 86_400 + hour * 3600 + minute * 60 + second
            &&& 0 <= hour < 24
            &&& 0 <= minute < 60
            &&& 0 <= second < 60
            &&& -200_000_000_000_000 <= days <= 200_000_000_000_000
        }),
{
    let mut days: i64 = epoch / 86_400;
    let mut secs: i64 = epoch % 86_400;
    if secs < 0 {
        secs = secs + 86_400;
        days = days - 1;
    }
    (days, secs / 3600, secs % 3600 / 60, secs % 60)
}

fn render(year: i64, month: i64, day: i64, hour: i64, minute: i64, second: i64) -> (r: String)
    requires
        i64::MIN < year,
        i64::MIN < month,
        i64::MIN < day,
        i64::MIN < hour,
        i64::MIN < minute,
        i64::MIN < second,
    ensures
        r@ == moment_text(
            Moment {
                year: year as int,
                month: month as int,
                day: day as int,
                hour: hour as int,
                minute: minute as int,
                second: second as int,
            },
        ),
{
    let mut out = String::new();
    push_padded(&mut out, year, 4);
    assert(out@ =~= padded_number(year as int, 4));
    out.append("-");
    push_padded(&mut out, month, 2);
    out.append("-");
    push_padded(&mut out, day, 2);
    out.append("T");
    push_padded(&mut out, hour, 2);
    out.append(":");
    push_padded(&mut out, minute, 2);
    out.append(":");
    push_padded(&mut out, second, 2);
    out.append("Z");
    out
}

/// Format epoch seconds as `YYYY-MM-DDTHH:MM:SSZ` (UTC, RFC 3339), exact for
/// every `i64`, including pre-1970 timestamps.
pub fn utc(epoch: i64) -> (r: String)
    ensures
        r@ == utc_text(epoch as int),
        valid_moment(moment_at(epoch as int)),
        epoch_of(moment_at(epoch as int)) == epoch,
{
    let (days, hour, minute, second) = split_epoch(epoch);
    let (year, month, day) = civil_date(days);
    let ghost t = Moment {
        year: year as int,
        month: month as int,
        day: day as int,
        hour: hour as int,
        minute: minute as int,
        second: second as int,
    };
    proof {
        assert(valid_moment(t));
        assert(day_number(t) == days);
        assert(epoch_of(t) == epoch);
        law_moments_are_unique(t, moment_at(epoch as int));
    }
    render(year, month, day, hour, minute, second)
}

proof fn lemma_years_ascend(y: int, z: int)
    requires
        y < z,
    ensures
        year_start(y) + days_in_year(y) <= year_start(z),
    decreases z - y,
{
    law_years_have_their_length(y);
    if y + 1 < z {
        lemma_years_ascend(y + 1, z);
    }
}

proof fn lemma_months_ascend(y: int, m: int, n: int)
    requires
        1 <= m < n <= 12,
    ensures
        month_start(y, m) + days_in_month(y, m) <= month_start(y, n),
    decreases n - m,
{
    if m < n - 1 {
        lemma_months_ascend(y, m, n - 1);
    }
}

proof fn lemma_day_in_year(t: Moment)
    requires
        valid_moment(t),
    ensures
        0 <= month_start(t.year, t.month) + t.day - 1 < days_in_year(t.year),
{
    lemma_month_starts(t.year);
    law_months_fill_the_year(t.year);
    if t.month < 12 {
        lemma_months_ascend(t.year, t.month, 12);
    }
    if t.month > 1 {
        lemma_months_ascend(t.year, 1, t.month);
    }
}

proof fn lemma_same_day(s: Moment, t: Moment)
    requires
        valid_moment(s),
        valid_moment(t),
        day_number(s) == day_number(t),
    ensures
        s.year == t.year,
        s.month == t.month,
        s.day == t.day,
{
    lemma_day_in_year(s);
    lemma_day_in_year(t);
    if s.year < t.year {
        lemma_years_ascend(s.year, t.year);
    } else if t.year < s.year {
        lemma_years_ascend(t.year, s.year);
    }
    if s.month < t.month {
        lemma_months_ascend(s.year, s.month, t.month);
    } else if t.month < s.month {
        lemma_months_ascend(s.year, t.month, s.month);
    }
}

proof fn lemma_split_second(d: int, h: int, m: int, s: int, d2: int, h2: int, m2: int, s2: int)
    requires
        0 <= h < 24,
        0 <= m < 60,
        0 <= s < 60,
        0 <= h2 < 24,
        0 <= m2 < 60,
        0 <= s2 < 60,
        d * 86_400 + h * 3600 + m * 60 + s == d2 * 86_400 + h2 * 3600 + m2 * 60 + s2,
    ensures
        d == d2,
        h == h2,
        m == m2,
        s == s2,
{
    assert(d == d2);
    assert(h == h2);
}

/// Every second belongs to exactly one moment.
pub proof fn law_moments_are_unique(s: Moment, t: Moment)
    requires
        valid_moment(s),
        valid_moment(t),
        epoch_of(s) == epoch_of(t),
    ensures
        s == t,
{
    lemma_split_second(
        day_number(s),
        s.hour,
        s.minute,
        s.second,
        day_number(t),
        t.hour,
        t.minute,
        t.second,
    );
    lemma_same_day(s, t);
}

/// The moment of a second.
pub open spec fn moment_at(epoch: int) -> Moment {
    choose|t: Moment| #[trigger] valid_moment(t) && epoch_of(t) == epoch
}

/// How a second is written.
pub open spec fn utc_text(epoch: int) -> Seq<char> {
    moment_text(moment_at(epoch))
}

/// The time in seconds: what the `SNAPREF_TIME` setting says where it is a
/// number, the clock otherwise.
pub fn now(setting: Option<&str>, clock: i64) -> (r: i64)
    ensures
        r == (match setting {
            Some(text) => match i64_value(trimmed(text@)) {
                Some(n) => n,
                None => clock,
            },
            None => clock,
        }),
{
    match setting {
        Some(text) => {
            let t = trim(text);
            match parse_i64(t.as_str()) {
                Some(n) => n,
                None => clock,
            }
        },
        None => clock,
    }
}

} // verus!
