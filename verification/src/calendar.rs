//! The calendar as a running clock: one second after a moment comes the next one,
//! with the carries that a wall calendar has.

use vstd::prelude::*;

use crate::decimal::numeral;
use crate::timefmt::{
    day_number, epoch_of, law_moments_are_unique, law_months_fill_the_year,
    law_years_have_their_length, moment_at, moment_text, month_start, padded_number, utc_text,
    valid_moment, zero_filled, Moment,
};

verus! {

/// The last day of a month.
pub open spec fn last_day(year: int, month: int) -> int {
    if month == 2 && (year % 400 == 0 || (year % 4 == 0 && year % 100 != 0)) {
        29
    } else {
        seq![31int, 28, 31, 30, 31, 30, 31, 31, 30, 31, 30, 31][month - 1]
    }
}

/// The first second of the day after that of `t`.
pub open spec fn next_midnight(t: Moment) -> Moment {
    let midnight = Moment { hour: 0, minute: 0, second: 0, ..t };
    if t.day < last_day(t.year, t.month) {
        Moment { day: t.day + 1, ..midnight }
    } else if t.month < 12 {
        Moment { month: t.month + 1, day: 1, ..midnight }
    } else {
        Moment { year: t.year + 1, month: 1, day: 1, ..midnight }
    }
}

/// The second after `t`.
pub open spec fn one_second_later(t: Moment) -> Moment {
    if t.second < 59 {
        Moment { second: t.second + 1, ..t }
    } else if t.minute < 59 {
        Moment { minute: t.minute + 1, second: 0, ..t }
    } else if t.hour < 23 {
        Moment { hour: t.hour + 1, minute: 0, second: 0, ..t }
    } else {
        next_midnight(t)
    }
}

/// The start of 1970.
pub open spec fn start_of_1970() -> Moment {
    Moment { year: 1970, month: 1, day: 1, hour: 0, minute: 0, second: 0 }
}

proof fn lemma_later(t: Moment)
    requires
        valid_moment(t),
    ensures
        valid_moment(one_second_later(t)),
        epoch_of(one_second_later(t)) == epoch_of(t) + 1,
{
    let n = one_second_later(t);
    if t.second == 59 && t.minute == 59 && t.hour == 23 {
        law_years_have_their_length(t.year);
        law_months_fill_the_year(t.year);
        assert(month_start(t.year + 1, 1) == 0);
        assert(day_number(n) == day_number(t) + 1);
    }
}

/// The second before a moment.
spec fn one_second_earlier(t: Moment) -> Moment {
    let evening = Moment { hour: 23, minute: 59, second: 59, ..t };
    if t.second > 0 {
        Moment { second: t.second - 1, ..t }
    } else if t.minute > 0 {
        Moment { minute: t.minute - 1, second: 59, ..t }
    } else if t.hour > 0 {
        Moment { hour: t.hour - 1, minute: 59, second: 59, ..t }
    } else if t.day > 1 {
        Moment { day: t.day - 1, ..evening }
    } else if t.month > 1 {
        Moment { month: t.month - 1, day: last_day(t.year, t.month - 1), ..evening }
    } else {
        Moment { year: t.year - 1, month: 12, day: 31, ..evening }
    }
}

proof fn lemma_earlier(t: Moment)
    requires
        valid_moment(t),
    ensures
        valid_moment(one_second_earlier(t)),
        epoch_of(one_second_earlier(t)) == epoch_of(t) - 1,
{
    let e = one_second_earlier(t);
    assert(one_second_later(e) == t);
    lemma_later(e);
}

proof fn lemma_every_second(e: int) -> (t: Moment)
    ensures
        valid_moment(t),
        epoch_of(t) == e,
    decreases (if e < 0 { -e } else { e }),
{
    if e == 0 {
        law_years_have_their_length(1970);
        start_of_1970()
    } else if e > 0 {
        let before = lemma_every_second(e - 1);
        lemma_later(before);
        one_second_later(before)
    } else {
        let after = lemma_every_second(e + 1);
        lemma_earlier(after);
        one_second_earlier(after)
    }
}

proof fn lemma_moment_at(e: int)
    ensures
        valid_moment(moment_at(e)),
        epoch_of(moment_at(e)) == e,
{
    let t = lemma_every_second(e);
    assert(valid_moment(t) && epoch_of(t) == e);
}

/// The clock starts with 1970 and ticks: one second on, it shows the moment that
/// is one second later on the calendar.
pub proof fn law_the_clock_ticks(e: int)
    ensures
        moment_at(0) == start_of_1970(),
        moment_at(e + 1) == one_second_later(moment_at(e)),
{
    lemma_moment_at(0);
    law_years_have_their_length(1970);
    law_moments_are_unique(moment_at(0), start_of_1970());
    lemma_moment_at(e);
    lemma_moment_at(e + 1);
    lemma_later(moment_at(e));
    law_moments_are_unique(moment_at(e + 1), one_second_later(moment_at(e)));
}

/// The character of the digit `d`.
pub open spec fn digit_char(d: int) -> char {
    seq!['0', '1', '2', '3', '4', '5', '6', '7', '8', '9'][d]
}

proof fn lemma_digit(d: int)
    requires
        0 <= d < 10,
    ensures
        crate::decimal::digit(d as nat) == digit_char(d),
{
}

proof fn lemma_two_digits(n: int)
    requires
        0 <= n < 100,
    ensures
        padded_number(n, 2) =~= seq![digit_char(n / 10), digit_char(n % 10)],
{
    reveal_with_fuel(numeral, 3);
    reveal_with_fuel(zero_filled, 3);
    lemma_digit(n / 10);
    lemma_digit(n % 10);
    lemma_digit(0);
}

proof fn lemma_four_digits(n: int)
    requires
        0 <= n < 10_000,
    ensures
        padded_number(n, 4) =~= seq![
            digit_char(n / 1000),
            digit_char(n / 100 % 10),
            digit_char(n / 10 % 10),
            digit_char(n % 10),
        ],
{
    reveal_with_fuel(numeral, 5);
    reveal_with_fuel(zero_filled, 5);
    lemma_digit(0);
    lemma_digit(n / 1000);
    lemma_digit(n / 100 % 10);
    lemma_digit(n / 10 % 10);
    lemma_digit(n % 10);
    assert(n / 10 / 10 == n / 100);
    assert(n / 10 / 10 / 10 == n / 1000);
}

/// In the years of four digits a second is written in twenty characters, year
/// first, with a `T` before the time of day and a `Z` behind it.
pub proof fn law_moments_are_written_in_digits(e: int)
    requires
        0 <= moment_at(e).year <= 9999,
    ensures
        ({
            let t = moment_at(e);
            utc_text(e) == seq![
                digit_char(t.year / 1000),
                digit_char(t.year / 100 % 10),
                digit_char(t.year / 10 % 10),
                digit_char(t.year % 10),
                '-',
                digit_char(t.month / 10),
                digit_char(t.month % 10),
                '-',
                digit_char(t.day / 10),
                digit_char(t.day % 10),
                'T',
                digit_char(t.hour / 10),
                digit_char(t.hour % 10),
                ':',
                digit_char(t.minute / 10),
                digit_char(t.minute % 10),
                ':',
                digit_char(t.second / 10),
                digit_char(t.second % 10),
                'Z',
            ]
        }),
{
    lemma_moment_at(e);
    let t = moment_at(e);
    lemma_four_digits(t.year);
    lemma_two_digits(t.month);
    lemma_two_digits(t.day);
    lemma_two_digits(t.hour);
    lemma_two_digits(t.minute);
    lemma_two_digits(t.second);
    reveal_strlit("-");
    reveal_strlit(":");
    reveal_strlit("T");
    reveal_strlit("Z");
    assert(moment_text(t) =~= utc_text(e));
    assert(utc_text(e).len() == 20);
    assert(utc_text(e) =~= seq![
        digit_char(t.year / 1000),
        digit_char(t.year / 100 % 10),
        digit_char(t.year / 10 % 10),
        digit_char(t.year % 10),
        '-',
        digit_char(t.month / 10),
        digit_char(t.month % 10),
        '-',
        digit_char(t.day / 10),
        digit_char(t.day % 10),
        'T',
        digit_char(t.hour / 10),
        digit_char(t.hour % 10),
        ':',
        digit_char(t.minute / 10),
        digit_char(t.minute % 10),
        ':',
        digit_char(t.second / 10),
        digit_char(t.second % 10),
        'Z',
    ]);
}

} // verus!
