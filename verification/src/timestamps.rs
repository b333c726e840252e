//! What printed times and dates say.

use vstd::prelude::*;

use crate::clock::{
    date_of, date_time_text, days_to, delta, delta_text, is_date, is_date_of, leap, month_len,
    month_start, time_text, year_start,
};
use crate::numerals::{
    is_numeral, law_decimal_reads_back, law_padded_number_reads_back, law_padding_is_only_filling,
    lemma_two_digits, worth,
};
use crate::text::{decimal, zero_padded};

verus! {

/// Whether the text is a time of day: two digits each for the hour, the minute and the second, and
/// the number of microseconds behind a dot.
pub open spec fn shows_time(text: Seq<char>, hour: int, minute: int, second: int, usec: int) -> bool {
    &&& text.len() >= 15
    &&& text[2] == ':' && text[5] == ':' && text[8] == '.'
    &&& is_numeral(text.subrange(0, 2), 10) && worth(text.subrange(0, 2), 10) == hour
    &&& is_numeral(text.subrange(3, 5), 10) && worth(text.subrange(3, 5), 10) == minute
    &&& is_numeral(text.subrange(6, 8), 10) && worth(text.subrange(6, 8), 10) == second
    &&& is_numeral(text.skip(9), 10) && worth(text.skip(9), 10) == usec
    &&& usec < 1_000_000 ==> text.len() == 15
}

/// A time of day has an hour below 24, a minute and a second below 60, which make up the seconds
/// since midnight.
pub proof fn law_time_of_day(sec: u64, usec: u64)
    ensures
        exists|hour: int, minute: int, second: int|
            0 <= hour < 24 && 0 <= minute < 60 && 0 <= second < 60 && hour * 3600 + minute * 60
                + second == sec as int % 86400 && #[trigger] shows_time(
                time_text(sec, usec),
                hour,
                minute,
                second,
                usec as int,
            ),
{
    let hour = sec as int / 3600 % 24;
    let minute = sec as int / 60 % 60;
    let second = sec as int % 60;
    lemma_parts(sec as int);
    let text = time_text(sec, usec);
    let h = zero_padded(hour as nat, 2);
    let m = zero_padded(minute as nat, 2);
    let s = zero_padded(second as nat, 2);
    let u = zero_padded(usec as nat, 6);
    lemma_two_digits(hour as nat);
    lemma_two_digits(minute as nat);
    lemma_two_digits(second as nat);
    lemma_six_digits(usec as nat);
    law_padded_number_reads_back(hour as nat, 2);
    law_padded_number_reads_back(minute as nat, 2);
    law_padded_number_reads_back(second as nat, 2);
    law_padded_number_reads_back(usec as nat, 6);
    lemma_time(h, m, s, u, text);
    assert(shows_time(text, hour, minute, second, usec as int));
}

proof fn lemma_parts(sec: int)
    requires
        0 <= sec,
    ensures
        (sec / 3600 % 24) * 3600 + (sec / 60 % 60) * 60 + sec % 60 == sec % 86400,
        (sec % 86400) / 3600 == sec / 3600 % 24,
        (sec % 86400) / 60 % 60 == sec / 60 % 60,
        (sec % 86400) % 60 == sec % 60,
{
}

/// The pieces of a time stand at their places.
proof fn lemma_time(h: Seq<char>, m: Seq<char>, s: Seq<char>, u: Seq<char>, text: Seq<char>)
    requires
        h.len() == 2,
        m.len() == 2,
        s.len() == 2,
        u.len() >= 6,
        text == h + ":"@ + m + ":"@ + s + "."@ + u,
    ensures
        text.len() == 9 + u.len(),
        text[2] == ':',
        text[5] == ':',
        text[8] == '.',
        text.subrange(0, 2) == h,
        text.subrange(3, 5) == m,
        text.subrange(6, 8) == s,
        text.skip(9) == u,
{
    reveal_strlit(":");
    reveal_strlit(".");
    assert(text.subrange(0, 2) =~= h);
    assert(text.subrange(3, 5) =~= m);
    assert(text.subrange(6, 8) =~= s);
    assert(text.skip(9) =~= u);
}

/// A number below a million takes six digits when it is filled up to six.
proof fn lemma_six_digits(n: nat)
    ensures
        n < 1_000_000 ==> zero_padded(n, 6).len() == 6,
{
    reveal_with_fuel(decimal, 6);
}

/// The time of day is the same a whole number of days later.
pub proof fn law_time_repeats_each_day(sec: u64, later: u64, usec: u64)
    requires
        sec as int % 86400 == later as int % 86400,
    ensures
        time_text(sec, usec) == time_text(later, usec),
{
    lemma_parts(sec as int);
    lemma_parts(later as int);
}

/// Times of day that differ are printed differently.
pub proof fn law_times_are_told_apart(sec: u64, usec: u64, other: u64, other_usec: u64)
    requires
        time_text(sec, usec) == time_text(other, other_usec),
    ensures
        sec as int % 86400 == other as int % 86400,
        usec == other_usec,
{
    law_time_of_day(sec, usec);
    law_time_of_day(other, other_usec);
}

/// The days from the first of January 1970 to a day of the Gregorian calendar. A year is counted
/// from March on, so that the day that is left out or put in is its last.
pub open spec fn gregorian(year: int, month: int, day: int) -> int {
    let y = if month <= 2 {
        year - 1
    } else {
        year
    };
    let m = if month <= 2 {
        month + 9
    } else {
        month - 3
    };
    365 * y + y / 4 - y / 100 + y / 400 + (153 * m + 2) / 5 + day - 1 - 719468
}

/// The number of a day is that of the Gregorian calendar.
pub proof fn law_days_are_gregorian(year: int, month: int, day: int)
    requires
        1970 <= year,
        1 <= month <= 12,
    ensures
        days_to(year, month, day) == gregorian(year, month, day),
        gregorian(year, month, month_len(year, month)) + 1 == if month < 12 {
            gregorian(year, month + 1, 1)
        } else {
            gregorian(year + 1, 1, 1)
        },
{
    lemma_years(year);
    reveal_with_fuel(month_start, 13);
    assert(leap(year) == (year / 4 - (year - 1) / 4 - year / 100 + (year - 1) / 100 + year / 400 - (
    year - 1) / 400 == 1));
    assert(0 <= year / 4 - (year - 1) / 4 - year / 100 + (year - 1) / 100 + year / 400 - (year - 1)
        / 400 <= 1);
}

proof fn lemma_years(year: int)
    requires
        1970 <= year,
    ensures
        year_start(year) == gregorian(year, 1, 1),
    decreases year,
{
    if year > 1970 {
        lemma_years(year - 1);
    }
}

/// Every number of days has its date in the Gregorian calendar: the day with that number, in a
/// month that has it.
pub proof fn law_date_is_gregorian(days: i64)
    requires
        0 <= days,
    ensures
        ({
            let (year, month, day) = date_of(days);
            &&& 1970 <= year
            &&& 1 <= month <= 12
            &&& 1 <= day
            &&& gregorian(year as int, month as int, day as int) == days
            &&& days < if month < 12 {
                gregorian(year as int, month + 1, 1)
            } else {
                gregorian(year + 1, 1, 1)
            }
        }),
{
    let (y, m, d) = lemma_has_date(days as int);
    lemma_years(y);
    law_days_are_gregorian(y, m, d);
    assert(y <= 1970 + days);
    let date = (y as i64, m as u32, d as u32);
    assert(is_date_of(date, days));
    let found = date_of(days);
    assert(is_date_of(found, days));
    law_days_are_gregorian(found.0 as int, found.1 as int, found.2 as int);
}

/// There is a date for every number of days.
proof fn lemma_has_date(days: int) -> (date: (int, int, int))
    requires
        0 <= days,
    ensures
        is_date(date.0, date.1, date.2),
        days_to(date.0, date.1, date.2) == days,
        date.0 <= 1970 + days,
    decreases days,
{
    if days == 0 {
        (1970, 1, 1)
    } else {
        let (y, m, d) = lemma_has_date(days - 1);
        law_days_are_gregorian(y, m, d);
        law_days_are_gregorian(y, m, month_len(y, m));
        if d < month_len(y, m) {
            (y, m, d + 1)
        } else if m < 12 {
            law_days_are_gregorian(y, m + 1, 1);
            (y, m + 1, 1)
        } else {
            law_days_are_gregorian(y + 1, 1, 1);
            (y + 1, 1, 1)
        }
    }
}

/// A date with the time is the date of the day, in digits with dashes between them, and behind a
/// blank the time of day as it is printed alone.
pub proof fn law_date_comes_before_time(sec: u64, usec: u64)
    requires
        sec <= i64::MAX,
    ensures
        ({
            let (year, month, day) = date_of((sec / 86400) as i64);
            date_time_text(sec, usec) == zero_padded(year as nat, 4) + seq!['-'] + zero_padded(
                month as nat,
                2,
            ) + seq!['-'] + zero_padded(day as nat, 2) + seq![' '] + time_text(sec, usec)
        }),
{
    lemma_parts(sec as int);
    reveal_strlit("-");
    reveal_strlit(" ");
    reveal_strlit(":");
    reveal_strlit(".");
    assert("-"@ =~= seq!['-']);
    assert(" "@ =~= seq![' ']);
    let (year, month, day) = date_of((sec / 86400) as i64);
    let front = zero_padded(year as nat, 4) + "-"@ + zero_padded(month as nat, 2) + "-"@
        + zero_padded(day as nat, 2) + " "@;
    let h = zero_padded((sec / 3600 % 24) as nat, 2);
    let m = zero_padded((sec / 60 % 60) as nat, 2);
    let s = zero_padded((sec % 60) as nat, 2);
    let u = zero_padded(usec as nat, 6);
    assert(date_time_text(sec, usec) == front + h + ":"@ + m + ":"@ + s + "."@ + u);
    assert(front + h + ":"@ + m + ":"@ + s + "."@ + u =~= front + (h + ":"@ + m + ":"@ + s + "."@
        + u));
}

/// The time between two timestamps is the difference of their microseconds.
pub proof fn law_delta_is_the_difference(sec: u64, usec: u64, from: (i64, u64))
    requires
        sec <= i64::MAX,
        usec <= i64::MAX,
        from.1 <= i64::MAX,
    ensures
        delta(sec, usec, from) == (sec * 1_000_000 + usec) - (from.0 * 1_000_000 + from.1),
{
}

/// The time since another one reads back: the microseconds in six digits behind a dot, the seconds
/// in at least three characters before it, with a minus where it is a second or more before.
pub proof fn law_delta_reads_back(micros: int)
    ensures
        ({
            let text = delta_text(micros);
            let size = if micros < 0 {
                -micros
            } else {
                micros
            };
            let dot = text.len() - 7;
            let start: int = if micros <= -1_000_000 {
                1
            } else {
                0
            };
            &&& dot >= 3
            &&& text[dot] == '.'
            &&& is_numeral(text.skip(dot + 1), 10)
            &&& worth(text.skip(dot + 1), 10) == size % 1_000_000
            &&& start == 1 ==> text[0] == '-'
            &&& is_numeral(text.subrange(start, dot), 10)
            &&& worth(text.subrange(start, dot), 10) == size / 1_000_000
            &&& dot > 3 ==> text[start] != '0'
        }),
{
    let text = delta_text(micros);
    let size = if micros < 0 {
        -micros
    } else {
        micros
    };
    let whole = size / 1_000_000;
    let start: int = if micros <= -1_000_000 {
        1
    } else {
        0
    };
    let front = if micros < 0 && whole > 0 {
        zero_padded(whole as nat, 2)
    } else {
        zero_padded(whole as nat, 3)
    };
    let rest = zero_padded((size % 1_000_000) as nat, 6);
    lemma_six_digits((size % 1_000_000) as nat);
    law_padded_number_reads_back((size % 1_000_000) as nat, 6);
    law_padded_number_reads_back(whole as nat, 2);
    law_padded_number_reads_back(whole as nat, 3);
    reveal_strlit(".");
    reveal_strlit("-");
    law_decimal_reads_back(whole as nat);
    law_padding_is_only_filling(decimal(whole as nat), 2, '0');
    law_padding_is_only_filling(decimal(whole as nat), 3, '0');
    assert(text[start] == front[0]);
    assert(text.skip(text.len() - 6) =~= rest);
    assert(text.subrange(start, text.len() - 7) =~= front);
}

/// The seconds of a timestamp as a signed number.
pub open spec fn signed(sec: u64) -> int {
    if sec < 0x8000_0000_0000_0000 {
        sec as int
    } else {
        sec - 0x1_0000_0000_0000_0000
    }
}

/// With a date, the seconds of a timestamp are taken as a signed number, and the time of day is what
/// is left of them behind whole days, before 1970 too.
pub proof fn law_time_behind_a_date(sec: u64, usec: u64)
    ensures
        ({
            let text = date_time_text(sec, usec);
            let (year, month, day) = date_of((signed(sec) / 86400) as i64);
            let front = zero_padded(year as nat, 4) + seq!['-'] + zero_padded(month as nat, 2)
                + seq!['-'] + zero_padded(day as nat, 2) + seq![' '];
            let noon = (signed(sec) % 86400) as u64;
            text == front + time_text(noon, usec)
        }),
{
    lemma_signed(sec);
    let noon = (signed(sec) % 86400) as u64;
    lemma_parts(noon as int);
    reveal_strlit("-");
    reveal_strlit(" ");
    assert("-"@ =~= seq!['-']);
    assert(" "@ =~= seq![' ']);
    let (year, month, day) = date_of((signed(sec) / 86400) as i64);
    let front = zero_padded(year as nat, 4) + "-"@ + zero_padded(month as nat, 2) + "-"@
        + zero_padded(day as nat, 2) + " "@;
    let h = zero_padded((noon / 3600 % 24) as nat, 2);
    let m = zero_padded((noon / 60 % 60) as nat, 2);
    let s = zero_padded((noon % 60) as nat, 2);
    let u = zero_padded(usec as nat, 6);
    assert(date_time_text(sec, usec) == front + h + ":"@ + m + ":"@ + s + "."@ + u);
    assert(front + h + ":"@ + m + ":"@ + s + "."@ + u =~= front + (h + ":"@ + m + ":"@ + s + "."@
        + u));
}

/// A day before 1970 is shown as one of January 1970, by its number in 32 bits.
pub proof fn law_days_before_1970(days: i64)
    requires
        -0x1_0000_0000 <= days < 0,
    ensures
        ({
            let (year, month, day) = date_of(days);
            year == 1970 && month == 1 && day == (days + 1) % 0x1_0000_0000
        }),
{
    let next: i64 = (days + 1) as i64;
    let date = (1970i64, 1u32, next as u32);
    assert(is_date_of(date, days));
    assert(is_date_of(date_of(days), days));
    assert(next as u32 == if next < 0 {
        next + 0x1_0000_0000
    } else {
        0
    }) by (bit_vector)
        requires
            -0x1_0000_0000 < next <= 0,
    ;
}

/// The time between two timestamps is the difference of their microseconds, with all parts taken as
/// signed numbers.
pub proof fn law_delta_of_signed_times(sec: u64, usec: u64, from: (i64, u64))
    ensures
        delta(sec, usec, from) == (signed(sec) * 1_000_000 + signed(usec)) - (from.0 * 1_000_000
            + signed(from.1)),
{
    lemma_signed(sec);
    lemma_signed(usec);
    lemma_signed(from.1);
}

proof fn lemma_signed(n: u64)
    ensures
        n as i64 == signed(n),
{
    assert(n >= 0x8000_0000_0000_0000 ==> n as i64 == n - 0x1_0000_0000_0000_0000) by (bit_vector);
}

} // verus!
