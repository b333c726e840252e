//! Dates and timestamps.

use vstd::prelude::*;

use crate::text::{push_text, push_zero_padded, zero_padded};

verus! {

/// Whether the year has a 29th of February.
pub open spec fn leap(year: int) -> bool {
    (year % 4 == 0 && year % 100 != 0) || year % 400 == 0
}

/// Whether the year has a leap day.
pub fn is_leap(year: i64) -> (yes: bool)
    ensures
        yes == leap(year as int),
{
    (year % 4 == 0 && year % 100 != 0) || year % 400 == 0
}

pub open spec fn year_len(year: int) -> int {
    if leap(year) {
        366
    } else {
        365
    }
}

/// The number of days from the first of January 1970 to that of the year.
pub open spec fn year_start(year: int) -> int
    decreases year,
{
    if year <= 1970 {
        0
    } else {
        year_start(year - 1) + year_len(year - 1)
    }
}

pub open spec fn month_len(year: int, month: int) -> int {
    if month == 2 {
        if leap(year) {
            29
        } else {
            28
        }
    } else if month == 4 || month == 6 || month == 9 || month == 11 {
        30
    } else {
        31
    }
}

/// The number of days in the year before the month.
pub open spec fn month_start(year: int, month: int) -> int
    decreases month,
{
    if month <= 1 {
        0
    } else {
        month_start(year, month - 1) + month_len(year, month - 1)
    }
}

/// Whether there is such a day.
pub open spec fn is_date(year: int, month: int, day: int) -> bool {
    &&& 1970 <= year
    &&& 1 <= month <= 12
    &&& 1 <= day <= month_len(year, month)
}

/// The number of days from the first of January 1970 to the day.
pub open spec fn days_to(year: int, month: int, day: int) -> int {
    year_start(year) + month_start(year, month) + day - 1
}

/// Whether the date is that of the day with the number. A day before the first of January 1970
/// has no date; its number, in 32 bits, stands in the place of a day of January 1970.
pub open spec fn is_date_of(date: (i64, u32, u32), days: i64) -> bool {
    if days >= 0 {
        &&& is_date(date.0 as int, date.1 as int, date.2 as int)
        &&& days_to(date.0 as int, date.1 as int, date.2 as int) == days
    } else {
        date == (1970i64, 1u32, (days + 1) as u32)
    }
}

/// The date of the day with the number.
pub open spec fn date_of(days: i64) -> (i64, u32, u32) {
    choose|date: (i64, u32, u32)| is_date_of(date, days)
}

proof fn lemma_date_of(date: (i64, u32, u32), days: i64)
    requires
        is_date_of(date, days),
    ensures
        date == date_of(days),
{
    if days >= 0 {
        let other = date_of(days);
        law_date_is_unique(
            (date.0 as int, date.1 as int, date.2 as int),
            (other.0 as int, other.1 as int, other.2 as int),
        );
    }
}

/// Convert days since Unix epoch to (year, month, day).
pub fn epoch_days_to_date(days: i64) -> (date: (i64, u32, u32))
    ensures
        is_date_of(date, days),
        date == date_of(days),
{
    if days < 0 {
        let date: (i64, u32, u32) = (1970, 1, (days + 1) as u32);
        proof {
            lemma_date_of(date, days);
        }
        return date;
    }
    let mut y: i64 = 1970;
    let mut d: i64 = days;
    let mut diy: i64 = 365;
    while d >= diy
        invariant
            1970 <= y,
            0 <= d,
            diy == year_len(y as int),
            days == year_start(y as int) + d,
            365 * (y - 1970) + d <= days,
        decreases d,
    {
        d = d - diy;
        y = y + 1;
        diy = if is_leap(y) {
            366
        } else {
            365
        };
    }
    let month_days: [i64; 12] = [
        31,
        if is_leap(y) {
            29
        } else {
            28
        },
        31,
        30,
        31,
        30,
        31,
        31,
        30,
        31,
        30,
        31,
    ];
    let ghost in_year = d;
    let mut m: usize = 0;
    proof {
        lemma_year_months(y as int);
    }
    while d >= month_days[m]
        invariant
            0 <= m < 12,
            0 <= d,
            in_year == month_start(y as int, m + 1) + d,
            in_year < year_len(y as int),
            month_start(y as int, 13) == year_len(y as int),
            forall|i: int| 0 <= i < 12 ==> #[trigger] month_days@[i] == month_len(y as int, i + 1),
        decreases 12 - m,
    {
        d = d - month_days[m];
        m = m + 1;
    }
    let date: (i64, u32, u32) = (y, (m + 1) as u32, (d + 1) as u32);
    proof {
        lemma_date_of(date, days);
    }
    date
}

/// The months make up the year.
proof fn lemma_year_months(year: int)
    ensures
        month_start(year, 13) == year_len(year),
{
    reveal_with_fuel(month_start, 13);
}

/// Every day has one date.
pub proof fn law_date_is_unique(a: (int, int, int), b: (int, int, int))
    requires
        is_date(a.0, a.1, a.2),
        is_date(b.0, b.1, b.2),
        days_to(a.0, a.1, a.2) == days_to(b.0, b.1, b.2),
    ensures
        a == b,
{
    lemma_day_in_year(a.0, a.1, a.2);
    lemma_day_in_year(b.0, b.1, b.2);
    if a.0 < b.0 {
        lemma_year_start_grows(a.0 + 1, b.0);
    } else if b.0 < a.0 {
        lemma_year_start_grows(b.0 + 1, a.0);
    }
    if a.1 < b.1 {
        lemma_month_start_grows(a.0, a.1 + 1, b.1);
    } else if b.1 < a.1 {
        lemma_month_start_grows(a.0, b.1 + 1, a.1);
    }
}

/// A later day has a later date: dates are in the order of their days.
pub proof fn law_dates_are_ordered(a: (int, int, int), b: (int, int, int))
    requires
        is_date(a.0, a.1, a.2),
        is_date(b.0, b.1, b.2),
    ensures
        days_to(a.0, a.1, a.2) < days_to(b.0, b.1, b.2) <==> (a.0 < b.0 || (a.0 == b.0 && (a.1
            < b.1 || (a.1 == b.1 && a.2 < b.2)))),
{
    lemma_day_in_year(a.0, a.1, a.2);
    lemma_day_in_year(b.0, b.1, b.2);
    if a.0 < b.0 {
        lemma_year_start_grows(a.0 + 1, b.0);
    } else if b.0 < a.0 {
        lemma_year_start_grows(b.0 + 1, a.0);
    }
    if a.1 < b.1 {
        lemma_month_start_grows(a.0, a.1 + 1, b.1);
    } else if b.1 < a.1 {
        lemma_month_start_grows(a.0, b.1 + 1, a.1);
    }
}

proof fn lemma_year_start_grows(from: int, to: int)
    requires
        from <= to,
    ensures
        year_start(from) <= year_start(to),
    decreases to - from,
{
    if from < to {
        lemma_year_start_grows(from, to - 1);
    }
}

proof fn lemma_month_start_grows(year: int, from: int, to: int)
    requires
        from <= to,
    ensures
        month_start(year, from) <= month_start(year, to),
    decreases to - from,
{
    if from < to {
        lemma_month_start_grows(year, from, to - 1);
    }
}

/// A day of a year comes before the next year.
proof fn lemma_day_in_year(year: int, month: int, day: int)
    requires
        is_date(year, month, day),
    ensures
        year_start(year) <= days_to(year, month, day) < year_start(year + 1),
{
    lemma_year_months(year);
    lemma_month_start_grows(year, month + 1, 13);
    lemma_month_start_grows(year, 1, month);
}

/// The time of day, in UTC, with the microseconds.
pub open spec fn time_text(sec: u64, usec: u64) -> Seq<char> {
    zero_padded((sec / 3600 % 24) as nat, 2) + ":"@ + zero_padded((sec / 60 % 60) as nat, 2) + ":"@
        + zero_padded((sec % 60) as nat, 2) + "."@ + zero_padded(usec as nat, 6)
}

/// Append the time of day.
pub fn push_time(out: &mut String, sec: u64, usec: u64)
    ensures
        final(out)@ == old(out)@ + time_text(sec, usec),
{
    push_zero_padded(out, (sec / 3600 % 24) as u128, 2);
    push_text(out, ":");
    push_zero_padded(out, (sec / 60 % 60) as u128, 2);
    push_text(out, ":");
    push_zero_padded(out, (sec % 60) as u128, 2);
    push_text(out, ".");
    push_zero_padded(out, usec as u128, 6);
    assert(out@ =~= old(out)@ + time_text(sec, usec));
}

/// The date and the time of day of a timestamp, whose seconds are taken as a signed number.
pub open spec fn date_time_text(sec: u64, usec: u64) -> Seq<char> {
    let date = date_of((sec as i64 as int / 86400) as i64);
    let second = sec as i64 as int % 86400;
    zero_padded(date.0 as nat, 4) + "-"@ + zero_padded(date.1 as nat, 2) + "-"@ + zero_padded(
        date.2 as nat,
        2,
    ) + " "@ + zero_padded((second / 3600) as nat, 2) + ":"@ + zero_padded(
        (second / 60 % 60) as nat,
        2,
    ) + ":"@ + zero_padded((second % 60) as nat, 2) + "."@ + zero_padded(usec as nat, 6)
}

/// The whole days in a number of seconds, and the seconds that are left.
fn split_days(secs: i64) -> (parts: (i64, i64))
    ensures
        parts.0 == secs as int / 86400,
        parts.1 == secs as int % 86400,
{
    if secs >= 0 {
        (secs / 86400, secs % 86400)
    } else {
        let before: i64 = -(secs + 1);
        (-(before / 86400) - 1, 86399 - before % 86400)
    }
}

/// Append the date and the time of day.
pub fn push_date_time(out: &mut String, sec: u64, usec: u64)
    ensures
        final(out)@ == old(out)@ + date_time_text(sec, usec),
{
    let (days, rem) = split_days(sec as i64);
    let (y, mon, day) = epoch_days_to_date(days);
    push_zero_padded(out, y as u128, 4);
    push_text(out, "-");
    push_zero_padded(out, mon as u128, 2);
    push_text(out, "-");
    push_zero_padded(out, day as u128, 2);
    push_text(out, " ");
    push_zero_padded(out, (rem / 3600) as u128, 2);
    push_text(out, ":");
    push_zero_padded(out, (rem / 60 % 60) as u128, 2);
    push_text(out, ":");
    push_zero_padded(out, (rem % 60) as u128, 2);
    push_text(out, ".");
    push_zero_padded(out, usec as u128, 6);
    assert(out@ =~= old(out)@ + date_time_text(sec, usec));
}

/// The microseconds from one timestamp to another, their parts taken as signed numbers.
pub open spec fn delta(sec: u64, usec: u64, from: (i64, u64)) -> int {
    (sec as i64 - from.0) * 1_000_000 + (usec as i64 - from.1 as i64)
}

/// Microseconds as seconds with six decimals. A difference of less than a second shows no sign.
pub open spec fn delta_text(micros: int) -> Seq<char> {
    let size = if micros < 0 {
        -micros
    } else {
        micros
    };
    let whole = size / 1_000_000;
    (if micros < 0 && whole > 0 {
        "-"@ + zero_padded(whole as nat, 2)
    } else {
        zero_padded(whole as nat, 3)
    }) + "."@ + zero_padded((size % 1_000_000) as nat, 6)
}

/// Append the time since another one.
pub fn push_delta(out: &mut String, sec: u64, usec: u64, from: (i64, u64))
    ensures
        final(out)@ == old(out)@ + delta_text(delta(sec, usec, from)),
{
    let micros: i128 = (sec as i64 as i128 - from.0 as i128) * 1_000_000 + (usec as i64 as i128
        - from.1 as i64 as i128);
    let size: u128 = if micros < 0 {
        (-micros) as u128
    } else {
        micros as u128
    };
    let whole: u128 = size / 1_000_000;
    if micros < 0 && whole > 0 {
        push_text(out, "-");
        push_zero_padded(out, whole, 2);
    } else {
        push_zero_padded(out, whole, 3);
    }
    push_text(out, ".");
    push_zero_padded(out, size % 1_000_000, 6);
    assert(out@ =~= old(out)@ + delta_text(delta(sec, usec, from)));
}

} // verus!
