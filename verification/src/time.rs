//! Wording of simulated durations, given in whole seconds.

use vstd::prelude::*;
use vstd::string::*;
use vstd::arithmetic::div_mod::lemma_mod_multiples_vanish;

verus! {

/// Seconds in a minute.
pub const MINUTE: usize = 60;

/// Seconds in an hour.
pub const HOUR: usize = 3600;

/// Seconds in a day.
pub const DAY: usize = 86400;

/// Seconds in a year of 365 days.
pub const YEAR: usize = 31536000;

/// The character of the decimal digit `d`.
pub open spec fn digit_char(d: nat) -> char
    recommends
        d < 10,
{
    if d == 0 {
        '0'
    } else if d == 1 {
        '1'
    } else if d == 2 {
        '2'
    } else if d == 3 {
        '3'
    } else if d == 4 {
        '4'
    } else if d == 5 {
        '5'
    } else if d == 6 {
        '6'
    } else if d == 7 {
        '7'
    } else if d == 8 {
        '8'
    } else {
        '9'
    }
}

/// The decimal numeral of `n`: no sign, no leading zero, `"0"` for zero.
pub open spec fn decimal(n: nat) -> Seq<char>
    decreases n,
{
    if n < 10 {
        seq![digit_char(n)]
    } else {
        decimal(n / 10).push(digit_char(n % 10))
    }
}

/// The number that a decimal digit stands for.
pub open spec fn digit_value(c: char) -> nat {
    if c == '1' {
        1
    } else if c == '2' {
        2
    } else if c == '3' {
        3
    } else if c == '4' {
        4
    } else if c == '5' {
        5
    } else if c == '6' {
        6
    } else if c == '7' {
        7
    } else if c == '8' {
        8
    } else if c == '9' {
        9
    } else {
        0
    }
}

/// The number that a decimal numeral stands for.
pub open spec fn numeral_value(s: Seq<char>) -> nat
    decreases s.len(),
{
    if s.len() == 0 {
        0
    } else {
        numeral_value(s.drop_last()) * 10 + digit_value(s.last())
    }
}

/// A numeral reads back as its number: `decimal(n)` is not empty, starts
/// with a zero only for zero, and stands for `n`.
pub proof fn lemma_decimal_reads_back(n: nat)
    ensures
        decimal(n).len() >= 1,
        n > 0 ==> decimal(n)[0] != '0',
        numeral_value(decimal(n)) == n,
    decreases n,
{
    if n < 10 {
        let s = seq![digit_char(n)];
        assert(s.drop_last() =~= Seq::<char>::empty());
        assert(numeral_value(s.drop_last()) == 0);
        assert(s.last() == digit_char(n));
    } else {
        lemma_decimal_reads_back(n / 10);
        let s = decimal(n);
        assert(s.drop_last() =~= decimal(n / 10));
        assert(s.last() == digit_char(n % 10));
        assert(s[0] == decimal(n / 10)[0]);
    }
}

/// Different numbers have different numerals.
pub proof fn lemma_decimal_injective(a: nat, b: nat)
    requires
        decimal(a) == decimal(b),
    ensures
        a == b,
{
    lemma_decimal_reads_back(a);
    lemma_decimal_reads_back(b);
}

/// The English ordinal ending of `n`: "th" for 11, 12 and 13 in the last two
/// digits, else by the last digit.
pub open spec fn ordinal_suffix(n: nat) -> Seq<char> {
    if 11 <= n % 100 <= 13 {
        "th"@
    } else if n % 10 == 1 {
        "st"@
    } else if n % 10 == 2 {
        "nd"@
    } else if n % 10 == 3 {
        "rd"@
    } else {
        "th"@
    }
}

/// `n` as an ordinal numeral, such as "21st".
pub open spec fn ordinal(n: nat) -> Seq<char> {
    decimal(n) + ordinal_suffix(n)
}

/// A count with its unit, the unit in the plural unless the count is one.
pub open spec fn counted(n: nat, unit: Seq<char>) -> Seq<char> {
    decimal(n) + " "@ + unit + if n == 1 {
        Seq::<char>::empty()
    } else {
        "s"@
    }
}

/// Whole years in `seconds`.
pub open spec fn years_of(seconds: nat) -> nat {
    seconds / (YEAR as nat)
}

/// Whole days in `seconds` beyond the whole years.
pub open spec fn days_of(seconds: nat) -> nat {
    seconds % (YEAR as nat) / (DAY as nat)
}

/// Whole hours in `seconds` beyond the whole days.
pub open spec fn hours_of(seconds: nat) -> nat {
    seconds % (DAY as nat) / (HOUR as nat)
}

/// Whole minutes in `seconds` beyond the whole hours.
pub open spec fn minutes_of(seconds: nat) -> nat {
    seconds % (HOUR as nat) / (MINUTE as nat)
}

/// Seconds beyond the whole minutes.
pub open spec fn seconds_of(seconds: nat) -> nat {
    seconds % (MINUTE as nat)
}

/// The parts of a duration add up to it, and each part but the years stays
/// below one of the next larger unit.
pub proof fn lemma_time_parts(seconds: nat)
    ensures
        seconds == years_of(seconds) * YEAR + days_of(seconds) * DAY + hours_of(seconds) * HOUR
            + minutes_of(seconds) * MINUTE + seconds_of(seconds),
        days_of(seconds) < 365,
        hours_of(seconds) < 24,
        minutes_of(seconds) < 60,
        seconds_of(seconds) < 60,
{
    let s = seconds as int;
    let years = s / 31536000;
    let in_year = s % 31536000;
    let days = in_year / 86400;
    let in_day = in_year % 86400;
    let hours = in_day / 3600;
    let in_hour = in_day % 3600;
    let minutes = in_hour / 60;
    let in_minute = in_hour % 60;
    assert(s % 86400 == in_day) by {
        lemma_mod_multiples_vanish(365 * years + days, in_day, 86400);
    }
    assert(s % 3600 == in_hour) by {
        lemma_mod_multiples_vanish(24 * (365 * years + days) + hours, in_hour, 3600);
    }
    assert(s % 60 == in_minute) by {
        lemma_mod_multiples_vanish(
            60 * (24 * (365 * years + days) + hours) + minutes,
            in_minute,
            60,
        );
    }
}

/// The point in time `seconds` after the start, as the running year and day,
/// or day and hour while the first year lasts.
pub open spec fn time_ord_text(seconds: nat) -> Seq<char> {
    if years_of(seconds) > 0 {
        ordinal(years_of(seconds)) + " year and "@ + ordinal(days_of(seconds)) + " day"@
    } else {
        ordinal(days_of(seconds)) + " day and "@ + ordinal(hours_of(seconds)) + " hour"@
    }
}

/// Two counted units joined by "and".
pub open spec fn counted_pair(a: nat, unit_a: Seq<char>, b: nat, unit_b: Seq<char>) -> Seq<char> {
    counted(a, unit_a) + " and "@ + counted(b, unit_b)
}

/// The duration `seconds` in its largest non-zero unit, followed by the next
/// smaller unit where that is non-zero too; "0 seconds" for zero.
pub open spec fn time_text(seconds: nat) -> Seq<char> {
    let years = years_of(seconds);
    let days = days_of(seconds);
    let hours = hours_of(seconds);
    let minutes = minutes_of(seconds);
    let secs = seconds_of(seconds);
    if years > 0 && days > 0 {
        counted_pair(years, "year"@, days, "day"@)
    } else if years > 0 {
        counted(years, "year"@)
    } else if days > 0 && hours > 0 {
        counted_pair(days, "day"@, hours, "hour"@)
    } else if days > 0 {
        counted(days, "day"@)
    } else if hours > 0 && minutes > 0 {
        counted_pair(hours, "hour"@, minutes, "minute"@)
    } else if hours > 0 {
        counted(hours, "hour"@)
    } else if minutes > 0 && secs > 0 {
        counted_pair(minutes, "minute"@, secs, "second"@)
    } else if minutes > 0 {
        counted(minutes, "minute"@)
    } else {
        counted(secs, "second"@)
    }
}

fn digit_str(d: usize) -> (s: &'static str)
    requires
        d < 10,
    ensures
        s@ == seq![digit_char(d as nat)],
{
    proof {
        reveal_strlit("0");
        reveal_strlit("1");
        reveal_strlit("2");
        reveal_strlit("3");
        reveal_strlit("4");
        reveal_strlit("5");
        reveal_strlit("6");
        reveal_strlit("7");
        reveal_strlit("8");
        reveal_strlit("9");
    }
    let s = if d == 0 {
        "0"
    } else if d == 1 {
        "1"
    } else if d == 2 {
        "2"
    } else if d == 3 {
        "3"
    } else if d == 4 {
        "4"
    } else if d == 5 {
        "5"
    } else if d == 6 {
        "6"
    } else if d == 7 {
        "7"
    } else if d == 8 {
        "8"
    } else {
        "9"
    };
    assert(s@ =~= seq![digit_char(d as nat)]);
    s
}

/// Writes `n` as a decimal numeral.
pub fn decimal_string(n: usize) -> (s: String)
    ensures
        s@ == decimal(n as nat),
    decreases n,
{
    if n < 10 {
        String::from_str(digit_str(n))
    } else {
        let mut s = decimal_string(n / 10);
        s.append(digit_str(n % 10));
        assert(s@ =~= decimal(n as nat));
        s
    }
}

/// The ordinal ending that follows the numeral of `num`.
pub fn ord_indicator(num: usize) -> (suffix: &'static str)
    ensures
        suffix@ == ordinal_suffix(num as nat),
{
    let last_two: usize = num % 100;
    if 11 <= last_two && last_two <= 13 {
        return "th";
    }
    let last: usize = num % 10;
    if last == 1 {
        "st"
    } else if last == 2 {
        "nd"
    } else if last == 3 {
        "rd"
    } else {
        "th"
    }
}

fn ordinal_string(n: usize) -> (s: String)
    ensures
        s@ == ordinal(n as nat),
{
    let mut s = decimal_string(n);
    s.append(ord_indicator(n));
    s
}

fn counted_string(n: usize, unit: &str) -> (s: String)
    ensures
        s@ == counted(n as nat, unit@),
{
    let mut s = decimal_string(n);
    s.append(" ");
    s.append(unit);
    if n != 1 {
        s.append("s");
    }
    assert(s@ =~= counted(n as nat, unit@));
    s
}

fn counted_pair_string(a: usize, unit_a: &str, b: usize, unit_b: &str) -> (s: String)
    ensures
        s@ == counted_pair(a as nat, unit_a@, b as nat, unit_b@),
{
    let mut s = counted_string(a, unit_a);
    s.append(" and ");
    let t = counted_string(b, unit_b);
    s.append(t.as_str());
    s
}

/// Names the point in time `seconds` after the start by the year and day it
/// falls in, or by day and hour during the first year, each as an ordinal
/// counted from zero.
pub fn format_time_ord(seconds: usize) -> (text: String)
    ensures
        text@ == time_ord_text(seconds as nat),
{
    let year: usize = seconds / YEAR;
    let day: usize = seconds % YEAR / DAY;
    let hour: usize = seconds % DAY / HOUR;
    if year > 0 {
        let mut s = ordinal_string(year);
        s.append(" year and ");
        let d = ordinal_string(day);
        s.append(d.as_str());
        s.append(" day");
        s
    } else {
        let mut s = ordinal_string(day);
        s.append(" day and ");
        let h = ordinal_string(hour);
        s.append(h.as_str());
        s.append(" hour");
        s
    }
}

/// Words the duration `seconds` in its largest non-zero unit and, where it is
/// non-zero, the next smaller one.
pub fn format_time(seconds: usize) -> (text: String)
    ensures
        text@ == time_text(seconds as nat),
{
    let years: usize = seconds / YEAR;
    let days: usize = seconds % YEAR / DAY;
    let hours: usize = seconds % DAY / HOUR;
    let minutes: usize = seconds % HOUR / MINUTE;
    let secs: usize = seconds % MINUTE;
    if years > 0 && days > 0 {
        counted_pair_string(years, "year", days, "day")
    } else if years > 0 {
        counted_string(years, "year")
    } else if days > 0 && hours > 0 {
        counted_pair_string(days, "day", hours, "hour")
    } else if days > 0 {
        counted_string(days, "day")
    } else if hours > 0 && minutes > 0 {
        counted_pair_string(hours, "hour", minutes, "minute")
    } else if hours > 0 {
        counted_string(hours, "hour")
    } else if minutes > 0 && secs > 0 {
        counted_pair_string(minutes, "minute", secs, "second")
    } else if minutes > 0 {
        counted_string(minutes, "minute")
    } else {
        counted_string(secs, "second")
    }
}

} // verus!
