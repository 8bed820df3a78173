//! Calendar dates and the weeks they fall in.
//!
//! Dates are parsed, shifted and formatted by `chrono`; the calls stand behind
//! the trusted items of this module. Their contracts speak of a model of the
//! proleptic Gregorian calendar: day numbers counted from 1970-01-01,
//! weekdays, and the English texts that `chrono` writes. What `chrono` reads
//! from a text, and the date it shifts to, are also named by the
//! `pub uninterp spec fn`s below. The weeks of a timesheet are built on them.
use vstd::prelude::*;
use crate::text::{decimal, digit_char, is_ascii_text, lemma_decimal_digits};
use chrono::{Datelike, NaiveDate, TimeDelta};
use vstd::arithmetic::div_mod::{
    lemma_basic_div, lemma_div_is_ordered, lemma_fundamental_div_mod, lemma_hoist_over_denominator,
    lemma_mod_multiples_basic, lemma_mod_multiples_vanish, lemma_small_mod,
};

verus! {

/// A calendar date of the proleptic Gregorian calendar.
#[derive(Clone, Copy, Debug, PartialEq, Eq, Structural)]
pub struct Date {
    pub year: i32,
    pub month: u32,
    pub day: u32,
}

/// The earliest year that `chrono::NaiveDate` represents.
pub open spec fn min_year() -> int {
    -262143
}

/// The latest year that `chrono::NaiveDate` represents.
pub open spec fn max_year() -> int {
    262142
}

pub open spec fn is_leap_year(y: int) -> bool {
    (y % 4 == 0 && y % 100 != 0) || y % 400 == 0
}

pub open spec fn days_in_month(y: int, m: int) -> int {
    if m == 2 {
        if is_leap_year(y) {
            29
        } else {
            28
        }
    } else if m == 4 || m == 6 || m == 9 || m == 11 {
        30
    } else {
        31
    }
}

/// `d` is a date that `chrono::NaiveDate` can hold.
pub open spec fn is_calendar_date(d: Date) -> bool {
    &&& min_year() <= d.year <= max_year()
    &&& 1 <= d.month <= 12
    &&& 1 <= d.day <= days_in_month(d.year as int, d.month as int)
}

/// Chronological order of dates.
pub open spec fn date_le(a: Date, b: Date) -> bool {
    a.year < b.year || (a.year == b.year && (a.month < b.month || (a.month == b.month && a.day
        <= b.day)))
}

/// What `NaiveDate::parse_from_str(s, "%Y-%m-%d")` gives, when it succeeds.
pub uninterp spec fn parsed_iso_date(s: Seq<char>) -> Option<Date>;

/// Days from March 1 of year 0 to March 1 of year `y` (negative before it),
/// counted in cycles of 400 years of 146097 days.
pub open spec fn march_days(y: int) -> int {
    let era = y / 400;
    let yoe = y - era * 400;
    era * 146097 + yoe * 365 + yoe / 4 - yoe / 100
}

/// The year, counted from March, that `d` falls in: January and February
/// belong to the year before, so that a leap day ends its year.
pub open spec fn shifted_year(d: Date) -> int {
    if d.month <= 2 {
        d.year - 1
    } else {
        d.year as int
    }
}

/// The days from March 1 to the first day of the `mp`-th month after March.
pub open spec fn month_offset(mp: int) -> int {
    (153 * mp + 2) / 5
}

/// The months counted from March: 0 for March, 11 for February.
pub open spec fn shifted_month(d: Date) -> int {
    if d.month > 2 {
        d.month - 3
    } else {
        d.month + 9
    }
}

/// The days from March 1 of the shifted year of `d` to `d`.
pub open spec fn day_of_shifted_year(d: Date) -> int {
    month_offset(shifted_month(d)) + d.day - 1
}

/// The number of days from 1970-01-01 to `d`, negative before it.
pub open spec fn day_number(d: Date) -> int {
    march_days(shifted_year(d)) + day_of_shifted_year(d) - 719468
}

/// The day number of `NaiveDate::MIN`, January 1 of the earliest year.
pub open spec fn min_day_number() -> int {
    day_number(Date { year: -262143i32, month: 1u32, day: 1u32 })
}

/// The day number of `NaiveDate::MAX`, December 31 of the latest year.
pub open spec fn max_day_number() -> int {
    day_number(Date { year: 262142i32, month: 12u32, day: 31u32 })
}

/// `date.weekday().num_days_from_monday()`: the weekday of `d` counted from
/// Monday (0) to Sunday (6); 1970-01-01 was a Thursday.
pub open spec fn days_from_monday(d: Date) -> int {
    (day_number(d) + 3) % 7
}

/// The date `n` days after `d` (before it where `n` is negative), where
/// `NaiveDate` can hold it: the calendar date whose day number is that of
/// `d` plus `n`.
pub open spec fn date_plus_days(d: Date, n: int) -> Option<Date> {
    if min_day_number() <= day_number(d) + n <= max_day_number() {
        Some(choose|r: Date| is_calendar_date(r) && day_number(r) == day_number(d) + n)
    } else {
        None
    }
}

/// The calendar day after `d`.
pub open spec fn next_day(d: Date) -> Date {
    if (d.day as int) < days_in_month(d.year as int, d.month as int) {
        Date { year: d.year, month: d.month, day: (d.day + 1) as u32 }
    } else if d.month < 12 {
        Date { year: d.year, month: (d.month + 1) as u32, day: 1 }
    } else {
        Date { year: (d.year + 1) as i32, month: 1, day: 1 }
    }
}

/// The year from March 1 of `y - 1` to March 1 of `y` has 366 days where
/// `y` is a leap year, else 365.
proof fn lemma_march_year(y: int)
    ensures
        march_days(y) - march_days(y - 1) == (if is_leap_year(y) {
            366int
        } else {
            365int
        }),
{
    let yp = y - 1;
    let e = yp / 400;
    let o = yp % 400;
    assert(yp == 400 * e + o) by {
        lemma_fundamental_div_mod(yp, 400);
    }
    assert(march_days(yp) == e * 146097 + o * 365 + o / 4 - o / 100);
    if o < 399 {
        let k = o + 1;
        assert(y / 400 == e) by {
            lemma_hoist_over_denominator(k, e, 400);
            lemma_basic_div(k, 400);
        }
        assert(march_days(y) == e * 146097 + k * 365 + k / 4 - k / 100);
        assert(y % 4 == k % 4) by {
            lemma_mod_multiples_vanish(100 * e, k, 4);
        }
        assert(y % 100 == k % 100) by {
            lemma_mod_multiples_vanish(4 * e, k, 100);
        }
        assert(y % 400 == k) by {
            lemma_mod_multiples_vanish(e, k, 400);
            lemma_small_mod(k as nat, 400);
        }
        assert(k / 4 - o / 4 == (if k % 4 == 0 { 1int } else { 0int })) by (nonlinear_arith)
            requires
                k == o + 1,
                0 <= o,
        ;
        assert(k / 100 - o / 100 == (if k % 100 == 0 { 1int } else { 0int })) by (nonlinear_arith)
            requires
                k == o + 1,
                0 <= o,
        ;
        assert(k % 100 == 0 ==> k % 4 == 0) by (nonlinear_arith);
    } else {
        assert(y == 400 * (e + 1));
        assert(y / 400 == e + 1) by {
            lemma_hoist_over_denominator(0, e + 1, 400);
        }
        assert(march_days(y) == (e + 1) * 146097);
        assert(y % 400 == 0) by {
            lemma_mod_multiples_vanish(e + 1, 0, 400);
        }
    }
}

/// A date lies before the first day of the next month of its shifted year.
proof fn lemma_within_month(d: Date)
    requires
        is_calendar_date(d),
    ensures
        0 <= shifted_month(d) <= 11,
        day_of_shifted_year(d) == month_offset(shifted_month(d)) + d.day - 1,
        day_of_shifted_year(d) < month_offset(shifted_month(d) + 1),
{
}

/// Month offsets grow with the month.
proof fn lemma_month_offset_ordered(i: int, j: int)
    requires
        0 <= i <= j,
    ensures
        month_offset(i) <= month_offset(j),
{
    lemma_div_is_ordered(153 * i + 2, 153 * j + 2, 5);
}

/// A date lies before March 1 of the next shifted year.
proof fn lemma_within_year(d: Date)
    requires
        is_calendar_date(d),
    ensures
        0 <= day_of_shifted_year(d) < march_days(shifted_year(d) + 1) - march_days(shifted_year(d)),
{
    lemma_within_month(d);
    lemma_march_year(shifted_year(d) + 1);
    if shifted_month(d) < 11 {
        lemma_month_offset_ordered(shifted_month(d) + 1, 11);
    }
}

/// March 1 comes later in later years.
proof fn lemma_march_days_ordered(i: int, j: int)
    requires
        i <= j,
    ensures
        march_days(i) <= march_days(j),
    decreases j - i,
{
    if i < j {
        lemma_march_days_ordered(i, j - 1);
        lemma_march_year(j);
    }
}

/// `a` comes strictly before `b` in the calendar.
pub open spec fn date_lt(a: Date, b: Date) -> bool {
    date_le(a, b) && a != b
}

/// Day numbers follow the calendar: a date before another has a smaller
/// number.
pub proof fn lemma_day_number_ordered(a: Date, b: Date)
    requires
        is_calendar_date(a),
        is_calendar_date(b),
        date_lt(a, b),
    ensures
        day_number(a) < day_number(b),
{
    lemma_within_month(a);
    lemma_within_month(b);
    let (ya, yb) = (shifted_year(a), shifted_year(b));
    if ya < yb {
        lemma_within_year(a);
        lemma_march_days_ordered(ya + 1, yb);
    } else {
        assert(ya == yb);
        if shifted_month(a) < shifted_month(b) {
            lemma_month_offset_ordered(shifted_month(a) + 1, shifted_month(b));
        } else {
            assert(shifted_month(a) == shifted_month(b));
        }
    }
}

/// Two calendar dates with the same day number are the same date.
pub proof fn lemma_day_number_injective(a: Date, b: Date)
    requires
        is_calendar_date(a),
        is_calendar_date(b),
        day_number(a) == day_number(b),
    ensures
        a == b,
{
    if date_lt(a, b) {
        lemma_day_number_ordered(a, b);
    } else if date_lt(b, a) {
        lemma_day_number_ordered(b, a);
    }
}

/// Day numbers count the days of the calendar: January 1, 1970 is day 0,
/// and the day after a date has the next number.
pub proof fn lemma_day_numbers_count_days(d: Date)
    requires
        is_calendar_date(d),
    ensures
        day_number(Date { year: 1970i32, month: 1u32, day: 1u32 }) == 0,
        day_number(next_day(d)) == day_number(d) + 1,
{
    assert(march_days(1969) == 719162);
    let n = next_day(d);
    if (d.day as int) < days_in_month(d.year as int, d.month as int) {
        assert(shifted_year(n) == shifted_year(d));
    } else if d.month == 2 {
        lemma_march_year(d.year as int);
        assert(shifted_year(n) == d.year);
        assert(shifted_year(d) == d.year - 1);
    } else if d.month < 12 {
        assert(shifted_year(n) == shifted_year(d));
    } else {
        assert(shifted_year(n) == shifted_year(d));
    }
}

/// The abbreviated English name of a month, 1 to 12 (`%b`).
pub open spec fn month_abbr(m: int) -> Seq<char> {
    if m == 1 {
        "Jan"@
    } else if m == 2 {
        "Feb"@
    } else if m == 3 {
        "Mar"@
    } else if m == 4 {
        "Apr"@
    } else if m == 5 {
        "May"@
    } else if m == 6 {
        "Jun"@
    } else if m == 7 {
        "Jul"@
    } else if m == 8 {
        "Aug"@
    } else if m == 9 {
        "Sep"@
    } else if m == 10 {
        "Oct"@
    } else if m == 11 {
        "Nov"@
    } else {
        "Dec"@
    }
}

/// The English name of a month, 1 to 12 (`%B`).
pub open spec fn month_name(m: int) -> Seq<char> {
    if m == 1 {
        "January"@
    } else if m == 2 {
        "February"@
    } else if m == 3 {
        "March"@
    } else if m == 4 {
        "April"@
    } else if m == 5 {
        "May"@
    } else if m == 6 {
        "June"@
    } else if m == 7 {
        "July"@
    } else if m == 8 {
        "August"@
    } else if m == 9 {
        "September"@
    } else if m == 10 {
        "October"@
    } else if m == 11 {
        "November"@
    } else {
        "December"@
    }
}

/// The English name of a weekday counted from Monday (0) to Sunday (6)
/// (`%A`).
pub open spec fn weekday_name(k: int) -> Seq<char> {
    if k == 0 {
        "Monday"@
    } else if k == 1 {
        "Tuesday"@
    } else if k == 2 {
        "Wednesday"@
    } else if k == 3 {
        "Thursday"@
    } else if k == 4 {
        "Friday"@
    } else if k == 5 {
        "Saturday"@
    } else {
        "Sunday"@
    }
}

/// A number below 100 as two digits, with a leading zero below ten (`%d`,
/// `%m`).
pub open spec fn two_digits(n: int) -> Seq<char> {
    seq![digit_char((n / 10) as nat), digit_char((n % 10) as nat)]
}

/// The digits of `n`, with leading zeros up to four digits.
pub open spec fn four_digits(n: nat) -> Seq<char> {
    let s = decimal(n);
    if s.len() < 4 {
        Seq::new((4 - s.len()) as nat, |i: int| '0') + s
    } else {
        s
    }
}

/// A year as `%Y` writes it: four digits from 0 to 9999, otherwise a sign
/// and at least four digits.
pub open spec fn year_text(y: int) -> Seq<char> {
    if 0 <= y <= 9999 {
        four_digits(y as nat)
    } else if y < 0 {
        seq!['-'] + four_digits((-y) as nat)
    } else {
        seq!['+'] + four_digits(y as nat)
    }
}

/// What `d.format(fmt).to_string()` gives for the patterns of
/// [`is_date_pattern`], the only ones this crate formats with.
pub open spec fn date_text(d: Date, fmt: Seq<char>) -> Seq<char> {
    let (y, m, day) = (d.year as int, d.month as int, d.day as int);
    if fmt == "%b %d"@ {
        month_abbr(m) + seq![' '] + two_digits(day)
    } else if fmt == "%b %d, %Y"@ {
        month_abbr(m) + seq![' '] + two_digits(day) + seq![',', ' '] + year_text(y)
    } else if fmt == "%A, %b %d"@ {
        weekday_name(days_from_monday(d)) + seq![',', ' '] + month_abbr(m) + seq![' '] + two_digits(
            day,
        )
    } else if fmt == "%B %Y"@ {
        month_name(m) + seq![' '] + year_text(y)
    } else if fmt == "%Y-%m"@ {
        year_text(y) + seq!['-'] + two_digits(m)
    } else if fmt == "%B-%Y"@ {
        month_name(m) + seq!['-'] + year_text(y)
    } else {
        Seq::empty()
    }
}

proof fn lemma_four_digits_ascii(n: nat)
    ensures
        is_ascii_text(four_digits(n)),
{
    lemma_decimal_digits(n);
    let s = decimal(n);
    if s.len() < 4 {
        let z = Seq::new((4 - s.len()) as nat, |i: int| '0');
        assert forall|i: int| 0 <= i < four_digits(n).len() implies (#[trigger] four_digits(n)[i] as int) < 128 by {
            if i < z.len() {
                assert(four_digits(n)[i] == '0');
            } else {
                assert(four_digits(n)[i] == s[i - z.len()]);
            }
        }
    }
}

/// A month's name and year, as `"February-2026"`, are ASCII text.
#[verifier::spinoff_prover]
pub proof fn lemma_month_year_ascii(d: Date)
    requires
        is_calendar_date(d),
    ensures
        is_ascii_text(date_text(d, "%B-%Y"@)),
{
    reveal_strlit("%B-%Y");
    reveal_strlit("%b %d");
    reveal_strlit("%b %d, %Y");
    reveal_strlit("%A, %b %d");
    reveal_strlit("%B %Y");
    reveal_strlit("%Y-%m");
    reveal_strlit("January");
    reveal_strlit("February");
    reveal_strlit("March");
    reveal_strlit("April");
    reveal_strlit("May");
    reveal_strlit("June");
    reveal_strlit("July");
    reveal_strlit("August");
    reveal_strlit("September");
    reveal_strlit("October");
    reveal_strlit("November");
    reveal_strlit("December");
    let y = d.year as int;
    let yt = year_text(y);
    if 0 <= y <= 9999 {
        lemma_four_digits_ascii(y as nat);
    } else if y < 0 {
        lemma_four_digits_ascii((-y) as nat);
        assert forall|i: int| 0 <= i < yt.len() implies (#[trigger] yt[i] as int) < 128 by {
            if i > 0 {
                assert(yt[i] == four_digits((-y) as nat)[i - 1]);
            }
        }
    } else {
        lemma_four_digits_ascii(y as nat);
        assert forall|i: int| 0 <= i < yt.len() implies (#[trigger] yt[i] as int) < 128 by {
            if i > 0 {
                assert(yt[i] == four_digits(y as nat)[i - 1]);
            }
        }
    }
    let name = month_name(d.month as int);
    assert(is_ascii_text(name));
    let fmt = "%B-%Y"@;
    assert(fmt[1] != "%b %d"@[1]);
    assert(fmt.len() != "%b %d, %Y"@.len());
    assert(fmt.len() != "%A, %b %d"@.len());
    assert(fmt[2] != "%B %Y"@[2]);
    assert(fmt[1] != "%Y-%m"@[1]);
    let t = date_text(d, fmt);
    assert(t == name + seq!['-'] + yt);
    assert forall|i: int| 0 <= i < t.len() implies (#[trigger] t[i] as int) < 128 by {
        if i < name.len() {
            assert(t[i] == name[i]);
        } else if i == name.len() {
            assert(t[i] == '-');
        } else {
            assert(t[i] == yt[i - name.len() - 1]);
        }
    }
}

/// The `"%Y-%m"` text of a date depends on its year and month alone.
pub proof fn lemma_month_key_text(a: Date, b: Date)
    requires
        a.year == b.year,
        a.month == b.month,
    ensures
        date_text(a, "%Y-%m"@) == date_text(b, "%Y-%m"@),
{
    reveal_strlit("%Y-%m");
    reveal_strlit("%b %d");
    reveal_strlit("%b %d, %Y");
    reveal_strlit("%A, %b %d");
    reveal_strlit("%B %Y");
    let fmt = "%Y-%m"@;
    assert(fmt[1] != "%b %d"@[1]);
    assert(fmt.len() != "%b %d, %Y"@.len());
    assert(fmt.len() != "%A, %b %d"@.len());
    assert(fmt[1] != "%B %Y"@[1]);
}

/// The strftime patterns that this crate formats dates with.
pub open spec fn is_date_pattern(fmt: Seq<char>) -> bool {
    ||| fmt == "%b %d"@
    ||| fmt == "%b %d, %Y"@
    ||| fmt == "%A, %b %d"@
    ||| fmt == "%B %Y"@
    ||| fmt == "%Y-%m"@
    ||| fmt == "%B-%Y"@
}

/// The week of a date with a four-digit year lies within the dates that
/// `chrono` holds.
proof fn lemma_four_digit_years_in_range(d: Date)
    requires
        is_calendar_date(d),
        1000 <= d.year <= 9999,
    ensures
        min_day_number() <= day_number(d) - 6,
        day_number(d) + 6 <= max_day_number(),
{
    let lo = Date { year: 1000i32, month: 1u32, day: 1u32 };
    let hi = Date { year: 9999i32, month: 12u32, day: 31u32 };
    if d != lo {
        lemma_day_number_ordered(lo, d);
    }
    if d != hi {
        lemma_day_number_ordered(d, hi);
    }
    assert(day_number(lo) == -354285);
    assert(day_number(hi) == 2932896);
    assert(min_day_number() == -96465292);
    assert(max_day_number() == 95026236);
}

/// `s` writes the date `d` as `YYYY-MM-DD`, with a year of four digits.
pub open spec fn is_iso_date_text(s: Seq<char>, d: Date) -> bool {
    &&& is_calendar_date(d)
    &&& 1000 <= d.year <= 9999
    &&& s == decimal(d.year as nat) + seq!['-'] + two_digits(d.month as int) + seq!['-']
        + two_digits(d.day as int)
}

/// `s` writes some date as `YYYY-MM-DD`, with a year of four digits.
pub open spec fn has_iso_date(s: Seq<char>) -> bool {
    exists|d: Date| is_iso_date_text(s, d)
}

/// `NaiveDate::parse_from_str(s, "%Y-%m-%d")`. Trusted: the result is named
/// by [`parsed_iso_date`]; a date that `chrono` returns is one that
/// `NaiveDate` can hold (its documented range and the Gregorian calendar),
/// and a date written as `YYYY-MM-DD` with a four-digit year is read as that
/// date. What else `chrono` accepts (one-digit months, signs, more digits)
/// is left unsaid.
#[verifier::external_body]
pub(crate) fn parse_iso_date(s: &str) -> (res: Option<Date>)
    ensures
        res == parsed_iso_date(s@),
        res matches Some(d) ==> is_calendar_date(d),
        forall|d: Date| #[trigger] is_iso_date_text(s@, d) ==> res == Some(d),
{
    match NaiveDate::parse_from_str(s, "%Y-%m-%d") {
        Ok(d) => Some(Date { year: d.year(), month: d.month(), day: d.day() }),
        Err(_) => None,
    }
}

/// `date.weekday().num_days_from_monday()`. Trusted: the result is the
/// weekday of [`days_from_monday`], counted from Monday.
#[verifier::external_body]
fn weekday_index(d: Date) -> (res: u32)
    requires
        is_calendar_date(d),
    ensures
        res == days_from_monday(d),
{
    NaiveDate::from_ymd_opt(d.year, d.month, d.day).unwrap().weekday().num_days_from_monday()
}

/// `date.checked_add_signed(TimeDelta::days(n))`. Trusted: the result is
/// the date `n` days after `d` (by day number), and `None` exactly where that
/// date lies outside the range of `NaiveDate`.
#[verifier::external_body]
fn checked_add_days(d: Date, n: i64) -> (res: Option<Date>)
    requires
        is_calendar_date(d),
        -366 <= n <= 366,
    ensures
        res is Some <==> min_day_number() <= day_number(d) + n <= max_day_number(),
        res matches Some(r) ==> is_calendar_date(r) && day_number(r) == day_number(d) + n,
{
    match NaiveDate::from_ymd_opt(d.year, d.month, d.day).unwrap().checked_add_signed(
        TimeDelta::days(n),
    ) {
        Some(r) => Some(Date { year: r.year(), month: r.month(), day: r.day() }),
        None => None,
    }
}

/// The date `n` days after `d`, or `None` where it lies beyond the dates
/// that `NaiveDate` holds.
pub(crate) fn add_days(d: Date, n: i64) -> (res: Option<Date>)
    requires
        is_calendar_date(d),
        -366 <= n <= 366,
    ensures
        res == date_plus_days(d, n as int),
        res is Some <==> min_day_number() <= day_number(d) + n <= max_day_number(),
        res matches Some(r) ==> is_calendar_date(r) && day_number(r) == day_number(d) + n,
{
    let res = checked_add_days(d, n);
    proof {
        if let Some(r) = res {
            let c = choose|c: Date| is_calendar_date(c) && day_number(c) == day_number(d) + n;
            assert(is_calendar_date(r) && day_number(r) == day_number(d) + n);
            lemma_day_number_injective(c, r);
        }
    }
    res
}

/// `date.format(fmt).to_string()` for the patterns of [`is_date_pattern`].
/// Trusted: the result is [`date_text`], as `chrono` writes these patterns
/// without a locale.
#[verifier::external_body]
pub(crate) fn format_date(d: Date, fmt: &str) -> (res: String)
    requires
        is_calendar_date(d),
        is_date_pattern(fmt@),
    ensures
        res@ == date_text(d, fmt@),
{
    NaiveDate::from_ymd_opt(d.year, d.month, d.day).unwrap().format(fmt).to_string()
}

/// The Monday and the Sunday of the week of the date written in `s` as
/// `YYYY-MM-DD`; `None` where `s` is no such date, or where the week reaches
/// beyond the dates that `chrono` holds.
pub open spec fn week_of(s: Seq<char>) -> Option<(Date, Date)> {
    match parsed_iso_date(s) {
        None => None,
        Some(d) => match date_plus_days(d, -days_from_monday(d)) {
            None => None,
            Some(monday) => match date_plus_days(monday, 6) {
                None => None,
                Some(sunday) => Some((monday, sunday)),
            },
        },
    }
}

/// The heading of a week: `"Week of Mar 02 \u{2013} Mar 08, 2026"`.
pub open spec fn week_heading(monday: Date, sunday: Date) -> Seq<char> {
    "Week of "@ + date_text(monday, "%b %d"@) + " \u{2013} "@ + date_text(sunday, "%b %d, %Y"@)
}

/// The month (1 to 12) whose abbreviation is `t`.
spec fn month_of_abbr(t: Seq<char>) -> int {
    if t[0] == 'J' {
        if t[1] == 'a' {
            1
        } else if t[2] == 'n' {
            6
        } else {
            7
        }
    } else if t[0] == 'F' {
        2
    } else if t[0] == 'M' {
        if t[2] == 'r' {
            3
        } else {
            5
        }
    } else if t[0] == 'A' {
        if t[1] == 'p' {
            4
        } else {
            8
        }
    } else if t[0] == 'S' {
        9
    } else if t[0] == 'O' {
        10
    } else if t[0] == 'N' {
        11
    } else {
        12
    }
}

/// Month abbreviations have three letters and name one month each.
#[verifier::spinoff_prover]
proof fn lemma_month_abbr(a: int, b: int)
    requires
        1 <= a <= 12,
        1 <= b <= 12,
    ensures
        month_abbr(a).len() == 3,
        month_abbr(a) == month_abbr(b) ==> a == b,
{
    reveal_strlit("Jan");
    reveal_strlit("Feb");
    reveal_strlit("Mar");
    reveal_strlit("Apr");
    reveal_strlit("May");
    reveal_strlit("Jun");
    reveal_strlit("Jul");
    reveal_strlit("Aug");
    reveal_strlit("Sep");
    reveal_strlit("Oct");
    reveal_strlit("Nov");
    reveal_strlit("Dec");
    assert(month_of_abbr(month_abbr(a)) == a);
    assert(month_of_abbr(month_abbr(b)) == b);
}

/// Two-digit texts of numbers below 100 name one number each.
proof fn lemma_two_digits(a: int, b: int)
    requires
        0 <= a < 100,
        0 <= b < 100,
    ensures
        two_digits(a) == two_digits(b) ==> a == b,
{
    if two_digits(a) == two_digits(b) {
        assert(two_digits(a)[0] == two_digits(b)[0]);
        assert(two_digits(a)[1] == two_digits(b)[1]);
    }
}

/// The decimal text of a number starts with a zero only for zero itself.
proof fn lemma_decimal_leading(n: nat)
    ensures
        decimal(n).len() >= 1,
        n >= 10 ==> decimal(n).len() >= 2,
        decimal(n)[0] == '0' ==> n == 0,
    decreases n,
{
    if n >= 10 {
        lemma_decimal_leading(n / 10);
        assert(decimal(n)[0] == decimal(n / 10)[0]);
    }
}

/// Decimal texts name one number each.
#[verifier::spinoff_prover]
proof fn lemma_decimal_injective(a: nat, b: nat)
    requires
        decimal(a) == decimal(b),
    ensures
        a == b,
    decreases a,
{
    lemma_decimal_leading(a);
    lemma_decimal_leading(b);
    if a >= 10 && b >= 10 {
        assert(decimal(a).drop_last() == decimal(a / 10));
        assert(decimal(b).drop_last() == decimal(b / 10));
        lemma_decimal_injective(a / 10, b / 10);
        assert(decimal(a).last() == digit_char(a % 10));
        assert(decimal(b).last() == digit_char(b % 10));
        assert(decimal(a).last() == decimal(b).last());
        assert(a % 10 == b % 10);
        assert(a == 10 * (a / 10) + a % 10);
        assert(b == 10 * (b / 10) + b % 10);
    } else if a < 10 && b < 10 {
        assert(decimal(a)[0] == decimal(b)[0]);
    }
}

/// Four-digit texts name one number each.
#[verifier::spinoff_prover]
proof fn lemma_four_digits_injective(a: nat, b: nat)
    requires
        four_digits(a) == four_digits(b),
    ensures
        a == b,
{
    lemma_decimal_leading(a);
    lemma_decimal_leading(b);
    let (da, db) = (decimal(a), decimal(b));
    let f = four_digits(a);
    if da.len() >= 4 && db.len() >= 4 {
        lemma_decimal_injective(a, b);
    } else if da.len() < 4 && db.len() < 4 {
        if da.len() == db.len() {
            assert(f.subrange(4 - da.len(), 4) =~= da);
            assert(four_digits(b).subrange(4 - db.len(), 4) =~= db);
            lemma_decimal_injective(a, b);
        } else if da.len() < db.len() {
            assert(four_digits(b)[4 - db.len()] == db[0]);
            assert(f[4 - db.len()] == '0');
        } else {
            assert(f[4 - da.len()] == da[0]);
            assert(four_digits(b)[4 - da.len()] == '0');
        }
    } else if da.len() < 4 {
        assert(f[0] == '0');
        assert(four_digits(b)[0] == db[0]);
    } else {
        assert(four_digits(b)[0] == '0');
        assert(f[0] == da[0]);
    }
}

/// The first character of a year text tells its kind: `-` before year 0,
/// `+` after year 9999, a digit otherwise; after a sign come the digits.
#[verifier::spinoff_prover]
proof fn lemma_year_text_sign(y: int)
    ensures
        year_text(y).len() >= 1,
        (year_text(y)[0] == '-') == (y < 0),
        (year_text(y)[0] == '+') == (y > 9999),
        y < 0 ==> year_text(y).drop_first() == four_digits((-y) as nat),
        y > 9999 ==> year_text(y).drop_first() == four_digits(y as nat),
{
    if 0 <= y <= 9999 {
        let n = y as nat;
        lemma_decimal_leading(n);
        lemma_decimal_digits(n);
        let d = decimal(n);
        if d.len() >= 4 {
            assert(four_digits(n)[0] == d[0]);
        } else {
            assert(four_digits(n)[0] == '0');
        }
    } else if y < 0 {
        assert(year_text(y).drop_first() =~= four_digits((-y) as nat));
    } else {
        assert(year_text(y).drop_first() =~= four_digits(y as nat));
    }
}

/// Year texts name one year each.
#[verifier::spinoff_prover]
proof fn lemma_year_text_injective(a: int, b: int)
    requires
        year_text(a) == year_text(b),
    ensures
        a == b,
{
    lemma_year_text_sign(a);
    lemma_year_text_sign(b);
    assert(year_text(a)[0] == year_text(b)[0]);
    if a < 0 {
        assert(b < 0);
        assert(four_digits((-a) as nat) == four_digits((-b) as nat));
        lemma_four_digits_injective((-a) as nat, (-b) as nat);
    } else if a > 9999 {
        assert(b > 9999);
        assert(four_digits(a as nat) == four_digits(b as nat));
        lemma_four_digits_injective(a as nat, b as nat);
    } else {
        assert(0 <= b <= 9999);
        assert(four_digits(a as nat) == four_digits(b as nat));
        lemma_four_digits_injective(a as nat, b as nat);
    }
}

/// Where the parts of the Sunday stand in a week heading.
#[verifier::spinoff_prover]
proof fn lemma_heading_parts(m: Date, s: Date)
    requires
        is_calendar_date(m),
        is_calendar_date(s),
    ensures
        ({
            let h = week_heading(m, s);
            &&& h.len() >= 25
            &&& h.subrange(17, 20) == month_abbr(s.month as int)
            &&& h.subrange(21, 23) == two_digits(s.day as int)
            &&& h.subrange(25, h.len() as int) == year_text(s.year as int)
        }),
{
    reveal_strlit("Week of ");
    reveal_strlit(" \u{2013} ");
    reveal_strlit("%b %d");
    reveal_strlit("%b %d, %Y");
    let p1 = "%b %d"@;
    let p2 = "%b %d, %Y"@;
    assert(p1.len() != p2.len());
    lemma_month_abbr(m.month as int, m.month as int);
    lemma_month_abbr(s.month as int, s.month as int);
    let a = month_abbr(s.month as int);
    let e = date_text(m, p1);
    assert(e.len() == 6);
    let tail = a + seq![' '] + two_digits(s.day as int) + seq![',', ' '] + year_text(s.year as int);
    assert(date_text(s, p2) == tail);
    let h = week_heading(m, s);
    assert(h =~= "Week of "@ + e + " \u{2013} "@ + tail);
    assert(h.subrange(17, 20) =~= a);
    assert(h.subrange(21, 23) =~= two_digits(s.day as int));
    assert(h.subrange(25, h.len() as int) =~= year_text(s.year as int));
}

/// Two weeks, each running from a Monday to the Sunday six days later, have
/// the same heading exactly when they start on the same Monday; with
/// [`is_week_of`], two dates get the same heading exactly when they share a
/// Monday.
pub proof fn lemma_week_heading_identifies_week(m1: Date, s1: Date, m2: Date, s2: Date)
    requires
        is_calendar_date(m1),
        is_calendar_date(s1),
        is_calendar_date(m2),
        is_calendar_date(s2),
        day_number(s1) == day_number(m1) + 6,
        day_number(s2) == day_number(m2) + 6,
    ensures
        week_heading(m1, s1) == week_heading(m2, s2) <==> m1 == m2,
{
    if m1 == m2 {
        lemma_day_number_injective(s1, s2);
    }
    if week_heading(m1, s1) == week_heading(m2, s2) {
        lemma_heading_parts(m1, s1);
        lemma_heading_parts(m2, s2);
        lemma_month_abbr(s1.month as int, s2.month as int);
        lemma_two_digits(s1.day as int, s2.day as int);
        lemma_year_text_injective(s1.year as int, s2.year as int);
        assert(s1 == s2);
        lemma_day_number_injective(m1, m2);
    }
}

/// The display name of a month key `YYYY-MM`: the month's full name and year,
/// or the key itself where it names no month.
pub open spec fn month_name_text(month_key: Seq<char>) -> Seq<char> {
    match parsed_iso_date(month_key + "-01"@) {
        Some(d) => date_text(d, "%B %Y"@),
        None => month_key,
    }
}

/// The week of `s` runs from a Monday to the Sunday six days later, and holds
/// the date written in `s`.
pub open spec fn is_week_of(s: Seq<char>, monday: Date, sunday: Date) -> bool {
    &&& is_calendar_date(monday)
    &&& is_calendar_date(sunday)
    &&& days_from_monday(monday) == 0
    &&& day_number(sunday) == day_number(monday) + 6
    &&& day_number(monday) <= day_number(parsed_iso_date(s).unwrap()) <= day_number(sunday)
}

/// The week of a date written as `YYYY-MM-DD`, or `None` where the date
/// cannot be read or its week reaches beyond the dates `chrono` holds.
pub fn try_week_bounds(date_str: &str) -> (res: Option<(Date, Date)>)
    ensures
        res == week_of(date_str@),
        res matches Some((m, s)) ==> is_week_of(date_str@, m, s),
        has_iso_date(date_str@) ==> res is Some,
{
    let d = match parse_iso_date(date_str) {
        Some(d) => d,
        None => return None,
    };
    proof {
        if has_iso_date(date_str@) {
            let d2 = choose|d2: Date| is_iso_date_text(date_str@, d2);
            assert(d == d2);
            lemma_four_digit_years_in_range(d);
        }
    }
    let offset = weekday_index(d);
    let monday = match add_days(d, 0 - offset as i64) {
        Some(m) => m,
        None => return None,
    };
    proof {
        let x = day_number(d) + 3;
        assert(x == 7 * (x / 7) + x % 7) by {
            lemma_fundamental_div_mod(x, 7);
        }
        assert(((x / 7) * 7) % 7 == 0) by {
            lemma_mod_multiples_basic(x / 7, 7);
        }
        assert(day_number(monday) + 3 == (x / 7) * 7);
    }
    match add_days(monday, 6) {
        Some(sunday) => Some((monday, sunday)),
        None => None,
    }
}

/// The Monday and the Sunday of the week of a date written as `YYYY-MM-DD`.
pub fn week_bounds(date_str: &str) -> (res: (Date, Date))
    requires
        week_of(date_str@) is Some,
    ensures
        res == week_of(date_str@).unwrap(),
        is_week_of(date_str@, res.0, res.1),
{
    match try_week_bounds(date_str) {
        Some(bounds) => bounds,
        None => {
            assert(false);
            (Date { year: 0, month: 1, day: 1 }, Date { year: 0, month: 1, day: 1 })
        },
    }
}

/// The heading of the week of a date written as `YYYY-MM-DD`, as
/// `"Week of Mar 02 \u{2013} Mar 08, 2026"`.
pub fn week_label(date_str: &str) -> (res: String)
    requires
        week_of(date_str@) is Some,
    ensures
        res@ == week_heading(week_of(date_str@).unwrap().0, week_of(date_str@).unwrap().1),
{
    let (monday, sunday) = week_bounds(date_str);
    let mut res = String::from_str("Week of ");
    res.append(format_date(monday, "%b %d").as_str());
    res.append(" \u{2013} ");
    res.append(format_date(sunday, "%b %d, %Y").as_str());
    res
}

/// The key that orders weeks: the Monday of the week of a date written as
/// `YYYY-MM-DD`.
pub fn week_sort_key(date_str: &str) -> (res: Date)
    requires
        week_of(date_str@) is Some,
    ensures
        res == week_of(date_str@).unwrap().0,
{
    week_bounds(date_str).0
}

/// The display name of a month key `YYYY-MM`, as `"March 2026"`; the key
/// itself where it names no month.
pub fn month_display_name(month_key: &str) -> (res: String)
    ensures
        res@ == month_name_text(month_key@),
        forall|d: Date|
            #[trigger] is_iso_date_text(month_key@ + "-01"@, d) ==> res@ == date_text(d, "%B %Y"@),
{
    let mut first = String::from_str(month_key);
    first.append("-01");
    match parse_iso_date(first.as_str()) {
        Some(d) => format_date(d, "%B %Y"),
        None => String::from_str(month_key),
    }
}

} // verus!
