//! What the tool reports on: the entries of the current and the previous
//! month, and the previous month's spreadsheet.
use vstd::prelude::*;
use crate::dates::{
    Date, add_days, date_text, days_in_month, format_date, is_calendar_date,
    lemma_day_number_injective, lemma_day_number_ordered, lemma_day_numbers_count_days,
    lemma_month_key_text, lemma_month_year_ascii, min_year, next_day,
};
use crate::jira::Entry;
use crate::groups::lemma_filter_push;
use crate::text::{
    byte_prefix, has_byte_prefix, is_ascii_text, lemma_ascii_bytes, lemma_str_lt_irreflexive,
    starts_with, str_byte_prefix, str_less, str_lt, str_starts_with,
};
use crate::timesheet::months_readable;

verus! {

/// The months that the tool reports on, seen from one day.
pub struct ReportPeriod {
    /// The first month shown, the previous one, as `"YYYY-MM"`.
    pub cutoff: String,
    /// The previous month, as `"YYYY-MM"`.
    pub last_month: String,
    /// The file the previous month's spreadsheet is saved to, as
    /// `"march-2026.xlsx"`.
    pub xlsx_file: String,
}

/// What `s.to_lowercase()` gives.
pub uninterp spec fn lowercase_text(s: Seq<char>) -> Seq<char>;

/// An ASCII capital letter in lower case; any other character unchanged.
pub open spec fn ascii_lower(c: char) -> char {
    if 'A' <= c && c <= 'Z' {
        ((c as int) + 32) as char
    } else {
        c
    }
}

/// The text with its ASCII capital letters in lower case.
pub open spec fn ascii_lowercase(s: Seq<char>) -> Seq<char> {
    Seq::new(s.len(), |i: int| ascii_lower(s[i]))
}

/// `str::to_lowercase`. Trusted: the result is named by [`lowercase_text`];
/// on ASCII text it lowers the capital letters A to Z and keeps every other
/// character, as the Unicode lowercase mapping does.
#[verifier::external_body]
fn to_lowercase(s: &str) -> (res: String)
    ensures
        res@ == lowercase_text(s@),
        is_ascii_text(s@) ==> res@ == ascii_lowercase(s@),
{
    s.to_lowercase()
}

/// The last day of the month before that of `today`.
pub open spec fn last_of_previous_month(today: Date) -> Date {
    if today.month > 1 {
        Date {
            year: today.year,
            month: (today.month - 1) as u32,
            day: days_in_month(today.year as int, today.month - 1) as u32,
        }
    } else {
        Date { year: (today.year - 1) as i32, month: 12, day: 31 }
    }
}

/// The report period of `today`: the previous month, shown from its first
/// day on and exported to a spreadsheet named after it. `None` in the first
/// month that `chrono` holds, which has no previous month.
pub fn report_period(today: Date) -> (res: Option<ReportPeriod>)
    requires
        is_calendar_date(today),
    ensures
        res is Some <==> !(today.year == min_year() && today.month == 1),
        res matches Some(p) ==> {
            let last = last_of_previous_month(today);
            &&& p.cutoff@ == date_text(last, "%Y-%m"@)
            &&& p.last_month@ == date_text(last, "%Y-%m"@)
            &&& p.xlsx_file@ == ascii_lowercase(date_text(last, "%B-%Y"@)) + ".xlsx"@
        },
{
    let first = Date { year: today.year, month: today.month, day: 1 };
    let ghost l = last_of_previous_month(today);
    let ghost min_date = Date { year: -262143i32, month: 1u32, day: 1u32 };
    let ghost max_date = Date { year: 262142i32, month: 12u32, day: 31u32 };
    proof {
        if !(today.year == min_year() && today.month == 1) {
            lemma_day_numbers_count_days(l);
            assert(next_day(l) == first);
            if l != min_date {
                lemma_day_number_ordered(min_date, l);
            }
            if first != max_date {
                lemma_day_number_ordered(first, max_date);
            }
        }
    }
    let last = match add_days(first, -1) {
        Some(d) => d,
        None => return None,
    };
    proof {
        lemma_day_number_injective(last, l);
        lemma_month_year_ascii(last);
    }
    let first_of_last = Date { year: last.year, month: last.month, day: 1 };
    proof {
        lemma_month_key_text(first_of_last, last);
    }
    let cutoff = format_date(first_of_last, "%Y-%m");
    let last_month = format_date(last, "%Y-%m");
    let mut xlsx_file = to_lowercase(format_date(last, "%B-%Y").as_str());
    xlsx_file.append(".xlsx");
    Some(ReportPeriod { cutoff, last_month, xlsx_file })
}

/// What the tool writes out.
#[derive(PartialEq, Eq, Structural, Debug, Clone, Copy)]
pub enum Output {
    /// The previous month's tasks as a spreadsheet file.
    Spreadsheet,
    /// The tasks of each month as JSON.
    TasksJson,
    /// The entries as JSON.
    EntriesJson,
    /// The entries as a TOON table.
    Toon,
    /// The task table of each month.
    Tasks,
    /// The timesheet: months, weeks and days.
    Timesheet,
}

/// The output that the command-line flags ask for: the spreadsheet first,
/// then JSON of tasks or entries, then TOON, then the task table, and the
/// timesheet where no flag asks for another.
pub fn output_for(xlsx: bool, tasks: bool, json: bool, toon: bool) -> (res: Output)
    ensures
        res == (if xlsx {
            Output::Spreadsheet
        } else if tasks && json {
            Output::TasksJson
        } else if json {
            Output::EntriesJson
        } else if toon {
            Output::Toon
        } else if tasks {
            Output::Tasks
        } else {
            Output::Timesheet
        }),
{
    if xlsx {
        Output::Spreadsheet
    } else if tasks && json {
        Output::TasksJson
    } else if json {
        Output::EntriesJson
    } else if toon {
        Output::Toon
    } else if tasks {
        Output::Tasks
    } else {
        Output::Timesheet
    }
}

/// The entries whose month is `cutoff` or later (months compared as
/// strings).
pub open spec fn since(cutoff: Seq<char>) -> spec_fn(Entry) -> bool {
    |e: Entry| !str_lt(byte_prefix(e.started@, 7), cutoff)
}

/// The entries whose start falls in the month `month`.
pub open spec fn in_month(month: Seq<char>) -> spec_fn(Entry) -> bool {
    |e: Entry| starts_with(e.started@, month)
}

/// The entries of the month `cutoff` and later, in their order.
pub fn entries_since(entries: &Vec<Entry>, cutoff: &str) -> (res: Vec<Entry>)
    requires
        months_readable(entries@),
    ensures
        res@ == entries@.filter(since(cutoff@)),
{
    let ghost p = since(cutoff@);
    let mut res: Vec<Entry> = Vec::new();
    for i in 0..entries.len()
        invariant
            p == since(cutoff@),
            months_readable(entries@),
            res@ == entries@.take(i as int).filter(p),
    {
        let e = &entries[i];
        proof {
            assert(entries@.take(i + 1) =~= entries@.take(i as int).push(entries@[i as int]));
            crate::groups::lemma_filter_push(entries@.take(i as int), entries@[i as int], p);
            assert(has_byte_prefix(entries@[i as int].started@, 7));
        }
        let month = match str_byte_prefix(e.started.as_str(), 7) {
            Some(m) => m,
            None => {
                assert(false);
                String::new()
            },
        };
        if !str_less(month.as_str(), cutoff) {
            res.push(e.clone());
        }
    }
    assert(entries@.take(entries@.len() as int) =~= entries@);
    res
}

/// The spreadsheet's month is among the months shown: keeping the entries of
/// a month `YYYY-MM` and later, then those of that month, keeps all the
/// entries of that month.
pub proof fn lemma_month_within_period(es: Seq<Entry>, month: Seq<char>)
    requires
        month.len() == 7,
        is_ascii_text(month),
    ensures
        es.filter(since(month)).filter(in_month(month)) == es.filter(in_month(month)),
    decreases es.len(),
{
    reveal(Seq::filter);
    if es.len() > 0 {
        let rest = es.drop_last();
        let e = es.last();
        lemma_month_within_period(rest, month);
        assert(es =~= rest.push(e));
        lemma_filter_push(rest, e, since(month));
        lemma_filter_push(rest, e, in_month(month));
        if in_month(month)(e) {
            let s = e.started@;
            assert(s.take(7) == month);
            lemma_ascii_bytes(s, 7);
            assert(byte_prefix(s, 7) == month);
            lemma_str_lt_irreflexive(month);
            lemma_filter_push(rest.filter(since(month)), e, in_month(month));
        } else if since(month)(e) {
            lemma_filter_push(rest.filter(since(month)), e, in_month(month));
        }
    }
}

/// The entries whose start falls in the month `month`, in their order.
pub fn entries_in_month(entries: &Vec<Entry>, month: &str) -> (res: Vec<Entry>)
    ensures
        res@ == entries@.filter(in_month(month@)),
{
    let ghost p = in_month(month@);
    let mut res: Vec<Entry> = Vec::new();
    for i in 0..entries.len()
        invariant
            p == in_month(month@),
            res@ == entries@.take(i as int).filter(p),
    {
        let e = &entries[i];
        proof {
            assert(entries@.take(i + 1) =~= entries@.take(i as int).push(entries@[i as int]));
            crate::groups::lemma_filter_push(entries@.take(i as int), entries@[i as int], p);
        }
        if str_starts_with(e.started.as_str(), month) {
            res.push(e.clone());
        }
    }
    assert(entries@.take(entries@.len() as int) =~= entries@);
    res
}

} // verus!
