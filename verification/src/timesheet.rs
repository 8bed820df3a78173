//! The timesheet view: worklog entries grouped by month, then by week, then
//! by day, with the time logged on each day, in each week and in each month.
use vstd::prelude::*;
use crate::dates::{
    Date, date_text, format_date, has_iso_date, month_display_name, month_name_text, parse_iso_date,
    is_week_of, parsed_iso_date, try_week_bounds, week_heading, week_label, week_of,
};
use crate::groups::{
    Group, group_by_first_date, group_sorted, groups_view, has_key, is_grouping, lemma_filter_push,
    lemma_grouped_once,
    lemma_in_part, part, sorted_by_first_date, sorted_by_key, views,
};
use crate::jira::Entry;
use crate::sums::{
    add_checked, checked_total, lemma_checked_groups, lemma_checked_values, lemma_grouping_total,
    lemma_parts_bounded, sum_at, total_of_groups, values_at, widen, within,
};
use crate::text::{byte_prefix, has_byte_prefix, str_byte_prefix};

verus! {

/// One day of a week: its entries and the time logged on it.
pub struct DaySheet {
    /// The day, as `"YYYY-MM-DD"`.
    pub day: String,
    /// The heading of the day, as `"Monday, Mar 02"`, marked `"  (today)"`
    /// on the current day.
    pub label: String,
    pub is_today: bool,
    /// The positions of the day's entries, in their order.
    pub entries: Vec<usize>,
    /// The time logged on the day; `None` where adding it up in an `i64`
    /// overflows.
    pub seconds: Option<i64>,
    /// At least a full working day (8 hours) is logged.
    pub full_day: bool,
}

/// One week of a month.
pub struct WeekSheet {
    /// The heading of the week, as `"Week of Mar 02 \u{2013} Mar 08, 2026"`.
    pub label: String,
    pub entries: Vec<usize>,
    /// The days with entries, earliest first.
    pub days: Vec<DaySheet>,
    /// The time logged in the week, added up day by day; `None` where a day
    /// has none or the running total overflows an `i64`.
    pub seconds: Option<i64>,
    /// At least a full working week (40 hours) is logged.
    pub full_week: bool,
}

/// One month of the timesheet.
pub struct MonthSheet {
    /// The month, as `"YYYY-MM"`.
    pub key: String,
    /// The display name of the month, as `"March 2026"`.
    pub name: String,
    pub entries: Vec<usize>,
    /// The weeks with entries, earliest first.
    pub weeks: Vec<WeekSheet>,
    /// The time logged in the month, added up week by week; `None` where a
    /// week has none or the running total overflows an `i64`.
    pub seconds: Option<i64>,
}

/// Seconds logged in a day that make a full working day: 8 hours.
pub open spec fn full_day_seconds() -> int {
    28800
}

/// Seconds logged in a week that make a full working week: 40 hours.
pub open spec fn full_week_seconds() -> int {
    144000
}

pub open spec fn seconds_of(es: Seq<Entry>) -> Seq<int> {
    Seq::new(es.len(), |i: int| es[i].seconds as int)
}

/// The positions `0, 1, .., n - 1`.
pub open spec fn positions(n: nat) -> Seq<usize> {
    Seq::new(n, |i: int| i as usize)
}

/// The month of each entry: the first seven bytes of its start day.
pub open spec fn month_keys(es: Seq<Entry>) -> Seq<Seq<char>> {
    Seq::new(es.len(), |i: int| byte_prefix(es[i].started@, 7))
}

pub open spec fn start_days(es: Seq<Entry>) -> Seq<Seq<char>> {
    Seq::new(es.len(), |i: int| es[i].started@)
}

/// The heading of the week of each entry.
pub open spec fn week_labels(es: Seq<Entry>) -> Seq<Seq<char>> {
    Seq::new(
        es.len(),
        |i: int| week_heading(week_of(es[i].started@).unwrap().0, week_of(es[i].started@).unwrap().1),
    )
}

/// The Monday of the week of each entry.
pub open spec fn week_starts(es: Seq<Entry>) -> Seq<Date> {
    Seq::new(es.len(), |i: int| week_of(es[i].started@).unwrap().0)
}

/// Every entry's start has a month: its first seven bytes end on a character
/// boundary.
pub open spec fn months_readable(es: Seq<Entry>) -> bool {
    forall|i: int| 0 <= i < es.len() ==> has_byte_prefix(#[trigger] es[i].started@, 7)
}

/// Every entry's start is a day written as `YYYY-MM-DD`.
pub open spec fn starts_are_iso_dates(es: Seq<Entry>) -> bool {
    forall|i: int| 0 <= i < es.len() ==> has_iso_date(#[trigger] es[i].started@)
}

/// Every entry's week runs from a Monday to the Sunday six days later and
/// holds its start.
pub open spec fn weeks_in_calendar(es: Seq<Entry>) -> bool {
    forall|i: int|
        0 <= i < es.len() ==> is_week_of(
            es[i].started@,
            (#[trigger] week_of(es[i].started@)).unwrap().0,
            week_of(es[i].started@).unwrap().1,
        )
}

/// Every entry's start is a day whose week `chrono` can compute.
pub open spec fn weeks_readable(es: Seq<Entry>) -> bool {
    forall|i: int| 0 <= i < es.len() ==> (#[trigger] week_of(es[i].started@)) is Some
}

/// The heading of a day: its weekday, month and day of month, marked on the
/// current day.
pub open spec fn day_heading(day: Seq<char>, today: Seq<char>) -> Seq<char> {
    date_text(parsed_iso_date(day).unwrap(), "%A, %b %d"@) + (if day == today {
        "  (today)"@
    } else {
        Seq::<char>::empty()
    })
}

pub open spec fn days_view(ds: Seq<DaySheet>) -> Seq<(Seq<char>, Seq<usize>)> {
    Seq::new(ds.len(), |d: int| (ds[d].day@, ds[d].entries@))
}

pub open spec fn weeks_view(ws: Seq<WeekSheet>) -> Seq<(Seq<char>, Seq<usize>)> {
    Seq::new(ws.len(), |w: int| (ws[w].label@, ws[w].entries@))
}

pub open spec fn months_view(ms: Seq<MonthSheet>) -> Seq<(Seq<char>, Seq<usize>)> {
    Seq::new(ms.len(), |m: int| (ms[m].key@, ms[m].entries@))
}

/// The totals of a list of days.
pub open spec fn day_totals(ds: Seq<DaySheet>) -> Seq<Option<int>> {
    Seq::new(ds.len(), |d: int| widen(ds[d].seconds))
}

/// The totals of a list of weeks.
pub open spec fn week_totals(ws: Seq<WeekSheet>) -> Seq<Option<int>> {
    Seq::new(ws.len(), |w: int| widen(ws[w].seconds))
}

pub open spec fn is_day_sheet(es: Seq<Entry>, today: Seq<char>, d: DaySheet) -> bool {
    &&& d.label@ == day_heading(d.day@, today)
    &&& d.is_today == (d.day@ == today)
    &&& widen(d.seconds) == checked_total(values_at(seconds_of(es), d.entries@))
    &&& d.full_day == (d.seconds matches Some(t) && t >= full_day_seconds())
}

pub open spec fn is_week_sheet(es: Seq<Entry>, today: Seq<char>, w: WeekSheet) -> bool {
    &&& is_grouping(start_days(es), w.entries@, days_view(w.days@))
    &&& sorted_by_key(days_view(w.days@))
    &&& forall|d: int| 0 <= d < w.days@.len() ==> is_day_sheet(es, today, #[trigger] w.days@[d])
    &&& widen(w.seconds) == checked_total(day_totals(w.days@))
    &&& w.full_week == (w.seconds matches Some(t) && t >= full_week_seconds())
}

pub open spec fn is_month_sheet(es: Seq<Entry>, today: Seq<char>, m: MonthSheet) -> bool {
    &&& m.name@ == month_name_text(m.key@)
    &&& is_grouping(week_labels(es), m.entries@, weeks_view(m.weeks@))
    &&& sorted_by_first_date(week_starts(es), weeks_view(m.weeks@))
    &&& forall|w: int| 0 <= w < m.weeks@.len() ==> is_week_sheet(es, today, #[trigger] m.weeks@[w])
    &&& widen(m.seconds) == checked_total(week_totals(m.weeks@))
}

/// `ms` is the timesheet of the entries `es` on the day `today`: the entries
/// grouped by month in increasing order of month, each month's entries
/// grouped by week in chronological order, each week's entries grouped by
/// day in increasing order, with the time logged in each group.
pub open spec fn is_timesheet(es: Seq<Entry>, today: Seq<char>, ms: Seq<MonthSheet>) -> bool {
    &&& is_grouping(month_keys(es), positions(es.len()), months_view(ms))
    &&& sorted_by_key(months_view(ms))
    &&& forall|m: int| 0 <= m < ms.len() ==> is_month_sheet(es, today, #[trigger] ms[m])
}

pub(crate) fn copy_positions(v: &Vec<usize>) -> (r: Vec<usize>)
    ensures
        r@ == v@,
{
    let mut r: Vec<usize> = Vec::new();
    for i in 0..v.len()
        invariant
            r@ == v@.take(i as int),
    {
        r.push(v[i]);
        assert(r@ =~= v@.take(i + 1));
    }
    assert(v@.take(v@.len() as int) =~= v@);
    r
}

/// The seconds of the entries at `members`, added up in an `i64` in their
/// order; `None` where a running total overflows.
pub(crate) fn sum_seconds(entries: &Vec<Entry>, members: &Vec<usize>) -> (s: Option<i64>)
    requires
        within(seconds_of(entries@), members@),
    ensures
        widen(s) == checked_total(values_at(seconds_of(entries@), members@)),
{
    let ghost vals = seconds_of(entries@);
    let mut s: Option<i64> = Some(0);
    assert(values_at(vals, members@.take(0)) =~= Seq::<Option<int>>::empty());
    for t in 0..members.len()
        invariant
            vals == seconds_of(entries@),
            within(vals, members@),
            widen(s) == checked_total(values_at(vals, members@.take(t as int))),
    {
        let m = members[t];
        proof {
            assert(values_at(vals, members@.take(t + 1)).drop_last() =~= values_at(
                vals,
                members@.take(t as int),
            ));
            assert(members@.take(t + 1)[t as int] == m);
            assert(vals[m as int] == entries@[m as int].seconds);
        }
        s = add_checked(s, Some(entries[m].seconds));
    }
    assert(members@.take(members@.len() as int) =~= members@);
    s
}

/// The sheet of one day, from the group of its entries.
fn day_sheet(entries: &Vec<Entry>, g: &Group, today: &String) -> (d: DaySheet)
    requires
        within(seconds_of(entries@), g.members@),
        parsed_iso_date(g.key@) is Some,
    ensures
        is_day_sheet(entries@, today@, d),
        d.day@ == g.key@,
        d.entries@ == g.members@,
{
    let date = match parse_iso_date(g.key.as_str()) {
        Some(date) => date,
        None => {
            assert(false);
            Date { year: 0, month: 1, day: 1 }
        },
    };
    let mut label = format_date(date, "%A, %b %d");
    let is_today = g.key == *today;
    if is_today {
        label.append("  (today)");
    }
    let seconds = sum_seconds(entries, &g.members);
    let full_day = match seconds {
        Some(t) => t >= 28800,
        None => false,
    };
    let d = DaySheet {
        day: g.key.clone(),
        label,
        is_today,
        entries: copy_positions(&g.members),
        seconds,
        full_day,
    };
    assert(d.label@ =~= day_heading(d.day@, today@));
    d
}

/// The first position of a group carries the group's key.
proof fn lemma_first_has_key(keys: Seq<Seq<char>>, idx: Seq<usize>, k: Seq<char>)
    requires
        part(keys, idx, k).len() > 0,
    ensures
        keys[part(keys, idx, k)[0] as int] == k,
{
    idx.lemma_filter_pred(crate::groups::has_key(keys, k), 0);
}

/// The sheet of one week, from the group of its entries.
fn week_sheet(entries: &Vec<Entry>, starts: &Vec<String>, g: &Group, today: &String) -> (w:
    WeekSheet)
    requires
        views(starts@) == start_days(entries@),
        weeks_readable(entries@),
        within(seconds_of(entries@), g.members@),
    ensures
        is_week_sheet(entries@, today@, w),
        w.label@ == g.key@,
        w.entries@ == g.members@,
{
    let ghost vals = seconds_of(entries@);
    let ghost sd = start_days(entries@);
    assert(views(starts@).len() == starts@.len());
    assert(start_days(entries@).len() == entries@.len());
    assert(vals.len() == entries@.len());
    assert(forall|j: int| 0 <= j < g.members@.len() ==> #[trigger] g.members@[j] < starts@.len());
    let dgs = group_sorted(starts, &g.members);
    let ghost dv = groups_view(dgs@);
    proof {
        lemma_parts_bounded(vals, sd, g.members@, dv);
    }
    let mut days: Vec<DaySheet> = Vec::new();
    let mut s: Option<i64> = Some(0);
    assert(day_totals(days@) =~= Seq::<Option<int>>::empty());
    for t in 0..dgs.len()
        invariant
            vals == seconds_of(entries@),
            sd == start_days(entries@),
            weeks_readable(entries@),
            dv == groups_view(dgs@),
            is_grouping(sd, g.members@, dv),
            forall|h: int| 0 <= h < dv.len() ==> within(vals, #[trigger] dv[h].1),
            days_view(days@) == dv.take(t as int),
            forall|d: int| 0 <= d < days@.len() ==> is_day_sheet(entries@, today@, #[trigger] days@[d]),
            widen(s) == checked_total(day_totals(days@)),
    {
        proof {
            assert(dv[t as int].1 == part(sd, g.members@, dv[t as int].0));
            assert(dv[t as int].1.len() > 0);
            lemma_first_has_key(sd, g.members@, dv[t as int].0);
            let m0 = dv[t as int].1[0];
            assert(within(vals, dv[t as int].1));
            assert(m0 < entries@.len());
            assert(week_of(entries@[m0 as int].started@) is Some);
            assert(sd[m0 as int] == entries@[m0 as int].started@);
        }
        let day = day_sheet(entries, &dgs[t], today);
        s = add_checked(s, day.seconds);
        let ghost before = days@;
        days.push(day);
        assert(day_totals(days@).drop_last() =~= day_totals(before));
        assert(days_view(before).len() == t);
        assert forall|u: int| 0 <= u < t + 1 implies #[trigger] days_view(days@)[u] == dv.take(t + 1)[u] by {
            if u < t {
                assert(days@[u] == before[u]);
                assert(days_view(before)[u] == dv.take(t as int)[u]);
            }
        }
        assert(days_view(days@) =~= dv.take(t + 1));
    }
    assert(dv.take(dv.len() as int) =~= dv);
    let full_week = match s {
        Some(x) => x >= 144000,
        None => false,
    };
    WeekSheet { label: g.key.clone(), entries: copy_positions(&g.members), days, seconds: s, full_week }
}

/// The sheet of one month, from the group of its entries.
fn month_sheet(
    entries: &Vec<Entry>,
    labels: &Vec<String>,
    mondays: &Vec<Date>,
    starts: &Vec<String>,
    g: &Group,
    today: &String,
) -> (m: MonthSheet)
    requires
        views(labels@) == week_labels(entries@),
        mondays@ == week_starts(entries@),
        views(starts@) == start_days(entries@),
        weeks_readable(entries@),
        within(seconds_of(entries@), g.members@),
    ensures
        is_month_sheet(entries@, today@, m),
        m.key@ == g.key@,
        m.entries@ == g.members@,
{
    let ghost vals = seconds_of(entries@);
    let ghost wl = week_labels(entries@);
    assert(views(labels@).len() == labels@.len());
    assert(wl.len() == entries@.len());
    assert(vals.len() == entries@.len());
    assert(forall|j: int|
        0 <= j < g.members@.len() ==> #[trigger] g.members@[j] < labels@.len() && g.members@[j]
            < mondays@.len());
    let wgs = group_by_first_date(labels, mondays, &g.members);
    let ghost wv = groups_view(wgs@);
    proof {
        lemma_parts_bounded(vals, wl, g.members@, wv);
    }
    let mut weeks: Vec<WeekSheet> = Vec::new();
    let mut s: Option<i64> = Some(0);
    assert(week_totals(weeks@) =~= Seq::<Option<int>>::empty());
    for t in 0..wgs.len()
        invariant
            vals == seconds_of(entries@),
            wl == week_labels(entries@),
            views(starts@) == start_days(entries@),
            weeks_readable(entries@),
            wv == groups_view(wgs@),
            forall|h: int| 0 <= h < wv.len() ==> within(vals, #[trigger] wv[h].1),
            weeks_view(weeks@) == wv.take(t as int),
            forall|w: int| 0 <= w < weeks@.len() ==> is_week_sheet(entries@, today@, #[trigger] weeks@[w]),
            widen(s) == checked_total(week_totals(weeks@)),
    {
        proof {
            assert(within(vals, wv[t as int].1));
        }
        let week = week_sheet(entries, starts, &wgs[t], today);
        s = add_checked(s, week.seconds);
        let ghost before = weeks@;
        weeks.push(week);
        assert(week_totals(weeks@).drop_last() =~= week_totals(before));
        assert(weeks_view(before).len() == t);
        assert forall|u: int| 0 <= u < t + 1 implies #[trigger] weeks_view(weeks@)[u] == wv.take(t + 1)[u] by {
            if u < t {
                assert(weeks@[u] == before[u]);
                assert(weeks_view(before)[u] == wv.take(t as int)[u]);
            }
        }
        assert(weeks_view(weeks@) =~= wv.take(t + 1));
    }
    assert(wv.take(wv.len() as int) =~= wv);
    MonthSheet {
        key: g.key.clone(),
        name: month_display_name(g.key.as_str()),
        entries: copy_positions(&g.members),
        weeks,
        seconds: s,
    }
}

/// Groups the worklog entries into the timesheet shown for the day `today`
/// (`"YYYY-MM-DD"`): by month, by week and by day, with the time logged in
/// each. `None` where the start of an entry is not a day whose week can be
/// computed.
pub fn timesheet(entries: &Vec<Entry>, today: &str) -> (res: Option<Vec<MonthSheet>>)
    requires
        months_readable(entries@),
    ensures
        res is Some <==> weeks_readable(entries@),
        starts_are_iso_dates(entries@) ==> res is Some,
        res is Some ==> weeks_in_calendar(entries@),
        res matches Some(ms) ==> is_timesheet(entries@, today@, ms@),
{
    let n = entries.len();
    let mut month_keys_v: Vec<String> = Vec::new();
    let mut labels: Vec<String> = Vec::new();
    let mut mondays: Vec<Date> = Vec::new();
    let mut starts: Vec<String> = Vec::new();
    let mut all: Vec<usize> = Vec::new();
    for i in 0..n
        invariant
            n == entries@.len(),
            months_readable(entries@),
            month_keys_v@.len() == i,
            labels@.len() == i,
            mondays@.len() == i,
            starts@.len() == i,
            all@ == positions(n as nat).take(i as int),
            forall|t: int| 0 <= t < i ==> (#[trigger] week_of(entries@[t].started@)) is Some,
            forall|t: int|
                0 <= t < i ==> is_week_of(
                    entries@[t].started@,
                    (#[trigger] week_of(entries@[t].started@)).unwrap().0,
                    week_of(entries@[t].started@).unwrap().1,
                ),
            forall|t: int| 0 <= t < i ==> #[trigger] month_keys_v@[t]@ == month_keys(entries@)[t],
            forall|t: int| 0 <= t < i ==> #[trigger] labels@[t]@ == week_labels(entries@)[t],
            forall|t: int| 0 <= t < i ==> #[trigger] mondays@[t] == week_starts(entries@)[t],
            forall|t: int| 0 <= t < i ==> #[trigger] starts@[t]@ == start_days(entries@)[t],
    {
        let e = &entries[i];
        assert(has_byte_prefix(entries@[i as int].started@, 7));
        let key = match str_byte_prefix(e.started.as_str(), 7) {
            Some(k) => k,
            None => {
                assert(false);
                String::new()
            },
        };
        let (monday, _sunday) = match try_week_bounds(e.started.as_str()) {
            Some(b) => b,
            None => {
                assert(!weeks_readable(entries@)) by {
                    assert(week_of(entries@[i as int].started@) is None);
                }
                assert(!starts_are_iso_dates(entries@)) by {
                    assert(!has_iso_date(entries@[i as int].started@));
                }
                return None;
            },
        };
        month_keys_v.push(key);
        labels.push(week_label(e.started.as_str()));
        mondays.push(monday);
        starts.push(e.started.clone());
        all.push(i);
        assert(all@ =~= positions(n as nat).take(i + 1));
    }
    assert(all@ =~= positions(n as nat));
    assert(views(month_keys_v@) =~= month_keys(entries@));
    assert(views(labels@) =~= week_labels(entries@));
    assert(mondays@ =~= week_starts(entries@));
    assert(views(starts@) =~= start_days(entries@));
    let ghost vals = seconds_of(entries@);
    let ghost mk = month_keys(entries@);
    assert(within(vals, all@));
    let today_s = String::from_str(today);
    let mgs = group_sorted(&month_keys_v, &all);
    let ghost mv = groups_view(mgs@);
    proof {
        lemma_parts_bounded(vals, mk, all@, mv);
    }
    let mut months: Vec<MonthSheet> = Vec::new();
    for t in 0..mgs.len()
        invariant
            vals == seconds_of(entries@),
            views(labels@) == week_labels(entries@),
            mondays@ == week_starts(entries@),
            views(starts@) == start_days(entries@),
            weeks_readable(entries@),
            today_s@ == today@,
            mv == groups_view(mgs@),
            forall|h: int| 0 <= h < mv.len() ==> within(vals, #[trigger] mv[h].1),
            months_view(months@) == mv.take(t as int),
            forall|m: int| 0 <= m < months@.len() ==> is_month_sheet(entries@, today@, #[trigger] months@[m]),
    {
        proof {
            assert(within(vals, mv[t as int].1));
        }
        let month = month_sheet(entries, &labels, &mondays, &starts, &mgs[t], &today_s);
        assert(month.key@ == mv[t as int].0 && month.entries@ == mv[t as int].1);
        let ghost before = months@;
        assert(months_view(before).len() == before.len());
        assert(mv.take(t as int).len() == t);
        months.push(month);
        assert(months@ == before.push(month));
        assert forall|u: int| 0 <= u < t implies #[trigger] months_view(months@)[u] == mv[u] by {
            assert(months@[u] == before[u]);
            assert(months_view(before)[u] == mv.take(t as int)[u]);
        }
        assert(months_view(months@) =~= mv.take(t + 1));
    }
    assert(mv.take(mv.len() as int) =~= mv);
    Some(months)
}

/// The time of the months of a list whose totals are all computed, added
/// up month by month.
pub open spec fn months_time(ms: Seq<MonthSheet>) -> int
    decreases ms.len(),
{
    if ms.len() == 0 {
        0
    } else {
        months_time(ms.drop_last()) + ms.last().seconds.unwrap()
    }
}

/// In a timesheet on the day `today`, a day is marked as today exactly when
/// it is `today`, and its heading is its weekday, month and day of month,
/// followed by `"  (today)"` on that day only.
pub proof fn lemma_today_marked(
    es: Seq<Entry>,
    today: Seq<char>,
    ms: Seq<MonthSheet>,
    m: int,
    w: int,
    d: int,
)
    requires
        is_timesheet(es, today, ms),
        0 <= m < ms.len(),
        0 <= w < ms[m].weeks@.len(),
        0 <= d < ms[m].weeks@[w].days@.len(),
    ensures
        ms[m].weeks@[w].days@[d].is_today <==> ms[m].weeks@[w].days@[d].day@ == today,
        ms[m].weeks@[w].days@[d].label@ == date_text(
            parsed_iso_date(ms[m].weeks@[w].days@[d].day@).unwrap(),
            "%A, %b %d"@,
        ) + (if ms[m].weeks@[w].days@[d].is_today {
            "  (today)"@
        } else {
            ""@
        }),
{
    assert(is_month_sheet(es, today, ms[m]));
    assert(is_week_sheet(es, today, ms[m].weeks@[w]));
    assert(is_day_sheet(es, today, ms[m].weeks@[w].days@[d]));
    reveal_strlit("");
}

/// The time of a day, where it is computed, is the time logged by its
/// entries.
proof fn lemma_day_time(es: Seq<Entry>, today: Seq<char>, d: DaySheet)
    requires
        is_day_sheet(es, today, d),
    ensures
        d.seconds matches Some(t) ==> t == sum_at(seconds_of(es), d.entries@),
{
    lemma_checked_values(seconds_of(es), d.entries@);
}

/// The time of a week, where it is computed, is the time logged by its
/// entries, and every day of the week has its time computed.
pub proof fn lemma_week_time(es: Seq<Entry>, today: Seq<char>, w: WeekSheet)
    requires
        is_week_sheet(es, today, w),
    ensures
        w.seconds matches Some(t) ==> t == sum_at(seconds_of(es), w.entries@),
        w.seconds is Some ==> forall|d: int| 0 <= d < w.days@.len() ==> (#[trigger] w.days@[d]).seconds is Some,
{
    let vals = seconds_of(es);
    let xs = day_totals(w.days@);
    let dv = days_view(w.days@);
    assert forall|i: int| 0 <= i < xs.len() implies (#[trigger] xs[i] matches Some(v) ==> v == sum_at(vals, dv[i].1)) by {
        assert(is_day_sheet(es, today, w.days@[i]));
        lemma_day_time(es, today, w.days@[i]);
    }
    lemma_checked_groups(xs, vals, dv);
    lemma_grouping_total(vals, start_days(es), w.entries@, dv);
    if w.seconds is Some {
        assert forall|d: int| 0 <= d < w.days@.len() implies (#[trigger] w.days@[d]).seconds is Some by {
            assert(xs[d] is Some);
        }
    }
}

/// The time of a month, where it is computed, is the time logged by its
/// entries, and every week of the month has its time computed.
pub proof fn lemma_month_time(es: Seq<Entry>, today: Seq<char>, m: MonthSheet)
    requires
        is_month_sheet(es, today, m),
    ensures
        m.seconds matches Some(t) ==> t == sum_at(seconds_of(es), m.entries@),
        m.seconds is Some ==> forall|w: int| 0 <= w < m.weeks@.len() ==> (#[trigger] m.weeks@[w]).seconds is Some,
{
    let vals = seconds_of(es);
    let xs = week_totals(m.weeks@);
    let wv = weeks_view(m.weeks@);
    assert forall|i: int| 0 <= i < xs.len() implies (#[trigger] xs[i] matches Some(v) ==> v == sum_at(vals, wv[i].1)) by {
        assert(is_week_sheet(es, today, m.weeks@[i]));
        lemma_week_time(es, today, m.weeks@[i]);
    }
    lemma_checked_groups(xs, vals, wv);
    lemma_grouping_total(vals, week_labels(es), m.entries@, wv);
    if m.seconds is Some {
        assert forall|w: int| 0 <= w < m.weeks@.len() implies (#[trigger] m.weeks@[w]).seconds is Some by {
            assert(xs[w] is Some);
        }
    }
}

proof fn lemma_months_time(es: Seq<Entry>, today: Seq<char>, ms: Seq<MonthSheet>)
    requires
        forall|m: int| 0 <= m < ms.len() ==> is_month_sheet(es, today, #[trigger] ms[m]),
        forall|m: int| 0 <= m < ms.len() ==> (#[trigger] ms[m]).seconds is Some,
    ensures
        months_time(ms) == total_of_groups(seconds_of(es), months_view(ms)),
    decreases ms.len(),
{
    if ms.len() > 0 {
        let rest = ms.drop_last();
        assert forall|m: int| 0 <= m < rest.len() implies is_month_sheet(es, today, #[trigger] rest[m]) by {
            assert(rest[m] == ms[m]);
        }
        assert forall|m: int| 0 <= m < rest.len() implies (#[trigger] rest[m]).seconds is Some by {
            assert(rest[m] == ms[m]);
        }
        lemma_months_time(es, today, rest);
        assert(months_view(ms).drop_last() =~= months_view(rest));
        assert(is_month_sheet(es, today, ms[ms.len() - 1]));
        assert(ms[ms.len() - 1].seconds is Some);
        lemma_month_time(es, today, ms.last());
    }
}

/// Where every month's time is computed, the months of a timesheet account
/// for all the time logged: their times add up to the time of all entries.
pub proof fn lemma_timesheet_time(es: Seq<Entry>, today: Seq<char>, ms: Seq<MonthSheet>)
    requires
        is_timesheet(es, today, ms),
        forall|m: int| 0 <= m < ms.len() ==> (#[trigger] ms[m]).seconds is Some,
    ensures
        months_time(ms) == sum_at(seconds_of(es), positions(es.len())),
{
    lemma_grouping_total(seconds_of(es), month_keys(es), positions(es.len()), months_view(ms));
    lemma_months_time(es, today, ms);
}

/// Every day of a timesheet lies in the week and the month it is listed
/// under: its week has the heading of that week, and its first seven bytes
/// are the month's key.
pub proof fn lemma_days_in_their_week_and_month(
    es: Seq<Entry>,
    today: Seq<char>,
    ms: Seq<MonthSheet>,
    m: int,
    w: int,
    d: int,
)
    requires
        is_timesheet(es, today, ms),
        0 <= m < ms.len(),
        0 <= w < ms[m].weeks@.len(),
        0 <= d < ms[m].weeks@[w].days@.len(),
    ensures
        ({
            let day = ms[m].weeks@[w].days@[d].day@;
            &&& week_heading(week_of(day).unwrap().0, week_of(day).unwrap().1) == ms[m].weeks@[w].label@
            &&& byte_prefix(day, 7) == ms[m].key@
        }),
{
    let month = ms[m];
    assert(is_month_sheet(es, today, month));
    let week = month.weeks@[w];
    assert(is_week_sheet(es, today, week));
    let dv = days_view(week.days@);
    let wv = weeks_view(month.weeks@);
    let mv = months_view(ms);
    assert(dv[d].1 == part(start_days(es), week.entries@, dv[d].0));
    assert(dv[d].1.len() > 0);
    let i = dv[d].1[0];
    assert(dv[d].1.contains(i));
    lemma_in_part(start_days(es), week.entries@, dv[d].0, i);
    assert(wv[w].1 == part(week_labels(es), month.entries@, wv[w].0));
    lemma_in_part(week_labels(es), month.entries@, wv[w].0, i);
    assert(mv[m].1 == part(month_keys(es), positions(es.len()), mv[m].0));
    lemma_in_part(month_keys(es), positions(es.len()), mv[m].0, i);
    assert(start_days(es)[i as int] == es[i as int].started@);
    assert(week_labels(es)[i as int] == week_heading(
        week_of(es[i as int].started@).unwrap().0,
        week_of(es[i as int].started@).unwrap().1,
    ));
    assert(month_keys(es)[i as int] == byte_prefix(es[i as int].started@, 7));
}

/// The entries that start on the day `day`.
pub open spec fn starts_on(day: Seq<char>) -> spec_fn(Entry) -> bool {
    |e: Entry| e.started@ == day
}

/// The entries at the positions `members`, in order: the rows of a table.
pub open spec fn rows(es: Seq<Entry>, members: Seq<usize>) -> Seq<Entry> {
    Seq::new(members.len(), |j: int| es[members[j] as int])
}

/// Filtering by a weaker condition first changes nothing.
proof fn lemma_filter_filter(s: Seq<usize>, p: spec_fn(usize) -> bool, q: spec_fn(usize) -> bool)
    requires
        forall|i: int| 0 <= i < s.len() ==> q(#[trigger] s[i]) ==> p(s[i]),
    ensures
        s.filter(p).filter(q) == s.filter(q),
    decreases s.len(),
{
    reveal(Seq::filter);
    if s.len() > 0 {
        let rest = s.drop_last();
        assert forall|i: int| 0 <= i < rest.len() && q(#[trigger] rest[i]) implies p(rest[i]) by {
            assert(rest[i] == s[i]);
        }
        lemma_filter_filter(rest, p, q);
        let x = s.last();
        assert(s =~= rest.push(x));
        lemma_filter_push(rest, x, p);
        lemma_filter_push(rest, x, q);
        lemma_filter_push(rest.filter(p), x, q);
    }
}

/// The rows of the positions whose start is `day` are the entries that
/// start on `day`, in their order.
proof fn lemma_rows_of_day(es: Seq<Entry>, day: Seq<char>, k: int)
    requires
        0 <= k <= es.len(),
        es.len() <= usize::MAX,
    ensures
        rows(es, positions(es.len()).take(k).filter(has_key(start_days(es), day)))
            == es.take(k).filter(starts_on(day)),
    decreases k,
{
    let p = has_key(start_days(es), day);
    if k > 0 {
        lemma_rows_of_day(es, day, k - 1);
        let pk = positions(es.len()).take(k);
        let pk1 = positions(es.len()).take(k - 1);
        assert(pk =~= pk1.push((k - 1) as usize));
        assert(es.take(k) =~= es.take(k - 1).push(es[k - 1]));
        lemma_filter_push(pk1, (k - 1) as usize, p);
        lemma_filter_push(es.take(k - 1), es[k - 1], starts_on(day));
        let f1 = pk1.filter(p);
        assert(rows(es, f1.push((k - 1) as usize)) =~= rows(es, f1).push(es[k - 1]));
    } else {
        assert(positions(es.len()).take(0).filter(p) =~= Seq::<usize>::empty()) by {
            reveal(Seq::filter);
        }
        assert(es.take(0).filter(starts_on(day)) =~= Seq::<Entry>::empty()) by {
            reveal(Seq::filter);
        }
    }
}

/// The rows listed on a day of a timesheet are exactly the entries that
/// start on that day, in their order. So a timesheet shows the same rows
/// under each day for any reordering of the entries that keeps the order of
/// the entries of each day.
pub proof fn lemma_day_rows(es: Seq<Entry>, today: Seq<char>, ms: Seq<MonthSheet>, m: int, w: int, d: int)
    requires
        is_timesheet(es, today, ms),
        es.len() <= usize::MAX,
        0 <= m < ms.len(),
        0 <= w < ms[m].weeks@.len(),
        0 <= d < ms[m].weeks@[w].days@.len(),
    ensures
        rows(es, ms[m].weeks@[w].days@[d].entries@) == es.filter(
            starts_on(ms[m].weeks@[w].days@[d].day@),
        ),
{
    let month = ms[m];
    let week = month.weeks@[w];
    let day = week.days@[d];
    let dd = day.day@;
    assert(is_month_sheet(es, today, month));
    assert(is_week_sheet(es, today, week));
    lemma_days_in_their_week_and_month(es, today, ms, m, w, d);
    let all = positions(es.len());
    let (sd, wl, mk) = (start_days(es), week_labels(es), month_keys(es));
    let (pk, pl, pd) = (has_key(mk, month.key@), has_key(wl, week.label@), has_key(sd, dd));
    assert(months_view(ms)[m].1 == part(mk, all, months_view(ms)[m].0));
    assert(weeks_view(month.weeks@)[w].1 == part(wl, month.entries@, weeks_view(month.weeks@)[w].0));
    assert(days_view(week.days@)[d].1 == part(sd, week.entries@, days_view(week.days@)[d].0));
    assert(day.entries@ == all.filter(pk).filter(pl).filter(pd));
    assert forall|i: int| 0 <= i < all.filter(pk).len() && pd(#[trigger] all.filter(pk)[i]) implies pl(all.filter(pk)[i]) by {
        let x = all.filter(pk)[i];
        assert(all.filter(pk).contains(x));
        crate::groups::lemma_in_part(mk, all, month.key@, x);
        assert(sd[x as int] == es[x as int].started@);
    }
    lemma_filter_filter(all.filter(pk), pl, pd);
    assert forall|i: int| 0 <= i < all.len() && pd(#[trigger] all[i]) implies pk(all[i]) by {
        assert(all[i] as int == i);
        assert(sd[i] == es[i].started@);
    }
    lemma_filter_filter(all, pk, pd);
    lemma_rows_of_day(es, dd, es.len() as int);
    assert(all.take(es.len() as int) =~= all);
    assert(es.take(es.len() as int) =~= es);
}

/// `i` is listed on day `d` of week `w` of month `m`.
pub open spec fn shown_at(ms: Seq<MonthSheet>, i: usize, m: int, w: int, d: int) -> bool {
    &&& 0 <= m < ms.len()
    &&& 0 <= w < ms[m].weeks@.len()
    &&& 0 <= d < ms[m].weeks@[w].days@.len()
    &&& ms[m].weeks@[w].days@[d].entries@.contains(i)
}

/// Every entry of a timesheet is listed exactly once: under the month of its
/// start, the heading of its week and its start day.
pub proof fn lemma_entry_shown_once(es: Seq<Entry>, today: Seq<char>, ms: Seq<MonthSheet>, i: usize)
    requires
        is_timesheet(es, today, ms),
        i < es.len(),
    ensures
        exists|m: int, w: int, d: int|
            #[trigger] shown_at(ms, i, m, w, d) && ms[m].key@ == month_keys(es)[i as int]
                && ms[m].weeks@[w].label@ == week_labels(es)[i as int]
                && ms[m].weeks@[w].days@[d].day@ == es[i as int].started@,
        forall|m: int, w: int, d: int, m2: int, w2: int, d2: int|
            #[trigger] shown_at(ms, i, m, w, d) && #[trigger] shown_at(ms, i, m2, w2, d2) ==> m == m2
                && w == w2 && d == d2,
{
    let all = positions(es.len());
    let mv = months_view(ms);
    assert(all[i as int] == i);
    lemma_grouped_once(month_keys(es), all, mv, i);
    let m0 = choose|g: int| 0 <= g < mv.len() && mv[g].0 == month_keys(es)[i as int] && #[trigger] mv[g].1.contains(i);
    let month = ms[m0];
    assert(is_month_sheet(es, today, month));
    let wv = weeks_view(month.weeks@);
    lemma_grouped_once(week_labels(es), month.entries@, wv, i);
    let w0 = choose|g: int| 0 <= g < wv.len() && wv[g].0 == week_labels(es)[i as int] && #[trigger] wv[g].1.contains(i);
    let week = month.weeks@[w0];
    assert(is_week_sheet(es, today, week));
    let dv = days_view(week.days@);
    lemma_grouped_once(start_days(es), week.entries@, dv, i);
    let d0 = choose|g: int| 0 <= g < dv.len() && dv[g].0 == start_days(es)[i as int] && #[trigger] dv[g].1.contains(i);
    assert(shown_at(ms, i, m0, w0, d0));
    assert forall|m: int, w: int, d: int, m2: int, w2: int, d2: int|
        #[trigger] shown_at(ms, i, m, w, d) && #[trigger] shown_at(ms, i, m2, w2, d2) implies m == m2
            && w == w2 && d == d2 by {
        assert(is_month_sheet(es, today, ms[m]));
        assert(is_month_sheet(es, today, ms[m2]));
        assert(is_week_sheet(es, today, ms[m].weeks@[w]));
        assert(is_week_sheet(es, today, ms[m2].weeks@[w2]));
        let dv1 = days_view(ms[m].weeks@[w].days@);
        let dv2 = days_view(ms[m2].weeks@[w2].days@);
        assert(dv1[d].1 == part(start_days(es), ms[m].weeks@[w].entries@, dv1[d].0));
        assert(dv2[d2].1 == part(start_days(es), ms[m2].weeks@[w2].entries@, dv2[d2].0));
        lemma_in_part(start_days(es), ms[m].weeks@[w].entries@, dv1[d].0, i);
        lemma_in_part(start_days(es), ms[m2].weeks@[w2].entries@, dv2[d2].0, i);
        let wv1 = weeks_view(ms[m].weeks@);
        let wv2 = weeks_view(ms[m2].weeks@);
        assert(wv1[w].1 == part(week_labels(es), ms[m].entries@, wv1[w].0));
        assert(wv2[w2].1 == part(week_labels(es), ms[m2].entries@, wv2[w2].0));
        lemma_in_part(week_labels(es), ms[m].entries@, wv1[w].0, i);
        lemma_in_part(week_labels(es), ms[m2].entries@, wv2[w2].0, i);
        assert(mv[m].1.contains(i) && mv[m2].1.contains(i));
        assert(m == m2);
        lemma_grouped_once(week_labels(es), ms[m].entries@, wv1, i);
        assert(wv1[w].1.contains(i) && wv1[w2].1.contains(i));
        assert(w == w2);
        lemma_grouped_once(start_days(es), ms[m].weeks@[w].entries@, dv1, i);
        assert(dv1[d].1.contains(i) && dv1[d2].1.contains(i));
    }
}

} // verus!
