//! What the timesheet view shows, and that it depends on the entries of each
//! day and their order, not on how the days are ordered in the list of
//! entries.
use vstd::prelude::*;
use crate::dates::{Date, date_le, date_lt, is_week_of, lemma_week_heading_identifies_week, week_heading, week_of};
use crate::groups::{
    group_keys, lemma_group_keys_present, lemma_in_part, lemma_sorted_unique, orders,
    part, strictly_sorted,
};
use crate::jira::Entry;
use crate::sums::{
    lemma_grouping_total, lemma_parts_bounded, sum_at, total_of_groups, values_at,
    widen, within,
};
use crate::text::{
    byte_prefix, lemma_str_lt_asymmetric, lemma_str_lt_irreflexive, lemma_str_lt_total, str_lt,
};
use crate::timesheet::{
    DaySheet, MonthSheet, WeekSheet, day_totals, days_view, is_day_sheet, is_month_sheet, is_timesheet,
    is_week_sheet, lemma_day_rows, month_keys, months_view, positions, rows, seconds_of, start_days,
    starts_on, week_labels, week_starts, week_totals, weeks_in_calendar, weeks_view,
};

verus! {

/// What is shown of a day: its date, heading, time, full-day mark and rows.
pub open spec fn day_shown(es: Seq<Entry>, d: DaySheet) -> (
    Seq<char>,
    Seq<char>,
    Option<i64>,
    bool,
    Seq<Entry>,
) {
    (d.day@, d.label@, d.seconds, d.full_day, rows(es, d.entries@))
}

pub open spec fn days_shown(es: Seq<Entry>, ds: Seq<DaySheet>) -> Seq<
    (Seq<char>, Seq<char>, Option<i64>, bool, Seq<Entry>),
> {
    Seq::new(ds.len(), |d: int| day_shown(es, ds[d]))
}

/// What is shown of a week: its heading, time, full-week mark and days.
pub open spec fn week_shown(es: Seq<Entry>, w: WeekSheet) -> (
    Seq<char>,
    Option<i64>,
    bool,
    Seq<(Seq<char>, Seq<char>, Option<i64>, bool, Seq<Entry>)>,
) {
    (w.label@, w.seconds, w.full_week, days_shown(es, w.days@))
}

pub open spec fn weeks_shown(es: Seq<Entry>, ws: Seq<WeekSheet>) -> Seq<
    (Seq<char>, Option<i64>, bool, Seq<(Seq<char>, Seq<char>, Option<i64>, bool, Seq<Entry>)>),
> {
    Seq::new(ws.len(), |w: int| week_shown(es, ws[w]))
}

/// What is shown of a month: its key, name, time, number of entries and
/// weeks.
pub open spec fn month_shown(es: Seq<Entry>, m: MonthSheet) -> (
    Seq<char>,
    Seq<char>,
    Option<i64>,
    nat,
    Seq<(Seq<char>, Option<i64>, bool, Seq<(Seq<char>, Seq<char>, Option<i64>, bool, Seq<Entry>)>)>,
) {
    (m.key@, m.name@, m.seconds, m.entries@.len(), weeks_shown(es, m.weeks@))
}

/// What a timesheet shows of the entries `es`, month by month.
pub open spec fn timesheet_shown(es: Seq<Entry>, ms: Seq<MonthSheet>) -> Seq<
    (
        Seq<char>,
        Seq<char>,
        Option<i64>,
        nat,
        Seq<(Seq<char>, Option<i64>, bool, Seq<(Seq<char>, Seq<char>, Option<i64>, bool, Seq<Entry>)>)>,
    ),
> {
    Seq::new(ms.len(), |m: int| month_shown(es, ms[m]))
}

/// `es2` lists, for every day, the same entries in the same order as `es1`:
/// it is `es1` reordered, keeping the order of the entries of each day.
pub open spec fn same_days(es1: Seq<Entry>, es2: Seq<Entry>) -> bool {
    forall|d: Seq<char>| #[trigger] es1.filter(starts_on(d)) == es2.filter(starts_on(d))
}

/// The month of an entry.
pub open spec fn month_of(e: Entry) -> Seq<char> {
    byte_prefix(e.started@, 7)
}

/// The heading of the week of an entry.
pub open spec fn week_label_of(e: Entry) -> Seq<char> {
    week_heading(week_of(e.started@).unwrap().0, week_of(e.started@).unwrap().1)
}

/// The Monday of the week of an entry.
pub open spec fn monday_of(e: Entry) -> Date {
    week_of(e.started@).unwrap().0
}

/// The week of the entry runs from a Monday to the Sunday six days later.
pub open spec fn in_calendar(e: Entry) -> bool {
    is_week_of(e.started@, week_of(e.started@).unwrap().0, week_of(e.started@).unwrap().1)
}

/// The keys of a list of months, weeks or days.
pub open spec fn month_keys_of(ms: Seq<MonthSheet>) -> Seq<Seq<char>> {
    Seq::new(ms.len(), |m: int| ms[m].key@)
}

pub open spec fn week_keys_of(ws: Seq<WeekSheet>) -> Seq<Seq<char>> {
    Seq::new(ws.len(), |w: int| ws[w].label@)
}

pub open spec fn day_keys_of(ds: Seq<DaySheet>) -> Seq<Seq<char>> {
    Seq::new(ds.len(), |d: int| ds[d].day@)
}

/// The order of strings, as a function.
pub open spec fn text_order() -> spec_fn(Seq<char>, Seq<char>) -> bool {
    |x: Seq<char>, y: Seq<char>| str_lt(x, y)
}

/// The Monday of the week headed `label` among the entries `es`.
pub open spec fn label_monday(es: Seq<Entry>, label: Seq<char>) -> Date {
    monday_of(choose|e: Entry| es.contains(e) && week_label_of(e) == label)
}

/// The order of week headings by their Mondays among the entries `es`.
pub open spec fn week_order(es: Seq<Entry>) -> spec_fn(Seq<char>, Seq<char>) -> bool {
    |x: Seq<char>, y: Seq<char>| date_lt(label_monday(es, x), label_monday(es, y))
}

proof fn lemma_moves(a: Seq<Entry>, b: Seq<Entry>, e: Entry)
    requires
        a.contains(e),
        forall|d: Seq<char>| #[trigger] a.filter(starts_on(d)) == b.filter(starts_on(d)),
    ensures
        b.contains(e),
{
    let i = choose|i: int| 0 <= i < a.len() && a[i] == e;
    let p = starts_on(e.started@);
    a.lemma_filter_contains(p, i);
    assert(a.filter(p) == b.filter(p));
    b.lemma_filter_contains_rev(p, e);
}

/// Lists with the same days hold the same entries.
proof fn lemma_same_entries(es1: Seq<Entry>, es2: Seq<Entry>)
    requires
        same_days(es1, es2),
    ensures
        forall|e: Entry| es1.contains(e) <==> es2.contains(e),
{
    assert forall|d: Seq<char>| #[trigger] es2.filter(starts_on(d)) == es1.filter(starts_on(d)) by {
        assert(es1.filter(starts_on(d)) == es2.filter(starts_on(d)));
    }
    assert forall|e: Entry| es1.contains(e) implies es2.contains(e) by {
        lemma_moves(es1, es2, e);
    }
    assert forall|e: Entry| es2.contains(e) implies es1.contains(e) by {
        lemma_moves(es2, es1, e);
    }
}

/// Entries whose weeks have the same heading have the same Monday, and the
/// other way round.
proof fn lemma_label_monday(e: Entry, f: Entry)
    requires
        in_calendar(e),
        in_calendar(f),
    ensures
        (week_label_of(e) == week_label_of(f)) == (monday_of(e) == monday_of(f)),
{
    let (me, se) = (week_of(e.started@).unwrap().0, week_of(e.started@).unwrap().1);
    let (mf, sf) = (week_of(f.started@).unwrap().0, week_of(f.started@).unwrap().1);
    lemma_week_heading_identifies_week(me, se, mf, sf);
}

proof fn lemma_calendar_entries(es: Seq<Entry>)
    requires
        weeks_in_calendar(es),
    ensures
        forall|e: Entry| es.contains(e) ==> #[trigger] in_calendar(e),
{
    assert forall|e: Entry| es.contains(e) implies #[trigger] in_calendar(e) by {
        let i = choose|i: int| 0 <= i < es.len() && es[i] == e;
        assert(week_of(es[i].started@) == week_of(e.started@));
    }
}

/// The months of a timesheet are the months of its entries.
proof fn lemma_months_present(es: Seq<Entry>, today: Seq<char>, ms: Seq<MonthSheet>)
    requires
        is_timesheet(es, today, ms),
        es.len() <= usize::MAX,
    ensures
        forall|k: Seq<char>|
            #[trigger] month_keys_of(ms).contains(k) <==> exists|e: Entry| es.contains(e) && month_of(e) == k,
{
    let all = positions(es.len());
    let mv = months_view(ms);
    lemma_group_keys_present(month_keys(es), all, mv);
    assert(group_keys(mv) =~= month_keys_of(ms));
    assert forall|k: Seq<char>| #[trigger] month_keys_of(ms).contains(k) implies exists|e: Entry|
        es.contains(e) && month_of(e) == k by {
        assert(group_keys(mv).contains(k));
        let j = choose|j: int| 0 <= j < all.len() && month_keys(es)[all[j] as int] == k;
        assert(all[j] as int == j);
        assert(es.contains(es[j]) && month_of(es[j]) == k);
    }
    assert forall|k: Seq<char>| (exists|e: Entry| es.contains(e) && month_of(e) == k) implies #[trigger] month_keys_of(ms).contains(k) by {
        let e = choose|e: Entry| es.contains(e) && month_of(e) == k;
        let i = choose|i: int| 0 <= i < es.len() && es[i] == e;
        assert(all[i] as int == i);
        assert(month_keys(es)[all[i] as int] == k);
        assert(group_keys(mv).contains(k));
    }
}

/// The weeks of a month of a timesheet are the weeks of the month's entries.
proof fn lemma_weeks_present(es: Seq<Entry>, today: Seq<char>, ms: Seq<MonthSheet>, m: int)
    requires
        is_timesheet(es, today, ms),
        es.len() <= usize::MAX,
        0 <= m < ms.len(),
    ensures
        forall|l: Seq<char>|
            #[trigger] week_keys_of(ms[m].weeks@).contains(l) <==> exists|e: Entry|
                es.contains(e) && month_of(e) == ms[m].key@ && week_label_of(e) == l,
{
    let all = positions(es.len());
    let month = ms[m];
    assert(is_month_sheet(es, today, month));
    let wv = weeks_view(month.weeks@);
    assert(months_view(ms)[m].1 == part(month_keys(es), all, months_view(ms)[m].0));
    lemma_group_keys_present(week_labels(es), month.entries@, wv);
    assert(group_keys(wv) =~= week_keys_of(month.weeks@));
    assert forall|l: Seq<char>| #[trigger] week_keys_of(month.weeks@).contains(l) implies exists|e: Entry|
        es.contains(e) && month_of(e) == month.key@ && week_label_of(e) == l by {
        assert(group_keys(wv).contains(l));
        let j = choose|j: int|
            0 <= j < month.entries@.len() && week_labels(es)[month.entries@[j] as int] == l;
        let x = month.entries@[j];
        assert(month.entries@.contains(x));
        lemma_in_part(month_keys(es), all, month.key@, x);
        let i = choose|i: int| 0 <= i < all.len() && all[i] == x;
        assert(all[i] as int == i);
        assert(es.contains(es[x as int]) && month_of(es[x as int]) == month.key@ && week_label_of(es[x as int]) == l);
    }
    assert forall|l: Seq<char>| (exists|e: Entry|
        es.contains(e) && month_of(e) == month.key@ && week_label_of(e) == l) implies #[trigger] week_keys_of(
        month.weeks@,
    ).contains(l) by {
        let e = choose|e: Entry| es.contains(e) && month_of(e) == month.key@ && week_label_of(e) == l;
        let i = choose|i: int| 0 <= i < es.len() && es[i] == e;
        assert(all[i] as int == i);
        assert(all.contains(i as usize));
        lemma_in_part(month_keys(es), all, month.key@, i as usize);
        let j = choose|j: int| 0 <= j < month.entries@.len() && month.entries@[j] == i as usize;
        assert(week_labels(es)[month.entries@[j] as int] == l);
        assert(group_keys(wv).contains(l));
    }
}

/// The days of a week of a month of a timesheet are the days of its
/// entries.
proof fn lemma_days_present(es: Seq<Entry>, today: Seq<char>, ms: Seq<MonthSheet>, m: int, w: int)
    requires
        is_timesheet(es, today, ms),
        es.len() <= usize::MAX,
        0 <= m < ms.len(),
        0 <= w < ms[m].weeks@.len(),
    ensures
        forall|d: Seq<char>|
            #[trigger] day_keys_of(ms[m].weeks@[w].days@).contains(d) <==> exists|e: Entry|
                es.contains(e) && month_of(e) == ms[m].key@ && week_label_of(e) == ms[m].weeks@[w].label@
                    && e.started@ == d,
{
    let all = positions(es.len());
    let month = ms[m];
    assert(is_month_sheet(es, today, month));
    let week = month.weeks@[w];
    assert(is_week_sheet(es, today, week));
    let dv = days_view(week.days@);
    assert(months_view(ms)[m].1 == part(month_keys(es), all, months_view(ms)[m].0));
    assert(weeks_view(month.weeks@)[w].1 == part(week_labels(es), month.entries@, weeks_view(month.weeks@)[w].0));
    lemma_group_keys_present(start_days(es), week.entries@, dv);
    assert(group_keys(dv) =~= day_keys_of(week.days@));
    assert forall|d: Seq<char>| #[trigger] day_keys_of(week.days@).contains(d) implies exists|e: Entry|
        es.contains(e) && month_of(e) == month.key@ && week_label_of(e) == week.label@ && e.started@ == d by {
        assert(group_keys(dv).contains(d));
        let j = choose|j: int| 0 <= j < week.entries@.len() && start_days(es)[week.entries@[j] as int] == d;
        let x = week.entries@[j];
        assert(week.entries@.contains(x));
        lemma_in_part(week_labels(es), month.entries@, week.label@, x);
        lemma_in_part(month_keys(es), all, month.key@, x);
        let i = choose|i: int| 0 <= i < all.len() && all[i] == x;
        assert(all[i] as int == i);
        assert(es.contains(es[x as int]) && month_of(es[x as int]) == month.key@ && week_label_of(es[x as int])
            == week.label@ && es[x as int].started@ == d);
    }
    assert forall|d: Seq<char>| (exists|e: Entry|
        es.contains(e) && month_of(e) == month.key@ && week_label_of(e) == week.label@ && e.started@ == d)
        implies #[trigger] day_keys_of(week.days@).contains(d) by {
        let e = choose|e: Entry|
            es.contains(e) && month_of(e) == month.key@ && week_label_of(e) == week.label@ && e.started@ == d;
        let i = choose|i: int| 0 <= i < es.len() && es[i] == e;
        let x = i as usize;
        assert(all[i] as int == i);
        assert(all.contains(x));
        lemma_in_part(month_keys(es), all, month.key@, x);
        lemma_in_part(week_labels(es), month.entries@, week.label@, x);
        let j = choose|j: int| 0 <= j < week.entries@.len() && week.entries@[j] == x;
        assert(start_days(es)[week.entries@[j] as int] == d);
        assert(group_keys(dv).contains(d));
    }
}

proof fn lemma_text_order(a: Seq<Seq<char>>)
    ensures
        orders(a, text_order()),
{
    assert forall|x: Seq<char>| #[trigger] a.contains(x) implies !text_order()(x, x) by {
        lemma_str_lt_irreflexive(x);
    }
    assert forall|x: Seq<char>, y: Seq<char>| #[trigger] a.contains(x) && #[trigger] a.contains(y) implies !(
    text_order()(x, y) && text_order()(y, x)) by {
        lemma_str_lt_asymmetric(x, y);
    }
    assert forall|x: Seq<char>, y: Seq<char>| #[trigger] a.contains(x) && #[trigger] a.contains(y) && x != y
        implies text_order()(x, y) || text_order()(y, x) by {
        lemma_str_lt_total(x, y);
    }
}


/// Positions of the months, weeks and days of a timesheet are positions of
/// its entries.
proof fn lemma_sheet_within(es: Seq<Entry>, today: Seq<char>, ms: Seq<MonthSheet>, vals: Seq<int>, m: int, w: int)
    requires
        is_timesheet(es, today, ms),
        es.len() <= usize::MAX,
        vals.len() == es.len(),
        0 <= m < ms.len(),
        0 <= w < ms[m].weeks@.len(),
    ensures
        within(vals, ms[m].entries@),
        within(vals, ms[m].weeks@[w].entries@),
        forall|d: int| 0 <= d < ms[m].weeks@[w].days@.len() ==> within(vals, #[trigger] ms[m].weeks@[w].days@[d].entries@),
{
    let all = positions(es.len());
    assert forall|t: int| 0 <= t < all.len() implies #[trigger] all[t] < vals.len() by {
        assert(all[t] as int == t);
    }
    let mv = months_view(ms);
    lemma_parts_bounded(vals, month_keys(es), all, mv);
    assert(within(vals, mv[m].1));
    let month = ms[m];
    assert(is_month_sheet(es, today, month));
    let wv = weeks_view(month.weeks@);
    lemma_parts_bounded(vals, week_labels(es), month.entries@, wv);
    assert(within(vals, wv[w].1));
    let week = month.weeks@[w];
    assert(is_week_sheet(es, today, week));
    let dv = days_view(week.days@);
    lemma_parts_bounded(vals, start_days(es), week.entries@, dv);
    assert forall|d: int| 0 <= d < week.days@.len() implies within(vals, #[trigger] week.days@[d].entries@) by {
        assert(within(vals, dv[d].1));
    }
}

/// A day shows the same in two timesheets where it has the same date and
/// the same rows.
proof fn lemma_day_same(es1: Seq<Entry>, es2: Seq<Entry>, today: Seq<char>, d1: DaySheet, d2: DaySheet)
    requires
        is_day_sheet(es1, today, d1),
        is_day_sheet(es2, today, d2),
        d1.day@ == d2.day@,
        rows(es1, d1.entries@) == rows(es2, d2.entries@),
        within(seconds_of(es1), d1.entries@),
        within(seconds_of(es2), d2.entries@),
    ensures
        day_shown(es1, d1) == day_shown(es2, d2),
{
    let r1 = rows(es1, d1.entries@);
    let r2 = rows(es2, d2.entries@);
    assert(d1.entries@.len() == d2.entries@.len()) by {
        assert(r1.len() == r2.len());
    }
    let v1 = values_at(seconds_of(es1), d1.entries@);
    let v2 = values_at(seconds_of(es2), d2.entries@);
    assert forall|j: int| 0 <= j < v1.len() implies v1[j] == v2[j] by {
        assert(r1[j] == r2[j]);
        assert(d1.entries@[j] < es1.len());
        assert(d2.entries@[j] < es2.len());
    }
    assert(v1 =~= v2);
    assert(widen(d1.seconds) == widen(d2.seconds));
    assert(d1.seconds == d2.seconds) by {
        match d1.seconds {
            Some(a) => {
                assert(d2.seconds is Some);
            },
            None => {},
        }
    }
}

/// Two weeks of the same month with the same heading show the same days.
proof fn lemma_days_same(
    es1: Seq<Entry>,
    es2: Seq<Entry>,
    today: Seq<char>,
    ms1: Seq<MonthSheet>,
    ms2: Seq<MonthSheet>,
    m: int,
    w: int,
)
    requires
        is_timesheet(es1, today, ms1),
        is_timesheet(es2, today, ms2),
        same_days(es1, es2),
        es1.len() <= usize::MAX,
        es2.len() <= usize::MAX,
        0 <= m < ms1.len(),
        m < ms2.len(),
        0 <= w < ms1[m].weeks@.len(),
        w < ms2[m].weeks@.len(),
        ms1[m].key@ == ms2[m].key@,
        ms1[m].weeks@[w].label@ == ms2[m].weeks@[w].label@,
    ensures
        days_shown(es1, ms1[m].weeks@[w].days@) == days_shown(es2, ms2[m].weeks@[w].days@),
        day_totals(ms1[m].weeks@[w].days@) == day_totals(ms2[m].weeks@[w].days@),
{
    let (w1, w2) = (ms1[m].weeks@[w], ms2[m].weeks@[w]);
    let (k, l) = (ms1[m].key@, w1.label@);
    assert(is_month_sheet(es1, today, ms1[m]));
    assert(is_month_sheet(es2, today, ms2[m]));
    assert(is_week_sheet(es1, today, w1));
    assert(is_week_sheet(es2, today, w2));
    lemma_same_entries(es1, es2);
    lemma_days_present(es1, today, ms1, m, w);
    lemma_days_present(es2, today, ms2, m, w);
    let (a, b) = (day_keys_of(w1.days@), day_keys_of(w2.days@));
    assert forall|d: Seq<char>| a.contains(d) <==> b.contains(d) by {
        if a.contains(d) {
            let e = choose|e: Entry| es1.contains(e) && month_of(e) == k && week_label_of(e) == l && e.started@ == d;
            assert(es2.contains(e));
        }
        if b.contains(d) {
            let e = choose|e: Entry| es2.contains(e) && month_of(e) == k && week_label_of(e) == l && e.started@ == d;
            assert(es1.contains(e));
        }
    }
    assert(strictly_sorted(a, text_order())) by {
        assert forall|i: int, j: int| 0 <= i < j < a.len() implies text_order()(a[i], a[j]) by {
            assert(days_view(w1.days@)[i].0 == a[i] && days_view(w1.days@)[j].0 == a[j]);
        }
    }
    assert(strictly_sorted(b, text_order())) by {
        assert forall|i: int, j: int| 0 <= i < j < b.len() implies text_order()(b[i], b[j]) by {
            assert(days_view(w2.days@)[i].0 == b[i] && days_view(w2.days@)[j].0 == b[j]);
        }
    }
    lemma_text_order(a);
    lemma_sorted_unique(a, b, text_order());
    lemma_sheet_within(es1, today, ms1, seconds_of(es1), m, w);
    lemma_sheet_within(es2, today, ms2, seconds_of(es2), m, w);
    assert forall|d: int| 0 <= d < w1.days@.len() implies day_shown(es1, #[trigger] w1.days@[d]) == day_shown(es2, w2.days@[d]) by {
        assert(a[d] == b[d]);
        lemma_day_rows(es1, today, ms1, m, w, d);
        lemma_day_rows(es2, today, ms2, m, w, d);
        let dd = w1.days@[d].day@;
        assert(es1.filter(starts_on(dd)) == es2.filter(starts_on(dd)));
        lemma_day_same(es1, es2, today, w1.days@[d], w2.days@[d]);
    }
    assert(days_shown(es1, w1.days@) =~= days_shown(es2, w2.days@));
    assert forall|d: int| 0 <= d < w1.days@.len() implies #[trigger] day_totals(w1.days@)[d] == day_totals(w2.days@)[d] by {
        assert(day_shown(es1, w1.days@[d]) == day_shown(es2, w2.days@[d]));
    }
    assert(day_totals(w1.days@) =~= day_totals(w2.days@));
}


/// The entry at a position of a list whose weeks are in the calendar is in
/// the calendar.
proof fn lemma_calendar_at(es: Seq<Entry>, i: int)
    requires
        weeks_in_calendar(es),
        0 <= i < es.len(),
    ensures
        in_calendar(es[i]),
{
}

/// The Monday of a heading is the Monday of any entry with that heading.
proof fn lemma_monday_of_label(es1: Seq<Entry>, e: Entry)
    requires
        weeks_in_calendar(es1),
        es1.contains(e),
        in_calendar(e),
    ensures
        label_monday(es1, week_label_of(e)) == monday_of(e),
{
    let l = week_label_of(e);
    assert(es1.contains(e) && week_label_of(e) == l);
    let c = choose|c: Entry| es1.contains(c) && week_label_of(c) == l;
    let ic = choose|ic: int| 0 <= ic < es1.len() && es1[ic] == c;
    lemma_calendar_at(es1, ic);
    lemma_label_monday(c, e);
}

/// The first entry of a week of a timesheet: an entry of the list with the
/// week's heading.
proof fn lemma_week_first(es: Seq<Entry>, today: Seq<char>, ms: Seq<MonthSheet>, m: int, w: int)
    requires
        is_timesheet(es, today, ms),
        es.len() <= usize::MAX,
        0 <= m < ms.len(),
        0 <= w < ms[m].weeks@.len(),
    ensures
        weeks_view(ms[m].weeks@)[w].1.len() > 0,
        weeks_view(ms[m].weeks@)[w].1[0] < es.len(),
        week_label_of(es[weeks_view(ms[m].weeks@)[w].1[0] as int]) == ms[m].weeks@[w].label@,
{
    let month = ms[m];
    assert(is_month_sheet(es, today, month));
    let wv = weeks_view(month.weeks@);
    let l = month.weeks@[w].label@;
    let all = positions(es.len());
    assert(wv[w].1 == part(week_labels(es), month.entries@, wv[w].0));
    assert(wv[w].1.len() > 0);
    let x = wv[w].1[0];
    assert(wv[w].1.contains(x));
    lemma_in_part(week_labels(es), month.entries@, l, x);
    assert(months_view(ms)[m].1 == part(month_keys(es), all, months_view(ms)[m].0));
    lemma_in_part(month_keys(es), all, month.key@, x);
    let i = choose|i: int| 0 <= i < all.len() && all[i] == x;
    assert(all[i] as int == i);
}

/// The first entry of a week of a timesheet has the Monday of the week's
/// heading.
proof fn lemma_week_first_monday(
    es: Seq<Entry>,
    es1: Seq<Entry>,
    today: Seq<char>,
    ms: Seq<MonthSheet>,
    m: int,
    w: int,
)
    requires
        is_timesheet(es, today, ms),
        es.len() <= usize::MAX,
        weeks_in_calendar(es),
        weeks_in_calendar(es1),
        forall|e: Entry| es.contains(e) ==> es1.contains(e),
        0 <= m < ms.len(),
        0 <= w < ms[m].weeks@.len(),
    ensures
        weeks_view(ms[m].weeks@)[w].1.len() > 0,
        es.contains(es[weeks_view(ms[m].weeks@)[w].1[0] as int]),
        week_label_of(es[weeks_view(ms[m].weeks@)[w].1[0] as int]) == ms[m].weeks@[w].label@,
        week_starts(es)[weeks_view(ms[m].weeks@)[w].1[0] as int] == label_monday(
            es1,
            ms[m].weeks@[w].label@,
        ),
{
    lemma_week_first(es, today, ms, m, w);
    let x = weeks_view(ms[m].weeks@)[w].1[0] as int;
    let e = es[x];
    assert(es.contains(e));
    lemma_calendar_at(es, x);
    lemma_monday_of_label(es1, e);
}

/// The weeks of a month of a timesheet come in the order of their Mondays.
proof fn lemma_weeks_sorted(es: Seq<Entry>, es1: Seq<Entry>, today: Seq<char>, ms: Seq<MonthSheet>, m: int)
    requires
        is_timesheet(es, today, ms),
        es.len() <= usize::MAX,
        weeks_in_calendar(es),
        weeks_in_calendar(es1),
        forall|e: Entry| es.contains(e) ==> es1.contains(e),
        0 <= m < ms.len(),
    ensures
        strictly_sorted(week_keys_of(ms[m].weeks@), week_order(es1)),
{
    let month = ms[m];
    assert(is_month_sheet(es, today, month));
    let wv = weeks_view(month.weeks@);
    let a = week_keys_of(month.weeks@);
    lemma_calendar_entries(es1);
    assert forall|i: int, j: int| 0 <= i < j < a.len() implies week_order(es1)(a[i], a[j]) by {
        lemma_week_first_monday(es, es1, today, ms, m, i);
        lemma_week_first_monday(es, es1, today, ms, m, j);
        assert(date_le(week_starts(es)[wv[i].1[0] as int], week_starts(es)[wv[j].1[0] as int]));
        assert(wv[i].0 != wv[j].0);
        let ei = es[wv[i].1[0] as int];
        let ej = es[wv[j].1[0] as int];
        assert(es1.contains(ei) && week_label_of(ei) == a[i]);
        assert(es1.contains(ej) && week_label_of(ej) == a[j]);
        let ci = choose|c: Entry| es1.contains(c) && week_label_of(c) == a[i];
        let cj = choose|c: Entry| es1.contains(c) && week_label_of(c) == a[j];
        assert(es1.contains(ci) && es1.contains(cj));
        lemma_label_monday(ci, cj);
        assert(label_monday(es1, a[i]) != label_monday(es1, a[j]));
    }
}

/// The order of week headings by their Mondays is a strict total order on
/// the weeks of a month.
proof fn lemma_week_order(es1: Seq<Entry>, today: Seq<char>, ms1: Seq<MonthSheet>, m: int)
    requires
        is_timesheet(es1, today, ms1),
        es1.len() <= usize::MAX,
        weeks_in_calendar(es1),
        0 <= m < ms1.len(),
    ensures
        orders(week_keys_of(ms1[m].weeks@), week_order(es1)),
{
    let a = week_keys_of(ms1[m].weeks@);
    let lt = week_order(es1);
    lemma_weeks_present(es1, today, ms1, m);
    lemma_calendar_entries(es1);
    assert forall|x: Seq<char>, y: Seq<char>| #[trigger] a.contains(x) && #[trigger] a.contains(y) && x != y
        implies lt(x, y) || lt(y, x) by {
        let ex = choose|e: Entry| es1.contains(e) && month_of(e) == ms1[m].key@ && week_label_of(e) == x;
        let ey = choose|e: Entry| es1.contains(e) && month_of(e) == ms1[m].key@ && week_label_of(e) == y;
        assert(es1.contains(ex) && week_label_of(ex) == x);
        assert(es1.contains(ey) && week_label_of(ey) == y);
        let cx = choose|c: Entry| es1.contains(c) && week_label_of(c) == x;
        let cy = choose|c: Entry| es1.contains(c) && week_label_of(c) == y;
        lemma_label_monday(cx, cy);
    }
}

/// Two months of timesheets with the same key show the same weeks.
proof fn lemma_weeks_same(
    es1: Seq<Entry>,
    es2: Seq<Entry>,
    today: Seq<char>,
    ms1: Seq<MonthSheet>,
    ms2: Seq<MonthSheet>,
    m: int,
)
    requires
        is_timesheet(es1, today, ms1),
        is_timesheet(es2, today, ms2),
        same_days(es1, es2),
        weeks_in_calendar(es1),
        weeks_in_calendar(es2),
        es1.len() <= usize::MAX,
        es2.len() <= usize::MAX,
        0 <= m < ms1.len(),
        m < ms2.len(),
        ms1[m].key@ == ms2[m].key@,
    ensures
        weeks_shown(es1, ms1[m].weeks@) == weeks_shown(es2, ms2[m].weeks@),
        week_totals(ms1[m].weeks@) == week_totals(ms2[m].weeks@),
{
    let (m1, m2) = (ms1[m], ms2[m]);
    let k = m1.key@;
    lemma_same_entries(es1, es2);
    lemma_weeks_present(es1, today, ms1, m);
    lemma_weeks_present(es2, today, ms2, m);
    let (a, b) = (week_keys_of(m1.weeks@), week_keys_of(m2.weeks@));
    assert forall|l: Seq<char>| a.contains(l) <==> b.contains(l) by {
        if a.contains(l) {
            let e = choose|e: Entry| es1.contains(e) && month_of(e) == k && week_label_of(e) == l;
            assert(es2.contains(e));
        }
        if b.contains(l) {
            let e = choose|e: Entry| es2.contains(e) && month_of(e) == k && week_label_of(e) == l;
            assert(es1.contains(e));
        }
    }
    lemma_weeks_sorted(es1, es1, today, ms1, m);
    lemma_weeks_sorted(es2, es1, today, ms2, m);
    lemma_week_order(es1, today, ms1, m);
    lemma_sorted_unique(a, b, week_order(es1));
    assert(is_month_sheet(es1, today, m1));
    assert(is_month_sheet(es2, today, m2));
    assert forall|w: int| 0 <= w < m1.weeks@.len() implies week_shown(es1, #[trigger] m1.weeks@[w]) == week_shown(es2, m2.weeks@[w]) by {
        assert(a[w] == b[w]);
        lemma_days_same(es1, es2, today, ms1, ms2, m, w);
        let (w1, w2) = (m1.weeks@[w], m2.weeks@[w]);
        assert(is_week_sheet(es1, today, w1));
        assert(is_week_sheet(es2, today, w2));
        assert(widen(w1.seconds) == widen(w2.seconds));
        assert(w1.seconds == w2.seconds) by {
            match w1.seconds {
                Some(x) => {
                    assert(w2.seconds is Some);
                },
                None => {},
            }
        }
    }
    assert(weeks_shown(es1, m1.weeks@) =~= weeks_shown(es2, m2.weeks@));
    assert forall|w: int| 0 <= w < m1.weeks@.len() implies #[trigger] week_totals(m1.weeks@)[w] == week_totals(m2.weeks@)[w] by {
        assert(week_shown(es1, m1.weeks@[w]) == week_shown(es2, m2.weeks@[w]));
    }
    assert(week_totals(m1.weeks@) =~= week_totals(m2.weeks@));
}


/// One for each position.
pub open spec fn ones(n: nat) -> Seq<int> {
    Seq::new(n, |i: int| 1int)
}

/// The number of rows shown under a list of days.
pub open spec fn days_count(ds: Seq<(Seq<char>, Seq<char>, Option<i64>, bool, Seq<Entry>)>) -> nat
    decreases ds.len(),
{
    if ds.len() == 0 {
        0
    } else {
        days_count(ds.drop_last()) + ds.last().4.len()
    }
}

/// The number of rows shown under a list of weeks.
pub open spec fn weeks_count(
    ws: Seq<(Seq<char>, Option<i64>, bool, Seq<(Seq<char>, Seq<char>, Option<i64>, bool, Seq<Entry>)>)>,
) -> nat
    decreases ws.len(),
{
    if ws.len() == 0 {
        0
    } else {
        weeks_count(ws.drop_last()) + days_count(ws.last().3)
    }
}

proof fn lemma_ones(n: nat, members: Seq<usize>)
    requires
        within(ones(n), members),
    ensures
        sum_at(ones(n), members) == members.len(),
    decreases members.len(),
{
    if members.len() > 0 {
        let rest = members.drop_last();
        assert forall|t: int| 0 <= t < rest.len() implies #[trigger] rest[t] < ones(n).len() by {
            assert(rest[t] == members[t]);
        }
        lemma_ones(n, rest);
        assert(members[members.len() - 1] < n);
    }
}

proof fn lemma_days_count(es: Seq<Entry>, ds: Seq<DaySheet>)
    requires
        forall|d: int| 0 <= d < ds.len() ==> within(ones(es.len()), #[trigger] ds[d].entries@),
    ensures
        total_of_groups(ones(es.len()), days_view(ds)) == days_count(days_shown(es, ds)),
    decreases ds.len(),
{
    if ds.len() > 0 {
        let rest = ds.drop_last();
        assert forall|d: int| 0 <= d < rest.len() implies within(ones(es.len()), #[trigger] rest[d].entries@) by {
            assert(rest[d] == ds[d]);
        }
        lemma_days_count(es, rest);
        assert(days_view(ds).drop_last() =~= days_view(rest));
        assert(days_shown(es, ds).drop_last() =~= days_shown(es, rest));
        assert(within(ones(es.len()), ds[ds.len() - 1].entries@));
        lemma_ones(es.len(), ds.last().entries@);
    }
}

proof fn lemma_weeks_count(es: Seq<Entry>, today: Seq<char>, ws: Seq<WeekSheet>)
    requires
        forall|w: int| 0 <= w < ws.len() ==> is_week_sheet(es, today, #[trigger] ws[w]),
        forall|w: int| 0 <= w < ws.len() ==> within(ones(es.len()), #[trigger] ws[w].entries@),
        forall|w: int, d: int|
            0 <= w < ws.len() && 0 <= d < ws[w].days@.len() ==> within(ones(es.len()), #[trigger] ws[w].days@[d].entries@),
    ensures
        total_of_groups(ones(es.len()), weeks_view(ws)) == weeks_count(weeks_shown(es, ws)),
    decreases ws.len(),
{
    if ws.len() > 0 {
        let rest = ws.drop_last();
        assert forall|w: int| 0 <= w < rest.len() implies is_week_sheet(es, today, #[trigger] rest[w]) by {
            assert(rest[w] == ws[w]);
        }
        assert forall|w: int| 0 <= w < rest.len() implies within(ones(es.len()), #[trigger] rest[w].entries@) by {
            assert(rest[w] == ws[w]);
        }
        assert forall|w: int, d: int| 0 <= w < rest.len() && 0 <= d < rest[w].days@.len() implies within(
            ones(es.len()),
            #[trigger] rest[w].days@[d].entries@,
        ) by {
            assert(rest[w] == ws[w]);
        }
        lemma_weeks_count(es, today, rest);
        assert(weeks_view(ws).drop_last() =~= weeks_view(rest));
        assert(weeks_shown(es, ws).drop_last() =~= weeks_shown(es, rest));
        let last = ws[ws.len() - 1];
        assert(is_week_sheet(es, today, last));
        assert forall|d: int| 0 <= d < last.days@.len() implies within(ones(es.len()), #[trigger] last.days@[d].entries@) by {
            assert(within(ones(es.len()), ws[ws.len() - 1].days@[d].entries@));
        }
        lemma_days_count(es, last.days@);
        lemma_grouping_total(ones(es.len()), start_days(es), last.entries@, days_view(last.days@));
    }
}

/// The number of entries of a month is the number of rows shown under it.
proof fn lemma_month_count(es: Seq<Entry>, today: Seq<char>, ms: Seq<MonthSheet>, m: int)
    requires
        is_timesheet(es, today, ms),
        es.len() <= usize::MAX,
        0 <= m < ms.len(),
    ensures
        ms[m].entries@.len() == weeks_count(weeks_shown(es, ms[m].weeks@)),
{
    let month = ms[m];
    let v = ones(es.len());
    assert(is_month_sheet(es, today, month));
    assert forall|w: int| 0 <= w < month.weeks@.len() implies is_week_sheet(es, today, #[trigger] month.weeks@[w]) by {}
    assert forall|w: int| 0 <= w < month.weeks@.len() implies within(v, #[trigger] month.weeks@[w].entries@) by {
        lemma_sheet_within(es, today, ms, v, m, w);
    }
    assert forall|w: int, d: int| 0 <= w < month.weeks@.len() && 0 <= d < month.weeks@[w].days@.len() implies within(
        v,
        #[trigger] month.weeks@[w].days@[d].entries@,
    ) by {
        lemma_sheet_within(es, today, ms, v, m, w);
    }
    lemma_weeks_count(es, today, month.weeks@);
    lemma_grouping_total(v, week_labels(es), month.entries@, weeks_view(month.weeks@));
    if month.weeks@.len() > 0 {
        lemma_sheet_within(es, today, ms, v, m, 0);
    } else {
        let all = positions(es.len());
        assert forall|t: int| 0 <= t < all.len() implies #[trigger] all[t] < v.len() by {
            assert(all[t] as int == t);
        }
        lemma_parts_bounded(v, month_keys(es), all, months_view(ms));
        assert(within(v, months_view(ms)[m].1));
    }
    lemma_ones(es.len(), month.entries@);
}

/// A timesheet shows the same for any reordering of its entries that keeps
/// the order of the entries of each day: the same months, weeks and days in
/// the same order, with the same headings, times and marks, the same number
/// of entries in each month and the same rows under each day.
pub proof fn lemma_timesheet_ignores_order_of_days(
    es1: Seq<Entry>,
    es2: Seq<Entry>,
    today: Seq<char>,
    ms1: Seq<MonthSheet>,
    ms2: Seq<MonthSheet>,
)
    requires
        is_timesheet(es1, today, ms1),
        is_timesheet(es2, today, ms2),
        weeks_in_calendar(es1),
        weeks_in_calendar(es2),
        same_days(es1, es2),
        es1.len() <= usize::MAX,
        es2.len() <= usize::MAX,
    ensures
        timesheet_shown(es1, ms1) == timesheet_shown(es2, ms2),
{
    lemma_same_entries(es1, es2);
    lemma_months_present(es1, today, ms1);
    lemma_months_present(es2, today, ms2);
    let (a, b) = (month_keys_of(ms1), month_keys_of(ms2));
    assert forall|k: Seq<char>| a.contains(k) <==> b.contains(k) by {
        if a.contains(k) {
            let e = choose|e: Entry| es1.contains(e) && month_of(e) == k;
            assert(es2.contains(e));
        }
        if b.contains(k) {
            let e = choose|e: Entry| es2.contains(e) && month_of(e) == k;
            assert(es1.contains(e));
        }
    }
    assert(strictly_sorted(a, text_order())) by {
        assert forall|i: int, j: int| 0 <= i < j < a.len() implies text_order()(a[i], a[j]) by {
            assert(months_view(ms1)[i].0 == a[i] && months_view(ms1)[j].0 == a[j]);
        }
    }
    assert(strictly_sorted(b, text_order())) by {
        assert forall|i: int, j: int| 0 <= i < j < b.len() implies text_order()(b[i], b[j]) by {
            assert(months_view(ms2)[i].0 == b[i] && months_view(ms2)[j].0 == b[j]);
        }
    }
    lemma_text_order(a);
    lemma_sorted_unique(a, b, text_order());
    assert forall|m: int| 0 <= m < ms1.len() implies month_shown(es1, #[trigger] ms1[m]) == month_shown(es2, ms2[m]) by {
        assert(a[m] == b[m]);
        lemma_weeks_same(es1, es2, today, ms1, ms2, m);
        lemma_month_count(es1, today, ms1, m);
        lemma_month_count(es2, today, ms2, m);
        let (m1, m2) = (ms1[m], ms2[m]);
        assert(is_month_sheet(es1, today, m1));
        assert(is_month_sheet(es2, today, m2));
        assert(widen(m1.seconds) == widen(m2.seconds));
        assert(m1.seconds == m2.seconds) by {
            match m1.seconds {
                Some(x) => {
                    assert(m2.seconds is Some);
                },
                None => {},
            }
        }
    }
    assert(timesheet_shown(es1, ms1) =~= timesheet_shown(es2, ms2));
}

}
