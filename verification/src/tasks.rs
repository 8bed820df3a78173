//! The task view: for each month, every task worked on, with the day it was
//! first worked on and the time logged on it, earliest task first. It backs
//! the task table, the JSON task export and the spreadsheet export.
use vstd::prelude::*;
use crate::dates::{month_display_name, month_name_text};
use crate::groups::{
    Group, group_sorted, groups_view, is_grouping, lemma_in_part, lemma_sorted_grouping_unique, part,
    sorted_by_key, views,
};
use crate::jira::Entry;
use crate::sums::{
    add_checked, checked_total, lemma_checked_groups, lemma_checked_values, lemma_grouping_total,
    lemma_parts_bounded, sum_at, total_of_groups, values_at, widen, within,
};
use crate::text::{
    lemma_str_lt_asymmetric, lemma_str_lt_irreflexive, lemma_str_lt_total,
    lemma_str_lt_transitive, str_byte_prefix, str_less, str_lt,
};
use crate::timesheet::{
    MonthSheet, copy_positions, is_timesheet, lemma_month_time, month_keys, months_readable,
    months_view, positions, seconds_of, start_days, sum_seconds,
};

verus! {

/// One task of a month.
pub struct TaskSummary {
    /// The issue key.
    pub key: String,
    /// The positions, in the list of entries, of the task's entries of the
    /// month, in their order.
    pub entries: Vec<usize>,
    /// Summary, status and link of the task's first entry.
    pub summary: String,
    pub status: String,
    pub url: String,
    /// The earliest start day among the task's entries.
    pub started: String,
    /// The time logged on the task in the month, added up entry by entry;
    /// `None` where a running total overflows an `i64`.
    pub seconds: Option<i64>,
}

/// The tasks of one month.
pub struct MonthTasks {
    /// The month, as `"YYYY-MM"`.
    pub key: String,
    /// The display name of the month, as `"March 2026"`.
    pub name: String,
    pub entries: Vec<usize>,
    /// The tasks, ordered by their earliest start day, then by key.
    pub tasks: Vec<TaskSummary>,
    /// The time logged in the month, added up task by task; `None` where a
    /// task has none or the running total overflows an `i64`.
    pub seconds: Option<i64>,
}

/// The issue key of each entry.
pub open spec fn task_keys(es: Seq<Entry>) -> Seq<Seq<char>> {
    Seq::new(es.len(), |i: int| es[i].key@)
}

/// The least of the keys at the positions `members`.
pub open spec fn earliest(keys: Seq<Seq<char>>, members: Seq<usize>) -> Seq<char>
    decreases members.len(),
{
    if members.len() <= 1 {
        keys[members[0] as int]
    } else {
        let r = earliest(keys, members.drop_last());
        let x = keys[members.last() as int];
        if str_lt(x, r) {
            x
        } else {
            r
        }
    }
}

/// The order of tasks: by earliest start day, then by key.
pub open spec fn task_before(a: (Seq<char>, Seq<char>), b: (Seq<char>, Seq<char>)) -> bool {
    str_lt(a.0, b.0) || (a.0 == b.0 && str_lt(a.1, b.1))
}

/// The totals of a list of tasks.
pub open spec fn task_totals(ts: Seq<TaskSummary>) -> Seq<Option<int>> {
    Seq::new(ts.len(), |t: int| widen(ts[t].seconds))
}

pub open spec fn tasks_view(ts: Seq<TaskSummary>) -> Seq<(Seq<char>, Seq<usize>)> {
    Seq::new(ts.len(), |t: int| (ts[t].key@, ts[t].entries@))
}

pub open spec fn month_tasks_view(ms: Seq<MonthTasks>) -> Seq<(Seq<char>, Seq<usize>)> {
    Seq::new(ms.len(), |m: int| (ms[m].key@, ms[m].entries@))
}

pub open spec fn is_task_summary(es: Seq<Entry>, t: TaskSummary) -> bool {
    &&& t.entries@.len() > 0
    &&& t.summary@ == es[t.entries@[0] as int].summary@
    &&& t.status@ == es[t.entries@[0] as int].status@
    &&& t.url@ == es[t.entries@[0] as int].url@
    &&& t.started@ == earliest(start_days(es), t.entries@)
    &&& widen(t.seconds) == checked_total(values_at(seconds_of(es), t.entries@))
}

pub open spec fn is_month_tasks(es: Seq<Entry>, m: MonthTasks) -> bool {
    &&& m.name@ == month_name_text(m.key@)
    &&& is_grouping(task_keys(es), m.entries@, tasks_view(m.tasks@))
    &&& forall|a: int, b: int|
        0 <= a < b < m.tasks@.len() ==> task_before(
            (m.tasks@[a].started@, m.tasks@[a].key@),
            (m.tasks@[b].started@, m.tasks@[b].key@),
        )
    &&& forall|t: int| 0 <= t < m.tasks@.len() ==> is_task_summary(es, #[trigger] m.tasks@[t])
    &&& widen(m.seconds) == checked_total(task_totals(m.tasks@))
}

/// `ms` summarises the entries `es` by month, in increasing order of month,
/// and within each month by task.
pub open spec fn is_task_report(es: Seq<Entry>, ms: Seq<MonthTasks>) -> bool {
    &&& is_grouping(month_keys(es), positions(es.len()), month_tasks_view(ms))
    &&& sorted_by_key(month_tasks_view(ms))
    &&& forall|m: int| 0 <= m < ms.len() ==> is_month_tasks(es, #[trigger] ms[m])
}

proof fn lemma_task_before_strict(a: (Seq<char>, Seq<char>))
    ensures
        !task_before(a, a),
{
    lemma_str_lt_irreflexive(a.0);
    lemma_str_lt_irreflexive(a.1);
}

proof fn lemma_task_before_transitive(
    a: (Seq<char>, Seq<char>),
    b: (Seq<char>, Seq<char>),
    c: (Seq<char>, Seq<char>),
)
    requires
        task_before(a, b),
        task_before(b, c),
    ensures
        task_before(a, c),
{
    if str_lt(a.0, b.0) && str_lt(b.0, c.0) {
        lemma_str_lt_transitive(a.0, b.0, c.0);
    } else if a.0 == b.0 && b.0 == c.0 {
        lemma_str_lt_transitive(a.1, b.1, c.1);
    }
}

proof fn lemma_task_before_total(a: (Seq<char>, Seq<char>), b: (Seq<char>, Seq<char>))
    requires
        a.1 != b.1,
    ensures
        task_before(a, b) || task_before(b, a),
{
    lemma_str_lt_total(a.0, b.0);
    lemma_str_lt_total(a.1, b.1);
}

/// The earliest of the start days at the positions `members`.
fn earliest_start(starts: &Vec<String>, members: &Vec<usize>) -> (r: String)
    requires
        members@.len() > 0,
        forall|t: int| 0 <= t < members@.len() ==> #[trigger] members@[t] < starts@.len(),
    ensures
        r@ == earliest(views(starts@), members@),
{
    let ghost kv = views(starts@);
    let mut best = starts[members[0]].clone();
    assert(members@.take(1).len() == 1);
    assert(members@.take(1)[0] == members@[0]);
    for t in 1..members.len()
        invariant
            kv == views(starts@),
            members@.len() > 0,
            forall|u: int| 0 <= u < members@.len() ==> #[trigger] members@[u] < starts@.len(),
            best@ == earliest(kv, members@.take(t as int)),
    {
        let x = &starts[members[t]];
        assert(members@.take(t + 1).drop_last() =~= members@.take(t as int));
        assert(members@.take(t + 1).last() == members@[t as int]);
        assert(kv[members@[t as int] as int] == x@);
        if str_less(x.as_str(), best.as_str()) {
            best = x.clone();
        }
    }
    assert(members@.take(members@.len() as int) =~= members@);
    best
}

/// `a` comes before `b` in the order of tasks.
fn task_precedes(a_started: &String, a_key: &String, b_started: &String, b_key: &String) -> (res:
    bool)
    ensures
        res == task_before((a_started@, a_key@), (b_started@, b_key@)),
{
    str_less(a_started.as_str(), b_started.as_str()) || (*a_started == *b_started && str_less(
        a_key.as_str(),
        b_key.as_str(),
    ))
}

/// The tasks of one month, from the group of its entries.
fn month_tasks(
    entries: &Vec<Entry>,
    keys: &Vec<String>,
    starts: &Vec<String>,
    g: &Group,
) -> (m: MonthTasks)
    requires
        views(keys@) == task_keys(entries@),
        views(starts@) == start_days(entries@),
        within(seconds_of(entries@), g.members@),
    ensures
        is_month_tasks(entries@, m),
        m.key@ == g.key@,
        m.entries@ == g.members@,
{
    let ghost vals = seconds_of(entries@);
    let ghost tk = task_keys(entries@);
    assert(views(keys@).len() == keys@.len());
    assert(views(starts@).len() == starts@.len());
    assert(tk.len() == entries@.len());
    assert(vals.len() == entries@.len());
    assert(forall|j: int| 0 <= j < g.members@.len() ==> #[trigger] g.members@[j] < keys@.len());
    let tgs = group_sorted(keys, &g.members);
    let ghost tv = groups_view(tgs@);
    proof {
        lemma_parts_bounded(vals, tk, g.members@, tv);
    }
    let mut tasks: Vec<TaskSummary> = Vec::new();
    let ghost mut perm: Seq<int> = Seq::empty();
    let ghost mut pos: Seq<int> = Seq::empty();
    for t in 0..tgs.len()
        invariant
            vals == seconds_of(entries@),
            tk == task_keys(entries@),
            views(starts@) == start_days(entries@),
            starts@.len() == entries@.len(),
            tv == groups_view(tgs@),
            is_grouping(tk, g.members@, tv),
            forall|h: int| 0 <= h < tv.len() ==> within(vals, #[trigger] tv[h].1),
            forall|q: int| 0 <= q < tasks@.len() ==> is_task_summary(entries@, #[trigger] tasks@[q]),
            perm.len() == tasks@.len(),
            tasks@.len() == t,
            pos.len() == t,
            forall|q: int|
                0 <= q < tasks@.len() ==> 0 <= #[trigger] perm[q] < t && tv[perm[q]] == (
                    tasks@[q].key@,
                    tasks@[q].entries@,
                ),
            forall|u: int|
                0 <= u < t ==> 0 <= #[trigger] pos[u] < tasks@.len() && tv[u] == (
                    tasks@[pos[u]].key@,
                    tasks@[pos[u]].entries@,
                ),
            forall|a: int, b: int|
                0 <= a < b < tasks@.len() ==> task_before(
                    (tasks@[a].started@, tasks@[a].key@),
                    (tasks@[b].started@, tasks@[b].key@),
                ),
    {
        let members = &tgs[t].members;
        proof {
            assert(tv[t as int].1.len() > 0);
            assert(within(vals, tv[t as int].1));
            assert(members@ == tv[t as int].1);
        }
        let m0 = members[0];
        assert(m0 < entries@.len());
        let task = TaskSummary {
            key: tgs[t].key.clone(),
            entries: copy_positions(members),
            summary: entries[m0].summary.clone(),
            status: entries[m0].status.clone(),
            url: entries[m0].url.clone(),
            started: earliest_start(starts, members),
            seconds: sum_seconds(entries, members),
        };
        assert(is_task_summary(entries@, task));
        let ghost new_pair = (task.started@, task.key@);
        let ghost old_tasks = tasks@;
        proof {
            assert forall|q: int| 0 <= q < old_tasks.len() implies old_tasks[q].key@ != task.key@ by {
                let u = perm[q];
                assert(tv[u].0 == old_tasks[q].key@);
                assert(tv[u].0 != tv[t as int].0);
            }
        }
        let mut p: usize = 0;
        while p < tasks.len() && task_precedes(&tasks[p].started, &tasks[p].key, &task.started, &task.key)
            invariant
                p <= tasks@.len(),
                tasks@ == old_tasks,
                new_pair == (task.started@, task.key@),
                forall|q: int|
                    0 <= q < p ==> task_before(
                        (#[trigger] tasks@[q].started@, tasks@[q].key@),
                        new_pair,
                    ),
            decreases tasks@.len() - p,
        {
            p = p + 1;
        }
        proof {
            if p < old_tasks.len() {
                lemma_task_before_total((old_tasks[p as int].started@, old_tasks[p as int].key@), new_pair);
            }
        }
        let ghost old_perm = perm;
        let ghost old_pos = pos;
        tasks.insert(p, task);
        proof {
            perm = old_perm.insert(p as int, t as int);
            pos = Seq::new(
                (t + 1) as nat,
                |u: int|
                    if u == t {
                        p as int
                    } else if old_pos[u] >= p {
                        old_pos[u] + 1
                    } else {
                        old_pos[u]
                    },
            );
            assert(tasks@[p as int] == task);
            assert forall|a: int, b: int| 0 <= a < b < tasks@.len() implies task_before(
                (tasks@[a].started@, tasks@[a].key@),
                (tasks@[b].started@, tasks@[b].key@),
            ) by {
                if b == p {
                    assert(tasks@[a] == old_tasks[a]);
                } else if a == p {
                    assert(tasks@[b] == old_tasks[b - 1]);
                    if b - 1 > p {
                        lemma_task_before_transitive(
                            new_pair,
                            (old_tasks[p as int].started@, old_tasks[p as int].key@),
                            (old_tasks[b - 1].started@, old_tasks[b - 1].key@),
                        );
                    }
                } else if a < p && b > p {
                    assert(tasks@[a] == old_tasks[a]);
                    assert(tasks@[b] == old_tasks[b - 1]);
                    if b - 1 > p {
                        lemma_task_before_transitive(
                            new_pair,
                            (old_tasks[p as int].started@, old_tasks[p as int].key@),
                            (old_tasks[b - 1].started@, old_tasks[b - 1].key@),
                        );
                    }
                    lemma_task_before_transitive(
                        (old_tasks[a].started@, old_tasks[a].key@),
                        new_pair,
                        (old_tasks[b - 1].started@, old_tasks[b - 1].key@),
                    );
                } else if a > p {
                    assert(tasks@[a] == old_tasks[a - 1]);
                    assert(tasks@[b] == old_tasks[b - 1]);
                } else {
                    assert(tasks@[a] == old_tasks[a]);
                    assert(tasks@[b] == old_tasks[b]);
                }
            }
            assert forall|q: int| 0 <= q < tasks@.len() implies is_task_summary(entries@, #[trigger] tasks@[q]) by {
                if q < p {
                    assert(tasks@[q] == old_tasks[q]);
                } else if q > p {
                    assert(tasks@[q] == old_tasks[q - 1]);
                }
            }
            assert forall|q: int| 0 <= q < tasks@.len() implies 0 <= #[trigger] perm[q] < t + 1 && tv[perm[q]] == (
                tasks@[q].key@,
                tasks@[q].entries@,
            ) by {
                if q < p {
                    assert(tasks@[q] == old_tasks[q]);
                    assert(perm[q] == old_perm[q]);
                } else if q > p {
                    assert(tasks@[q] == old_tasks[q - 1]);
                    assert(perm[q] == old_perm[q - 1]);
                }
            }
            assert forall|u: int| 0 <= u < t + 1 implies 0 <= #[trigger] pos[u] < tasks@.len() && tv[u] == (
                tasks@[pos[u]].key@,
                tasks@[pos[u]].entries@,
            ) by {
                if u < t {
                    let q0 = old_pos[u];
                    if q0 >= p {
                        assert(tasks@[q0 + 1] == old_tasks[q0]);
                    } else {
                        assert(tasks@[q0] == old_tasks[q0]);
                    }
                }
            }
        }
    }
    let ghost sv = tasks_view(tasks@);
    proof {
        assert forall|q: int| 0 <= q < sv.len() implies #[trigger] sv[q].1 == part(tk, g.members@, sv[q].0)
            && sv[q].1.len() > 0 && within(vals, sv[q].1) by {
            let u = perm[q];
            assert(sv[q] == tv[u]);
        }
        assert forall|a: int, b: int| 0 <= a < b < sv.len() implies sv[a].0 != sv[b].0 by {
            if sv[a].0 == sv[b].0 {
                let ua = perm[a];
                let ub = perm[b];
                if ua < ub {
                    assert(tv[ua].0 != tv[ub].0);
                } else if ub < ua {
                    assert(tv[ub].0 != tv[ua].0);
                }
                assert(tasks@[a].entries@ == tasks@[b].entries@);
                assert(tasks@[a].started@ == tasks@[b].started@);
                lemma_task_before_strict((tasks@[a].started@, tasks@[a].key@));
            }
        }
        assert forall|j: int| 0 <= j < g.members@.len() implies #[trigger] crate::groups::group_keys(sv).contains(
            tk[g.members@[j] as int],
        ) by {
            assert(crate::groups::group_keys(tv).contains(tk[g.members@[j] as int]));
            let u = choose|u: int|
                0 <= u < crate::groups::group_keys(tv).len() && crate::groups::group_keys(tv)[u]
                    == tk[g.members@[j] as int];
            let q = pos[u];
            assert(crate::groups::group_keys(sv)[q] == tk[g.members@[j] as int]);
        }
        assert(is_grouping(tk, g.members@, sv));
    }
    let mut s: Option<i64> = Some(0);
    assert(task_totals(tasks@.take(0)) =~= Seq::<Option<int>>::empty());
    for t in 0..tasks.len()
        invariant
            widen(s) == checked_total(task_totals(tasks@.take(t as int))),
    {
        assert(task_totals(tasks@.take(t + 1)).drop_last() =~= task_totals(tasks@.take(t as int)));
        s = add_checked(s, tasks[t].seconds);
    }
    assert(tasks@.take(tasks@.len() as int) =~= tasks@);
    MonthTasks {
        key: g.key.clone(),
        name: month_display_name(g.key.as_str()),
        entries: copy_positions(&g.members),
        tasks,
        seconds: s,
    }
}

/// Summarises the worklog entries by month, in increasing order of month,
/// and within each month by task: its earliest start day and the time
/// logged on it, tasks ordered by earliest start day, then by key.
pub fn task_report(entries: &Vec<Entry>) -> (res: Vec<MonthTasks>)
    requires
        months_readable(entries@),
    ensures
        is_task_report(entries@, res@),
{
    let n = entries.len();
    let mut month_keys_v: Vec<String> = Vec::new();
    let mut keys: Vec<String> = Vec::new();
    let mut starts: Vec<String> = Vec::new();
    let mut all: Vec<usize> = Vec::new();
    for i in 0..n
        invariant
            n == entries@.len(),
            months_readable(entries@),
            month_keys_v@.len() == i,
            keys@.len() == i,
            starts@.len() == i,
            all@ == positions(n as nat).take(i as int),
            forall|t: int| 0 <= t < i ==> #[trigger] month_keys_v@[t]@ == month_keys(entries@)[t],
            forall|t: int| 0 <= t < i ==> #[trigger] keys@[t]@ == task_keys(entries@)[t],
            forall|t: int| 0 <= t < i ==> #[trigger] starts@[t]@ == start_days(entries@)[t],
    {
        let e = &entries[i];
        assert(crate::text::has_byte_prefix(entries@[i as int].started@, 7));
        let key = match str_byte_prefix(e.started.as_str(), 7) {
            Some(k) => k,
            None => {
                assert(false);
                String::new()
            },
        };
        month_keys_v.push(key);
        keys.push(e.key.clone());
        starts.push(e.started.clone());
        all.push(i);
        assert(all@ =~= positions(n as nat).take(i + 1));
    }
    assert(all@ =~= positions(n as nat));
    assert(views(month_keys_v@) =~= month_keys(entries@));
    assert(views(keys@) =~= task_keys(entries@));
    assert(views(starts@) =~= start_days(entries@));
    let ghost vals = seconds_of(entries@);
    let ghost mk = month_keys(entries@);
    assert(within(vals, all@));
    let mgs = group_sorted(&month_keys_v, &all);
    let ghost mv = groups_view(mgs@);
    proof {
        lemma_parts_bounded(vals, mk, all@, mv);
    }
    let mut months: Vec<MonthTasks> = Vec::new();
    for t in 0..mgs.len()
        invariant
            vals == seconds_of(entries@),
            views(keys@) == task_keys(entries@),
            views(starts@) == start_days(entries@),
            mv == groups_view(mgs@),
            forall|h: int| 0 <= h < mv.len() ==> within(vals, #[trigger] mv[h].1),
            month_tasks_view(months@) == mv.take(t as int),
            forall|m: int| 0 <= m < months@.len() ==> is_month_tasks(entries@, #[trigger] months@[m]),
    {
        proof {
            assert(within(vals, mv[t as int].1));
        }
        let month = month_tasks(entries, &keys, &starts, &mgs[t]);
        let ghost before = months@;
        assert(month_tasks_view(before).len() == before.len());
        assert(mv.take(t as int).len() == t);
        months.push(month);
        assert forall|u: int| 0 <= u < t implies #[trigger] month_tasks_view(months@)[u] == mv[u] by {
            assert(months@[u] == before[u]);
            assert(month_tasks_view(before)[u] == mv.take(t as int)[u]);
        }
        assert(month_tasks_view(months@) =~= mv.take(t + 1));
    }
    assert(mv.take(mv.len() as int) =~= mv);
    months
}

/// The time of the months of a task report whose totals are all computed,
/// added up month by month.
pub open spec fn report_time(ms: Seq<MonthTasks>) -> int
    decreases ms.len(),
{
    if ms.len() == 0 {
        0
    } else {
        report_time(ms.drop_last()) + ms.last().seconds.unwrap()
    }
}

/// The time of a task, where it is computed, is the time of its entries.
pub proof fn lemma_task_time(es: Seq<Entry>, t: TaskSummary)
    requires
        is_task_summary(es, t),
    ensures
        t.seconds matches Some(s) ==> s == sum_at(seconds_of(es), t.entries@),
{
    lemma_checked_values(seconds_of(es), t.entries@);
}

/// The time of a month of the task report, where it is computed, is the
/// time of its entries, and every task of the month has its time computed.
pub proof fn lemma_month_tasks_time(es: Seq<Entry>, m: MonthTasks)
    requires
        is_month_tasks(es, m),
    ensures
        m.seconds matches Some(t) ==> t == sum_at(seconds_of(es), m.entries@),
        m.seconds is Some ==> forall|t: int| 0 <= t < m.tasks@.len() ==> (#[trigger] m.tasks@[t]).seconds is Some,
{
    let vals = seconds_of(es);
    let xs = task_totals(m.tasks@);
    let tv = tasks_view(m.tasks@);
    assert forall|i: int| 0 <= i < xs.len() implies (#[trigger] xs[i] matches Some(v) ==> v == sum_at(vals, tv[i].1)) by {
        assert(is_task_summary(es, m.tasks@[i]));
        lemma_task_time(es, m.tasks@[i]);
    }
    lemma_checked_groups(xs, vals, tv);
    lemma_grouping_total(vals, task_keys(es), m.entries@, tv);
    if m.seconds is Some {
        assert forall|t: int| 0 <= t < m.tasks@.len() implies (#[trigger] m.tasks@[t]).seconds is Some by {
            assert(xs[t] is Some);
        }
    }
}

proof fn lemma_report_months_time(es: Seq<Entry>, ms: Seq<MonthTasks>)
    requires
        forall|m: int| 0 <= m < ms.len() ==> is_month_tasks(es, #[trigger] ms[m]),
        forall|m: int| 0 <= m < ms.len() ==> (#[trigger] ms[m]).seconds is Some,
    ensures
        report_time(ms) == total_of_groups(seconds_of(es), month_tasks_view(ms)),
    decreases ms.len(),
{
    if ms.len() > 0 {
        let rest = ms.drop_last();
        assert forall|m: int| 0 <= m < rest.len() implies is_month_tasks(es, #[trigger] rest[m]) by {
            assert(rest[m] == ms[m]);
        }
        assert forall|m: int| 0 <= m < rest.len() implies (#[trigger] rest[m]).seconds is Some by {
            assert(rest[m] == ms[m]);
        }
        lemma_report_months_time(es, rest);
        assert(month_tasks_view(ms).drop_last() =~= month_tasks_view(rest));
        assert(is_month_tasks(es, ms[ms.len() - 1]));
        assert(ms[ms.len() - 1].seconds is Some);
        lemma_month_tasks_time(es, ms.last());
    }
}

/// Where every month's time is computed, the months of a task report
/// account for all the time logged.
pub proof fn lemma_report_time(es: Seq<Entry>, ms: Seq<MonthTasks>)
    requires
        is_task_report(es, ms),
        forall|m: int| 0 <= m < ms.len() ==> (#[trigger] ms[m]).seconds is Some,
    ensures
        report_time(ms) == sum_at(seconds_of(es), positions(es.len())),
{
    lemma_grouping_total(seconds_of(es), month_keys(es), positions(es.len()), month_tasks_view(ms));
    lemma_report_months_time(es, ms);
}

/// The earliest start of a group of entries is the start of one of them, and
/// no start in the group comes before it.
pub proof fn lemma_earliest(keys: Seq<Seq<char>>, members: Seq<usize>)
    requires
        members.len() > 0,
    ensures
        exists|t: int| 0 <= t < members.len() && keys[#[trigger] members[t] as int] == earliest(keys, members),
        forall|t: int| 0 <= t < members.len() ==> !str_lt(keys[#[trigger] members[t] as int], earliest(keys, members)),
    decreases members.len(),
{
    if members.len() == 1 {
        assert(keys[members[0] as int] == earliest(keys, members));
        lemma_str_lt_irreflexive(earliest(keys, members));
    } else {
        let rest = members.drop_last();
        lemma_earliest(keys, rest);
        let r = earliest(keys, rest);
        let x = keys[members.last() as int];
        let t0 = choose|t: int| 0 <= t < rest.len() && keys[#[trigger] rest[t] as int] == r;
        assert(members[t0] == rest[t0]);
        assert forall|t: int| 0 <= t < members.len() implies !str_lt(keys[#[trigger] members[t] as int], earliest(keys, members)) by {
            if t < members.len() - 1 {
                assert(members[t] == rest[t]);
                if str_lt(x, r) {
                    if str_lt(keys[members[t] as int], x) {
                        lemma_str_lt_transitive(keys[members[t] as int], x, r);
                    }
                }
            } else {
                if !str_lt(x, r) {
                } else {
                    lemma_str_lt_irreflexive(x);
                }
            }
        }
    }
}

/// Every entry of a task in the task report is an entry of that task's
/// issue, and of the month the task is listed under.
pub proof fn lemma_task_entries_belong(es: Seq<Entry>, ms: Seq<MonthTasks>, m: int, t: int, i: usize)
    requires
        is_task_report(es, ms),
        0 <= m < ms.len(),
        0 <= t < ms[m].tasks@.len(),
        ms[m].tasks@[t].entries@.contains(i),
    ensures
        es[i as int].key@ == ms[m].tasks@[t].key@,
        month_keys(es)[i as int] == ms[m].key@,
{
    let month = ms[m];
    assert(is_month_tasks(es, month));
    let tv = tasks_view(month.tasks@);
    let mv = month_tasks_view(ms);
    assert(tv[t].1 == part(task_keys(es), month.entries@, tv[t].0));
    lemma_in_part(task_keys(es), month.entries@, tv[t].0, i);
    assert(mv[m].1 == part(month_keys(es), positions(es.len()), mv[m].0));
    lemma_in_part(month_keys(es), positions(es.len()), mv[m].0, i);
    assert(task_keys(es)[i as int] == es[i as int].key@);
}

/// The task view and the timesheet of the same entries agree month by month:
/// they list the same months in the same order, each with the same entries
/// and, where both compute it, the same time logged.
pub proof fn lemma_views_agree(
    es: Seq<Entry>,
    today: Seq<char>,
    ms: Seq<MonthSheet>,
    ts: Seq<MonthTasks>,
)
    requires
        is_timesheet(es, today, ms),
        is_task_report(es, ts),
    ensures
        ms.len() == ts.len(),
        forall|m: int|
            0 <= m < ms.len() ==> {
                &&& (#[trigger] ms[m]).key@ == ts[m].key@
                &&& ms[m].name@ == ts[m].name@
                &&& ms[m].entries@ == ts[m].entries@
                &&& (ms[m].seconds is Some && ts[m].seconds is Some ==> ms[m].seconds == ts[m].seconds)
            },
{
    lemma_sorted_grouping_unique(
        month_keys(es),
        positions(es.len()),
        months_view(ms),
        month_tasks_view(ts),
    );
    assert(months_view(ms).len() == ms.len());
    assert(month_tasks_view(ts).len() == ts.len());
    assert forall|m: int| 0 <= m < ms.len() implies {
        &&& (#[trigger] ms[m]).key@ == ts[m].key@
        &&& ms[m].name@ == ts[m].name@
        &&& ms[m].entries@ == ts[m].entries@
        &&& (ms[m].seconds is Some && ts[m].seconds is Some ==> ms[m].seconds == ts[m].seconds)
    } by {
        assert(months_view(ms)[m] == month_tasks_view(ts)[m]);
        assert(crate::timesheet::is_month_sheet(es, today, ms[m]));
        assert(is_month_tasks(es, ts[m]));
        lemma_month_time(es, today, ms[m]);
        lemma_month_tasks_time(es, ts[m]);
    }
}

/// The count of a month's tasks, as `"12 tasks"`.
pub fn task_count_label(count: usize) -> (res: String)
    ensures
        res@ == crate::text::decimal(count as nat) + " tasks"@,
{
    let mut res = String::new();
    crate::text::push_decimal(&mut res, count as u64);
    res.append(" tasks");
    res
}

/// The title of a month's spreadsheet, as `"Timesheet \u{2014} March 2026"`.
pub fn sheet_title(month_name: &str) -> (res: String)
    ensures
        res@ == "Timesheet \u{2014} "@ + month_name@,
{
    let mut res = String::from_str("Timesheet \u{2014} ");
    res.append(month_name);
    res
}

} // verus!
