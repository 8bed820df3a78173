use jelper::{task_report, timesheet, week_label, Entry};

fn entry(key: &str, seconds: i64, started: &str) -> Entry {
    Entry {
        key: key.to_string(),
        summary: format!("summary of {key}"),
        status: "In Progress".to_string(),
        seconds,
        started: started.to_string(),
        url: format!("https://x/browse/{key}"),
        description: String::new(),
    }
}

fn sample() -> Vec<Entry> {
    vec![
        entry("B-2", 3600, "2026-03-04"),
        entry("A-1", 28800, "2026-03-03"),
        entry("B-2", 1800, "2026-02-27"),
        entry("A-1", 7200, "2026-03-04"),
        entry("C-3", 144000, "2026-03-10"),
    ]
}

#[test]
fn timesheet_groups_by_month_week_and_day() {
    let entries = sample();
    let months = timesheet(&entries, "2026-03-04").unwrap();
    assert_eq!(months.len(), 2);
    assert_eq!(months[0].key, "2026-02");
    assert_eq!(months[0].name, "February 2026");
    assert_eq!(months[0].entries, vec![2]);
    assert_eq!(months[0].seconds, Some(1800));
    let march = &months[1];
    assert_eq!(march.key, "2026-03");
    assert_eq!(march.entries, vec![0, 1, 3, 4]);
    assert_eq!(march.seconds, Some(3600 + 28800 + 7200 + 144000));
    assert_eq!(march.weeks.len(), 2);
    let first = &march.weeks[0];
    assert_eq!(first.label, "Week of Mar 02 \u{2013} Mar 08, 2026");
    assert_eq!(first.entries, vec![0, 1, 3]);
    assert_eq!(first.seconds, Some(39600));
    assert!(!first.full_week);
    assert_eq!(first.days.len(), 2);
    assert_eq!(first.days[0].day, "2026-03-03");
    assert_eq!(first.days[0].label, "Tuesday, Mar 03");
    assert_eq!(first.days[0].seconds, Some(28800));
    assert!(first.days[0].full_day);
    assert!(!first.days[0].is_today);
    assert_eq!(first.days[1].day, "2026-03-04");
    assert_eq!(first.days[1].label, "Wednesday, Mar 04  (today)");
    assert!(first.days[1].is_today);
    assert_eq!(first.days[1].entries, vec![0, 3]);
    assert_eq!(first.days[1].seconds, Some(10800));
    assert!(!first.days[1].full_day);
    let second = &march.weeks[1];
    assert_eq!(second.label, "Week of Mar 09 \u{2013} Mar 15, 2026");
    assert_eq!(second.seconds, Some(144000));
    assert!(second.full_week);
    assert_eq!(months[0].weeks[0].label, "Week of Feb 23 \u{2013} Mar 01, 2026");
}

#[test]
fn timesheet_of_nothing_is_empty() {
    assert_eq!(timesheet(&vec![], "2026-03-04").unwrap().len(), 0);
}

#[test]
fn timesheet_refuses_unreadable_days() {
    let entries = vec![entry("A-1", 60, "2026-03-04"), entry("A-2", 60, "2026-03-xx")];
    assert!(timesheet(&entries, "2026-03-04").is_none());
}

#[test]
fn task_report_orders_tasks_by_first_start() {
    let entries = sample();
    let months = task_report(&entries);
    assert_eq!(months.len(), 2);
    let march = &months[1];
    assert_eq!(march.name, "March 2026");
    assert_eq!(march.tasks.len(), 3);
    assert_eq!(march.tasks[0].key, "A-1");
    assert_eq!(march.tasks[0].started, "2026-03-03");
    assert_eq!(march.tasks[0].seconds, Some(36000));
    assert_eq!(march.tasks[0].entries, vec![1, 3]);
    assert_eq!(march.tasks[0].summary, "summary of A-1");
    assert_eq!(march.tasks[1].key, "B-2");
    assert_eq!(march.tasks[1].started, "2026-03-04");
    assert_eq!(march.tasks[1].seconds, Some(3600));
    assert_eq!(march.tasks[2].key, "C-3");
    assert_eq!(march.seconds, Some(36000 + 3600 + 144000));
    assert_eq!(months[0].tasks.len(), 1);
    assert_eq!(months[0].tasks[0].key, "B-2");
    assert_eq!(months[0].seconds, Some(1800));
}

#[test]
fn task_report_breaks_ties_by_key() {
    let entries = vec![entry("Z-9", 60, "2026-03-05"), entry("M-1", 60, "2026-03-05"), entry("A-1", 60, "2026-03-06")];
    let months = task_report(&entries);
    let keys: Vec<&str> = months[0].tasks.iter().map(|t| t.key.as_str()).collect();
    assert_eq!(keys, vec!["M-1", "Z-9", "A-1"]);
}

#[test]
fn totals_add_up_to_all_logged_time() {
    let entries = sample();
    let total: i64 = entries.iter().map(|e| e.seconds).sum();
    let months = timesheet(&entries, "2026-01-01").unwrap();
    assert_eq!(months.iter().map(|m| m.seconds.unwrap()).sum::<i64>(), total);
    let report = task_report(&entries);
    assert_eq!(report.iter().map(|m| m.seconds.unwrap()).sum::<i64>(), total);
    let count: usize = months.iter().map(|m| m.entries.len()).sum();
    assert_eq!(count, entries.len());
}

#[test]
fn task_view_and_timesheet_agree_by_month() {
    let entries = sample();
    let months = timesheet(&entries, "2026-03-04").unwrap();
    let report = task_report(&entries);
    assert_eq!(months.len(), report.len());
    for (m, t) in months.iter().zip(report.iter()) {
        assert_eq!(m.key, t.key);
        assert_eq!(m.name, t.name);
        assert_eq!(m.entries, t.entries);
        assert_eq!(m.seconds, t.seconds);
    }
}

#[test]
fn months_are_summed_apart() {
    let big = 5_000_000_000_000_000_000i64;
    let entries = vec![entry("A-1", big, "2026-02-10"), entry("A-1", big, "2026-03-10")];
    let months = timesheet(&entries, "2026-03-10").unwrap();
    assert_eq!(months[0].seconds, Some(big));
    assert_eq!(months[1].seconds, Some(big));
    let report = task_report(&entries);
    assert_eq!(report[1].tasks[0].seconds, Some(big));
}

#[test]
fn days_lie_in_their_week_and_month() {
    let entries = vec![
        entry("A-1", 60, "2026-02-28"),
        entry("A-1", 60, "2026-03-01"),
        entry("B-1", 60, "2026-03-02"),
        entry("B-1", 60, "2026-02-23"),
    ];
    let months = timesheet(&entries, "2026-03-02").unwrap();
    for month in &months {
        for week in &month.weeks {
            for day in &week.days {
                assert_eq!(week_label(&day.day), week.label);
                assert_eq!(&day.day[..7], month.key);
            }
        }
    }
    assert_eq!(months[0].weeks.len(), 1);
    assert_eq!(months[1].weeks.len(), 2);
    assert_eq!(months[1].weeks[0].label, months[0].weeks[0].label);
}

#[test]
fn task_entries_belong_to_their_task_and_month() {
    let entries = sample();
    let report = task_report(&entries);
    for month in &report {
        for task in &month.tasks {
            for &i in &task.entries {
                assert_eq!(entries[i].key, task.key);
                assert_eq!(&entries[i].started[..7], month.key);
            }
        }
    }
}

#[test]
fn signed_sums_that_fit_are_computed() {
    let entries = vec![entry("A-1", i64::MAX, "2026-03-10"), entry("A-1", -i64::MAX, "2026-03-10")];
    let months = timesheet(&entries, "2026-03-10").unwrap();
    assert_eq!(months[0].weeks[0].days[0].seconds, Some(0));
    assert_eq!(months[0].seconds, Some(0));
    let report = task_report(&entries);
    assert_eq!(report[0].tasks[0].seconds, Some(0));
}

#[test]
fn overflowing_sums_are_left_out() {
    let big = 1i64 << 62;
    let entries = vec![entry("A-1", big, "2026-03-10"), entry("B-1", big, "2026-03-11"), entry("A-1", big, "2026-03-12")];
    let report = task_report(&entries);
    let tasks = &report[0].tasks;
    assert_eq!(tasks[0].seconds, None);
    assert_eq!(tasks[1].seconds, Some(big));
    assert_eq!(report[0].seconds, None);
    let two = vec![entry("A-1", big, "2026-03-10"), entry("B-1", big, "2026-03-11")];
    let report = task_report(&two);
    assert_eq!(report[0].tasks[0].seconds, Some(big));
    assert_eq!(report[0].tasks[1].seconds, Some(big));
    assert_eq!(report[0].seconds, None);
    let months = timesheet(&two, "2026-03-11").unwrap();
    assert_eq!(months[0].weeks[0].days[0].seconds, Some(big));
    assert_eq!(months[0].weeks[0].days[1].seconds, Some(big));
    assert_eq!(months[0].weeks[0].seconds, None);
    assert!(!months[0].weeks[0].full_week);
    assert_eq!(months[0].seconds, None);
}

type Shown = (String, String, Option<i64>, String, Option<i64>, bool, String, String, Vec<String>, Option<i64>, bool);

fn shown(entries: &Vec<Entry>) -> Vec<Shown> {
    let mut out = Vec::new();
    for month in timesheet(entries, "2026-03-04").unwrap() {
        for week in &month.weeks {
            for day in &week.days {
                let rows: Vec<String> = day.entries.iter().map(|&i| format!("{}/{}", entries[i].key, entries[i].seconds)).collect();
                out.push((
                    month.key.clone(),
                    month.name.clone(),
                    month.seconds,
                    week.label.clone(),
                    week.seconds,
                    week.full_week,
                    day.day.clone(),
                    day.label.clone(),
                    rows,
                    day.seconds,
                    day.full_day,
                ));
            }
        }
    }
    out
}

#[test]
fn day_rows_are_the_entries_of_the_day_whatever_the_order_of_days() {
    let a = vec![
        entry("B-2", 3600, "2026-03-04"),
        entry("A-1", 28800, "2026-03-03"),
        entry("C-3", 60, "2026-03-04"),
        entry("B-2", 1800, "2026-02-27"),
    ];
    let b = vec![
        entry("B-2", 1800, "2026-02-27"),
        entry("B-2", 3600, "2026-03-04"),
        entry("A-1", 28800, "2026-03-03"),
        entry("C-3", 60, "2026-03-04"),
    ];
    assert_eq!(shown(&a), shown(&b));
    let days = shown(&a);
    assert_eq!(days[2].6, "2026-03-04");
    assert_eq!(days[2].8, vec!["B-2/3600".to_string(), "C-3/60".to_string()]);
    assert_eq!(days[2].9, Some(3660));
}
