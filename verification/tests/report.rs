use jelper::{entries_in_month, entries_since, output_for, report_period, task_count_label, sheet_title, Date, Entry, Output};

fn entry(started: &str) -> Entry {
    Entry {
        key: "K-1".to_string(),
        summary: String::new(),
        status: String::new(),
        seconds: 60,
        started: started.to_string(),
        url: String::new(),
        description: String::new(),
    }
}

#[test]
fn period_of_a_day() {
    let p = report_period(Date { year: 2026, month: 3, day: 15 }).unwrap();
    assert_eq!(p.cutoff, "2026-02");
    assert_eq!(p.last_month, "2026-02");
    assert_eq!(p.xlsx_file, "february-2026.xlsx");
    let p = report_period(Date { year: 2026, month: 1, day: 1 }).unwrap();
    assert_eq!(p.cutoff, "2025-12");
    assert_eq!(p.xlsx_file, "december-2025.xlsx");
}

#[test]
fn filters() {
    let entries = vec![entry("2026-01-31"), entry("2026-02-01"), entry("2026-03-04"), entry("2026-02-28")];
    let since: Vec<String> = entries_since(&entries, "2026-02").into_iter().map(|e| e.started).collect();
    assert_eq!(since, vec!["2026-02-01", "2026-03-04", "2026-02-28"]);
    let feb: Vec<String> = entries_in_month(&entries, "2026-02").into_iter().map(|e| e.started).collect();
    assert_eq!(feb, vec!["2026-02-01", "2026-02-28"]);
}

#[test]
fn labels() {
    assert_eq!(task_count_label(12), "12 tasks");
    assert_eq!(sheet_title("March 2026"), "Timesheet \u{2014} March 2026");
}

#[test]
fn spreadsheet_of_last_month_is_named_after_it() {
    let p = report_period(Date { year: 2026, month: 4, day: 2 }).unwrap();
    assert_eq!(p.xlsx_file, "march-2026.xlsx");
    assert_eq!(p.last_month, "2026-03");
}

#[test]
fn no_month_before_the_earliest() {
    assert!(report_period(Date { year: -262143, month: 1, day: 20 }).is_none());
    assert!(report_period(Date { year: -262143, month: 2, day: 20 }).is_some());
}

#[test]
fn flags_choose_the_output() {
    assert_eq!(output_for(true, true, true, true), Output::Spreadsheet);
    assert_eq!(output_for(false, true, true, true), Output::TasksJson);
    assert_eq!(output_for(false, false, true, true), Output::EntriesJson);
    assert_eq!(output_for(false, true, false, true), Output::Toon);
    assert_eq!(output_for(false, true, false, false), Output::Tasks);
    assert_eq!(output_for(false, false, false, false), Output::Timesheet);
}

#[test]
fn spreadsheet_month_is_among_the_shown_entries() {
    let entries = vec![entry("2026-02-27"), entry("2026-03-01"), entry("2026-04-02"), entry("2026-03-31")];
    let shown = entries_since(&entries, "2026-03");
    let from_shown: Vec<String> = entries_in_month(&shown, "2026-03").into_iter().map(|e| e.started).collect();
    let from_all: Vec<String> = entries_in_month(&entries, "2026-03").into_iter().map(|e| e.started).collect();
    assert_eq!(from_shown, from_all);
    assert_eq!(from_all, vec!["2026-03-01", "2026-03-31"]);
}
