//! Jelper: a Jira timesheet library.
//!
//! The crate holds the logic of a Jira worklog timesheet tool: turning Jira
//! issues and worklogs into timesheet entries, grouping entries by month, week
//! and day, summing the time spent per task, and rendering hours and exports.
pub mod adf;
pub mod config;
pub mod dates;
pub mod display;
pub mod export;
pub mod groups;
pub mod hours;
pub mod jira;
pub mod report;
pub mod shown;
pub mod sums;
pub mod tasks;
pub mod text;
pub mod timesheet;

pub use adf::{AdfNode, extract_adf_text, trim_white};
pub use config::{Config, FileConfig, load};
pub use dates::{Date, month_display_name, try_week_bounds, week_bounds, week_label, week_sort_key};
pub use display::{
    StatusColor, columns_or_default, indented_lines, linked_key, rule_line, status_style,
    table_width,
};
pub use export::to_toon;
pub use hours::format_hours;
pub use jira::{
    Entry, Issue, JiraUser, Worklog, WorklogPage, WorklogSource, api_url, browse_url,
    issue_entries, issues_jql, next_page_token, normalize_base_url, search_params, worklog_path,
    worklog_source,
};
pub use report::{Output, ReportPeriod, entries_in_month, entries_since, output_for, report_period};
pub use tasks::{MonthTasks, TaskSummary, sheet_title, task_count_label, task_report};
pub use timesheet::{DaySheet, MonthSheet, WeekSheet, timesheet};
