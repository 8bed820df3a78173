# Jelper

A Jira timesheet tool: it fetches your worklogs of the current and the
previous month and shows them grouped by month, week and day, or as a task
summary per month, or exports them (JSON, TOON, or a spreadsheet of last
month's tasks).

The logic is a library verified with Verus; the command-line program around
it does the I/O.

## Layout

- `src/` — the verified library.
  - `jira.rs` — entries built from Jira issues and worklogs; the requests
    (URLs, JQL, paging).
  - `adf.rs` — plain text of worklog comments (Atlassian Document Format).
  - `dates.rs` — calendar model (day numbers, weekdays, the texts `chrono`
    writes) and the weeks of dates; `chrono` behind trusted wrappers.
  - `groups.rs`, `sums.rs` — grouping positions by key, summing over
    groups, and totals added up in an `i64` (left out where they overflow).
  - `timesheet.rs` — the month / week / day view with its totals.
  - `shown.rs` — what that view shows, and that it is the same for any
    order of the entries that keeps the order within each day.
  - `tasks.rs` — the task view: tasks per month with first start and total.
  - `report.rs` — the months reported on, the spreadsheet name, filters, and
    the choice of output.
  - `hours.rs` — hours as text, matching `{:.1}` of the `f64` quotient.
  - `export.rs` — the TOON export: one line per entry, each reading back
    as that entry's fields.
  - `display.rs` — rules, status styles, issue keys as terminal links,
    widths and indentation of tables.
  - `config.rs` — credentials from the command line, file and keychain.
  - `text.rs` — string helpers (decimal text, order, byte prefixes).
- `app/` — the program: HTTP client, terminal rendering, files, keychain,
  spreadsheet writing.
- `tests/` — tests of the library.
