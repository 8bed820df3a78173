use jelper::{
    api_url, browse_url, issue_entries, issues_jql, next_page_token, normalize_base_url,
    search_params, worklog_path, worklog_source, AdfNode, Issue, Worklog, WorklogPage,
    WorklogSource,
};

fn worklog(author: &str, started: &str, seconds: i64, comment: Option<&str>) -> Worklog {
    Worklog {
        author_account_id: author.to_string(),
        started: started.to_string(),
        seconds,
        comment: comment.map(|c| AdfNode::Object {
            node_type: Some("doc".to_string()),
            text: None,
            content: Some(vec![AdfNode::Object {
                node_type: Some("text".to_string()),
                text: Some(c.to_string()),
                content: None,
            }]),
        }),
    }
}

fn issue(total: Option<u32>, worklogs: Option<Vec<Worklog>>) -> Issue {
    Issue {
        key: "PROJ-7".to_string(),
        summary: "Build it".to_string(),
        status: "Review".to_string(),
        worklog: worklogs.map(|w| WorklogPage { total, worklogs: w }),
    }
}

#[test]
fn where_worklogs_come_from() {
    assert_eq!(worklog_source(&issue(None, None)), WorklogSource::Skip);
    assert_eq!(worklog_source(&issue(None, Some(vec![]))), WorklogSource::Embedded);
    assert_eq!(worklog_source(&issue(Some(20), Some(vec![]))), WorklogSource::Embedded);
    assert_eq!(worklog_source(&issue(Some(21), Some(vec![]))), WorklogSource::FetchAll);
}

#[test]
fn entries_of_the_account_only() {
    let logs = vec![
        worklog("me", "2026-03-02T09:00:00.000+0000", 3600, Some("first")),
        worklog("someone", "2026-03-02T10:00:00.000+0000", 60, None),
        worklog("me", "2026-03-03T09:00:00.000+0000", 1800, None),
    ];
    let i = issue(Some(3), None);
    let entries = issue_entries("https://x.atlassian.net", "me", &i, &logs);
    assert_eq!(entries.len(), 2);
    assert_eq!(entries[0].key, "PROJ-7");
    assert_eq!(entries[0].summary, "Build it");
    assert_eq!(entries[0].status, "Review");
    assert_eq!(entries[0].seconds, 3600);
    assert_eq!(entries[0].started, "2026-03-02");
    assert_eq!(entries[0].url, "https://x.atlassian.net/browse/PROJ-7");
    assert_eq!(entries[0].description, "first");
    assert_eq!(entries[1].started, "2026-03-03");
    assert_eq!(entries[1].description, "");
}

#[test]
fn urls_and_queries() {
    assert_eq!(normalize_base_url("https://x.atlassian.net//"), "https://x.atlassian.net");
    assert_eq!(normalize_base_url("https://x.atlassian.net"), "https://x.atlassian.net");
    assert_eq!(normalize_base_url("///"), "");
    assert_eq!(api_url("https://x", "/myself"), "https://x/rest/api/3/myself");
    assert_eq!(worklog_path("P-1"), "/issue/P-1/worklog");
    assert_eq!(browse_url("https://x", "P-1"), "https://x/browse/P-1");
    assert_eq!(
        issues_jql("abc"),
        "worklogAuthor = \"abc\" AND worklogDate >= startOfMonth(-1) ORDER BY updated DESC"
    );
    let params = search_params("q", None);
    assert_eq!(params.len(), 3);
    assert_eq!(params[0], ("jql".to_string(), "q".to_string()));
    assert_eq!(params[1], ("fields".to_string(), "summary,status,timespent,worklog,project".to_string()));
    assert_eq!(params[2], ("maxResults".to_string(), "100".to_string()));
    let params = search_params("q", Some("t1"));
    assert_eq!(params[3], ("nextPageToken".to_string(), "t1".to_string()));
}

#[test]
fn paging_stops_on_the_last_page() {
    assert_eq!(next_page_token(Some(false), Some("t".to_string())), Some("t".to_string()));
    assert_eq!(next_page_token(Some(true), Some("t".to_string())), None);
    assert_eq!(next_page_token(None, Some("t".to_string())), None);
    assert_eq!(next_page_token(Some(false), None), None);
}

#[test]
fn normalizing_twice_changes_nothing() {
    for url in ["https://x.atlassian.net/", "https://x.atlassian.net", "/", "", "a//b//"] {
        let once = normalize_base_url(url);
        assert!(!once.ends_with('/'));
        assert_eq!(normalize_base_url(&once), once);
    }
}
