//! What the library knows of Jira: the timesheet entries it builds from the
//! issues and worklogs that the Jira REST API returns, and the requests it
//! makes for them.
use vstd::prelude::*;
use crate::adf::{AdfNode, adf_text, extract_adf_text};
use crate::groups::lemma_filter_push;
use crate::text::{byte_prefix, chars_of, has_byte_prefix, push_char, str_byte_prefix};

verus! {

/// One worklog of the current user, as the timesheet shows it.
pub struct Entry {
    /// The issue key, as `"PROJ-12"`.
    pub key: String,
    pub summary: String,
    /// The name of the issue's status, as `"In Progress"`.
    pub status: String,
    /// The time spent, in seconds.
    pub seconds: i64,
    /// The day the work started, as `"YYYY-MM-DD"`.
    pub started: String,
    /// The browser link to the issue.
    pub url: String,
    /// The worklog comment as plain text.
    pub description: String,
}

impl Clone for Entry {
    fn clone(&self) -> (r: Self)
        ensures
            r == *self,
    {
        Entry {
            key: self.key.clone(),
            summary: self.summary.clone(),
            status: self.status.clone(),
            seconds: self.seconds,
            started: self.started.clone(),
            url: self.url.clone(),
            description: self.description.clone(),
        }
    }
}

/// The user whom the credentials belong to.
pub struct JiraUser {
    pub account_id: String,
    pub display_name: String,
}

/// One worklog of an issue.
pub struct Worklog {
    /// The account that logged the work.
    pub author_account_id: String,
    /// When the work started, as `"2026-03-02T09:00:00.000+0000"`.
    pub started: String,
    pub seconds: i64,
    /// The comment, where the worklog has one.
    pub comment: Option<AdfNode>,
}

/// The worklogs that a search returns with an issue: the first ones, and
/// how many the issue has in all.
pub struct WorklogPage {
    pub total: Option<u32>,
    pub worklogs: Vec<Worklog>,
}

/// An issue found by the worklog search.
pub struct Issue {
    pub key: String,
    pub summary: String,
    /// The name of the issue's status.
    pub status: String,
    /// The issue's worklogs, where the search returned them.
    pub worklog: Option<WorklogPage>,
}

/// Where the worklogs of an issue come from.
#[derive(PartialEq, Eq, Structural, Debug, Clone, Copy)]
pub enum WorklogSource {
    /// The search returned only some of them: fetch all of the issue's
    /// worklogs.
    FetchAll,
    /// The search returned all of them.
    Embedded,
    /// The search returned none: the issue has no entries.
    Skip,
}

/// At most this many worklogs come with an issue in a search result.
pub open spec fn embedded_worklog_limit() -> int {
    20
}

/// Where the worklogs of `issue` come from.
pub open spec fn source_of(issue: Issue) -> WorklogSource {
    match issue.worklog {
        None => WorklogSource::Skip,
        Some(page) => if (match page.total {
            Some(t) => t as int,
            None => 0,
        }) > embedded_worklog_limit() {
            WorklogSource::FetchAll
        } else {
            WorklogSource::Embedded
        },
    }
}

/// Decides where the worklogs of an issue come from: all of them must be
/// fetched when the issue has more than the search returns with it.
pub fn worklog_source(issue: &Issue) -> (res: WorklogSource)
    ensures
        res == source_of(*issue),
{
    match &issue.worklog {
        None => WorklogSource::Skip,
        Some(page) => {
            let total = match page.total {
                Some(t) => t,
                None => 0,
            };
            if total > 20 {
                WorklogSource::FetchAll
            } else {
                WorklogSource::Embedded
            }
        },
    }
}

/// An issue whose search result says it has more than 20 worklogs (the most a
/// search returns with an issue) has all of them fetched; one that says 20 or
/// fewer, or gives no count, uses those returned with it; one returned
/// without worklogs has none.
pub proof fn lemma_worklog_source(issue: Issue)
    ensures
        issue.worklog is None ==> source_of(issue) == WorklogSource::Skip,
        issue.worklog matches Some(p) && p.total matches Some(n) && n > 20u32
            ==> source_of(issue) == WorklogSource::FetchAll,
        issue.worklog matches Some(p) && (p.total is None || (p.total matches Some(n) && n <= 20u32))
            ==> source_of(issue) == WorklogSource::Embedded,
{
}

/// The worklogs logged by the account `account_id`.
pub open spec fn by_account(account_id: Seq<char>) -> spec_fn(Worklog) -> bool {
    |w: Worklog| w.author_account_id@ == account_id
}

/// The browser link to an issue.
pub open spec fn browse_url_text(base_url: Seq<char>, key: Seq<char>) -> Seq<char> {
    base_url + "/browse/"@ + key
}

/// The plain text of a worklog's comment; empty where it has none.
pub open spec fn comment_text(comment: Option<AdfNode>) -> Seq<char> {
    match comment {
        Some(c) => adf_text(c),
        None => Seq::empty(),
    }
}

/// `e` is the entry of the worklog `w` of `issue`.
pub open spec fn is_worklog_entry(e: Entry, base_url: Seq<char>, issue: Issue, w: Worklog) -> bool {
    &&& e.key@ == issue.key@
    &&& e.summary@ == issue.summary@
    &&& e.status@ == issue.status@
    &&& e.seconds == w.seconds
    &&& e.started@ == byte_prefix(w.started@, 10)
    &&& e.url@ == browse_url_text(base_url, issue.key@)
    &&& e.description@ == comment_text(w.comment)
}

/// Every worklog of the account has a start whose first ten bytes (the day)
/// end on a character boundary.
pub open spec fn starts_readable(account_id: Seq<char>, worklogs: Seq<Worklog>) -> bool {
    forall|i: int|
        0 <= i < worklogs.len() && #[trigger] worklogs[i].author_account_id@ == account_id
            ==> has_byte_prefix(worklogs[i].started@, 10)
}

/// The browser link to an issue: `{base_url}/browse/{key}`.
pub fn browse_url(base_url: &str, key: &str) -> (res: String)
    ensures
        res@ == browse_url_text(base_url@, key@),
{
    let mut res = String::from_str(base_url);
    res.append("/browse/");
    res.append(key);
    res
}

/// The timesheet entries of an issue: one for each of `worklogs` that the
/// account `account_id` logged, in their order.
pub fn issue_entries(base_url: &str, account_id: &str, issue: &Issue, worklogs: &Vec<Worklog>) -> (res:
    Vec<Entry>)
    requires
        starts_readable(account_id@, worklogs@),
    ensures
        res@.len() == worklogs@.filter(by_account(account_id@)).len(),
        forall|k: int|
            0 <= k < res@.len() ==> is_worklog_entry(
                #[trigger] res@[k],
                base_url@,
                *issue,
                worklogs@.filter(by_account(account_id@))[k],
            ),
{
    let account = String::from_str(account_id);
    let ghost p = by_account(account_id@);
    let mut res: Vec<Entry> = Vec::new();
    for i in 0..worklogs.len()
        invariant
            account@ == account_id@,
            p == by_account(account_id@),
            starts_readable(account_id@, worklogs@),
            res@.len() == worklogs@.take(i as int).filter(p).len(),
            forall|k: int|
                0 <= k < res@.len() ==> is_worklog_entry(
                    #[trigger] res@[k],
                    base_url@,
                    *issue,
                    worklogs@.take(i as int).filter(p)[k],
                ),
    {
        let w = &worklogs[i];
        proof {
            assert(worklogs@.take(i + 1) =~= worklogs@.take(i as int).push(worklogs@[i as int]));
            lemma_filter_push(worklogs@.take(i as int), worklogs@[i as int], p);
        }
        if w.author_account_id == account {
            assert(has_byte_prefix(worklogs@[i as int].started@, 10));
            let started = match str_byte_prefix(w.started.as_str(), 10) {
                Some(d) => d,
                None => {
                    assert(false);
                    String::new()
                },
            };
            let description = match &w.comment {
                Some(c) => extract_adf_text(c),
                None => String::new(),
            };
            let e = Entry {
                key: issue.key.clone(),
                summary: issue.summary.clone(),
                status: issue.status.clone(),
                seconds: w.seconds,
                started,
                url: browse_url(base_url, issue.key.as_str()),
                description,
            };
            res.push(e);
        }
    }
    assert(worklogs@.take(worklogs@.len() as int) =~= worklogs@);
    res
}

/// `s.trim_end_matches('/')`: `s` without the slashes at its end.
pub open spec fn without_trailing_slashes(s: Seq<char>) -> Seq<char>
    decreases s.len(),
{
    if s.len() > 0 && s.last() == '/' {
        without_trailing_slashes(s.drop_last())
    } else {
        s
    }
}

/// A normalized base URL does not end with a slash, and normalizing it again
/// leaves it as it is.
pub proof fn lemma_normalized_is_stable(s: Seq<char>)
    ensures
        without_trailing_slashes(s).len() == 0 || without_trailing_slashes(s).last() != '/',
        without_trailing_slashes(without_trailing_slashes(s)) == without_trailing_slashes(s),
    decreases s.len(),
{
    if s.len() > 0 && s.last() == '/' {
        lemma_normalized_is_stable(s.drop_last());
    }
}

/// The base URL of a Jira site as the client keeps it: without trailing
/// slashes, so that paths can be appended.
pub fn normalize_base_url(base_url: &str) -> (res: String)
    ensures
        res@ == without_trailing_slashes(base_url@),
{
    let x = chars_of(base_url);
    let mut n = x.len();
    assert(x@.take(n as int) =~= x@);
    while n > 0 && x[n - 1] == '/'
        invariant
            n <= x@.len(),
            x@ == base_url@,
            without_trailing_slashes(base_url@) == without_trailing_slashes(x@.take(n as int)),
        decreases n,
    {
        assert(x@.take(n as int).drop_last() =~= x@.take(n - 1));
        n = n - 1;
    }
    let mut res = String::new();
    for i in 0..n
        invariant
            n <= x@.len(),
            res@ == x@.take(i as int),
    {
        push_char(&mut res, x[i]);
        assert(res@ =~= x@.take(i + 1));
    }
    res
}

/// The URL of a Jira REST API (version 3) path.
pub fn api_url(base_url: &str, path: &str) -> (res: String)
    ensures
        res@ == base_url@ + "/rest/api/3"@ + path@,
{
    let mut res = String::from_str(base_url);
    res.append("/rest/api/3");
    res.append(path);
    res
}

/// The API path of all the worklogs of an issue.
pub fn worklog_path(key: &str) -> (res: String)
    ensures
        res@ == "/issue/"@ + key@ + "/worklog"@,
{
    let mut res = String::from_str("/issue/");
    res.append(key);
    res.append("/worklog");
    res
}

/// The JQL query for the issues on which the account logged work since the
/// start of the previous month, most recently updated first.
pub fn issues_jql(account_id: &str) -> (res: String)
    ensures
        res@ == "worklogAuthor = \""@ + account_id@
            + "\" AND worklogDate >= startOfMonth(-1) ORDER BY updated DESC"@,
{
    let mut res = String::from_str("worklogAuthor = \"");
    res.append(account_id);
    res.append("\" AND worklogDate >= startOfMonth(-1) ORDER BY updated DESC");
    res
}

/// The query parameters of one page of the issue search.
pub fn search_params(jql: &str, page_token: Option<&str>) -> (res: Vec<(String, String)>)
    ensures
        res@.len() == (if page_token is Some { 4int } else { 3int }),
        res@[0].0@ == "jql"@ && res@[0].1@ == jql@,
        res@[1].0@ == "fields"@ && res@[1].1@ == "summary,status,timespent,worklog,project"@,
        res@[2].0@ == "maxResults"@ && res@[2].1@ == "100"@,
        page_token matches Some(t) ==> res@[3].0@ == "nextPageToken"@ && res@[3].1@ == t@,
{
    let mut res: Vec<(String, String)> = Vec::new();
    res.push((String::from_str("jql"), String::from_str(jql)));
    res.push((String::from_str("fields"), String::from_str("summary,status,timespent,worklog,project")));
    res.push((String::from_str("maxResults"), String::from_str("100")));
    match page_token {
        Some(t) => {
            res.push((String::from_str("nextPageToken"), String::from_str(t)));
        },
        None => {},
    }
    res
}

/// After a page of the issue search: the token of the next page, or `None`
/// where the search is over (the page says it is the last, or says nothing,
/// or gives no token).
pub fn next_page_token(is_last: Option<bool>, token: Option<String>) -> (res: Option<String>)
    ensures
        res == (if (match is_last {
            Some(b) => b,
            None => true,
        }) {
            None
        } else {
            token
        }),
{
    let last = match is_last {
        Some(b) => b,
        None => true,
    };
    if last {
        None
    } else {
        token
    }
}

} // verus!
