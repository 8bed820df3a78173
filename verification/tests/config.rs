use jelper::{load, Config, FileConfig};

fn file() -> Option<FileConfig> {
    Some(FileConfig { jira_url: "https://saved".to_string(), jira_email: "saved@x".to_string() })
}

#[test]
fn defaults_are_empty() {
    let c = Config::default();
    assert_eq!((c.jira_url.as_str(), c.jira_email.as_str(), c.token.as_str()), ("", "", ""));
    assert!(c.needs_setup(false));
    assert_eq!(c.suggested_url(), "https://your-org.atlassian.net");
}

#[test]
fn command_line_overrides_the_file() {
    let c = load(file(), Some("https://given"), None, None, Some("stored".to_string()));
    assert_eq!(c.jira_url, "https://given");
    assert_eq!(c.jira_email, "saved@x");
    assert_eq!(c.token, "stored");
    assert!(!c.needs_setup(false));
    assert!(c.needs_setup(true));
    assert_eq!(c.suggested_url(), "https://given");
}

#[test]
fn missing_parts_ask_for_setup() {
    let c = load(None, None, Some("me@x"), Some("tok"), None);
    assert_eq!(c.jira_url, "");
    assert_eq!(c.jira_email, "me@x");
    assert_eq!(c.token, "tok");
    assert!(c.needs_setup(false));
    let c = load(file(), None, None, None, None);
    assert_eq!(c.token, "");
    assert!(c.needs_setup(false));
}
