use jelper::{to_toon, Entry};

fn entry(key: &str, summary: &str, seconds: i64, started: &str, description: &str) -> Entry {
    Entry {
        key: key.to_string(),
        summary: summary.to_string(),
        status: "Done".to_string(),
        seconds,
        started: started.to_string(),
        url: format!("https://x.atlassian.net/browse/{key}"),
        description: description.to_string(),
    }
}

#[test]
fn empty_document() {
    assert_eq!(to_toon(&[]), "entries[0]:\n");
}

#[test]
fn plain_values_stay_unquoted() {
    let e = entry("PROJ-1", "Fix login", 3600, "2026-03-02", "done");
    assert_eq!(
        to_toon(&[e]),
        "entries[1]{key,summary,status,seconds,started,url,description}:\n  PROJ-1,Fix login,Done,3600,2026-03-02,\"https://x.atlassian.net/browse/PROJ-1\",done\n"
    );
}

#[test]
fn special_values_are_quoted_and_escaped() {
    let e = entry("A-2", " padded", -60, "2026-03-03", "a,b \"q\"\\\n\r\t");
    assert_eq!(
        to_toon(&[e]),
        "entries[1]{key,summary,status,seconds,started,url,description}:\n  A-2,\" padded\",Done,-60,2026-03-03,\"https://x.atlassian.net/browse/A-2\",\"a,b \\\"q\\\"\\\\\\n\\r\\t\"\n"
    );
}

#[test]
fn empty_and_trailing_space_values() {
    let e = entry("A-3", "", 0, "2026-03-03", "tail\u{a0}");
    let doc = to_toon(&[e.clone(), e]);
    assert_eq!(
        doc,
        "entries[2]{key,summary,status,seconds,started,url,description}:\n  A-3,\"\",Done,0,2026-03-03,\"https://x.atlassian.net/browse/A-3\",\"tail\u{a0}\"\n  A-3,\"\",Done,0,2026-03-03,\"https://x.atlassian.net/browse/A-3\",\"tail\u{a0}\"\n"
    );
}

fn read_row(row: &str) -> Vec<String> {
    let chars: Vec<char> = row.chars().collect();
    let mut fields = Vec::new();
    let mut i = 0;
    loop {
        let mut value = String::new();
        if i < chars.len() && chars[i] == '"' {
            i += 1;
            while i < chars.len() && chars[i] != '"' {
                if chars[i] == '\\' && i + 1 < chars.len() {
                    value.push(match chars[i + 1] {
                        'n' => '\n',
                        'r' => '\r',
                        't' => '\t',
                        c => c,
                    });
                    i += 2;
                } else {
                    value.push(chars[i]);
                    i += 1;
                }
            }
            i += 1;
        } else {
            while i < chars.len() && chars[i] != ',' {
                value.push(chars[i]);
                i += 1;
            }
        }
        fields.push(value);
        if i < chars.len() && chars[i] == ',' {
            i += 1;
        } else {
            return fields;
        }
    }
}

#[test]
fn rows_read_back_as_their_entries() {
    let entries = vec![
        entry("A-2", " padded", -60, "2026-03-03", "a,b \"q\"\\\n\r\t end"),
        entry("A-3", "", 0, "2026-03-03", "tail\u{a0}"),
        entry("PROJ-1", "Fix login", 3600, "2026-03-02", "done"),
    ];
    let doc = to_toon(&entries);
    let lines: Vec<&str> = doc.lines().collect();
    assert_eq!(lines.len(), entries.len() + 1);
    for (i, e) in entries.iter().enumerate() {
        let row = lines[i + 1].strip_prefix("  ").unwrap();
        let expected = vec![
            e.key.clone(),
            e.summary.clone(),
            e.status.clone(),
            e.seconds.to_string(),
            e.started.clone(),
            e.url.clone(),
            e.description.clone(),
        ];
        assert_eq!(read_row(row), expected);
    }
}
