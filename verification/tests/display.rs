use jelper::{columns_or_default, indented_lines, rule_line, status_style, table_width, StatusColor};

#[test]
fn widths() {
    assert_eq!(columns_or_default(0), 80);
    assert_eq!(columns_or_default(120), 120);
    assert_eq!(table_width(80), 76);
    assert_eq!(table_width(3), 0);
}

#[test]
fn rules() {
    assert_eq!(rule_line("", "", 5), "\u{2500}".repeat(5));
    assert_eq!(rule_line("March 2026", "March 2026", 20), "\u{2500}\u{2500}\u{2500}\u{2500} March 2026 \u{2500}\u{2500}\u{2500}\u{2500}");
    assert_eq!(rule_line("abc", "abc", 10), "\u{2500}\u{2500} abc \u{2500}\u{2500}\u{2500}");
    assert_eq!(rule_line("abcdefgh", "abcdefgh", 10), " abcdefgh ");
    assert_eq!(rule_line("\u{65e5}\u{672c}", "\u{65e5}\u{672c}", 10), "\u{2500}\u{2500} \u{65e5}\u{672c} \u{2500}\u{2500}");
    assert_eq!(rule_line("abc", "\u{1b}[1mabc\u{1b}[0m", 10), "\u{2500}\u{2500} \u{1b}[1mabc\u{1b}[0m \u{2500}\u{2500}\u{2500}");
}

#[test]
fn statuses() {
    assert_eq!(status_style("Done"), (StatusColor::Green, "\u{2713}  Done".to_string()));
    assert_eq!(status_style("In Progress"), (StatusColor::Yellow, "\u{23f3} In Progress".to_string()));
    assert_eq!(status_style("Review"), (StatusColor::Blue, "\u{1f441}  Review".to_string()));
    assert_eq!(status_style("To Do"), (StatusColor::White, "\u{25cb}  To Do".to_string()));
    assert_eq!(status_style("Selected for Development"), (StatusColor::Cyan, "\u{1f3af} Selected for Development".to_string()));
    assert_eq!(status_style("Blocked"), (StatusColor::White, "   Blocked".to_string()));
}

#[test]
fn indentation_follows_str_lines() {
    for text in ["", "a", "a\n", "a\r\nb", "\n\n", "x\ry", "x\r", "one\ntwo\r\n", "\r\n"] {
        let expected: Vec<String> = text.lines().map(|l| format!("  {l}")).collect();
        assert_eq!(indented_lines(text), expected, "text = {:?}", text);
    }
}

#[test]
fn keys_link_to_their_issue() {
    assert_eq!(
        jelper::linked_key("PROJ-7", "https://x.atlassian.net/browse/PROJ-7"),
        "\u{1b}]8;;https://x.atlassian.net/browse/PROJ-7\u{1b}\\PROJ-7\u{1b}]8;;\u{1b}\\"
    );
}
