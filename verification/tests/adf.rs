use jelper::{extract_adf_text, trim_white, AdfNode};

fn text(t: &str) -> AdfNode {
    AdfNode::Object { node_type: Some("text".to_string()), text: Some(t.to_string()), content: None }
}

fn node(kind: &str, children: Vec<AdfNode>) -> AdfNode {
    AdfNode::Object { node_type: Some(kind.to_string()), text: None, content: Some(children) }
}

#[test]
fn text_node_gives_its_text() {
    assert_eq!(extract_adf_text(&text("  hello ")), "  hello ");
}

#[test]
fn nested_paragraphs_are_joined_and_trimmed() {
    let doc = node(
        "doc",
        vec![
            node("paragraph", vec![text(" Fixed"), text("the bug ")]),
            node("paragraph", vec![]),
            AdfNode::Other,
            node("paragraph", vec![text("and tested")]),
        ],
    );
    assert_eq!(extract_adf_text(&doc), "Fixed the bug and tested");
}

#[test]
fn non_objects_and_missing_content_give_nothing() {
    assert_eq!(extract_adf_text(&AdfNode::Other), "");
    let bare = AdfNode::Object { node_type: Some("doc".to_string()), text: None, content: None };
    assert_eq!(extract_adf_text(&bare), "");
    let no_text = AdfNode::Object { node_type: Some("text".to_string()), text: None, content: None };
    assert_eq!(extract_adf_text(&no_text), "");
    let untyped = AdfNode::Object { node_type: None, text: Some("x".to_string()), content: Some(vec![text("y")]) };
    assert_eq!(extract_adf_text(&untyped), "y");
}

#[test]
fn trimming_uses_unicode_white_space() {
    assert_eq!(trim_white("\u{3000} a b\t\n"), "a b");
    assert_eq!(trim_white("   "), "");
    assert_eq!(trim_white("x"), "x");
}

#[test]
fn texts_of_containers_are_trimmed() {
    let doc = node("doc", vec![text("  padded  "), node("paragraph", vec![text("\tinner ")])]);
    let t = extract_adf_text(&doc);
    assert_eq!(t, "padded   inner");
    assert_eq!(trim_white(&t), t);
}
