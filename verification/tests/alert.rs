use markdown_it::alert::AlertScanner;
use markdown_it::node::{
    AlertKind, Blockquote, CodeInline, CustomValue, Em, Hardbreak, Link, Node, NodeValue, Paragraph, Softbreak,
    Strong, Text,
};

fn text(s: &str) -> Node {
    Node::new(NodeValue::Text(Text { content: s.to_owned() }))
}

fn with(value: NodeValue, children: Vec<Node>) -> Node {
    let mut n = Node::new(value);
    n.children = children;
    n
}

fn quote(children: Vec<Node>) -> Node {
    with(NodeValue::Blockquote(Blockquote), children)
}

fn para(children: Vec<Node>) -> Node {
    with(NodeValue::Paragraph(Paragraph), children)
}

fn kind(n: &Node) -> Option<AlertKind> {
    match &n.node_value {
        NodeValue::Alert(a) => Some(a.kind),
        _ => None,
    }
}

#[test]
fn all_marker_kinds_parse() {
    assert_eq!(AlertKind::parse("[!NOTE]"), Some(AlertKind::Note));
    assert_eq!(AlertKind::parse("[!TIP]"), Some(AlertKind::Tip));
    assert_eq!(AlertKind::parse("[!IMPORTANT]"), Some(AlertKind::Important));
    assert_eq!(AlertKind::parse("[!WARNING]"), Some(AlertKind::Warning));
    assert_eq!(AlertKind::parse("[!CAUTION]"), Some(AlertKind::Caution));
    assert_eq!(AlertKind::parse("[!note]"), None);
    assert_eq!(AlertKind::parse("[!NOTE] "), None);
    assert_eq!(AlertKind::parse("[!UNKNOWN]"), None);
}

#[test]
fn names_and_titles() {
    assert_eq!(AlertKind::Important.name(), "important");
    assert_eq!(AlertKind::Important.title(), "Important");
    assert_eq!(AlertKind::Caution.name(), "caution");
    assert_eq!(AlertKind::Tip.title(), "Tip");
}

#[test]
fn marker_line_becomes_an_alert_and_keeps_the_rest() {
    // > [!NOTE]
    // > Hello *world*
    let mut node = quote(vec![para(vec![
        text("[!NOTE]"),
        Node::new(NodeValue::Softbreak(Softbreak)),
        text("Hello "),
        with(NodeValue::Em(Em { marker: '*' }), vec![text("world")]),
    ])]);
    AlertScanner::process(&mut node);
    assert_eq!(kind(&node), Some(AlertKind::Note));
    assert_eq!(node.children.len(), 1);
    assert_eq!(node.children[0].children.len(), 2);
    assert!(matches!(node.children[0].children[1].node_value, NodeValue::Em(_)));
}

#[test]
fn empty_alert_loses_its_paragraph() {
    // > [!TIP]
    //
    // > more
    let mut node = quote(vec![para(vec![text("[!TIP]")]), para(vec![text("more")])]);
    AlertScanner::process(&mut node);
    assert_eq!(kind(&node), Some(AlertKind::Tip));
    assert_eq!(node.children.len(), 1);
    assert!(matches!(&node.children[0].children[0].node_value, NodeValue::Text(t) if t.content == "more"));
}

#[test]
fn hard_break_after_marker_is_dropped_too() {
    let mut node = quote(vec![para(vec![
        text("[!WARNING]"),
        Node::new(NodeValue::Hardbreak(Hardbreak)),
        text("x"),
    ])]);
    AlertScanner::process(&mut node);
    assert_eq!(kind(&node), Some(AlertKind::Warning));
    assert_eq!(node.children[0].children.len(), 1);
}

#[test]
fn marker_must_be_alone_on_its_line() {
    let mut node = quote(vec![para(vec![
        text("[!NOTE]"),
        with(NodeValue::Em(Em { marker: '*' }), vec![text("x")]),
    ])]);
    AlertScanner::process(&mut node);
    assert_eq!(kind(&node), None);
    assert!(matches!(node.node_value, NodeValue::Blockquote(_)));
    assert_eq!(node.children[0].children.len(), 2);
}

#[test]
fn other_blocks_and_plain_quotes_are_unchanged() {
    let mut p = para(vec![text("[!NOTE]")]);
    AlertScanner::process(&mut p);
    assert!(matches!(p.node_value, NodeValue::Paragraph(_)));

    let mut q = quote(vec![para(vec![text("just a quote")])]);
    AlertScanner::process(&mut q);
    assert!(matches!(q.node_value, NodeValue::Blockquote(_)));
}

#[test]
fn only_top_level_quotes_are_turned() {
    let inner = quote(vec![para(vec![text("[!NOTE]")])]);
    let mut root = para(vec![
        quote(vec![para(vec![text("[!CAUTION]")])]),
        quote(vec![inner]),
    ]);
    AlertScanner::run(&mut root);
    assert_eq!(kind(&root.children[0]), Some(AlertKind::Caution));
    assert!(root.children[0].children.is_empty());
    assert!(matches!(root.children[1].node_value, NodeValue::Blockquote(_)));
    assert!(matches!(root.children[1].children[0].node_value, NodeValue::Blockquote(_)));
}

fn softbreak() -> Node {
    Node::new(NodeValue::Softbreak(Softbreak))
}

fn custom(name: &str, children: Vec<Node>) -> Node {
    with(NodeValue::Custom(CustomValue { name: name.to_owned(), data: String::new() }), children)
}

fn content(n: &Node) -> Option<&str> {
    match &n.node_value {
        NodeValue::Text(t) => Some(t.content.as_str()),
        _ => None,
    }
}

#[test]
fn preserves_inline_markdown() {
    // > [!NOTE]
    // > Use **bold**, `code`, and [links](https://example.com).
    let mut node = quote(vec![para(vec![
        text("[!NOTE]"),
        softbreak(),
        text("Use "),
        with(NodeValue::Strong(Strong { marker: '*' }), vec![text("bold")]),
        text(", "),
        with(NodeValue::CodeInline(CodeInline { marker: '`', marker_len: 1 }), vec![text("code")]),
        text(", and "),
        with(NodeValue::Link(Link { url: "https://example.com".to_owned(), title: None }), vec![text("links")]),
        text("."),
    ])]);
    AlertScanner::process(&mut node);
    assert_eq!(kind(&node), Some(AlertKind::Note));
    assert_eq!(AlertKind::Note.name(), "note");
    assert_eq!(AlertKind::Note.title(), "Note");
    let p = &node.children[0];
    assert!(matches!(p.node_value, NodeValue::Paragraph(_)));
    assert_eq!(p.children.len(), 7);
    assert_eq!(content(&p.children[0]), Some("Use "));
    assert!(matches!(p.children[1].node_value, NodeValue::Strong(_)));
    assert!(matches!(p.children[3].node_value, NodeValue::CodeInline(_)));
    assert!(matches!(&p.children[5].node_value, NodeValue::Link(l) if l.url == "https://example.com"));
    assert_eq!(content(&p.children[6]), Some("."));
}

#[test]
fn preserves_block_content() {
    // > [!NOTE]
    // > First paragraph.
    // >
    // > - one
    // > - two
    let list = custom(
        "bullet_list",
        vec![custom("list_item", vec![text("one")]), custom("list_item", vec![text("two")])],
    );
    let mut node = quote(vec![para(vec![text("[!NOTE]"), softbreak(), text("First paragraph.")]), list]);
    AlertScanner::process(&mut node);
    assert_eq!(kind(&node), Some(AlertKind::Note));
    assert_eq!(node.children.len(), 2);
    assert_eq!(node.children[0].children.len(), 1);
    assert_eq!(content(&node.children[0].children[0]), Some("First paragraph."));
    assert!(matches!(&node.children[1].node_value, NodeValue::Custom(c) if c.name == "bullet_list"));
    assert_eq!(node.children[1].children.len(), 2);
}

#[test]
fn unknown_type_remains_blockquote() {
    // > [!UNKNOWN]
    // > content
    let mut node = quote(vec![para(vec![text("[!UNKNOWN]"), softbreak(), text("content")])]);
    AlertScanner::process(&mut node);
    assert_eq!(kind(&node), None);
    assert!(matches!(node.node_value, NodeValue::Blockquote(_)));
    assert_eq!(node.children[0].children.len(), 3);
    assert_eq!(content(&node.children[0].children[0]), Some("[!UNKNOWN]"));
}

#[test]
fn marker_must_occupy_first_line() {
    // > [!NOTE] content
    let mut node = quote(vec![para(vec![text("[!NOTE] content")])]);
    AlertScanner::process(&mut node);
    assert_eq!(kind(&node), None);
    assert!(matches!(node.node_value, NodeValue::Blockquote(_)));
    assert_eq!(content(&node.children[0].children[0]), Some("[!NOTE] content"));
}

#[test]
fn marker_after_other_text_is_not_recognized() {
    // > before
    // > [!NOTE]
    // > after
    let mut node = quote(vec![para(vec![
        text("before"),
        softbreak(),
        text("[!NOTE]"),
        softbreak(),
        text("after"),
    ])]);
    AlertScanner::process(&mut node);
    assert_eq!(kind(&node), None);
    assert!(matches!(node.node_value, NodeValue::Blockquote(_)));
    assert_eq!(node.children[0].children.len(), 5);
}

#[test]
fn lowercase_marker_is_not_recognized() {
    // > [!note]
    // > content
    let mut node = quote(vec![para(vec![text("[!note]"), softbreak(), text("content")])]);
    AlertScanner::process(&mut node);
    assert_eq!(kind(&node), None);
    assert!(matches!(node.node_value, NodeValue::Blockquote(_)));
    assert_eq!(content(&node.children[0].children[0]), Some("[!note]"));
}

#[test]
fn supports_empty_alert() {
    // > [!NOTE]
    let mut node = quote(vec![para(vec![text("[!NOTE]")])]);
    AlertScanner::process(&mut node);
    assert_eq!(kind(&node), Some(AlertKind::Note));
    assert!(node.children.is_empty());
}

#[test]
fn ordinary_blockquote_is_unchanged() {
    // > ordinary quote
    let mut node = quote(vec![para(vec![text("ordinary quote")])]);
    AlertScanner::process(&mut node);
    assert!(matches!(node.node_value, NodeValue::Blockquote(_)));
    assert_eq!(node.children.len(), 1);
    assert_eq!(content(&node.children[0].children[0]), Some("ordinary quote"));
}
