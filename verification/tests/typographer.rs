use markdown_it::document::Document;
use markdown_it::node::{Node, NodeValue, Paragraph, Text};
use markdown_it::typographer::{abbreviation, typographer_replace, TypographerDocumentTransform, TypographerRule};

fn text(content: &str) -> Node {
    Node::new(NodeValue::Text(Text { content: content.to_owned() }))
}

fn content(node: &Node) -> String {
    match &node.node_value {
        NodeValue::Text(t) => t.content.clone(),
        _ => panic!("not text"),
    }
}

#[test]
fn doc_example_replacements() {
    assert_eq!(
        typographer_replace("Hello world!.... This is the Right Way(TM) to markdown!!!!!").as_deref(),
        Some("Hello world!.. This is the Right Way™ to markdown!!!")
    );
}

#[test]
fn symbols_dashes_and_commas() {
    assert_eq!(typographer_replace("(c) (R) (tm)").as_deref(), Some("© ® ™"));
    assert_eq!(typographer_replace("a -- b").as_deref(), Some("a – b"));
    assert_eq!(typographer_replace("a---b").as_deref(), Some("a—b"));
    assert_eq!(typographer_replace("x +- y").as_deref(), Some("x ± y"));
    assert_eq!(typographer_replace("a,,, b").as_deref(), Some("a, b"));
    assert_eq!(typographer_replace("wait???? no").as_deref(), Some("wait??? no"));
}

#[test]
fn plain_text_is_left_alone() {
    assert_eq!(typographer_replace("plain text."), None);
    assert_eq!(typographer_replace(""), None);
}

#[test]
fn abbreviations_ignore_case() {
    assert_eq!(abbreviation("(C)"), "©");
    assert_eq!(abbreviation("(Tm)"), "™");
    assert_eq!(abbreviation("(x)"), "(x)");
}

#[test]
fn tree_rule_rewrites_every_text_node() {
    let mut root = Node::new(NodeValue::Paragraph(Paragraph));
    root.children.push(text("雪... (TM)"));
    root.children.push(text("plain"));
    TypographerRule::run(&mut root);
    assert_eq!(content(&root.children[0]), "雪… ™");
    assert_eq!(content(&root.children[1]), "plain");
}

#[test]
fn document_transform_edits_changed_texts() {
    let mut root = Node::new(NodeValue::Paragraph(Paragraph));
    root.children.push(text("雪... (TM)"));
    root.children.push(text("plain"));
    let mut document = Document::from_legacy("雪... (TM)plain".to_owned(), root);
    let edits = TypographerDocumentTransform::run(&document);
    assert_eq!(edits.len(), 1);
    edits.commit(&mut document).unwrap();
    let tree = document.into_legacy();
    assert_eq!(content(&tree.children[0]), "雪… ™");
    assert_eq!(content(&tree.children[1]), "plain");
}
