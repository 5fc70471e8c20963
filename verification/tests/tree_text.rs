use markdown_it::document_text::{TextProjection, TextProjectionRule};
use markdown_it::node::{Node, NodeKind, NodeValue, Paragraph, Text, TextSpecial};
use markdown_it::tree_text::{TextEditBatch, TextEditError, TextNodeKey};

fn text(content: &str) -> Node {
    Node::new(NodeValue::Text(Text {
        content: content.to_owned(),
    }))
}

fn classify() -> TextProjection {
    TextProjection::new(vec![(NodeKind::Text, TextProjectionRule::Writable)])
}

fn empty_root() -> Node {
    Node::new(NodeValue::Paragraph(Paragraph))
}

fn content(node: &Node) -> String {
    match &node.node_value {
        NodeValue::Text(t) => t.content.clone(),
        _ => panic!("not a text node"),
    }
}

#[test]
fn batch_rebuilds_each_text_node_once() {
    let mut root = empty_root();
    root.children.push(text("a雪c"));
    let mut batch = TextEditBatch::new(&classify());
    batch.replace(TextNodeKey(0), 0..1, "A");
    batch.replace(TextNodeKey(0), 1..4, "雨");
    batch.commit(&mut root).unwrap();
    assert_eq!(content(&root.children[0]), "A雨c");
}

#[test]
fn invalid_batch_is_atomic() {
    let mut root = empty_root();
    root.children.push(text("雪"));
    let mut batch = TextEditBatch::new(&classify());
    batch.replace(TextNodeKey(0), 0..3, "雨");
    batch.replace(TextNodeKey(0), 1..2, "x");
    assert!(matches!(
        batch.commit(&mut root),
        Err(TextEditError::InvalidRange(TextNodeKey(0), _))
    ));
    assert_eq!(content(&root.children[0]), "雪");
}

#[test]
fn rejects_overlapping_and_unknown_edits() {
    let mut root = empty_root();
    root.children.push(text("abcd"));
    let mut overlap = TextEditBatch::new(&classify());
    overlap.replace(TextNodeKey(0), 0..2, "x");
    overlap.replace(TextNodeKey(0), 1..3, "y");
    assert_eq!(
        overlap.commit(&mut root),
        Err(TextEditError::OverlappingEdits(TextNodeKey(0)))
    );

    let mut unknown = TextEditBatch::new(&classify());
    unknown.replace(TextNodeKey(1), 0..0, "x");
    assert_eq!(
        unknown.commit(&mut root),
        Err(TextEditError::UnknownNode(TextNodeKey(1)))
    );
}

#[test]
fn edits_apply_in_range_order_whatever_the_call_order() {
    let mut root = empty_root();
    root.children.push(text("abcd"));
    let mut batch = TextEditBatch::new(&classify());
    batch.replace(TextNodeKey(0), 3..4, "D");
    batch.replace_char(TextNodeKey(0), 0..1, 'Z');
    batch.commit(&mut root).unwrap();
    assert_eq!(content(&root.children[0]), "ZbcD");
}

#[test]
fn keys_follow_preorder_across_nested_nodes() {
    let mut root = empty_root();
    let mut inner = empty_root();
    inner.children.push(text("one"));
    root.children.push(inner);
    root.children.push(text("two"));
    let mut batch = TextEditBatch::new(&classify());
    batch.replace(TextNodeKey(1), 0..3, "2");
    batch.replace(TextNodeKey(0), 0..0, ">");
    batch.commit(&mut root).unwrap();
    assert_eq!(content(&root.children[0].children[0]), ">one");
    assert_eq!(content(&root.children[1]), "2");
}

#[test]
fn range_past_the_end_is_invalid() {
    let mut root = empty_root();
    root.children.push(text("ab"));
    let mut batch = TextEditBatch::new(&classify());
    batch.replace(TextNodeKey(0), 1..5, "x");
    assert_eq!(
        batch.commit(&mut root),
        Err(TextEditError::InvalidRange(TextNodeKey(0), 1..5))
    );
    assert_eq!(content(&root.children[0]), "ab");
}

#[test]
fn a_range_fault_wins_over_unknown_keys() {
    let mut root = empty_root();
    root.children.push(text("ab"));
    let mut batch = TextEditBatch::new(&classify());
    batch.replace(TextNodeKey(7), 0..0, "x");
    batch.replace(TextNodeKey(0), 2..1, "x");
    assert_eq!(
        batch.commit(&mut root),
        Err(TextEditError::InvalidRange(TextNodeKey(0), 2..1))
    );
}

#[test]
fn smallest_unknown_key_is_reported() {
    let mut root = empty_root();
    root.children.push(text("ab"));
    let mut batch = TextEditBatch::new(&classify());
    batch.replace(TextNodeKey(9), 0..0, "x");
    batch.replace(TextNodeKey(3), 0..0, "x");
    assert_eq!(
        batch.commit(&mut root),
        Err(TextEditError::UnknownNode(TextNodeKey(3)))
    );
}

#[test]
fn read_only_text_has_no_writable_keys() {
    let mut root = empty_root();
    root.children.push(text("ab"));
    let projection = TextProjection::new(vec![(NodeKind::Text, TextProjectionRule::ReadOnly)]);
    let mut batch = TextEditBatch::new(&projection);
    batch.replace(TextNodeKey(0), 0..1, "x");
    assert_eq!(
        batch.commit(&mut root),
        Err(TextEditError::UnknownNode(TextNodeKey(0)))
    );
    assert_eq!(content(&root.children[0]), "ab");
}

#[test]
fn empty_batch_leaves_the_tree_alone() {
    let mut root = empty_root();
    root.children.push(text("ab"));
    let batch = TextEditBatch::new(&classify());
    batch.commit(&mut root).unwrap();
    assert_eq!(content(&root.children[0]), "ab");
}

#[test]
fn adjacent_edits_do_not_overlap() {
    let mut root = empty_root();
    root.children.push(text("abcd"));
    let mut batch = TextEditBatch::new(&classify());
    batch.replace(TextNodeKey(0), 2..4, "Y");
    batch.replace(TextNodeKey(0), 0..2, "X");
    batch.commit(&mut root).unwrap();
    assert_eq!(content(&root.children[0]), "XY");
}

#[test]
fn the_last_faulty_node_is_reported() {
    let mut root = empty_root();
    root.children.push(text("ab"));
    root.children.push(text("cd"));
    let mut batch = TextEditBatch::new(&classify());
    batch.replace(TextNodeKey(0), 0..9, "x");
    batch.replace(TextNodeKey(1), 0..2, "x");
    batch.replace(TextNodeKey(1), 1..2, "y");
    assert_eq!(
        batch.commit(&mut root),
        Err(TextEditError::OverlappingEdits(TextNodeKey(1)))
    );
    assert_eq!(content(&root.children[0]), "ab");
    assert_eq!(content(&root.children[1]), "cd");
}

#[test]
fn node_name_is_the_payload_type_path() {
    let text = Node::new(NodeValue::Text(Text { content: "a".to_owned() }));
    assert_eq!(text.name(), "markdown_it::node::Text");
    let para = Node::new(NodeValue::Paragraph(Paragraph));
    assert_eq!(para.name(), "markdown_it::node::Paragraph");
    assert!(text.is(NodeKind::Text));
}

#[test]
fn keys_count_only_writable_text_nodes() {
    // The first node is projected read-only, so the only key names the second.
    let mut root = empty_root();
    root.children.push(Node::new(NodeValue::TextSpecial(TextSpecial {
        content: "read".to_owned(),
        markup: "read".to_owned(),
        info: String::new(),
    })));
    root.children.push(text("write"));
    let projection = TextProjection::new(vec![
        (NodeKind::Text, TextProjectionRule::Writable),
        (NodeKind::TextSpecial, TextProjectionRule::ReadOnly),
    ]);
    let mut batch = TextEditBatch::new(&projection);
    batch.replace(TextNodeKey(0), 0..5, "changed");
    batch.commit(&mut root).unwrap();
    assert!(matches!(&root.children[0].node_value, NodeValue::TextSpecial(t) if t.content == "read"));
    assert_eq!(content(&root.children[1]), "changed");
}
