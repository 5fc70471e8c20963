use markdown_it::document::{Document, InvalidNodeId};
use markdown_it::edit::EditError;
use markdown_it::node::{Node, NodeValue, Root};

#[test]
fn node_ids_and_errors_read_like_the_debug_forms() {
    let document = Document::from_legacy(String::new(), Node::new(NodeValue::Root(Root::new(String::new()))));
    let id = document.root();
    let shown = format!("NodeId({}:{})", id.slot(), id.generation());
    assert_eq!(id.describe(), shown);
    assert_eq!(
        InvalidNodeId(id).message(),
        format!("invalid or stale node ID: {shown}")
    );
    assert_eq!(
        EditError::NotEditableText(id).message(),
        format!("node {shown} is not an editable Text node")
    );
    assert_eq!(
        EditError::InvalidTextRange { node: id, range: 3..1 }.message(),
        format!("invalid UTF-8 text range 3..1 for node {shown}")
    );
    assert_eq!(
        EditError::ConflictingAttributeEdits { node: id, name: "a\"b".to_owned() }.message(),
        format!("conflicting edits for attribute \"a\\\"b\" on node {shown}")
    );
    assert_eq!(
        EditError::InvalidSourceMap { node: id, start: 10, end: 2 }.message(),
        format!("invalid source map 10..2 for node {shown}")
    );
    assert_eq!(
        EditError::OverlappingWrapRanges { first_range: (id, id), second_range: (id, id) }.message(),
        format!("wrap ranges {shown} through {shown} and {shown} through {shown} overlap")
    );
    assert_eq!(
        EditError::InvalidNode(InvalidNodeId(id)).message(),
        format!("invalid or stale node ID: {shown}")
    );
}
