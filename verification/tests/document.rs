use markdown_it::arena::NodeId;
use markdown_it::document::{Document, InvalidNodeId};
use markdown_it::edit::{EditBatch, EditError};
use markdown_it::events::{StructuralEvent, StructuralEvents};
use markdown_it::node::{Node, NodeKind, NodeValue, Paragraph, Root, Text};

fn text(content: &str) -> Node {
    Node::new(NodeValue::Text(Text {
        content: content.to_owned(),
    }))
}

fn collect(mut events: StructuralEvents<'_>) -> Vec<(&'static str, NodeId)> {
    let mut out = Vec::new();
    while let Some(event) = events.next() {
        out.push(match event {
            StructuralEvent::Enter(node) => ("enter", node.id()),
            StructuralEvent::Leaf(node) => ("leaf", node.id()),
            StructuralEvent::Exit(node) => ("exit", node.id()),
        });
    }
    out
}

#[test]
fn legacy_roundtrip_preserves_tree_and_payloads() {
    let mut root = Node::new(NodeValue::Root(Root::new("hello".to_owned())));
    let mut paragraph = Node::new(NodeValue::Paragraph(Paragraph));
    paragraph.children.push(text("hello"));
    root.children.push(paragraph);

    let document = Document::from_legacy("hello".to_owned(), root);
    let root_id = document.root();
    let paragraph_id = document.children(root_id).unwrap()[0];
    let text_id = document.children(paragraph_id).unwrap()[0];

    assert_eq!(document.source(), "hello");
    assert_eq!(document.len(), 3);
    assert_eq!(document.parent(root_id).unwrap(), None);
    assert_eq!(document.parent(text_id).unwrap(), Some(paragraph_id));
    assert_eq!(
        document.node(text_id).unwrap().cast_text().unwrap().content,
        "hello"
    );

    let legacy = document.into_legacy();
    assert!(legacy.is(NodeKind::Root));
    assert!(legacy.children[0].is(NodeKind::Paragraph));
    assert_eq!(
        legacy.children[0].children[0].cast_text().unwrap().content,
        "hello"
    );
}

#[test]
fn structural_events_are_ordered_and_balanced() {
    let mut root = Node::new(NodeValue::Root(Root::new("hello".to_owned())));
    let mut paragraph = Node::new(NodeValue::Paragraph(Paragraph));
    paragraph.children.push(text("first"));
    paragraph.children.push(text("second"));
    root.children.push(paragraph);

    let document = Document::from_legacy("hello".to_owned(), root);
    let root = document.root();
    let paragraph = document.children(root).unwrap()[0];
    let children = document.children(paragraph).unwrap();
    let actual = collect(document.events(document.root()).unwrap());

    assert_eq!(
        actual,
        [
            ("enter", root),
            ("enter", paragraph),
            ("leaf", children[0]),
            ("leaf", children[1]),
            ("exit", paragraph),
            ("exit", root),
        ]
    );
}

#[test]
fn structural_events_can_start_at_a_subtree_or_leaf() {
    let mut root = Node::new(NodeValue::Root(Root::new("hello".to_owned())));
    let mut paragraph = Node::new(NodeValue::Paragraph(Paragraph));
    paragraph.children.push(text("hello"));
    root.children.push(paragraph);

    let document = Document::from_legacy("hello".to_owned(), root);
    let paragraph = document.children(document.root()).unwrap()[0];
    let text = document.children(paragraph).unwrap()[0];

    assert!(matches!(
        document.events(paragraph).unwrap().next(),
        Some(StructuralEvent::Enter(node)) if node.id() == paragraph
    ));
    assert_eq!(collect(document.events(text).unwrap()), [("leaf", text)]);
}

#[test]
fn structural_events_reject_a_stale_root() {
    // A handle goes stale once its node is removed; the document root itself
    // can never be removed, so a removed branch stands in for it here.
    let mut root = Node::new(NodeValue::Root(Root::new("text".to_owned())));
    let mut branch = Node::new(NodeValue::Paragraph(Paragraph));
    branch.children.push(text("gone"));
    root.children.push(branch);
    root.children.push(text("text"));
    let mut document = Document::from_legacy(String::new(), root);
    let stale = document.children(document.root()).unwrap()[0];
    let text = document.children(document.root()).unwrap()[1];
    let mut removal = EditBatch::new();
    removal.remove_node(stale);
    removal.commit(&mut document).unwrap();

    match document.events(stale) {
        Err(e) => assert_eq!(e, InvalidNodeId(stale)),
        Ok(_) => panic!("a stale root must be rejected"),
    }
    let mut batch = EditBatch::new();
    batch.replace_text(stale, 0..0, "stale");
    assert_eq!(
        batch.commit(&mut document),
        Err(EditError::InvalidNode(InvalidNodeId(stale)))
    );

    let mut batch = EditBatch::new();
    batch.replace_text(text, 0..1, "T");
    batch.set_attribute(stale, "class", "stale");
    assert_eq!(
        batch.commit(&mut document),
        Err(EditError::InvalidNode(InvalidNodeId(stale)))
    );
    assert_eq!(
        document.node(text).unwrap().cast_text().unwrap().content,
        "text"
    );
}

#[test]
fn document_events_visit_every_node_once() {
    let mut root = Node::new(NodeValue::Root(Root::new("abc".to_owned())));
    for content in ["a", "b"] {
        let mut paragraph = Node::new(NodeValue::Paragraph(Paragraph));
        paragraph.children.push(text(content));
        root.children.push(paragraph);
    }
    root.children.push(text("c"));
    let document = Document::from_legacy("abc".to_owned(), root);
    let visited = collect(document.events(document.root()).unwrap());
    let mut ids: Vec<NodeId> = visited
        .iter()
        .filter(|(kind, _)| *kind != "exit")
        .map(|(_, id)| *id)
        .collect();
    assert_eq!(ids.len(), document.len());
    ids.sort_by_key(|id| (id.slot(), id.generation()));
    ids.dedup();
    assert_eq!(ids.len(), 6);
}
