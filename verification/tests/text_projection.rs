use markdown_it::document::Document;
use markdown_it::document_text::{TextBoundary, TextEvent, TextProjection, TextProjectionRule};
use markdown_it::node::{CustomValue, Node, NodeKind, NodeValue, Paragraph, Root, Text};

fn classify() -> TextProjection {
    TextProjection::new(vec![
        (NodeKind::Text, TextProjectionRule::Writable),
        (NodeKind::Custom, TextProjectionRule::ReadOnly),
        (NodeKind::Paragraph, TextProjectionRule::Boundary(TextBoundary::Space)),
    ])
}

fn document() -> Document {
    let mut root = Node::new(NodeValue::Root(Root::new("a雪<q>".to_owned())));
    let mut paragraph = Node::new(NodeValue::Paragraph(Paragraph));
    paragraph.children.push(Node::new(NodeValue::Text(Text {
        content: "a雪".to_owned(),
    })));
    paragraph.children.push(Node::new(NodeValue::Custom(CustomValue {
        name: "ReadOnlyText".to_owned(),
        data: "<q>".to_owned(),
    })));
    root.children.push(paragraph);
    Document::from_legacy("a雪<q>".to_owned(), root)
}

fn all(document: &Document, projection: TextProjection) -> Vec<TextEvent> {
    let mut events = document.text_events(projection);
    let mut out = Vec::new();
    while let Some(event) = events.next() {
        out.push(event);
    }
    out
}

#[test]
fn projection_uses_node_ids_and_utf8_byte_offsets() {
    let document = document();
    let paragraph = document.children(document.root()).unwrap()[0];
    let text = document.children(paragraph).unwrap()[0];
    let chars: Vec<_> = all(&document, classify())
        .into_iter()
        .filter_map(|event| match event {
            TextEvent::Char {
                node,
                byte_offset,
                ch,
                writable,
                ..
            } => Some((node, byte_offset, ch, writable)),
            _ => None,
        })
        .collect();

    assert_eq!(chars[0], (text, 0, 'a', true));
    assert_eq!(chars[1], (text, 1, '雪', true));
    assert_eq!(chars[2].1, 0);
    assert_eq!(chars[2].2, '<');
    assert!(!chars[2].3);
}

#[test]
fn projection_order_depth_and_boundaries_are_stable() {
    let document = document();
    let root = document.root();
    let paragraph = document.children(root).unwrap()[0];
    let children = document.children(paragraph).unwrap();
    let events = all(&document, classify());

    assert_eq!(
        events[0],
        TextEvent::Enter {
            node: root,
            nesting_level: 0
        }
    );
    assert_eq!(
        events[1],
        TextEvent::Enter {
            node: paragraph,
            nesting_level: 1,
        }
    );
    assert_eq!(events[2], TextEvent::Boundary(TextBoundary::Space));
    assert!(matches!(
        events[3],
        TextEvent::Enter { node, nesting_level: 2 } if node == children[0]
    ));
    assert_eq!(
        events.last(),
        Some(&TextEvent::Exit {
            node: root,
            nesting_level: 0,
        })
    );
}

#[test]
fn subtree_projection_uses_the_subtree_as_depth_zero() {
    let document = document();
    let paragraph = document.children(document.root()).unwrap()[0];
    let mut events = document.text_events_from(paragraph, classify()).unwrap();

    assert_eq!(
        events.next(),
        Some(TextEvent::Enter {
            node: paragraph,
            nesting_level: 0,
        })
    );
}

#[test]
fn projection_is_fused_after_the_last_exit() {
    let document = document();
    let mut events = document.text_events(classify());
    let mut count = 0;
    while events.next().is_some() {
        count += 1;
    }
    // Enter and Exit for four nodes, the boundary and five characters.
    assert_eq!(count, 8 + 1 + 5);
    assert_eq!(events.next(), None);
    assert_eq!(events.next(), None);
}

#[test]
fn rules_pick_the_first_matching_kind() {
    let projection = TextProjection::new(vec![
        (NodeKind::Text, TextProjectionRule::ReadOnly),
        (NodeKind::Text, TextProjectionRule::Writable),
    ]);
    assert_eq!(projection.rule(NodeKind::Text), TextProjectionRule::ReadOnly);
    assert_eq!(projection.rule(NodeKind::Paragraph), TextProjectionRule::Transparent);
}

#[test]
fn projection_is_lazy_and_fused() {
    let document = document();
    let mut events = document.text_events(classify());
    assert!(matches!(events.next(), Some(TextEvent::Enter { .. })));
    assert!(matches!(events.next(), Some(TextEvent::Enter { .. })));
    while events.next().is_some() {}
    assert_eq!(events.next(), None);
    assert_eq!(events.next(), None);
}

#[test]
fn projection_is_lazy_and_uses_byte_offsets() {
    let mut root = Node::new(NodeValue::Root(Root::new("a雪".to_owned())));
    root.children.push(Node::new(NodeValue::Text(Text { content: "a雪".to_owned() })));
    let document = Document::from_legacy("a雪".to_owned(), root);
    let events = all(&document, TextProjection::new(vec![(NodeKind::Text, TextProjectionRule::Writable)]));
    assert!(events.iter().any(|event| matches!(
        event,
        TextEvent::Char { byte_offset: 1, ch: '雪', writable: true, .. }
    )));
}
