use markdown_it::emph_pair::{
    fragments_join, fragments_join_draft_children, is_odd_match, scan_and_match_delimiters, EmphMarker, PairConfig,
    PairNode,
};
use markdown_it::node::{Node, NodeValue, SourcePos, Text};

fn run(marker: char, length: usize, open: bool, close: bool, start: usize) -> Node {
    let mut n = Node::new(NodeValue::EmphMarker(EmphMarker {
        marker,
        length,
        remaining: length,
        open,
        close,
    }));
    n.srcmap = Some(SourcePos::new(start, start + length * marker.len_utf8()));
    n
}

fn text(content: &str, start: usize) -> Node {
    let mut n = Node::new(NodeValue::Text(Text {
        content: content.to_owned(),
    }));
    n.srcmap = Some(SourcePos::new(start, start + content.len()));
    n
}

fn emphasis() -> PairConfig {
    PairConfig {
        fns: [Some(PairNode::Em), Some(PairNode::Strong), None],
    }
}

fn text_of(n: &Node) -> String {
    match &n.node_value {
        NodeValue::Text(t) => t.content.clone(),
        _ => panic!("not text"),
    }
}

#[test]
fn single_markers_make_emphasis() {
    // `*a*`
    let mut children = vec![run('*', 1, true, false, 0), text("a", 1)];
    let mut bottom = [0usize; 6];
    let r = scan_and_match_delimiters(&mut children, &mut bottom, &emphasis(), run('*', 1, false, true, 2));
    assert!(children.is_empty());
    assert!(matches!(r.node_value, NodeValue::Em(_)));
    assert_eq!(r.srcmap, Some(SourcePos::new(0, 3)));
    assert_eq!(r.children.len(), 1);
    assert_eq!(text_of(&r.children[0]), "a");
}

#[test]
fn double_markers_make_strong_emphasis() {
    // `**a**`
    let mut children = vec![run('*', 2, true, false, 0), text("a", 2)];
    let mut bottom = [0usize; 6];
    let r = scan_and_match_delimiters(&mut children, &mut bottom, &emphasis(), run('*', 2, false, true, 3));
    assert!(children.is_empty());
    assert!(matches!(r.node_value, NodeValue::Strong(_)));
    assert_eq!(r.srcmap, Some(SourcePos::new(0, 5)));
}

#[test]
fn triple_markers_nest_strong_inside_emphasis() {
    // `***a***`
    let mut children = vec![run('*', 3, true, false, 0), text("a", 3)];
    let mut bottom = [0usize; 6];
    let r = scan_and_match_delimiters(&mut children, &mut bottom, &emphasis(), run('*', 3, false, true, 4));
    assert!(children.is_empty());
    assert!(matches!(r.node_value, NodeValue::Em(_)));
    assert_eq!(r.children.len(), 1);
    assert!(matches!(r.children[0].node_value, NodeValue::Strong(_)));
    assert_eq!(text_of(&r.children[0].children[0]), "a");
}

#[test]
fn longer_opener_keeps_its_unmatched_part() {
    // `**a*`
    let mut children = vec![run('*', 2, true, false, 0), text("a", 2)];
    let mut bottom = [0usize; 6];
    let r = scan_and_match_delimiters(&mut children, &mut bottom, &emphasis(), run('*', 1, false, true, 3));
    assert!(matches!(r.node_value, NodeValue::Em(_)));
    assert_eq!(r.srcmap, Some(SourcePos::new(1, 4)));
    assert_eq!(children.len(), 1);
    match &children[0].node_value {
        NodeValue::EmphMarker(m) => assert_eq!(m.remaining, 1),
        _ => panic!("opener should stay"),
    }
    assert_eq!(children[0].srcmap, Some(SourcePos::new(0, 1)));
}

#[test]
fn longer_closer_is_returned_with_its_rest() {
    // `*a**`
    let mut children = vec![run('*', 1, true, false, 0), text("a", 1)];
    let mut bottom = [0usize; 6];
    let r = scan_and_match_delimiters(&mut children, &mut bottom, &emphasis(), run('*', 2, false, true, 2));
    match &r.node_value {
        NodeValue::EmphMarker(m) => assert_eq!((m.remaining, m.length), (1, 2)),
        _ => panic!("closer should be returned"),
    }
    assert_eq!(r.srcmap, Some(SourcePos::new(3, 4)));
    assert_eq!(children.len(), 1);
    assert!(matches!(children[0].node_value, NodeValue::Em(_)));
}

#[test]
fn unmatched_closer_raises_the_lower_bound() {
    let mut children = vec![text("a", 0), text("b", 1)];
    let mut bottom = [0usize; 6];
    let closer = run('*', 1, false, true, 2);
    let r = scan_and_match_delimiters(&mut children, &mut bottom, &emphasis(), closer);
    assert!(matches!(r.node_value, NodeValue::EmphMarker(_)));
    assert_eq!(children.len(), 2);
    assert_eq!(bottom, [0, 1, 0, 0, 0, 0]);
}

#[test]
fn rule_of_three_keeps_runs_apart() {
    // `*a**` where the opener can also close: lengths 1 + 2 are a multiple of 3.
    let mut children = vec![run('*', 1, true, true, 0), text("a", 1)];
    let mut bottom = [0usize; 6];
    let r = scan_and_match_delimiters(&mut children, &mut bottom, &emphasis(), run('*', 2, false, true, 2));
    assert!(matches!(r.node_value, NodeValue::EmphMarker(_)));
    assert_eq!(children.len(), 2);
}

#[test]
fn other_markers_and_non_openers_are_skipped() {
    let mut children = vec![run('_', 1, true, false, 0), run('*', 1, false, true, 1), text("a", 2)];
    let mut bottom = [0usize; 6];
    let r = scan_and_match_delimiters(&mut children, &mut bottom, &emphasis(), run('*', 1, false, true, 3));
    assert!(matches!(r.node_value, NodeValue::EmphMarker(_)));
    assert_eq!(children.len(), 3);
}

#[test]
fn closer_that_cannot_close_is_left_alone() {
    let mut children = vec![run('*', 1, true, false, 0), text("a", 1)];
    let mut bottom = [0usize; 6];
    let r = scan_and_match_delimiters(&mut children, &mut bottom, &emphasis(), run('*', 1, true, false, 2));
    assert!(matches!(r.node_value, NodeValue::EmphMarker(_)));
    assert_eq!(children.len(), 2);
    assert_eq!(bottom, [0; 6]);
}

#[test]
fn unregistered_length_makes_no_pair() {
    // Only `~~` is registered; `~a~` stays as it is.
    let strike = PairConfig {
        fns: [None, Some(PairNode::Strikethrough), None],
    };
    let mut children = vec![run('~', 1, true, false, 0), text("a", 1)];
    let mut bottom = [0usize; 6];
    let r = scan_and_match_delimiters(&mut children, &mut bottom, &strike, run('~', 1, false, true, 2));
    assert!(matches!(r.node_value, NodeValue::EmphMarker(_)));
    assert_eq!(children.len(), 2);

    let mut children = vec![run('~', 2, true, false, 0), text("a", 2)];
    let r = scan_and_match_delimiters(&mut children, &mut [0usize; 6], &strike, run('~', 2, false, true, 3));
    assert!(matches!(r.node_value, NodeValue::Strikethrough(_)));
}

#[test]
fn odd_match_follows_the_rule_of_three() {
    let m = |length: usize, open: bool, close: bool| EmphMarker {
        marker: '*',
        length,
        remaining: length,
        open,
        close,
    };
    assert!(is_odd_match(&m(1, true, true), &m(2, false, true)));
    assert!(!is_odd_match(&m(1, true, false), &m(2, false, true)));
    assert!(!is_odd_match(&m(3, true, true), &m(3, true, true)));
    assert!(!is_odd_match(&m(1, true, true), &m(1, true, true)));
}

fn marker_left(marker: char, remaining: usize, start: usize) -> Node {
    let mut n = Node::new(NodeValue::EmphMarker(EmphMarker {
        marker,
        length: remaining + 1,
        remaining,
        open: true,
        close: true,
    }));
    n.srcmap = Some(SourcePos::new(start, start + remaining));
    n
}

#[test]
fn join_turns_markers_into_text_and_merges_neighbours() {
    let mut parent = Node::new(NodeValue::Paragraph(markdown_it::node::Paragraph));
    parent.children = vec![
        text("a", 0),
        marker_left('*', 2, 1),
        text("b", 3),
        Node::new(NodeValue::Em(markdown_it::node::Em { marker: '_' })),
        marker_left('_', 0, 4),
        text("", 4),
        text("c", 4),
    ];
    fragments_join(&mut parent);
    assert_eq!(parent.children.len(), 3);
    assert_eq!(text_of(&parent.children[0]), "a**b");
    assert_eq!(parent.children[0].srcmap, Some(SourcePos::new(0, 4)));
    assert!(matches!(parent.children[1].node_value, NodeValue::Em(_)));
    assert_eq!(text_of(&parent.children[2]), "c");
    assert_eq!(parent.children[2].srcmap, Some(SourcePos::new(4, 5)));
}

#[test]
fn join_drops_empty_texts_and_keeps_the_first_span_without_maps() {
    let mut first = Node::new(NodeValue::Text(Text { content: "x".to_owned() }));
    first.srcmap = None;
    let mut nodes = vec![first, text("y", 7), text("", 9)];
    fragments_join_draft_children(&mut nodes);
    assert_eq!(nodes.len(), 1);
    assert_eq!(text_of(&nodes[0]), "xy");
    assert_eq!(nodes[0].srcmap, None);

    let mut empty = vec![text("", 0), marker_left('*', 0, 0)];
    fragments_join_draft_children(&mut empty);
    assert!(empty.is_empty());
}
