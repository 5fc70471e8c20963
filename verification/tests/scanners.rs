use markdown_it::node::NodeValue;
use markdown_it::probe::{InlineProbeKind, InlineProbeResult};
use markdown_it::scanners::{EscapeMatch, EscapeScanner, HeadingScanner, NewlineScanner, TaskListScanner};

fn scan_escape(s: &str) -> Option<EscapeMatch> {
    EscapeScanner::scan(s)
}

#[test]
fn scan_escape_reports_lengths_without_building_nodes() {
    assert!(matches!(
        scan_escape("\\\n \t"),
        Some(EscapeMatch::Hardbreak { len: 4 })
    ));
    assert!(matches!(
        scan_escape("\\\n"),
        Some(EscapeMatch::Hardbreak { len: 2 })
    ));
    assert!(scan_escape("\\ ").is_none());
    assert!(scan_escape("\\").is_none());
    assert!(scan_escape("x").is_none());
    assert!(matches!(
        scan_escape("\\*"),
        Some(EscapeMatch::Character { ch: '*' })
    ));
    assert_eq!(scan_escape("\\*").unwrap().len(), 2);

    // A non-ASCII character keeps its full UTF-8 width.
    assert!(matches!(
        scan_escape("\\雪"),
        Some(EscapeMatch::Character { ch: '雪' })
    ));
    assert_eq!(scan_escape("\\雪").unwrap().len(), 4);
}

#[test]
fn escape_probe_and_nodes() {
    assert_eq!(
        EscapeScanner::probe("\\*rest"),
        InlineProbeResult::Match { len: 2, kind: InlineProbeKind::Token }
    );
    assert_eq!(EscapeScanner::probe("\\ "), InlineProbeResult::NoMatch);
    match EscapeScanner::run("\\*") {
        Some((NodeValue::TextSpecial(t), 2)) => {
            assert_eq!(t.content, "*");
            assert_eq!(t.markup, "\\*");
            assert_eq!(t.info, "escape");
        }
        other => panic!("unexpected {other:?}"),
    }
    match EscapeScanner::run("\\a") {
        Some((NodeValue::TextSpecial(t), 2)) => assert_eq!(t.content, "\\a"),
        other => panic!("unexpected {other:?}"),
    }
    assert!(matches!(EscapeScanner::run("\\\n  x"), Some((NodeValue::Hardbreak(_), 4))));
}

#[test]
fn newline_breaks_are_hard_after_two_spaces() {
    assert_eq!(NewlineScanner::scan("\n  next", "text  "), Some((true, 2, 5)));
    assert_eq!(NewlineScanner::scan("\nnext", "text "), Some((false, 1, 2)));
    assert_eq!(NewlineScanner::scan("\n", ""), Some((false, 0, 1)));
    assert_eq!(NewlineScanner::scan("x\n", ""), None);
}

#[test]
fn atx_heading_lines() {
    assert_eq!(HeadingScanner::scan("# foo"), Some((1, 1, 5)));
    assert_eq!(HeadingScanner::scan("## foo ##"), Some((2, 2, 7)));
    assert_eq!(HeadingScanner::scan("## foo##"), Some((2, 2, 8)));
    assert_eq!(HeadingScanner::scan("###"), Some((3, 3, 3)));
    assert_eq!(HeadingScanner::scan("## ##"), Some((2, 2, 2)));
    assert_eq!(HeadingScanner::scan("####### seven"), None);
    assert_eq!(HeadingScanner::scan("#hashtag"), None);
    assert_eq!(HeadingScanner::scan("# 雪 #"), Some((1, 1, 6)));
}

#[test]
fn task_list_markers() {
    assert_eq!(TaskListScanner::marker_len("[ ] todo"), Some((false, 4)));
    assert_eq!(TaskListScanner::marker_len("[x]"), Some((true, 3)));
    assert_eq!(TaskListScanner::marker_len("[X]\tdone"), Some((true, 4)));
    assert_eq!(TaskListScanner::marker_len("[x]done"), None);
    assert_eq!(TaskListScanner::marker_len("[y] no"), None);
    assert_eq!(TaskListScanner::marker_len("[x"), None);
}
