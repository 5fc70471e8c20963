use markdown_it::link::{parse_link_destination, parse_link_title};

fn dest(s: &str, start: usize) -> Option<(usize, usize, String)> {
    parse_link_destination(s, start, s.len()).map(|r| (r.pos, r.lines, r.str))
}

fn title(s: &str, start: usize) -> Option<(usize, usize, String)> {
    parse_link_title(s, start, s.len()).map(|r| (r.pos, r.lines, r.str))
}

#[test]
fn destinations_in_angle_brackets() {
    assert_eq!(dest("<a b>", 0), Some((5, 0, "a b".to_owned())));
    assert_eq!(dest("<>", 0), Some((2, 0, String::new())));
    assert_eq!(dest("<a\nb>", 0), None);
    assert_eq!(dest("<a<b>", 0), None);
    assert_eq!(dest("<a\\>b>", 0), Some((6, 0, "a>b".to_owned())));
    assert_eq!(dest("<雪>", 0), Some((5, 0, "雪".to_owned())));
    assert_eq!(dest("x <y>", 2), Some((5, 0, "y".to_owned())));
}

#[test]
fn plain_destinations() {
    assert_eq!(dest("/url \"title\"", 0), Some((4, 0, "/url".to_owned())));
    assert_eq!(dest("foo(bar))", 0), Some((8, 0, "foo(bar)".to_owned())));
    assert_eq!(dest("foo(bar", 0), None);
    assert_eq!(dest("/url\\ x", 0), Some((5, 0, "/url\\".to_owned())));
    assert_eq!(dest("a\\)b)", 0), Some((4, 0, "a)b".to_owned())));
    assert_eq!(dest("", 0), Some((0, 0, String::new())));
    let deep = format!("{}{}", "(".repeat(33), ")".repeat(33));
    assert_eq!(dest(&deep, 0), None);
    let ok = format!("{}{}", "(".repeat(32), ")".repeat(32));
    assert_eq!(dest(&ok, 0), Some((64, 0, ok.clone())));
}

#[test]
fn titles() {
    assert_eq!(title("\"title\"", 0), Some((7, 0, "title".to_owned())));
    assert_eq!(title("'a\nb'", 0), Some((5, 1, "a\nb".to_owned())));
    assert_eq!(title("(a)", 0), Some((3, 0, "a".to_owned())));
    assert_eq!(title("(a(b)", 0), None);
    assert_eq!(title("\"a\\\nb\"", 0), Some((6, 1, "a\\\nb".to_owned())));
    assert_eq!(title("\"open", 0), None);
    assert_eq!(title("x", 0), None);
    assert_eq!(title("", 0), None);
    assert_eq!(title("  \"雪\"", 2), Some((7, 0, "雪".to_owned())));
}

#[test]
fn parses_escaped_parentheses_in_destination() {
    let source = r"(foo\)bar)";
    let r = parse_link_destination(source, 1, source.len()).unwrap();
    assert_eq!(r.str, "foo)bar");
    assert_eq!(r.pos, source.len() - 1);

    let source = r"(foo\(bar)";
    let r = parse_link_destination(source, 1, source.len()).unwrap();
    assert_eq!(r.str, "foo(bar");
    assert_eq!(r.pos, source.len() - 1);
}

#[test]
fn escapes_decode_punctuation_only() {
    assert_eq!(dest(r"a\b\\c", 0), Some((6, 0, r"a\b\c".to_owned())));
    assert_eq!(title(r#"'it\'s'"#, 0), Some((7, 0, "it's".to_owned())));
    assert_eq!(dest(r"&amp;", 0), Some((5, 0, "&amp;".to_owned())));
}
