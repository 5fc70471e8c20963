use markdown_it::directives::{parse_name, ContainerDirectiveScanner};

fn pairs(v: &[(&str, &str)]) -> Vec<(String, String)> {
    v.iter().map(|(k, x)| (k.to_string(), x.to_string())).collect()
}

#[test]
fn opening_line_with_name_and_attributes() {
    assert_eq!(
        ContainerDirectiveScanner::scan_line(":::name{cia=\"llo\"}"),
        Some((3, "name".to_owned(), pairs(&[("cia", "llo")])))
    );
    assert_eq!(
        ContainerDirectiveScanner::scan_line("::::child  "),
        Some((4, "child".to_owned(), Vec::new()))
    );
    assert_eq!(
        ContainerDirectiveScanner::scan_line(":::  note {#x .y}\t"),
        Some((3, "note".to_owned(), pairs(&[("id", "x"), ("class", "y")])))
    );
}

#[test]
fn opening_line_rejects_short_markers_missing_names_and_trailing_text() {
    assert_eq!(ContainerDirectiveScanner::scan_line("::name"), None);
    assert_eq!(ContainerDirectiveScanner::scan_line(":::"), None);
    assert_eq!(ContainerDirectiveScanner::scan_line(":::1abc"), None);
    assert_eq!(ContainerDirectiveScanner::scan_line(":::bad trailing"), None);
    assert_eq!(ContainerDirectiveScanner::scan_line(":::name{open"), None);
}

#[test]
fn closing_line_needs_enough_colons_and_nothing_else() {
    assert!(ContainerDirectiveScanner::is_close(":::", 3));
    assert!(ContainerDirectiveScanner::is_close("::::  ", 3));
    assert!(!ContainerDirectiveScanner::is_close("::", 3));
    assert!(!ContainerDirectiveScanner::is_close(":::x", 3));
    assert!(!ContainerDirectiveScanner::is_close("  :::", 3));
}

#[test]
fn names_take_letters_digits_dashes_and_underscores() {
    assert_eq!(parse_name("my-name_2 rest"), Some(("my-name_2".to_owned(), 9)));
    assert_eq!(parse_name("a"), Some(("a".to_owned(), 1)));
    assert_eq!(parse_name("-a"), None);
    assert_eq!(parse_name(""), None);
    assert_eq!(parse_name("ab雪"), Some(("ab".to_owned(), 2)));
}
