use markdown_it::directive_attrs::{is_whitespace, parse_attrs};

fn pairs(v: &[(&str, &str)]) -> Vec<(String, String)> {
    v.iter().map(|(a, b)| (a.to_string(), b.to_string())).collect()
}

#[test]
fn no_block_is_an_empty_one() {
    assert_eq!(parse_attrs("no brace"), Some((Vec::new(), 0)));
    assert_eq!(parse_attrs(""), Some((Vec::new(), 0)));
}

#[test]
fn shorthand_keys_values_and_quotes() {
    let src = "{#foo .bar.baz key=val k2=\"a b\" k3='x\\'y' flag}rest";
    let end = src.find('}').unwrap() + 1;
    assert_eq!(
        parse_attrs(src),
        Some((
            pairs(&[
                ("id", "foo"),
                ("class", "bar"),
                ("class", "baz"),
                ("key", "val"),
                ("k2", "a b"),
                ("k3", "x'y"),
                ("flag", ""),
            ]),
            end
        ))
    );
}

#[test]
fn unclosed_blocks_fail() {
    assert_eq!(parse_attrs("{unclosed"), None);
    assert_eq!(parse_attrs("{a=}"), None);
    assert_eq!(parse_attrs("{k=\"open}"), None);
}

#[test]
fn byte_length_counts_multibyte_characters() {
    assert_eq!(parse_attrs("{#雪}"), Some((pairs(&[("id", "雪")]), 6)));
    assert_eq!(parse_attrs("{\u{3000}a}"), Some((pairs(&[("a", "")]), 6)));
}

#[test]
fn white_space_matches_std() {
    for c in ['\t', '\n', '\u{b}', '\u{c}', '\r', ' ', '\u{85}', '\u{a0}', '\u{1680}', '\u{2000}', '\u{200a}', '\u{2028}', '\u{2029}', '\u{202f}', '\u{205f}', '\u{3000}', 'a', '\u{200b}', '\u{feff}', '雪'] {
        assert_eq!(is_whitespace(c), c.is_whitespace(), "{c:?}");
    }
}
