use markdown_it::html_attrs::html_attr_pairs;

fn pairs(v: &[(&str, &str)]) -> Vec<(String, String)> {
    v.iter().map(|(k, x)| (k.to_string(), x.to_string())).collect()
}

#[test]
fn classes_and_styles_are_joined_at_their_first_place() {
    let attrs = pairs(&[
        ("class", "a"),
        ("id", "x"),
        ("class", "b"),
        ("style", "c:d"),
        ("data", "1"),
        ("style", "e:f"),
        ("data", "2"),
    ]);
    assert_eq!(
        html_attr_pairs(&attrs),
        pairs(&[("class", "a b"), ("id", "x"), ("style", "c:d;e:f"), ("data", "1"), ("data", "2")])
    );
}

#[test]
fn single_and_no_attributes() {
    assert_eq!(html_attr_pairs(&Vec::new()), Vec::new());
    assert_eq!(html_attr_pairs(&pairs(&[("class", "only")])), pairs(&[("class", "only")]));
    assert_eq!(html_attr_pairs(&pairs(&[("Class", "a"), ("Class", "b")])), pairs(&[("Class", "a"), ("Class", "b")]));
}
