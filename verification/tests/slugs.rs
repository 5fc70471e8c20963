use markdown_it::heading_anchors::{
    is_heading, EmptySlugPolicy, ExistingIdPolicy, HeadingAnchorsDocumentTransform, HeadingAnchorsOptions,
    SlugStrategy,
};
use markdown_it::document::Document;
use markdown_it::node::{ATXHeading, Node, NodeValue, Root, Text};
use markdown_it::slug::{github_slugify_fn, simple_slugify_fn, unique_slug};

#[test]
fn test_simple_slugify() {
    assert_eq!(simple_slugify_fn("Hello World!"), "hello-world");
    assert_eq!(simple_slugify_fn("Multiple   Spaces"), "multiple-spaces");
    assert_eq!(simple_slugify_fn("Äpfel"), "äpfel");
    assert_eq!(
        simple_slugify_fn("  leading and trailing  "),
        "leading-and-trailing"
    );
    assert_eq!(simple_slugify_fn("!!special--chars??"), "special-chars");
    assert_eq!(simple_slugify_fn("你好 world！"), "你好-world");
}

#[test]
fn test_github_slugify() {
    assert_eq!(github_slugify_fn("Hello,  World!"), "hello--world");
    assert_eq!(
        github_slugify_fn("under_score-and-hyphen"),
        "under_score-and-hyphen"
    );
    assert_eq!(github_slugify_fn("你好，world 💃"), "你好world-");
    assert_eq!(github_slugify_fn("a\tb\u{a0}c"), "abc");
    assert_eq!(github_slugify_fn("a‿b ²"), "a‿b-");
}

#[test]
fn unique_slug_counts_suffixes_past_collisions() {
    let mut used = Vec::new();
    let mut next = Vec::new();
    let mut take = |slug: &str| unique_slug(slug.to_owned(), &mut used, &mut next);
    assert_eq!(take("test"), "test");
    assert_eq!(take("test"), "test-1");
    assert_eq!(take("test"), "test-2");
    assert_eq!(take("test-1"), "test-1-1");
    assert_eq!(take("test-2"), "test-2-1");
    assert_eq!(take("test-1-1"), "test-1-1-1");
    assert_eq!(take("test"), "test-3");
}

#[test]
fn unique_slug_skips_reserved_ids() {
    let mut used = vec!["generated".to_owned()];
    let mut next = Vec::new();
    assert_eq!(unique_slug("generated".to_owned(), &mut used, &mut next), "generated-1");
    assert_eq!(used, vec!["generated".to_owned(), "generated-1".to_owned()]);
}

#[test]
fn slug_strategies_and_default_options() {
    assert_eq!(SlugStrategy::Simple.slugify("A b!"), "a-b");
    assert_eq!(SlugStrategy::GitHub.slugify("A b!"), "a-b");
    let options = HeadingAnchorsOptions::default();
    assert_eq!(options.strategy, SlugStrategy::Simple);
    assert_eq!(options.existing_id, ExistingIdPolicy::Keep);
    assert!(matches!(options.empty_slug, EmptySlugPolicy::Skip));
    assert!(options.prefix.is_none());
    let transform = HeadingAnchorsDocumentTransform::new(HeadingAnchorsOptions {
        prefix: Some("doc-".to_owned()),
        ..HeadingAnchorsOptions::default()
    });
    assert_eq!(transform.options().prefix.as_deref(), Some("doc-"));
    let _ = is_heading;
}

fn heading(text: &str) -> Node {
    let mut h = Node::new(NodeValue::ATXHeading(ATXHeading { level: 1 }));
    h.children.push(Node::new(NodeValue::Text(Text { content: text.to_owned() })));
    h
}

#[test]
fn document_transform_gives_headings_unique_ids() {
    let mut root = Node::new(NodeValue::Root(Root::new(String::new())));
    root.children.push(heading("Test"));
    root.children.push(heading("Test"));
    root.children.push(heading("!!!"));
    let mut existing = heading("Existing");
    existing.attrs.push(("id".to_owned(), "test-2".to_owned()));
    root.children.push(existing);
    let mut document = Document::from_legacy(String::new(), root);
    let transform = HeadingAnchorsDocumentTransform::new(HeadingAnchorsOptions::default());
    let batch = transform.run(&document);
    batch.commit(&mut document).unwrap();
    let tree = document.into_legacy();
    let ids: Vec<Vec<(String, String)>> = tree.children.iter().map(|c| c.attrs.clone()).collect();
    assert_eq!(ids[0], vec![("id".to_owned(), "test".to_owned())]);
    assert_eq!(ids[1], vec![("id".to_owned(), "test-1".to_owned())]);
    assert_eq!(ids[2], Vec::<(String, String)>::new());
    assert_eq!(ids[3], vec![("id".to_owned(), "test-2".to_owned())]);
}

#[test]
fn document_transform_overrides_with_prefix_and_fallback() {
    let mut root = Node::new(NodeValue::Root(Root::new(String::new())));
    root.children.push(heading("!!!"));
    let mut existing = heading("???");
    existing.attrs.push(("id".to_owned(), "old".to_owned()));
    root.children.push(existing);
    let mut document = Document::from_legacy(String::new(), root);
    let transform = HeadingAnchorsDocumentTransform::new(HeadingAnchorsOptions {
        strategy: SlugStrategy::GitHub,
        existing_id: ExistingIdPolicy::Override,
        empty_slug: EmptySlugPolicy::Use("section".to_owned()),
        prefix: Some("doc-".to_owned()),
    });
    transform.run(&document).commit(&mut document).unwrap();
    let tree = document.into_legacy();
    assert_eq!(tree.children[0].attrs, vec![("id".to_owned(), "doc-section".to_owned())]);
    assert_eq!(tree.children[1].attrs, vec![("id".to_owned(), "doc-section-1".to_owned())]);
}
