use markdown_it::code_pair::{scan_code_pair, scan_code_pair_bounds, CodePairCache};

#[test]
fn bounds_scan_unicode_markers_without_building_content() {
    let source = "雪 content 雪";
    let mut scratch = CodePairCache::new();
    let matched = scan_code_pair_bounds('雪', source, 0, source.len(), false, &mut scratch).unwrap();

    assert_eq!(matched.marker_len, 1);
    assert_eq!(matched.consumed, source.len());
    assert_eq!(matched.content_start, '雪'.len_utf8());
    assert_eq!(matched.content_end, source.len() - '雪'.len_utf8());
}

#[test]
fn bounds_reject_continuation_and_unclosed_runs() {
    let mut scratch = CodePairCache::new();
    assert!(scan_code_pair_bounds('雪', "x雪", 0, "x雪".len(), false, &mut scratch).is_none());

    let source = "`x``";
    let mut scratch = CodePairCache::new();
    assert!(scan_code_pair_bounds('`', source, 0, source.len(), false, &mut scratch).is_none());
    // The unclosed two-marker closer was cached; the marker run at its
    // start must not be reused as a shorter opener.
    assert!(scan_code_pair_bounds('`', source, 2, source.len(), false, &mut scratch).is_none());
    // A following marker run is rejected outright.
    assert!(scan_code_pair_bounds('`', source, 3, source.len(), true, &mut scratch).is_none());
}

#[test]
fn adapter_keeps_trimmed_source_map_boundaries() {
    let source = "` hi `";
    let mut scratch = CodePairCache::new();
    let matched = scan_code_pair('`', source, 0, source.len(), false, &mut scratch).unwrap();

    assert_eq!(matched.content, "hi");
    assert_eq!(matched.content_start, 2);
    assert_eq!(matched.content_end, 4);
    assert_eq!(matched.consumed, source.len());
}

#[test]
fn adapter_replaces_newlines_in_content() {
    let source = "`a\nb`";
    let mut scratch = CodePairCache::new();
    let matched = scan_code_pair('`', source, 0, source.len(), false, &mut scratch).unwrap();

    assert_eq!(matched.content, "a b");
    assert_eq!(matched.content_start, 1);
    assert_eq!(matched.content_end, 4);
}

#[test]
fn shorter_and_longer_runs_do_not_close() {
    let source = "``a`b```c``d";
    let mut cache = CodePairCache::new();
    let matched = scan_code_pair('`', source, 0, source.len(), false, &mut cache).unwrap();
    assert_eq!(matched.marker_len, 2);
    assert_eq!(matched.content, "a`b```c");
    assert_eq!(matched.consumed, 11);
    assert!(!cache.scanned);
    assert_eq!(cache.max, vec![0, 3, 0, 5]);
}

#[test]
fn failed_scan_marks_the_cache() {
    let source = "`a``b";
    let mut cache = CodePairCache::new();
    assert!(scan_code_pair('`', source, 0, source.len(), false, &mut cache).is_none());
    assert!(cache.scanned);
    assert_eq!(cache.max, vec![0, 0, 2]);
    // The two-marker run at byte 2 was recorded as unclosed: it is not tried again.
    assert!(scan_code_pair('`', source, 2, source.len(), false, &mut cache).is_none());
}

#[test]
fn only_spaces_are_kept_whole() {
    let source = "`  `";
    let mut cache = CodePairCache::new();
    let matched = scan_code_pair('`', source, 0, source.len(), false, &mut cache).unwrap();
    assert_eq!(matched.content, "  ");
    assert_eq!((matched.content_start, matched.content_end), (1, 3));

    let source = "` a`";
    let matched = scan_code_pair('`', source, 0, source.len(), false, &mut CodePairCache::new()).unwrap();
    assert_eq!(matched.content, " a");
}

#[test]
fn text_not_starting_with_the_marker_has_no_span() {
    let mut cache = CodePairCache::new();
    assert!(scan_code_pair('`', "a`b`", 0, 4, false, &mut cache).is_none());
    assert!(!cache.scanned);
    assert!(cache.max.is_empty());
}
