use markdown_it::line_offsets::{build_line_offsets, LineOffset};

fn compact(offsets: &[LineOffset]) -> Vec<(usize, usize, usize, i32)> {
    offsets
        .iter()
        .map(|line| {
            (
                line.line_start,
                line.line_end,
                line.first_nonspace,
                line.indent_nonspace,
            )
        })
        .collect()
}

#[test]
fn empty_input_has_one_empty_line() {
    assert_eq!(compact(&build_line_offsets("")), vec![(0, 0, 0, 0)]);
}

#[test]
fn supports_lf_crlf_and_cr_line_endings() {
    assert_eq!(
        compact(&build_line_offsets("a\nb")),
        vec![(0, 1, 0, 0), (2, 3, 2, 0)]
    );
    assert_eq!(
        compact(&build_line_offsets("a\r\nb")),
        vec![(0, 1, 0, 0), (3, 4, 3, 0)]
    );
    assert_eq!(
        compact(&build_line_offsets("a\rb")),
        vec![(0, 1, 0, 0), (2, 3, 2, 0)]
    );
}

#[test]
fn final_line_break_does_not_add_an_empty_line() {
    assert_eq!(compact(&build_line_offsets("a\n")), vec![(0, 1, 0, 0)]);
    assert_eq!(
        compact(&build_line_offsets("\n\n")),
        vec![(0, 0, 0, 0), (1, 1, 1, 0)]
    );
}

#[test]
fn expands_only_leading_spaces_and_tabs() {
    assert_eq!(
        compact(&build_line_offsets(" \t foo\n\t \tbar")),
        vec![(0, 6, 3, 5), (7, 13, 10, 8)]
    );
}

#[test]
fn offsets_remain_on_utf8_boundaries() {
    assert_eq!(
        compact(&build_line_offsets("中\n é")),
        vec![(0, 3, 0, 0), (4, 7, 5, 1)]
    );
}

#[test]
fn handles_deep_indentation() {
    let src = "                \titem";
    assert_eq!(
        compact(&build_line_offsets(src)),
        vec![(0, src.len(), 17, 20)]
    );
}
