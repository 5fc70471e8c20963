//! Where the lines of a block source start and end, and where their
//! indentation ends.
use memchr::memchr2_iter;
use vstd::prelude::*;

use crate::utf8text::utf8;

verus! {

/// Holds start/end/etc. positions for a specific source text line.
#[derive(Debug, Clone)]
pub struct LineOffset {
    /// The actual start of the line.
    pub line_start: usize,
    /// The first line break after the line, or the length of the source if
    /// there is none.
    pub line_end: usize,
    /// The byte offset of the first character of the line that is not a
    /// space or a tab.
    pub first_nonspace: usize,
    /// The indent of that character, in columns: a space counts one, a tab
    /// moves to the next multiple of four.
    pub indent_nonspace: i32,
}

/// Whether `c` is a line break byte, `\n` or `\r`.
pub open spec fn is_break(c: u8) -> bool {
    c == 10u8 || c == 13u8
}

/// The first line break at or after `i`, or the end of `b`.
pub open spec fn next_break(b: Seq<u8>, i: int) -> int
    decreases b.len() - i,
{
    if i < 0 || i >= b.len() {
        b.len() as int
    } else if is_break(b[i]) {
        i
    } else {
        next_break(b, i + 1)
    }
}

/// Where the line after the break at `e` starts: `\r\n` is one break.
pub open spec fn after_break(b: Seq<u8>, e: int) -> int {
    if b[e] == 13u8 && e + 1 < b.len() && b[e + 1] == 10u8 {
        e + 2
    } else {
        e + 1
    }
}

/// The lines of `b` from `start` on, as byte ranges without their breaks; a
/// break at the very end starts no further line.
pub open spec fn lines_from(b: Seq<u8>, start: int) -> Seq<(int, int)>
    decreases b.len() - start,
{
    if start < 0 || start >= b.len() {
        Seq::empty()
    } else {
        let e = next_break(b, start);
        proof {
            lemma_next_break_bounds(b, start);
        }
        if e >= b.len() {
            seq![(start, b.len() as int)]
        } else {
            seq![(start, e)] + lines_from(b, after_break(b, e))
        }
    }
}

/// The first break at or after `i` lies between `i` and the end.
pub proof fn lemma_next_break_bounds(b: Seq<u8>, i: int)
    requires
        0 <= i <= b.len(),
    ensures
        i <= next_break(b, i) <= b.len(),
        next_break(b, i) < b.len() ==> is_break(b[next_break(b, i)]),
    decreases b.len() - i,
{
    if i < b.len() && !is_break(b[i]) {
        lemma_next_break_bounds(b, i + 1);
    }
}

/// The lines of `b`; an empty source has one empty line.
pub open spec fn line_spans(b: Seq<u8>) -> Seq<(int, int)> {
    if b.len() == 0 {
        seq![(0, 0)]
    } else {
        lines_from(b, 0)
    }
}

/// The spaces and tabs of `b` from `i` on, before `end`: where the first
/// other byte is, and the indent reached there from `indent`.
pub open spec fn indent_scan(b: Seq<u8>, i: int, end: int, indent: int) -> (int, int)
    decreases end - i,
{
    if i < 0 || i >= end || i >= b.len() {
        (i, indent)
    } else if b[i] == 32u8 {
        indent_scan(b, i + 1, end, indent + 1)
    } else if b[i] == 9u8 {
        indent_scan(b, i + 1, end, indent + 4 - indent % 4)
    } else {
        (i, indent)
    }
}

/// Every line's indent fits in an `i32`.
pub open spec fn indents_fit(b: Seq<u8>) -> bool {
    forall|k: int|
        #![trigger line_spans(b)[k]]
        0 <= k < line_spans(b).len() ==> indent_scan(b, line_spans(b)[k].0, line_spans(b)[k].1, 0).1 <= i32::MAX
}

/// `o` describes the line of `b` from `start` to `end`.
pub open spec fn describes(o: LineOffset, b: Seq<u8>, start: int, end: int) -> bool {
    &&& o.line_start == start
    &&& o.line_end == end
    &&& o.first_nonspace == indent_scan(b, start, end, 0).0
    &&& o.indent_nonspace == indent_scan(b, start, end, 0).1
}

/// `memchr::memchr2_iter`, collected: the positions of every `\n` and `\r`
/// byte of `bytes`, in increasing order.
#[verifier::external_body]
fn break_positions(bytes: &[u8]) -> (r: Vec<usize>)
    ensures
        forall|i: int| 0 <= i < r@.len() ==> #[trigger] r@[i] < bytes@.len() && is_break(bytes@[r@[i] as int]),
        forall|i: int, j: int| 0 <= i < j < r@.len() ==> #[trigger] r@[i] < #[trigger] r@[j],
        forall|k: int| 0 <= k < bytes@.len() && is_break(#[trigger] bytes@[k]) ==> r@.contains(k as usize),
{
    memchr2_iter(b'\n', b'\r', bytes).collect()
}

proof fn lemma_indent_grows(b: Seq<u8>, i: int, end: int, indent: int)
    requires
        indent >= 0,
    ensures
        indent_scan(b, i, end, indent).1 >= indent,
        i <= indent_scan(b, i, end, indent).0,
        i <= end ==> indent_scan(b, i, end, indent).0 <= end,
    decreases end - i,
{
    if 0 <= i < end && i < b.len() && (b[i] == 32u8 || b[i] == 9u8) {
        let next = if b[i] == 32u8 {
            indent + 1
        } else {
            indent + 4 - indent % 4
        };
        lemma_indent_grows(b, i + 1, end, next);
    }
}

/// The line of `bytes` from `start` to `end`.
fn build_line_offset(bytes: &[u8], start: usize, end: usize) -> (r: LineOffset)
    requires
        start <= end <= bytes@.len(),
        indent_scan(bytes@, start as int, end as int, 0).1 <= i32::MAX,
    ensures
        describes(r, bytes@, start as int, end as int),
{
    let ghost b = bytes@;
    let mut first = start;
    let mut indent: i32 = 0;
    proof {
        lemma_indent_grows(b, start as int, end as int, 0);
    }
    while first < end && (bytes[first] == 32u8 || bytes[first] == 9u8)
        invariant
            start <= first <= end <= b.len(),
            b == bytes@,
            0 <= indent,
            indent_scan(b, start as int, end as int, 0) == indent_scan(b, first as int, end as int, indent as int),
            indent_scan(b, start as int, end as int, 0).1 <= i32::MAX,
        decreases end - first,
    {
        let next: i32 = if bytes[first] == 32u8 {
            proof {
                lemma_indent_grows(b, first + 1, end as int, indent + 1);
            }
            indent + 1
        } else {
            proof {
                lemma_indent_grows(b, first + 1, end as int, indent + 4 - indent % 4);
            }
            indent + 4 - indent % 4
        };
        indent = next;
        first = first + 1;
    }
    LineOffset { line_start: start, line_end: end, first_nonspace: first, indent_nonspace: indent }
}

/// `e` is the first break at or after `s` when no break lies between them.
proof fn lemma_next_break(b: Seq<u8>, s: int, e: int)
    requires
        0 <= s <= e <= b.len(),
        e < b.len() ==> is_break(b[e]),
        forall|k: int| s <= k < e ==> !is_break(#[trigger] b[k]),
    ensures
        next_break(b, s) == e,
    decreases e - s,
{
    if s < e {
        lemma_next_break(b, s + 1, e);
    }
}

/// The lines of `src`, each with where its indentation ends.
pub fn build_line_offsets(src: &str) -> (r: Vec<LineOffset>)
    requires
        indents_fit(utf8(src@)),
    ensures
        r@.len() == line_spans(utf8(src@)).len(),
        forall|k: int|
            #![trigger r@[k]]
            0 <= k < r@.len() ==> describes(r@[k], utf8(src@), line_spans(utf8(src@))[k].0, line_spans(utf8(src@))[k].1),
{
    let bytes = src.as_bytes();
    let ghost b = bytes@;
    let ghost spans = line_spans(b);
    let n = bytes.len();
    let positions = break_positions(bytes);
    let mut result: Vec<LineOffset> = Vec::new();
    let mut line_start: usize = 0;
    let mut j: usize = 0;
    proof {
        if n > 0 {
            assert(spans =~= Seq::new(0nat, |k: int| spans[k]) + lines_from(b, 0));
        }
    }
    while j < positions.len()
        invariant
            b == bytes@,
            b == utf8(src@),
            n == b.len(),
            spans == line_spans(b),
            indents_fit(b),
            line_start <= n,
            j <= positions@.len(),
            forall|i: int| 0 <= i < j ==> #[trigger] positions@[i] < line_start,
            forall|i: int| 0 <= i < positions@.len() ==> #[trigger] positions@[i] < n && is_break(b[positions@[i] as int]),
            forall|i: int, k: int| 0 <= i < k < positions@.len() ==> #[trigger] positions@[i] < #[trigger] positions@[k],
            forall|k: int| 0 <= k < n && is_break(#[trigger] b[k]) ==> positions@.contains(k as usize),
            n > 0 ==> spans == Seq::new(result@.len() as nat, |k: int| spans[k]) + lines_from(b, line_start as int),
            n > 0 ==> result@.len() <= spans.len(),
            n == 0 ==> result@.len() == 0,
            forall|k: int|
                #![trigger result@[k]]
                0 <= k < result@.len() ==> describes(result@[k], b, spans[k].0, spans[k].1),
        decreases positions@.len() - j,
    {
        let line_end = positions[j];
        proof {
            assert(line_end < n && is_break(b[line_end as int]));
        }
        if line_end >= line_start {
            proof {
                assert forall|k: int| line_start <= k < line_end implies !is_break(#[trigger] b[k]) by {
                    if is_break(b[k]) {
                        let q = choose|q: int| 0 <= q < positions@.len() && positions@[q] == k as usize;
                        if q < j {
                            assert(positions@[q] < line_start);
                        } else if q > j {
                            assert(positions@[j as int] < positions@[q]);
                        }
                    }
                }
                lemma_next_break(b, line_start as int, line_end as int);
                let m = result@.len() as int;
                let rest = lines_from(b, line_start as int);
                assert(rest[0] == (line_start as int, line_end as int));
                assert(spans[m] == rest[0]);
            }
            let line = build_line_offset(bytes, line_start, line_end);
            let ghost before = result@;
            result.push(line);
            let next = if bytes[line_end] == 13u8 && line_end + 1 < n && bytes[line_end + 1] == 10u8 {
                line_end + 2
            } else {
                line_end + 1
            };
            proof {
                let m = before.len() as int;
                let rest = lines_from(b, line_start as int);
                assert(next == after_break(b, line_end as int));
                assert(rest == seq![(line_start as int, line_end as int)] + lines_from(b, next as int));
                assert(Seq::new(result@.len() as nat, |k: int| spans[k]) =~= Seq::new(before.len() as nat, |k: int| spans[k]).push(spans[m]));
                assert(spans =~= Seq::new(result@.len() as nat, |k: int| spans[k]) + lines_from(b, next as int));
            }
            line_start = next;
        }
        j = j + 1;
    }
    proof {
        assert forall|k: int| line_start <= k < n implies !is_break(#[trigger] b[k]) by {
            if is_break(b[k]) {
                let q = choose|q: int| 0 <= q < positions@.len() && positions@[q] == k as usize;
                assert(positions@[q] < line_start);
            }
        }
        lemma_next_break(b, line_start as int, n as int);
    }
    if line_start < n || result.len() == 0 {
        proof {
            let m = result@.len() as int;
            if n > 0 {
                let rest = lines_from(b, line_start as int);
                assert(rest == seq![(line_start as int, n as int)]);
                assert(spans[m] == (line_start as int, n as int));
            } else {
                assert(spans == seq![(0int, 0int)]);
            }
        }
        let line = build_line_offset(bytes, line_start, n);
        result.push(line);
        proof {
            if n > 0 {
                assert(spans =~= Seq::new(result@.len() as nat, |k: int| spans[k]));
            }
        }
    } else {
        proof {
            assert(lines_from(b, line_start as int) =~= Seq::<(int, int)>::empty());
            assert(spans =~= Seq::new(result@.len() as nat, |k: int| spans[k]));
        }
    }
    result
}

} // verus!
