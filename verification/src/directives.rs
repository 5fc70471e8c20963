//! Lines of container directives: `:::name {attrs}` opens one and a line of
//! at least as many colons closes it.
use vstd::prelude::*;

use crate::directive_attrs::{attr_block, attrs_in, attrs_view, is_white_space, is_whitespace, Attrs};
use crate::link::string_of;
use crate::utf8text::{byte_len, chars_of, lemma_chars_le_bytes, lemma_utf8_concat, utf8};
use crate::scanners::prefix_bytes;

verus! {

/// Whether `c` is an ASCII letter.
pub open spec fn ascii_alpha(c: char) -> bool {
    ('a' <= c <= 'z') || ('A' <= c <= 'Z')
}

/// Whether `c` may stand at position `i` of a directive name: a letter
/// first, then letters, digits, `-` and `_`.
pub open spec fn name_char(i: int, c: char) -> bool {
    if i == 0 {
        ascii_alpha(c)
    } else {
        ascii_alpha(c) || ('0' <= c <= '9') || c == '-' || c == '_'
    }
}

/// Where the name that starts at `from` ends, scanning from `i`, at most at
/// `to`.
pub open spec fn name_scan(t: Seq<char>, from: int, to: int, i: int) -> int
    decreases to - i,
{
    if from <= i < to && i < t.len() && name_char(i - from, t[i]) {
        name_scan(t, from, to, i + 1)
    } else {
        i
    }
}

/// The first index at or after `i`, before `to`, that is not white space.
pub open spec fn ws_end(t: Seq<char>, i: int, to: int) -> int
    decreases to - i,
{
    if 0 <= i < to && i < t.len() && is_white_space(t[i]) {
        ws_end(t, i + 1, to)
    } else {
        i
    }
}

/// The length of `t[..k]` without its trailing white space.
pub open spec fn trimmed_len(t: Seq<char>, k: int) -> int
    decreases k,
{
    if 0 < k <= t.len() && is_white_space(t[k - 1]) {
        trimmed_len(t, k - 1)
    } else {
        k
    }
}

/// The index after the run of `:` that starts at `i`, at most `to`.
pub open spec fn colon_end(t: Seq<char>, i: int, to: int) -> int
    decreases to - i,
{
    if 0 <= i < to && i < t.len() && t[i] == ':' {
        colon_end(t, i + 1, to)
    } else {
        i
    }
}

/// The line `t` opening a container directive: the number of colons, the
/// name and the attributes. The line, without trailing white space, is at
/// least three colons, optional white space, a name, optional white space,
/// an optional attribute block, and nothing else but white space.
pub open spec fn directive_line(t: Seq<char>) -> Option<(int, Seq<char>, Seq<(Seq<char>, Seq<char>)>)> {
    let e = trimmed_len(t, t.len() as int);
    let m = colon_end(t, 0, e);
    let p1 = ws_end(t, m, e);
    let q = name_scan(t, p1, e, p1);
    let p2 = ws_end(t, q, e);
    if m < 3 || q == p1 {
        None
    } else {
        match attr_block(t.subrange(p2, e)) {
            None => None,
            Some((a, k)) => if ws_end(t, p2 + k, e) == e {
                Some((m, t.subrange(p1, q), a))
            } else {
                None
            },
        }
    }
}

/// Whether the line `t` closes a directive opened with `marker_len` colons:
/// without trailing white space it is at least that many colons and then
/// only white space.
pub open spec fn closes(t: Seq<char>, marker_len: int) -> bool {
    let e = trimmed_len(t, t.len() as int);
    let m = colon_end(t, 0, e);
    m >= marker_len && ws_end(t, m, e) == e
}

proof fn lemma_scans(t: Seq<char>, from: int, i: int, to: int)
    requires
        0 <= from <= i <= to <= t.len(),
    ensures
        i <= name_scan(t, from, to, i) <= to,
        i <= ws_end(t, i, to) <= to,
        i <= colon_end(t, i, to) <= to,
    decreases to - i,
{
    if i < to {
        lemma_scans(t, from, i + 1, to);
    }
}

proof fn lemma_trimmed(t: Seq<char>, k: int)
    requires
        0 <= k <= t.len(),
    ensures
        0 <= trimmed_len(t, k) <= k,
    decreases k,
{
    if k > 0 {
        lemma_trimmed(t, k - 1);
    }
}

/// The length of `cs` without its trailing white space.
fn trimmed(cs: &Vec<char>) -> (r: usize)
    ensures
        r == trimmed_len(cs@, cs@.len() as int),
{
    let mut k = cs.len();
    while k > 0 && is_whitespace(cs[k - 1])
        invariant
            k <= cs@.len(),
            trimmed_len(cs@, cs@.len() as int) == trimmed_len(cs@, k as int),
        decreases k,
    {
        k = k - 1;
    }
    k
}

/// The first index from `i` before `to` that is not white space.
fn skip_ws(cs: &Vec<char>, i: usize, to: usize) -> (r: usize)
    requires
        i <= to <= cs@.len(),
    ensures
        r == ws_end(cs@, i as int, to as int),
{
    let mut j = i;
    while j < to && is_whitespace(cs[j])
        invariant
            i <= j <= to <= cs@.len(),
            ws_end(cs@, i as int, to as int) == ws_end(cs@, j as int, to as int),
        decreases to - j,
    {
        j = j + 1;
    }
    j
}

/// The index after the run of `:` from `i`, before `to`.
fn skip_colons(cs: &Vec<char>, i: usize, to: usize) -> (r: usize)
    requires
        i <= to <= cs@.len(),
    ensures
        r == colon_end(cs@, i as int, to as int),
{
    let mut j = i;
    while j < to && cs[j] == ':'
        invariant
            i <= j <= to <= cs@.len(),
            colon_end(cs@, i as int, to as int) == colon_end(cs@, j as int, to as int),
        decreases to - j,
    {
        j = j + 1;
    }
    j
}

/// Whether `c` may stand in a directive name, first or later.
fn name_char_at(c: char, first: bool) -> (r: bool)
    ensures
        r == name_char(if first {
            0
        } else {
            1
        }, c),
{
    let alpha = ('a' <= c && c <= 'z') || ('A' <= c && c <= 'Z');
    if first {
        alpha
    } else {
        alpha || ('0' <= c && c <= '9') || c == '-' || c == '_'
    }
}

/// Where the name starting at `from` ends, before `to`.
fn scan_name(cs: &Vec<char>, from: usize, to: usize) -> (r: usize)
    requires
        from <= to <= cs@.len(),
    ensures
        r == name_scan(cs@, from as int, to as int, from as int),
{
    let mut j = from;
    while j < to && name_char_at(cs[j], j == from)
        invariant
            from <= j <= to <= cs@.len(),
            name_scan(cs@, from as int, to as int, from as int) == name_scan(cs@, from as int, to as int, j as int),
        decreases to - j,
    {
        j = j + 1;
    }
    j
}

/// Parse the directive name at the start of `src`: the name and its length
/// in bytes.
pub fn parse_name(src: &str) -> (r: Option<(String, usize)>)
    ensures
        ({
            let k = name_scan(src@, 0, src@.len() as int, 0);
            if k == 0 {
                r is None
            } else {
                r matches Some((name, len)) && name@ == src@.take(k) && len == utf8(src@.take(k)).len()
            }
        }),
{
    let cs = chars_of(src);
    let _ = byte_len(src);
    proof {
        lemma_chars_le_bytes(src@);
    }
    let k = scan_name(&cs, 0, cs.len());
    if k == 0 {
        return None;
    }
    proof {
        lemma_scans(cs@, 0, 0, cs@.len() as int);
        assert(src@ =~= src@.take(k as int) + src@.skip(k as int));
        lemma_utf8_concat(src@.take(k as int), src@.skip(k as int));
        assert(cs@.subrange(0, k as int) =~= src@.take(k as int));
    }
    let name = string_of(&cs, 0, k);
    let len = prefix_bytes(&cs, k);
    Some((name, len))
}

/// The characters `cs[from..to]`.
fn chars_between(cs: &Vec<char>, from: usize, to: usize) -> (r: Vec<char>)
    requires
        from <= to <= cs@.len(),
    ensures
        r@ == cs@.subrange(from as int, to as int),
{
    let mut out: Vec<char> = Vec::new();
    let mut i = from;
    while i < to
        invariant
            from <= i <= to <= cs@.len(),
            out@ == cs@.subrange(from as int, i as int),
        decreases to - i,
    {
        out.push(cs[i]);
        proof {
            assert(out@ =~= cs@.subrange(from as int, i + 1));
        }
        i = i + 1;
    }
    out
}

/// The scanner of container directives.
pub struct ContainerDirectiveScanner;

impl ContainerDirectiveScanner {
    /// Read a line that opens a container directive: the number of colons,
    /// the name and the attributes.
    pub fn scan_line(line: &str) -> (r: Option<(usize, String, Attrs)>)
        ensures
            match directive_line(line@) {
                None => r is None,
                Some((m, name, a)) => r matches Some((len, s, attrs)) && len == m && s@ == name && attrs_view(attrs@)
                    == a,
            },
    {
        let cs = chars_of(line);
        let ghost t = cs@;
        let e = trimmed(&cs);
        proof {
            lemma_trimmed(t, t.len() as int);
        }
        let m = skip_colons(&cs, 0, e);
        proof {
            lemma_scans(t, 0, 0, e as int);
        }
        if m < 3 {
            return None;
        }
        let p1 = skip_ws(&cs, m, e);
        proof {
            lemma_scans(t, 0, m as int, e as int);
        }
        let q = scan_name(&cs, p1, e);
        proof {
            lemma_scans(t, p1 as int, p1 as int, e as int);
        }
        if q == p1 {
            return None;
        }
        let p2 = skip_ws(&cs, q, e);
        proof {
            lemma_scans(t, 0, q as int, e as int);
        }
        let rest = chars_between(&cs, p2, e);
        match attrs_in(&rest) {
            None => None,
            Some((attrs, k)) => {
                let p3 = skip_ws(&cs, p2 + k, e);
                if p3 != e {
                    return None;
                }
                let name = string_of(&cs, p1, q);
                Some((m, name, attrs))
            },
        }
    }

    /// Whether `line` closes a directive opened with `marker_len` colons.
    pub fn is_close(line: &str, marker_len: usize) -> (r: bool)
        ensures
            r == closes(line@, marker_len as int),
    {
        let cs = chars_of(line);
        let ghost t = cs@;
        let e = trimmed(&cs);
        proof {
            lemma_trimmed(t, t.len() as int);
        }
        let m = skip_colons(&cs, 0, e);
        proof {
            lemma_scans(t, 0, 0, e as int);
        }
        m >= marker_len && skip_ws(&cs, m, e) == e
    }
}

} // verus!
