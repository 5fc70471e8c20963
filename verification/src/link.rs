//! The destination and title parts of links: `(<href> "title")`,
//! `(href 'title')`, `(href (title))`.
use vstd::prelude::*;
use vstd::utf8::is_char_boundary;

use crate::scanners::prefix_bytes;
use crate::utf8text::{byte_len, byte_slice, chars_in, chars_of, lemma_prefix_boundary, lemma_utf8_concat, push_char, utf8};

verus! {

/// A parsed part of a link.
#[derive(Debug)]
pub struct ParseLinkFragmentResult {
    /// End position.
    pub pos: usize,
    /// Number of line breaks inside.
    pub lines: usize,
    /// The text of the part, with its backslash escapes decoded.
    pub str: String,
}

/// Whether `c` ends a destination without angle brackets: a space or an
/// ASCII control character.
pub open spec fn ends_plain_destination(c: char) -> bool {
    c <= ' ' || c == '\x7f'
}

/// Where a destination in angle brackets, whose text starts at `i`, has its
/// closing `>`: the text holds no line break or `<`, and a backslash takes
/// the character after it along.
pub open spec fn angle_end(t: Seq<char>, i: int) -> Option<int>
    decreases t.len() - i,
{
    if i < 0 || i >= t.len() || t[i] == '\n' || t[i] == '<' {
        None
    } else if t[i] == '>' {
        Some(i)
    } else if t[i] == '\\' {
        if i + 1 >= t.len() {
            None
        } else {
            angle_end(t, i + 2)
        }
    } else {
        angle_end(t, i + 1)
    }
}

/// Where a destination without angle brackets ends, scanned from `i` with
/// `level` parentheses open, and how many are open there: it ends at a space,
/// a control character, an unmatched `)` or the end; a backslash before a
/// space (or at the end) is the destination's last character, and one before
/// anything else takes that along; more than 32 open parentheses fail.
pub open spec fn plain_end(t: Seq<char>, i: int, level: nat) -> Option<(int, nat)>
    decreases t.len() - i,
{
    if i < 0 || i >= t.len() || ends_plain_destination(t[i]) {
        Some((i, level))
    } else if t[i] == '\\' {
        if i + 1 >= t.len() || t[i + 1] == ' ' {
            Some((i + 1, level))
        } else {
            plain_end(t, i + 2, level)
        }
    } else if t[i] == '(' {
        if level + 1 > 32 {
            None
        } else {
            plain_end(t, i + 1, level + 1)
        }
    } else if t[i] == ')' {
        if level == 0 {
            Some((i, level))
        } else {
            plain_end(t, i + 1, (level - 1) as nat)
        }
    } else {
        plain_end(t, i + 1, level)
    }
}

/// The destination at the start of `t`: the number of characters it covers
/// and the range of its text.
pub open spec fn link_destination(t: Seq<char>) -> Option<(int, int, int)> {
    if t.len() > 0 && t[0] == '<' {
        match angle_end(t, 1) {
            Some(j) => Some((j + 1, 1, j)),
            None => None,
        }
    } else {
        match plain_end(t, 0, 0) {
            Some((k, level)) => if level == 0 {
                Some((k, 0, k))
            } else {
                None
            },
            None => None,
        }
    }
}

/// The closing character of a title that opens with `c`.
pub open spec fn title_closer(c: char) -> Option<char> {
    if c == '"' {
        Some('"')
    } else if c == '\'' {
        Some('\'')
    } else if c == '(' {
        Some(')')
    } else {
        None
    }
}

/// Where a title closing with `marker`, scanned from `i` with `lines` line
/// breaks counted so far, ends, and its line breaks: a `(` inside a title in
/// parentheses fails, a backslash takes the character after it along (a line
/// break among them counting), and the end of the text fails.
pub open spec fn title_end(t: Seq<char>, i: int, marker: char, lines: nat) -> Option<(int, nat)>
    decreases t.len() - i,
{
    if i < 0 || i >= t.len() {
        None
    } else if t[i] == marker {
        Some((i, lines))
    } else if t[i] == '(' && marker == ')' {
        None
    } else if t[i] == '\n' {
        title_end(t, i + 1, marker, lines + 1)
    } else if t[i] == '\\' {
        if i + 1 >= t.len() {
            None
        } else {
            title_end(t, i + 2, marker, lines + if t[i + 1] == '\n' {
                1nat
            } else {
                0nat
            })
        }
    } else {
        title_end(t, i + 1, marker, lines)
    }
}

/// The title at the start of `t`: where it ends, its line breaks, and the
/// range of its text.
pub open spec fn link_title(t: Seq<char>) -> Option<(int, nat, int, int)> {
    if t.len() == 0 {
        None
    } else {
        match title_closer(t[0]) {
            None => None,
            Some(marker) => match title_end(t, 1, marker, 0) {
                Some((j, lines)) => Some((j + 1, lines, 1, j)),
                None => None,
            },
        }
    }
}

/// The number of line breaks in `s`.
pub open spec fn newlines(s: Seq<char>) -> nat
    decreases s.len(),
{
    if s.len() == 0 {
        0
    } else {
        (if s[0] == '\n' {
            1nat
        } else {
            0nat
        }) + newlines(s.drop_first())
    }
}

/// Scanning a title closed by `marker` over text without backslashes, the
/// closing marker, or (for a parenthesised title) `(`, reaches the first
/// `marker` at `j`, counting the line breaks on the way.
proof fn lemma_title_end_plain(t: Seq<char>, i: int, j: int, marker: char, lines: nat)
    requires
        1 <= i <= j < t.len(),
        t[j] == marker,
        forall|k: int| i <= k < j ==> t[k] != marker && t[k] != '\\' && !(t[k] == '(' && marker == ')'),
    ensures
        title_end(t, i, marker, lines) == Some((j, lines + newlines(t.subrange(i, j)))),
    decreases j - i,
{
    if i < j {
        let l2: nat = if t[i] == '\n' {
            lines + 1
        } else {
            lines
        };
        lemma_title_end_plain(t, i + 1, j, marker, l2);
        assert(t.subrange(i, j).drop_first() =~= t.subrange(i + 1, j));
    } else {
        assert(t.subrange(i, j).len() == 0);
    }
}

/// Scanning a title over text without backslashes, the closing marker, or
/// (for a parenthesised title) `(`, only counts its line breaks.
proof fn lemma_title_skip(t: Seq<char>, i: int, j: int, marker: char, lines: nat)
    requires
        1 <= i <= j <= t.len(),
        forall|k: int| i <= k < j ==> t[k] != marker && t[k] != '\\' && !(t[k] == '(' && marker == ')'),
    ensures
        title_end(t, i, marker, lines) == title_end(t, j, marker, lines + newlines(t.subrange(i, j))),
    decreases j - i,
{
    if i < j {
        let l2: nat = if t[i] == '\n' {
            lines + 1
        } else {
            lines
        };
        lemma_title_skip(t, i + 1, j, marker, l2);
        assert(t.subrange(i, j).drop_first() =~= t.subrange(i + 1, j));
    } else {
        assert(t.subrange(i, j).len() == 0);
    }
}

/// A backslash before the closing quote keeps the title open: in
/// `"a\"b"` the title runs to the last quote.
pub proof fn lemma_title_escaped_quote(q: char, a: Seq<char>, b: Seq<char>)
    requires
        q == '"' || q == '\'',
        forall|k: int| 0 <= k < a.len() ==> a[k] != q && a[k] != '\\',
        forall|k: int| 0 <= k < b.len() ==> b[k] != q && b[k] != '\\',
    ensures
        ({
            let t = seq![q] + a + seq!['\\', q] + b + seq![q];
            link_title(t) == Some((t.len() as int, newlines(a) + newlines(b), 1int, t.len() - 1))
        }),
{
    let t = seq![q] + a + seq!['\\', q] + b + seq![q];
    let al = a.len() as int;
    let bl = b.len() as int;
    assert(forall|k: int| 0 <= k < al ==> t[1 + k] == a[k]);
    assert(forall|k: int| 0 <= k < bl ==> t[3 + al + k] == b[k]);
    assert(t[1 + al] == '\\' && t[2 + al] == q && t[3 + al + bl] == q);
    assert forall|k: int| 1 <= k < 1 + al implies t[k] != q && t[k] != '\\' && !(t[k] == '(' && q == ')') by {
        assert(t[k] == a[k - 1]);
    }
    lemma_title_skip(t, 1, 1 + al, q, 0);
    assert(t.subrange(1, 1 + al) =~= a);
    assert forall|k: int| 3 + al <= k < 3 + al + bl implies t[k] != q && t[k] != '\\' && !(t[k] == '(' && q == ')') by {
        assert(t[k] == b[k - 3 - al]);
    }
    lemma_title_skip(t, 3 + al, 3 + al + bl, q, newlines(a));
    assert(t.subrange(3 + al, 3 + al + bl) =~= b);
    assert(title_end(t, 1 + al, q, newlines(a)) == title_end(t, 3 + al, q, newlines(a)));
}

/// A title in double or single quotes ends at the first matching quote,
/// whatever else it holds (parentheses, the other quote, line breaks): the
/// title covers up to and including that quote, its text is what lies
/// between the quotes, and its line count is the line breaks in that text.
pub proof fn lemma_quoted_title(t: Seq<char>, j: int)
    requires
        t.len() > 0,
        t[0] == '"' || t[0] == '\'',
        1 <= j < t.len(),
        t[j] == t[0],
        forall|k: int| 1 <= k < j ==> #[trigger] t[k] != t[0] && t[k] != '\\',
    ensures
        link_title(t) == Some((j + 1, newlines(t.subrange(1, j)), 1int, j)),
{
    lemma_title_end_plain(t, 1, j, t[0], 0);
}

/// A title in parentheses ends at the first `)`, as long as it holds no `(`.
pub proof fn lemma_parenthesised_title(t: Seq<char>, j: int)
    requires
        t.len() > 0,
        t[0] == '(',
        1 <= j < t.len(),
        t[j] == ')',
        forall|k: int| 1 <= k < j ==> t[k] != ')' && t[k] != '(' && t[k] != '\\',
    ensures
        link_title(t) == Some((j + 1, newlines(t.subrange(1, j)), 1int, j)),
{
    lemma_title_end_plain(t, 1, j, ')', 0);
}

/// The characters `cs[from..to]` as a string.
pub(crate) fn string_of(cs: &Vec<char>, from: usize, to: usize) -> (r: String)
    requires
        from <= to <= cs@.len(),
    ensures
        r@ == cs@.subrange(from as int, to as int),
{
    let mut out = String::new();
    let mut i = from;
    while i < to
        invariant
            from <= i <= to <= cs@.len(),
            out@ == cs@.subrange(from as int, i as int),
        decreases to - i,
    {
        push_char(&mut out, cs[i]);
        proof {
            assert(out@ =~= cs@.subrange(from as int, i + 1));
        }
        i = i + 1;
    }
    out
}

/// Whether `c` is an ASCII punctuation character, which a backslash can
/// escape.
pub open spec fn ascii_punct(c: char) -> bool {
    ('!' <= c <= '/') || (':' <= c <= '@') || ('[' <= c <= '`') || ('{' <= c <= '~')
}

/// The text `t` with its backslash escapes decoded, left to right: a
/// backslash before an ASCII punctuation character stands for that
/// character; any other backslash stands for itself.
pub open spec fn unescape(t: Seq<char>) -> Seq<char>
    decreases t.len(),
{
    if t.len() == 0 {
        Seq::empty()
    } else if t.len() >= 2 && t[0] == '\\' && ascii_punct(t[1]) {
        seq![t[1]] + unescape(t.subrange(2, t.len() as int))
    } else {
        seq![t[0]] + unescape(t.subrange(1, t.len() as int))
    }
}

/// Whether `c` is an ASCII punctuation character.
fn is_ascii_punct(c: char) -> (r: bool)
    ensures
        r == ascii_punct(c),
{
    ('!' <= c && c <= '/') || (':' <= c && c <= '@') || ('[' <= c && c <= '`') || ('{' <= c && c <= '~')
}

/// The characters `cs[from..to]` with their backslash escapes decoded.
pub(crate) fn unescaped_of(cs: &Vec<char>, from: usize, to: usize) -> (r: String)
    requires
        from <= to <= cs@.len(),
    ensures
        r@ == unescape(cs@.subrange(from as int, to as int)),
{
    let ghost whole = unescape(cs@.subrange(from as int, to as int));
    let mut out = String::new();
    let mut i = from;
    proof {
        assert(out@ + whole =~= whole);
    }
    while i < to
        invariant
            from <= i <= to <= cs@.len(),
            whole == unescape(cs@.subrange(from as int, to as int)),
            whole == out@ + unescape(cs@.subrange(i as int, to as int)),
        decreases to - i,
    {
        let ghost sub = cs@.subrange(i as int, to as int);
        let ghost before = out@;
        if cs[i] == '\\' && i + 1 < to && is_ascii_punct(cs[i + 1]) {
            push_char(&mut out, cs[i + 1]);
            proof {
                assert(sub.subrange(2, sub.len() as int) =~= cs@.subrange(i + 2, to as int));
                assert(whole =~= out@ + unescape(cs@.subrange(i + 2, to as int)));
            }
            i = i + 2;
        } else {
            push_char(&mut out, cs[i]);
            proof {
                assert(sub.subrange(1, sub.len() as int) =~= cs@.subrange(i + 1, to as int));
                assert(whole =~= out@ + unescape(cs@.subrange(i + 1, to as int)));
            }
            i = i + 1;
        }
    }
    proof {
        assert(cs@.subrange(to as int, to as int) =~= Seq::<char>::empty());
        assert(out@ + Seq::<char>::empty() =~= out@);
    }
    out
}

/// The bytes of the first `k` characters of `t` are no more than all of its
/// bytes.
proof fn lemma_prefix_bytes_le(t: Seq<char>, k: int)
    requires
        0 <= k <= t.len(),
    ensures
        utf8(t.take(k)).len() <= utf8(t).len(),
{
    assert(t =~= t.take(k) + t.skip(k));
    lemma_utf8_concat(t.take(k), t.skip(k));
}

/// Parse the `<href>` part of a link, with or without angle brackets, from
/// the bytes `start..max` of `s`. The result's `pos` is where the
/// destination ends; its text comes with backslash escapes decoded (entity
/// references are left as written).
pub fn parse_link_destination(s: &str, start: usize, max: usize) -> (r: Option<ParseLinkFragmentResult>)
    requires
        start <= max <= utf8(s@).len(),
        is_char_boundary(utf8(s@), start as int),
        is_char_boundary(utf8(s@), max as int),
    ensures
        ({
            let t = chars_in(s@, start as int, max as int);
            match link_destination(t) {
                None => r is None,
                Some((k, from, to)) => r matches Some(f) && f.pos == start + utf8(t.take(k)).len() && f.lines == 0
                    && f.str@ == unescape(t.subrange(from, to)),
            }
        }),
        r matches Some(f) ==> start <= f.pos <= max && is_char_boundary(utf8(s@), f.pos as int),
{
    let part = byte_slice(s, start, max);
    let cs = chars_of(part);
    let ghost t = cs@;
    let n = cs.len();
    if n > 0 && cs[0] == '<' {
        let mut i: usize = 1;
        while i < n && cs[i] != '\n' && cs[i] != '<' && cs[i] != '>'
            invariant
                t == cs@,
                t == chars_in(s@, start as int, max as int),
                n == t.len(),
                n > 0 && t[0] == '<',
                1 <= i,
                angle_end(t, 1) == angle_end(t, i as int),
            decreases n - i,
        {
            if cs[i] == '\\' {
                if i + 1 >= n {
                    return None;
                }
                i = i + 2;
            } else {
                i = i + 1;
            }
        }
        if i >= n || cs[i] != '>' {
            return None;
        }
        let text = unescaped_of(&cs, 1, i);
        proof {
            lemma_prefix_bytes_le(t, i + 1);
            lemma_prefix_boundary(s@, start as int, max as int, t, i + 1);
        }
        let len = prefix_bytes(&cs, i + 1);
        return Some(ParseLinkFragmentResult { pos: start + len, lines: 0, str: text });
    }
    let mut i: usize = 0;
    let mut level: u32 = 0;
    let mut end: usize = 0;
    let mut done = false;
    while !done
        invariant
            t == cs@,
            t == chars_in(s@, start as int, max as int),
            !(n > 0 && t[0] == '<'),
            n == t.len(),
            level <= 32,
            !done ==> i <= n && plain_end(t, 0, 0) == plain_end(t, i as int, level as nat),
            done ==> end <= n && plain_end(t, 0, 0) == Some((end as int, level as nat)),
        decreases n + 1 - i, if done { 0int } else { 1int },
    {
        if i >= n || cs[i] <= ' ' || cs[i] == '\x7f' {
            end = i;
            done = true;
        } else if cs[i] == '\\' {
            if i + 1 >= n || cs[i + 1] == ' ' {
                end = i + 1;
                done = true;
            } else {
                i = i + 2;
            }
        } else if cs[i] == '(' {
            if level + 1 > 32 {
                return None;
            }
            level = level + 1;
            i = i + 1;
        } else if cs[i] == ')' {
            if level == 0 {
                end = i;
                done = true;
            } else {
                level = level - 1;
                i = i + 1;
            }
        } else {
            i = i + 1;
        }
    }
    if level != 0 {
        return None;
    }
    let text = unescaped_of(&cs, 0, end);
    proof {
        lemma_prefix_bytes_le(t, end as int);
        lemma_prefix_boundary(s@, start as int, max as int, t, end as int);
    }
    let len = prefix_bytes(&cs, end);
    Some(ParseLinkFragmentResult { pos: start + len, lines: 0, str: text })
}

/// Parse the `"title"` part of a link (or `'title'`, or `(title)`) from the
/// bytes `start..max` of `s`. The result's `pos` is where the title ends and
/// `lines` counts the line breaks inside; its text comes with backslash
/// escapes decoded (entity references are left as written).
pub fn parse_link_title(s: &str, start: usize, max: usize) -> (r: Option<ParseLinkFragmentResult>)
    requires
        start <= max <= utf8(s@).len(),
        is_char_boundary(utf8(s@), start as int),
        is_char_boundary(utf8(s@), max as int),
    ensures
        ({
            let t = chars_in(s@, start as int, max as int);
            match link_title(t) {
                None => r is None,
                Some((k, lines, from, to)) => r matches Some(f) && f.pos == start + utf8(t.take(k)).len()
                    && f.lines == lines && f.str@ == unescape(t.subrange(from, to)),
            }
        }),
        r matches Some(f) ==> start <= f.pos <= max && is_char_boundary(utf8(s@), f.pos as int),
{
    let part = byte_slice(s, start, max);
    let cs = chars_of(part);
    let ghost t = cs@;
    let n = cs.len();
    if n == 0 {
        return None;
    }
    let marker = if cs[0] == '"' {
        '"'
    } else if cs[0] == '\'' {
        '\''
    } else if cs[0] == '(' {
        ')'
    } else {
        return None;
    };
    let mut i: usize = 1;
    let mut lines: usize = 0;
    while i < n && cs[i] != marker
        invariant
            t == cs@,
            t == chars_in(s@, start as int, max as int),
            n == t.len(),
            1 <= i,
            lines <= i,
            title_closer(t[0]) == Some(marker),
            title_end(t, 1, marker, 0) == title_end(t, i as int, marker, lines as nat),
        decreases n - i,
    {
        if cs[i] == '(' && marker == ')' {
            return None;
        } else if cs[i] == '\n' {
            lines = lines + 1;
            i = i + 1;
        } else if cs[i] == '\\' {
            if i + 1 >= n {
                return None;
            }
            if cs[i + 1] == '\n' {
                lines = lines + 1;
            }
            i = i + 2;
        } else {
            i = i + 1;
        }
    }
    if i >= n {
        return None;
    }
    let text = unescaped_of(&cs, 1, i);
    proof {
        lemma_prefix_bytes_le(t, i + 1);
        lemma_prefix_boundary(s@, start as int, max as int, t, i + 1);
    }
    let len = prefix_bytes(&cs, i + 1);
    Some(ParseLinkFragmentResult { pos: start + len, lines, str: text })
}

} // verus!
