//! What the parser's scanners recognize at a position, without building
//! nodes: backslash escapes, line breaks, ATX heading lines and task-list
//! markers.
use vstd::prelude::*;
use vstd::std_specs::iter::IteratorSpec;

use crate::node::{Hardbreak, NodeValue, TextSpecial};
use crate::probe::{InlineProbeKind, InlineProbeResult};
use crate::utf8text::{byte_len, char_len_utf8, chars_of, lemma_chars_le_bytes, lemma_utf8_concat, lemma_utf8_push, push_char, utf8};

verus! {

/// The number of spaces and tabs that `s` starts with.
pub open spec fn leading_blanks(s: Seq<char>) -> nat
    decreases s.len(),
{
    if s.len() > 0 && (s[0] == ' ' || s[0] == '\t') {
        1 + leading_blanks(s.drop_first())
    } else {
        0
    }
}

proof fn lemma_leading_blanks_le(s: Seq<char>)
    ensures
        leading_blanks(s) <= s.len(),
    decreases s.len(),
{
    if s.len() > 0 {
        lemma_leading_blanks_le(s.drop_first());
    }
}

/// A recognized backslash escape.
#[derive(Clone, Copy, Debug, PartialEq, Eq, Structural)]
pub enum EscapeMatch {
    /// A backslash before a line end, with the blanks that follow it.
    Hardbreak { len: usize },
    /// A backslash before a character.
    Character { ch: char },
}

impl EscapeMatch {
    /// The number of source bytes the escape covers.
    pub open spec fn spec_len(self) -> int {
        match self {
            EscapeMatch::Hardbreak { len } => len as int,
            EscapeMatch::Character { ch } => 1 + utf8(seq![ch]).len() as int,
        }
    }

    pub fn len(self) -> (r: usize)
        ensures
            r == self.spec_len(),
    {
        match self {
            EscapeMatch::Hardbreak { len } => len,
            EscapeMatch::Character { ch } => 1 + char_len_utf8(ch),
        }
    }
}

/// The escape at the start of `s`: a backslash, then a line end (with the
/// spaces and tabs after it) or any character but a space.
pub open spec fn escape_match(s: Seq<char>) -> Option<EscapeMatch> {
    if s.len() < 2 || s[0] != '\\' {
        None
    } else if s[1] == '\n' {
        Some(EscapeMatch::Hardbreak { len: (2 + leading_blanks(s.skip(2))) as usize })
    } else if s[1] == ' ' {
        None
    } else {
        Some(EscapeMatch::Character { ch: s[1] })
    }
}

/// The ASCII punctuation characters, which an escape stands for literally.
pub open spec fn is_ascii_punctuation(c: char) -> bool {
    ('!' <= c <= '/') || (':' <= c <= '@') || ('[' <= c <= '`') || ('{' <= c <= '~')
}

/// Recognizes backslash escapes.
pub struct EscapeScanner;

impl EscapeScanner {
    /// Recognize a backslash escape at the start of `source`.
    pub fn scan(source: &str) -> (r: Option<EscapeMatch>)
        ensures
            r == escape_match(source@),
    {
        broadcast use vstd::string::axiom_spec_iter, vstd::string::next_postcondition;

        let ghost s = source@;
        let _ = byte_len(source);
        proof {
            lemma_chars_le_bytes(s);
            lemma_leading_blanks_le(s.skip(2));
        }
        let mut it = source.chars();
        if it.next() != Some('\\') {
            return None;
        }
        let second = it.next();
        match second {
            None => None,
            Some(' ') => None,
            Some('\n') => {
                let mut len: usize = 2;
                let ghost mut rest = s.skip(2);
                proof {
                    assert(s[0] == '\\' && s[1] == '\n');
                    assert(it.remaining() =~= rest);
                }
                loop
                    invariant
                        s == source@,
                        s.len() >= 2,
                        s[0] == '\\',
                        s[1] == '\n',
                        s.len() <= usize::MAX,
                        2 <= len <= s.len(),
                        rest == s.skip(len as int),
                        it.remaining() == rest,
                        len + leading_blanks(rest) == 2 + leading_blanks(s.skip(2)),
                    decreases s.len() - len,
                {
                    let ghost before = rest;
                    match it.next() {
                        Some(c) => {
                            if c == ' ' || c == '\t' {
                                len = len + 1;
                                proof {
                                    rest = before.drop_first();
                                    assert(rest =~= s.skip(len as int));
                                }
                            } else {
                                proof {
                                    assert(c == before[0]);
                                    assert(leading_blanks(before) == 0);
                                }
                                return Some(EscapeMatch::Hardbreak { len });
                            }
                        },
                        None => {
                            proof {
                                assert(before.len() == 0);
                                assert(leading_blanks(before) == 0);
                            }
                            return Some(EscapeMatch::Hardbreak { len });
                        },
                    }
                }
            },
            Some(ch) => Some(EscapeMatch::Character { ch }),
        }
    }

    /// How the escape rule classifies the start of `remaining` when probing.
    pub fn probe(remaining: &str) -> (r: InlineProbeResult)
        ensures
            match escape_match(remaining@) {
                Some(m) => r == InlineProbeResult::Match { len: m.spec_len() as usize, kind: InlineProbeKind::Token },
                None => r == InlineProbeResult::NoMatch,
            },
    {
        match EscapeScanner::scan(remaining) {
            Some(m) => InlineProbeResult::Match { len: m.len(), kind: InlineProbeKind::Token },
            None => InlineProbeResult::NoMatch,
        }
    }

    /// The node for the escape at the start of `remaining` and the number of
    /// bytes it covers: a hard break, or escaped text whose content is the
    /// character itself where it is ASCII punctuation and the backslash with
    /// the character otherwise.
    pub fn run(remaining: &str) -> (r: Option<(NodeValue, usize)>)
        ensures
            match escape_match(remaining@) {
                None => r is None,
                Some(EscapeMatch::Hardbreak { len }) => r matches Some((NodeValue::Hardbreak(_), n)) && n == len,
                Some(EscapeMatch::Character { ch }) => r matches Some((NodeValue::TextSpecial(t), n)) && n == 1
                    + utf8(seq![ch]).len() && t.markup@ == seq!['\\', ch] && t.content@ == (if is_ascii_punctuation(ch) {
                    seq![ch]
                } else {
                    seq!['\\', ch]
                }) && t.info@ == seq!['e', 's', 'c', 'a', 'p', 'e'],
            },
    {
        let matched = EscapeScanner::scan(remaining)?;
        let len = matched.len();
        match matched {
            EscapeMatch::Hardbreak { .. } => Some((NodeValue::Hardbreak(Hardbreak), len)),
            EscapeMatch::Character { ch } => {
                let mut markup = String::new();
                push_char(&mut markup, '\\');
                push_char(&mut markup, ch);
                let punct = ('!' <= ch && ch <= '/') || (':' <= ch && ch <= '@') || ('[' <= ch && ch <= '`') || (
                '{' <= ch && ch <= '~');
                let mut content = String::new();
                if !punct {
                    push_char(&mut content, '\\');
                }
                push_char(&mut content, ch);
                let info = "escape".to_owned();
                proof {
                    reveal_strlit("escape");
                    assert(markup@ =~= seq!['\\', ch]);
                    assert(content@ =~= (if is_ascii_punctuation(ch) {
                        seq![ch]
                    } else {
                        seq!['\\', ch]
                    }));
                    assert(info@ =~= seq!['e', 's', 'c', 'a', 'p', 'e']);
                }
                Some((NodeValue::TextSpecial(TextSpecial { content, markup, info }), len))
            },
        }
    }
}

/// The number of spaces that `s` ends with.
pub open spec fn trailing_spaces(s: Seq<char>) -> nat
    decreases s.len(),
{
    if s.len() > 0 && s.last() == ' ' {
        1 + trailing_spaces(s.drop_last())
    } else {
        0
    }
}

/// The line break at the start of `remaining`, after the pending text
/// `trailing`: whether it is hard (two or more spaces end the pending text),
/// how many of those spaces it takes back from the pending text, and the
/// bytes it covers from the first of them through the blanks that start the
/// next line.
pub open spec fn line_break(remaining: Seq<char>, trailing: Seq<char>) -> Option<(bool, usize, usize)> {
    if remaining.len() == 0 || remaining[0] != '\n' {
        None
    } else {
        let spaces = trailing_spaces(trailing);
        Some((spaces >= 2, spaces as usize, (1 + leading_blanks(remaining.skip(1)) + spaces) as usize))
    }
}

proof fn lemma_trailing_spaces_le(s: Seq<char>)
    ensures
        trailing_spaces(s) <= s.len(),
    decreases s.len(),
{
    if s.len() > 0 {
        lemma_trailing_spaces_le(s.drop_last());
    }
}

/// The number of blanks `cs` has from `from` on, before another character.
fn count_blanks(cs: &Vec<char>, from: usize) -> (r: usize)
    requires
        from <= cs@.len(),
    ensures
        r == leading_blanks(cs@.skip(from as int)),
        from + r <= cs@.len(),
{
    let mut i = from;
    proof {
        lemma_leading_blanks_le(cs@.skip(from as int));
    }
    while i < cs.len() && (cs[i] == ' ' || cs[i] == '\t')
        invariant
            from <= i <= cs@.len(),
            (i - from) + leading_blanks(cs@.skip(i as int)) == leading_blanks(cs@.skip(from as int)),
        decreases cs@.len() - i,
    {
        proof {
            assert(cs@.skip(i as int).drop_first() =~= cs@.skip(i as int + 1));
        }
        i = i + 1;
    }
    i - from
}

/// Recognizes line breaks.
pub struct NewlineScanner;

impl NewlineScanner {
    /// Recognize a line break at the start of `remaining`, after the pending
    /// text `trailing`.
    pub fn scan(remaining: &str, trailing: &str) -> (r: Option<(bool, usize, usize)>)
        requires
            utf8(remaining@).len() + utf8(trailing@).len() <= usize::MAX,
        ensures
            r == line_break(remaining@, trailing@),
    {
        let cs = chars_of(remaining);
        if cs.len() == 0 || cs[0] != '\n' {
            return None;
        }
        let blanks = count_blanks(&cs, 1);
        let ts = chars_of(trailing);
        let mut spaces: usize = 0;
        proof {
            assert(ts@.take(ts@.len() - 0) =~= ts@);
            lemma_chars_le_bytes(remaining@);
            lemma_chars_le_bytes(trailing@);
            lemma_trailing_spaces_le(trailing@);
        }
        while spaces < ts.len() && ts[ts.len() - 1 - spaces] == ' '
            invariant
                ts@ == trailing@,
                spaces <= ts@.len(),
                spaces + trailing_spaces(ts@.take(ts@.len() - spaces)) == trailing_spaces(ts@),
            decreases ts@.len() - spaces,
        {
            proof {
                let t = ts@.take(ts@.len() - spaces);
                assert(t.drop_last() =~= ts@.take(ts@.len() - spaces - 1));
            }
            spaces = spaces + 1;
        }
        proof {
            let t = ts@.take(ts@.len() - spaces);
            assert(trailing_spaces(t) == 0);
        }
        Some((spaces >= 2, spaces, 1 + blanks + spaces))
    }
}

/// The number of `#` that `s` starts with.
pub open spec fn leading_hashes(s: Seq<char>) -> nat
    decreases s.len(),
{
    if s.len() > 0 && s[0] == '#' {
        1 + leading_hashes(s.drop_first())
    } else {
        0
    }
}

/// The number of spaces and tabs that `s` ends with.
pub open spec fn trailing_blanks(s: Seq<char>) -> nat
    decreases s.len(),
{
    if s.len() > 0 && (s.last() == ' ' || s.last() == '\t') {
        1 + trailing_blanks(s.drop_last())
    } else {
        0
    }
}

/// The number of `#` that `s` ends with.
pub open spec fn trailing_hashes(s: Seq<char>) -> nat
    decreases s.len(),
{
    if s.len() > 0 && s.last() == '#' {
        1 + trailing_hashes(s.drop_last())
    } else {
        0
    }
}

/// Whether `c` is a space or a tab.
pub open spec fn is_blank(c: char) -> bool {
    c == ' ' || c == '\t'
}

/// An ATX heading line: its level (the number of opening `#`, one to six)
/// and the character range of its text. The opening `#` run ends the line or
/// is followed by a blank, where the text starts; a closing run of `#`
/// (with the blanks around it) is cut off only where a blank precedes it.
pub open spec fn atx_heading(s: Seq<char>) -> Option<(nat, nat, nat)> {
    let level = leading_hashes(s);
    if level == 0 || level > 6 {
        None
    } else if level == s.len() {
        Some((level, level, level))
    } else if !is_blank(s[level as int]) {
        None
    } else {
        let tail = s.subrange(level as int + 1, s.len() as int);
        let e2 = closing_start(tail);
        if e2 == 0 {
            Some((level, level, level))
        } else if is_blank(tail[e2 - 1]) {
            Some((level, level, (level + 1 + e2) as nat))
        } else {
            Some((level, level, s.len()))
        }
    }
}

/// A run of `#` counts in full at the start of a line.
proof fn lemma_leading_hashes_run(n: nat, rest: Seq<char>)
    ensures
        leading_hashes(Seq::new(n, |_i: int| '#') + rest) == n + leading_hashes(rest),
    decreases n,
{
    let h = Seq::new(n, |_i: int| '#');
    if n > 0 {
        let h1 = Seq::new((n - 1) as nat, |_i: int| '#');
        assert((h + rest).drop_first() =~= h1 + rest);
        lemma_leading_hashes_run((n - 1) as nat, rest);
    } else {
        assert(h + rest =~= rest);
    }
}

/// One to six `#`, a blank and some text that ends in neither a blank nor a
/// `#` make an ATX heading of that level, whose text runs from the first
/// blank to the end of the line.
pub proof fn lemma_atx_heading_levels(n: nat, b: char, x: Seq<char>)
    requires
        1 <= n <= 6,
        b == ' ' || b == '\t',
        x.len() > 0,
        !is_blank(x.last()),
        x.last() != '#',
    ensures
        atx_heading(Seq::new(n, |_i: int| '#') + seq![b] + x) == Some((n, n, n + 1 + x.len())),
{
    let h = Seq::new(n, |_i: int| '#');
    let s = h + seq![b] + x;
    assert(s =~= h + (seq![b] + x));
    lemma_leading_hashes_run(n, seq![b] + x);
    assert(leading_hashes(seq![b] + x) == 0);
    assert(s[n as int] == b);
    let tail = s.subrange(n as int + 1, s.len() as int);
    assert(tail =~= x);
    assert(trailing_blanks(x) == 0);
    assert(x.take(x.len() as int) =~= x);
    assert(trailing_hashes(x) == 0);
}

/// A closing run of `#` after a blank, with blanks after it, is cut off the
/// heading's text, which ends just after the blank before the run.
pub proof fn lemma_atx_heading_closing_run(n: nat, x: Seq<char>, m: nat, k: nat)
    requires
        1 <= n <= 6,
        x.len() > 0,
        !is_blank(x.last()),
        x.last() != '#',
        m >= 1,
    ensures
        atx_heading(Seq::new(n, |_i: int| '#') + seq![' '] + x + seq![' '] + Seq::new(m, |_i: int| '#')
            + Seq::new(k, |_i: int| ' ')) == Some((n, n, n + 2 + x.len())),
{
    let h = Seq::new(n, |_i: int| '#');
    let hm = Seq::new(m, |_i: int| '#');
    let sp = Seq::new(k, |_i: int| ' ');
    let rest = seq![' '] + x + seq![' '] + hm + sp;
    let s = h + seq![' '] + x + seq![' '] + hm + sp;
    assert(s =~= h + rest);
    lemma_leading_hashes_run(n, rest);
    assert(leading_hashes(rest) == 0);
    let tail = s.subrange(n as int + 1, s.len() as int);
    assert(tail =~= x + seq![' '] + hm + sp);
    lemma_trailing_blanks_run(x + seq![' '] + hm, k);
    assert(x + seq![' '] + hm + sp =~= (x + seq![' '] + hm) + sp);
    let e1 = tail.len() - k;
    assert(tail.take(e1 as int) =~= (x + seq![' ']) + hm);
    lemma_trailing_hashes_run(x + seq![' '], m);
    assert(closing_start(tail) == x.len() + 1);
    assert(tail[x.len() as int] == ' ');
    assert(s[n as int] == ' ');
}

/// Blanks at the end count in full.
proof fn lemma_trailing_blanks_run(a: Seq<char>, k: nat)
    requires
        a.len() > 0,
        !is_blank(a.last()),
    ensures
        trailing_blanks(a + Seq::new(k, |_i: int| ' ')) == k,
    decreases k,
{
    let sp = Seq::new(k, |_i: int| ' ');
    if k > 0 {
        assert((a + sp).drop_last() =~= a + Seq::new((k - 1) as nat, |_i: int| ' '));
        lemma_trailing_blanks_run(a, (k - 1) as nat);
    } else {
        assert(a + sp =~= a);
    }
}

/// A closing `#` run counts in full.
proof fn lemma_trailing_hashes_run(a: Seq<char>, m: nat)
    requires
        a.len() > 0,
        a.last() != '#',
    ensures
        trailing_hashes(a + Seq::new(m, |_i: int| '#')) == m,
    decreases m,
{
    let hm = Seq::new(m, |_i: int| '#');
    if m > 0 {
        assert((a + hm).drop_last() =~= a + Seq::new((m - 1) as nat, |_i: int| '#'));
        lemma_trailing_hashes_run(a, (m - 1) as nat);
    } else {
        assert(a + hm =~= a);
    }
}

/// The opening `#` run must be followed by a blank or end the line: `#x` is
/// no ATX heading.
pub proof fn lemma_atx_heading_needs_blank(n: nat, c: char, rest: Seq<char>)
    requires
        n >= 1,
        c != '#',
        !is_blank(c),
    ensures
        atx_heading(Seq::new(n, |_i: int| '#') + seq![c] + rest) is None,
{
    let h = Seq::new(n, |_i: int| '#');
    assert(h + seq![c] + rest =~= h + (seq![c] + rest));
    lemma_leading_hashes_run(n, seq![c] + rest);
    assert(leading_hashes(seq![c] + rest) == 0);
    assert((h + seq![c] + rest)[n as int] == c);
}

/// A line that does not open with `#` is no ATX heading.
pub proof fn lemma_atx_heading_needs_hash(s: Seq<char>)
    requires
        s.len() == 0 || s[0] != '#',
    ensures
        atx_heading(s) is None,
{
}

/// A line that opens with seven or more `#` is no ATX heading.
pub proof fn lemma_atx_heading_too_deep(n: nat, rest: Seq<char>)
    requires
        n >= 7,
    ensures
        atx_heading(Seq::new(n, |_i: int| '#') + rest) is None,
{
    lemma_leading_hashes_run(n, rest);
}

/// A line that opens with one to six `#` and nothing else is an empty ATX
/// heading of that level.
pub proof fn lemma_atx_heading_bare(n: nat)
    requires
        1 <= n <= 6,
    ensures
        atx_heading(Seq::new(n, |_i: int| '#')) == Some((n, n, n)),
{
    lemma_leading_hashes_run(n, Seq::empty());
    assert(Seq::new(n, |_i: int| '#') + Seq::<char>::empty() =~= Seq::new(n, |_i: int| '#'));
}

/// Where the closing sequence of a heading's text `tail` starts: before its
/// trailing blanks and the `#` run they follow.
pub open spec fn closing_start(tail: Seq<char>) -> nat {
    let e1 = (tail.len() - trailing_blanks(tail)) as nat;
    (e1 - trailing_hashes(tail.take(e1 as int))) as nat
}

proof fn lemma_hashes_le(s: Seq<char>)
    ensures
        leading_hashes(s) <= s.len(),
        trailing_blanks(s) <= s.len(),
        trailing_hashes(s) <= s.len(),
    decreases s.len(),
{
    if s.len() > 0 {
        lemma_hashes_le(s.drop_first());
        lemma_hashes_le(s.drop_last());
    }
}

/// The UTF-8 length of the first `k` characters of `cs`.
pub(crate) fn prefix_bytes(cs: &Vec<char>, k: usize) -> (r: usize)
    requires
        k <= cs@.len(),
        utf8(cs@).len() <= usize::MAX,
    ensures
        r == utf8(cs@.take(k as int)).len(),
{
    let mut i: usize = 0;
    let mut n: usize = 0;
    proof {
        assert(cs@.take(0) =~= Seq::<char>::empty());
        assert(utf8(Seq::<char>::empty()) =~= Seq::<u8>::empty());
    }
    while i < k
        invariant
            i <= k <= cs@.len(),
            utf8(cs@).len() <= usize::MAX,
            n == utf8(cs@.take(i as int)).len(),
        decreases k - i,
    {
        let c = cs[i];
        proof {
            assert(cs@.take(i + 1) =~= cs@.take(i as int).push(c));
            lemma_utf8_push(cs@.take(i as int), c);
            assert(cs@ =~= cs@.take(i + 1) + cs@.skip(i + 1));
            lemma_utf8_concat(cs@.take(i + 1), cs@.skip(i + 1));
        }
        n = n + char_len_utf8(c);
        i = i + 1;
    }
    n
}

/// The number of `#` that `cs` starts with, counted up to seven.
fn count_hashes(cs: &Vec<char>) -> (r: usize)
    ensures
        r == (if leading_hashes(cs@) <= 7 { leading_hashes(cs@) } else { 7 }),
{
    let ghost s = cs@;
    let n = cs.len();
    let mut level: usize = 0;
    proof {
        assert(s.skip(0) =~= s);
        lemma_hashes_le(s);
    }
    while level < n && cs[level] == '#' && level < 7
        invariant
            n == cs@.len(),
            cs@ == s,
            level <= n,
            level <= 7,
            level + leading_hashes(s.skip(level as int)) == leading_hashes(s),
        decreases n - level,
    {
        proof {
            assert(s.skip(level as int).drop_first() =~= s.skip(level as int + 1));
        }
        level = level + 1;
    }
    proof {
        if level < 7 {
            if level < n {
                assert(s.skip(level as int)[0] == s[level as int]);
            }
            assert(leading_hashes(s.skip(level as int)) == 0);
        }
    }
    level
}

/// Where the closing sequence of the text after position `level` of `cs`
/// starts, counted from the start of that text.
fn closing_position(cs: &Vec<char>, level: usize) -> (r: usize)
    requires
        level < cs@.len(),
    ensures
        r == closing_start(cs@.subrange(level as int + 1, cs@.len() as int)),
        r + level + 1 <= cs@.len(),
{
    let ghost s = cs@;
    let n = cs.len();
    let ghost tail = s.subrange(level as int + 1, s.len() as int);
    let mut e1: usize = n - (level + 1);
    proof {
        assert(tail.take(e1 as int) =~= tail);
        lemma_hashes_le(tail);
    }
    while e1 > 0 && (cs[level + e1] == ' ' || cs[level + e1] == '\t')
        invariant
            n == cs@.len(),
            cs@ == s,
            level < n,
            tail == s.subrange(level as int + 1, s.len() as int),
            e1 <= tail.len(),
            (tail.len() - e1) + trailing_blanks(tail.take(e1 as int)) == trailing_blanks(tail),
        decreases e1,
    {
        proof {
            assert(tail.take(e1 as int).drop_last() =~= tail.take(e1 - 1));
            assert(tail.take(e1 as int).last() == cs@[level + e1]);
        }
        e1 = e1 - 1;
    }
    proof {
        if e1 > 0 {
            assert(tail.take(e1 as int).last() == cs@[level + e1]);
        }
        assert(trailing_blanks(tail.take(e1 as int)) == 0);
    }
    let mut e2: usize = e1;
    proof {
        assert(tail.take(e1 as int).take(e2 as int) =~= tail.take(e1 as int));
        lemma_hashes_le(tail.take(e1 as int));
    }
    while e2 > 0 && cs[level + e2] == '#'
        invariant
            n == cs@.len(),
            cs@ == s,
            level < n,
            tail == s.subrange(level as int + 1, s.len() as int),
            e2 <= e1 <= tail.len(),
            (e1 - e2) + trailing_hashes(tail.take(e2 as int)) == trailing_hashes(tail.take(e1 as int)),
        decreases e2,
    {
        proof {
            assert(tail.take(e2 as int).drop_last() =~= tail.take(e2 - 1));
            assert(tail.take(e2 as int).last() == cs@[level + e2]);
            assert(tail.take(e1 as int).take(e2 as int) =~= tail.take(e2 as int));
        }
        e2 = e2 - 1;
    }
    proof {
        if e2 > 0 {
            assert(tail.take(e2 as int).last() == cs@[level + e2]);
        }
        assert(trailing_hashes(tail.take(e2 as int)) == 0);
    }
    e2
}

/// Recognizes ATX headings: `# h1`, `## h2`, and so on.
pub struct HeadingScanner;

impl HeadingScanner {
    /// Recognize an ATX heading line: its level and the byte range of its
    /// text within `line`.
    pub fn scan(line: &str) -> (r: Option<(u8, usize, usize)>)
        ensures
            match atx_heading(line@) {
                None => r is None,
                Some((level, start, end)) => r matches Some((l, a, b)) && l == level && a == utf8(
                    line@.take(start as int),
                ).len() && b == utf8(line@.take(end as int)).len(),
            },
    {
        let cs = chars_of(line);
        let _ = byte_len(line);
        let ghost s = line@;
        proof {
            lemma_chars_le_bytes(s);
            lemma_hashes_le(s);
        }
        let level = count_hashes(&cs);
        if level == 0 || level > 6 {
            return None;
        }
        let start = prefix_bytes(&cs, level);
        if level == cs.len() {
            return Some((level as u8, start, start));
        }
        if !(cs[level] == ' ' || cs[level] == '\t') {
            return None;
        }
        let e2 = closing_position(&cs, level);
        let ghost tail = s.subrange(level as int + 1, s.len() as int);
        let end = if e2 == 0 {
            start
        } else if cs[level + e2] == ' ' || cs[level + e2] == '\t' {
            proof {
                assert(tail[e2 - 1] == cs@[level + e2]);
            }
            prefix_bytes(&cs, level + 1 + e2)
        } else {
            proof {
                assert(tail[e2 - 1] == cs@[level + e2]);
                assert(s.take(s.len() as int) =~= s);
            }
            prefix_bytes(&cs, cs.len())
        };
        Some((level as u8, start, end))
    }
}

/// A task-list marker at the start of `s`: `[ ]`, `[x]` or `[X]`, then a
/// blank (taken with the marker) or the end; whether it is checked, and the
/// number of bytes it covers.
pub open spec fn task_marker(s: Seq<char>) -> Option<(bool, usize)> {
    if s.len() < 3 || s[0] != '[' || s[2] != ']' || !(s[1] == ' ' || s[1] == 'x' || s[1] == 'X') {
        None
    } else if s.len() == 3 {
        Some((s[1] != ' ', 3))
    } else if is_blank(s[3]) {
        Some((s[1] != ' ', 4))
    } else {
        None
    }
}

/// Recognizes task-list items.
pub struct TaskListScanner;

impl TaskListScanner {
    /// Recognize a task-list marker at the start of `content`.
    pub fn marker_len(content: &str) -> (r: Option<(bool, usize)>)
        ensures
            r == task_marker(content@),
    {
        broadcast use vstd::string::axiom_spec_iter, vstd::string::next_postcondition;

        let ghost s = content@;
        let mut it = content.chars();
        if it.next() != Some('[') {
            return None;
        }
        let mark = match it.next() {
            Some(c) => c,
            None => {
                return None;
            },
        };
        if !(mark == ' ' || mark == 'x' || mark == 'X') {
            return None;
        }
        if it.next() != Some(']') {
            return None;
        }
        let checked = mark != ' ';
        match it.next() {
            None => Some((checked, 3)),
            Some(c) => {
                if c == ' ' || c == '\t' {
                    Some((checked, 4))
                } else {
                    None
                }
            },
        }
    }
}

} // verus!
