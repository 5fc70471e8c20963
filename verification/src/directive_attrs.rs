//! The attribute block of a directive: `{#id .class key=value key="value"}`.
use vstd::prelude::*;

use crate::scanners::prefix_bytes;
use crate::utf8text::{byte_len, chars_of, lemma_chars_le_bytes, lemma_utf8_concat, push_char, utf8};

verus! {

/// The attributes of a directive, in the order written.
pub type Attrs = Vec<(String, String)>;

/// Unicode's White_Space characters, which `char::is_whitespace` tests for.
pub open spec fn is_white_space(c: char) -> bool {
    ||| ('\u{9}' <= c <= '\u{d}')
    ||| c == ' '
    ||| c == '\u{85}'
    ||| c == '\u{a0}'
    ||| c == '\u{1680}'
    ||| ('\u{2000}' <= c <= '\u{200a}')
    ||| c == '\u{2028}'
    ||| c == '\u{2029}'
    ||| c == '\u{202f}'
    ||| c == '\u{205f}'
    ||| c == '\u{3000}'
}

/// Whether `c` is a White_Space character.
pub fn is_whitespace(c: char) -> (r: bool)
    ensures
        r == is_white_space(c),
{
    ('\u{9}' <= c && c <= '\u{d}') || c == ' ' || c == '\u{85}' || c == '\u{a0}' || c == '\u{1680}' || (
    '\u{2000}' <= c && c <= '\u{200a}') || c == '\u{2028}' || c == '\u{2029}' || c == '\u{202f}' || c
        == '\u{205f}' || c == '\u{3000}'
}

/// The first position from `i` on whose character ends a shorthand value
/// (white space, `}`, `.` or `#`), or the end.
pub open spec fn shorthand_end(t: Seq<char>, i: int) -> int
    decreases t.len() - i,
{
    if i < 0 || i >= t.len() || is_white_space(t[i]) || t[i] == '}' || t[i] == '.' || t[i] == '#' {
        i
    } else {
        shorthand_end(t, i + 1)
    }
}

/// The first position from `i` on whose character ends a key (`=`, white
/// space or `}`), or the end.
pub open spec fn key_end(t: Seq<char>, i: int) -> int
    decreases t.len() - i,
{
    if i < 0 || i >= t.len() || t[i] == '=' || is_white_space(t[i]) || t[i] == '}' {
        i
    } else {
        key_end(t, i + 1)
    }
}

/// The first position from `i` on whose character ends an unquoted value
/// (white space or `}`), or the end.
pub open spec fn bare_end(t: Seq<char>, i: int) -> int
    decreases t.len() - i,
{
    if i < 0 || i >= t.len() || is_white_space(t[i]) || t[i] == '}' {
        i
    } else {
        bare_end(t, i + 1)
    }
}

/// A quoted value from `i` on, closed by `quote`: its characters (a
/// backslash takes the next character literally) and where scanning
/// resumes, after the closing quote or at the end.
pub open spec fn quoted(t: Seq<char>, i: int, quote: char) -> (Seq<char>, int)
    decreases t.len() - i,
{
    if i < 0 || i >= t.len() {
        (Seq::empty(), t.len() as int)
    } else if t[i] == quote {
        (Seq::empty(), i + 1)
    } else if t[i] == '\\' {
        if i + 1 >= t.len() {
            (Seq::empty(), t.len() as int)
        } else {
            let (v, e) = quoted(t, i + 2, quote);
            (seq![t[i + 1]] + v, e)
        }
    } else {
        let (v, e) = quoted(t, i + 1, quote);
        (seq![t[i]] + v, e)
    }
}

/// The value after the `=` at position `i - 1`, and where scanning resumes.
pub open spec fn value_at(t: Seq<char>, i: int) -> (Seq<char>, int) {
    if i < 0 || i >= t.len() {
        (Seq::empty(), i)
    } else if t[i] == '"' || t[i] == '\'' {
        quoted(t, i + 1, t[i])
    } else {
        (t.subrange(i, bare_end(t, i + 1)), bare_end(t, i + 1))
    }
}

/// The attribute that starts at position `i`, and where scanning resumes:
/// `#x` is `id=x`, `.x` is `class=x`, and `key`, `key=value`,
/// `key="value"` or `key='value'` a key with a (possibly empty) value.
pub open spec fn attr_at(t: Seq<char>, i: int) -> ((Seq<char>, Seq<char>), int) {
    if t[i] == '#' || t[i] == '.' {
        let e = shorthand_end(t, i + 1);
        let key = if t[i] == '#' {
            seq!['i', 'd']
        } else {
            seq!['c', 'l', 'a', 's', 's']
        };
        ((key, t.subrange(i + 1, e)), e)
    } else {
        let k = key_end(t, i + 1);
        if k < t.len() && t[k] == '=' {
            let (v, e) = value_at(t, k + 1);
            ((t.subrange(i, k), v), e)
        } else {
            ((t.subrange(i, k), Seq::empty()), k)
        }
    }
}

/// The attributes from position `i` to the closing `}`, and the position
/// after it; `None` where no `}` closes the block.
pub open spec fn attrs_from(t: Seq<char>, i: int) -> Option<(Seq<(Seq<char>, Seq<char>)>, int)>
    decreases t.len() - i,
{
    if i < 0 || i >= t.len() {
        None
    } else if t[i] == '}' {
        Some((Seq::empty(), i + 1))
    } else if is_white_space(t[i]) {
        attrs_from(t, i + 1)
    } else {
        let (a, e) = attr_at(t, i);
        proof {
            lemma_attr_advances(t, i);
        }
        match attrs_from(t, e) {
            Some((rest, end)) => Some((seq![a] + rest, end)),
            None => None,
        }
    }
}

/// The attribute block at the start of `t`: its attributes and the number
/// of characters it covers; no block (none written) is an empty one.
pub open spec fn attr_block(t: Seq<char>) -> Option<(Seq<(Seq<char>, Seq<char>)>, int)> {
    if t.len() == 0 || t[0] != '{' {
        Some((Seq::empty(), 0))
    } else {
        attrs_from(t, 1)
    }
}

/// The views of some attributes.
pub open spec fn attrs_view(a: Seq<(String, String)>) -> Seq<(Seq<char>, Seq<char>)> {
    a.map_values(|x: (String, String)| (x.0@, x.1@))
}

/// Every scanner ends at or after where it starts, and at most at the end.
pub proof fn lemma_ends(t: Seq<char>, i: int)
    requires
        0 <= i <= t.len(),
    ensures
        i <= shorthand_end(t, i) <= t.len(),
        i <= key_end(t, i) <= t.len(),
        i <= bare_end(t, i) <= t.len(),
        i <= quoted(t, i, '"').1 <= t.len(),
        i <= quoted(t, i, '\'').1 <= t.len(),
    decreases t.len() - i,
{
    if i < t.len() {
        lemma_ends(t, i + 1);
        if i + 1 < t.len() {
            lemma_ends(t, i + 2);
        }
    }
}

/// An attribute takes at least one character.
pub proof fn lemma_attr_advances(t: Seq<char>, i: int)
    requires
        0 <= i < t.len(),
    ensures
        i < attr_at(t, i).1 <= t.len(),
{
    lemma_ends(t, i + 1);
    let k = key_end(t, i + 1);
    if k + 1 <= t.len() {
        lemma_ends(t, k + 1);
        if k + 2 <= t.len() {
            lemma_ends(t, k + 2);
        }
    }
}

/// A key ends at the first `=`, white space or `}`.
proof fn lemma_key_end_at(t: Seq<char>, i: int, j: int)
    requires
        0 <= i <= j < t.len(),
        t[j] == '=' || is_white_space(t[j]) || t[j] == '}',
        forall|k: int| i <= k < j ==> t[k] != '=' && !is_white_space(t[k]) && t[k] != '}',
    ensures
        key_end(t, i) == j,
    decreases j - i,
{
    if i < j {
        lemma_key_end_at(t, i + 1, j);
    }
}

/// A quoted value without backslashes ends at the first quote of the kind
/// that opened it.
proof fn lemma_quoted_at(t: Seq<char>, i: int, j: int, quote: char)
    requires
        0 <= i <= j < t.len(),
        t[j] == quote,
        forall|k: int| i <= k < j ==> t[k] != quote && t[k] != '\\',
    ensures
        quoted(t, i, quote) == (t.subrange(i, j), j + 1),
    decreases j - i,
{
    if i < j {
        lemma_quoted_at(t, i + 1, j, quote);
        assert(t.subrange(i, j) =~= seq![t[i]] + t.subrange(i + 1, j));
    } else {
        assert(t.subrange(i, j) =~= Seq::<char>::empty());
    }
}

/// A quoted value is closed only by the quote that opened it: in the block
/// `{key="value"}` (or with single quotes) the value may hold the other kind
/// of quote, and the block is that one attribute.
pub proof fn lemma_quoted_value(key: Seq<char>, q: char, value: Seq<char>)
    requires
        q == '"' || q == '\'',
        key.len() > 0,
        key[0] != '#' && key[0] != '.',
        forall|k: int| 0 <= k < key.len() ==> key[k] != '=' && !is_white_space(key[k]) && key[k] != '}',
        forall|k: int| 0 <= k < value.len() ==> value[k] != q && value[k] != '\\',
    ensures
        attr_block(seq!['{'] + key + seq!['=', q] + value + seq![q, '}']) == Some(
            (seq![(key, value)], key.len() + value.len() + 5int),
        ),
{
    let t = seq!['{'] + key + seq!['=', q] + value + seq![q, '}'];
    let kl = key.len() as int;
    let vl = value.len() as int;
    assert(t.len() == kl + vl + 5);
    assert(forall|k: int| 0 <= k < kl ==> t[1 + k] == key[k]);
    assert(t[1 + kl] == '=');
    assert(t[2 + kl] == q);
    assert(forall|k: int| 0 <= k < vl ==> t[3 + kl + k] == value[k]);
    assert(t[3 + kl + vl] == q);
    assert(t[4 + kl + vl] == '}');
    assert(t[1] == key[0]);
    lemma_key_end_at(t, 2, 1 + kl);
    assert forall|k: int| 3 + kl <= k < 3 + kl + vl implies t[k] != q && t[k] != '\\' by {
        assert(t[k] == value[k - 3 - kl]);
    }
    lemma_quoted_at(t, 3 + kl, 3 + kl + vl, q);
    assert(t.subrange(1, 1 + kl) =~= key);
    assert(t.subrange(3 + kl, 3 + kl + vl) =~= value);
    assert(attr_at(t, 1) == ((key, value), 4 + kl + vl));
    assert(attrs_from(t, 4 + kl + vl) == Some((Seq::<(Seq<char>, Seq<char>)>::empty(), 5 + kl + vl)));
    assert(seq![(key, value)] + Seq::<(Seq<char>, Seq<char>)>::empty() =~= seq![(key, value)]);
}

/// An unquoted value ends at the first white space or `}`.
proof fn lemma_bare_end_at(t: Seq<char>, i: int, j: int)
    requires
        0 <= i <= j < t.len(),
        is_white_space(t[j]) || t[j] == '}',
        forall|k: int| i <= k < j ==> !is_white_space(t[k]) && t[k] != '}',
    ensures
        bare_end(t, i) == j,
    decreases j - i,
{
    if i < j {
        lemma_bare_end_at(t, i + 1, j);
    }
}

/// An unquoted value runs to the closing `}`: the block `{key=value}` is
/// that one attribute.
pub proof fn lemma_bare_value(key: Seq<char>, value: Seq<char>)
    requires
        key.len() > 0,
        key[0] != '#' && key[0] != '.',
        forall|k: int| 0 <= k < key.len() ==> key[k] != '=' && !is_white_space(key[k]) && key[k] != '}',
        value.len() > 0,
        value[0] != '"' && value[0] != '\'',
        forall|k: int| 0 <= k < value.len() ==> !is_white_space(value[k]) && value[k] != '}',
    ensures
        attr_block(seq!['{'] + key + seq!['='] + value + seq!['}']) == Some(
            (seq![(key, value)], key.len() + value.len() + 3int),
        ),
{
    let t = seq!['{'] + key + seq!['='] + value + seq!['}'];
    let kl = key.len() as int;
    let vl = value.len() as int;
    assert(t.len() == kl + vl + 3);
    assert(forall|k: int| 0 <= k < kl ==> t[1 + k] == key[k]);
    assert(t[1 + kl] == '=');
    assert(forall|k: int| 0 <= k < vl ==> t[2 + kl + k] == value[k]);
    assert(t[2 + kl + vl] == '}');
    assert(t[1] == key[0]);
    lemma_key_end_at(t, 2, 1 + kl);
    assert forall|k: int| 3 + kl <= k < 2 + kl + vl implies !is_white_space(t[k]) && t[k] != '}' by {
        assert(t[k] == value[k - 2 - kl]);
    }
    lemma_bare_end_at(t, 3 + kl, 2 + kl + vl);
    assert(t.subrange(1, 1 + kl) =~= key);
    assert(t.subrange(2 + kl, 2 + kl + vl) =~= value);
    assert(t[2 + kl] == value[0]);
    assert(attr_at(t, 1) == ((key, value), 2 + kl + vl));
    assert(attrs_from(t, 2 + kl + vl) == Some((Seq::<(Seq<char>, Seq<char>)>::empty(), 3 + kl + vl)));
    assert(seq![(key, value)] + Seq::<(Seq<char>, Seq<char>)>::empty() =~= seq![(key, value)]);
}

/// The characters `cs[from..to]` as a string.
fn string_between(cs: &Vec<char>, from: usize, to: usize) -> (r: String)
    requires
        from <= to <= cs@.len(),
    ensures
        r@ == cs@.subrange(from as int, to as int),
{
    let mut out = String::new();
    let mut i = from;
    while i < to
        invariant
            from <= i <= to <= cs@.len(),
            out@ == cs@.subrange(from as int, i as int),
        decreases to - i,
    {
        push_char(&mut out, cs[i]);
        proof {
            assert(out@ =~= cs@.subrange(from as int, i + 1));
        }
        i = i + 1;
    }
    out
}

/// The quoted value of `cs` from `i` on, closed by `quote`.
fn scan_quoted(cs: &Vec<char>, i: usize, quote: char) -> (r: (String, usize))
    requires
        i <= cs@.len(),
    ensures
        (r.0@, r.1 as int) == quoted(cs@, i as int, quote),
    decreases cs@.len() - i,
{
    let n = cs.len();
    if i >= n {
        (String::new(), n)
    } else if cs[i] == quote {
        (String::new(), i + 1)
    } else if cs[i] == '\\' {
        if i + 1 >= n {
            (String::new(), n)
        } else {
            let (v, e) = scan_quoted(cs, i + 2, quote);
            let mut out = String::new();
            push_char(&mut out, cs[i + 1]);
            crate::utf8text::append_all(&mut out, v.as_str());
            (out, e)
        }
    } else {
        let (v, e) = scan_quoted(cs, i + 1, quote);
        let mut out = String::new();
        push_char(&mut out, cs[i]);
        crate::utf8text::append_all(&mut out, v.as_str());
        (out, e)
    }
}

/// The first position from `i` on that ends a shorthand value (`kind` 0), a
/// key (1) or an unquoted value (2), or the end.
fn find_end(cs: &Vec<char>, i: usize, kind: u8) -> (r: usize)
    requires
        i <= cs@.len(),
        kind <= 2,
    ensures
        kind == 0 ==> r == shorthand_end(cs@, i as int),
        kind == 1 ==> r == key_end(cs@, i as int),
        kind == 2 ==> r == bare_end(cs@, i as int),
{
    let n = cs.len();
    let mut j = i;
    while j < n
        invariant
            i <= j <= n,
            n == cs@.len(),
            kind <= 2,
            kind == 0 ==> shorthand_end(cs@, i as int) == shorthand_end(cs@, j as int),
            kind == 1 ==> key_end(cs@, i as int) == key_end(cs@, j as int),
            kind == 2 ==> bare_end(cs@, i as int) == bare_end(cs@, j as int),
        decreases n - j,
    {
        let c = cs[j];
        let stop = if kind == 0 {
            is_whitespace(c) || c == '}' || c == '.' || c == '#'
        } else if kind == 1 {
            c == '=' || is_whitespace(c) || c == '}'
        } else {
            is_whitespace(c) || c == '}'
        };
        if stop {
            return j;
        }
        j = j + 1;
    }
    j
}

/// The attribute block at the start of the characters `cs`: the attributes,
/// and the number of characters the block covers.
pub(crate) fn attrs_in(cs: &Vec<char>) -> (r: Option<(Attrs, usize)>)
    ensures
        match attr_block(cs@) {
            None => r is None,
            Some((a, k)) => r matches Some((attrs, len)) && attrs_view(attrs@) == a && len == k && k <= cs@.len(),
        },
{
    let ghost t = cs@;
    let n = cs.len();
    if n == 0 || cs[0] != '{' {
        proof {
            assert(attrs_view(Seq::<(String, String)>::empty()) =~= Seq::<(Seq<char>, Seq<char>)>::empty());
        }
        return Some((Vec::new(), 0));
    }
    let mut attrs: Attrs = Vec::new();
    let mut i: usize = 1;
    let ghost mut acc: Seq<(Seq<char>, Seq<char>)> = Seq::empty();
    loop
        invariant
            t == cs@,
            n == t.len(),
            n > 0 && t[0] == '{',
            1 <= i <= n,
            attrs_view(attrs@) == acc,
            attr_block(t) == match attrs_from(t, i as int) {
                Some((rest, end)) => Some((acc + rest, end)),
                None => None,
            },
        decreases n - i,
    {
        if i >= n {
            return None;
        }
        let c = cs[i];
        if c == '}' {
            proof {
                assert(acc + Seq::<(Seq<char>, Seq<char>)>::empty() =~= acc);
            }
            return Some((attrs, i + 1));
        }
        if is_whitespace(c) {
            i = i + 1;
        } else {
            proof {
                lemma_attr_advances(t, i as int);
                lemma_ends(t, i + 1);
            }
            let ghost step = attr_at(t, i as int);
            let ghost ga = step.0;
            let ghost ge = step.1;
            let (key, value, next) = if c == '#' || c == '.' {
                let e = find_end(cs, i + 1, 0);
                let key = if c == '#' {
                    "id".to_owned()
                } else {
                    "class".to_owned()
                };
                proof {
                    reveal_strlit("id");
                    reveal_strlit("class");
                }
                (key, string_between(cs, i + 1, e), e)
            } else {
                let k = find_end(cs, i + 1, 1);
                let key = string_between(cs, i, k);
                if k < n && cs[k] == '=' {
                    proof {
                        lemma_ends(t, k + 1);
                        if k + 2 <= n {
                            lemma_ends(t, k + 2);
                        }
                    }
                    if k + 1 >= n {
                        (key, String::new(), k + 1)
                    } else if cs[k + 1] == '"' || cs[k + 1] == '\'' {
                        let (v, e) = scan_quoted(cs, k + 2, cs[k + 1]);
                        (key, v, e)
                    } else {
                        let e = find_end(cs, k + 2, 2);
                        (key, string_between(cs, k + 1, e), e)
                    }
                } else {
                    (key, String::new(), k)
                }
            };
            proof {
                assert((key@, value@) == ga);
                assert(next == ge);
            }
            let ghost before = attrs@;
            attrs.push((key, value));
            proof {
                assert(attrs_view(attrs@) =~= attrs_view(before).push(ga));
                acc = acc.push(ga);
                match attrs_from(t, next as int) {
                    Some((rest, end)) => {
                        assert(acc + rest =~= (acc.drop_last()) + (seq![ga] + rest));
                    },
                    None => {},
                }
            }
            i = next;
        }
    }
}

/// Parse the attribute block at the start of `src`: the attributes, and the
/// number of bytes the block covers (zero where `src` does not start with
/// `{`); `None` where no `}` closes the block.
pub fn parse_attrs(src: &str) -> (r: Option<(Attrs, usize)>)
    ensures
        match attr_block(src@) {
            None => r is None,
            Some((a, k)) => r matches Some((attrs, len)) && attrs_view(attrs@) == a && len == utf8(
                src@.take(k),
            ).len(),
        },
{
    let cs = chars_of(src);
    let _ = byte_len(src);
    proof {
        lemma_chars_le_bytes(src@);
    }
    match attrs_in(&cs) {
        None => None,
        Some((attrs, k)) => {
            proof {
                assert(src@ =~= src@.take(k as int) + src@.skip(k as int));
                lemma_utf8_concat(src@.take(k as int), src@.skip(k as int));
            }
            let len = prefix_bytes(&cs, k);
            Some((attrs, len))
        },
    }
}

} // verus!
