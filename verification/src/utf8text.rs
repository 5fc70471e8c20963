//! UTF-8 byte views of strings, and building strings from byte ranges.
use vstd::prelude::*;
use vstd::std_specs::iter::IteratorSpec;
use vstd::string::StringExecFns;
use vstd::utf8::{
    encode_utf8, encode_scalar, is_char_boundary, valid_utf8, is_continuation_byte,
    is_char_boundary_iff_not_is_continuation_byte, is_char_boundary_start_end_of_seq,
    valid_utf8_split, encode_utf8_valid_utf8, char_is_scalar, decode_utf8, encode_utf8_decode_utf8,
};

verus! {

/// The UTF-8 bytes of a character sequence.
pub open spec fn utf8(s: Seq<char>) -> Seq<u8> {
    encode_utf8(s)
}

/// Encoding distributes over concatenation.
pub proof fn lemma_utf8_concat(a: Seq<char>, b: Seq<char>)
    ensures
        utf8(a + b) == utf8(a) + utf8(b),
    decreases a.len(),
{
    if a.len() == 0 {
        assert(a + b =~= b);
        assert(utf8(a) =~= Seq::<u8>::empty());
        assert(utf8(a) + utf8(b) =~= utf8(b));
    } else {
        assert((a + b).drop_first() =~= a.drop_first() + b);
        assert((a + b)[0] == a[0]);
        lemma_utf8_concat(a.drop_first(), b);
        assert(utf8(a + b) =~= encode_scalar(a[0] as u32) + (utf8(a.drop_first()) + utf8(b)));
        assert(utf8(a) + utf8(b) =~= encode_scalar(a[0] as u32) + (utf8(a.drop_first()) + utf8(b)));
    }
}

/// Encoding one more character appends its bytes.
pub proof fn lemma_utf8_push(a: Seq<char>, c: char)
    ensures
        utf8(a.push(c)) == utf8(a) + utf8(seq![c]),
{
    assert(a.push(c) =~= a + seq![c]);
    lemma_utf8_concat(a, seq![c]);
}

/// A boundary of `b` at or after `start` is a boundary of the bytes from
/// `start` on, when `start` is a boundary.
pub proof fn lemma_boundary_suffix(b: Seq<u8>, start: int, end: int)
    requires
        valid_utf8(b),
        is_char_boundary(b, start),
        is_char_boundary(b, end),
        0 <= start <= end <= b.len(),
    ensures
        valid_utf8(b.subrange(start, b.len() as int)),
        is_char_boundary(b.subrange(start, b.len() as int), end - start),
{
    valid_utf8_split(b, start);
    let t = b.subrange(start, b.len() as int);
    if end == b.len() {
        is_char_boundary_start_end_of_seq(t);
    } else {
        is_char_boundary_iff_not_is_continuation_byte(b, end);
        is_char_boundary_iff_not_is_continuation_byte(t, end - start);
        assert(t[end - start] == b[end]);
    }
}

/// Within the bytes of `s` from the boundary `start` to the boundary `end`,
/// which encode `t`, the end of the encoding of any prefix of `t` is again a
/// boundary of `s`.
pub proof fn lemma_prefix_boundary(s: Seq<char>, start: int, end: int, t: Seq<char>, k: int)
    requires
        0 <= start <= end <= utf8(s).len(),
        is_char_boundary(utf8(s), start),
        is_char_boundary(utf8(s), end),
        utf8(t) == utf8(s).subrange(start, end),
        0 <= k <= t.len(),
    ensures
        start <= start + utf8(t.take(k)).len() <= end,
        is_char_boundary(utf8(s), start + utf8(t.take(k)).len()),
{
    let b = utf8(s);
    assert(t =~= t.take(k) + t.skip(k));
    lemma_utf8_concat(t.take(k), t.skip(k));
    let l: int = utf8(t.take(k)).len() as int;
    let rest = utf8(t.skip(k));
    assert(utf8(t) == utf8(t.take(k)) + rest);
    assert(utf8(t).len() == end - start);
    encode_utf8_valid_utf8(s);
    if start + l < end {
        encode_utf8_valid_utf8(t.skip(k));
        is_char_boundary_start_end_of_seq(rest);
        is_char_boundary_iff_not_is_continuation_byte(rest, 0);
        assert(b[start + l] == utf8(t)[l]);
        assert(utf8(t)[l] == rest[0]);
        is_char_boundary_iff_not_is_continuation_byte(b, start + l);
    }
}

/// The characters of `s` between the byte offsets `start` and `end`.
pub open spec fn chars_in(s: Seq<char>, start: int, end: int) -> Seq<char> {
    decode_utf8(utf8(s).subrange(start, end))
}

/// The part of `s` between the byte offsets `start` and `end`, which are
/// character boundaries.
pub fn byte_slice(s: &str, start: usize, end: usize) -> (r: &str)
    requires
        start <= end <= utf8(s@).len(),
        is_char_boundary(utf8(s@), start as int),
        is_char_boundary(utf8(s@), end as int),
    ensures
        utf8(r@) == utf8(s@).subrange(start as int, end as int),
        r@ == chars_in(s@, start as int, end as int),
{
    let ghost b = utf8(s@);
    proof {
        encode_utf8_valid_utf8(s@);
        lemma_boundary_suffix(b, start as int, end as int);
    }
    let (_, tail) = s.split_at(start);
    proof {
        assert(utf8(tail@) =~= b.subrange(start as int, b.len() as int));
    }
    let (mid, _) = tail.split_at(end - start);
    proof {
        assert(utf8(mid@) =~= b.subrange(start as int, end as int));
        encode_utf8_decode_utf8(mid@);
    }
    mid
}

/// A string has no more characters than bytes.
pub proof fn lemma_chars_le_bytes(s: Seq<char>)
    ensures
        s.len() <= utf8(s).len(),
    decreases s.len(),
{
    if s.len() > 0 {
        lemma_chars_le_bytes(s.drop_first());
        assert(encode_scalar(s[0] as u32).len() >= 1);
    }
}

/// The characters of `s`, in order.
pub fn chars_of(s: &str) -> (r: Vec<char>)
    ensures
        r@ == s@,
{
    broadcast use vstd::string::axiom_spec_iter;

    let mut out: Vec<char> = Vec::new();
    for c in iter: s.chars()
        invariant
            out@ == iter.seq().take(iter.index()),
    {
        out.push(c);
    }
    proof {
        assert(out@ =~= s@);
    }
    out
}

/// The number of bytes in the UTF-8 encoding of `c`.
pub fn char_len_utf8(c: char) -> (r: usize)
    ensures
        r == utf8(seq![c]).len(),
        1 <= r <= 4,
{
    proof {
        char_is_scalar(c);
        assert(seq![c].drop_first() =~= Seq::<char>::empty());
        assert(encode_utf8(Seq::<char>::empty()) =~= Seq::<u8>::empty());
        assert(seq![c][0] == c);
        assert(utf8(seq![c]) =~= encode_scalar(c as u32));
    }
    let v = c as u32;
    if v < 0x80 {
        1
    } else if v < 0x800 {
        2
    } else if v < 0x10000 {
        3
    } else {
        4
    }
}

/// The length of `s` in bytes; that of a string in memory always fits in
/// `usize`.
pub fn byte_len(s: &str) -> (r: usize)
    ensures
        r as int == utf8(s@).len(),
{
    s.as_bytes().len()
}

/// `String::push`: appends one character to the end of the string.
#[verifier::external_body]
pub(crate) fn push_char(s: &mut String, c: char)
    ensures
        final(s)@ == old(s)@.push(c),
{
    s.push(c);
}

/// Append the bytes `start..end` of `s`, which lie on character boundaries.
pub fn append_range(out: &mut String, s: &str, start: usize, end: usize)
    requires
        start <= end <= utf8(s@).len(),
        is_char_boundary(utf8(s@), start as int),
        is_char_boundary(utf8(s@), end as int),
    ensures
        utf8(final(out)@) == utf8(old(out)@) + utf8(s@).subrange(start as int, end as int),
{
    let ghost b = utf8(s@);
    proof {
        encode_utf8_valid_utf8(s@);
        lemma_boundary_suffix(b, start as int, end as int);
    }
    let (_, tail) = s.split_at(start);
    proof {
        assert(utf8(tail@) =~= b.subrange(start as int, b.len() as int));
    }
    let (mid, _) = tail.split_at(end - start);
    proof {
        assert(utf8(mid@) =~= b.subrange(start as int, end as int));
    }
    let ghost before = out@;
    out.append(mid);
    proof {
        lemma_utf8_concat(before, mid@);
    }
}

/// Append a whole string.
pub fn append_all(out: &mut String, s: &str)
    ensures
        utf8(final(out)@) == utf8(old(out)@) + utf8(s@),
        final(out)@ == old(out)@ + s@,
{
    let ghost before = out@;
    out.append(s);
    proof {
        lemma_utf8_concat(before, s@);
    }
}

/// Append one character.
pub fn append_char(out: &mut String, c: char)
    ensures
        utf8(final(out)@) == utf8(old(out)@) + utf8(seq![c]),
{
    let ghost before = out@;
    push_char(out, c);
    proof {
        lemma_utf8_push(before, c);
    }
}

} // verus!
