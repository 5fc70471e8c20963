//! Structures like `` `code span` `` with a configurable marker character
//! and runs of any length: the opening run is closed by the next run of
//! exactly the same length.
use vstd::prelude::*;
use vstd::utf8::is_char_boundary;

use crate::link::string_of;
use crate::utf8text::{byte_slice, char_len_utf8, chars_in, chars_of, lemma_chars_le_bytes, lemma_utf8_concat, lemma_utf8_push, utf8};

verus! {

/// What earlier scans of one inline run learned: whether a scan reached the
/// end without a closer, and for each run length the byte offset of the last
/// run of that length seen that did not close.
#[derive(Debug, Clone)]
pub struct CodePairCache {
    pub scanned: bool,
    pub max: Vec<usize>,
}

impl CodePairCache {
    /// A cache that knows nothing yet.
    pub fn new() -> (r: CodePairCache)
        ensures
            !r.scanned,
            r.max@.len() == 0,
    {
        CodePairCache { scanned: false, max: Vec::new() }
    }
}

/// Where a code span lies, without its content.
#[derive(Debug, Clone, Copy, PartialEq, Eq)]
pub struct CodePairBounds {
    /// Length of the opening (and closing) run, in markers.
    pub marker_len: usize,
    /// Bytes from the opening run's start to the closing run's end.
    pub consumed: usize,
    /// Byte offset where the content starts.
    pub content_start: usize,
    /// Byte offset where the content ends.
    pub content_end: usize,
}

/// A code span with its content: line breaks read as spaces, and one space
/// trimmed from each end when both ends are spaces and the content is not
/// all spaces.
#[derive(Debug, Clone, PartialEq, Eq)]
pub struct CodePairMatch {
    pub marker_len: usize,
    pub consumed: usize,
    pub content_start: usize,
    pub content_end: usize,
    pub content: String,
}

/// The length of the run of `m` starting at `i`.
pub open spec fn run_len(t: Seq<char>, i: int, m: char) -> nat
    decreases t.len() - i,
{
    if 0 <= i < t.len() && t[i] == m {
        1 + run_len(t, i + 1, m)
    } else {
        0
    }
}

/// Where the first run of `m` of exactly `l` markers starts, scanning from
/// `i`: runs of other lengths are skipped whole.
pub open spec fn closer_from(t: Seq<char>, i: int, m: char, l: nat) -> Option<int>
    decreases t.len() - i,
{
    if i < 0 || i >= t.len() {
        None
    } else if t[i] != m {
        closer_from(t, i + 1, m, l)
    } else if run_len(t, i, m) == l {
        Some(i)
    } else {
        proof {
            lemma_run_len_bound(t, i + 1, m);
        }
        closer_from(t, i + 1 + run_len(t, i + 1, m), m, l)
    }
}

/// `v` with entry `k` set to `x`, grown with zeros first if it is too short.
pub open spec fn set_grow(v: Seq<int>, k: int, x: int) -> Seq<int> {
    if k < v.len() {
        v.update(k, x)
    } else {
        (v + Seq::new((k + 1 - v.len()) as nat, |_j: int| 0int)).update(k, x)
    }
}

/// The cache entries after scanning `t` from `i` for a run of `l` markers:
/// each skipped run records its byte offset (`start` plus its offset in `t`)
/// under its length.
pub open spec fn recorded(v: Seq<int>, t: Seq<char>, i: int, m: char, l: nat, start: int) -> Seq<int>
    decreases t.len() - i,
{
    if i < 0 || i >= t.len() {
        v
    } else if t[i] != m {
        recorded(v, t, i + 1, m, l, start)
    } else if run_len(t, i, m) == l {
        v
    } else {
        proof {
            lemma_run_len_bound(t, i + 1, m);
        }
        recorded(
            set_grow(v, run_len(t, i, m) as int, start + utf8(t.take(i)).len()),
            t,
            i + 1 + run_len(t, i + 1, m),
            m,
            l,
            start,
        )
    }
}

/// The cache entries as integers.
pub open spec fn entries(v: Seq<usize>) -> Seq<int> {
    v.map_values(|x: usize| x as int)
}

/// What the cache says of runs of length `l`: the offset recorded, or 0.
pub open spec fn cached(v: Seq<int>, l: int) -> int {
    if 0 <= l < v.len() {
        v[l]
    } else {
        0
    }
}

/// A run starting at `i` ends within the text.
pub proof fn lemma_run_len_bound(t: Seq<char>, i: int, m: char)
    requires
        0 <= i <= t.len(),
    ensures
        i + run_len(t, i, m) <= t.len(),
    decreases t.len() - i,
{
    if i < t.len() && t[i] == m {
        lemma_run_len_bound(t, i + 1, m);
    }
}

/// The bytes of `t[..i + 1]` are those of `t[..i]` and of `t[i]`.
proof fn lemma_take_push(t: Seq<char>, i: int)
    requires
        0 <= i < t.len(),
    ensures
        utf8(t.take(i + 1)).len() == utf8(t.take(i)).len() + utf8(seq![t[i]]).len(),
        utf8(t.take(i + 1)).len() <= utf8(t).len(),
{
    assert(t.take(i + 1) =~= t.take(i).push(t[i]));
    lemma_utf8_push(t.take(i), t[i]);
    assert(t =~= t.take(i + 1) + t.skip(i + 1));
    lemma_utf8_concat(t.take(i + 1), t.skip(i + 1));
}

/// Whether `c1` is the cache after a scan for the code span opening at byte
/// `start` of `s` (up to byte `end`) with cache `c0`: unchanged when the scan
/// stops before searching; otherwise the skipped runs are recorded and a scan
/// that finds no closer marks the cache as scanned.
pub open spec fn cache_step(
    marker: char,
    s: Seq<char>,
    start: int,
    end: int,
    follows: bool,
    c0: CodePairCache,
    c1: CodePairCache,
) -> bool {
    let t = chars_in(s, start, end);
    let l = run_len(t, 0, marker);
    let v0 = entries(c0.max@);
    if l == 0 || follows || (c0.scanned && cached(v0, l as int) <= start) {
        c1 == c0
    } else {
        &&& entries(c1.max@) == recorded(v0, t, l as int, marker, l, start)
        &&& c1.scanned == (c0.scanned || closer_from(t, l as int, marker, l) is None)
    }
}

/// The code span opening at byte `start` of `s`, scanned up to byte `end`
/// with a cache that says `scanned` and holds `v`, and the index in
/// `chars_in(s, start, end)` where its closing run starts.
pub open spec fn span_of(
    marker: char,
    s: Seq<char>,
    start: int,
    end: int,
    follows: bool,
    scanned: bool,
    v: Seq<int>,
) -> Option<(CodePairBounds, int)> {
    let t = chars_in(s, start, end);
    let l = run_len(t, 0, marker);
    if l == 0 || follows || (scanned && cached(v, l as int) <= start) {
        None
    } else {
        match closer_from(t, l as int, marker, l) {
            Some(j) => Some(
                (
                    CodePairBounds {
                        marker_len: l as usize,
                        consumed: utf8(t.take(j + l)).len() as usize,
                        content_start: (start + utf8(t.take(l as int)).len()) as usize,
                        content_end: (start + utf8(t.take(j)).len()) as usize,
                    },
                    j,
                ),
            ),
            None => None,
        }
    }
}

/// The bounds of the code span opening at byte `start` of `s`.
pub open spec fn bounds_of(
    marker: char,
    s: Seq<char>,
    start: int,
    end: int,
    follows: bool,
    scanned: bool,
    v: Seq<int>,
) -> Option<CodePairBounds> {
    match span_of(marker, s, start, end, follows, scanned, v) {
        Some((b, _j)) => Some(b),
        None => None,
    }
}

/// A closing run found from `i` starts at or after `i`, inside the text.
proof fn lemma_closer_from_range(t: Seq<char>, i: int, m: char, l: nat)
    requires
        0 <= i,
    ensures
        closer_from(t, i, m, l) matches Some(j) ==> i <= j < t.len(),
    decreases t.len() - i,
{
    if i < t.len() {
        if t[i] != m {
            lemma_closer_from_range(t, i + 1, m, l);
        } else if run_len(t, i, m) != l {
            lemma_run_len_bound(t, i + 1, m);
            lemma_closer_from_range(t, i + 1 + run_len(t, i + 1, m), m, l);
        }
    }
}

/// The bytes of a longer prefix are at least those of a shorter one.
proof fn lemma_take_mono(t: Seq<char>, a: int, b: int)
    requires
        0 <= a <= b <= t.len(),
    ensures
        utf8(t.take(a)).len() <= utf8(t.take(b)).len(),
{
    assert(t.take(b) =~= t.take(a) + t.subrange(a, b));
    lemma_utf8_concat(t.take(a), t.subrange(a, b));
}

/// Find the code span opening at byte `start` of `src`, and the index of
/// its closing run among the characters from `start` to `end`.
fn find_code_pair(
    marker: char,
    src: &str,
    start: usize,
    end: usize,
    follows_marker: bool,
    cache: &mut CodePairCache,
) -> (r: Option<(CodePairBounds, usize)>)
    requires
        start <= end <= utf8(src@).len(),
        is_char_boundary(utf8(src@), start as int),
        is_char_boundary(utf8(src@), end as int),
    ensures
        cache_step(marker, src@, start as int, end as int, follows_marker, *old(cache), *final(cache)),
        match span_of(marker, src@, start as int, end as int, follows_marker, old(cache).scanned, entries(old(cache).max@)) {
            Some((b, j)) => r == Some((b, j as usize)),
            None => r is None,
        },
{
    let part = byte_slice(src, start, end);
    let cs = chars_of(part);
    let ghost t = cs@;
    let n = cs.len();
    proof {
        assert(utf8(t).len() == end - start);
    }
    if n == 0 || cs[0] != marker || follows_marker {
        return None;
    }
    let w = char_len_utf8(marker);
    let mut l: usize = 0;
    let mut bl: usize = 0;
    while l < n && cs[l] == marker
        invariant
            t == cs@,
            n == t.len(),
            utf8(t).len() == end - start,
            l <= n,
            bl == utf8(t.take(l as int)).len(),
            bl <= end - start,
            w == utf8(seq![marker]).len(),
            run_len(t, 0, marker) == l + run_len(t, l as int, marker),
        decreases n - l,
    {
        proof {
            lemma_take_push(t, l as int);
        }
        bl = bl + w;
        l = l + 1;
    }
    let ghost v0 = entries(cache.max@);
    let known = if l < cache.max.len() {
        cache.max[l]
    } else {
        0
    };
    if cache.scanned && known <= start {
        return None;
    }
    proof {
        assert(known == cached(v0, l as int));
    }
    let mut i: usize = l;
    let mut bi: usize = bl;
    while i < n
        invariant
            t == cs@,
            n == t.len(),
            utf8(t).len() == end - start,
            end <= usize::MAX,
            l == run_len(t, 0, marker),
            l >= 1,
            bl == utf8(t.take(l as int)).len(),
            bl <= end - start,
            w == utf8(seq![marker]).len(),
            i <= n,
            bi == utf8(t.take(i as int)).len(),
            bi <= end - start,
            cache.scanned == old(cache).scanned,
            v0 == entries(old(cache).max@),
            t == chars_in(src@, start as int, end as int),
            !follows_marker,
            !(old(cache).scanned && cached(v0, l as int) <= start),
            closer_from(t, l as int, marker, l as nat) == closer_from(t, i as int, marker, l as nat),
            recorded(v0, t, l as int, marker, l as nat, start as int) == recorded(
                entries(cache.max@),
                t,
                i as int,
                marker,
                l as nat,
                start as int,
            ),
        decreases n - i,
    {
        if cs[i] != marker {
            proof {
                lemma_take_push(t, i as int);
            }
            bi = bi + char_len_utf8(cs[i]);
            i = i + 1;
        } else {
            let j = i;
            let bj = bi;
            let mut k: usize = 0;
            while i < n && cs[i] == marker
                invariant
                    t == cs@,
                    n == t.len(),
                    utf8(t).len() == end - start,
                    j <= i <= n,
                    k == i - j,
                    bi == utf8(t.take(i as int)).len(),
                    bi <= end - start,
                    bj == utf8(t.take(j as int)).len(),
                    bj <= end - start,
                    w == utf8(seq![marker]).len(),
                    run_len(t, j as int, marker) == k + run_len(t, i as int, marker),
                decreases n - i,
            {
                proof {
                    lemma_take_push(t, i as int);
                }
                bi = bi + w;
                i = i + 1;
                k = k + 1;
            }
            proof {
                assert(run_len(t, j as int, marker) == k);
            }
            if k == l {
                return Some(
                    (CodePairBounds { marker_len: l, consumed: bi, content_start: start + bl, content_end: start + bj }, j),
                );
            }
            let ghost before = entries(cache.max@);
            while cache.max.len() <= k
                invariant
                    entries(cache.max@) == before + Seq::new((entries(cache.max@).len() - before.len()) as nat, |_x: int| 0int),
                    entries(cache.max@).len() >= before.len(),
                    entries(cache.max@).len() == before.len() || entries(cache.max@).len() <= k + 1,
                    cache.scanned == old(cache).scanned,
                decreases k + 1 - cache.max@.len(),
            {
                let ghost pre = entries(cache.max@);
                cache.max.push(0);
                proof {
                    assert(entries(cache.max@) =~= pre.push(0int));
                    assert(entries(cache.max@) =~= before + Seq::new((entries(cache.max@).len() - before.len()) as nat, |_x: int| 0int));
                }
            }
            cache.max.set(k, start + bj);
            proof {
                assert(entries(cache.max@) =~= set_grow(before, k as int, start + utf8(t.take(j as int)).len()));
            }
        }
    }
    cache.scanned = true;
    None
}

/// Find the code span whose opening run starts at byte `start` of `src`,
/// looking no further than byte `end`.
///
/// There is none when the text there does not start with `marker`, when
/// `follows_marker` says the run continues one that started earlier, when
/// the cache already knows that no run of the opening length comes after
/// `start`, or when no later run has the opening length. Runs of other
/// lengths on the way are recorded in the cache, and a scan that finds no
/// closer marks it as scanned.
pub fn scan_code_pair_bounds(
    marker: char,
    src: &str,
    start: usize,
    end: usize,
    follows_marker: bool,
    cache: &mut CodePairCache,
) -> (r: Option<CodePairBounds>)
    requires
        start <= end <= utf8(src@).len(),
        is_char_boundary(utf8(src@), start as int),
        is_char_boundary(utf8(src@), end as int),
    ensures
        r == bounds_of(marker, src@, start as int, end as int, follows_marker, old(cache).scanned, entries(old(cache).max@)),
        cache_step(marker, src@, start as int, end as int, follows_marker, *old(cache), *final(cache)),
{
    match find_code_pair(marker, src, start, end, follows_marker, cache) {
        Some((b, _j)) => Some(b),
        None => None,
    }
}

/// The content of a span as the text shows it: line breaks read as spaces.
pub open spec fn spaced(u: Seq<char>) -> Seq<char> {
    u.map_values(|c: char| if c == '\n' { ' ' } else { c })
}

/// Whether one space is trimmed from each end of the content `u`: both ends
/// are spaces and not everything is.
pub open spec fn trims(u: Seq<char>) -> bool {
    &&& u.len() > 0
    &&& u[0] == ' '
    &&& u[u.len() - 1] == ' '
    &&& exists|i: int| 0 <= i < u.len() && u[i] != ' '
}

/// Find the code span whose opening run starts at byte `start` of `src`, as
/// `scan_code_pair_bounds` does, with its content: line breaks read as
/// spaces, and when the content starts and ends with a space and is not all
/// spaces, one space is trimmed from each end (and the content's bounds
/// move in by one byte each).
pub fn scan_code_pair(
    marker: char,
    src: &str,
    start: usize,
    end: usize,
    follows_marker: bool,
    cache: &mut CodePairCache,
) -> (r: Option<CodePairMatch>)
    requires
        start <= end <= utf8(src@).len(),
        is_char_boundary(utf8(src@), start as int),
        is_char_boundary(utf8(src@), end as int),
    ensures
        cache_step(marker, src@, start as int, end as int, follows_marker, *old(cache), *final(cache)),
        match span_of(marker, src@, start as int, end as int, follows_marker, old(cache).scanned, entries(old(cache).max@)) {
            None => r is None,
            Some((b, j)) => {
                let u = spaced(chars_in(src@, start as int, end as int).subrange(b.marker_len as int, j));
                r matches Some(m) && m.marker_len == b.marker_len && m.consumed == b.consumed && if trims(u) {
                    m.content@ == u.subrange(1, u.len() - 1) && m.content_start == b.content_start + 1
                        && m.content_end == b.content_end - 1
                } else {
                    m.content@ == u && m.content_start == b.content_start && m.content_end == b.content_end
                }
            },
        },
{
    let found = find_code_pair(marker, src, start, end, follows_marker, cache);
    match found {
        None => None,
        Some((b, j)) => {
            let part = byte_slice(src, start, end);
            let cs = chars_of(part);
            let ghost t = cs@;
            let nchars = cs.len();
            let l = b.marker_len;
            let mut u: Vec<char> = Vec::new();
            let mut non_space = false;
            let mut i = l;
            proof {
                lemma_run_len_bound(t, 0, marker);
                lemma_closer_from_range(t, run_len(t, 0, marker) as int, marker, run_len(t, 0, marker));
                assert(nchars == t.len());
                assert(l == run_len(t, 0, marker));
                assert(closer_from(t, l as int, marker, l as nat) == Some(j as int));
            }
            while i < j
                invariant
                    t == cs@,
                    t == chars_in(src@, start as int, end as int),
                    l <= i <= j <= t.len(),
                    u@ == spaced(t.subrange(l as int, i as int)),
                    non_space <==> exists|x: int| 0 <= x < u@.len() && u@[x] != ' ',
                decreases j - i,
            {
                let c = cs[i];
                let d = if c == '\n' {
                    ' '
                } else {
                    c
                };
                let ghost before = u@;
                u.push(d);
                if d != ' ' {
                    non_space = true;
                }
                proof {
                    assert(u@ =~= spaced(t.subrange(l as int, i + 1)));
                    if non_space {
                        if d != ' ' {
                            assert(u@[u@.len() - 1] != ' ');
                        } else {
                            let x = choose|x: int| 0 <= x < before.len() && before[x] != ' ';
                            assert(u@[x] == before[x]);
                        }
                    } else {
                        assert forall|x: int| 0 <= x < u@.len() implies u@[x] == ' ' by {
                            if x < before.len() {
                                assert(u@[x] == before[x]);
                            }
                        }
                    }
                }
                i = i + 1;
            }
            let n = u.len();
            if n > 0 && u[0] == ' ' && u[n - 1] == ' ' && non_space {
                proof {
                    lemma_take_push(t, l as int);
                    lemma_chars_le_bytes(seq![t[l as int]]);
                    lemma_take_mono(t, l + 1, j as int);
                    lemma_take_mono(t, j as int, t.len() as int);
                    assert(t.take(t.len() as int) =~= t);
                }
                let content = string_of(&u, 1, n - 1);
                Some(
                    CodePairMatch {
                        marker_len: b.marker_len,
                        consumed: b.consumed,
                        content_start: b.content_start + 1,
                        content_end: b.content_end - 1,
                        content,
                    },
                )
            } else {
                let content = string_of(&u, 0, n);
                proof {
                    assert(u@.subrange(0, n as int) =~= u@);
                }
                Some(
                    CodePairMatch {
                        marker_len: b.marker_len,
                        consumed: b.consumed,
                        content_start: b.content_start,
                        content_end: b.content_end,
                        content,
                    },
                )
            }
        },
    }
}

} // verus!
