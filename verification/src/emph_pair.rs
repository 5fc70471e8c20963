//! Pairing of emphasis-like delimiter runs (`*em*`, `**strong**`,
//! `~~strikethrough~~`, `==mark==`): a closing run is matched against
//! earlier opening runs of the same marker, and the tokens between become the
//! children of a new node.
use vstd::prelude::*;

use crate::node::{
    forest_text, own_text, tree_text, CustomValue, Em, Mark, Node, NodeValue, SourcePos, Strikethrough, Strong, Text,
};
use crate::utf8text::{append_all, byte_len, char_len_utf8, lemma_chars_le_bytes, push_char, utf8};

verus! {

/// A run of delimiter characters that may still open or close a pair.
#[derive(Clone, Copy, Debug, PartialEq, Eq, Structural)]
pub struct EmphMarker {
    /// The delimiter character.
    pub marker: char,
    /// Length of the whole run.
    pub length: usize,
    /// Length of the run not yet matched.
    pub remaining: usize,
    /// Whether the run can open a pair.
    pub open: bool,
    /// Whether the run can close a pair.
    pub close: bool,
}

/// The node that a matched pair of runs becomes.
#[derive(Clone, Copy, Debug)]
pub enum PairNode {
    Em,
    Strong,
    Strikethrough,
    Mark,
    /// A node defined outside the built-in kinds, by type name.
    Custom(&'static str),
}

/// The structures registered for one marker character: the node made for a
/// pair of runs of length 1, 2 and 3, where one is registered.
#[derive(Clone, Copy, Debug)]
pub struct PairConfig {
    pub fns: [Option<PairNode>; 3],
}

/// Whether `v` is the node value that `p` makes for `marker`.
pub open spec fn is_pair_value(v: NodeValue, p: PairNode, marker: char) -> bool {
    match p {
        PairNode::Em => v == NodeValue::Em(Em { marker }),
        PairNode::Strong => v == NodeValue::Strong(Strong { marker }),
        PairNode::Strikethrough => v == NodeValue::Strikethrough(Strikethrough { marker }),
        PairNode::Mark => v == NodeValue::Mark(Mark),
        PairNode::Custom(name) => v matches NodeValue::Custom(c) && c.name@ == name@ && c.data@.len() == 0,
    }
}

/// Whether `v` is the node value of a pair of some registered length.
pub open spec fn is_registered_pair(v: NodeValue, config: PairConfig, marker: char) -> bool {
    exists|l: int| 1 <= l <= 3 && (#[trigger] config.fns@[l - 1] matches Some(p) && is_pair_value(v, p, marker))
}

/// Number of UTF-8 bytes of `c`.
pub open spec fn clen(c: char) -> nat {
    utf8(seq![c]).len()
}

/// A delimiter token's source span is long enough for its unmatched part.
pub open spec fn marker_fits(n: Node) -> bool {
    match n.node_value {
        NodeValue::EmphMarker(m) => match n.srcmap {
            Some(p) => p.start + m.remaining * clen(m.marker) <= p.end,
            None => true,
        },
        _ => true,
    }
}

/// Every delimiter token of `s` fits its span.
pub open spec fn markers_fit(s: Seq<Node>) -> bool {
    forall|j: int| 0 <= j < s.len() ==> #[trigger] marker_fits(s[j])
}

/// No delimiter token of `s` has children.
pub open spec fn childless_markers(s: Seq<Node>) -> bool {
    forall|j: int| 0 <= j < s.len() && (#[trigger] s[j]).node_value is EmphMarker ==> s[j].children@.len() == 0
}

/// The CommonMark "rule of 3": a run that can both open and close cannot
/// pair with another when their lengths add up to a multiple of 3, unless
/// both lengths are multiples of 3.
pub open spec fn odd_match(opener: EmphMarker, closer: EmphMarker) -> bool {
    &&& opener.close || closer.open
    &&& (opener.length + closer.length) % 3 == 0
    &&& (opener.length % 3 != 0 || closer.length % 3 != 0)
}

/// Whether `opener` and `closer` are kept apart by the rule of 3.
pub fn is_odd_match(opener: &EmphMarker, closer: &EmphMarker) -> (r: bool)
    ensures
        r == odd_match(*opener, *closer),
{
    let a = opener.length % 3;
    let b = closer.length % 3;
    proof {
        assert((opener.length + closer.length) % 3 == (a + b) % 3) by (nonlinear_arith)
            requires
                a == opener.length % 3,
                b == closer.length % 3,
        ;
    }
    (opener.close || closer.open) && (a + b) % 3 == 0 && (a != 0 || b != 0)
}

/// The node value that `p` makes for `marker`.
fn make_pair(p: PairNode, marker: char) -> (r: NodeValue)
    ensures
        is_pair_value(r, p, marker),
        !(r is EmphMarker),
        own_text(r) == Seq::<char>::empty(),
{
    match p {
        PairNode::Em => NodeValue::Em(Em { marker }),
        PairNode::Strong => NodeValue::Strong(Strong { marker }),
        PairNode::Strikethrough => NodeValue::Strikethrough(Strikethrough { marker }),
        PairNode::Mark => NodeValue::Mark(Mark),
        PairNode::Custom(name) => NodeValue::Custom(CustomValue { name: name.to_owned(), data: String::new() }),
    }
}

/// The delimiter run of a token, if it is one.
fn marker_value(n: &Node) -> (r: Option<EmphMarker>)
    ensures
        r is Some <==> n.node_value is EmphMarker,
        r matches Some(m) ==> n.node_value == NodeValue::EmphMarker(m),
{
    match &n.node_value {
        NodeValue::EmphMarker(m) => Some(*m),
        _ => None,
    }
}

/// The longest pair length, at most `m`, that has a registered node; 0 if
/// there is none.
pub open spec fn longest_registered(fns: Seq<Option<PairNode>>, m: int) -> int
    decreases m,
{
    if m <= 0 {
        0
    } else if fns[m - 1] is Some {
        m
    } else {
        longest_registered(fns, m - 1)
    }
}

/// The length of one pairing step between runs with `a` and `b` unmatched
/// markers: the longest registered length up to 3 that both allow.
pub open spec fn step_len(fns: Seq<Option<PairNode>>, a: int, b: int) -> int {
    let m = if a < b {
        a
    } else {
        b
    };
    longest_registered(fns, if m < 3 {
        m
    } else {
        3
    })
}

/// The longest registered pair length that is at most `max`, or 0.
fn pick_len(config: &PairConfig, max: usize) -> (r: usize)
    requires
        max <= 3,
    ensures
        r <= max,
        r == longest_registered(config.fns@, max as int),
        r > 0 ==> config.fns@[r - 1] is Some,
        forall|l: int| r <= l < max ==> #[trigger] config.fns@[l] is None,
{
    let mut m = max;
    while m > 0
        invariant
            m <= max <= 3,
            longest_registered(config.fns@, max as int) == longest_registered(config.fns@, m as int),
            forall|l: int| m <= l < max ==> #[trigger] config.fns@[l] is None,
        decreases m,
    {
        if config.fns[m - 1].is_some() {
            return m;
        }
        m = m - 1;
    }
    0
}

/// The text of a forest is the text of its parts, in order.
pub proof fn lemma_forest_text_concat(a: Seq<Node>, b: Seq<Node>)
    ensures
        forest_text(a + b) == forest_text(a) + forest_text(b),
    decreases b.len(),
{
    if b.len() == 0 {
        assert(a + b =~= a);
        assert(forest_text(a) + forest_text(b) =~= forest_text(a));
    } else {
        let ab = a + b;
        let b1 = b.subrange(0, b.len() - 1);
        assert(ab.subrange(0, ab.len() - 1) =~= a + b1);
        assert(ab[ab.len() - 1] == b[b.len() - 1]);
        lemma_forest_text_concat(a, b1);
        assert(forest_text(ab) =~= forest_text(a) + forest_text(b));
    }
}

/// The text of a single tree as a forest.
pub proof fn lemma_forest_text_single(n: Node)
    ensures
        forest_text(seq![n]) == tree_text(n),
{
    assert(seq![n].subrange(0, 0) =~= Seq::<Node>::empty());
    assert(forest_text(Seq::<Node>::empty()) + tree_text(n) =~= tree_text(n));
}

/// Taking `l` of `rem` units of `w` bytes each from one end of a span keeps
/// the rest of the units inside it.
proof fn lemma_trim(start: int, end: int, rem: int, l: int, w: int)
    requires
        0 < l <= rem,
        0 < w,
        start + rem * w <= end,
    ensures
        l * w <= rem * w,
        start + l * w + (rem - l) * w <= end,
        start + (rem - l) * w <= end - l * w,
{
    assert(l * w <= rem * w) by (nonlinear_arith)
        requires
            0 < l <= rem,
            0 < w,
    ;
    assert(l * w + (rem - l) * w == rem * w) by (nonlinear_arith);
}

/// One pairing step: the tokens after the opener at `idx` move into the new
/// node `nt`, and the opener is kept (as `kept`) or dropped.
proof fn lemma_pair_step(before: Seq<Node>, idx: int, kept: Option<Node>, nt: Node, after: Seq<Node>)
    requires
        0 <= idx < before.len(),
        before[idx].node_value is EmphMarker,
        nt.children@ == before.subrange(idx + 1, before.len() as int),
        own_text(nt.node_value) == Seq::<char>::empty(),
        !(nt.node_value is EmphMarker),
        kept matches Some(k) ==> k.node_value is EmphMarker && marker_fits(k) && k.children == before[idx].children,
        after == before.subrange(0, idx) + (match kept {
            Some(k) => seq![k],
            None => Seq::empty(),
        }) + seq![nt],
        markers_fit(before),
    ensures
        forall|j: int| #![trigger before[j]] 0 <= j < idx ==> after[j] == before[j],
        markers_fit(after),
        childless_markers(before) ==> childless_markers(after) && forest_text(after) == forest_text(before),
{
    let prefix = before.subrange(0, idx);
    let mid: Seq<Node> = match kept {
        Some(k) => seq![k],
        None => Seq::empty(),
    };
    assert forall|j: int| #![trigger before[j]] 0 <= j < idx implies after[j] == before[j] by {
        assert(after[j] == prefix[j]);
    }
    assert forall|j: int| 0 <= j < after.len() implies #[trigger] marker_fits(after[j]) by {
        if j < idx {
            assert(after[j] == before[j]);
            assert(marker_fits(before[j]));
        } else if j < idx + mid.len() {
            assert(after[j] == mid[j - idx]);
        } else {
            assert(after[j] == nt);
        }
    }
    if childless_markers(before) {
        let x = before.subrange(idx + 1, before.len() as int);
        let o = before[idx];
        assert(o.children@.len() == 0);
        assert(before =~= prefix + seq![o] + x);
        lemma_forest_text_concat(prefix + seq![o], x);
        lemma_forest_text_concat(prefix, seq![o]);
        lemma_forest_text_single(o);
        assert(o.children@ =~= Seq::<Node>::empty());
        assert(tree_text(o) =~= Seq::<char>::empty());
        assert(tree_text(nt) =~= forest_text(x));
        lemma_forest_text_single(nt);
        lemma_forest_text_concat(prefix + mid, seq![nt]);
        lemma_forest_text_concat(prefix, mid);
        match kept {
            Some(k) => {
                lemma_forest_text_single(k);
                assert(k.children@ =~= Seq::<Node>::empty());
                assert(tree_text(k) =~= Seq::<char>::empty());
            },
            None => {
                assert(forest_text(mid) =~= Seq::<char>::empty());
            },
        }
        assert(forest_text(after) =~= forest_text(before));
        assert forall|j: int|
            0 <= j < after.len() && (#[trigger] after[j]).node_value is EmphMarker implies after[j].children@.len() == 0 by {
            if j < idx {
                assert(after[j] == before[j]);
            } else if j < idx + mid.len() {
                assert(after[j] == mid[j - idx]);
            } else {
                assert(after[j] == nt);
            }
        }
    }
}

/// One pairing step between the opener at `idx`, followed by the tokens
/// after it, and the closer: returns whether a pair was made.
#[verifier::rlimit(60)]
fn pair_step(
    children: &mut Vec<Node>,
    idx: usize,
    config: &PairConfig,
    w: usize,
    opener: &mut EmphMarker,
    closer: &mut EmphMarker,
    closer_token: &mut Node,
) -> (made: bool)
    requires
        idx < old(children)@.len(),
        old(children)@[idx as int].node_value == NodeValue::EmphMarker(*old(opener)),
        old(children)@[idx as int].srcmap matches Some(p) ==> p.start + old(opener).remaining * w <= p.end,
        old(opener).remaining > 0,
        old(closer).remaining > 0,
        old(opener).marker == old(closer).marker,
        w == clen(old(closer).marker),
        1 <= w <= 4,
        old(closer_token).srcmap matches Some(p) ==> p.start + old(closer).remaining * w <= p.end,
        markers_fit(old(children)@),
    ensures
        made == (step_len(config.fns@, old(opener).remaining as int, old(closer).remaining as int) > 0),
        !made ==> *final(children) == *old(children) && *final(opener) == *old(opener) && *final(closer)
            == *old(closer) && *final(closer_token) == *old(closer_token),
        made ==> {
            let l = old(closer).remaining - final(closer).remaining;
            let o = old(children)@[idx as int];
            let nt = final(children)@.last();
            &&& l == step_len(config.fns@, old(opener).remaining as int, old(closer).remaining as int)
            &&& config.fns@[l - 1] matches Some(pn) && is_pair_value(nt.node_value, pn, old(closer).marker)
            &&& nt.children@ == old(children)@.subrange(idx + 1, old(children)@.len() as int)
            &&& nt.attrs@.len() == 0
            &&& final(closer_token).srcmap == (match old(closer_token).srcmap {
                Some(p) => Some(SourcePos { start: (p.start + l * w) as usize, end: p.end }),
                None => None,
            })
            &&& nt.srcmap == Some(
                SourcePos {
                    start: match o.srcmap {
                        Some(p) => (p.end - l * w) as usize,
                        None => 0usize,
                    },
                    end: match old(closer_token).srcmap {
                        Some(p) => (p.start + l * w) as usize,
                        None => 0usize,
                    },
                },
            )
            &&& final(children)@.subrange(0, idx as int) == old(children)@.subrange(0, idx as int)
            &&& final(opener).remaining > 0 ==> final(children)@[idx as int].children == o.children
                && final(children)@[idx as int].attrs == o.attrs && final(children)@[idx as int].srcmap == (
            match o.srcmap {
                Some(p) => Some(SourcePos { start: p.start, end: (p.end - l * w) as usize }),
                None => None,
            })
            &&& 0 < l
            &&& final(opener).remaining == old(opener).remaining - l
            &&& *final(opener) == (EmphMarker { remaining: final(opener).remaining, ..*old(opener) })
            &&& *final(closer) == (EmphMarker { remaining: final(closer).remaining, ..*old(closer) })
            &&& final(closer_token).node_value == old(closer_token).node_value
            &&& final(closer_token).children == old(closer_token).children
            &&& final(closer_token).attrs == old(closer_token).attrs
            &&& (old(closer_token).srcmap is Some <==> final(closer_token).srcmap is Some)
            &&& (final(closer_token).srcmap matches Some(p) ==> p.start + final(closer).remaining * w <= p.end)
            &&& forall|j: int|
                #![trigger old(children)@[j]]
                0 <= j < idx ==> final(children)@[j] == old(children)@[j]
            &&& markers_fit(final(children)@)
            &&& final(children)@.len() > 0
            &&& !(final(children)@.last().node_value is EmphMarker)
            &&& is_registered_pair(final(children)@.last().node_value, *config, old(closer).marker)
            &&& final(opener).remaining > 0 ==> final(children)@.len() == idx + 2
                && final(children)@[idx as int].node_value == NodeValue::EmphMarker(*final(opener))
                && (final(children)@[idx as int].srcmap matches Some(p) ==> p.start + final(opener).remaining * w <= p.end)
            &&& final(opener).remaining == 0 ==> final(children)@.len() == idx + 1
            &&& childless_markers(old(children)@) ==> childless_markers(final(children)@)
                && forest_text(final(children)@) == forest_text(old(children)@)
        },
{
    let max_len = if opener.remaining < closer.remaining {
        opener.remaining
    } else {
        closer.remaining
    };
    let max_len = if max_len < 3 {
        max_len
    } else {
        3
    };
    let marker_len = pick_len(config, max_len);
    if marker_len == 0 {
        false
    } else {
        let p = config.fns[marker_len - 1].unwrap();
        assert(marker_len * w <= 12) by (nonlinear_arith)
            requires
                marker_len <= 3,
                w <= 4,
        ;
        let mark_bytes = marker_len * w;
        let ghost before = children@;
        let ghost orem = opener.remaining;
        let ghost crem = closer.remaining;
        closer.remaining = closer.remaining - marker_len;
        opener.remaining = opener.remaining - marker_len;
        let mut new_token = Node::new(make_pair(p, closer.marker));
        let total = children.len();
        assert(idx < total);
        new_token.children = children.split_off(idx + 1);
        let mut end_map_pos: usize = 0;
        match closer_token.srcmap {
            Some(map) => {
                proof {
                    lemma_trim(map.start as int, map.end as int, crem as int, marker_len as int, w as int);
                }
                closer_token.srcmap = Some(SourcePos::new(map.start + mark_bytes, map.end));
                end_map_pos = map.start + mark_bytes;
            },
            None => {},
        }
        let mut onode = children.pop().unwrap();
        let mut start_map_pos: usize = 0;
        match onode.srcmap {
            Some(map) => {
                proof {
                    lemma_trim(map.start as int, map.end as int, orem as int, marker_len as int, w as int);
                }
                onode.srcmap = Some(SourcePos::new(map.start, map.end - mark_bytes));
                start_map_pos = map.end - mark_bytes;
            },
            None => {},
        }
        new_token.srcmap = Some(SourcePos::new(start_map_pos, end_map_pos));
        let ghost prefix = children@;
        let ghost nt = new_token;
        if opener.remaining > 0 {
            onode.node_value = NodeValue::EmphMarker(*opener);
            children.push(onode);
        }
        children.push(new_token);
        proof {
            assert(prefix =~= before.subrange(0, idx as int));
            assert(nt.children@ =~= before.subrange(idx + 1, before.len() as int));
            assert(is_registered_pair(nt.node_value, *config, closer.marker)) by {
                assert(config.fns@[marker_len - 1] == Some(p));
            }
            let kept: Option<Node> = if opener.remaining > 0 {
                Some(children@[idx as int])
            } else {
                None
            };
            assert(children@ =~= before.subrange(0, idx as int) + (match kept {
                Some(k) => seq![k],
                None => Seq::<Node>::empty(),
            }) + seq![nt]);
            lemma_pair_step(before, idx as int, kept, nt, children@);
            assert(children@.subrange(0, idx as int) =~= before.subrange(0, idx as int));
        }
        true
    }
}

/// Whether token `n` is an opening run that the closing run `c` pairs with:
/// it can open, has the same marker, is not kept apart by the rule of 3, and
/// some registered pair length fits both unmatched lengths.
pub open spec fn pairs_with(n: Node, c: EmphMarker, fns: Seq<Option<PairNode>>) -> bool {
    &&& n.node_value matches NodeValue::EmphMarker(o)
    &&& o.open
    &&& o.marker == c.marker
    &&& !odd_match(o, c)
    &&& step_len(fns, o.remaining as int, c.remaining as int) > 0
}

/// The index of the nearest token at or below `i`, and not below `lo`, that
/// `c` pairs with.
pub open spec fn nearest_opener(s: Seq<Node>, c: EmphMarker, fns: Seq<Option<PairNode>>, lo: int, i: int) -> Option<int>
    decreases i + 1,
{
    if i < 0 || i < lo {
        None
    } else if pairs_with(s[i], c, fns) {
        Some(i)
    } else {
        nearest_opener(s, c, fns, lo, i - 1)
    }
}

/// The unmatched length of the run at `j` of `s`.
pub open spec fn run_remaining(s: Seq<Node>, j: int) -> int {
    s[j].node_value->EmphMarker_0.remaining as int
}

/// Match the closing run `closer_token`, just scanned after the inline tokens
/// `children`, against earlier opening runs.
///
/// Openers are looked for from the end back to the lower bound that
/// `bottom` keeps for the closer's kind (whether it can open, and its length
/// modulo 3). An opener must be able to open, have the same marker and not
/// be kept apart by the rule of 3. For each, pairs are made while both runs
/// have unmatched length, each of the longest registered length (at most 3)
/// that both allow; the tokens after the opener become the children of the
/// new node, both spans lose the matched bytes, and a fully matched opener is
/// dropped. When no pair was made the lower bound becomes the last index.
/// The result is the closer with its unmatched length, or the last new node
/// when the closer was fully matched.
#[verifier::rlimit(80)]
#[verifier::spinoff_prover]
pub fn scan_and_match_delimiters(
    children: &mut Vec<Node>,
    bottom: &mut [usize; 6],
    config: &PairConfig,
    closer_token: Node,
) -> (r: Node)
    requires
        closer_token.node_value is EmphMarker,
        marker_fits(closer_token),
        markers_fit(old(children)@),
    ensures
        ({
            let c = closer_token.node_value->EmphMarker_0;
            let param = (if c.open { 3int } else { 0int }) + c.length % 3;
            let n0 = old(children)@.len();
            &&& (n0 == 0 || !c.close) ==> *final(children) == *old(children) && *final(bottom) == *old(bottom)
                && r == closer_token
            &&& markers_fit(final(children)@)
            &&& forall|j: int| 0 <= j < 6 && j != param ==> final(bottom)@[j] == old(bottom)@[j]
            &&& final(bottom)@[param] != old(bottom)@[param] ==> final(bottom)@[param] == n0 - 1 && (c.remaining > 0
                ==> final(children)@ == old(children)@ && r == closer_token)
            &&& c.remaining > 0 ==> {
                &&& forall|j: int|
                    #![trigger old(children)@[j]]
                    0 <= j < old(bottom)@[param] && j < n0 ==> j < final(children)@.len() && final(children)@[j]
                        == old(children)@[j]
                &&& marker_fits(r)
                &&& r.node_value matches NodeValue::EmphMarker(m) ==> m == (EmphMarker {
                    remaining: m.remaining,
                    ..c
                }) && 0 < m.remaining <= c.remaining && r.children == closer_token.children && r.attrs
                    == closer_token.attrs
                &&& !(r.node_value is EmphMarker) ==> is_registered_pair(r.node_value, *config, c.marker)
                &&& childless_markers(old(children)@) && closer_token.children@.len() == 0 ==> childless_markers(
                    final(children)@,
                ) && forest_text(old(children)@) == forest_text(final(children)@) + tree_text(r)
            }
            &&& (c.remaining == 0 && c.close && n0 > 0) ==> r == old(children)@[n0 - 1] && final(children)@
                == old(children)@.drop_last()
            &&& (c.remaining > 0 && c.close && n0 > 0) ==> match nearest_opener(
                old(children)@,
                c,
                config.fns@,
                old(bottom)@[param] as int,
                n0 - 2,
            ) {
                None => final(children)@ == old(children)@ && r == closer_token && final(bottom)@[param] as int == (
                if n0 - 1 != 0 {
                    n0 - 1
                } else {
                    old(bottom)@[param] as int
                }),
                Some(j) => *final(bottom) == *old(bottom) && (r.node_value matches NodeValue::EmphMarker(m)
                    ==> m.remaining <= c.remaining - step_len(
                    config.fns@,
                    run_remaining(old(children)@, j),
                    c.remaining as int,
                )),
            }
        }),
{
    let ghost ch0 = children@;
    let ghost tok0 = closer_token;
    let mut closer_token = closer_token;
    if children.len() == 0 {
        return closer_token;
    }
    let c0 = marker_value(&closer_token).unwrap();
    let mut closer = c0;
    if !closer.close {
        return closer_token;
    }
    let param: usize = (if closer.open { 3 } else { 0 }) + closer.length % 3;
    let min_opener_idx = bottom[param];
    let n0 = children.len();
    let w = char_len_utf8(closer.marker);
    let mut idx = n0 - 1;
    let mut new_min = idx;
    let ghost mut matched = false;
    let ghost mut j0: int = 0;
    while idx > min_opener_idx && closer.remaining > 0
        invariant
            n0 == ch0.len(),
            n0 > 0,
            idx < n0,
            matched ==> min_opener_idx <= idx,
            w == clen(c0.marker),
            1 <= w <= 4,
            tok0.node_value == NodeValue::EmphMarker(c0),
            closer == (EmphMarker { remaining: closer.remaining, ..c0 }),
            closer.remaining <= c0.remaining,
            closer_token.node_value == tok0.node_value,
            closer_token.children == tok0.children,
            closer_token.attrs == tok0.attrs,
            tok0.srcmap is Some <==> closer_token.srcmap is Some,
            closer_token.srcmap matches Some(p) ==> p.start + closer.remaining * w <= p.end,
            idx + 1 <= children@.len(),
            forall|j: int| #![trigger ch0[j]] 0 <= j < idx ==> children@[j] == ch0[j],
            markers_fit(children@),
            childless_markers(ch0) ==> childless_markers(children@) && forest_text(children@) == forest_text(ch0),
            !matched ==> new_min == n0 - 1 && children@ == ch0 && closer == c0 && closer_token == tok0,
            matched ==> new_min == 0 && closer.remaining < c0.remaining && children@.len() > 0 && !(
            children@.last().node_value is EmphMarker) && is_registered_pair(
                children@.last().node_value,
                *config,
                c0.marker,
            ),
            !matched ==> nearest_opener(ch0, c0, config.fns@, min_opener_idx as int, n0 - 2) == nearest_opener(
                ch0,
                c0,
                config.fns@,
                min_opener_idx as int,
                idx - 1,
            ),
            matched ==> nearest_opener(ch0, c0, config.fns@, min_opener_idx as int, n0 - 2) == Some(j0) && 0 <= j0
                < n0 && closer.remaining <= c0.remaining - step_len(
                config.fns@,
                run_remaining(ch0, j0),
                c0.remaining as int,
            ),
        decreases idx,
    {
        idx = idx - 1;
        let cand = marker_value(&children[idx]);
        if let Some(opener0) = cand {
            let mut opener = opener0;
            if opener.open && opener.marker == closer.marker && !is_odd_match(&opener, &closer) {
                let mut stuck = false;
                proof {
                    assert(marker_fits(children@[idx as int]));
                }
                while closer.remaining > 0 && opener.remaining > 0 && !stuck
                    invariant
                        n0 == ch0.len(),
                        n0 > 0,
                        min_opener_idx <= idx < n0,
                        matched ==> min_opener_idx <= idx,
                        w == clen(c0.marker),
                        1 <= w <= 4,
                        tok0.node_value == NodeValue::EmphMarker(c0),
                        opener.marker == c0.marker,
                        opener == (EmphMarker { remaining: opener.remaining, ..opener0 }),
                        closer == (EmphMarker { remaining: closer.remaining, ..c0 }),
                        closer.remaining <= c0.remaining,
                        closer_token.node_value == tok0.node_value,
                        closer_token.children == tok0.children,
                        closer_token.attrs == tok0.attrs,
                        tok0.srcmap is Some <==> closer_token.srcmap is Some,
                        closer_token.srcmap matches Some(p) ==> p.start + closer.remaining * w <= p.end,
                        idx + 1 <= children@.len(),
                        forall|j: int| #![trigger ch0[j]] 0 <= j < idx ==> children@[j] == ch0[j],
                        markers_fit(children@),
                        opener.remaining > 0 ==> children@[idx as int].node_value == NodeValue::EmphMarker(opener)
                            && (children@[idx as int].srcmap matches Some(p) ==> p.start + opener.remaining * w
                            <= p.end),
                        opener.remaining < opener0.remaining ==> (opener.remaining == 0 ==> children@.len() == idx + 1),
                        opener.remaining <= opener0.remaining,
                        childless_markers(ch0) ==> childless_markers(children@) && forest_text(children@)
                            == forest_text(ch0),
                        !matched ==> new_min == n0 - 1 && children@ == ch0 && closer == c0 && closer_token == tok0,
                        matched ==> new_min == 0 && closer.remaining < c0.remaining && children@.len() > 0 && !(
                        children@.last().node_value is EmphMarker) && is_registered_pair(
                            children@.last().node_value,
                            *config,
                            c0.marker,
                        ),
                        !matched ==> opener == opener0 && c0.remaining > 0 && ch0[idx as int].node_value
                            == NodeValue::EmphMarker(opener0) && opener0.open && opener0.marker == c0.marker
                            && !odd_match(opener0, c0),
                        !matched ==> (stuck ==> !pairs_with(ch0[idx as int], c0, config.fns@)),
                        !matched ==> nearest_opener(ch0, c0, config.fns@, min_opener_idx as int, n0 - 2)
                            == nearest_opener(ch0, c0, config.fns@, min_opener_idx as int, idx as int),
                        matched ==> nearest_opener(ch0, c0, config.fns@, min_opener_idx as int, n0 - 2) == Some(j0)
                            && 0 <= j0 < n0 && closer.remaining <= c0.remaining - step_len(
                            config.fns@,
                            run_remaining(ch0, j0),
                            c0.remaining as int,
                        ),
                    decreases opener.remaining + (if stuck {
                        0int
                    } else {
                        1int
                    }),
                {
                    let made = pair_step(children, idx, config, w, &mut opener, &mut closer, &mut closer_token);
                    if made {
                        new_min = 0;
                        proof {
                            if !matched {
                                j0 = idx as int;
                            }
                            matched = true;
                        }
                    } else {
                        stuck = true;
                    }
                }
            }
        }
    }
    proof {
        if !matched && c0.remaining > 0 {
            assert(idx <= min_opener_idx);
            assert(nearest_opener(ch0, c0, config.fns@, min_opener_idx as int, idx - 1) is None);
        }
    }
    if new_min != 0 {
        bottom[param] = new_min;
    }
    if closer.remaining > 0 {
        closer_token.node_value = NodeValue::EmphMarker(closer);
        proof {
            if tok0.children@.len() == 0 {
                assert(closer_token.children@ =~= Seq::<Node>::empty());
                assert(tree_text(closer_token) =~= Seq::<char>::empty());
                assert(forest_text(children@) + tree_text(closer_token) =~= forest_text(children@));
            }
        }
        closer_token
    } else {
        let ghost before = children@;
        let last = children.pop().unwrap();
        proof {
            if childless_markers(ch0) {
                assert(before =~= children@ + seq![last]);
                lemma_forest_text_concat(children@, seq![last]);
                lemma_forest_text_single(last);
            }
            assert forall|j: int| 0 <= j < children@.len() implies #[trigger] marker_fits(children@[j]) by {
                assert(children@[j] == before[j]);
            }
        }
        last
    }
}


/// The text a token stands for once unmatched delimiters read as text: the
/// content of a text node, or the unmatched markers of a delimiter run.
pub open spec fn token_text(n: Node) -> Option<Seq<char>> {
    match n.node_value {
        NodeValue::Text(t) => Some(t.content@),
        NodeValue::EmphMarker(m) => Some(Seq::new(m.remaining as nat, |_i: int| m.marker)),
        _ => None,
    }
}

/// The source span of two adjacent texts joined: from the first's start to
/// the second's end when both have one, else the first's.
pub open spec fn join_map(a: Option<SourcePos>, b: Option<SourcePos>) -> Option<SourcePos> {
    match (a, b) {
        (Some(x), Some(y)) => Some(SourcePos { start: x.start, end: y.end }),
        _ => a,
    }
}

/// One token of a joined sequence: a token kept as it is, or a run of
/// adjacent texts joined into its first token, with the joined text and span.
pub ghost enum Joined {
    Keep(Node),
    Run(Node, Seq<char>, Option<SourcePos>),
}

/// The tokens `s` with each run of adjacent texts joined into one.
pub open spec fn join_runs(s: Seq<Node>) -> Seq<Joined>
    decreases s.len(),
{
    if s.len() == 0 {
        Seq::empty()
    } else {
        let r = join_runs(s.drop_last());
        let x = s.last();
        match token_text(x) {
            None => r.push(Joined::Keep(x)),
            Some(tx) => match if r.len() > 0 {
                r.last()
            } else {
                Joined::Keep(x)
            } {
                Joined::Run(first, t, map) => r.drop_last().push(Joined::Run(first, t + tx, join_map(map, x.srcmap))),
                Joined::Keep(_) => r.push(Joined::Run(x, tx, x.srcmap)),
            },
        }
    }
}

/// Whether a joined token stays: every kept token, and runs with some text.
pub open spec fn stays(j: Joined) -> bool {
    match j {
        Joined::Keep(_) => true,
        Joined::Run(_, t, _) => t.len() > 0,
    }
}

/// Whether node `n` is the joined token `j`.
pub open spec fn is_joined(n: Node, j: Joined) -> bool {
    match j {
        Joined::Keep(x) => n == x,
        Joined::Run(first, t, map) => {
            &&& n.node_value matches NodeValue::Text(nt) && nt.content@ == t
            &&& n.srcmap == map
            &&& n.attrs == first.attrs
            &&& n.children == first.children
        },
    }
}

/// The joined tokens that stay.
pub open spec fn kept(js: Seq<Joined>) -> Seq<Joined>
    decreases js.len(),
{
    if js.len() == 0 {
        js
    } else if stays(js.last()) {
        kept(js.drop_last()).push(js.last())
    } else {
        kept(js.drop_last())
    }
}

/// Whether `out` is `js` without the runs that hold no text.
pub open spec fn joined_as(out: Seq<Node>, js: Seq<Joined>) -> bool {
    &&& out.len() == kept(js).len()
    &&& forall|i: int| 0 <= i < out.len() ==> is_joined(#[trigger] out[i], kept(js)[i])
}

proof fn lemma_kept_push(js: Seq<Joined>, j: Joined)
    ensures
        kept(js.push(j)) == if stays(j) {
            kept(js).push(j)
        } else {
            kept(js)
        },
{
    assert(js.push(j).drop_last() =~= js);
}

/// Whether `n` holds some text.
fn has_text(n: &Node) -> (r: bool)
    ensures
        n.node_value matches NodeValue::Text(t) ==> r == (t.content@.len() > 0),
{
    match &n.node_value {
        NodeValue::Text(t) => {
            proof {
                lemma_chars_le_bytes(t.content@);
                if t.content@.len() == 0 {
                    assert(t.content@ =~= Seq::<char>::empty());
                    assert(utf8(Seq::<char>::empty()) =~= Seq::<u8>::empty());
                }
            }
            byte_len(t.content.as_str()) > 0
        },
        _ => false,
    }
}

/// The text of `m` unmatched markers.
fn marker_text(m: EmphMarker) -> (r: String)
    ensures
        r@ == Seq::new(m.remaining as nat, |_i: int| m.marker),
{
    let mut out = String::new();
    let mut i: usize = 0;
    while i < m.remaining
        invariant
            i <= m.remaining,
            out@ == Seq::new(i as nat, |_i: int| m.marker),
        decreases m.remaining - i,
    {
        push_char(&mut out, m.marker);
        proof {
            assert(out@ =~= Seq::new((i + 1) as nat, |_i: int| m.marker));
        }
        i = i + 1;
    }
    out
}

/// Turn the unmatched delimiter runs of `nodes` into text, join adjacent
/// texts into the first of them (its span reaching to the last one's end),
/// and drop the texts left empty.
pub fn fragments_join_draft_children(nodes: &mut Vec<Node>)
    ensures
        joined_as(final(nodes)@, join_runs(old(nodes)@)),
{
    let mut kids: Vec<Node> = Vec::new();
    std::mem::swap(&mut kids, nodes);
    let ghost before = kids@;
    let total = kids.len();
    let mut rest: Vec<Node> = Vec::new();
    proof {
        assert(kids@ =~= before.subrange(0, kids@.len() as int));
        assert(rest@ =~= before.subrange(kids@.len() as int, before.len() as int).reverse());
    }
    while kids.len() > 0
        invariant
            kids@ == before.subrange(0, kids@.len() as int),
            kids@.len() <= before.len(),
            rest@ == before.subrange(kids@.len() as int, before.len() as int).reverse(),
        decreases kids@.len(),
    {
        let ghost k = kids@.len() as int;
        let x = kids.pop().unwrap();
        rest.push(x);
        proof {
            assert(kids@ =~= before.subrange(0, k - 1));
            assert(rest@ =~= before.subrange(k - 1, before.len() as int).reverse());
        }
    }
    let mut out: Vec<Node> = Vec::new();
    let mut run: Option<Node> = None;
    let mut done: usize = 0;
    proof {
        assert(before.subrange(0, 0) =~= Seq::<Node>::empty());
    }
    while rest.len() > 0
        invariant
            done + rest@.len() == before.len(),
            before.len() == total,
            rest@ == before.subrange(done as int, before.len() as int).reverse(),
            ({
                let js = join_runs(before.subrange(0, done as int));
                match run {
                    None => joined_as(out@, js) && (js.len() == 0 || !(js.last() is Run)),
                    Some(r) => js.len() > 0 && js.last() is Run && joined_as(out@, js.drop_last()) && is_joined(
                        r,
                        js.last(),
                    ),
                }
            }),
        decreases rest@.len(),
    {
        let mut x = rest.pop().unwrap();
        let ghost x0 = x;
        let ghost pre = before.subrange(0, done as int);
        proof {
            assert(x == before[done as int]);
            assert(before.subrange(0, done + 1).drop_last() =~= pre);
            assert(rest@ =~= before.subrange(done + 1, before.len() as int).reverse());
        }
        let mark = match &x.node_value {
            NodeValue::EmphMarker(m) => Some(*m),
            _ => None,
        };
        match mark {
            Some(m) => {
                x.node_value = NodeValue::Text(Text { content: marker_text(m) });
            },
            None => {},
        }
        let is_text = match &x.node_value {
            NodeValue::Text(_) => true,
            _ => false,
        };
        let ghost r0 = run;
        let ghost out0 = out@;
        if is_text {
            run = match run {
                Some(mut r) => {
                    let piece = match &x.node_value {
                        NodeValue::Text(t) => t.content.clone(),
                        _ => String::new(),
                    };
                    let mut c = match &r.node_value {
                        NodeValue::Text(t) => t.content.clone(),
                        _ => String::new(),
                    };
                    append_all(&mut c, piece.as_str());
                    r.node_value = NodeValue::Text(Text { content: c });
                    r.srcmap = match (r.srcmap, x.srcmap) {
                        (Some(a), Some(b)) => Some(SourcePos::new(a.start, b.end)),
                        _ => r.srcmap,
                    };
                    Some(r)
                },
                None => Some(x),
            };
        } else {
            match run {
                Some(r) => {
                    if has_text(&r) {
                        out.push(r);
                    }
                },
                None => {},
            }
            run = None;
            out.push(x);
        }
        proof {
            let pre1 = before.subrange(0, done + 1);
            assert(pre1.drop_last() =~= pre);
            assert(pre1.last() == x0);
            let js = join_runs(pre);
            let js1 = join_runs(pre1);
            match token_text(x0) {
                None => {
                    assert(js1 == js.push(Joined::Keep(x0)));
                    lemma_kept_push(js, Joined::Keep(x0));
                    match r0 {
                        None => {},
                        Some(r) => {
                            assert(js =~= js.drop_last().push(js.last()));
                            lemma_kept_push(js.drop_last(), js.last());
                        },
                    }
                    assert(joined_as(out@, js1));
                },
                Some(tx) => {
                    match r0 {
                        None => {
                            assert(js1 == js.push(Joined::Run(x0, tx, x0.srcmap)));
                            assert(js1.drop_last() =~= js);
                        },
                        Some(r) => {
                            assert(js1.drop_last() =~= js.drop_last());
                        },
                    }
                },
            }
        }
        done = done + 1;
    }
    let ghost out0 = out@;
    let ghost run0 = run;
    match run {
        Some(r) => {
            if has_text(&r) {
                out.push(r);
            }
        },
        None => {},
    }
    proof {
        let js = join_runs(before.subrange(0, done as int));
        assert(before.subrange(0, done as int) =~= before);
        match run0 {
            None => {},
            Some(r) => {
                assert(js =~= js.drop_last().push(js.last()));
                lemma_kept_push(js.drop_last(), js.last());
            },
        }
    }
    *nodes = out;
}

/// Clean up the children of `node` after pairing: unmatched delimiter runs
/// become text, adjacent texts are joined, and empty texts are dropped.
pub fn fragments_join(node: &mut Node)
    ensures
        joined_as(final(node).children@, join_runs(old(node).children@)),
        final(node).node_value == old(node).node_value,
        final(node).srcmap == old(node).srcmap,
        final(node).attrs == old(node).attrs,
{
    fragments_join_draft_children(&mut node.children);
}

} // verus!
