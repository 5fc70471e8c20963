//! Deferred text edits on an owned syntax tree: replacements in its text
//! nodes, each named by its position among them in preorder.
use std::ops::Range;
use vstd::prelude::*;
use vstd::utf8::is_char_boundary;

use crate::document_text::{rule_for, TextProjection, TextProjectionRule};
use crate::edit::{replacement_bytes, TextReplacement};
use crate::node::{Node, NodeKind, NodeValue, Text};
use crate::slug::views;
use crate::utf8text::{append_range, byte_len, utf8};

verus! {

/// The position of a text node among the writable text nodes of a tree,
/// in preorder.
#[derive(Clone, Copy, Debug, PartialEq, Eq, Structural)]
pub struct TextNodeKey(pub u32);

/// Why a batch of text edits was refused; the tree is then unchanged.
#[derive(Debug, PartialEq, Eq)]
pub enum TextEditError {
    UnknownNode(TextNodeKey),
    InvalidRange(TextNodeKey, Range<usize>),
    OverlappingEdits(TextNodeKey),
}

/// One replacement of a byte range of a text node.
#[derive(Debug)]
pub struct TreeTextEdit {
    pub node: TextNodeKey,
    pub range: Range<usize>,
    pub replacement: TextReplacement,
}

/// The contents of the text nodes of a tree, in preorder.
pub open spec fn text_contents(n: Node) -> Seq<Seq<char>>
    decreases n, 1int,
{
    (match n.node_value {
        NodeValue::Text(t) => seq![t.content@],
        _ => Seq::empty(),
    }) + forest_contents(n.children@)
}

/// The contents of the text nodes of a sequence of trees, in order.
pub open spec fn forest_contents(s: Seq<Node>) -> Seq<Seq<char>>
    decreases s, 0int,
{
    if s.len() == 0 {
        Seq::empty()
    } else {
        forest_contents(s.subrange(0, s.len() - 1)) + text_contents(s[s.len() - 1])
    }
}

/// `b` is `a` with only the contents of text nodes changed.
pub open spec fn same_but_texts(a: Node, b: Node) -> bool
    decreases a,
{
    &&& (a.node_value is Text ==> b.node_value is Text)
    &&& (!(a.node_value is Text) ==> b.node_value == a.node_value)
    &&& b.srcmap == a.srcmap
    &&& b.attrs@ == a.attrs@
    &&& b.children@.len() == a.children@.len()
    &&& forall|i: int|
        #![trigger a.children@[i]]
        0 <= i < a.children@.len() ==> same_but_texts(a.children@[i], b.children@[i])
}

/// Whether edit `a` sorts no later than edit `b`: by start, then by end.
pub open spec fn range_le(a: TreeTextEdit, b: TreeTextEdit) -> bool {
    a.range.start < b.range.start || (a.range.start == b.range.start && a.range.end <= b.range.end)
}

/// Where edit `i` goes into the sorted indices `g`, scanning from `j`: before
/// the first edit that sorts after it.
pub open spec fn insert_at(es: Seq<TreeTextEdit>, g: Seq<int>, i: int, j: int) -> int
    decreases g.len() - j,
{
    if j < 0 || j >= g.len() {
        g.len() as int
    } else if !range_le(es[g[j]], es[i]) {
        j
    } else {
        insert_at(es, g, i, j + 1)
    }
}

/// The indices, among the first `n` edits, of those for node `k`, sorted
/// by range; edits with equal ranges keep their order.
pub open spec fn group_order(es: Seq<TreeTextEdit>, k: u32, n: int) -> Seq<int>
    decreases n,
{
    if n <= 0 {
        Seq::empty()
    } else {
        let g = group_order(es, k, n - 1);
        if es[n - 1].node.0 == k {
            g.insert(insert_at(es, g, n - 1, 0), n - 1)
        } else {
            g
        }
    }
}

/// The first fault among the edits `g[q..]` of the text with bytes `b`,
/// the edit before them ending at `prev_end`.
pub open spec fn group_error(
    b: Seq<u8>,
    es: Seq<TreeTextEdit>,
    g: Seq<int>,
    k: u32,
    q: int,
    prev_end: int,
) -> Option<TextEditError>
    decreases g.len() - q,
{
    if q < 0 || q >= g.len() {
        None
    } else {
        let e = es[g[q]];
        if !(e.range.start <= e.range.end <= b.len() && is_char_boundary(b, e.range.start as int)
            && is_char_boundary(b, e.range.end as int)) {
            Some(TextEditError::InvalidRange(TextNodeKey(k), e.range))
        } else if e.range.start < prev_end {
            Some(TextEditError::OverlappingEdits(TextNodeKey(k)))
        } else {
            group_error(b, es, g, k, q + 1, e.range.end as int)
        }
    }
}

/// The smallest node key at or above `count` among the first `n` edits.
pub open spec fn least_unknown(es: Seq<TreeTextEdit>, count: int, n: int) -> Option<u32>
    decreases n,
{
    if n <= 0 {
        None
    } else {
        let rest = least_unknown(es, count, n - 1);
        let key = es[n - 1].node.0;
        if key < count {
            rest
        } else {
            match rest {
                Some(m) => if m <= key {
                    Some(m)
                } else {
                    Some(key)
                },
                None => Some(key),
            }
        }
    }
}

/// The fault reported for the first `n` writable texts: that of the last
/// of them whose edits have one.
pub open spec fn last_fault(texts: Seq<Seq<char>>, es: Seq<TreeTextEdit>, n: int) -> Option<TextEditError>
    decreases n,
{
    if n <= 0 {
        None
    } else {
        match group_error(utf8(texts[n - 1]), es, group_order(es, (n - 1) as u32, es.len() as int), (n - 1) as u32, 0, 0) {
            Some(e) => Some(e),
            None => last_fault(texts, es, n - 1),
        }
    }
}

/// The fault of a batch on the writable texts `texts`: the fault of the
/// last text whose edits have one, or else an edit for a node beyond the
/// last.
pub open spec fn batch_error(texts: Seq<Seq<char>>, es: Seq<TreeTextEdit>) -> Option<TextEditError> {
    match last_fault(texts, es, texts.len() as int) {
        Some(e) => Some(e),
        None => match least_unknown(es, texts.len() as int, es.len() as int) {
            Some(m) => Some(TextEditError::UnknownNode(TextNodeKey(m))),
            None => None,
        },
    }
}

/// The bytes `b` from `pos` on with the edits `g[q..]` applied.
pub open spec fn spliced(b: Seq<u8>, es: Seq<TreeTextEdit>, g: Seq<int>, q: int, pos: int) -> Seq<u8>
    decreases g.len() - q,
{
    if q < 0 || q >= g.len() {
        b.subrange(pos, b.len() as int)
    } else {
        let e = es[g[q]];
        b.subrange(pos, e.range.start as int) + replacement_bytes(e.replacement) + spliced(
            b,
            es,
            g,
            q + 1,
            e.range.end as int,
        )
    }
}

/// A batch of text edits, validated and applied together.
#[derive(Debug)]
pub struct TextEditBatch {
    writable: bool,
    edits: Vec<TreeTextEdit>,
}

impl TextEditBatch {
    /// Whether the batch edits text nodes at all: whether its projection
    /// makes them writable.
    pub closed spec fn spec_writable(&self) -> bool {
        self.writable
    }

    /// The recorded edits, in call order.
    pub closed spec fn view(&self) -> Seq<TreeTextEdit> {
        self.edits@
    }

    /// An empty batch for the text nodes that `projection` makes writable.
    pub fn new(projection: &TextProjection) -> (r: TextEditBatch)
        ensures
            r.spec_writable() == (rule_for(projection.rules(), NodeKind::Text) == TextProjectionRule::Writable),
            r@.len() == 0,
    {
        let writable = projection.rule(NodeKind::Text) == TextProjectionRule::Writable;
        TextEditBatch { writable, edits: Vec::new() }
    }

    /// Replace the bytes `range` of text node `node` with `replacement`.
    pub fn replace(&mut self, node: TextNodeKey, range: Range<usize>, replacement: &str)
        ensures
            final(self).spec_writable() == old(self).spec_writable(),
            final(self)@.len() == old(self)@.len() + 1,
            final(self)@.drop_last() == old(self)@,
            final(self)@.last().node == node,
            final(self)@.last().range == range,
            final(self)@.last().replacement matches TextReplacement::String(s) && s@ == replacement@,
    {
        let edit = TreeTextEdit { node, range, replacement: TextReplacement::String(replacement.to_owned()) };
        self.edits.push(edit);
        proof {
            assert(self.edits@.drop_last() =~= old(self).edits@);
        }
    }

    /// Replace the bytes `range` of text node `node` with one character.
    pub fn replace_char(&mut self, node: TextNodeKey, range: Range<usize>, replacement: char)
        ensures
            final(self).spec_writable() == old(self).spec_writable(),
            final(self)@.len() == old(self)@.len() + 1,
            final(self)@.drop_last() == old(self)@,
            final(self)@.last().node == node,
            final(self)@.last().range == range,
            final(self)@.last().replacement == TextReplacement::Char(replacement),
    {
        self.edits.push(TreeTextEdit { node, range, replacement: TextReplacement::Char(replacement) });
        proof {
            assert(self.edits@.drop_last() =~= old(self).edits@);
        }
    }
}

/// Indices as integers.
pub open spec fn ints(v: Seq<usize>) -> Seq<int> {
    v.map_values(|x: usize| x as int)
}

/// Append the contents of the text nodes of `node`, in preorder.
fn collect_texts(node: &Node, out: &mut Vec<String>)
    ensures
        views(final(out)@) == views(old(out)@) + text_contents(*node),
    decreases node,
{
    let ghost start = views(out@);
    match &node.node_value {
        NodeValue::Text(t) => {
            out.push(t.content.clone());
            proof {
                assert(views(out@) =~= start + seq![t.content@]);
            }
        },
        _ => {
            proof {
                assert(views(out@) =~= start + Seq::<Seq<char>>::empty());
            }
        },
    }
    let ghost own = views(out@);
    let mut i: usize = 0;
    proof {
        assert(node.children@.subrange(0, 0) =~= Seq::<Node>::empty());
        assert(own =~= own + forest_contents(node.children@.subrange(0, 0)));
    }
    while i < node.children.len()
        invariant
            i <= node.children@.len(),
            views(out@) == own + forest_contents(node.children@.subrange(0, i as int)),
        decreases node.children@.len() - i,
    {
        collect_texts(&node.children[i], out);
        proof {
            let pre = node.children@.subrange(0, i + 1);
            assert(pre.subrange(0, pre.len() - 1) =~= node.children@.subrange(0, i as int));
            assert(pre[pre.len() - 1] == node.children@[i as int]);
        }
        i = i + 1;
    }
    proof {
        assert(node.children@.subrange(0, node.children@.len() as int) =~= node.children@);
        assert(views(out@) =~= start + text_contents(*node));
    }
}

/// Whether edit `a` sorts no later than edit `b`.
fn edit_le(a: &TreeTextEdit, b: &TreeTextEdit) -> (r: bool)
    ensures
        r == range_le(*a, *b),
{
    a.range.start < b.range.start || (a.range.start == b.range.start && a.range.end <= b.range.end)
}

/// The indices of the edits for node `k`, sorted by range.
fn group_of(es: &Vec<TreeTextEdit>, k: u32) -> (g: Vec<usize>)
    ensures
        ints(g@) == group_order(es@, k, es@.len() as int),
        forall|q: int| 0 <= q < g@.len() ==> #[trigger] g@[q] < es@.len(),
{
    let mut g: Vec<usize> = Vec::new();
    let mut i: usize = 0;
    while i < es.len()
        invariant
            i <= es@.len(),
            ints(g@) == group_order(es@, k, i as int),
            forall|q: int| 0 <= q < g@.len() ==> #[trigger] g@[q] < i,
        decreases es@.len() - i,
    {
        if es[i].node.0 == k {
            let ghost gi = ints(g@);
            let mut j: usize = 0;
            while j < g.len() && edit_le(&es[g[j]], &es[i])
                invariant
                    j <= g@.len(),
                    i < es@.len(),
                    gi == ints(g@),
                    forall|q: int| 0 <= q < g@.len() ==> #[trigger] g@[q] < i,
                    insert_at(es@, gi, i as int, 0) == insert_at(es@, gi, i as int, j as int),
                decreases g@.len() - j,
            {
                j = j + 1;
            }
            g.insert(j, i);
            proof {
                assert(ints(g@) =~= gi.insert(j as int, i as int));
            }
        }
        i = i + 1;
    }
    g
}

/// The first fault among the edits `g` of the text `content`.
fn check_group(content: &str, es: &Vec<TreeTextEdit>, g: &Vec<usize>, k: u32) -> (r: Option<TextEditError>)
    requires
        forall|q: int| 0 <= q < g@.len() ==> #[trigger] g@[q] < es@.len(),
    ensures
        r == group_error(utf8(content@), es@, ints(g@), k, 0, 0),
{
    let len = byte_len(content);
    let mut prev_end: usize = 0;
    let mut q: usize = 0;
    while q < g.len()
        invariant
            q <= g@.len(),
            len == utf8(content@).len(),
            forall|x: int| 0 <= x < g@.len() ==> #[trigger] g@[x] < es@.len(),
            group_error(utf8(content@), es@, ints(g@), k, 0, 0) == group_error(
                utf8(content@),
                es@,
                ints(g@),
                k,
                q as int,
                prev_end as int,
            ),
        decreases g@.len() - q,
    {
        let e = &es[g[q]];
        let start = e.range.start;
        let end = e.range.end;
        if !(start <= end && end <= len && content.is_char_boundary(start) && content.is_char_boundary(end)) {
            return Some(TextEditError::InvalidRange(TextNodeKey(k), start..end));
        }
        if start < prev_end {
            return Some(TextEditError::OverlappingEdits(TextNodeKey(k)));
        }
        prev_end = end;
        q = q + 1;
    }
    None
}

/// The smallest node key at or above `count` among the edits.
fn find_unknown(es: &Vec<TreeTextEdit>, count: usize) -> (r: Option<u32>)
    ensures
        r == least_unknown(es@, count as int, es@.len() as int),
{
    let mut best: Option<u32> = None;
    let mut i: usize = 0;
    while i < es.len()
        invariant
            i <= es@.len(),
            best == least_unknown(es@, count as int, i as int),
        decreases es@.len() - i,
    {
        let key = es[i].node.0;
        if key as usize >= count {
            best = match best {
                Some(m) => if m <= key {
                    Some(m)
                } else {
                    Some(key)
                },
                None => Some(key),
            };
        }
        i = i + 1;
    }
    best
}

/// The text `content` with the edits `g` applied, which are in range, on
/// character boundaries and in order without overlap.
fn splice(content: &str, es: &Vec<TreeTextEdit>, g: &Vec<usize>) -> (r: String)
    requires
        forall|q: int| 0 <= q < g@.len() ==> #[trigger] g@[q] < es@.len(),
        group_error(utf8(content@), es@, ints(g@), 0, 0, 0) is None,
    ensures
        utf8(r@) == spliced(utf8(content@), es@, ints(g@), 0, 0),
{
    let ghost b = utf8(content@);
    let ghost gi = ints(g@);
    let len = byte_len(content);
    let mut out = String::new();
    let mut pos: usize = 0;
    let mut q: usize = 0;
    proof {
        vstd::utf8::encode_utf8_valid_utf8(content@);
        vstd::utf8::is_char_boundary_start_end_of_seq(b);
        assert(utf8(out@) =~= Seq::<u8>::empty());
    }
    while q < g.len()
        invariant
            q <= g@.len(),
            len == b.len(),
            b == utf8(content@),
            gi == ints(g@),
            pos <= len,
            is_char_boundary(b, pos as int),
            forall|x: int| 0 <= x < g@.len() ==> #[trigger] g@[x] < es@.len(),
            group_error(b, es@, gi, 0, q as int, pos as int) is None,
            spliced(b, es@, gi, 0, 0) == utf8(out@) + spliced(b, es@, gi, q as int, pos as int),
        decreases g@.len() - q,
    {
        let e = &es[g[q]];
        let ghost before = utf8(out@);
        append_range(&mut out, content, pos, e.range.start);
        e.replacement.push_to(&mut out);
        proof {
            assert(utf8(out@) =~= before + b.subrange(pos as int, e.range.start as int) + replacement_bytes(e.replacement));
        }
        pos = e.range.end;
        q = q + 1;
    }
    let ghost before = utf8(out@);
    append_range(&mut out, content, pos, len);
    proof {
        assert(utf8(out@) =~= before + b.subrange(pos as int, b.len() as int));
    }
    out
}

/// Whether a group has a fault does not depend on the key it reports.
proof fn lemma_error_key(b: Seq<u8>, es: Seq<TreeTextEdit>, g: Seq<int>, k1: u32, k2: u32, q: int, prev: int)
    ensures
        group_error(b, es, g, k1, q, prev) is None <==> group_error(b, es, g, k2, q, prev) is None,
    decreases g.len() - q,
{
    if 0 <= q < g.len() {
        lemma_error_key(b, es, g, k1, k2, q + 1, es[g[q]].range.end as int);
    }
}

/// Give the text nodes of `node`, in preorder, the contents `new[pos..]`.
fn set_texts(node: &mut Node, new: &Vec<String>, pos: &mut usize)
    requires
        *old(pos) + text_contents(*old(node)).len() <= new@.len(),
    ensures
        same_but_texts(*old(node), *final(node)),
        *final(pos) == *old(pos) + text_contents(*old(node)).len(),
        text_contents(*final(node)) == views(new@).subrange(*old(pos) as int, *final(pos) as int),
    decreases *old(node),
{
    let ghost p0 = *pos;
    let is_text = match &node.node_value {
        NodeValue::Text(_) => true,
        _ => false,
    };
    let total = new.len();
    if is_text {
        proof {
            assert(text_contents(*old(node)).len() >= 1);
        }
        node.node_value = NodeValue::Text(Text { content: new[*pos].clone() });
        *pos = *pos + 1;
    }
    assert(*pos <= total);
    let ghost p1 = *pos;
    let mut kids: Vec<Node> = Vec::new();
    std::mem::swap(&mut kids, &mut node.children);
    let ghost before = kids@;
    proof {
        assert(before == old(node).children@);
        assert(text_contents(*old(node)) == (if is_text {
            seq![old(node).node_value->Text_0.content@]
        } else {
            Seq::<Seq<char>>::empty()
        }) + forest_contents(before));
    }
    let mut rest: Vec<Node> = Vec::new();
    proof {
        assert(kids@ =~= before.subrange(0, kids@.len() as int));
        assert(rest@ =~= before.subrange(kids@.len() as int, before.len() as int).reverse());
    }
    while kids.len() > 0
        invariant
            kids@ == before.subrange(0, kids@.len() as int),
            kids@.len() <= before.len(),
            rest@ == before.subrange(kids@.len() as int, before.len() as int).reverse(),
        decreases kids@.len(),
    {
        let ghost k = kids@.len() as int;
        let x = kids.pop().unwrap();
        rest.push(x);
        proof {
            assert(x == before[k - 1]);
            assert(kids@ =~= before.subrange(0, k - 1));
            assert(rest@ =~= before.subrange(k - 1, before.len() as int).reverse());
        }
    }
    let mut done: Vec<Node> = Vec::new();
    proof {
        assert(done@ =~= Seq::<Node>::empty());
        assert(views(new@).subrange(p1 as int, p1 as int) =~= Seq::<Seq<char>>::empty());
        lemma_forest_prefix(before, 0);
    }
    while rest.len() > 0
        invariant
            done@.len() + rest@.len() == before.len(),
            rest@ == before.subrange(done@.len() as int, before.len() as int).reverse(),
            forall|j: int| 0 <= j < done@.len() ==> same_but_texts(#[trigger] before[j], done@[j]),
            before == old(node).children@,
            p1 <= *pos,
            *pos <= new@.len(),
            *pos == p1 + forest_contents(before.subrange(0, done@.len() as int)).len(),
            p1 + forest_contents(before).len() <= new@.len(),
            forest_contents(done@) == views(new@).subrange(p1 as int, *pos as int),
        decreases rest@.len(),
    {
        let ghost k = done@.len() as int;
        let ghost pk = *pos;
        let mut child = rest.pop().unwrap();
        proof {
            assert(child == before[k]);
            assert(rest@ =~= before.subrange(k + 1, before.len() as int).reverse());
            lemma_forest_prefix(before, k + 1);
            assert(before.subrange(0, k + 1).subrange(0, k) =~= before.subrange(0, k));
            lemma_forest_prefix_le(before, k + 1);
        }
        set_texts(&mut child, new, pos);
        let ghost cd = child;
        let ghost done0 = done@;
        done.push(child);
        proof {
            assert(done@.subrange(0, done@.len() - 1) =~= done@.drop_last());
            assert(done@.drop_last() =~= done0);
            assert(done@.drop_last() =~= done@.subrange(0, k));
            assert(forest_contents(done@) == forest_contents(done@.subrange(0, k)) + text_contents(cd));
            assert(views(new@).subrange(p1 as int, *pos as int) =~= views(new@).subrange(p1 as int, pk as int)
                + views(new@).subrange(pk as int, *pos as int));
            assert(done@.subrange(0, k) =~= done@.drop_last());
        }
    }
    node.children = done;
    proof {
        assert(before.subrange(0, before.len() as int) =~= before);
        if is_text {
            assert(views(new@).subrange(p0 as int, *pos as int) =~= seq![new@[p0 as int]@] + views(new@).subrange(p1 as int, *pos as int));
        } else {
            assert(views(new@).subrange(p0 as int, *pos as int) =~= Seq::<Seq<char>>::empty() + views(new@).subrange(p1 as int, *pos as int));
        }
    }
}

/// The contents of the first `k` trees of `s` are those of `s[..k]`.
proof fn lemma_forest_prefix(s: Seq<Node>, k: int)
    requires
        0 <= k <= s.len(),
    ensures
        k > 0 ==> forest_contents(s.subrange(0, k)) == forest_contents(s.subrange(0, k - 1)) + text_contents(s[k - 1]),
{
    if k > 0 {
        let p = s.subrange(0, k);
        assert(p.subrange(0, p.len() - 1) =~= s.subrange(0, k - 1));
    }
}

/// A prefix of a forest holds no more text nodes than the forest.
proof fn lemma_forest_prefix_le(s: Seq<Node>, k: int)
    requires
        0 <= k <= s.len(),
    ensures
        forest_contents(s.subrange(0, k)).len() <= forest_contents(s).len(),
    decreases s.len() - k,
{
    if k < s.len() {
        lemma_forest_prefix_le(s, k + 1);
        lemma_forest_prefix(s, k + 1);
    } else {
        assert(s.subrange(0, k) =~= s);
    }
}

impl TextEditBatch {
    /// Validate every edit, then apply them all.
    ///
    /// The writable text nodes (none unless the projection makes text
    /// writable) are keyed in preorder from 0. Each node's edits, sorted by
    /// range, must lie on character boundaries within its text and must not
    /// overlap; a node's first fault in range order is its fault, and the
    /// fault of the last node that has one is reported, or else an edit for a
    /// key past the last node. Any error
    /// leaves the tree unchanged; on success each text node holds its text
    /// with its edits applied, and nothing else changes.
    #[verifier::rlimit(60)]
    pub fn commit(self, root: &mut Node) -> (r: Result<(), TextEditError>)
        requires
            text_contents(*old(root)).len() <= u32::MAX,
        ensures
            ({
                let texts = if self.spec_writable() {
                    text_contents(*old(root))
                } else {
                    Seq::empty()
                };
                let err = batch_error(texts, self@);
                &&& r is Err <==> err is Some
                &&& r matches Err(e) ==> err == Some(e) && *final(root) == *old(root)
                &&& r is Ok && !self.spec_writable() ==> *final(root) == *old(root)
                &&& r is Ok && self.spec_writable() ==> {
                    &&& same_but_texts(*old(root), *final(root))
                    &&& text_contents(*final(root)).len() == texts.len()
                    &&& forall|k: int|
                        #![trigger text_contents(*final(root))[k]]
                        0 <= k < texts.len() ==> utf8(text_contents(*final(root))[k]) == spliced(
                            utf8(texts[k]),
                            self@,
                            group_order(self@, k as u32, self@.len() as int),
                            0,
                            0,
                        )
                }
            }),
    {
        let ghost es = self.edits@;
        let mut texts: Vec<String> = Vec::new();
        if self.writable {
            collect_texts(root, &mut texts);
        }
        proof {
            assert(views(texts@) =~= (if self.writable {
                text_contents(*old(root))
            } else {
                Seq::<Seq<char>>::empty()
            }));
        }
        let ghost tv = views(texts@);
        let count = texts.len();
        let mut groups: Vec<Vec<usize>> = Vec::new();
        let mut fault: Option<TextEditError> = None;
        let mut k: usize = 0;
        while k < count
            invariant
                k <= count,
                count == texts@.len(),
                count <= u32::MAX,
                tv == views(texts@),
                tv == (if self.spec_writable() {
                    text_contents(*old(root))
                } else {
                    Seq::<Seq<char>>::empty()
                }),
                es == self.edits@,
                *root == *old(root),
                groups@.len() == k,
                fault == last_fault(tv, es, k as int),
                forall|j: int|
                    #![trigger groups@[j]]
                    0 <= j < k ==> ints(groups@[j]@) == group_order(es, j as u32, es.len() as int) && (fault is None
                        ==> group_error(utf8(tv[j]), es, ints(groups@[j]@), j as u32, 0, 0) is None) && forall|q: int|
                        0 <= q < groups@[j]@.len() ==> #[trigger] groups@[j]@[q] < es.len(),
            decreases count - k,
        {
            let g = group_of(&self.edits, k as u32);
            proof {
                assert(tv[k as int] == texts@[k as int]@);
            }
            match check_group(texts[k].as_str(), &self.edits, &g, k as u32) {
                Some(e) => {
                    fault = Some(e);
                },
                None => {},
            }
            groups.push(g);
            k = k + 1;
        }
        match fault {
            Some(e) => {
                return Err(e);
            },
            None => {},
        }
        match find_unknown(&self.edits, count) {
            Some(m) => {
                return Err(TextEditError::UnknownNode(TextNodeKey(m)));
            },
            None => {},
        }
        if self.writable {
            let mut new_texts: Vec<String> = Vec::new();
            let mut j: usize = 0;
            while j < count
                invariant
                    j <= count,
                    count == texts@.len(),
                    count <= u32::MAX,
                    tv == views(texts@),
                    es == self.edits@,
                    groups@.len() == count,
                    new_texts@.len() == j,
                    forall|i: int|
                        #![trigger groups@[i]]
                        0 <= i < count ==> ints(groups@[i]@) == group_order(es, i as u32, es.len() as int)
                            && group_error(utf8(tv[i]), es, ints(groups@[i]@), i as u32, 0, 0) is None && forall|q: int|
                            0 <= q < groups@[i]@.len() ==> #[trigger] groups@[i]@[q] < es.len(),
                    forall|i: int|
                        #![trigger new_texts@[i]]
                        0 <= i < j ==> utf8(new_texts@[i]@) == spliced(utf8(tv[i]), es, ints(groups@[i]@), 0, 0),
                decreases count - j,
            {
                proof {
                    let gj = ints(groups@[j as int]@);
                    lemma_error_key(utf8(tv[j as int]), es, gj, j as u32, 0, 0, 0);
                }
                let t = splice(texts[j].as_str(), &self.edits, &groups[j]);
                new_texts.push(t);
                j = j + 1;
            }
            let mut pos: usize = 0;
            set_texts(root, &new_texts, &mut pos);
            proof {
                assert(views(new_texts@).subrange(0, pos as int) =~= views(new_texts@));
                assert forall|i: int| 0 <= i < count implies utf8(text_contents(*root)[i]) == spliced(
                    utf8(tv[i]),
                    es,
                    group_order(es, i as u32, es.len() as int),
                    0,
                    0,
                ) by {
                    assert(text_contents(*root)[i] == new_texts@[i]@);
                    assert(new_texts@[i] == new_texts@[i]);
                }
            }
        }
        Ok(())
    }
}

} // verus!
