//! Lazy, read-only text projections over arena-backed documents.
use vstd::prelude::*;

use crate::arena::NodeId;
use crate::document::{node_ok, Document, DocumentNode, DocView, InvalidNodeId};
use crate::events::lemma_depth_below_len;
use crate::node::{NodeKind, NodeValue};
use crate::utf8text::{byte_len, char_len_utf8, chars_of, lemma_utf8_concat, lemma_utf8_push, utf8};

verus! {

/// A semantic boundary between projected text regions.
#[derive(Clone, Copy, Debug, PartialEq, Eq, Structural)]
pub enum TextBoundary {
    /// Treat the boundary as whitespace between adjacent characters.
    Space,
    /// Do not carry text-transform context across this boundary.
    Hard,
}

/// One item in a document's text projection.
#[derive(Clone, Copy, Debug, PartialEq, Eq, Structural)]
pub enum TextEvent {
    Char { node: NodeId, byte_offset: usize, ch: char, writable: bool, nesting_level: u32 },
    Boundary(TextBoundary),
    Enter { node: NodeId, nesting_level: u32 },
    Exit { node: NodeId, nesting_level: u32 },
}

/// How one node participates in a text projection.
#[derive(Clone, Copy, Debug)]
pub enum TextProjectionKind<'a> {
    /// Emit characters that a later edit batch may target.
    Writable(&'a str),
    /// Emit characters for context, but do not allow edits to target them.
    ReadOnly(&'a str),
    /// Emit one semantic boundary before visiting the node's children.
    Boundary(TextBoundary),
    /// Emit no text for this node while still visiting its children.
    Transparent,
}

/// How the nodes of one kind take part in a projection; the characters of
/// a `Writable` or `ReadOnly` node are those of its payload's text.
#[derive(Clone, Copy, Debug, PartialEq, Eq, Structural)]
pub enum TextProjectionRule {
    Writable,
    ReadOnly,
    Boundary(TextBoundary),
    Transparent,
}

/// Reusable policy for projecting a document into text events: a rule per
/// node kind, the first that names a kind counting; kinds that no rule
/// names are transparent.
#[derive(Clone, Debug)]
pub struct TextProjection {
    rules: Vec<(NodeKind, TextProjectionRule)>,
}

/// The rule `rules` gives to nodes of kind `k`.
pub open spec fn rule_for(rules: Seq<(NodeKind, TextProjectionRule)>, k: NodeKind) -> TextProjectionRule
    decreases rules.len(),
{
    if rules.len() == 0 {
        TextProjectionRule::Transparent
    } else if rules[0].0 == k {
        rules[0].1
    } else {
        rule_for(rules.drop_first(), k)
    }
}

/// The text a payload holds: the content of text, escaped text and inline
/// HTML, the data of a custom payload, nothing for the others.
pub open spec fn payload_text(v: NodeValue) -> Seq<char> {
    match v {
        NodeValue::Text(t) => t.content@,
        NodeValue::TextSpecial(t) => t.content@,
        NodeValue::HtmlInline(h) => h.content@,
        NodeValue::Custom(c) => c.data@,
        _ => Seq::empty(),
    }
}

fn payload_str(v: &NodeValue) -> (r: &str)
    ensures
        r@ == payload_text(*v),
{
    proof {
        reveal_strlit("");
    }
    match v {
        NodeValue::Text(t) => t.content.as_str(),
        NodeValue::TextSpecial(t) => t.content.as_str(),
        NodeValue::HtmlInline(h) => h.content.as_str(),
        NodeValue::Custom(c) => c.data.as_str(),
        _ => "",
    }
}

impl TextProjection {
    /// The rules of this projection.
    pub closed spec fn rules(&self) -> Seq<(NodeKind, TextProjectionRule)> {
        self.rules@
    }

    pub fn new(rules: Vec<(NodeKind, TextProjectionRule)>) -> (r: TextProjection)
        ensures
            r.rules() == rules@,
    {
        TextProjection { rules }
    }

    /// The rule for nodes of kind `kind`.
    pub fn rule(&self, kind: NodeKind) -> (r: TextProjectionRule)
        ensures
            r == rule_for(self.rules(), kind),
    {
        let mut i: usize = 0;
        proof {
            assert(self.rules@.skip(0) =~= self.rules@);
        }
        while i < self.rules.len()
            invariant
                i <= self.rules@.len(),
                rule_for(self.rules@, kind) == rule_for(self.rules@.skip(i as int), kind),
            decreases self.rules@.len() - i,
        {
            let ghost rest = self.rules@.skip(i as int);
            proof {
                assert(rest[0] == self.rules@[i as int]);
                assert(rest.drop_first() =~= self.rules@.skip(i as int + 1));
            }
            if self.rules[i].0 == kind {
                return self.rules[i].1;
            }
            i = i + 1;
        }
        proof {
            assert(self.rules@.skip(i as int).len() == 0);
        }
        TextProjectionRule::Transparent
    }

    /// How `node` takes part in this projection.
    pub fn classify<'a>(&self, node: &'a DocumentNode) -> (r: TextProjectionKind<'a>)
        ensures
            match rule_for(self.rules(), node.node_value.spec_kind()) {
                TextProjectionRule::Writable => r matches TextProjectionKind::Writable(s) && s@ == payload_text(
                    node.node_value,
                ),
                TextProjectionRule::ReadOnly => r matches TextProjectionKind::ReadOnly(s) && s@ == payload_text(
                    node.node_value,
                ),
                TextProjectionRule::Boundary(b) => r == TextProjectionKind::Boundary(b),
                TextProjectionRule::Transparent => r is Transparent,
            },
    {
        match self.rule(node.node_value.kind()) {
            TextProjectionRule::Writable => TextProjectionKind::Writable(payload_str(&node.node_value)),
            TextProjectionRule::ReadOnly => TextProjectionKind::ReadOnly(payload_str(&node.node_value)),
            TextProjectionRule::Boundary(b) => TextProjectionKind::Boundary(b),
            TextProjectionRule::Transparent => TextProjectionKind::Transparent,
        }
    }
}

/// The character events of `s` from its `from`-th character on, each with
/// its UTF-8 byte offset in `s`.
pub open spec fn char_events(node: NodeId, s: Seq<char>, from: int, writable: bool, level: u32) -> Seq<TextEvent> {
    Seq::new((s.len() - from) as nat, |i: int| char_event(node, s, from + i, writable, level))
}

/// The event of the `k`-th character of `s`.
pub open spec fn char_event(node: NodeId, s: Seq<char>, k: int, writable: bool, level: u32) -> TextEvent {
    TextEvent::Char { node, byte_offset: utf8(s.take(k)).len() as usize, ch: s[k], writable, nesting_level: level }
}

/// The events of a node's own content under `rule`, from its `from`-th
/// character on.
pub open spec fn content_events(rule: TextProjectionRule, n: DocumentNode, from: int, level: u32) -> Seq<TextEvent> {
    match rule {
        TextProjectionRule::Writable => char_events(n.id, payload_text(n.node_value), from, true, level),
        TextProjectionRule::ReadOnly => char_events(n.id, payload_text(n.node_value), from, false, level),
        TextProjectionRule::Boundary(b) => seq![TextEvent::Boundary(b)],
        TextProjectionRule::Transparent => Seq::empty(),
    }
}

/// The projection of the subtree at `id`, at nesting level `level`: its
/// `Enter`, its own content, its children's projections, its `Exit`.
pub open spec fn node_text_events(
    v: DocView,
    rules: Seq<(NodeKind, TextProjectionRule)>,
    id: NodeId,
    level: nat,
    fuel: nat,
) -> Seq<TextEvent>
    decreases fuel, 0int, 0int,
{
    if fuel == 0 {
        Seq::empty()
    } else {
        let n = v.nodes[id];
        seq![TextEvent::Enter { node: id, nesting_level: level as u32 }] + content_events(
            rule_for(rules, n.node_value.spec_kind()),
            n,
            0,
            level as u32,
        ) + forest_text_events(v, rules, n.children@, level + 1, (fuel - 1) as nat) + seq![
            TextEvent::Exit { node: id, nesting_level: level as u32 },
        ]
    }
}

/// The projections of sibling subtrees, in order.
pub open spec fn forest_text_events(
    v: DocView,
    rules: Seq<(NodeKind, TextProjectionRule)>,
    ids: Seq<NodeId>,
    level: nat,
    fuel: nat,
) -> Seq<TextEvent>
    decreases fuel, 1int, ids.len(),
{
    if ids.len() == 0 {
        Seq::empty()
    } else {
        node_text_events(v, rules, ids[0], level, fuel) + forest_text_events(v, rules, ids.drop_first(), level, fuel)
    }
}

/// The whole projection of the subtree at `root`, which is at level 0.
pub open spec fn text_events_of(v: DocView, rules: Seq<(NodeKind, TextProjectionRule)>, root: NodeId) -> Seq<TextEvent> {
    node_text_events(v, rules, root, 0, (v.nodes.dom().len() - v.depth[root]) as nat)
}

/// Every node lies fewer than `u32::MAX` levels deep.
pub open spec fn levels_fit(v: DocView) -> bool {
    forall|x: NodeId| #[trigger] v.nodes.contains_key(x) ==> v.depth[x] < u32::MAX
}

/// In a document of at most `u32::MAX` nodes every nesting level fits: a
/// node's depth is below the number of nodes.
pub proof fn lemma_levels_fit(d: &Document)
    requires
        d.wf(),
        d@.nodes.len() <= u32::MAX,
    ensures
        levels_fit(d@),
{
    d.lemma_tree();
    assert forall|x: NodeId| #[trigger] d@.nodes.contains_key(x) implies d@.depth[x] < u32::MAX by {
        lemma_depth_below_len(d@, x);
    }
}

#[derive(Clone, Copy, PartialEq, Eq, Structural)]
enum Phase {
    Enter,
    Content,
    Children,
}

/// One open node: its rule and characters, how far its content and its
/// children have been projected, and its nesting level.
struct TextFrame<'a> {
    node: &'a DocumentNode,
    rule: TextProjectionRule,
    content: Vec<char>,
    pos: usize,
    byte: usize,
    child: usize,
    phase: Phase,
    level: u32,
}

/// What a frame has yet to produce, its `Exit` included.
spec fn frame_rest(v: DocView, rules: Seq<(NodeKind, TextProjectionRule)>, f: TextFrame) -> Seq<TextEvent> {
    let fuel = (v.nodes.dom().len() - v.depth[f.node.id]) as nat;
    let own = content_events(f.rule, *f.node, f.pos as int, f.level);
    let kids = forest_text_events(v, rules, f.node.children@.skip(f.child as int), (f.level + 1) as nat, (fuel - 1) as nat);
    let exit = seq![TextEvent::Exit { node: f.node.id, nesting_level: f.level }];
    match f.phase {
        Phase::Enter => seq![TextEvent::Enter { node: f.node.id, nesting_level: f.level }] + own + kids + exit,
        Phase::Content => own + kids + exit,
        Phase::Children => kids + exit,
    }
}

/// What the open frames of `stack` have yet to produce, innermost first.
spec fn stack_rest(v: DocView, rules: Seq<(NodeKind, TextProjectionRule)>, stack: Seq<TextFrame>) -> Seq<TextEvent>
    decreases stack.len(),
{
    if stack.len() == 0 {
        Seq::empty()
    } else {
        frame_rest(v, rules, stack.last()) + stack_rest(v, rules, stack.drop_last())
    }
}

/// The bookkeeping of one frame is consistent with the document.
spec fn frame_ok(v: DocView, rules: Seq<(NodeKind, TextProjectionRule)>, base: nat, f: TextFrame) -> bool {
    let n = *f.node;
    &&& v.nodes.contains_key(n.id)
    &&& n == v.nodes[n.id]
    &&& f.rule == rule_for(rules, n.node_value.spec_kind())
    &&& (f.rule is Writable || f.rule is ReadOnly) ==> f.content@ == payload_text(n.node_value)
    &&& f.pos <= f.content@.len()
    &&& f.byte == utf8(f.content@.take(f.pos as int)).len()
    &&& utf8(f.content@).len() <= usize::MAX
    &&& f.child <= n.children@.len()
    &&& f.phase == Phase::Enter ==> f.pos == 0 && f.child == 0
    &&& f.phase == Phase::Content ==> f.child == 0
    &&& v.depth[n.id] >= base
    &&& f.level == v.depth[n.id] - base
}

/// Lazy iterator over one text projection.
pub struct TextEvents<'a> {
    document: &'a Document,
    projection: TextProjection,
    base: Ghost<nat>,
    stack: Vec<TextFrame<'a>>,
}

impl<'a> TextEvents<'a> {
    /// The document being projected.
    pub closed spec fn doc(&self) -> DocView {
        self.document@
    }

    /// The events this projection has yet to produce.
    pub closed spec fn remaining(&self) -> Seq<TextEvent> {
        stack_rest(self.document@, self.projection.rules@, self.stack@)
    }

    /// The projection's bookkeeping is consistent with the document.
    pub closed spec fn inv(&self) -> bool {
        let v = self.document@;
        &&& self.document.wf()
        &&& levels_fit(v)
        &&& forall|i: int|
            #![trigger self.stack@[i]]
            0 <= i < self.stack@.len() ==> frame_ok(v, self.projection.rules@, self.base@, self.stack@[i])
    }

    /// A fresh frame for `node`, which nothing of has been produced yet.
    fn frame(&self, node: &'a DocumentNode, level: u32) -> (f: TextFrame<'a>)
        requires
            self.inv(),
            self.doc().nodes.contains_key(node.id),
            *node == self.doc().nodes[node.id],
            self.doc().depth[node.id] >= self.base@,
            level == self.doc().depth[node.id] - self.base@,
        ensures
            frame_ok(self.doc(), self.projection.rules@, self.base@, f),
            f.node == node,
            f.phase == Phase::Enter,
    {
        let rule = self.projection.rule(node.node_value.kind());
        let content = match rule {
            TextProjectionRule::Writable | TextProjectionRule::ReadOnly => {
                let s = payload_str(&node.node_value);
                let _ = byte_len(s);
                chars_of(s)
            },
            _ => Vec::new(),
        };
        proof {
            assert(content@.take(0) =~= Seq::<char>::empty());
            assert(utf8(Seq::<char>::empty()) =~= Seq::<u8>::empty());
        }
        TextFrame { node, rule, content, pos: 0, byte: 0, child: 0, phase: Phase::Enter, level }
    }

    /// Produce the next character of `f`, which was just taken off the
    /// stack, and put `f` back.
    #[verifier::rlimit(40)]
    fn emit_char(&mut self, f: TextFrame<'a>) -> (r: TextEvent)
        requires
            old(self).inv(),
            frame_ok(old(self).doc(), old(self).projection.rules@, old(self).base@, f),
            f.phase == Phase::Content,
            f.rule is Writable || f.rule is ReadOnly,
            f.pos < f.content@.len(),
        ensures
            final(self).inv(),
            final(self).doc() == old(self).doc(),
            final(self).projection == old(self).projection,
            final(self).base == old(self).base,
            seq![r] + final(self).remaining() == frame_rest(old(self).doc(), old(self).projection.rules@, f)
                + old(self).remaining(),
    {
        let ghost v = self.document@;
        let ghost rules = self.projection.rules@;
        let ghost rest = self.stack@;
        let mut f = f;
        let n = f.content.len();
        let c = f.content[f.pos];
        let writable = match f.rule {
            TextProjectionRule::Writable => true,
            _ => false,
        };
        let event = TextEvent::Char { node: f.node.id, byte_offset: f.byte, ch: c, writable, nesting_level: f.level };
        let ghost s = f.content@;
        let ghost p = f.pos as int;
        let ghost g0 = f;
        let w = char_len_utf8(c);
        proof {
            assert(s == payload_text(f.node.node_value));
            assert(s.take(p + 1) =~= s.take(p).push(c));
            lemma_utf8_push(s.take(p), c);
            assert(s =~= s.take(p + 1) + s.skip(p + 1));
            lemma_utf8_concat(s.take(p + 1), s.skip(p + 1));
        }
        f.byte = f.byte + w;
        f.pos = f.pos + 1;
        let ghost g = f;
        self.stack.push(f);
        proof {
            assert(self.stack@.drop_last() == rest);
            assert(self.stack@.last() == g);
            let own = content_events(g0.rule, *g0.node, p, g0.level);
            if g0.rule is Writable {
                assert(own == char_events(g0.node.id, s, p, true, g0.level));
            } else {
                assert(own == char_events(g0.node.id, s, p, false, g0.level));
            }
            assert(own.len() > 0);
            assert(own[0] == event);
            assert(content_events(g.rule, *g.node, p + 1, g.level) =~= own.drop_first());
            assert(frame_rest(v, rules, g0) =~= seq![event] + frame_rest(v, rules, g));
            assert(self.remaining() == frame_rest(v, rules, g) + stack_rest(v, rules, rest));
        }
        event
    }

    /// Produce the next event of `f`, taken off the stack after its own
    /// content: its next child's `Enter`, or its `Exit`.
    #[verifier::rlimit(40)]
    fn resume(&mut self, f: TextFrame<'a>) -> (r: TextEvent)
        requires
            old(self).inv(),
            frame_ok(old(self).doc(), old(self).projection.rules@, old(self).base@, f),
            f.phase == Phase::Children,
        ensures
            final(self).inv(),
            final(self).doc() == old(self).doc(),
            final(self).projection == old(self).projection,
            final(self).base == old(self).base,
            seq![r] + final(self).remaining() == frame_rest(old(self).doc(), old(self).projection.rules@, f)
                + old(self).remaining(),
    {
        let ghost v = self.document@;
        let ghost rules = self.projection.rules@;
        let ghost rest = self.stack@;
        let ghost fuel = (v.nodes.dom().len() - v.depth[f.node.id]) as nat;
        proof {
            self.document.lemma_tree();
            lemma_depth_below_len(v, f.node.id);
        }
        let mut f = f;
        let node = f.node;
        if f.child < node.children.len() {
            let c = node.children[f.child];
            let child = match self.document.node(c) {
                Ok(n) => n,
                Err(_) => vstd::pervasive::unreached(),
            };
            proof {
                assert(node_ok(v, node.id));
                assert(node_ok(v, c));
                assert(v.depth[c] == v.depth[node.id] + 1);
                assert(child.id == c);
                assert(v.nodes.contains_key(c));
                lemma_depth_below_len(v, c);
            }
            let level = f.level + 1;
            let mut cf = self.frame(child, level);
            let event = TextEvent::Enter { node: c, nesting_level: level };
            let ghost g0 = f;
            f.child = f.child + 1;
            cf.phase = Phase::Content;
            let ghost g = f;
            let ghost cg = cf;
            self.stack.push(f);
            self.stack.push(cf);
            proof {
                let st = self.stack@;
                let f1 = (fuel - 1) as nat;
                let kids = node.children@.skip(g0.child as int);
                assert(kids[0] == c);
                assert(kids.drop_first() =~= node.children@.skip(g.child as int));
                assert(st.drop_last().drop_last() == rest);
                assert(st.last() == cg);
                assert(st.drop_last().last() == g);
                assert(cg.node.children@.skip(0) =~= cg.node.children@);
                assert((v.nodes.dom().len() - v.depth[c]) as nat == f1);
                assert(forest_text_events(v, rules, kids, (g.level + 1) as nat, f1) == node_text_events(v, rules, c, (g.level + 1) as nat, f1)
                    + forest_text_events(v, rules, kids.drop_first(), (g.level + 1) as nat, f1));
                assert(stack_rest(v, rules, st.drop_last()) == frame_rest(v, rules, g) + stack_rest(v, rules, rest));
                assert(stack_rest(v, rules, st) == frame_rest(v, rules, cg) + (frame_rest(v, rules, g) + stack_rest(v, rules, rest)));
                assert(frame_rest(v, rules, g0) + stack_rest(v, rules, rest) =~= seq![event] + self.remaining());
            }
            return event;
        }
        let event = TextEvent::Exit { node: node.id, nesting_level: f.level };
        proof {
            assert(node.children@.skip(f.child as int) =~= Seq::<NodeId>::empty());
            assert(frame_rest(v, rules, f) =~= seq![event]);
        }
        event
    }

    /// The next event of the projection, if any.
    #[verifier::spinoff_prover]
    #[verifier::rlimit(80)]
    pub fn next(&mut self) -> (r: Option<TextEvent>)
        requires
            old(self).inv(),
        ensures
            final(self).inv(),
            final(self).doc() == old(self).doc(),
            old(self).remaining().len() == 0 ==> r is None && final(self).remaining().len() == 0,
            old(self).remaining().len() > 0 ==> r == Some(old(self).remaining()[0]) && final(self).remaining()
                == old(self).remaining().drop_first(),
    {
        let ghost v = self.document@;
        let ghost rules = self.projection.rules@;
        let len = self.stack.len();
        if len == 0 {
            proof {
                assert(self.remaining() =~= Seq::<TextEvent>::empty());
            }
            return None;
        }
        let mut f = self.stack.pop().unwrap();
        let ghost rest = self.stack@;
        proof {
            assert(old(self).stack@.last() == f);
            assert(old(self).stack@.drop_last() == rest);
            assert(frame_ok(v, rules, self.base@, f));
            assert(old(self).remaining() == frame_rest(v, rules, f) + stack_rest(v, rules, rest));
            assert(self.inv());
        }
        let event = if f.phase == Phase::Enter {
            let event = TextEvent::Enter { node: f.node.id, nesting_level: f.level };
            f.phase = Phase::Content;
            let ghost g = f;
            self.stack.push(f);
            proof {
                assert(self.stack@.drop_last() == rest);
                assert(self.stack@.last() == g);
                assert(old(self).remaining() =~= seq![event] + self.remaining());
            }
            event
        } else if f.phase == Phase::Content {
            match f.rule {
                TextProjectionRule::Boundary(b) => {
                    let event = TextEvent::Boundary(b);
                    f.phase = Phase::Children;
                    let ghost g = f;
                    self.stack.push(f);
                    proof {
                        assert(self.stack@.drop_last() == rest);
                        assert(self.stack@.last() == g);
                        assert(old(self).remaining() =~= seq![event] + self.remaining());
                    }
                    event
                },
                TextProjectionRule::Transparent => {
                    let ghost g0 = f;
                    f.phase = Phase::Children;
                    proof {
                        assert(frame_rest(v, rules, g0) =~= frame_rest(v, rules, f));
                    }
                    self.resume(f)
                },
                _ => {
                    if f.pos < f.content.len() {
                        self.emit_char(f)
                    } else {
                        let ghost g0 = f;
                        proof {
                            assert(f.content@ == payload_text(f.node.node_value));
                            let s = f.content@;
                            assert(f.pos == s.len());
                            if f.rule is Writable {
                                assert(content_events(f.rule, *f.node, f.pos as int, f.level) == char_events(f.node.id, s, f.pos as int, true, f.level));
                            } else {
                                assert(content_events(f.rule, *f.node, f.pos as int, f.level) == char_events(f.node.id, s, f.pos as int, false, f.level));
                            }
                            assert(content_events(f.rule, *f.node, f.pos as int, f.level) =~= Seq::<TextEvent>::empty());
                        }
                        f.phase = Phase::Children;
                        proof {
                            assert(frame_rest(v, rules, g0) =~= frame_rest(v, rules, f));
                        }
                        self.resume(f)
                    }
                },
            }
        } else {
            self.resume(f)
        };
        proof {
            assert(old(self).remaining() =~= seq![event] + self.remaining());
        }
        Some(event)
    }
}

impl Document {
    /// Project the whole document into a lazy text event stream.
    pub fn text_events(&self, projection: TextProjection) -> (r: TextEvents<'_>)
        requires
            self.wf(),
            levels_fit(self@),
        ensures
            r.inv(),
            r.doc() == self@,
            r.remaining() == text_events_of(self@, projection.rules(), self@.root),
    {
        proof {
            self.lemma_tree();
        }
        match self.text_events_from(self.root(), projection) {
            Ok(ev) => ev,
            Err(_) => vstd::pervasive::unreached(),
        }
    }

    /// Project one document subtree, rejecting an invalid or stale root ID.
    pub fn text_events_from(&self, root: NodeId, projection: TextProjection) -> (r: Result<TextEvents<'_>, InvalidNodeId>)
        requires
            self.wf(),
            levels_fit(self@),
        ensures
            r is Ok <==> self@.nodes.contains_key(root),
            r matches Ok(ev) ==> ev.inv() && ev.doc() == self@ && ev.remaining() == text_events_of(
                self@,
                projection.rules(),
                root,
            ),
            r matches Err(e) ==> e == InvalidNodeId(root),
    {
        let node = self.node(root)?;
        let ghost v = self@;
        proof {
            self.lemma_tree();
            lemma_depth_below_len(v, root);
            assert(node_ok(v, root));
        }
        let mut events = TextEvents { document: self, projection, base: Ghost(v.depth[root]), stack: Vec::new() };
        let f = events.frame(node, 0);
        events.stack.push(f);
        proof {
            let fuel = (v.nodes.dom().len() - v.depth[root]) as nat;
            assert(events.stack@.drop_last() =~= Seq::<TextFrame>::empty());
            assert(events.stack@.last() == f);
            assert(node.children@.skip(0) =~= node.children@);
            assert(stack_rest(v, events.projection.rules@, Seq::<TextFrame>::empty()) == Seq::<TextEvent>::empty());
            assert(events.remaining() =~= text_events_of(v, events.projection.rules@, root));
        }
        Ok(events)
    }
}

} // verus!
