//! Heading anchors: an `id` attribute (a slug of the heading's text) for
//! every heading, unique within the document.
use vstd::prelude::*;

use crate::arena::NodeId;
use crate::document::{Document, DocView};
use crate::edit::{AttributeChange, BatchView, EditAttribute, EditBatch};
use crate::events::{steps_of, Step, StructuralEvent};
use crate::node::{own_text, tree_text, HtmlAttribute, HtmlAttributes, Node, NodeKind, NodeValue};
use crate::slug::{
    github_slug,
    github_slugify_fn,
    holds,
    made_unique,
    recorded_suffix,
    simple_slug,
    simple_slugify_fn,
    start_suffix,
    unique_slug,
    views,
};
use crate::utf8text::append_all;

verus! {

/// How heading text becomes a slug.
#[derive(Clone, Copy, Debug, PartialEq, Eq, Structural)]
pub enum SlugStrategy {
    Simple,
    GitHub,
}

impl SlugStrategy {
    /// The slug of `text` under this strategy.
    pub open spec fn spec_slugify(self, text: Seq<char>) -> Seq<char> {
        match self {
            SlugStrategy::Simple => simple_slug(text),
            SlugStrategy::GitHub => github_slug(text),
        }
    }

    pub fn slugify(self, text: &str) -> (r: String)
        ensures
            r@ == self.spec_slugify(text@),
    {
        match self {
            SlugStrategy::Simple => simple_slugify_fn(text),
            SlugStrategy::GitHub => github_slugify_fn(text),
        }
    }
}

impl Default for SlugStrategy {
    fn default() -> (r: SlugStrategy)
        ensures
            r == SlugStrategy::Simple,
    {
        SlugStrategy::Simple
    }
}

/// What to do with a heading that already has an `id`.
#[derive(Clone, Copy, Debug, PartialEq, Eq, Structural)]
pub enum ExistingIdPolicy {
    Keep,
    Override,
}

impl Default for ExistingIdPolicy {
    fn default() -> (r: ExistingIdPolicy)
        ensures
            r == ExistingIdPolicy::Keep,
    {
        ExistingIdPolicy::Keep
    }
}

/// How to process an empty slug, such as that of "# !!!".
#[derive(Clone, Debug)]
pub enum EmptySlugPolicy {
    /// Add no `id` attribute.
    Skip,
    /// Use a string as the slug, such as "section".
    Use(String),
}

impl Default for EmptySlugPolicy {
    fn default() -> (r: EmptySlugPolicy)
        ensures
            r is Skip,
    {
        EmptySlugPolicy::Skip
    }
}

#[derive(Clone, Debug)]
pub struct HeadingAnchorsOptions {
    pub strategy: SlugStrategy,
    pub existing_id: ExistingIdPolicy,
    pub empty_slug: EmptySlugPolicy,
    /// A prefix for every slug: with "doc-", "# hello" gets `id="doc-hello"`.
    pub prefix: Option<String>,
}

impl Default for HeadingAnchorsOptions {
    fn default() -> (r: HeadingAnchorsOptions)
        ensures
            r.strategy == SlugStrategy::Simple,
            r.existing_id == ExistingIdPolicy::Keep,
            r.empty_slug is Skip,
            r.prefix is None,
    {
        HeadingAnchorsOptions {
            strategy: SlugStrategy::Simple,
            existing_id: ExistingIdPolicy::Keep,
            empty_slug: EmptySlugPolicy::Skip,
            prefix: None,
        }
    }
}

/// The attribute name `id`.
pub open spec fn id_name() -> Seq<char> {
    seq!['i', 'd']
}

/// Whether `attrs` has an `id` attribute with value `s`.
pub open spec fn has_id_value(attrs: Seq<HtmlAttribute>, s: Seq<char>) -> bool {
    exists|i: int| 0 <= i < attrs.len() && attrs[i].0@ == id_name() && #[trigger] attrs[i].1@ == s
}

/// Whether `attrs` has an `id` attribute.
pub open spec fn has_id(attrs: Seq<HtmlAttribute>) -> bool {
    exists|i: int| 0 <= i < attrs.len() && #[trigger] attrs[i].0@ == id_name()
}

/// Whether a payload is a heading, ATX or setext.
pub open spec fn is_heading_value(v: NodeValue) -> bool {
    v is ATXHeading || v is SetextHeader
}

/// Whether a node is a heading, ATX or setext.
pub fn is_heading(node: &Node) -> (r: bool)
    ensures
        r == is_heading_value(node.node_value),
{
    node.is(NodeKind::ATXHeading) || node.is(NodeKind::SetextHeader)
}

/// The slug a heading with text `text` asks for before it is made unique:
/// the strategy's slug, or the fallback where that is empty, with the
/// prefix in front; empty where the heading gets no slug.
pub open spec fn wanted_slug(options: HeadingAnchorsOptions, text: Seq<char>) -> Seq<char> {
    let s = options.strategy.spec_slugify(text);
    let s = if s.len() == 0 {
        match options.empty_slug {
            EmptySlugPolicy::Skip => Seq::empty(),
            EmptySlugPolicy::Use(f) => f@,
        }
    } else {
        s
    };
    if s.len() == 0 {
        s
    } else {
        match options.prefix {
            Some(p) => p@ + s,
            None => s,
        }
    }
}

/// What happens to a heading's `id` attribute.
#[derive(Debug, PartialEq, Eq)]
pub(crate) enum HeadingIdEdit {
    Keep,
    Remove,
    Assign(String),
}

/// The ids in use so far, and the next suffix to try for each slug.
pub(crate) struct HeadingAnchorState<'a> {
    pub(crate) options: &'a HeadingAnchorsOptions,
    pub(crate) used_ids: Vec<String>,
    pub(crate) next_suffix: Vec<(String, usize)>,
}

/// Whether making `slug` unique could count a suffix past `usize::MAX`.
pub open spec fn suffix_overflows(used: Seq<String>, next: Seq<(String, usize)>, slug: Seq<char>) -> bool {
    views(used).contains(slug) && start_suffix(next, slug) + used.len() >= usize::MAX
}

impl<'a> HeadingAnchorState<'a> {
    fn new(options: &'a HeadingAnchorsOptions) -> (r: HeadingAnchorState<'a>)
        ensures
            r.options == options,
            r.used_ids@.len() == 0,
            r.next_suffix@.len() == 0,
    {
        HeadingAnchorState { options, used_ids: Vec::new(), next_suffix: Vec::new() }
    }

    /// Collect the ids of a node's attributes, except on a heading whose id
    /// is to be overridden.
    fn reserve_ids(&mut self, is_heading: bool, attrs: &HtmlAttributes)
        ensures
            final(self).options == old(self).options,
            final(self).next_suffix@ == old(self).next_suffix@,
            forall|s: Seq<char>| #[trigger] views(final(self).used_ids@).contains(s) <==> (views(
                old(self).used_ids@,
            ).contains(s) || (!(is_heading && old(self).options.existing_id == ExistingIdPolicy::Override)
                && has_id_value(attrs@, s))),
    {
        if is_heading && self.options.existing_id == ExistingIdPolicy::Override {
            return;
        }
        let id = "id".to_owned();
        proof {
            reveal_strlit("id");
        }
        let ghost before = views(self.used_ids@);
        let mut i: usize = 0;
        while i < attrs.len()
            invariant
                i <= attrs@.len(),
                self.options == old(self).options,
                self.next_suffix@ == old(self).next_suffix@,
                id@ == id_name(),
                before == views(old(self).used_ids@),
                forall|s: Seq<char>| #[trigger] views(self.used_ids@).contains(s) <==> (before.contains(s) || exists|j: int|
                    0 <= j < i && attrs@[j].0@ == id_name() && #[trigger] attrs@[j].1@ == s),
            decreases attrs@.len() - i,
        {
            let ghost prev = views(self.used_ids@);
            let is_id = attrs[i].0 == id;
            if is_id && !holds(&self.used_ids, &attrs[i].1) {
                self.used_ids.push(attrs[i].1.clone());
                proof {
                    assert(views(self.used_ids@) =~= prev.push(attrs@[i as int].1@));
                }
            }
            proof {
                let now = views(self.used_ids@);
                assert forall|x: Seq<char>| prev.contains(x) implies now.contains(x) by {
                    let m = choose|m: int| 0 <= m < prev.len() && prev[m] == x;
                    assert(now[m] == x);
                }
                assert forall|s: Seq<char>| #[trigger] now.contains(s) <==> (before.contains(s) || exists|j: int|
                    0 <= j < i + 1 && attrs@[j].0@ == id_name() && #[trigger] attrs@[j].1@ == s) by {
                    if now.contains(s) && !prev.contains(s) {
                        let m = choose|m: int| 0 <= m < now.len() && now[m] == s;
                        assert(m == prev.len());
                        assert(attrs@[i as int].1@ == s);
                        assert(attrs@[i as int].0@ == id_name());
                    }
                    if exists|j: int| 0 <= j < i + 1 && attrs@[j].0@ == id_name() && #[trigger] attrs@[j].1@ == s {
                        let j = choose|j: int| 0 <= j < i + 1 && attrs@[j].0@ == id_name() && #[trigger] attrs@[j].1@ == s;
                        if j < i {
                            assert(prev.contains(s));
                        } else {
                            assert(is_id);
                            if !prev.contains(s) {
                                assert(now[prev.len() as int] == s);
                            }
                        }
                    }
                }
            }
            i = i + 1;
        }
    }

    /// Decide what happens to the `id` of a heading with text `text`.
    fn edit_for_heading(&mut self, has_id: bool, text: &str) -> (r: HeadingIdEdit)
        ensures
            final(self).options == old(self).options,
            ({
                let kept = has_id && old(self).options.existing_id == ExistingIdPolicy::Keep;
                let w = wanted_slug(*old(self).options, text@);
                let left = kept || w.len() == 0 || suffix_overflows(old(self).used_ids@, old(self).next_suffix@, w);
                &&& left ==> final(self).used_ids@ == old(self).used_ids@ && final(self).next_suffix@
                    == old(self).next_suffix@
                &&& (kept || (w.len() > 0 && suffix_overflows(old(self).used_ids@, old(self).next_suffix@, w)))
                    ==> r == HeadingIdEdit::Keep
                &&& !kept && w.len() == 0 ==> r == (if has_id {
                    HeadingIdEdit::Remove
                } else {
                    HeadingIdEdit::Keep
                })
                &&& !left ==> (r matches HeadingIdEdit::Assign(id) && final(self).used_ids@ == old(
                    self,
                ).used_ids@.push(id) && made_unique(
                    views(old(self).used_ids@),
                    old(self).next_suffix@,
                    final(self).next_suffix@,
                    w,
                    id@,
                ))
            }),
    {
        if has_id && self.options.existing_id == ExistingIdPolicy::Keep {
            return HeadingIdEdit::Keep;
        }
        let mut slug = self.options.strategy.slugify(text);
        if slug.as_str().is_empty() {
            match &self.options.empty_slug {
                EmptySlugPolicy::Skip => {
                    return if has_id {
                        HeadingIdEdit::Remove
                    } else {
                        HeadingIdEdit::Keep
                    };
                },
                EmptySlugPolicy::Use(fallback) => {
                    slug = fallback.clone();
                },
            }
        }
        if slug.as_str().is_empty() {
            return if has_id {
                HeadingIdEdit::Remove
            } else {
                HeadingIdEdit::Keep
            };
        }
        if let Some(prefix) = &self.options.prefix {
            let mut prefixed = prefix.clone();
            append_all(&mut prefixed, slug.as_str());
            slug = prefixed;
        }
        if holds(&self.used_ids, &slug) {
            let start = recorded_suffix(&self.next_suffix, &slug);
            if start >= usize::MAX - self.used_ids.len() {
                return HeadingIdEdit::Keep;
            }
        }
        HeadingIdEdit::Assign(unique_slug(slug, &mut self.used_ids, &mut self.next_suffix))
    }
}

/// The node a step visits.
pub open spec fn step_node(s: Step) -> NodeId {
    match s {
        Step::Enter(id) => id,
        Step::Leaf(id) => id,
        Step::Exit(id) => id,
    }
}

/// The ids reserved before any heading is given one: those on the nodes that
/// `steps` enter or visit as leaves, except on headings when existing ids are
/// overridden.
pub open spec fn reserved_ids(v: DocView, steps: Seq<Step>, options: HeadingAnchorsOptions) -> Set<Seq<char>> {
    Set::new(|s: Seq<char>| exists|i: int| 0 <= i < steps.len() && #[trigger] step_reserves(v, steps[i], options, s))
}

/// Whether `step` reserves the id `s`: it enters or visits a node with that
/// id, which is not a heading whose id is to be overridden.
pub open spec fn step_reserves(v: DocView, step: Step, options: HeadingAnchorsOptions, s: Seq<char>) -> bool {
    let n = v.nodes[step_node(step)];
    &&& !(step is Exit)
    &&& !(is_heading_value(n.node_value) && options.existing_id == ExistingIdPolicy::Override)
    &&& has_id_value(n.attrs@, s)
}

/// A batch that holds attribute edits and nothing else.
pub open spec fn only_attrs(b: BatchView) -> bool {
    &&& b.text.len() == 0
    &&& b.srcmaps.len() == 0
    &&& b.removals.len() == 0
    &&& b.insertions.len() == 0
    &&& b.replacements.len() == 0
    &&& b.wraps.len() == 0
}

/// Heading anchors on an owned syntax tree.
pub struct AddHeadingAnchors;

/// `b` is `a` with only the attributes of headings changed.
pub open spec fn same_but_heading_attrs(a: Node, b: Node) -> bool
    decreases a,
{
    &&& b.node_value == a.node_value
    &&& b.srcmap == a.srcmap
    &&& !is_heading_value(a.node_value) ==> b.attrs@ == a.attrs@
    &&& b.children@.len() == a.children@.len()
    &&& forall|i: int|
        #![trigger a.children@[i]]
        0 <= i < a.children@.len() ==> same_but_heading_attrs(a.children@[i], b.children@[i])
}

/// The attributes of `s` other than `id`, in order.
pub open spec fn without_ids(s: Seq<HtmlAttribute>) -> Seq<HtmlAttribute>
    decreases s.len(),
{
    if s.len() == 0 {
        s
    } else if s.last().0@ == id_name() {
        without_ids(s.drop_last())
    } else {
        without_ids(s.drop_last()).push(s.last())
    }
}

/// Remove every `id` attribute.
fn drop_ids(attrs: &mut HtmlAttributes)
    ensures
        final(attrs)@ == without_ids(old(attrs)@),
{
    let id = "id".to_owned();
    proof {
        reveal_strlit("id");
    }
    let mut kept: HtmlAttributes = Vec::new();
    let mut rest: HtmlAttributes = Vec::new();
    std::mem::swap(&mut rest, attrs);
    let ghost all = rest@;
    let mut i: usize = 0;
    proof {
        assert(all.take(0) =~= Seq::<HtmlAttribute>::empty());
    }
    while i < rest.len()
        invariant
            rest@ == all,
            i <= all.len(),
            id@ == id_name(),
            kept@ == without_ids(all.take(i as int)),
        decreases all.len() - i,
    {
        proof {
            assert(all.take(i + 1).drop_last() =~= all.take(i as int));
            assert(all.take(i + 1).last() == all[i as int]);
        }
        if rest[i].0 != id {
            let name = rest[i].0.clone();
            let value = rest[i].1.clone();
            kept.push((name, value));
        }
        i = i + 1;
    }
    proof {
        assert(all.take(all.len() as int) =~= all);
    }
    *attrs = kept;
}

/// Whether the tree `n` reserves the id `s`: one of its nodes has that
/// id and is not a heading whose id is to be overridden.
pub open spec fn tree_reserves(n: Node, options: HeadingAnchorsOptions, s: Seq<char>) -> bool
    decreases n, 1int,
{
    ||| (!(is_heading_value(n.node_value) && options.existing_id == ExistingIdPolicy::Override) && has_id_value(
        n.attrs@,
        s,
    ))
    ||| forest_reserves(n.children@, options, s)
}

/// Whether one of the trees `f` reserves the id `s`.
pub open spec fn forest_reserves(f: Seq<Node>, options: HeadingAnchorsOptions, s: Seq<char>) -> bool
    decreases f, 0int,
{
    if f.len() == 0 {
        false
    } else {
        forest_reserves(f.subrange(0, f.len() - 1), options, s) || tree_reserves(f[f.len() - 1], options, s)
    }
}

/// Collect the ids of a tree's nodes into `state`.
fn reserve_tree(node: &Node, state: &mut HeadingAnchorState)
    ensures
        final(state).options == old(state).options,
        final(state).next_suffix@ == old(state).next_suffix@,
        forall|s: Seq<char>|
            #[trigger] views(final(state).used_ids@).contains(s) <==> (views(old(state).used_ids@).contains(s)
                || tree_reserves(*node, *old(state).options, s)),
    decreases node,
{
    let heading = is_heading(node);
    state.reserve_ids(heading, &node.attrs);
    let ghost opts = *state.options;
    let ghost first = views(state.used_ids@);
    let mut i: usize = 0;
    proof {
        assert(node.children@.subrange(0, 0) =~= Seq::<Node>::empty());
    }
    while i < node.children.len()
        invariant
            i <= node.children@.len(),
            state.options == old(state).options,
            opts == *old(state).options,
            state.next_suffix@ == old(state).next_suffix@,
            forall|s: Seq<char>|
                #[trigger] first.contains(s) <==> (views(old(state).used_ids@).contains(s) || (!(is_heading_value(
                    node.node_value,
                ) && opts.existing_id == ExistingIdPolicy::Override) && has_id_value(node.attrs@, s))),
            forall|s: Seq<char>|
                #[trigger] views(state.used_ids@).contains(s) <==> (first.contains(s) || forest_reserves(
                    node.children@.subrange(0, i as int),
                    opts,
                    s,
                )),
        decreases node.children@.len() - i,
    {
        reserve_tree(&node.children[i], state);
        proof {
            let pre = node.children@.subrange(0, i + 1);
            assert(pre.subrange(0, pre.len() - 1) =~= node.children@.subrange(0, i as int));
            assert(pre[pre.len() - 1] == node.children@[i as int]);
        }
        i = i + 1;
    }
    proof {
        assert(node.children@.subrange(0, node.children@.len() as int) =~= node.children@);
    }
}

/// The attributes of the headings of the tree `n`, in preorder.
pub open spec fn heading_attrs(n: Node) -> Seq<Seq<HtmlAttribute>>
    decreases n, 1int,
{
    (if is_heading_value(n.node_value) {
        seq![n.attrs@]
    } else {
        Seq::empty()
    }) + forest_heading_attrs(n.children@)
}

/// The attributes of the headings of the trees `f`, in preorder.
pub open spec fn forest_heading_attrs(f: Seq<Node>) -> Seq<Seq<HtmlAttribute>>
    decreases f, 0int,
{
    if f.len() == 0 {
        Seq::empty()
    } else {
        forest_heading_attrs(f.subrange(0, f.len() - 1)) + heading_attrs(f[f.len() - 1])
    }
}

/// The texts of the headings of the tree `n`, in preorder.
pub open spec fn heading_texts(n: Node) -> Seq<Seq<char>>
    decreases n, 1int,
{
    (if is_heading_value(n.node_value) {
        seq![tree_text(n)]
    } else {
        Seq::empty()
    }) + forest_heading_texts(n.children@)
}

/// The texts of the headings of the trees `f`, in preorder.
pub open spec fn forest_heading_texts(f: Seq<Node>) -> Seq<Seq<char>>
    decreases f, 0int,
{
    if f.len() == 0 {
        Seq::empty()
    } else {
        forest_heading_texts(f.subrange(0, f.len() - 1)) + heading_texts(f[f.len() - 1])
    }
}

/// Whether `b` is the attributes `a` after decision `d`: the same for no
/// edit; without `id` for a removal; without `id` and then the new `id`
/// last for an assignment.
pub open spec fn applied(d: IdDecision, a: Seq<HtmlAttribute>, b: Seq<HtmlAttribute>) -> bool {
    match d {
        IdDecision::Keep => b == a,
        IdDecision::Remove => b == without_ids(a),
        IdDecision::Assign(s) => b.len() > 0 && b.drop_last() == without_ids(a) && b.last().0@ == id_name()
            && b.last().1@ == s,
    }
}

/// Whether the headings with texts `texts` and attributes `before` get the
/// attributes `after` by the decisions `ds`, chained through the states
/// `used`, `next`.
pub open spec fn decided_chain(
    opts: HeadingAnchorsOptions,
    texts: Seq<Seq<char>>,
    before: Seq<Seq<HtmlAttribute>>,
    after: Seq<Seq<HtmlAttribute>>,
    used: Seq<Seq<String>>,
    next: Seq<Seq<(String, usize)>>,
    ds: Seq<IdDecision>,
) -> bool {
    &&& ds.len() == texts.len()
    &&& ds.len() == before.len()
    &&& ds.len() == after.len()
    &&& used.len() == ds.len() + 1
    &&& next.len() == ds.len() + 1
    &&& forall|k: int|
        0 <= k < ds.len() ==> decides(
            opts,
            used[k],
            next[k],
            has_id(before[k]),
            texts[k],
            #[trigger] ds[k],
            used[k + 1],
            next[k + 1],
        ) && applied(ds[k], before[k], after[k])
}

/// Two chains, the second starting where the first ends, make one.
proof fn lemma_chain_concat(
    opts: HeadingAnchorsOptions,
    t1: Seq<Seq<char>>,
    b1: Seq<Seq<HtmlAttribute>>,
    a1: Seq<Seq<HtmlAttribute>>,
    u1: Seq<Seq<String>>,
    n1: Seq<Seq<(String, usize)>>,
    d1: Seq<IdDecision>,
    t2: Seq<Seq<char>>,
    b2: Seq<Seq<HtmlAttribute>>,
    a2: Seq<Seq<HtmlAttribute>>,
    u2: Seq<Seq<String>>,
    n2: Seq<Seq<(String, usize)>>,
    d2: Seq<IdDecision>,
)
    requires
        decided_chain(opts, t1, b1, a1, u1, n1, d1),
        decided_chain(opts, t2, b2, a2, u2, n2, d2),
        u1.last() == u2[0],
        n1.last() == n2[0],
    ensures
        decided_chain(
            opts,
            t1 + t2,
            b1 + b2,
            a1 + a2,
            u1 + u2.subrange(1, u2.len() as int),
            n1 + n2.subrange(1, n2.len() as int),
            d1 + d2,
        ),
        (u1 + u2.subrange(1, u2.len() as int))[0] == u1[0],
        (u1 + u2.subrange(1, u2.len() as int)).last() == u2.last(),
        (n1 + n2.subrange(1, n2.len() as int))[0] == n1[0],
        (n1 + n2.subrange(1, n2.len() as int)).last() == n2.last(),
{
    let u = u1 + u2.subrange(1, u2.len() as int);
    let n = n1 + n2.subrange(1, n2.len() as int);
    let d = d1 + d2;
    let m = d1.len() as int;
    assert forall|k: int|
        0 <= k < d.len() implies decides(
            opts,
            u[k],
            n[k],
            has_id((b1 + b2)[k]),
            (t1 + t2)[k],
            #[trigger] d[k],
            u[k + 1],
            n[k + 1],
        ) && applied(d[k], (b1 + b2)[k], (a1 + a2)[k]) by {
        if k < m {
            assert(d[k] == d1[k]);
            assert(u[k] == u1[k]);
            if k + 1 < u1.len() {
                assert(u[k + 1] == u1[k + 1]);
                assert(n[k + 1] == n1[k + 1]);
            }
        } else {
            assert(d[k] == d2[k - m]);
            assert(u[k] == u2[k - m]);
            assert(u[k + 1] == u2[k - m + 1]);
            assert(n[k] == n2[k - m]);
            assert(n[k + 1] == n2[k - m + 1]);
        }
    }
}

/// A chain of no decisions, in one state.
proof fn lemma_chain_empty(opts: HeadingAnchorsOptions, u: Seq<String>, n: Seq<(String, usize)>)
    ensures
        decided_chain(opts, Seq::empty(), Seq::empty(), Seq::empty(), seq![u], seq![n], Seq::empty()),
{
}

/// Give the headings of a tree their ids, in preorder; the decisions made
/// and the states between them come back.
fn assign_tree(node: &mut Node, state: &mut HeadingAnchorState) -> (g: Ghost<
    (Seq<Seq<String>>, Seq<Seq<(String, usize)>>, Seq<IdDecision>),
>)
    ensures
        final(state).options == old(state).options,
        same_but_heading_attrs(*old(node), *final(node)),
        decided_chain(
            *old(state).options,
            heading_texts(*old(node)),
            heading_attrs(*old(node)),
            heading_attrs(*final(node)),
            g@.0,
            g@.1,
            g@.2,
        ),
        g@.0[0] == old(state).used_ids@,
        g@.0.last() == final(state).used_ids@,
        g@.1[0] == old(state).next_suffix@,
        g@.1.last() == final(state).next_suffix@,
    decreases *old(node),
{
    let ghost opts = *state.options;
    let ghost u0 = state.used_ids@;
    let ghost n0 = state.next_suffix@;
    let ghost attrs0 = node.attrs@;
    let heading = is_heading(node);
    let ghost mut cu: Seq<Seq<String>> = seq![u0];
    let ghost mut cn: Seq<Seq<(String, usize)>> = seq![n0];
    let ghost mut cd: Seq<IdDecision> = Seq::empty();
    if heading {
        let text = node.collect_text();
        let with_id = attrs_have_id(&node.attrs);
        let edit = state.edit_for_heading(with_id, text.as_str());
        let ghost d = match &edit {
            HeadingIdEdit::Keep => IdDecision::Keep,
            HeadingIdEdit::Remove => IdDecision::Remove,
            HeadingIdEdit::Assign(slug) => IdDecision::Assign(slug@),
        };
        assert(decides(opts, u0, n0, has_id(attrs0), tree_text(*old(node)), d, state.used_ids@, state.next_suffix@))
            by {
            reveal(decides);
        }
        match edit {
            HeadingIdEdit::Keep => {},
            HeadingIdEdit::Remove => {
                drop_ids(&mut node.attrs);
            },
            HeadingIdEdit::Assign(slug) => {
                drop_ids(&mut node.attrs);
                let ghost dropped = node.attrs@;
                node.attrs.push(("id".to_owned(), slug));
                proof {
                    reveal_strlit("id");
                    assert(node.attrs@.drop_last() =~= dropped);
                    assert(node.attrs@.last().0@ == id_name());
                }
            },
        }
        proof {
            assert(applied(d, attrs0, node.attrs@));
            cu = cu.push(state.used_ids@);
            cn = cn.push(state.next_suffix@);
            cd = cd.push(d);
            assert(decided_chain(opts, seq![tree_text(*old(node))], seq![attrs0], seq![node.attrs@], cu, cn, cd));
        }
    } else {
        proof {
            lemma_chain_empty(opts, u0, n0);
        }
    }
    let ghost own_texts: Seq<Seq<char>> = if heading {
        seq![tree_text(*old(node))]
    } else {
        Seq::empty()
    };
    let ghost own_before: Seq<Seq<HtmlAttribute>> = if heading {
        seq![attrs0]
    } else {
        Seq::empty()
    };
    let ghost own_after: Seq<Seq<HtmlAttribute>> = if heading {
        seq![node.attrs@]
    } else {
        Seq::empty()
    };
    let mut kids: Vec<Node> = Vec::new();
    std::mem::swap(&mut kids, &mut node.children);
    let ghost before = kids@;
    let mut done: Vec<Node> = Vec::new();
    let mut rest: Vec<Node> = Vec::new();
    proof {
        assert(kids@ =~= before.subrange(0, kids@.len() as int));
        assert(rest@ =~= before.subrange(kids@.len() as int, before.len() as int).reverse());
    }
    while kids.len() > 0
        invariant
            kids@ == before.subrange(0, kids@.len() as int),
            kids@.len() <= before.len(),
            rest@ == before.subrange(kids@.len() as int, before.len() as int).reverse(),
        decreases kids@.len(),
    {
        let ghost k = kids@.len() as int;
        let x = kids.pop().unwrap();
        rest.push(x);
        proof {
            assert(x == before[k - 1]);
            assert(kids@ =~= before.subrange(0, k - 1));
            assert(rest@ =~= before.subrange(k - 1, before.len() as int).reverse());
        }
    }
    proof {
        assert(done@.len() == 0);
        assert(before.subrange(0, 0) =~= Seq::<Node>::empty());
        assert(own_texts + forest_heading_texts(Seq::<Node>::empty()) =~= own_texts);
        assert(own_before + forest_heading_attrs(Seq::<Node>::empty()) =~= own_before);
        assert(own_after + forest_heading_attrs(Seq::<Node>::empty()) =~= own_after);
    }
    while rest.len() > 0
        invariant
            state.options == old(state).options,
            opts == *old(state).options,
            done@.len() + rest@.len() == before.len(),
            rest@ == before.subrange(done@.len() as int, before.len() as int).reverse(),
            forall|j: int| 0 <= j < done@.len() ==> same_but_heading_attrs(#[trigger] before[j], done@[j]),
            before == old(node).children@,
            decided_chain(
                opts,
                own_texts + forest_heading_texts(before.subrange(0, done@.len() as int)),
                own_before + forest_heading_attrs(before.subrange(0, done@.len() as int)),
                own_after + forest_heading_attrs(done@),
                cu,
                cn,
                cd,
            ),
            cu[0] == u0,
            cn[0] == n0,
            cu.last() == state.used_ids@,
            cn.last() == state.next_suffix@,
        decreases rest@.len(),
    {
        let ghost k = done@.len() as int;
        let mut child = rest.pop().unwrap();
        proof {
            assert(child == before[k]);
            assert(rest@ =~= before.subrange(k + 1, before.len() as int).reverse());
        }
        let ghost child0 = child;
        let g = assign_tree(&mut child, state);
        let ghost done0 = done@;
        done.push(child);
        proof {
            lemma_chain_concat(
                opts,
                own_texts + forest_heading_texts(before.subrange(0, k)),
                own_before + forest_heading_attrs(before.subrange(0, k)),
                own_after + forest_heading_attrs(done0),
                cu,
                cn,
                cd,
                heading_texts(child0),
                heading_attrs(child0),
                heading_attrs(child),
                g@.0,
                g@.1,
                g@.2,
            );
            let pre = before.subrange(0, k + 1);
            assert(pre.subrange(0, k) =~= before.subrange(0, k));
            assert(pre[k] == child0);
            assert(done@.subrange(0, k) =~= done0);
            assert(done@[k] == child);
            assert(own_texts + forest_heading_texts(before.subrange(0, k)) + heading_texts(child0) =~= own_texts
                + forest_heading_texts(pre));
            assert(own_before + forest_heading_attrs(before.subrange(0, k)) + heading_attrs(child0) =~= own_before
                + forest_heading_attrs(pre));
            assert(own_after + forest_heading_attrs(done0) + heading_attrs(child) =~= own_after
                + forest_heading_attrs(done@));
            cu = cu + g@.0.subrange(1, g@.0.len() as int);
            cn = cn + g@.1.subrange(1, g@.1.len() as int);
            cd = cd + g@.2;
        }
    }
    node.children = done;
    proof {
        assert forall|i: int| 0 <= i < old(node).children@.len() implies same_but_heading_attrs(
            #[trigger] old(node).children@[i],
            node.children@[i],
        ) by {
            assert(before[i] == old(node).children@[i]);
        }
        assert(before.subrange(0, before.len() as int) =~= before);
        assert(is_heading_value(node.node_value) == heading);
    }
    Ghost((cu, cn, cd))
}

impl AddHeadingAnchors {
    /// Give the headings of the tree at `root` their ids: first every id on
    /// the tree is reserved (but those of headings when they are to be
    /// overridden), then each heading, in preorder, gets the id that
    /// `options` make of its text, made unique. Only headings' attributes
    /// change.
    pub fn run(root: &mut Node, options: &HeadingAnchorsOptions)
        ensures
            same_but_heading_attrs(*old(root), *final(root)),
            exists|used: Seq<Seq<String>>, next: Seq<Seq<(String, usize)>>, ds: Seq<IdDecision>|
                {
                    &&& decided_chain(
                        *options,
                        heading_texts(*old(root)),
                        heading_attrs(*old(root)),
                        heading_attrs(*final(root)),
                        used,
                        next,
                        ds,
                    )
                    &&& forall|s: Seq<char>| #[trigger] views(used[0]).contains(s) <==> tree_reserves(*old(root), *options, s)
                    &&& next[0].len() == 0
                },
    {
        let mut state = HeadingAnchorState::new(options);
        reserve_tree(root, &mut state);
        let g = assign_tree(root, &mut state);
        proof {
            assert(views(Seq::<String>::empty()) =~= Seq::<Seq<char>>::empty());
        }
    }
}

/// What a walk over `steps` gathers for the headings it meets, in order:
/// their handles, whether each had an `id`, the text met inside each so far,
/// and the positions of the headings still open.
pub ghost struct Gathered {
    pub ids: Seq<NodeId>,
    pub has_ids: Seq<bool>,
    pub texts: Seq<Seq<char>>,
    pub active: Seq<usize>,
}

/// `texts` with `t` added to each entry once per time `active` lists it.
pub open spec fn add_text(texts: Seq<Seq<char>>, active: Seq<usize>, t: Seq<char>) -> Seq<Seq<char>> {
    Seq::new(texts.len(), |j: int| texts[j] + repeated(t, occurrences(active, j, active.len() as int)))
}

/// What the walk over `steps` of the document `v` gathers: a heading is
/// recorded when entered (or visited as a leaf) and stays open until its
/// exit; the text of every node entered or visited (a text node's content, a
/// line break for a soft break) is added to each open heading.
pub open spec fn gather(v: DocView, steps: Seq<Step>) -> Gathered
    decreases steps.len(),
{
    if steps.len() == 0 {
        Gathered { ids: Seq::empty(), has_ids: Seq::empty(), texts: Seq::empty(), active: Seq::empty() }
    } else {
        let g = gather(v, steps.drop_last());
        let st = steps.last();
        let n = v.nodes[step_node(st)];
        let heading = is_heading_value(n.node_value);
        if st is Exit {
            if heading && g.active.len() > 0 {
                Gathered { active: g.active.drop_last(), ..g }
            } else {
                g
            }
        } else {
            let leaf = st is Leaf;
            let g1 = if heading {
                Gathered {
                    ids: g.ids.push(step_node(st)),
                    has_ids: g.has_ids.push(has_id(n.attrs@)),
                    texts: g.texts.push(Seq::empty()),
                    active: if leaf {
                        g.active
                    } else {
                        g.active.push(g.ids.len() as usize)
                    },
                }
            } else {
                g
            };
            if heading && leaf {
                g1
            } else {
                Gathered { texts: add_text(g1.texts, g1.active, own_text(n.node_value)), ..g1 }
            }
        }
    }
}

/// What happens to one heading's `id`: nothing, removal, or the id given.
pub ghost enum IdDecision {
    Keep,
    Remove,
    Assign(Seq<char>),
}

/// Whether `d` is what a heading with text `text` (and an `id` already, if
/// `has_id`) gets, when the ids in use are `used` and the recorded suffixes
/// `next`, and `used2`, `next2` are what they become: a kept id stays; an
/// empty wanted slug removes the id; otherwise the wanted slug is made
/// unique and recorded, unless its suffix could overflow.
#[verifier::opaque]
pub open spec fn decides(
    opts: HeadingAnchorsOptions,
    used: Seq<String>,
    next: Seq<(String, usize)>,
    has_id: bool,
    text: Seq<char>,
    d: IdDecision,
    used2: Seq<String>,
    next2: Seq<(String, usize)>,
) -> bool {
    let kept = has_id && opts.existing_id == ExistingIdPolicy::Keep;
    let w = wanted_slug(opts, text);
    let left = kept || w.len() == 0 || suffix_overflows(used, next, w);
    &&& left ==> used2 == used && next2 == next
    &&& (kept || (w.len() > 0 && suffix_overflows(used, next, w))) ==> d == IdDecision::Keep
    &&& !kept && w.len() == 0 ==> d == (if has_id {
        IdDecision::Remove
    } else {
        IdDecision::Keep
    })
    &&& !left ==> (d matches IdDecision::Assign(id) && used2 == used.push(used2.last()) && used2.last()@ == id
        && made_unique(views(used), next, next2, w, id))
}

/// The number of edits the first `k` decisions make.
pub open spec fn edit_count(ds: Seq<IdDecision>, k: int) -> int
    decreases k,
{
    if k <= 0 {
        0
    } else {
        edit_count(ds, k - 1) + if ds[k - 1] is Keep {
            0int
        } else {
            1int
        }
    }
}

/// Whether `e` is the edit that decision `d` makes on the heading `node`.
#[verifier::opaque]
pub open spec fn edit_is(e: EditAttribute, node: NodeId, d: IdDecision) -> bool {
    &&& e.node == node
    &&& e.name@ == id_name()
    &&& match d {
        IdDecision::Keep => false,
        IdDecision::Remove => e.change is Remove,
        IdDecision::Assign(s) => e.change matches AttributeChange::Assign(x) && x@ == s,
    }
}

/// The edits `attrs` follow the decisions `ds` on the first headings of
/// `g`, with the states `used`, `next` between them, starting from the
/// reserved ids.
pub open spec fn plan_prefix(
    opts: HeadingAnchorsOptions,
    reserved: Set<Seq<char>>,
    g: Gathered,
    attrs: Seq<EditAttribute>,
    used: Seq<Seq<String>>,
    next: Seq<Seq<(String, usize)>>,
    ds: Seq<IdDecision>,
) -> bool {
    &&& used.len() == ds.len() + 1
    &&& next.len() == ds.len() + 1
    &&& forall|s: Seq<char>| #[trigger] views(used[0]).contains(s) <==> reserved.contains(s)
    &&& next[0].len() == 0
    &&& forall|k: int|
        0 <= k < ds.len() ==> decides(
            opts,
            used[k],
            next[k],
            g.has_ids[k],
            g.texts[k],
            #[trigger] ds[k],
            used[k + 1],
            next[k + 1],
        )
    &&& attrs.len() == edit_count(ds, ds.len() as int)
    &&& forall|k: int|
        0 <= k < ds.len() && !(#[trigger] ds[k] is Keep) ==> edit_is(attrs[edit_count(ds, k)], g.ids[k], ds[k])
}

/// The edits `attrs` follow the decisions `ds` on all the headings of `g`.
pub open spec fn planned_with(
    opts: HeadingAnchorsOptions,
    reserved: Set<Seq<char>>,
    g: Gathered,
    attrs: Seq<EditAttribute>,
    used: Seq<Seq<String>>,
    next: Seq<Seq<(String, usize)>>,
    ds: Seq<IdDecision>,
) -> bool {
    &&& ds.len() == g.ids.len()
    &&& plan_prefix(opts, reserved, g, attrs, used, next, ds)
}

/// One more heading's decision extends a plan.
proof fn lemma_plan_step(
    opts: HeadingAnchorsOptions,
    reserved: Set<Seq<char>>,
    g: Gathered,
    attrs: Seq<EditAttribute>,
    attrs2: Seq<EditAttribute>,
    used: Seq<Seq<String>>,
    next: Seq<Seq<(String, usize)>>,
    ds: Seq<IdDecision>,
    d: IdDecision,
    used2: Seq<String>,
    next2: Seq<(String, usize)>,
)
    requires
        plan_prefix(opts, reserved, g, attrs, used, next, ds),
        decides(opts, used.last(), next.last(), g.has_ids[ds.len() as int], g.texts[ds.len() as int], d, used2, next2),
        d is Keep ==> attrs2 == attrs,
        !(d is Keep) ==> attrs2.len() == attrs.len() + 1 && attrs2.drop_last() == attrs && edit_is(
            attrs2.last(),
            g.ids[ds.len() as int],
            d,
        ),
    ensures
        plan_prefix(opts, reserved, g, attrs2, used.push(used2), next.push(next2), ds.push(d)),
{
    let k = ds.len() as int;
    let ds2 = ds.push(d);
    let us2 = used.push(used2);
    let ns2 = next.push(next2);
    assert forall|m: int| 0 <= m <= k implies edit_count(ds2, m) == edit_count(ds, m) by {
        lemma_edit_count_push(ds, d, m);
    }
    assert(ds2[k] == d);
    assert(attrs2.len() == edit_count(ds2, k + 1));
    assert forall|m: int| 0 <= m < ds2.len() && !(#[trigger] ds2[m] is Keep) implies edit_is(
        attrs2[edit_count(ds2, m)],
        g.ids[m],
        ds2[m],
    ) by {
        if m < k {
            assert(ds2[m] == ds[m]);
            lemma_edit_count_grows(ds, m, k);
            let i = edit_count(ds, m);
            assert(0 <= i < attrs.len()) by {
                lemma_edit_count_nonneg(ds, m);
            }
            if !(d is Keep) {
                assert(attrs2.drop_last()[i] == attrs2[i]);
            }
            assert(attrs2[i] == attrs[i]);
        }
    }
    assert forall|m: int|
        0 <= m < ds2.len() implies decides(
            opts,
            us2[m],
            ns2[m],
            g.has_ids[m],
            g.texts[m],
            #[trigger] ds2[m],
            us2[m + 1],
            ns2[m + 1],
        ) by {
        if m < k {
            assert(ds2[m] == ds[m]);
        }
    }
}

/// The edits `attrs` give the headings of `g`, in order, their ids: each
/// heading's decision made from its text, the ids in use (the reserved ones
/// at first) and the suffixes recorded so far.
pub open spec fn planned(opts: HeadingAnchorsOptions, reserved: Set<Seq<char>>, g: Gathered, attrs: Seq<EditAttribute>) -> bool {
    exists|used: Seq<Seq<String>>, next: Seq<Seq<(String, usize)>>, ds: Seq<IdDecision>|
        planned_with(opts, reserved, g, attrs, used, next, ds)
}

/// Counting edits over a prefix does not look past it.
proof fn lemma_edit_count_push(ds: Seq<IdDecision>, d: IdDecision, k: int)
    requires
        0 <= k <= ds.len(),
    ensures
        edit_count(ds.push(d), k) == edit_count(ds, k),
    decreases k,
{
    if k > 0 {
        lemma_edit_count_push(ds, d, k - 1);
    }
}

/// Heading anchors over an arena-backed document, with owned options.
#[derive(Debug)]
pub struct HeadingAnchorsDocumentTransform {
    options: HeadingAnchorsOptions,
}

impl HeadingAnchorsDocumentTransform {
    /// The options this transform runs with.
    pub closed spec fn spec_options(&self) -> HeadingAnchorsOptions {
        self.options
    }

    pub fn new(options: HeadingAnchorsOptions) -> (r: HeadingAnchorsDocumentTransform)
        ensures
            r.spec_options() == options,
    {
        HeadingAnchorsDocumentTransform { options }
    }

    pub fn options(&self) -> (r: &HeadingAnchorsOptions)
        ensures
            *r == self.spec_options(),
    {
        &self.options
    }

    /// The edits that give the document's headings their ids. First every
    /// id in the document is reserved (but those of headings when they are
    /// to be overridden); then each heading, in preorder, gets the id that
    /// the options make of its text, made unique, or loses an id its text
    /// gives no slug for, or keeps what it has. Each edit sets or removes the
    /// `id` of a heading, and the ids set are new: distinct from each other
    /// and from every id reserved in the document.
    #[verifier::rlimit(60)]
    pub fn run(&self, document: &Document) -> (r: EditBatch)
        requires
            document.wf(),
        ensures
            only_attrs(r@),
            forall|i: int|
                #![trigger r@.attrs[i]]
                0 <= i < r@.attrs.len() ==> {
                    &&& r@.attrs[i].name@ == id_name()
                    &&& document@.nodes.contains_key(r@.attrs[i].node)
                    &&& is_heading_value(document@.nodes[r@.attrs[i].node].node_value)
                    &&& (r@.attrs[i].change matches AttributeChange::Assign(s) ==> !reserved_ids(
                        document@,
                        steps_of(document@, document@.root),
                        self.spec_options(),
                    ).contains(s@))
                },
            forall|i: int, j: int|
                0 <= i < j < r@.attrs.len() && r@.attrs[i].change is Assign && r@.attrs[j].change is Assign
                    ==> #[trigger] r@.attrs[i].change->Assign_0@ != #[trigger] r@.attrs[j].change->Assign_0@,
            planned(
                self.spec_options(),
                reserved_ids(document@, steps_of(document@, document@.root), self.spec_options()),
                gather(document@, steps_of(document@, document@.root)),
                r@.attrs,
            ),
    {
        let ghost v = document@;
        let ghost opts = self.options;
        let mut edits = EditBatch::new();
        let mut events = match document.events(document.root()) {
            Ok(ev) => ev,
            Err(_) => {
                proof {
                    document.lemma_tree();
                    assert(document@.nodes.dom().contains(document@.root));
                }
                return edits;
            },
        };
        let ghost all = events.remaining();
        let ghost mut done: Seq<Step> = Seq::empty();
        let mut state = HeadingAnchorState::new(&self.options);
        let mut ids: Vec<NodeId> = Vec::new();
        let mut has_ids: Vec<bool> = Vec::new();
        let mut texts: Vec<String> = Vec::new();
        let mut active: Vec<usize> = Vec::new();
        proof {
            assert(all =~= done + events.remaining());
        }
        loop
            invariant
                events.inv(),
                events.doc() == v,
                v == document@,
                all == steps_of(v, v.root),
                all == done + events.remaining(),
                *state.options == opts,
                opts == self.spec_options(),
                state.next_suffix@.len() == 0,
                forall|s: Seq<char>| #[trigger] views(state.used_ids@).contains(s) <==> reserved_ids(v, done, opts).contains(s),
                ids@.len() == has_ids@.len(),
                ids@.len() == texts@.len(),
                forall|k: int|
                    0 <= k < ids@.len() ==> v.nodes.contains_key(#[trigger] ids@[k]) && is_heading_value(
                        v.nodes[ids@[k]].node_value,
                    ),
                forall|k: int| 0 <= k < active@.len() ==> #[trigger] active@[k] < ids@.len(),
                edits@.count() == 0,
                ids@ == gather(v, done).ids,
                has_ids@ == gather(v, done).has_ids,
                views(texts@) == gather(v, done).texts,
                active@ == gather(v, done).active,
            ensures
                all == done,
            decreases events.remaining().len(),
        {
            let ghost seen = done;
            let next = events.next();
            let e = match next {
                None => {
                    proof {
                        assert(all =~= done);
                    }
                    break;
                },
                Some(e) => e,
            };
            proof {
                done = done.push(e.step());
                assert(all =~= done + events.remaining());
                assert(done.drop_last() =~= seen);
                assert(done.last() == e.step());
            }
            let ghost g0 = gather(v, seen);
            let node = e.node();
            let heading = node.is(NodeKind::ATXHeading) || node.is(NodeKind::SetextHeader);
            let exit = match e {
                StructuralEvent::Exit(_) => true,
                _ => false,
            };
            proof {
                assert(step_node(e.step()) == e.spec_node().id);
                assert(v.nodes[step_node(e.step())] == e.spec_node());
            }
            if exit {
                if heading {
                    active.pop();
                }
                proof {
                    assert(e.step() is Exit);
                    assert(active@ =~= gather(v, done).active);
                }
                proof {
                    assert forall|s: Seq<char>| #[trigger] reserved_ids(v, done, opts).contains(s) <==> reserved_ids(v, seen, opts).contains(s) by {
                        if reserved_ids(v, done, opts).contains(s) {
                            let i = choose|i: int| 0 <= i < done.len() && #[trigger] step_reserves(v, done[i], opts, s);
                            assert(i < seen.len());
                            assert(done[i] == seen[i]);
                        }
                        if reserved_ids(v, seen, opts).contains(s) {
                            let i = choose|i: int| 0 <= i < seen.len() && #[trigger] step_reserves(v, seen[i], opts, s);
                            assert(done[i] == seen[i]);
                        }
                    }
                }
            } else {
                state.reserve_ids(heading, &node.attrs);
                proof {
                    let n = v.nodes[step_node(e.step())];
                    assert(n == e.spec_node());
                    assert(heading == is_heading_value(node.node_value));
                    assert forall|s: Seq<char>| #[trigger] reserved_ids(v, done, opts).contains(s) <==> (reserved_ids(
                        v,
                        seen,
                        opts,
                    ).contains(s) || (!(heading && opts.existing_id == ExistingIdPolicy::Override)
                        && has_id_value(node.attrs@, s))) by {
                        let last = done.len() - 1;
                        if reserved_ids(v, done, opts).contains(s) {
                            let i = choose|i: int| 0 <= i < done.len() && #[trigger] step_reserves(v, done[i], opts, s);
                            if i < last {
                                assert(done[i] == seen[i]);
                            } else {
                                assert(done[last] == e.step());
                                assert(step_reserves(v, e.step(), opts, s));
                            }
                        }
                        if reserved_ids(v, seen, opts).contains(s) {
                            let i = choose|i: int| 0 <= i < seen.len() && #[trigger] step_reserves(v, seen[i], opts, s);
                            assert(done[i] == seen[i]);
                        }
                        if !(heading && opts.existing_id == ExistingIdPolicy::Override) && has_id_value(node.attrs@, s) {
                            assert(done[last] == e.step());
                            assert(step_reserves(v, done[last], opts, s));
                        }
                    }
                }
                let is_leaf = match e {
                    StructuralEvent::Leaf(_) => true,
                    _ => false,
                };
                proof {
                    assert(is_leaf == (e.step() is Leaf));
                    assert(!(e.step() is Exit));
                }
                if heading {
                    proof {
                        assert(v.nodes.contains_key(node.id));
                    }
                    if !is_leaf {
                        active.push(ids.len());
                    }
                    ids.push(node.id);
                    has_ids.push(attrs_have_id(&node.attrs));
                    let ghost pre_texts = views(texts@);
                    texts.push(String::new());
                    proof {
                        assert(views(texts@) =~= pre_texts.push(Seq::<char>::empty()));
                    }
                }
                let ghost g1 = Gathered { ids: ids@, has_ids: has_ids@, texts: views(texts@), active: active@ };
                proof {
                    if heading {
                        assert(g1.ids =~= g0.ids.push(step_node(e.step())));
                        assert(g1.has_ids =~= g0.has_ids.push(has_id(node.attrs@)));
                        assert(g1.texts =~= g0.texts.push(Seq::<char>::empty()));
                        if is_leaf {
                            assert(g1.active =~= g0.active);
                        } else {
                            assert(g1.active =~= g0.active.push(g0.ids.len() as usize));
                        }
                    } else {
                        assert(g1 == g0);
                    }
                }
                if !(heading && is_leaf) {
                    append_document_text(&node.node_value, &active, &mut texts);
                    proof {
                        assert(views(texts@) =~= add_text(g1.texts, g1.active, own_text(node.node_value)));
                    }
                }
                proof {
                    assert(ids@ =~= gather(v, done).ids);
                    assert(has_ids@ =~= gather(v, done).has_ids);
                    assert(views(texts@) =~= gather(v, done).texts);
                    assert(active@ =~= gather(v, done).active);
                }
            }
        }
        let ghost g = gather(v, all);
        let ghost reserved = reserved_ids(v, all, opts);
        let ghost mut used_s: Seq<Seq<String>> = seq![state.used_ids@];
        let ghost mut next_s: Seq<Seq<(String, usize)>> = seq![state.next_suffix@];
        let ghost mut ds: Seq<IdDecision> = Seq::empty();
        let mut k: usize = 0;
        while k < ids.len()
            invariant
                k <= ids@.len(),
                ids@ == g.ids,
                has_ids@ == g.has_ids,
                views(texts@) == g.texts,
                ds.len() == k,
                used_s.last() == state.used_ids@,
                next_s.last() == state.next_suffix@,
                reserved == reserved_ids(v, all, opts),
                plan_prefix(opts, reserved, g, edits@.attrs, used_s, next_s, ds),
                ids@.len() == has_ids@.len(),
                ids@.len() == texts@.len(),
                *state.options == opts,
                opts == self.spec_options(),
                v == document@,
                forall|i: int|
                    0 <= i < ids@.len() ==> v.nodes.contains_key(#[trigger] ids@[i]) && is_heading_value(
                        v.nodes[ids@[i]].node_value,
                    ),
                forall|s: Seq<char>| #[trigger] reserved_ids(v, all, opts).contains(s) ==> views(state.used_ids@).contains(s),
                only_attrs(edits@),
                forall|i: int|
                    #![trigger edits@.attrs[i]]
                    0 <= i < edits@.attrs.len() ==> {
                        &&& edits@.attrs[i].name@ == id_name()
                        &&& v.nodes.contains_key(edits@.attrs[i].node)
                        &&& is_heading_value(v.nodes[edits@.attrs[i].node].node_value)
                        &&& (edits@.attrs[i].change matches AttributeChange::Assign(s) ==> !reserved_ids(
                            v,
                            all,
                            opts,
                        ).contains(s@) && views(state.used_ids@).contains(s@))
                    },
                forall|i: int, j: int|
                    0 <= i < j < edits@.attrs.len() && edits@.attrs[i].change is Assign && edits@.attrs[j].change is Assign
                        ==> #[trigger] edits@.attrs[i].change->Assign_0@ != #[trigger] edits@.attrs[j].change->Assign_0@,
            decreases ids@.len() - k,
        {
            let ghost used_before = views(state.used_ids@);
            let ghost old_used = state.used_ids@;
            let ghost next_before = state.next_suffix@;
            proof {
                assert(texts@[k as int]@ == g.texts[k as int]);
            }
            let edit = state.edit_for_heading(has_ids[k], texts[k].as_str());
            let ghost d = match &edit {
                HeadingIdEdit::Keep => IdDecision::Keep,
                HeadingIdEdit::Remove => IdDecision::Remove,
                HeadingIdEdit::Assign(slug) => IdDecision::Assign(slug@),
            };
            assert(decides(
                opts,
                old_used,
                next_before,
                g.has_ids[k as int],
                g.texts[k as int],
                d,
                state.used_ids@,
                state.next_suffix@,
            )) by {
                reveal(decides);
            }
            proof {
                reveal_strlit("id");
                assert(state.used_ids@.subrange(0, old_used.len() as int) =~= old_used);
                assert forall|s: Seq<char>| used_before.contains(s) implies views(state.used_ids@).contains(s) by {
                    let m = choose|m: int| 0 <= m < used_before.len() && used_before[m] == s;
                    assert(state.used_ids@.subrange(0, old_used.len() as int)[m] == old_used[m]);
                    assert(views(state.used_ids@)[m] == s);
                }
            }
            let ghost before = edits@;
            let ghost used_now = views(state.used_ids@);
            match edit {
                HeadingIdEdit::Keep => {},
                HeadingIdEdit::Remove => {
                    edits.remove_attribute(ids[k], "id");
                    proof {
                        assert forall|i: int| 0 <= i < before.attrs.len() implies edits@.attrs[i] == before.attrs[i] by {
                            assert(edits@.attrs.drop_last()[i] == before.attrs[i]);
                        }
                        assert forall|i: int, j: int|
                            0 <= i < j < edits@.attrs.len() && edits@.attrs[i].change is Assign
                                && edits@.attrs[j].change is Assign implies #[trigger] edits@.attrs[i].change->Assign_0@
                                != #[trigger] edits@.attrs[j].change->Assign_0@ by {
                            assert(edits@.attrs[i] == before.attrs[i]);
                            assert(edits@.attrs[j] == before.attrs[j]);
                        }
                        assert forall|i: int| 0 <= i < edits@.attrs.len() implies {
                            &&& edits@.attrs[i].name@ == id_name()
                            &&& v.nodes.contains_key(edits@.attrs[i].node)
                            &&& is_heading_value(v.nodes[edits@.attrs[i].node].node_value)
                            &&& (edits@.attrs[i].change matches AttributeChange::Assign(s) ==> !reserved_ids(v, all, opts).contains(s@)
                                && views(state.used_ids@).contains(s@))
                        } by {
                            if i < before.attrs.len() {
                                assert(edits@.attrs[i] == before.attrs[i]);
                            }
                        }
                    }
                },
                HeadingIdEdit::Assign(slug) => {
                    edits.set_attribute(ids[k], "id", slug.as_str());
                    proof {
                        let n = used_now.len() - 1;
                        assert(used_now[n] == slug@);
                        assert forall|i: int| 0 <= i < before.attrs.len() implies edits@.attrs[i] == before.attrs[i] by {
                            assert(edits@.attrs.drop_last()[i] == before.attrs[i]);
                        }
                        assert(!used_before.contains(slug@));
                        assert forall|i: int| 0 <= i < before.attrs.len() && before.attrs[i].change is Assign implies
                            before.attrs[i].change->Assign_0@ != slug@ by {
                            assert(used_before.contains(before.attrs[i].change->Assign_0@));
                        }
                        let last = edits@.attrs.len() - 1;
                        assert(edits@.attrs[last].change->Assign_0@ == slug@);
                        assert forall|i: int| 0 <= i < edits@.attrs.len() implies {
                            &&& edits@.attrs[i].name@ == id_name()
                            &&& v.nodes.contains_key(edits@.attrs[i].node)
                            &&& is_heading_value(v.nodes[edits@.attrs[i].node].node_value)
                            &&& (edits@.attrs[i].change matches AttributeChange::Assign(s) ==> !reserved_ids(v, all, opts).contains(s@)
                                && views(state.used_ids@).contains(s@))
                        } by {
                            if i < before.attrs.len() {
                                assert(edits@.attrs[i] == before.attrs[i]);
                            }
                        }
                        assert(!reserved_ids(v, all, opts).contains(slug@));
                        assert forall|i: int, j: int|
                            0 <= i < j < edits@.attrs.len() && edits@.attrs[i].change is Assign
                                && edits@.attrs[j].change is Assign implies #[trigger] edits@.attrs[i].change->Assign_0@
                                != #[trigger] edits@.attrs[j].change->Assign_0@ by {
                            assert(edits@.attrs[i] == before.attrs[i]);
                            if j < before.attrs.len() {
                                assert(edits@.attrs[j] == before.attrs[j]);
                            }
                        }
                    }
                },
            }
            proof {
                if d is Keep {
                    assert(edits@.attrs == before.attrs);
                } else {
                    assert(edits@.attrs.drop_last() == before.attrs);
                    assert(ids@[k as int] == g.ids[k as int]);
                    assert(edit_is(edits@.attrs.last(), g.ids[k as int], d)) by {
                        reveal(edit_is);
                    }
                }
                lemma_plan_step(
                    opts,
                    reserved,
                    g,
                    before.attrs,
                    edits@.attrs,
                    used_s,
                    next_s,
                    ds,
                    d,
                    state.used_ids@,
                    state.next_suffix@,
                );
                used_s = used_s.push(state.used_ids@);
                next_s = next_s.push(state.next_suffix@);
                ds = ds.push(d);
            }
            k = k + 1;
        }
        proof {
            assert(planned_with(opts, reserved, g, edits@.attrs, used_s, next_s, ds));
        }
        edits
    }
}

/// No prefix makes a negative number of edits.
proof fn lemma_edit_count_nonneg(ds: Seq<IdDecision>, m: int)
    ensures
        edit_count(ds, m) >= 0,
    decreases m,
{
    if m > 0 {
        lemma_edit_count_nonneg(ds, m - 1);
    }
}

/// Later prefixes make no fewer edits, and one more where the decision in
/// between makes one.
proof fn lemma_edit_count_grows(ds: Seq<IdDecision>, m: int, k: int)
    requires
        0 <= m < k <= ds.len(),
        !(ds[m] is Keep),
    ensures
        edit_count(ds, m) < edit_count(ds, k),
    decreases k - m,
{
    if k > m + 1 {
        lemma_edit_count_grows(ds, m, k - 1);
    }
}

/// Whether `attrs` has an `id` attribute.
fn attrs_have_id(attrs: &HtmlAttributes) -> (r: bool)
    ensures
        r == has_id(attrs@),
{
    let id = "id".to_owned();
    proof {
        reveal_strlit("id");
    }
    let mut i: usize = 0;
    while i < attrs.len()
        invariant
            i <= attrs@.len(),
            id@ == id_name(),
            forall|j: int| 0 <= j < i ==> attrs@[j].0@ != id_name(),
        decreases attrs@.len() - i,
    {
        if attrs[i].0 == id {
            return true;
        }
        i = i + 1;
    }
    false
}

/// How many times `j` occurs among the first `n` entries of `a`.
pub open spec fn occurrences(a: Seq<usize>, j: int, n: int) -> nat
    decreases n,
{
    if n <= 0 {
        0
    } else {
        occurrences(a, j, n - 1) + if a[n - 1] == j {
            1nat
        } else {
            0nat
        }
    }
}

/// `s` written `n` times in a row.
pub open spec fn repeated(s: Seq<char>, n: nat) -> Seq<char>
    decreases n,
{
    if n == 0 {
        Seq::empty()
    } else {
        repeated(s, (n - 1) as nat) + s
    }
}

proof fn lemma_repeated_empty(n: nat)
    ensures
        repeated(Seq::<char>::empty(), n) == Seq::<char>::empty(),
    decreases n,
{
    if n > 0 {
        lemma_repeated_empty((n - 1) as nat);
        assert(repeated(Seq::<char>::empty(), n) =~= Seq::<char>::empty());
    }
}

/// Append the text a node contributes (that of a text node, or a line break
/// for a soft break) to the heading texts listed in `active`, once per
/// listing.
fn append_document_text(value: &NodeValue, active: &Vec<usize>, texts: &mut Vec<String>)
    requires
        forall|k: int| 0 <= k < active@.len() ==> #[trigger] active@[k] < old(texts)@.len(),
    ensures
        final(texts)@.len() == old(texts)@.len(),
        forall|j: int|
            0 <= j < old(texts)@.len() ==> #[trigger] final(texts)@[j]@ == old(texts)@[j]@ + repeated(
                own_text(*value),
                occurrences(active@, j, active@.len() as int),
            ),
{
    proof {
        reveal_strlit("\n");
    }
    let content: &str = match value {
        NodeValue::Text(t) => t.content.as_str(),
        NodeValue::TextSpecial(t) => t.content.as_str(),
        NodeValue::Softbreak(_) => "\n",
        _ => {
            proof {
                assert forall|j: int| 0 <= j < texts@.len() implies #[trigger] texts@[j]@ == texts@[j]@ + repeated(
                    own_text(*value),
                    occurrences(active@, j, active@.len() as int),
                ) by {
                    lemma_repeated_empty(occurrences(active@, j, active@.len() as int));
                    assert(texts@[j]@ + Seq::<char>::empty() =~= texts@[j]@);
                }
            }
            return;
        },
    };
    proof {
        assert(content@ == own_text(*value));
    }
    let ghost t = own_text(*value);
    let mut k: usize = 0;
    while k < active.len()
        invariant
            k <= active@.len(),
            t == content@,
            texts@.len() == old(texts)@.len(),
            forall|j: int| 0 <= j < active@.len() ==> #[trigger] active@[j] < texts@.len(),
            forall|j: int|
                0 <= j < texts@.len() ==> #[trigger] texts@[j]@ == old(texts)@[j]@ + repeated(t, occurrences(active@, j, k as int)),
        decreases active@.len() - k,
    {
        let at = active[k];
        let ghost pre = texts@;
        let mut text = texts[at].clone();
        append_all(&mut text, content);
        texts.set(at, text);
        proof {
            assert forall|j: int| 0 <= j < texts@.len() implies #[trigger] texts@[j]@ == old(texts)@[j]@ + repeated(
                t,
                occurrences(active@, j, k + 1),
            ) by {
                if j == at {
                    assert(texts@[j]@ =~= old(texts)@[j]@ + (repeated(t, occurrences(active@, j, k as int)) + t));
                } else {
                    assert(texts@[j] == pre[j]);
                }
            }
        }
        k = k + 1;
    }
}

} // verus!
