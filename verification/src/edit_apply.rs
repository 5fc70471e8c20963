//! Applying the structural edits of a valid batch: removals, then
//! replacements, wraps and insertions, each in a fixed order.
use vstd::prelude::*;

use crate::arena::NodeId;
use crate::document::{kept_or_retired, lemma_retire_chain, tree_wf, Document, DocView};
use crate::edit::{BatchView, InsertSibling, ReplaceNode, SiblingPosition, WrapRange};
use crate::edit_shape::{
    closed, kept, lemma_insert_step, lemma_removal_step, lemma_replace_step, lemma_wrap_step,
    order_kept, selected_set, sib_before, survives, lemma_child_at_index,
};
use crate::edit_spec::{
    child_index, insertions_valid, removals_valid, replaced_targets, replacements_valid,
    wrap_ok, wrap_parent, wrap_selects, wraps_overlap, wraps_valid,
};
use crate::edit_wrap::lemma_index_of;
use crate::node::{tree_size, Node};
use crate::subtree::{disjoint_roots, in_subtree, insert_one, removal_result, replace_one, subtrees, wrap_one};

verus! {

/// Number of nodes in a sequence of trees.
pub open spec fn forest_size(s: Seq<Node>) -> nat
    decreases s.len(),
{
    if s.len() == 0 {
        0
    } else {
        tree_size(s[0]) + forest_size(s.drop_first())
    }
}

pub proof fn lemma_forest_size_push(s: Seq<Node>, x: Node)
    ensures
        forest_size(s.push(x)) == forest_size(s) + tree_size(x),
    decreases s.len(),
{
    if s.len() == 0 {
        assert(s.push(x).drop_first() =~= Seq::<Node>::empty());
        assert(s.push(x)[0] == x);
        assert(forest_size(Seq::<Node>::empty()) == 0);
    } else {
        assert(s.push(x)[0] == s[0]);
        assert(s.push(x).drop_first() =~= s.drop_first().push(x));
        lemma_forest_size_push(s.drop_first(), x);
    }
}

/// The drafts of the replacements.
pub open spec fn replacement_drafts(p: Seq<ReplaceNode>) -> Seq<Node> {
    p.map_values(|r: ReplaceNode| r.draft)
}

/// The drafts of the insertions.
pub open spec fn insertion_drafts(i: Seq<InsertSibling>) -> Seq<Node> {
    i.map_values(|r: InsertSibling| r.draft)
}

/// How many nodes committing the batch adds: the nodes of every replacement
/// and insertion draft, and one per wrap.
pub open spec fn nodes_needed(b: BatchView) -> nat {
    forest_size(replacement_drafts(b.replacements)) + forest_size(insertion_drafts(b.insertions))
        + b.wraps.len()
}

/// Each view of `vs` is the one before with one replacement applied, in call
/// order.
pub open spec fn replace_chain(vs: Seq<DocView>, p: Seq<ReplaceNode>) -> bool {
    &&& vs.len() == p.len() + 1
    &&& forall|k: int|
        #![trigger p[k]]
        0 <= k < p.len() ==> replace_one(vs[k], vs[k + 1], p[k].target, p[k].draft)
}

/// Each view of `vs` is the one before with one wrap applied, in call order.
pub open spec fn wrap_chain(vs: Seq<DocView>, w: Seq<WrapRange>) -> bool {
    &&& vs.len() == w.len() + 1
    &&& forall|k: int|
        #![trigger w[k]]
        0 <= k < w.len() ==> exists|x: NodeId|
            #[trigger] wrap_one(vs[k], vs[k + 1], w[k].first, w[k].last, w[k].wrapper, x)
}

/// `b` is `a` with the draft of `ins` inserted next to its target.
pub open spec fn sibling_inserted(a: DocView, b: DocView, ins: InsertSibling) -> bool {
    let p = a.nodes[ins.target].parent->0;
    let kids = a.nodes[p].children@;
    exists|i: int|
        #![trigger kids[i]]
        0 <= i < kids.len() && kids[i] == ins.target && insert_one(
            a,
            b,
            p,
            if ins.position == SiblingPosition::Before {
                i
            } else {
                i + 1
            },
            ins.draft,
        )
}

/// The insertions before their targets, in call order.
pub open spec fn befores(s: Seq<InsertSibling>) -> Seq<InsertSibling>
    decreases s.len(),
{
    if s.len() == 0 {
        s
    } else if s.last().position == SiblingPosition::Before {
        befores(s.drop_last()).push(s.last())
    } else {
        befores(s.drop_last())
    }
}

/// The insertions after their targets, in call order.
pub open spec fn afters(s: Seq<InsertSibling>) -> Seq<InsertSibling>
    decreases s.len(),
{
    if s.len() == 0 {
        s
    } else if s.last().position == SiblingPosition::After {
        afters(s.drop_last()).push(s.last())
    } else {
        afters(s.drop_last())
    }
}

/// The order insertions are applied in: those before their targets in call
/// order, then those after their targets latest first, so that insertions at
/// one target end up in call order.
pub open spec fn insertion_order(s: Seq<InsertSibling>) -> Seq<InsertSibling> {
    befores(s) + afters(s).reverse()
}

/// Each view of `vs` is the one before with one insertion applied.
pub open spec fn insert_chain(vs: Seq<DocView>, order: Seq<InsertSibling>) -> bool {
    &&& vs.len() == order.len() + 1
    &&& forall|k: int|
        #![trigger order[k]]
        0 <= k < order.len() ==> sibling_inserted(vs[k], vs[k + 1], order[k])
}

/// `x` lies in a removed or replaced subtree.
pub open spec fn destroyed(v: DocView, b: BatchView, x: NodeId) -> bool {
    ||| exists|i: int| 0 <= i < b.removals.len() && #[trigger] in_subtree(v, b.removals[i], x)
    ||| exists|k: int|
        0 <= k < b.replacements.len() && #[trigger] in_subtree(v, b.replacements[k].target, x)
}

/// `w` is `v` after the structural edits of `b`: removals, then
/// replacements, wraps and insertions.
pub open spec fn structure_applied(v: DocView, w: DocView, b: BatchView) -> bool {
    exists|v2: DocView, rs: Seq<DocView>, ws: Seq<DocView>, is: Seq<DocView>|
        {
            &&& removal_result(v, v2, b.removals)
            &&& rs.len() > 0 && rs[0] == v2
            &&& replace_chain(rs, b.replacements)
            &&& ws.len() > 0 && ws[0] == rs.last()
            &&& wrap_chain(ws, b.wraps)
            &&& is.len() > 0 && is[0] == ws.last()
            &&& insert_chain(is, insertion_order(b.insertions))
            &&& is.last() == w
        }
}

proof fn lemma_befores_afters_size(s: Seq<InsertSibling>)
    ensures
        forest_size(insertion_drafts(s)) == forest_size(insertion_drafts(befores(s)))
            + forest_size(insertion_drafts(afters(s))),
    decreases s.len(),
{
    if s.len() > 0 {
        lemma_befores_afters_size(s.drop_last());
        assert(insertion_drafts(s) =~= insertion_drafts(s.drop_last()).push(s.last().draft));
        lemma_forest_size_push(insertion_drafts(s.drop_last()), s.last().draft);
        if s.last().position == SiblingPosition::Before {
            assert(insertion_drafts(befores(s)) =~= insertion_drafts(befores(s.drop_last())).push(s.last().draft));
            lemma_forest_size_push(insertion_drafts(befores(s.drop_last())), s.last().draft);
        } else {
            assert(insertion_drafts(afters(s)) =~= insertion_drafts(afters(s.drop_last())).push(s.last().draft));
            lemma_forest_size_push(insertion_drafts(afters(s.drop_last())), s.last().draft);
        }
    } else {
        assert(insertion_drafts(s) =~= Seq::<Node>::empty());
    }
}

/// Replace each target's subtree by its draft, in call order.
#[verifier::rlimit(60)]
fn apply_replacements(
    doc: &mut Document,
    replacements: Vec<ReplaceNode>,
    Ghost(v): Ghost<DocView>,
    Ghost(gone0): Ghost<Set<NodeId>>,
) -> (gone: Ghost<Set<NodeId>>)
    requires
        old(doc).wf(),
        tree_wf(v),
        kept(v, old(doc)@, gone0, Set::empty()),
        order_kept(v, old(doc)@, gone0, Set::empty()),
        closed(v, gone0),
        disjoint_roots(v, replaced_targets(replacements@)),
        forall|k: int|
            #![trigger replacements@[k]]
            0 <= k < replacements@.len() ==> !gone0.contains(replacements@[k].target),
        old(doc).room() >= forest_size(replacement_drafts(replacements@)),
    ensures
        final(doc).wf(),
        exists|rs: Seq<DocView>|
            rs.len() > 0 && rs[0] == old(doc)@ && replace_chain(rs, replacements@) && rs.last()
                == final(doc)@,
        kept(v, final(doc)@, gone@, Set::empty()),
        order_kept(v, final(doc)@, gone@, Set::empty()),
        closed(v, gone@),
        forall|x: NodeId|
            #[trigger] gone@.contains(x) ==> gone0.contains(x) || exists|k: int|
                0 <= k < replacements@.len() && #[trigger] in_subtree(v, replacements@[k].target, x),
        final(doc).room() >= old(doc).room() - forest_size(replacement_drafts(replacements@)),
        forall|x: NodeId| old(doc).stale(x) ==> final(doc).stale(x),
        kept_or_retired(*old(doc), *final(doc)),
{
    let ghost p0 = replacements@;
    let ghost mut gone = gone0;
    let ghost mut rs = seq![doc@];
    let mut rest = replacements;
    let n = rest.len();
    let mut k: usize = 0;
    proof {
        assert(p0.skip(0) =~= p0);
    }
    while rest.len() > 0
        invariant
            k <= p0.len(),
            p0.len() == n,
            rest@ == p0.skip(k as int),
            doc.wf(),
            tree_wf(v),
            kept(v, doc@, gone, Set::empty()),
            order_kept(v, doc@, gone, Set::empty()),
            closed(v, gone),
            disjoint_roots(v, replaced_targets(p0)),
            forall|q: int| #![trigger p0[q]] 0 <= q < p0.len() ==> !gone0.contains(p0[q].target),
            forall|x: NodeId|
                #[trigger] gone.contains(x) ==> gone0.contains(x) || exists|q: int|
                    0 <= q < k && #[trigger] in_subtree(v, p0[q].target, x),
            doc.room() >= forest_size(replacement_drafts(rest@)),
            old(doc).room() - forest_size(replacement_drafts(p0)) <= doc.room() - forest_size(replacement_drafts(rest@)),
            forall|x: NodeId| old(doc).stale(x) ==> doc.stale(x),
            forall|x: NodeId| #[trigger] old(doc)@.nodes.contains_key(x) ==> doc@.nodes.contains_key(x) || doc.stale(x),
            rs.len() == k + 1,
            rs[0] == old(doc)@,
            rs.last() == doc@,
            forall|q: int| #![trigger p0[q]] 0 <= q < k ==> replace_one(rs[q], rs[q + 1], p0[q].target, p0[q].draft),
        decreases rest@.len(),
    {
        let ghost before = rest@;
        let r = rest.remove(0);
        let ghost t = r.target;
        proof {
            assert(r == p0[k as int]);
            assert(replacement_drafts(before).drop_first() =~= replacement_drafts(rest@));
            assert(replacement_drafts(before)[0] == r.draft);
            assert(rest@ =~= p0.skip(k as int + 1));
            let pt = replaced_targets(p0);
            assert(pt[k as int] == t);
            assert(v.nodes.contains_key(t) && t != v.root);
            assert(!gone.contains(t)) by {
                if gone.contains(t) {
                    if !gone0.contains(t) {
                        let q = choose|q: int| 0 <= q < k && #[trigger] in_subtree(v, p0[q].target, t);
                        assert(pt[q] == p0[q].target);
                        assert(q != k);
                    }
                }
            }
            assert(survives(v, gone, t));
        }
        let ghost c = doc@;
        doc.replace_subtree(r.target, r.draft);
        proof {
            doc.lemma_tree();
            lemma_replace_step(v, c, doc@, gone, t, p0[k as int].draft);
            gone = gone + subtrees(v, seq![t]);
            rs = rs.push(doc@);
            assert forall|x: NodeId|
                #[trigger] gone.contains(x) implies gone0.contains(x) || exists|q: int|
                    0 <= q < k + 1 && #[trigger] in_subtree(v, p0[q].target, x) by {
                if subtrees(v, seq![t]).contains(x) {
                    let j = choose|j: int| 0 <= j < 1 && in_subtree(v, seq![t][j], x);
                    assert(seq![t][j] == t);
                    assert(in_subtree(v, p0[k as int].target, x));
                }
            }
        }
        k = k + 1;
    }
    proof {
        assert(k == p0.len());
        reveal(kept_or_retired);
    }
    Ghost(gone)
}

/// Wrap each range of siblings, in call order.
#[verifier::rlimit(60)]
fn apply_wraps(
    doc: &mut Document,
    wraps: Vec<WrapRange>,
    Ghost(v): Ghost<DocView>,
    Ghost(gone): Ghost<Set<NodeId>>,
)
    requires
        old(doc).wf(),
        tree_wf(v),
        kept(v, old(doc)@, gone, Set::empty()),
        order_kept(v, old(doc)@, gone, Set::empty()),
        forall|k: int| #![trigger wraps@[k]] 0 <= k < wraps@.len() ==> wrap_ok(v, wraps@[k]),
        forall|k: int, m: int|
            #![trigger wraps@[k], wraps@[m]]
            0 <= k < wraps@.len() && 0 <= m < wraps@.len() && k != m ==> !wraps_overlap(v, wraps@[k], wraps@[m]),
        forall|k: int|
            #![trigger wraps@[k]]
            0 <= k < wraps@.len() ==> survives(v, gone, wraps@[k].first) && survives(v, gone, wraps@[k].last),
        old(doc).room() >= wraps@.len(),
    ensures
        final(doc).wf(),
        exists|ws: Seq<DocView>|
            ws.len() > 0 && ws[0] == old(doc)@ && wrap_chain(ws, wraps@) && ws.last() == final(doc)@,
        forall|x: NodeId| #[trigger] survives(v, gone, x) ==> final(doc)@.nodes.contains_key(x),
        final(doc)@.root == v.root,
        final(doc)@.source == v.source,
        final(doc).room() >= old(doc).room() - wraps@.len(),
        forall|x: NodeId| old(doc).stale(x) ==> final(doc).stale(x),
        kept_or_retired(*old(doc), *final(doc)),
{
    let ghost w0 = wraps@;
    let ghost mut moved = Set::<NodeId>::empty();
    let ghost mut ws = seq![doc@];
    let mut rest = wraps;
    let n = rest.len();
    let mut k: usize = 0;
    proof {
        assert(w0.skip(0) =~= w0);
    }
    while rest.len() > 0
        invariant
            k <= w0.len(),
            w0.len() == n,
            rest@ == w0.skip(k as int),
            doc.wf(),
            tree_wf(v),
            kept(v, doc@, gone, moved),
            order_kept(v, doc@, gone, moved),
            forall|q: int| #![trigger w0[q]] 0 <= q < w0.len() ==> wrap_ok(v, w0[q]),
            forall|q: int, m: int|
                #![trigger w0[q], w0[m]]
                0 <= q < w0.len() && 0 <= m < w0.len() && q != m ==> !wraps_overlap(v, w0[q], w0[m]),
            forall|q: int|
                #![trigger w0[q]]
                0 <= q < w0.len() ==> survives(v, gone, w0[q].first) && survives(v, gone, w0[q].last),
            forall|x: NodeId| #[trigger] moved.contains(x) ==> exists|q: int| 0 <= q < k && #[trigger] wrap_selects(v, w0[q], x),
            doc.room() >= rest@.len(),
            old(doc).room() - w0.len() <= doc.room() - rest@.len(),
            forall|x: NodeId| old(doc).stale(x) ==> doc.stale(x),
            forall|x: NodeId| #[trigger] old(doc)@.nodes.contains_key(x) ==> doc@.nodes.contains_key(x) || doc.stale(x),
            ws.len() == k + 1,
            ws[0] == old(doc)@,
            ws.last() == doc@,
            forall|q: int| #![trigger w0[q]] 0 <= q < k ==> exists|x: NodeId|
                #[trigger] wrap_one(ws[q], ws[q + 1], w0[q].first, w0[q].last, w0[q].wrapper, x),
        decreases rest@.len(),
    {
        let r = rest.remove(0);
        let ghost c = doc@;
        let ghost wr = w0[k as int];
        proof {
            assert(r == wr);
            assert(rest@ =~= w0.skip(k as int + 1));
            assert(wrap_ok(v, wr));
            let p = wrap_parent(v, wr);
            lemma_child_at_index(v, wr.first);
            lemma_child_at_index(v, wr.last);
            // the endpoints were not moved by an earlier wrap
            assert forall|x: NodeId| x == wr.first || x == wr.last implies !moved.contains(x) by {
                if moved.contains(x) {
                    let q = choose|q: int| 0 <= q < k && #[trigger] wrap_selects(v, w0[q], x);
                    let pq = wrap_parent(v, w0[q]);
                    let kq = v.nodes[pq].children@;
                    let j = choose|j: int| #![trigger kq[j]] child_index(v, pq, w0[q].first) <= j <= child_index(v, pq, w0[q].last) && kq[j] == x;
                    assert(wrap_ok(v, w0[q]));
                    lemma_child_at_index(v, w0[q].first);
                    assert(crate::document::node_ok(v, pq));
                    assert(v.nodes[x].parent == Some(pq));
                    lemma_index_of(kq, j);
                    assert(wraps_overlap(v, w0[q], wr));
                    assert(q != k);
                }
            }
            assert(survives(v, gone, wr.first) && survives(v, gone, wr.last));
            assert(doc@.nodes[wr.first].parent == Some(p));
            assert(doc@.nodes[wr.last].parent == Some(p));
            assert(wr.first != doc@.root);
            lemma_child_at_index(doc@, wr.first);
            lemma_child_at_index(doc@, wr.last);
            let fi = child_index(doc@, p, wr.first);
            let li = child_index(doc@, p, wr.last);
            if wr.first != wr.last {
                let kv = v.nodes[p].children@;
                assert(child_index(v, p, wr.first) != child_index(v, p, wr.last));
                assert(sib_before(v, wr.first, wr.last));
                assert(sib_before(doc@, wr.first, wr.last));
            }
            assert(0 <= fi <= li < doc@.nodes[p].children@.len());
        }
        let x = doc.wrap_siblings(r.first, r.last, r.wrapper);
        proof {
            doc.lemma_tree();
            lemma_wrap_step(v, c, doc@, gone, moved, wr, x);
            assert forall|y: NodeId| #[trigger] (moved + selected_set(v, wr)).contains(y) implies exists|q: int| 0 <= q < k + 1 && #[trigger] wrap_selects(v, w0[q], y) by {
                if !moved.contains(y) {
                    assert(wrap_selects(v, w0[k as int], y));
                }
            }
            moved = moved + selected_set(v, wr);
            let old_ws = ws;
            ws = ws.push(doc@);
            assert(wrap_one(ws[k as int], ws[k + 1], w0[k as int].first, w0[k as int].last, w0[k as int].wrapper, x));
            assert forall|q: int| #![trigger w0[q]] 0 <= q < k + 1 implies exists|y: NodeId|
                #[trigger] wrap_one(ws[q], ws[q + 1], w0[q].first, w0[q].last, w0[q].wrapper, y) by {
                if q < k {
                    assert(ws[q] == old_ws[q]);
                    assert(ws[q + 1] == old_ws[q + 1]);
                    let y = choose|y: NodeId| #[trigger] wrap_one(old_ws[q], old_ws[q + 1], w0[q].first, w0[q].last, w0[q].wrapper, y);
                    assert(wrap_one(ws[q], ws[q + 1], w0[q].first, w0[q].last, w0[q].wrapper, y));
                } else {
                    assert(wrap_one(ws[q], ws[q + 1], w0[q].first, w0[q].last, w0[q].wrapper, x));
                }
            }
        }
        k = k + 1;
    }
    proof {
        assert forall|y: NodeId| #[trigger] survives(v, gone, y) implies doc@.nodes.contains_key(y) by {}
        reveal(kept_or_retired);
    }
}

/// Insert each draft next to its target, in the order `order` lists them.
#[verifier::rlimit(40)]
fn insert_in_order(doc: &mut Document, order: Vec<InsertSibling>, reverse: bool)
    requires
        old(doc).wf(),
        forall|k: int|
            #![trigger order@[k]]
            0 <= k < order@.len() ==> old(doc)@.nodes.contains_key(order@[k].target)
                && order@[k].target != old(doc)@.root,
        old(doc).room() >= forest_size(insertion_drafts(order@)),
    ensures
        final(doc).wf(),
        exists|is: Seq<DocView>|
            is.len() > 0 && is[0] == old(doc)@ && insert_chain(
                is,
                if reverse {
                    order@.reverse()
                } else {
                    order@
                },
            ) && is.last() == final(doc)@,
        forall|x: NodeId| #[trigger] old(doc)@.nodes.contains_key(x) ==> final(doc)@.nodes.contains_key(x),
        final(doc)@.root == old(doc)@.root,
        final(doc)@.source == old(doc)@.source,
        final(doc).room() >= old(doc).room() - forest_size(insertion_drafts(order@)),
        forall|x: NodeId| old(doc).stale(x) ==> final(doc).stale(x),
        kept_or_retired(*old(doc), *final(doc)),
{
    let ghost o0 = order@;
    let ghost seqo = if reverse { o0.reverse() } else { o0 };
    let ghost mut is = seq![doc@];
    let mut rest = order;
    let n = rest.len();
    let mut k: usize = 0;
    proof {
        assert(o0.skip(0) =~= o0);
        assert(o0.take(o0.len() as int) =~= o0);
    }
    while rest.len() > 0
        invariant
            k <= o0.len(),
            o0.len() == n,
            seqo == if reverse { o0.reverse() } else { o0 },
            reverse ==> rest@ == o0.take(o0.len() - k),
            !reverse ==> rest@ == o0.skip(k as int),
            doc.wf(),
            forall|q: int|
                #![trigger o0[q]]
                0 <= q < o0.len() ==> old(doc)@.nodes.contains_key(o0[q].target)
                    && o0[q].target != old(doc)@.root,
            forall|x: NodeId| #[trigger] old(doc)@.nodes.contains_key(x) ==> doc@.nodes.contains_key(x),
            doc@.root == old(doc)@.root,
            doc@.source == old(doc)@.source,
            doc.room() >= forest_size(insertion_drafts(rest@)),
            old(doc).room() - forest_size(insertion_drafts(o0)) <= doc.room() - forest_size(insertion_drafts(rest@)),
            forall|x: NodeId| old(doc).stale(x) ==> doc.stale(x),
            forall|x: NodeId| #[trigger] old(doc)@.nodes.contains_key(x) ==> doc@.nodes.contains_key(x) || doc.stale(x),
            is.len() == k + 1,
            is[0] == old(doc)@,
            is.last() == doc@,
            forall|q: int| #![trigger seqo[q]] 0 <= q < k ==> sibling_inserted(is[q], is[q + 1], seqo[q]),
        decreases rest@.len(),
    {
        let ghost before = rest@;
        let ins = if reverse {
            match rest.pop() {
                Some(x) => x,
                None => vstd::pervasive::unreached(),
            }
        } else {
            rest.remove(0)
        };
        proof {
            if reverse {
                assert(ins == seqo[k as int]);
                assert(rest@ =~= o0.take(o0.len() - k - 1));
                assert(insertion_drafts(before) =~= insertion_drafts(rest@).push(ins.draft));
                lemma_forest_size_push(insertion_drafts(rest@), ins.draft);
                assert(ins == o0[o0.len() - k - 1]);
            } else {
                assert(ins == seqo[k as int]);
                assert(rest@ =~= o0.skip(k as int + 1));
                assert(insertion_drafts(before).drop_first() =~= insertion_drafts(rest@));
                assert(insertion_drafts(before)[0] == ins.draft);
                assert(ins == o0[k as int]);
            }
        }
        let ghost c = doc@;
        doc.insert_sibling(ins.target, ins.position == SiblingPosition::Before, ins.draft);
        proof {
            is = is.push(doc@);
            assert(sibling_inserted(is[k as int], is[k + 1], seqo[k as int]));
        }
        k = k + 1;
    }
    proof {
        if reverse {
            assert(o0.take(o0.len() - k) =~= Seq::<InsertSibling>::empty());
        }
        reveal(kept_or_retired);
    }
}

/// Split insertions into those before and those after their targets, each in
/// call order.
fn split_insertions(insertions: Vec<InsertSibling>) -> (r: (Vec<InsertSibling>, Vec<InsertSibling>))
    ensures
        r.0@ == befores(insertions@),
        r.1@ == afters(insertions@),
{
    let ghost i0 = insertions@;
    let mut rest = insertions;
    let n = rest.len();
    let mut bef: Vec<InsertSibling> = Vec::new();
    let mut aft: Vec<InsertSibling> = Vec::new();
    let mut k: usize = 0;
    proof {
        assert(i0.skip(0) =~= i0);
        assert(i0.take(0) =~= Seq::<InsertSibling>::empty());
    }
    while rest.len() > 0
        invariant
            k <= i0.len(),
            i0.len() == n,
            rest@ == i0.skip(k as int),
            bef@ == befores(i0.take(k as int)),
            aft@ == afters(i0.take(k as int)),
        decreases rest@.len(),
    {
        let ins = rest.remove(0);
        proof {
            assert(ins == i0[k as int]);
            assert(rest@ =~= i0.skip(k as int + 1));
            assert(i0.take(k as int + 1).drop_last() =~= i0.take(k as int));
            assert(i0.take(k as int + 1).last() == ins);
        }
        if ins.position == SiblingPosition::Before {
            bef.push(ins);
        } else {
            aft.push(ins);
        }
        k = k + 1;
    }
    proof {
        assert(i0.take(k as int) =~= i0);
    }
    (bef, aft)
}

proof fn lemma_befores_in(s: Seq<InsertSibling>)
    ensures
        forall|j: int| 0 <= j < befores(s).len() ==> exists|k: int| 0 <= k < s.len() && #[trigger] befores(s)[j] == s[k],
        forall|j: int| 0 <= j < afters(s).len() ==> exists|k: int| 0 <= k < s.len() && #[trigger] afters(s)[j] == s[k],
    decreases s.len(),
{
    if s.len() > 0 {
        lemma_befores_in(s.drop_last());
        let d = s.drop_last();
        assert forall|j: int| 0 <= j < befores(s).len() implies exists|k: int| 0 <= k < s.len() && #[trigger] befores(s)[j] == s[k] by {
            if j < befores(d).len() {
                let k = choose|k: int| 0 <= k < d.len() && befores(d)[j] == d[k];
                assert(befores(s)[j] == befores(d)[j]);
                assert(s[k] == d[k]);
            } else {
                assert(befores(s)[j] == s[s.len() - 1]);
            }
        }
        assert forall|j: int| 0 <= j < afters(s).len() implies exists|k: int| 0 <= k < s.len() && #[trigger] afters(s)[j] == s[k] by {
            if j < afters(d).len() {
                let k = choose|k: int| 0 <= k < d.len() && afters(d)[j] == d[k];
                assert(afters(s)[j] == afters(d)[j]);
                assert(s[k] == d[k]);
            } else {
                assert(afters(s)[j] == s[s.len() - 1]);
            }
        }
    }
}

/// Apply the structural edits of a valid batch.
#[verifier::rlimit(100)]
#[verifier::spinoff_prover]
pub fn apply_structure(
    doc: &mut Document,
    removals: &[NodeId],
    replacements: Vec<ReplaceNode>,
    wraps: Vec<WrapRange>,
    insertions: Vec<InsertSibling>,
    Ghost(b): Ghost<BatchView>,
)
    requires
        old(doc).wf(),
        b.removals == removals@,
        b.replacements == replacements@,
        b.wraps == wraps@,
        b.insertions == insertions@,
        removals_valid(old(doc)@, b),
        insertions_valid(old(doc)@, b),
        replacements_valid(old(doc)@, b),
        wraps_valid(old(doc)@, b),
        old(doc).room() >= nodes_needed(b),
    ensures
        final(doc).wf(),
        structure_applied(old(doc)@, final(doc)@, b),
        final(doc).room() >= old(doc).room() - nodes_needed(b),
        forall|x: NodeId|
            #[trigger] old(doc)@.nodes.contains_key(x) && !destroyed(old(doc)@, b, x)
                ==> final(doc)@.nodes.contains_key(x),
        final(doc)@.root == old(doc)@.root,
        final(doc)@.source == old(doc)@.source,
        forall|x: NodeId| old(doc).stale(x) ==> final(doc).stale(x),
        kept_or_retired(*old(doc), *final(doc)),
{
    let ghost v = doc@;
    let ghost d0 = *doc;
    let ghost pt = replaced_targets(b.replacements);
    proof {
        doc.lemma_tree();
    }
    doc.remove_subtrees(removals);
    let ghost v2 = doc@;
    let ghost d1 = *doc;
    proof {
        doc.lemma_tree();
        lemma_removal_step(v, v2, b.removals);
        assert forall|k: int| #![trigger replacements@[k]] 0 <= k < replacements@.len() implies !subtrees(v, b.removals).contains(replacements@[k].target) by {
            assert(pt[k] == replacements@[k].target);
            if subtrees(v, b.removals).contains(replacements@[k].target) {
                let i = choose|i: int| 0 <= i < b.removals.len() && in_subtree(v, b.removals[i], replacements@[k].target);
                assert(!in_subtree(v, b.removals[i], pt[k]));
            }
        }
        assert(replaced_targets(replacements@) == pt);
    }
    let Ghost(gone) = apply_replacements(doc, replacements, Ghost(v), Ghost(subtrees(v, b.removals)));
    let ghost rs = choose|rs: Seq<DocView>| rs.len() > 0 && rs[0] == v2 && replace_chain(rs, b.replacements) && rs.last() == doc@;
    proof {
        // a node outside every removed and replaced subtree survives
        assert forall|x: NodeId| v.nodes.contains_key(x) && !destroyed(v, b, x) implies survives(v, gone, x) by {
            if gone.contains(x) {
                if subtrees(v, b.removals).contains(x) {
                    let i = choose|i: int| 0 <= i < b.removals.len() && in_subtree(v, b.removals[i], x);
                    assert(in_subtree(v, b.removals[i], x));
                } else {
                    let k = choose|k: int| 0 <= k < b.replacements.len() && #[trigger] in_subtree(v, b.replacements[k].target, x);
                    assert(in_subtree(v, b.replacements[k].target, x));
                }
            }
        }
        assert forall|k: int| #![trigger wraps@[k]] 0 <= k < wraps@.len() implies survives(v, gone, wraps@[k].first) && survives(v, gone, wraps@[k].last) by {
            let wr = wraps@[k];
            assert(b.wraps[k] == wr);
            assert(wrap_ok(v, wr));
            lemma_child_at_index(v, wr.first);
            lemma_child_at_index(v, wr.last);
            let p = wrap_parent(v, wr);
            let kids = v.nodes[p].children@;
            assert(kids[child_index(v, p, wr.first)] == wr.first);
            assert(wrap_selects(v, wr, wr.first));
            assert(kids[child_index(v, p, wr.last)] == wr.last);
            assert(wrap_selects(v, wr, wr.last));
            assert forall|y: NodeId| y == wr.first || y == wr.last implies !destroyed(v, b, y) by {
                if exists|i: int| 0 <= i < b.removals.len() && #[trigger] in_subtree(v, b.removals[i], y) {
                    let i = choose|i: int| 0 <= i < b.removals.len() && #[trigger] in_subtree(v, b.removals[i], y);
                    assert(!in_subtree(v, b.removals[i], y));
                }
                if exists|q: int| 0 <= q < b.replacements.len() && #[trigger] in_subtree(v, b.replacements[q].target, y) {
                    let q = choose|q: int| 0 <= q < b.replacements.len() && #[trigger] in_subtree(v, b.replacements[q].target, y);
                    assert(pt[q] == b.replacements[q].target);
                    assert(!in_subtree(v, pt[q], y));
                }
            }
        }
        assert forall|k: int, m: int|
            #![trigger wraps@[k], wraps@[m]]
            0 <= k < wraps@.len() && 0 <= m < wraps@.len() && k != m implies !wraps_overlap(v, wraps@[k], wraps@[m]) by {
            assert(b.wraps[k] == wraps@[k] && b.wraps[m] == wraps@[m]);
        }
        assert forall|k: int| #![trigger wraps@[k]] 0 <= k < wraps@.len() implies wrap_ok(v, wraps@[k]) by {
            assert(b.wraps[k] == wraps@[k]);
        }
    }
    let ghost d2 = *doc;
    apply_wraps(doc, wraps, Ghost(v), Ghost(gone));
    let ghost v4 = doc@;
    let ghost d3 = *doc;
    let ghost ws = choose|ws: Seq<DocView>| ws.len() > 0 && ws[0] == rs.last() && wrap_chain(ws, b.wraps) && ws.last() == doc@;
    proof {
        assert forall|q: int| #![trigger insertions@[q]] 0 <= q < insertions@.len() implies doc@.nodes.contains_key(insertions@[q].target) && insertions@[q].target != doc@.root by {
            let t = b.insertions[q].target;
            assert(!destroyed(v, b, t)) by {
                if exists|i: int| 0 <= i < b.removals.len() && #[trigger] in_subtree(v, b.removals[i], t) {
                    let i = choose|i: int| 0 <= i < b.removals.len() && #[trigger] in_subtree(v, b.removals[i], t);
                    assert(!in_subtree(v, b.removals[i], b.insertions[q].target));
                }
                if exists|r: int| 0 <= r < b.replacements.len() && #[trigger] in_subtree(v, b.replacements[r].target, t) {
                    let r = choose|r: int| 0 <= r < b.replacements.len() && #[trigger] in_subtree(v, b.replacements[r].target, t);
                    assert(pt[r] == b.replacements[r].target);
                    assert(!in_subtree(v, pt[r], b.insertions[q].target));
                }
            }
            assert(survives(v, gone, t));
        }
    }
    apply_insertions(doc, insertions);
    proof {
        let is = choose|is: Seq<DocView>| is.len() > 0 && is[0] == v4 && insert_chain(is, insertion_order(b.insertions)) && is.last() == doc@;
        assert(structure_applied(v, doc@, b));
        assert forall|x: NodeId| #[trigger] v.nodes.contains_key(x) && !destroyed(v, b, x) implies doc@.nodes.contains_key(x) by {
            assert(survives(v, gone, x));
        }
    }
    proof {
        lemma_retire_stages(d0, d1, d2, d3, *doc);
    }
}

/// Insert the drafts of `insertions` next to their live, non-root targets:
/// those going before their targets in call order, then those going after
/// theirs in reverse call order.
#[verifier::rlimit(60)]
fn apply_insertions(doc: &mut Document, insertions: Vec<InsertSibling>)
    requires
        old(doc).wf(),
        forall|q: int|
            #![trigger insertions@[q]]
            0 <= q < insertions@.len() ==> old(doc)@.nodes.contains_key(insertions@[q].target)
                && insertions@[q].target != old(doc)@.root,
        old(doc).room() >= forest_size(insertion_drafts(insertions@)),
    ensures
        final(doc).wf(),
        exists|is: Seq<DocView>|
            is.len() > 0 && is[0] == old(doc)@ && insert_chain(is, insertion_order(insertions@)) && is.last()
                == final(doc)@,
        final(doc).room() >= old(doc).room() - forest_size(insertion_drafts(insertions@)),
        forall|x: NodeId| #[trigger] old(doc)@.nodes.contains_key(x) ==> final(doc)@.nodes.contains_key(x),
        final(doc)@.root == old(doc)@.root,
        final(doc)@.source == old(doc)@.source,
        forall|x: NodeId| old(doc).stale(x) ==> final(doc).stale(x),
        kept_or_retired(*old(doc), *final(doc)),
{
    let ghost v4 = doc@;
    let ghost d0 = *doc;
    let ghost s = insertions@;
    let (bef, aft) = split_insertions(insertions);
    proof {
        lemma_befores_in(s);
        lemma_befores_afters_size(s);
        assert forall|k: int| #![trigger bef@[k]] 0 <= k < bef@.len() implies doc@.nodes.contains_key(bef@[k].target) && bef@[k].target != doc@.root by {
            let q = choose|q: int| 0 <= q < s.len() && befores(s)[k] == s[q];
            assert(s[q] == insertions@[q]);
        }
    }
    let ghost bq = bef@;
    let ghost aq = aft@;
    insert_in_order(doc, bef, false);
    let ghost v5 = doc@;
    let ghost d1 = *doc;
    let ghost is1 = choose|is: Seq<DocView>| is.len() > 0 && is[0] == v4 && insert_chain(is, bq) && is.last() == doc@;
    proof {
        assert forall|k: int| #![trigger aq[k]] 0 <= k < aq.len() implies doc@.nodes.contains_key(aq[k].target) && aq[k].target != doc@.root by {
            let q = choose|q: int| 0 <= q < s.len() && afters(s)[k] == s[q];
            assert(s[q] == insertions@[q]);
            assert(v4.nodes.contains_key(s[q].target));
        }
    }
    insert_in_order(doc, aft, true);
    proof {
        let is2 = choose|is: Seq<DocView>| is.len() > 0 && is[0] == v5 && insert_chain(is, aq.reverse()) && is.last() == doc@;
        let order = insertion_order(s);
        let is = is1 + is2.skip(1);
        assert(order == bq + aq.reverse());
        assert forall|k: int| #![trigger order[k]] 0 <= k < order.len() implies sibling_inserted(is[k], is[k + 1], order[k]) by {
            if k < bq.len() {
                assert(order[k] == bq[k]);
                assert(is[k] == is1[k]);
                assert(is[k + 1] == is1[k + 1]);
            } else {
                let j = k - bq.len();
                assert(order[k] == aq.reverse()[j]);
                assert(is[k] == is2[j]);
                assert(is[k + 1] == is2[j + 1]);
            }
        }
        assert(is.last() == doc@);
        lemma_retire_chain(d0, d1, *doc);
    }
}

/// Steps that each keep or retire the live nodes, and never revive a
/// retired handle, keep or retire the nodes live at the start.
proof fn lemma_retire_stages(d0: Document, d1: Document, d2: Document, d3: Document, d4: Document)
    requires
        kept_or_retired(d0, d1),
        kept_or_retired(d1, d2),
        kept_or_retired(d2, d3),
        kept_or_retired(d3, d4),
        forall|x: NodeId| d1.stale(x) ==> d2.stale(x),
        forall|x: NodeId| d2.stale(x) ==> d3.stale(x),
        forall|x: NodeId| d3.stale(x) ==> d4.stale(x),
    ensures
        kept_or_retired(d0, d4),
{
    lemma_retire_chain(d0, d1, d2);
    lemma_retire_chain(d0, d2, d3);
    lemma_retire_chain(d0, d3, d4);
}

} // verus!
