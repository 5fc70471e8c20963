//! How the structure of a document evolves while a batch's structural edits
//! are applied: which original nodes survive, under which parents, and in
//! which sibling order.
use vstd::prelude::*;

use crate::arena::NodeId;
use crate::document::{node_ok, tree_wf, DocView};
use crate::edit_spec::child_index;
use crate::edit_wrap::lemma_index_of;
use crate::subtree::{
    disjoint_roots, in_subtree, lemma_child_in_subtree, lemma_without_contains,
    lemma_without_no_dup, reaches, removal_result, subtrees, without,
};

verus! {

/// A node of `v` outside `gone`.
pub open spec fn survives(v: DocView, gone: Set<NodeId>, x: NodeId) -> bool {
    v.nodes.contains_key(x) && !gone.contains(x)
}

/// `gone` holds every node of `v` whose parent it holds.
pub open spec fn closed(v: DocView, gone: Set<NodeId>) -> bool {
    forall|x: NodeId|
        #[trigger] v.nodes.contains_key(x) && v.nodes[x].parent is Some && gone.contains(
            v.nodes[x].parent->0,
        ) ==> gone.contains(x)
}

/// `c` is a tree with the root and source of `v`, holding every surviving node
/// of `v`, each under its old parent unless it was moved.
pub open spec fn kept(v: DocView, c: DocView, gone: Set<NodeId>, moved: Set<NodeId>) -> bool {
    &&& tree_wf(c)
    &&& c.root == v.root
    &&& c.source == v.source
    &&& forall|x: NodeId|
        #[trigger] survives(v, gone, x) ==> c.nodes.contains_key(x) && (!moved.contains(x)
            ==> c.nodes[x].parent == v.nodes[x].parent)
}

/// `x` and `y` are children of one parent, `x` before `y`.
pub open spec fn sib_before(v: DocView, x: NodeId, y: NodeId) -> bool {
    &&& v.nodes[x].parent is Some
    &&& v.nodes[x].parent == v.nodes[y].parent
    &&& child_index(v, v.nodes[x].parent->0, x) < child_index(v, v.nodes[y].parent->0, y)
}

/// Surviving siblings that were not moved keep their order.
pub open spec fn order_kept(v: DocView, c: DocView, gone: Set<NodeId>, moved: Set<NodeId>) -> bool {
    forall|x: NodeId, y: NodeId|
        #[trigger] sib_before(v, x, y) && survives(v, gone, x) && survives(v, gone, y)
            && !moved.contains(x) && !moved.contains(y) ==> sib_before(c, x, y)
}

/// In a tree, a child sits at its index among its parent's children.
pub proof fn lemma_child_at_index(v: DocView, x: NodeId)
    requires
        tree_wf(v),
        v.nodes.contains_key(x),
        x != v.root,
    ensures
        ({
            let p = v.nodes[x].parent->0;
            &&& v.nodes.contains_key(p)
            &&& 0 <= child_index(v, p, x) < v.nodes[p].children@.len()
            &&& v.nodes[p].children@[child_index(v, p, x)] == x
        }),
{
    assert(node_ok(v, x));
    let p = v.nodes[x].parent->0;
    assert(node_ok(v, p));
    assert(v.nodes[p].children@.contains(x));
}

/// The subtrees at some roots are closed under taking children.
pub proof fn lemma_subtrees_closed(v: DocView, roots: Seq<NodeId>)
    requires
        tree_wf(v),
    ensures
        closed(v, subtrees(v, roots)),
{
    assert forall|x: NodeId|
        #[trigger] v.nodes.contains_key(x) && v.nodes[x].parent is Some && subtrees(v, roots).contains(
            v.nodes[x].parent->0,
        ) implies subtrees(v, roots).contains(x) by {
        let p = v.nodes[x].parent->0;
        let i = choose|i: int| 0 <= i < roots.len() && in_subtree(v, roots[i], p);
        assert(node_ok(v, x));
        assert(x != v.root);
        lemma_child_in_subtree(v, roots[i], p, x);
    }
}

/// Along surviving nodes, paths to the root are the same in `v` and `c`.
pub proof fn lemma_kept_reaches(v: DocView, c: DocView, gone: Set<NodeId>, a: NodeId, x: NodeId, f: nat)
    requires
        tree_wf(v),
        kept(v, c, gone, Set::empty()),
        closed(v, gone),
        survives(v, gone, x),
    ensures
        reaches(c, a, x, f) == reaches(v, a, x, f),
    decreases f,
{
    assert(survives(v, gone, x));
    if f > 0 && x != a {
        if let Some(p) = v.nodes[x].parent {
            assert(node_ok(v, x));
            assert(survives(v, gone, p));
            lemma_kept_reaches(v, c, gone, a, p, (f - 1) as nat);
        }
    }
}

/// Surviving nodes keep their depth.
pub proof fn lemma_kept_depth(v: DocView, c: DocView, gone: Set<NodeId>, x: NodeId)
    requires
        tree_wf(v),
        kept(v, c, gone, Set::empty()),
        closed(v, gone),
        survives(v, gone, x),
    ensures
        c.depth[x] == v.depth[x],
    decreases v.depth[x],
{
    assert(survives(v, gone, x));
    assert(node_ok(v, x));
    assert(node_ok(c, x));
    if x != v.root {
        let p = v.nodes[x].parent->0;
        assert(node_ok(v, p));
        assert(survives(v, gone, p));
        lemma_kept_depth(v, c, gone, p);
    }
}

/// Among surviving nodes, ancestry is the same in `v` and `c`.
pub proof fn lemma_kept_in_subtree(v: DocView, c: DocView, gone: Set<NodeId>, a: NodeId, x: NodeId)
    requires
        tree_wf(v),
        kept(v, c, gone, Set::empty()),
        closed(v, gone),
        survives(v, gone, x),
    ensures
        in_subtree(c, a, x) == in_subtree(v, a, x),
{
    assert(survives(v, gone, x));
    lemma_kept_depth(v, c, gone, x);
    lemma_kept_reaches(v, c, gone, a, x, v.depth[x]);
}

/// Dropping elements keeps the order of those that stay.
pub proof fn lemma_without_order(s: Seq<NodeId>, rs: Seq<NodeId>, i: int, j: int)
    requires
        s.no_duplicates(),
        0 <= i < j < s.len(),
        !rs.contains(s[i]),
        !rs.contains(s[j]),
    ensures
        without(s, rs).no_duplicates(),
        without(s, rs).contains(s[i]),
        without(s, rs).contains(s[j]),
        without(s, rs).index_of(s[i]) < without(s, rs).index_of(s[j]),
    decreases s.len(),
{
    lemma_without_no_dup(s, rs);
    lemma_without_contains(s, rs);
    assert(s.contains(s[i]));
    assert(s.contains(s[j]));
    let w = without(s, rs);
    let init = s.drop_last();
    let wi = without(init, rs);
    lemma_without_no_dup(init, rs);
    lemma_without_contains(init, rs);
    assert(w == wi + if rs.contains(s.last()) {
        Seq::<NodeId>::empty()
    } else {
        seq![s.last()]
    });
    if j == s.len() - 1 {
        assert(init[i] == s[i]);
        assert(init.contains(s[i]));
        assert(wi.contains(s[i]));
        let m = choose|m: int| 0 <= m < wi.len() && wi[m] == s[i];
        assert(w[m] == s[i]);
        lemma_index_of(w, m);
        assert(w[wi.len() as int] == s[j]);
        lemma_index_of(w, wi.len() as int);
    } else {
        assert(init[i] == s[i]);
        assert(init[j] == s[j]);
        lemma_without_order(init, rs, i, j);
        let mi = wi.index_of(s[i]);
        let mj = wi.index_of(s[j]);
        assert(wi[mi] == s[i]);
        assert(wi[mj] == s[j]);
        assert(w[mi] == s[i]);
        assert(w[mj] == s[j]);
        lemma_index_of(w, mi);
        lemma_index_of(w, mj);
    }
}

/// Removing disjoint subtrees keeps the other nodes, their parents and their
/// sibling order.
#[verifier::rlimit(40)]
pub proof fn lemma_removal_step(v: DocView, c: DocView, roots: Seq<NodeId>)
    requires
        tree_wf(v),
        disjoint_roots(v, roots),
        removal_result(v, c, roots),
        tree_wf(c),
    ensures
        kept(v, c, subtrees(v, roots), Set::empty()),
        order_kept(v, c, subtrees(v, roots), Set::empty()),
        closed(v, subtrees(v, roots)),
{
    let gone = subtrees(v, roots);
    lemma_subtrees_closed(v, roots);
    assert forall|x: NodeId| #[trigger] survives(v, gone, x) implies c.nodes.contains_key(x) && (!Set::<NodeId>::empty().contains(x) ==> c.nodes[x].parent == v.nodes[x].parent) by {
        assert(c.nodes.contains_key(x));
    }
    assert forall|x: NodeId, y: NodeId|
        #[trigger] sib_before(v, x, y) && survives(v, gone, x) && survives(v, gone, y)
            && !Set::<NodeId>::empty().contains(x) && !Set::<NodeId>::empty().contains(y) implies sib_before(c, x, y) by {
        let p = v.nodes[x].parent->0;
        assert(c.nodes.contains_key(x));
        assert(c.nodes.contains_key(y));
        assert(node_ok(v, x));
        assert(x != v.root);
        assert(y != v.root) by {
            assert(node_ok(v, y));
        }
        lemma_child_at_index(v, x);
        lemma_child_at_index(v, y);
        assert(survives(v, gone, p)) by {
            if gone.contains(p) {
                assert(v.nodes.contains_key(x) && v.nodes[x].parent is Some && gone.contains(v.nodes[x].parent->0));
            }
        }
        assert(c.nodes.contains_key(p));
        let kids = v.nodes[p].children@;
        assert(node_ok(v, p));
        let i = child_index(v, p, x);
        let j = child_index(v, p, y);
        assert(!roots.contains(x)) by {
            if roots.contains(x) {
                let k = choose|k: int| 0 <= k < roots.len() && roots[k] == x;
                assert(in_subtree(v, roots[k], x));
            }
        }
        assert(!roots.contains(y)) by {
            if roots.contains(y) {
                let k = choose|k: int| 0 <= k < roots.len() && roots[k] == y;
                assert(in_subtree(v, roots[k], y));
            }
        }
        if crate::subtree::loses_children(v, roots, p) {
            lemma_without_order(kids, roots, i, j);
            let w = without(kids, roots);
            assert(c.nodes[p].children@ == w);
        } else {
            assert(c.nodes[p].children@ == kids);
        }
    }
}

/// Replacing the subtree at a surviving node keeps the other survivors,
/// their parents and their sibling order.
#[verifier::rlimit(60)]
pub proof fn lemma_replace_step(v: DocView, c: DocView, c2: DocView, gone: Set<NodeId>, t: NodeId, d: crate::node::Node)
    requires
        tree_wf(v),
        kept(v, c, gone, Set::empty()),
        order_kept(v, c, gone, Set::empty()),
        closed(v, gone),
        survives(v, gone, t),
        t != v.root,
        crate::subtree::replace_one(c, c2, t, d),
        tree_wf(c2),
    ensures
        kept(v, c2, gone + subtrees(v, seq![t]), Set::empty()),
        order_kept(v, c2, gone + subtrees(v, seq![t]), Set::empty()),
        closed(v, gone + subtrees(v, seq![t])),
{
    let g2 = gone + subtrees(v, seq![t]);
    let e = Set::<NodeId>::empty();
    lemma_subtrees_closed(v, seq![t]);
    assert(survives(v, gone, t));
    let p = c.nodes[t].parent->0;
    assert(node_ok(v, t));
    assert(c.nodes[t].parent == v.nodes[t].parent);
    let cgone = subtrees(c, seq![t]);
    // survivors of v outside the replaced subtree are outside it in c too
    assert forall|x: NodeId| survives(v, g2, x) implies !cgone.contains(x) by {
        assert(survives(v, gone, x));
        if cgone.contains(x) {
            let k = choose|k: int| 0 <= k < 1 && in_subtree(c, seq![t][k], x);
            assert(seq![t][k] == t);
            lemma_kept_in_subtree(v, c, gone, t, x);
            assert(subtrees(v, seq![t]).contains(x));
        }
    }
    assert forall|x: NodeId| #[trigger] survives(v, g2, x) implies c2.nodes.contains_key(x) && (!e.contains(x) ==> c2.nodes[x].parent == v.nodes[x].parent) by {
        assert(survives(v, gone, x));
        assert(!cgone.contains(x));
        assert(c.nodes.contains_key(x));
    }
    assert(kept(v, c2, g2, e));
    assert forall|x: NodeId, y: NodeId|
        #[trigger] sib_before(v, x, y) && survives(v, g2, x) && survives(v, g2, y)
            && !e.contains(x) && !e.contains(y) implies sib_before(c2, x, y) by {
        let q = v.nodes[x].parent->0;
        assert(survives(v, gone, x) && survives(v, gone, y));
        assert(sib_before(c, x, y));
        assert(!cgone.contains(x) && !cgone.contains(y));
        assert(c2.nodes.contains_key(x) && c2.nodes.contains_key(y));
        assert(node_ok(v, x));
        assert(node_ok(c, x));
        assert(c.nodes.contains_key(q));
        assert(!cgone.contains(q)) by {
            if cgone.contains(q) {
                lemma_subtrees_closed(c, seq![t]);
                assert(c.nodes.contains_key(x) && c.nodes[x].parent is Some && cgone.contains(c.nodes[x].parent->0));
            }
        }
        if q != p {
            assert(c2.nodes[q].children@ == c.nodes[q].children@);
        } else {
            let kids = c.nodes[p].children@;
            let i = choose|i: int| 0 <= i < kids.len() && kids[i] == t && c2.nodes[p].children@ =~= kids.update(i, c2.nodes[p].children@[i]);
            lemma_child_at_index(c, x);
            lemma_child_at_index(c, y);
            let ix = child_index(c, p, x);
            let iy = child_index(c, p, y);
            assert(x != t && y != t);
            assert(ix != i && iy != i);
            assert(c2.nodes[p].children@[ix] == x);
            assert(c2.nodes[p].children@[iy] == y);
            assert(node_ok(c2, p));
            lemma_index_of(c2.nodes[p].children@, ix);
            lemma_index_of(c2.nodes[p].children@, iy);
        }
    }
    assert forall|x: NodeId|
        #[trigger] v.nodes.contains_key(x) && v.nodes[x].parent is Some && g2.contains(
            v.nodes[x].parent->0,
        ) implies g2.contains(x) by {
        if gone.contains(v.nodes[x].parent->0) {
        } else {
            assert(subtrees(v, seq![t]).contains(v.nodes[x].parent->0));
        }
    }
}

/// Inserting a subtree keeps every survivor under its parent.
pub proof fn lemma_insert_step(v: DocView, c: DocView, c2: DocView, gone: Set<NodeId>, moved: Set<NodeId>, p: NodeId, pos: int, d: crate::node::Node)
    requires
        kept(v, c, gone, moved),
        crate::subtree::insert_one(c, c2, p, pos, d),
        tree_wf(c2),
    ensures
        kept(v, c2, gone, moved),
{
    assert forall|x: NodeId| #[trigger] survives(v, gone, x) implies c2.nodes.contains_key(x) && (!moved.contains(x) ==> c2.nodes[x].parent == v.nodes[x].parent) by {
        assert(c.nodes.contains_key(x));
    }
}

/// The siblings of `v` that the wrap `wr` selects.
pub open spec fn selected_set(v: DocView, wr: crate::edit::WrapRange) -> Set<NodeId> {
    Set::new(|x: NodeId| crate::edit_spec::wrap_selects(v, wr, x))
}

/// Wrapping a range of surviving, unmoved siblings moves exactly the
/// survivors that the wrap selects, and keeps the order of the others.
#[verifier::rlimit(80)]
pub proof fn lemma_wrap_step(
    v: DocView,
    c: DocView,
    c2: DocView,
    gone: Set<NodeId>,
    moved: Set<NodeId>,
    wr: crate::edit::WrapRange,
    w: NodeId,
)
    requires
        tree_wf(v),
        kept(v, c, gone, moved),
        order_kept(v, c, gone, moved),
        crate::edit_spec::wrap_ok(v, wr),
        survives(v, gone, wr.first),
        survives(v, gone, wr.last),
        !moved.contains(wr.first),
        !moved.contains(wr.last),
        crate::subtree::wrap_one(c, c2, wr.first, wr.last, wr.wrapper, w),
        tree_wf(c2),
    ensures
        kept(v, c2, gone, moved + selected_set(v, wr)),
        order_kept(v, c2, gone, moved + selected_set(v, wr)),
{
    let m2 = moved + selected_set(v, wr);
    let p = v.nodes[wr.first].parent->0;
    assert(survives(v, gone, wr.first));
    assert(survives(v, gone, wr.last));
    assert(c.nodes[wr.first].parent == v.nodes[wr.first].parent);
    let kids = c.nodes[p].children@;
    let (fi, li) = choose|fi: int, li: int|
        {
            &&& 0 <= fi <= li < kids.len()
            &&& kids[fi] == wr.first
            &&& kids[li] == wr.last
            &&& !c.nodes.contains_key(w)
            &&& c2.nodes.dom() == c.nodes.dom().insert(w)
            &&& c2.nodes[p].children@ == kids.subrange(0, fi) + seq![w] + kids.subrange(
                li + 1,
                kids.len() as int,
            )
            &&& crate::subtree::same_but_children(c.nodes[p], c2.nodes[p])
            &&& c2.nodes[w].id == w
            &&& c2.nodes[w].parent == Some(p)
            &&& c2.nodes[w].children@ == kids.subrange(fi, li + 1)
            &&& c2.nodes[w].srcmap == wr.wrapper.srcmap
            &&& c2.nodes[w].attrs@ == wr.wrapper.attrs@
            &&& c2.nodes[w].node_value == wr.wrapper.node_value
            &&& forall|k: int|
                #![trigger kids[k]]
                fi <= k <= li ==> {
                    &&& c2.nodes[kids[k]].parent == Some(w)
                    &&& c2.nodes[kids[k]].id == c.nodes[kids[k]].id
                    &&& c2.nodes[kids[k]].srcmap == c.nodes[kids[k]].srcmap
                    &&& c2.nodes[kids[k]].attrs == c.nodes[kids[k]].attrs
                    &&& c2.nodes[kids[k]].node_value == c.nodes[kids[k]].node_value
                    &&& c2.nodes[kids[k]].children@ == c.nodes[kids[k]].children@
                }
            &&& forall|n: NodeId|
                c.nodes.contains_key(n) && n != p && !kids.subrange(fi, li + 1).contains(n)
                    ==> crate::subtree::same_node(c.nodes[n], #[trigger] c2.nodes[n])
            &&& c2.root == c.root
            &&& c2.source == c.source
        };
    assert(node_ok(c, p));
    lemma_index_of(kids, fi);
    lemma_index_of(kids, li);
    lemma_child_at_index(v, wr.first);
    lemma_child_at_index(v, wr.last);
    // an unmoved survivor that c selects is one that v selects
    assert forall|x: NodeId| #[trigger] survives(v, gone, x) && !moved.contains(x) && kids.subrange(fi, li + 1).contains(x)
        implies selected_set(v, wr).contains(x) by {
        let k = choose|k: int| #![trigger kids.subrange(fi, li + 1)[k]] 0 <= k < li + 1 - fi && kids.subrange(fi, li + 1)[k] == x;
        assert(kids[fi + k] == x);
        assert(c.nodes.contains_key(x));
        assert(node_ok(c, p));
        assert(c.nodes[x].parent == Some(p));
        assert(v.nodes[x].parent == Some(p));
        assert(x != v.root);
        lemma_child_at_index(v, x);
        lemma_index_of(kids, fi + k);
        let vx = child_index(v, p, x);
        let vf = child_index(v, p, wr.first);
        let vl = child_index(v, p, wr.last);
        if vx < vf {
            assert(sib_before(v, x, wr.first));
            assert(sib_before(c, x, wr.first));
        }
        if vl < vx {
            assert(sib_before(v, wr.last, x));
            assert(sib_before(c, wr.last, x));
        }
        assert(v.nodes[p].children@[vx] == x);
        assert(crate::edit_spec::wrap_selects(v, wr, x));
    }
    assert forall|x: NodeId| #[trigger] survives(v, gone, x) implies c2.nodes.contains_key(x) && (!m2.contains(x) ==> c2.nodes[x].parent == v.nodes[x].parent) by {
        assert(c.nodes.contains_key(x));
        if !m2.contains(x) {
            assert(!kids.subrange(fi, li + 1).contains(x));
            if x == p {
            } else {
                assert(crate::subtree::same_node(c.nodes[x], c2.nodes[x]));
            }
        }
    }
    assert forall|x: NodeId, y: NodeId|
        #[trigger] sib_before(v, x, y) && survives(v, gone, x) && survives(v, gone, y)
            && !m2.contains(x) && !m2.contains(y) implies sib_before(c2, x, y) by {
        let q = v.nodes[x].parent->0;
        assert(sib_before(c, x, y));
        assert(!kids.subrange(fi, li + 1).contains(x));
        assert(!kids.subrange(fi, li + 1).contains(y));
        assert(c.nodes[x].parent == Some(q));
        assert(c.nodes[y].parent == Some(q));
        assert(c2.nodes[x].parent == Some(q)) by {
            if x != p {
                assert(crate::subtree::same_node(c.nodes[x], c2.nodes[x]));
            }
        }
        assert(c2.nodes[y].parent == Some(q)) by {
            if y != p {
                assert(crate::subtree::same_node(c.nodes[y], c2.nodes[y]));
            }
        }
        assert(node_ok(c, x));
        assert(c.nodes.contains_key(q));
        if q != p {
            if kids.subrange(fi, li + 1).contains(q) {
                let k = choose|k: int| #![trigger kids.subrange(fi, li + 1)[k]] 0 <= k < li + 1 - fi && kids.subrange(fi, li + 1)[k] == q;
                assert(kids[fi + k] == q);
                assert(c2.nodes[q].children@ == c.nodes[q].children@);
            } else {
                assert(crate::subtree::same_node(c.nodes[q], c2.nodes[q]));
            }
        } else {
            lemma_child_at_index(c, x);
            lemma_child_at_index(c, y);
            let ix = child_index(c, p, x);
            let iy = child_index(c, p, y);
            let k2 = c2.nodes[p].children@;
            assert(!(fi <= ix <= li)) by {
                if fi <= ix <= li {
                    assert(kids.subrange(fi, li + 1)[ix - fi] == x);
                }
            }
            assert(!(fi <= iy <= li)) by {
                if fi <= iy <= li {
                    assert(kids.subrange(fi, li + 1)[iy - fi] == y);
                }
            }
            let jx = if ix < fi { ix } else { ix - (li - fi) };
            let jy = if iy < fi { iy } else { iy - (li - fi) };
            assert(k2[jx] == x);
            assert(k2[jy] == y);
            assert(node_ok(c2, p));
            lemma_index_of(k2, jx);
            lemma_index_of(k2, jy);
        }
    }
}

} // verus!
