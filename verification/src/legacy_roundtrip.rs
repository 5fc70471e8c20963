//! Moving an owned tree into a document and reading it back gives the same
//! tree.
use vstd::prelude::*;

use crate::arena::NodeId;
use crate::document::{kid_ids, placed, tree_matches, DocView};
use crate::node::{flatten, flatten_forest, lemma_flatten_len, tree_size, FlatNode, Node};

verus! {

/// Two trees hold the same payloads, attributes and source maps, node for
/// node.
pub open spec fn same_tree(a: Node, b: Node) -> bool
    decreases a,
{
    &&& a.node_value == b.node_value
    &&& a.attrs@ == b.attrs@
    &&& a.srcmap == b.srcmap
    &&& a.children@.len() == b.children@.len()
    &&& forall|i: int| #![trigger a.children@[i]] 0 <= i < a.children@.len() ==> same_tree(a.children@[i], b.children@[i])
}

/// The handles of the entries of `f` in `lo..hi` whose parent is `i`.
pub open spec fn kids_in(f: Seq<FlatNode>, ids: Seq<NodeId>, i: int, lo: int, hi: int) -> Seq<NodeId>
    decreases hi - lo,
{
    if hi <= lo {
        Seq::empty()
    } else {
        kids_in(f, ids, i, lo, hi - 1) + if f[hi - 1].parent == i {
            seq![ids[hi - 1]]
        } else {
            Seq::<NodeId>::empty()
        }
    }
}

/// The handles of the tops of the trees `s`, laid out one after another
/// from index `c`.
pub open spec fn root_ids(s: Seq<Node>, ids: Seq<NodeId>, c: int) -> Seq<NodeId>
    decreases s.len(),
{
    if s.len() == 0 {
        Seq::empty()
    } else {
        seq![ids[c]] + root_ids(s.subrange(1, s.len() as int), ids, c + tree_size(s[0]))
    }
}

/// No entry of `f` after `hi` has its parent in `lo..hi`.
pub open spec fn closed_range(f: Seq<FlatNode>, lo: int, hi: int) -> bool {
    forall|j: int| hi <= j < f.len() ==> !(lo <= #[trigger] f[j].parent < hi)
}

proof fn lemma_kid_ids_is_kids_in(f: Seq<FlatNode>, ids: Seq<NodeId>, i: int, hi: int)
    requires
        0 <= hi,
    ensures
        kid_ids(f, ids, i, hi) == kids_in(f, ids, i, 0, hi),
    decreases hi,
{
    if hi > 0 {
        lemma_kid_ids_is_kids_in(f, ids, i, hi - 1);
    }
}

proof fn lemma_kids_in_split(f: Seq<FlatNode>, ids: Seq<NodeId>, i: int, lo: int, mid: int, hi: int)
    requires
        lo <= mid <= hi,
    ensures
        kids_in(f, ids, i, lo, hi) == kids_in(f, ids, i, lo, mid) + kids_in(f, ids, i, mid, hi),
    decreases hi - mid,
{
    if hi == mid {
        assert(kids_in(f, ids, i, lo, mid) + kids_in(f, ids, i, mid, hi) =~= kids_in(f, ids, i, lo, mid));
    } else {
        lemma_kids_in_split(f, ids, i, lo, mid, hi - 1);
        assert(kids_in(f, ids, i, lo, hi) =~= kids_in(f, ids, i, lo, mid) + kids_in(f, ids, i, mid, hi));
    }
}

proof fn lemma_kids_in_none(f: Seq<FlatNode>, ids: Seq<NodeId>, i: int, lo: int, hi: int)
    requires
        forall|j: int| lo <= j < hi ==> #[trigger] f[j].parent != i,
    ensures
        kids_in(f, ids, i, lo, hi) == Seq::<NodeId>::empty(),
    decreases hi - lo,
{
    if hi > lo {
        lemma_kids_in_none(f, ids, i, lo, hi - 1);
        assert(kids_in(f, ids, i, lo, hi) =~= Seq::<NodeId>::empty());
    }
}

/// In a flattened tree, the top's parent is the one given and every other
/// entry's parent lies inside the tree, before it.
proof fn lemma_flat_parents(n: Node, p: int, b: int)
    ensures
        flatten(n, p, b).len() == tree_size(n),
        flatten(n, p, b)[0].parent == p,
        forall|j: int| 0 < j < flatten(n, p, b).len() ==> b <= #[trigger] flatten(n, p, b)[j].parent < b + j,
    decreases n, 1int,
{
    lemma_flatten_len(n, p, b, -1, 0);
    lemma_forest_parents(n.children@, b, b + 1);
    let f = flatten(n, p, b);
    let rest = flatten_forest(n.children@, b, b + 1);
    assert forall|j: int| 0 < j < f.len() implies b <= #[trigger] f[j].parent < b + j by {
        assert(f[j] == rest[j - 1]);
    }
}

/// In a flattened forest, every entry's parent is the one given or lies
/// inside the forest, before it.
proof fn lemma_forest_parents(s: Seq<Node>, p: int, b: int)
    ensures
        forall|j: int|
            0 <= j < flatten_forest(s, p, b).len() ==> (#[trigger] flatten_forest(s, p, b)[j]).parent == p || b
                <= flatten_forest(s, p, b)[j].parent < b + j,
    decreases s, 0int,
{
    if s.len() > 0 {
        lemma_flat_parents(s[0], p, b);
        let h = flatten(s[0], p, b);
        let rest = s.subrange(1, s.len() as int);
        lemma_forest_parents(rest, p, b + h.len());
        let f = flatten_forest(s, p, b);
        let g = flatten_forest(rest, p, b + h.len());
        assert forall|j: int| 0 <= j < f.len() implies (#[trigger] f[j]).parent == p || b <= f[j].parent < b + j by {
            if j < h.len() {
                assert(f[j] == h[j]);
            } else {
                assert(f[j] == g[j - h.len()]);
            }
        }
    }
}

/// The entries of a laid-out forest whose parent is the forest's parent are
/// exactly the tops of its trees.
proof fn lemma_forest_kids(f: Seq<FlatNode>, ids: Seq<NodeId>, s: Seq<Node>, b: int, c: int)
    requires
        0 <= b < c,
        c + flatten_forest(s, b, c).len() <= f.len(),
        f.subrange(c, c + flatten_forest(s, b, c).len()) == flatten_forest(s, b, c),
    ensures
        kids_in(f, ids, b, c, c + flatten_forest(s, b, c).len()) == root_ids(s, ids, c),
    decreases s.len(),
{
    let l = flatten_forest(s, b, c).len();
    if s.len() == 0 {
        assert(kids_in(f, ids, b, c, c + l) =~= Seq::<NodeId>::empty());
    } else {
        let h = flatten(s[0], b, c);
        lemma_flat_parents(s[0], b, c);
        let rest = s.subrange(1, s.len() as int);
        let g = flatten_forest(rest, b, c + h.len());
        assert(flatten_forest(s, b, c) == h + g);
        let fs = f.subrange(c, c + l);
        assert forall|j: int| c + 1 <= j < c + h.len() implies #[trigger] f[j].parent != b by {
            assert(fs[j - c] == f[j]);
            assert(fs[j - c] == h[j - c]);
        }
        assert(f[c] == h[0]) by {
            assert(fs[0] == f[c]);
        }
        lemma_kids_in_split(f, ids, b, c, c + 1, c + h.len());
        lemma_kids_in_none(f, ids, b, c + 1, c + h.len());
        assert(h[0].parent == b);
        assert(f[c].parent == b);
        assert(kids_in(f, ids, b, c, c) =~= Seq::<NodeId>::empty());
        assert(kids_in(f, ids, b, c, c + 1) =~= seq![ids[c]]);
        lemma_kids_in_split(f, ids, b, c, c + h.len(), c + l);
        assert(f.subrange(c + h.len(), c + h.len() + g.len()) =~= g) by {
            assert forall|j: int| 0 <= j < g.len() implies f.subrange(c + h.len(), c + h.len() + g.len())[j] == g[j] by {
                assert(fs[h.len() + j] == f[c + h.len() + j]);
                assert(fs[h.len() + j] == g[j]);
            }
        }
        lemma_forest_kids(f, ids, rest, b, c + h.len());
        assert(tree_size(s[0]) == h.len());
        assert(kids_in(f, ids, b, c, c + l) =~= root_ids(s, ids, c));
    }
}

/// The tops of laid-out trees are as many as the trees.
proof fn lemma_root_ids_len(s: Seq<Node>, ids: Seq<NodeId>, c: int)
    ensures
        root_ids(s, ids, c).len() == s.len(),
    decreases s.len(),
{
    if s.len() > 0 {
        lemma_root_ids_len(s.subrange(1, s.len() as int), ids, c + tree_size(s[0]));
    }
}

/// A tree laid out at index `b` of the listing placed in a document is
/// the tree the document holds under the handle placed there.
proof fn lemma_tree_matches(v: DocView, f: Seq<FlatNode>, ids: Seq<NodeId>, n: Node, p: int, b: int)
    requires
        placed(v, f, ids, None, f.len() as int),
        0 <= b,
        p < b,
        b + flatten(n, p, b).len() <= f.len(),
        f.subrange(b, b + flatten(n, p, b).len()) == flatten(n, p, b),
        closed_range(f, b, b + flatten(n, p, b).len()),
    ensures
        tree_matches(v, ids[b], n),
    decreases n, 1int,
{
    let t = flatten(n, p, b);
    let k = f.len() as int;
    lemma_flat_parents(n, p, b);
    assert(f.subrange(b, b + t.len())[0] == f[b]);
    assert(f[b] == t[0]);
    let kids = n.children@;
    let fs = flatten_forest(kids, b, b + 1);
    assert(t == seq![crate::node::flat_entry(n, p)] + fs);
    let ft = f.subrange(b, b + t.len());
    assert(f.subrange(b + 1, b + 1 + fs.len()) =~= fs) by {
        assert forall|j: int| 0 <= j < fs.len() implies f.subrange(b + 1, b + 1 + fs.len())[j] == fs[j] by {
            assert(ft[1 + j] == f[b + 1 + j]);
            assert(ft[1 + j] == t[1 + j]);
        }
    }
    lemma_kid_ids_is_kids_in(f, ids, b, k);
    lemma_kids_in_split(f, ids, b, 0, b + 1, k);
    lemma_kids_in_split(f, ids, b, b + 1, b + t.len(), k);
    assert forall|j: int| 0 <= j < b + 1 implies #[trigger] f[j].parent != b by {
        assert(v.nodes.contains_key(ids[j]));
        assert(f[j].parent < j);
    }
    lemma_kids_in_none(f, ids, b, 0, b + 1);
    lemma_kids_in_none(f, ids, b, b + t.len(), k);
    lemma_forest_kids(f, ids, kids, b, b + 1);
    assert(v.nodes[ids[b]].children@ =~= root_ids(kids, ids, b + 1));
    lemma_root_ids_len(kids, ids, b + 1);
    lemma_forest_matches(v, f, ids, kids, b, b + 1);
}

/// Each tree of a laid-out forest matches the tree the document holds under
/// its top's handle.
proof fn lemma_forest_matches(v: DocView, f: Seq<FlatNode>, ids: Seq<NodeId>, s: Seq<Node>, b: int, c: int)
    requires
        placed(v, f, ids, None, f.len() as int),
        0 <= b < c,
        c + flatten_forest(s, b, c).len() <= f.len(),
        f.subrange(c, c + flatten_forest(s, b, c).len()) == flatten_forest(s, b, c),
        closed_range(f, c, c + flatten_forest(s, b, c).len()),
    ensures
        forall|i: int|
            #![trigger s[i]]
            0 <= i < s.len() ==> tree_matches(v, root_ids(s, ids, c)[i], s[i]),
    decreases s, 0int,
{
    if s.len() > 0 {
        let l = flatten_forest(s, b, c).len();
        let h = flatten(s[0], b, c);
        lemma_flat_parents(s[0], b, c);
        let rest = s.subrange(1, s.len() as int);
        let g = flatten_forest(rest, b, c + h.len());
        assert(flatten_forest(s, b, c) == h + g);
        let fs = f.subrange(c, c + l);
        assert(f.subrange(c, c + h.len()) =~= h) by {
            assert forall|j: int| 0 <= j < h.len() implies f.subrange(c, c + h.len())[j] == h[j] by {
                assert(fs[j] == f[c + j]);
                assert(fs[j] == h[j]);
            }
        }
        assert(f.subrange(c + h.len(), c + h.len() + g.len()) =~= g) by {
            assert forall|j: int| 0 <= j < g.len() implies f.subrange(c + h.len(), c + h.len() + g.len())[j] == g[j] by {
                assert(fs[h.len() + j] == f[c + h.len() + j]);
                assert(fs[h.len() + j] == g[j]);
            }
        }
        lemma_forest_parents(rest, b, c + h.len());
        assert forall|j: int| c + h.len() <= j < f.len() implies !(c <= #[trigger] f[j].parent < c + h.len()) by {
            if j < c + l {
                assert(fs[j - c] == f[j]);
                assert(fs[j - c] == g[j - c - h.len()]);
            }
        }
        lemma_tree_matches(v, f, ids, s[0], b, c);
        lemma_forest_matches(v, f, ids, rest, b, c + h.len());
        assert(tree_size(s[0]) == h.len());
        lemma_root_ids_len(rest, ids, c + h.len());
        assert(root_ids(s, ids, c) == seq![ids[c]] + root_ids(rest, ids, c + h.len()));
        assert forall|i: int| #![trigger s[i]] 0 <= i < s.len() implies tree_matches(v, root_ids(s, ids, c)[i], s[i]) by {
            if i > 0 {
                assert(s[i] == rest[i - 1]);
                assert(root_ids(s, ids, c)[i] == root_ids(rest, ids, c + h.len())[i - 1]);
            }
        }
    }
}

/// Two trees that both match the tree under one handle are the same tree.
proof fn lemma_matches_same(v: DocView, id: NodeId, a: Node, b: Node)
    requires
        tree_matches(v, id, a),
        tree_matches(v, id, b),
    ensures
        same_tree(a, b),
    decreases a,
{
    assert forall|i: int| #![trigger a.children@[i]] 0 <= i < a.children@.len() implies same_tree(
        a.children@[i],
        b.children@[i],
    ) by {
        lemma_matches_same(v, v.nodes[id].children@[i], a.children@[i], b.children@[i]);
    }
}

/// Moving a tree into a document and reading it back gives the same tree:
/// where `d` is a document that `Document::from_legacy` made from `root`
/// (its nodes placed as the listing of `root`, the top one as its root) and
/// `r` is the tree that `Document::into_legacy` gives back from it, `r` holds
/// the payloads, attributes and source maps of `root`, node for node.
pub proof fn lemma_legacy_roundtrip(d: DocView, root: Node, r: Node)
    requires
        exists|ids: Seq<NodeId>|
            placed(d, flatten(root, -1, 0), ids, None, tree_size(root) as int) && ids[0] == d.root,
        tree_matches(d, d.root, r),
    ensures
        same_tree(root, r),
{
    let ids = choose|ids: Seq<NodeId>|
        placed(d, flatten(root, -1, 0), ids, None, tree_size(root) as int) && ids[0] == d.root;
    let f = flatten(root, -1, 0);
    lemma_flat_parents(root, -1, 0);
    assert(f.subrange(0, f.len() as int) =~= f);
    lemma_tree_matches(d, f, ids, root, -1, 0);
    lemma_matches_same(d, d.root, root, r);
}

} // verus!
