//! Ancestry in a document tree, and what removing whole subtrees leaves.
use vstd::prelude::*;

use crate::arena::NodeId;
use crate::document::{node_ok, placed, tree_wf, DocView, DocumentNode};
use crate::node::{flatten, tree_size, Node};

verus! {

/// `r` is `n` or an ancestor of `n`, within `fuel` parent steps.
pub open spec fn reaches(v: DocView, r: NodeId, n: NodeId, fuel: nat) -> bool
    decreases fuel,
{
    n == r || (fuel > 0 && v.nodes[n].parent is Some && reaches(
        v,
        r,
        v.nodes[n].parent->0,
        (fuel - 1) as nat,
    ))
}

/// `n` is a live node of the subtree rooted at `r`.
pub open spec fn in_subtree(v: DocView, r: NodeId, n: NodeId) -> bool {
    v.nodes.contains_key(n) && reaches(v, r, n, v.depth[n])
}

/// The live nodes of the subtrees rooted at `roots`.
pub open spec fn subtrees(v: DocView, roots: Seq<NodeId>) -> Set<NodeId> {
    Set::new(|n: NodeId| exists|i: int| 0 <= i < roots.len() && in_subtree(v, roots[i], n))
}

/// `s` without the elements of `rs`, order kept.
pub open spec fn without(s: Seq<NodeId>, rs: Seq<NodeId>) -> Seq<NodeId>
    decreases s.len(),
{
    if s.len() == 0 {
        s
    } else {
        without(s.drop_last(), rs) + if rs.contains(s.last()) {
            Seq::<NodeId>::empty()
        } else {
            seq![s.last()]
        }
    }
}

/// `roots` are distinct live non-root nodes, none inside another's subtree.
pub open spec fn disjoint_roots(v: DocView, roots: Seq<NodeId>) -> bool {
    &&& roots.no_duplicates()
    &&& forall|i: int|
        #![trigger roots[i]]
        0 <= i < roots.len() ==> v.nodes.contains_key(roots[i]) && roots[i] != v.root
    &&& forall|i: int, j: int|
        0 <= i < roots.len() && 0 <= j < roots.len() && i != j ==> !in_subtree(
            v,
            roots[i],
            roots[j],
        )
}

/// Whether `n` keeps its children when the subtrees at `roots` go.
pub open spec fn loses_children(v: DocView, roots: Seq<NodeId>, n: NodeId) -> bool {
    exists|i: int| 0 <= i < roots.len() && v.nodes[roots[i]].parent == Some(n)
}

/// `n` keeps its identity, links and data from `a` to `b`, except that its
/// children may differ.
pub open spec fn same_but_children(a: DocumentNode, b: DocumentNode) -> bool {
    &&& a.id == b.id
    &&& a.parent == b.parent
    &&& a.srcmap == b.srcmap
    &&& a.attrs == b.attrs
    &&& a.node_value == b.node_value
}

/// `a` and `b` hold the same node data and links.
pub open spec fn same_node(a: DocumentNode, b: DocumentNode) -> bool {
    same_but_children(a, b) && a.children@ == b.children@
}

/// `w` is what removing the subtrees at `roots` from `v` leaves: those nodes
/// are gone, and their parents no longer list them.
pub open spec fn removal_result(v: DocView, w: DocView, roots: Seq<NodeId>) -> bool {
    &&& w.source == v.source
    &&& w.root == v.root
    &&& w.nodes.dom() == v.nodes.dom() - subtrees(v, roots)
    &&& forall|n: NodeId|
        #[trigger] w.nodes.contains_key(n) ==> {
            &&& same_but_children(v.nodes[n], w.nodes[n])
            &&& w.nodes[n].children@ == if loses_children(v, roots, n) {
                without(v.nodes[n].children@, roots)
            } else {
                v.nodes[n].children@
            }
        }
}


pub proof fn lemma_without_contains(s: Seq<NodeId>, rs: Seq<NodeId>)
    ensures
        forall|x: NodeId| #[trigger] without(s, rs).contains(x) <==> (s.contains(x) && !rs.contains(x)),
    decreases s.len(),
{
    if s.len() > 0 {
        let init = s.drop_last();
        lemma_without_contains(init, rs);
        assert forall|x: NodeId| #[trigger] without(s, rs).contains(x) <==> (s.contains(x)
            && !rs.contains(x)) by {
            let w = without(s, rs);
            let wi = without(init, rs);
            assert(w == wi + if rs.contains(s.last()) {
                Seq::<NodeId>::empty()
            } else {
                seq![s.last()]
            });
            if s.contains(x) && !rs.contains(x) {
                let k = choose|k: int| 0 <= k < s.len() && s[k] == x;
                if k < s.len() - 1 {
                    assert(init[k] == x);
                    assert(init.contains(x));
                    assert(wi.contains(x));
                    let m = choose|m: int| 0 <= m < wi.len() && wi[m] == x;
                    assert(w[m] == x);
                } else {
                    assert(w[w.len() - 1] == x);
                }
            }
            if w.contains(x) {
                let m = choose|m: int| 0 <= m < w.len() && w[m] == x;
                if m < wi.len() {
                    assert(wi[m] == x);
                    assert(wi.contains(x));
                    let k = choose|k: int| 0 <= k < init.len() && init[k] == x;
                    assert(s[k] == x);
                } else {
                    assert(x == s.last());
                    assert(s[s.len() - 1] == x);
                }
            }
        }
    }
}

pub proof fn lemma_without_no_dup(s: Seq<NodeId>, rs: Seq<NodeId>)
    requires
        s.no_duplicates(),
    ensures
        without(s, rs).no_duplicates(),
    decreases s.len(),
{
    if s.len() > 0 {
        let init = s.drop_last();
        assert(init.no_duplicates()) by {
            assert forall|a: int, b: int| 0 <= a < init.len() && 0 <= b < init.len() && a != b implies init[a]
                != init[b] by {
                assert(init[a] == s[a] && init[b] == s[b]);
            }
        }
        lemma_without_no_dup(init, rs);
        lemma_without_contains(init, rs);
        let wi = without(init, rs);
        let w = without(s, rs);
        if !rs.contains(s.last()) {
            assert(!init.contains(s.last())) by {
                if init.contains(s.last()) {
                    let k = choose|k: int| 0 <= k < init.len() && init[k] == s.last();
                    assert(s[k] == s[s.len() - 1]);
                }
            }
            assert forall|a: int, b: int| 0 <= a < w.len() && 0 <= b < w.len() && a != b implies w[a]
                != w[b] by {
                if a < wi.len() && b < wi.len() {
                    assert(w[a] == wi[a] && w[b] == wi[b]);
                } else if a < wi.len() {
                    assert(w[a] == wi[a]);
                    assert(wi.contains(wi[a]));
                } else if b < wi.len() {
                    assert(w[b] == wi[b]);
                    assert(wi.contains(wi[b]));
                }
            }
        } else {
            assert(w =~= wi);
        }
    }
}

pub proof fn lemma_reaches_depth(v: DocView, r: NodeId, n: NodeId, fuel: nat)
    requires
        tree_wf(v),
        v.nodes.contains_key(n),
        v.nodes.contains_key(r),
        reaches(v, r, n, fuel),
    ensures
        v.depth[r] <= v.depth[n],
        n != r ==> v.depth[r] < v.depth[n],
    decreases fuel,
{
    assert(node_ok(v, n));
    if n != r {
        let p = v.nodes[n].parent->0;
        assert(node_ok(v, p));
        lemma_reaches_depth(v, r, p, (fuel - 1) as nat);
    }
}

/// With fuel at least the depth of `n`, the fuel does not matter.
pub proof fn lemma_reaches_fuel(v: DocView, r: NodeId, n: NodeId, f1: nat, f2: nat)
    requires
        tree_wf(v),
        v.nodes.contains_key(n),
        f1 >= v.depth[n],
        f2 >= v.depth[n],
    ensures
        reaches(v, r, n, f1) == reaches(v, r, n, f2),
    decreases v.depth[n],
{
    assert(node_ok(v, n));
    if n != r && n != v.root {
        let p = v.nodes[n].parent->0;
        lemma_reaches_fuel(v, r, p, (f1 - 1) as nat, (f2 - 1) as nat);
    }
}

/// A child of a node in a subtree is in the subtree.
pub proof fn lemma_child_in_subtree(v: DocView, r: NodeId, x: NodeId, c: NodeId)
    requires
        tree_wf(v),
        in_subtree(v, r, x),
        v.nodes[x].children@.contains(c),
    ensures
        in_subtree(v, r, c),
{
    assert(node_ok(v, x));
    let i = choose|i: int| 0 <= i < v.nodes[x].children@.len() && v.nodes[x].children@[i] == c;
    assert(v.nodes.contains_key(c));
    assert(node_ok(v, c));
    assert(c != v.root) by {
        assert(v.nodes[c].parent == Some(x));
    }
}

/// Ancestry is transitive.
pub proof fn lemma_in_subtree_trans(v: DocView, a: NodeId, b: NodeId, x: NodeId)
    requires
        tree_wf(v),
        in_subtree(v, a, b),
        in_subtree(v, b, x),
    ensures
        in_subtree(v, a, x),
    decreases v.depth[x],
{
    assert(node_ok(v, x));
    if x != b {
        assert(x != v.root) by {
            if x == v.root {
                assert(v.depth[x] == 0);
            }
        }
        let p = v.nodes[x].parent->0;
        assert(node_ok(v, p));
        assert(v.depth[x] == v.depth[p] + 1);
        assert(reaches(v, b, p, v.depth[p]));
        lemma_in_subtree_trans(v, a, b, p);
        assert(reaches(v, a, p, v.depth[p]));
    }
}

/// A proper descendant of `x` lies below one of `x`'s children.
pub proof fn lemma_below_child(v: DocView, x: NodeId, n: NodeId)
    requires
        tree_wf(v),
        in_subtree(v, x, n),
        n != x,
    ensures
        exists|c: NodeId| v.nodes[x].children@.contains(c) && in_subtree(v, c, n),
    decreases v.depth[n],
{
    assert(node_ok(v, n));
    assert(n != v.root) by {
        if n == v.root {
            assert(v.depth[n] == 0);
        }
    }
    let p = v.nodes[n].parent->0;
    assert(node_ok(v, p));
    assert(v.depth[p] + 1 == v.depth[n]);
    assert(reaches(v, x, p, v.depth[p]));
    if p == x {
        assert(v.nodes[x].children@.contains(n));
        assert(in_subtree(v, n, n));
        assert(v.nodes[x].children@.contains(n) && in_subtree(v, n, n));
    } else {
        lemma_below_child(v, x, p);
        let c = choose|c: NodeId| v.nodes[x].children@.contains(c) && in_subtree(v, c, p);
        assert(reaches(v, c, p, v.depth[p]));
        assert((v.depth[n] - 1) as nat == v.depth[p]);
        assert(reaches(v, c, n, v.depth[n]));
        assert(v.nodes[x].children@.contains(c) && in_subtree(v, c, n));
    }
}

} // verus!

verus! {


/// Dropping the only occurrence of `t` removes its position.
pub proof fn lemma_without_single(s: Seq<NodeId>, t: NodeId, i: int)
    requires
        s.no_duplicates(),
        0 <= i < s.len(),
        s[i] == t,
    ensures
        without(s, seq![t]) == s.remove(i),
    decreases s.len(),
{
    let init = s.drop_last();
    if i == s.len() - 1 {
        assert(!init.contains(t)) by {
            if init.contains(t) {
                let k = choose|k: int| 0 <= k < init.len() && init[k] == t;
                assert(s[k] == s[i]);
            }
        }
        lemma_without_absent(init, seq![t]);
        assert(s.last() == t);
        assert(seq![t][0] == t);
        assert(seq![t].contains(s.last()));
        assert(without(s, seq![t]) =~= s.remove(i));
    } else {
        assert(init.no_duplicates()) by {
            assert forall|a: int, b: int| 0 <= a < init.len() && 0 <= b < init.len() && a != b implies init[a]
                != init[b] by {
                assert(init[a] == s[a] && init[b] == s[b]);
            }
        }
        assert(init[i] == t);
        lemma_without_single(init, t, i);
        assert(s.last() != t) by {
            assert(s[s.len() - 1] != s[i]);
        }
        assert(!seq![t].contains(s.last())) by {
            if seq![t].contains(s.last()) {
                let k = choose|k: int| 0 <= k < 1 && seq![t][k] == s.last();
                assert(seq![t][0] == t);
            }
        }
        assert(without(s, seq![t]) =~= s.remove(i));
    }
}

/// Dropping elements that do not occur changes nothing.
pub proof fn lemma_without_absent(s: Seq<NodeId>, rs: Seq<NodeId>)
    requires
        forall|k: int| 0 <= k < s.len() ==> !rs.contains(#[trigger] s[k]),
    ensures
        without(s, rs) == s,
    decreases s.len(),
{
    if s.len() > 0 {
        lemma_without_absent(s.drop_last(), rs);
        assert(!rs.contains(s[s.len() - 1]));
        assert(without(s, rs) =~= s);
    }
}

/// The subtree of a single root, as a set.
pub proof fn lemma_single_root_disjoint(v: DocView, t: NodeId)
    requires
        v.nodes.contains_key(t),
        t != v.root,
    ensures
        disjoint_roots(v, seq![t]),
{
}

/// `b` is `a` with the subtree at `t` replaced by a placed copy of `d`.
pub open spec fn replace_one(a: DocView, b: DocView, t: NodeId, d: Node) -> bool {
    let p = a.nodes[t].parent->0;
    let gone = subtrees(a, seq![t]);
    exists|ids: Seq<NodeId>, i: int|
        {
            &&& placed(b, flatten(d, -1, 0), ids, Some(p), tree_size(d) as int)
            &&& forall|j: int| 0 <= j < ids.len() ==> !a.nodes.contains_key(#[trigger] ids[j])
            &&& b.nodes.dom() == (a.nodes.dom() - gone) + ids.to_set()
            &&& 0 <= i < a.nodes[p].children@.len()
            &&& a.nodes[p].children@[i] == t
            &&& b.nodes[p].children@ == a.nodes[p].children@.update(i, ids[0])
            &&& same_but_children(a.nodes[p], b.nodes[p])
            &&& forall|n: NodeId|
                a.nodes.contains_key(n) && !gone.contains(n) && n != p ==> same_node(
                    a.nodes[n],
                    #[trigger] b.nodes[n],
                )
            &&& b.root == a.root
            &&& b.source == a.source
        }
}


/// Removing the subtree at `target` and putting a placed tree at its
/// position replaces it.
#[verifier::rlimit(60)]
pub proof fn lemma_replace_result(
    a: DocView,
    mid: DocView,
    b: DocView,
    target: NodeId,
    parent: NodeId,
    i: int,
    d: Node,
    ids: Seq<NodeId>,
)
    requires
        tree_wf(a),
        a.nodes.contains_key(target),
        target != a.root,
        a.nodes[target].parent == Some(parent),
        a.nodes.contains_key(parent),
        0 <= i < a.nodes[parent].children@.len(),
        a.nodes[parent].children@[i] == target,
        removal_result(a, mid, seq![target]),
        mid.nodes.contains_key(parent),
        forall|j: int| 0 <= j < ids.len() ==> !a.nodes.contains_key(#[trigger] ids[j]),
        placed(b, flatten(d, -1, 0), ids, Some(parent), tree_size(d) as int),
        b.nodes.dom() == mid.nodes.dom() + ids.to_set(),
        b.nodes[parent].children@ == mid.nodes[parent].children@.insert(i, ids[0]),
        same_but_children(mid.nodes[parent], b.nodes[parent]),
        forall|n: NodeId| mid.nodes.contains_key(n) && n != parent ==> b.nodes[n] == mid.nodes[n],
        b.root == a.root,
        b.source == a.source,
    ensures
        replace_one(a, b, target, d),
{
    let gone = subtrees(a, seq![target]);
    assert(node_ok(a, parent));
    lemma_without_single(a.nodes[parent].children@, target, i);
    assert(seq![target][0] == target);
    assert(loses_children(a, seq![target], parent));
    assert(b.nodes[parent].children@ =~= a.nodes[parent].children@.update(i, ids[0]));
    assert(b.nodes.dom() =~= (a.nodes.dom() - gone) + ids.to_set());
    assert forall|n: NodeId|
        a.nodes.contains_key(n) && !gone.contains(n) && n != parent implies same_node(
        a.nodes[n],
        #[trigger] b.nodes[n],
    ) by {
        assert(mid.nodes.contains_key(n));
        if loses_children(a, seq![target], n) {
            let q = choose|q: int| 0 <= q < 1 && a.nodes[seq![target][q]].parent == Some(n);
            assert(seq![target][q] == target);
        }
    }
    assert(replace_one(a, b, target, d));
}


/// `b` is `a` with the siblings from `first` through `last` moved, in order,
/// under a fresh node `w` that takes their place and the payload of `wrapper`.
pub open spec fn wrap_one(a: DocView, b: DocView, first: NodeId, last: NodeId, wrapper: Node, w: NodeId) -> bool {
    let p = a.nodes[first].parent->0;
    let kids = a.nodes[p].children@;
    exists|fi: int, li: int|
        {
            &&& 0 <= fi <= li < kids.len()
            &&& kids[fi] == first
            &&& kids[li] == last
            &&& !a.nodes.contains_key(w)
            &&& b.nodes.dom() == a.nodes.dom().insert(w)
            &&& b.nodes[p].children@ == kids.subrange(0, fi) + seq![w] + kids.subrange(
                li + 1,
                kids.len() as int,
            )
            &&& same_but_children(a.nodes[p], b.nodes[p])
            &&& b.nodes[w].id == w
            &&& b.nodes[w].parent == Some(p)
            &&& b.nodes[w].children@ == kids.subrange(fi, li + 1)
            &&& b.nodes[w].srcmap == wrapper.srcmap
            &&& b.nodes[w].attrs@ == wrapper.attrs@
            &&& b.nodes[w].node_value == wrapper.node_value
            &&& forall|k: int|
                fi <= k <= li ==> {
                    &&& b.nodes[kids[k]].parent == Some(w)
                    &&& b.nodes[kids[k]].id == a.nodes[kids[k]].id
                    &&& b.nodes[kids[k]].srcmap == a.nodes[kids[k]].srcmap
                    &&& b.nodes[kids[k]].attrs == a.nodes[kids[k]].attrs
                    &&& b.nodes[kids[k]].node_value == a.nodes[kids[k]].node_value
                    &&& b.nodes[kids[k]].children@ == a.nodes[kids[k]].children@
                }
            &&& forall|n: NodeId|
                a.nodes.contains_key(n) && n != p && !kids.subrange(fi, li + 1).contains(n) ==> same_node(
                    a.nodes[n],
                    #[trigger] b.nodes[n],
                )
            &&& b.root == a.root
            &&& b.source == a.source
        }
}

/// Siblings are not inside each other's subtrees.
pub proof fn lemma_siblings_disjoint(v: DocView, p: NodeId, s: Seq<NodeId>)
    requires
        tree_wf(v),
        v.nodes.contains_key(p),
        s.no_duplicates(),
        forall|k: int| 0 <= k < s.len() ==> v.nodes[p].children@.contains(#[trigger] s[k]),
    ensures
        disjoint_roots(v, s),
{
    assert(node_ok(v, p));
    assert forall|k: int| #![trigger s[k]] 0 <= k < s.len() implies v.nodes.contains_key(s[k]) && s[k] != v.root by {
        let j = choose|j: int| 0 <= j < v.nodes[p].children@.len() && v.nodes[p].children@[j] == s[k];
        assert(v.nodes.contains_key(v.nodes[p].children@[j]));
        assert(node_ok(v, s[k]));
    }
    assert forall|i: int, j: int| 0 <= i < s.len() && 0 <= j < s.len() && i != j implies !in_subtree(v, s[i], s[j]) by {
        let a = choose|a: int| 0 <= a < v.nodes[p].children@.len() && v.nodes[p].children@[a] == s[i];
        let b = choose|b: int| 0 <= b < v.nodes[p].children@.len() && v.nodes[p].children@[b] == s[j];
        assert(v.nodes.contains_key(v.nodes[p].children@[a]));
        assert(v.nodes.contains_key(v.nodes[p].children@[b]));
        assert(node_ok(v, s[i]));
        assert(node_ok(v, s[j]));
        if in_subtree(v, s[i], s[j]) {
            lemma_reaches_depth(v, s[i], s[j], v.depth[s[j]]);
        }
    }
}


/// Moving a run of siblings under a fresh node in their place keeps the tree
/// consistent, the moved subtrees one level deeper.
#[verifier::rlimit(100)]
pub proof fn lemma_wrap_tree(a: DocView, b: DocView, p: NodeId, fi: int, li: int, w: NodeId)
    requires
        tree_wf(a),
        a.nodes.contains_key(p),
        0 <= fi <= li < a.nodes[p].children@.len(),
        !a.nodes.contains_key(w),
        b.root == a.root,
        b.nodes.dom() == a.nodes.dom().insert(w),
        b.nodes[p].children@ == a.nodes[p].children@.subrange(0, fi) + seq![w]
            + a.nodes[p].children@.subrange(li + 1, a.nodes[p].children@.len() as int),
        same_but_children(a.nodes[p], b.nodes[p]),
        b.nodes[w].id == w,
        b.nodes[w].parent == Some(p),
        b.nodes[w].children@ == a.nodes[p].children@.subrange(fi, li + 1),
        forall|k: int|
            fi <= k <= li ==> {
                &&& b.nodes[a.nodes[p].children@[k]].parent == Some(w)
                &&& b.nodes[a.nodes[p].children@[k]].id == a.nodes[a.nodes[p].children@[k]].id
                &&& b.nodes[a.nodes[p].children@[k]].children@
                    == a.nodes[a.nodes[p].children@[k]].children@
            },
        forall|n: NodeId|
            a.nodes.contains_key(n) && n != p && !a.nodes[p].children@.subrange(fi, li + 1).contains(
                n,
            ) ==> same_node(a.nodes[n], #[trigger] b.nodes[n]),
        b.depth.contains_key(w),
        b.depth[w] == a.depth[p] + 1,
        forall|n: NodeId|
            #[trigger] a.nodes.contains_key(n) ==> b.depth.contains_key(n) && b.depth[n] == if subtrees(
                a,
                a.nodes[p].children@.subrange(fi, li + 1),
            ).contains(n) {
                a.depth[n] + 1
            } else {
                a.depth[n]
            },
    ensures
        tree_wf(b),
{
    let kids = a.nodes[p].children@;
    let sel = kids.subrange(fi, li + 1);
    let pre = kids.subrange(0, fi);
    let suf = kids.subrange(li + 1, kids.len() as int);
    let moved = subtrees(a, sel);
    assert(node_ok(a, p));
    assert(sel.no_duplicates());
    assert forall|k: int| 0 <= k < sel.len() implies kids.contains(#[trigger] sel[k]) by {
        assert(sel[k] == kids[fi + k]);
    }
    lemma_siblings_disjoint(a, p, sel);
    // the parent is not moved
    assert(!moved.contains(p)) by {
        if moved.contains(p) {
            let q = choose|q: int| 0 <= q < sel.len() && in_subtree(a, sel[q], p);
            assert(a.nodes.contains_key(sel[q]));
            assert(node_ok(a, sel[q]));
            lemma_reaches_depth(a, sel[q], p, a.depth[p]);
        }
    }
    assert forall|x: NodeId| #[trigger] kids.contains(x) implies (sel.contains(x) <==> (!pre.contains(
        x,
    ) && !suf.contains(x))) by {
        let j = choose|j: int| 0 <= j < kids.len() && kids[j] == x;
        if sel.contains(x) {
            let m = choose|m: int| 0 <= m < sel.len() && sel[m] == x;
            assert(kids[fi + m] == x);
            if pre.contains(x) {
                let m2 = choose|m2: int| 0 <= m2 < pre.len() && pre[m2] == x;
                assert(kids[m2] == x);
            }
            if suf.contains(x) {
                let m2 = choose|m2: int| 0 <= m2 < suf.len() && suf[m2] == x;
                assert(kids[li + 1 + m2] == x);
            }
        } else {
            if j < fi {
                assert(pre[j] == x);
            } else if j > li {
                assert(suf[j - li - 1] == x);
            } else {
                assert(sel[j - fi] == x);
            }
        }
    }
    let nk = b.nodes[p].children@;
    assert(nk.no_duplicates()) by {
        assert forall|x: int, y: int| 0 <= x < nk.len() && 0 <= y < nk.len() && x != y implies nk[x] != nk[y] by {
            let ox = if x < fi { x } else if x == fi { -1 } else { x - fi - 1 + li + 1 };
            let oy = if y < fi { y } else if y == fi { -1 } else { y - fi - 1 + li + 1 };
            if ox >= 0 {
                assert(nk[x] == kids[ox]);
                assert(a.nodes.contains_key(kids[ox]));
            }
            if oy >= 0 {
                assert(nk[y] == kids[oy]);
                assert(a.nodes.contains_key(kids[oy]));
            }
            if ox < 0 {
                assert(nk[x] == w);
            }
            if oy < 0 {
                assert(nk[y] == w);
            }
        }
    }
    assert forall|n: NodeId| #[trigger] b.nodes.contains_key(n) implies node_ok(b, n) by {
        if n == w {
            assert(sel.no_duplicates());
            assert forall|i: int| 0 <= i < sel.len() implies b.nodes.contains_key(#[trigger] b.nodes[w].children@[i])
                && b.nodes[b.nodes[w].children@[i]].parent == Some(w) by {
                assert(b.nodes[w].children@[i] == kids[fi + i]);
                assert(a.nodes.contains_key(kids[fi + i]));
            }
            assert(nk[fi] == w);
            assert(nk.contains(w));
        } else if n == p {
            assert forall|i: int| 0 <= i < nk.len() implies b.nodes.contains_key(#[trigger] nk[i])
                && b.nodes[nk[i]].parent == Some(p) by {
                if i < fi {
                    assert(nk[i] == pre[i]);
                    assert(pre[i] == kids[i]);
                    assert(a.nodes.contains_key(kids[i]));
                    assert(pre.contains(kids[i]));
                    assert(kids.contains(kids[i]));
                    assert(!sel.contains(kids[i]));
                    assert(kids[i] != p) by {
                        assert(node_ok(a, kids[i]));
                    }
                } else if i > fi {
                    let o = i - fi - 1 + li + 1;
                    assert(nk[i] == kids[o]);
                    assert(a.nodes.contains_key(kids[o]));
                    assert(suf[o - li - 1] == kids[o]);
                    assert(suf.contains(kids[o]));
                    assert(kids.contains(kids[o]));
                    assert(!sel.contains(kids[o]));
                    assert(kids[o] != p) by {
                        assert(node_ok(a, kids[o]));
                    }
                }
            }
            if p != a.root {
                let g = a.nodes[p].parent->0;
                assert(a.nodes.contains_key(g));
                assert(g != p) by {
                    assert(node_ok(a, g));
                }
                if sel.contains(g) {
                    assert(kids.contains(g));
                    let j = choose|j: int| 0 <= j < kids.len() && kids[j] == g;
                    assert(a.nodes[kids[j]].parent == Some(p));
                    assert(node_ok(a, g));
                }
                assert(same_node(a.nodes[g], b.nodes[g]));
                assert(!moved.contains(g)) by {
                    if moved.contains(g) {
                        let q = choose|q: int| 0 <= q < sel.len() && in_subtree(a, sel[q], g);
                        lemma_child_in_subtree(a, sel[q], g, p);
                    }
                }
            }
        } else {
            assert(a.nodes.contains_key(n));
            assert(node_ok(a, n));
            let d = a.nodes[n];
            let bd = b.nodes[n];
            if sel.contains(n) {
                let m = choose|m: int| 0 <= m < sel.len() && sel[m] == n;
                assert(kids[fi + m] == n);
                assert(bd.parent == Some(w));
                assert(b.nodes[w].children@[m] == n);
                assert(b.nodes[w].children@.contains(n));
                assert(moved.contains(n)) by {
                    assert(in_subtree(a, sel[m], n));
                }
                assert forall|i: int| 0 <= i < bd.children@.len() implies b.nodes.contains_key(
                    #[trigger] bd.children@[i],
                ) && b.nodes[bd.children@[i]].parent == Some(n) by {
                    let c = d.children@[i];
                    assert(a.nodes.contains_key(c));
                    assert(a.nodes[c].parent == Some(n));
                    assert(c != p) by {
                        assert(node_ok(a, p));
                        if c == p {
                            assert(kids.contains(n));
                        }
                    }
                    if sel.contains(c) {
                        assert(kids.contains(c));
                        let j = choose|j: int| 0 <= j < kids.len() && kids[j] == c;
                        assert(a.nodes[kids[j]].parent == Some(p));
                    }
                    assert(same_node(a.nodes[c], b.nodes[c]));
                }
                assert(a.nodes[n].parent == Some(p));
            } else {
                assert(same_node(d, bd));
                assert forall|i: int| 0 <= i < bd.children@.len() implies b.nodes.contains_key(
                    #[trigger] bd.children@[i],
                ) && b.nodes[bd.children@[i]].parent == Some(n) by {
                    let c = d.children@[i];
                    assert(a.nodes.contains_key(c));
                    assert(a.nodes[c].parent == Some(n));
                    if sel.contains(c) {
                        assert(kids.contains(c));
                        let j = choose|j: int| 0 <= j < kids.len() && kids[j] == c;
                        assert(a.nodes[kids[j]].parent == Some(p));
                    } else {
                        if c == p {
                            assert(b.nodes[p].parent == a.nodes[p].parent);
                        } else {
                            assert(same_node(a.nodes[c], b.nodes[c]));
                        }
                    }
                }
                if n != a.root {
                    let g = d.parent->0;
                    assert(a.nodes.contains_key(g));
                    if g == p {
                        assert(kids.contains(n));
                        let j = choose|j: int| 0 <= j < kids.len() && kids[j] == n;
                        if j < fi {
                            assert(nk[j] == n);
                        } else if j > li {
                            assert(nk[j - li - 1 + fi + 1] == n);
                        } else {
                            assert(sel[j - fi] == n);
                        }
                        assert(nk.contains(n));
                    } else {
                        if sel.contains(g) {
                            let m = choose|m: int| 0 <= m < sel.len() && sel[m] == g;
                            assert(kids[fi + m] == g);
                        } else {
                            assert(same_node(a.nodes[g], b.nodes[g]));
                        }
                    }
                    // depth
                    if moved.contains(n) {
                        let q = choose|q: int| 0 <= q < sel.len() && in_subtree(a, sel[q], n);
                        assert(n != sel[q]);
                        lemma_parent_in_subtree(a, sel[q], n);
                        assert(moved.contains(g));
                    } else {
                        if moved.contains(g) {
                            let q = choose|q: int| 0 <= q < sel.len() && in_subtree(a, sel[q], g);
                            assert(d.parent == Some(g));
                            assert(node_ok(a, g));
                            assert(a.nodes[g].children@.contains(n));
                            lemma_child_in_subtree(a, sel[q], g, n);
                        }
                    }
                } else {
                    assert(!moved.contains(n)) by {
                        if moved.contains(n) {
                            let q = choose|q: int| 0 <= q < sel.len() && in_subtree(a, sel[q], n);
                            lemma_root_not_below(a, sel[q]);
                        }
                    }
                }
            }
        }
    }
}

/// `b` is `a` with a placed copy of `d` inserted as child `pos` of `p`.
pub open spec fn insert_one(a: DocView, b: DocView, p: NodeId, pos: int, d: Node) -> bool {
    exists|ids: Seq<NodeId>|
        {
            &&& placed(b, flatten(d, -1, 0), ids, Some(p), tree_size(d) as int)
            &&& forall|j: int| 0 <= j < ids.len() ==> !a.nodes.contains_key(#[trigger] ids[j])
            &&& b.nodes.dom() == a.nodes.dom() + ids.to_set()
            &&& b.nodes[p].children@ == a.nodes[p].children@.insert(pos, ids[0])
            &&& same_but_children(a.nodes[p], b.nodes[p])
            &&& forall|n: NodeId|
                a.nodes.contains_key(n) && n != p ==> same_node(a.nodes[n], #[trigger] b.nodes[n])
            &&& b.root == a.root
            &&& b.source == a.source
        }
}


/// If `c` is an ancestor-or-self of `n` and `p` is the parent of `c`, then `p`
/// is an ancestor of `n`.
pub proof fn lemma_reaches_up(v: DocView, c: NodeId, p: NodeId, n: NodeId)
    requires
        tree_wf(v),
        v.nodes.contains_key(c),
        v.nodes.contains_key(n),
        v.nodes[c].parent == Some(p),
        reaches(v, c, n, v.depth[n]),
    ensures
        reaches(v, p, n, v.depth[n]),
    decreases v.depth[n],
{
    assert(node_ok(v, n));
    assert(node_ok(v, c));
    if n == c {
        assert(c != v.root);
        assert(v.depth[c] == v.depth[p] + 1);
        assert(reaches(v, p, p, v.depth[p]));
    } else {
        if n == v.root {
            assert(v.nodes[n].parent is None);
        } else {
            let q = v.nodes[n].parent->0;
            assert(node_ok(v, q));
            assert(v.depth[n] == v.depth[q] + 1);
            lemma_reaches_up(v, c, p, q);
        }
    }
}

/// A proper descendant's parent is in the same subtree.
pub proof fn lemma_parent_in_subtree(v: DocView, r: NodeId, n: NodeId)
    requires
        tree_wf(v),
        in_subtree(v, r, n),
        n != r,
    ensures
        v.nodes[n].parent is Some,
        in_subtree(v, r, v.nodes[n].parent->0),
{
    assert(node_ok(v, n));
    if n == v.root {
        assert(v.nodes[n].parent is None);
    }
    let p = v.nodes[n].parent->0;
    assert(node_ok(v, p));
}

/// The root of the document is in no subtree rooted at a non-root node.
pub proof fn lemma_root_not_below(v: DocView, r: NodeId)
    requires
        tree_wf(v),
        v.nodes.contains_key(r),
        r != v.root,
    ensures
        !in_subtree(v, r, v.root),
{
    assert(node_ok(v, r));
    assert(node_ok(v, v.nodes[r].parent->0));
    if in_subtree(v, r, v.root) {
        assert(node_ok(v, v.root));
        lemma_reaches_depth(v, r, v.root, v.depth[v.root]);
    }
}


/// A child of a node inside the subtrees is none of the subtree roots.
pub proof fn lemma_child_not_root(v: DocView, roots: Seq<NodeId>, x: NodeId, c: NodeId)
    requires
        tree_wf(v),
        disjoint_roots(v, roots),
        subtrees(v, roots).contains(x),
        v.nodes[x].children@.contains(c),
    ensures
        !roots.contains(c),
        subtrees(v, roots).contains(c),
{
    let i = choose|i: int| 0 <= i < roots.len() && in_subtree(v, roots[i], x);
    lemma_child_in_subtree(v, roots[i], x, c);
    if roots.contains(c) {
        let j = choose|j: int| 0 <= j < roots.len() && roots[j] == c;
        if i == j {
            assert(node_ok(v, x));
            let k = choose|k: int| 0 <= k < v.nodes[x].children@.len() && v.nodes[x].children@[k] == c;
            assert(v.nodes.contains_key(c));
            assert(node_ok(v, c));
            assert(v.nodes[c].parent == Some(x));
            lemma_reaches_depth(v, roots[i], x, v.depth[x]);
        }
    }
}

/// The state of the loop that deletes the subtrees at `roots` from `o`: `v`
/// is what is left so far and `p` what is still to be deleted.
pub open spec fn delete_inv(o: DocView, roots: Seq<NodeId>, v: DocView, p: Seq<NodeId>) -> bool {
    let gone = subtrees(o, roots);
    &&& tree_wf(o)
    &&& disjoint_roots(o, roots)
    &&& v.source == o.source
    &&& v.root == o.root
    &&& v.depth == o.depth
    &&& forall|n: NodeId|
        #[trigger] v.nodes.contains_key(n) ==> o.nodes.contains_key(n) && v.nodes[n] == o.nodes[n]
    &&& forall|n: NodeId|
        o.nodes.contains_key(n) && !#[trigger] v.nodes.contains_key(n) ==> gone.contains(n) && (
        roots.contains(n) || !v.nodes.contains_key(o.nodes[n].parent->0))
    &&& p.no_duplicates()
    &&& forall|i: int|
        #![trigger p[i]]
        0 <= i < p.len() ==> v.nodes.contains_key(p[i]) && gone.contains(p[i]) && (roots.contains(
            p[i],
        ) || !v.nodes.contains_key(o.nodes[p[i]].parent->0))
    &&& forall|n: NodeId|
        gone.contains(n) && #[trigger] v.nodes.contains_key(n) ==> exists|i: int|
            0 <= i < p.len() && in_subtree(o, p[i], n)
}


pub proof fn lemma_delete_init(o: DocView, roots: Seq<NodeId>)
    requires
        tree_wf(o),
        disjoint_roots(o, roots),
    ensures
        delete_inv(o, roots, o, roots),
{
    let gone = subtrees(o, roots);
    assert forall|n: NodeId| gone.contains(n) && #[trigger] o.nodes.contains_key(n) implies exists|
        j: int,
    | 0 <= j < roots.len() && in_subtree(o, roots[j], n) by {
    }
    assert forall|j: int|
        #![trigger roots[j]]
        0 <= j < roots.len() implies o.nodes.contains_key(roots[j]) && gone.contains(roots[j]) && (
        roots.contains(roots[j]) || !o.nodes.contains_key(o.nodes[roots[j]].parent->0)) by {
        assert(in_subtree(o, roots[j], roots[j]));
    }
}

pub proof fn lemma_delete_done(o: DocView, roots: Seq<NodeId>, v: DocView)
    requires
        delete_inv(o, roots, v, Seq::empty()),
    ensures
        v.nodes.dom() == o.nodes.dom() - subtrees(o, roots),
{
    let gone = subtrees(o, roots);
    assert forall|n: NodeId| v.nodes.contains_key(n) implies !gone.contains(n) by {
        if gone.contains(n) {
            assert(exists|j: int| 0 <= j < 0 && in_subtree(o, Seq::<NodeId>::empty()[j], n));
        }
    }
    assert(v.nodes.dom() =~= o.nodes.dom() - gone);
}

/// Deleting the last pending node and queueing its children keeps the loop state.
#[verifier::rlimit(60)]
pub proof fn lemma_delete_step(o: DocView, roots: Seq<NodeId>, v: DocView, w: DocView, p: Seq<NodeId>)
    requires
        delete_inv(o, roots, v, p),
        p.len() > 0,
        w == (DocView { nodes: v.nodes.remove(p.last()), ..v }),
    ensures
        delete_inv(o, roots, w, p.drop_last() + o.nodes[p.last()].children@),
{
    let gone = subtrees(o, roots);
    let x = p.last();
    let kids = o.nodes[x].children@;
    let rest = p.drop_last();
    let p2 = rest + kids;
    assert(v.nodes.contains_key(x)) by {
        assert(p[p.len() - 1] == x);
    }
    assert(node_ok(o, x));
    assert forall|c: NodeId| #[trigger] kids.contains(c) implies !roots.contains(c) && gone.contains(c)
        && w.nodes.contains_key(c) && o.nodes[c].parent == Some(x) by {
        lemma_child_not_root(o, roots, x, c);
        let k = choose|k: int| 0 <= k < kids.len() && kids[k] == c;
        assert(o.nodes.contains_key(kids[k]));
        assert(o.nodes[c].parent == Some(x));
        if !v.nodes.contains_key(c) {
            assert(!v.nodes.contains_key(o.nodes[c].parent->0));
        }
        assert(c != x) by {
            assert(node_ok(o, c));
        }
    }
    assert forall|i: int| 0 <= i < rest.len() implies rest[i] != x by {
        assert(rest[i] == p[i]);
        assert(p[p.len() - 1] == x);
    }
    assert forall|i: int, c: NodeId| 0 <= i < rest.len() && #[trigger] kids.contains(c) implies
        #[trigger] rest[i] != c by {
        assert(rest[i] == p[i]);
        let pi = p[i];
        if pi == c {
            assert(roots.contains(c) || !v.nodes.contains_key(o.nodes[c].parent->0));
        }
    }
    assert(p2.no_duplicates()) by {
        assert forall|a: int, b: int| 0 <= a < p2.len() && 0 <= b < p2.len() && a != b implies p2[a]
            != p2[b] by {
            if a < rest.len() && b < rest.len() {
                assert(p2[a] == p[a] && p2[b] == p[b]);
            } else if a >= rest.len() && b >= rest.len() {
                assert(p2[a] == kids[a - rest.len()] && p2[b] == kids[b - rest.len()]);
            } else if a < rest.len() {
                assert(p2[b] == kids[b - rest.len()]);
                assert(kids.contains(p2[b]));
                assert(rest[a] != p2[b]);
            } else {
                assert(p2[a] == kids[a - rest.len()]);
                assert(kids.contains(p2[a]));
                assert(rest[b] != p2[a]);
            }
        }
    }
    assert forall|i: int|
        #![trigger p2[i]]
        0 <= i < p2.len() implies w.nodes.contains_key(p2[i]) && gone.contains(p2[i]) && (
        roots.contains(p2[i]) || !w.nodes.contains_key(o.nodes[p2[i]].parent->0)) by {
        if i < rest.len() {
            assert(p2[i] == p[i]);
            assert(rest[i] != x);
        } else {
            assert(p2[i] == kids[i - rest.len()]);
            assert(kids.contains(p2[i]));
        }
    }
    assert forall|n: NodeId| gone.contains(n) && #[trigger] w.nodes.contains_key(n) implies exists|i: int|
        0 <= i < p2.len() && in_subtree(o, p2[i], n) by {
        assert(v.nodes.contains_key(n));
        let i = choose|i: int| 0 <= i < p.len() && in_subtree(o, p[i], n);
        if i < p.len() - 1 {
            assert(p2[i] == p[i]);
        } else {
            assert(n != x);
            lemma_below_child(o, x, n);
            let c = choose|c: NodeId| kids.contains(c) && in_subtree(o, c, n);
            let k = choose|k: int| 0 <= k < kids.len() && kids[k] == c;
            assert(p2[rest.len() + k] == c);
        }
    }
    assert forall|n: NodeId|
        o.nodes.contains_key(n) && !#[trigger] w.nodes.contains_key(n) implies gone.contains(n) && (
        roots.contains(n) || !w.nodes.contains_key(o.nodes[n].parent->0)) by {
        if n == x {
            assert(p[p.len() - 1] == x);
        }
    }
}

/// Removing whole, disjoint subtrees leaves a consistent tree.
#[verifier::rlimit(60)]
pub proof fn lemma_removal_tree(v: DocView, w: DocView, roots: Seq<NodeId>)
    requires
        tree_wf(v),
        disjoint_roots(v, roots),
        removal_result(v, w, roots),
        w.depth == v.depth,
    ensures
        tree_wf(w),
{
    let gone = subtrees(v, roots);
    // a live child of a kept node is kept unless it is one of the roots
    assert forall|n: NodeId, c: NodeId|
        #![trigger w.nodes.contains_key(n), v.nodes[n].children@.contains(c)]
        w.nodes.contains_key(n) && v.nodes[n].children@.contains(c) && !roots.contains(c) implies
        w.nodes.contains_key(c) && w.nodes[c].parent == Some(n) by {
        assert(node_ok(v, n));
        let k = choose|k: int| 0 <= k < v.nodes[n].children@.len() && v.nodes[n].children@[k] == c;
        assert(v.nodes.contains_key(c));
        if gone.contains(c) {
            let i = choose|i: int| 0 <= i < roots.len() && in_subtree(v, roots[i], c);
            assert(c != roots[i]);
            lemma_parent_in_subtree(v, roots[i], c);
            assert(gone.contains(n));
        }
    }
    assert(!gone.contains(v.root)) by {
        if gone.contains(v.root) {
            let i = choose|i: int| 0 <= i < roots.len() && in_subtree(v, roots[i], v.root);
            lemma_root_not_below(v, roots[i]);
        }
    }
    assert forall|n: NodeId| #[trigger] w.nodes.contains_key(n) implies node_ok(w, n) by {
        assert(node_ok(v, n));
        let d = v.nodes[n];
        let wd = w.nodes[n];
        lemma_without_contains(d.children@, roots);
        lemma_without_no_dup(d.children@, roots);
        assert forall|i: int| 0 <= i < wd.children@.len() implies w.nodes.contains_key(
            #[trigger] wd.children@[i],
        ) && w.nodes[wd.children@[i]].parent == Some(n) by {
            let c = wd.children@[i];
            assert(wd.children@.contains(c));
            assert(d.children@.contains(c));
            if roots.contains(c) {
                let j = choose|j: int| 0 <= j < roots.len() && roots[j] == c;
                let k = choose|k: int| 0 <= k < d.children@.len() && d.children@[k] == c;
                assert(v.nodes[d.children@[k]].parent == Some(n));
                assert(loses_children(v, roots, n));
            }
        }
        if n != w.root {
            let p = d.parent->0;
            assert(v.nodes.contains_key(p));
            assert(!gone.contains(p)) by {
                if gone.contains(p) {
                    let i = choose|i: int| 0 <= i < roots.len() && in_subtree(v, roots[i], p);
                    lemma_child_in_subtree(v, roots[i], p, n);
                    assert(gone.contains(n));
                }
            }
            assert(w.nodes.contains_key(p));
            assert(!roots.contains(n)) by {
                if roots.contains(n) {
                    let j = choose|j: int| 0 <= j < roots.len() && roots[j] == n;
                    assert(in_subtree(v, roots[j], n));
                    assert(gone.contains(n));
                }
            }
            lemma_without_contains(v.nodes[p].children@, roots);
            assert(w.nodes[p].children@.contains(n));
        }
    }
    assert(w.nodes.dom().finite()) by {
        assert(w.nodes.dom() =~= v.nodes.dom() - gone);
    }
}

} // verus!
