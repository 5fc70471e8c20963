//! Arena-backed representation of one parsed Markdown document.
use vstd::prelude::*;

use crate::arena::{contains_id, Arena, NodeId};
use crate::subtree::{
    lemma_in_subtree_trans, lemma_below_child, lemma_siblings_disjoint, delete_inv, disjoint_roots, lemma_reaches_fuel, lemma_reaches_up, reaches, lemma_delete_done, lemma_delete_init, in_subtree, lemma_child_in_subtree, lemma_delete_step,
    insert_one, lemma_reaches_depth, lemma_replace_result, lemma_removal_tree, lemma_single_root_disjoint,
    lemma_without_single, lemma_wrap_tree, loses_children, same_node, wrap_one, removal_result, replace_one, same_but_children,
    subtrees, without,
};
use crate::node::{
    flat_entry, flatten, flatten_forest, tree_size, lemma_flatten_forest_push, CustomValue, FlatNode,
    HtmlAttributes, Node, NodeKind, NodeValue, Paragraph, SourcePos, Text,
};

verus! {

/// Error returned when a node handle does not belong to the current arena
/// generation.
#[derive(Clone, Copy, PartialEq, Eq, Structural, Debug)]
pub struct InvalidNodeId(pub NodeId);

/// Data for one arena-backed document node.
#[derive(Debug)]
pub struct DocumentNode {
    pub id: NodeId,
    pub parent: Option<NodeId>,
    pub children: Vec<NodeId>,
    pub srcmap: Option<SourcePos>,
    pub attrs: HtmlAttributes,
    pub node_value: NodeValue,
}

impl DocumentNode {
    pub fn id(&self) -> (r: NodeId)
        ensures
            r == self.id,
    {
        self.id
    }

    pub fn parent(&self) -> (r: Option<NodeId>)
        ensures
            r == self.parent,
    {
        self.parent
    }

    pub fn children(&self) -> (r: &[NodeId])
        ensures
            r@ == self.children@,
    {
        self.children.as_slice()
    }

    pub fn srcmap(&self) -> (r: Option<SourcePos>)
        ensures
            r == self.srcmap,
    {
        self.srcmap
    }

    pub fn attrs(&self) -> (r: &HtmlAttributes)
        ensures
            r == self.attrs,
    {
        &self.attrs
    }

    pub fn node_value(&self) -> (r: &NodeValue)
        ensures
            r == self.node_value,
    {
        &self.node_value
    }

    /// Name of the payload's type.
    pub fn name(&self) -> (r: &str)
        ensures
            r@ == self.node_value.type_path(),
    {
        self.node_value.name()
    }

    /// Whether the payload is of the given kind.
    pub fn is(&self, kind: NodeKind) -> (r: bool)
        ensures
            r == (self.node_value.spec_kind() == kind),
    {
        self.node_value.is(kind)
    }

    /// The payload, if it has the given kind.
    pub fn cast(&self, kind: NodeKind) -> (r: Option<&NodeValue>)
        ensures
            r is Some <==> self.node_value.spec_kind() == kind,
            r matches Some(x) ==> *x == self.node_value,
    {
        if self.node_value.is(kind) {
            Some(&self.node_value)
        } else {
            None
        }
    }

    /// The payload as plain text, if this is a `Text` node.
    pub fn cast_text(&self) -> (r: Option<&Text>)
        ensures
            r is Some <==> self.node_value is Text,
            r matches Some(t) ==> *t == self.node_value->Text_0,
    {
        self.node_value.as_text()
    }

    /// The payload as a custom value, if it is one.
    pub fn cast_custom(&self) -> (r: Option<&CustomValue>)
        ensures
            r is Some <==> self.node_value is Custom,
            r matches Some(c) ==> *c == self.node_value->Custom_0,
    {
        self.node_value.as_custom()
    }
}

/// The abstract state of a document: its source, its root, its live nodes and
/// the depth of each node below the root.
pub ghost struct DocView {
    pub source: Seq<char>,
    pub root: NodeId,
    pub nodes: Map<NodeId, DocumentNode>,
    pub depth: Map<NodeId, nat>,
}

/// The tree links around node `n` are consistent.
pub open spec fn node_ok(v: DocView, n: NodeId) -> bool {
    let d = v.nodes[n];
    &&& d.id == n
    &&& v.depth.contains_key(n)
    &&& d.children@.no_duplicates()
    &&& forall|i: int|
        #![trigger d.children@[i]]
        0 <= i < d.children@.len() ==> v.nodes.contains_key(d.children@[i]) && v.nodes[d.children@[
            i]].parent == Some(n)
    &&& (n == v.root ==> v.depth[n] == 0 && d.parent is None)
    &&& (n != v.root ==> {
        &&& d.parent is Some
        &&& v.nodes.contains_key(d.parent->0)
        &&& v.nodes[d.parent->0].children@.contains(n)
        &&& v.depth[n] == v.depth[d.parent->0] + 1
    })
}

/// The live nodes form one tree below the root.
pub open spec fn tree_wf(v: DocView) -> bool {
    &&& v.nodes.contains_key(v.root)
    &&& v.nodes.dom().finite()
    &&& forall|n: NodeId| #[trigger] v.nodes.contains_key(n) ==> node_ok(v, n)
}

/// The children that flattened node `i` has among the first `upto` entries.
pub open spec fn kid_ids(f: Seq<FlatNode>, ids: Seq<NodeId>, i: int, upto: int) -> Seq<NodeId>
    decreases upto,
{
    if upto <= 0 {
        Seq::empty()
    } else {
        kid_ids(f, ids, i, upto - 1) + if f[upto - 1].parent == i {
            seq![ids[upto - 1]]
        } else {
            Seq::<NodeId>::empty()
        }
    }
}

/// The first `k` entries of the flattened tree `f` stand in the document
/// under the handles `ids`, the top one below `top`.
pub open spec fn placed(
    v: DocView,
    f: Seq<FlatNode>,
    ids: Seq<NodeId>,
    top: Option<NodeId>,
    k: int,
) -> bool {
    &&& ids.len() == k
    &&& k <= f.len()
    &&& ids.no_duplicates()
    &&& forall|i: int|
        #![trigger ids[i]]
        0 <= i < k ==> {
            &&& f[i].parent < i
            &&& v.nodes.contains_key(ids[i])
            &&& v.nodes[ids[i]].srcmap == f[i].srcmap
            &&& v.nodes[ids[i]].attrs@ == f[i].attrs
            &&& v.nodes[ids[i]].node_value == f[i].value
            &&& v.nodes[ids[i]].parent == (if f[i].parent < 0 {
                top
            } else {
                Some(ids[f[i].parent])
            })
            &&& v.nodes[ids[i]].children@ == kid_ids(f, ids, i, k)
        }
}

/// The preorder listing of the trees still waiting on a work stack whose top
/// is its last item; `pidx` holds the parent index of each item.
pub open spec fn pending_flat(items: Seq<(Node, NodeId)>, pidx: Seq<int>, base: int) -> Seq<
    FlatNode,
>
    decreases items.len(),
{
    if items.len() == 0 {
        Seq::empty()
    } else {
        let h = flatten(items.last().0, pidx.last(), base);
        h + pending_flat(items.drop_last(), pidx.drop_last(), base + h.len())
    }
}

proof fn lemma_kid_ids_ext(f: Seq<FlatNode>, ids1: Seq<NodeId>, ids2: Seq<NodeId>, i: int, upto: int)
    requires
        forall|j: int| 0 <= j < upto ==> ids1[j] == ids2[j],
    ensures
        kid_ids(f, ids1, i, upto) == kid_ids(f, ids2, i, upto),
    decreases upto,
{
    if upto > 0 {
        lemma_kid_ids_ext(f, ids1, ids2, i, upto - 1);
    }
}

proof fn lemma_kid_ids_none(f: Seq<FlatNode>, ids: Seq<NodeId>, i: int, upto: int)
    requires
        forall|j: int| 0 <= j < upto ==> f[j].parent != i,
    ensures
        kid_ids(f, ids, i, upto) == Seq::<NodeId>::empty(),
    decreases upto,
{
    if upto > 0 {
        lemma_kid_ids_none(f, ids, i, upto - 1);
    }
}

proof fn lemma_kid_ids_subset(f: Seq<FlatNode>, ids: Seq<NodeId>, i: int, upto: int)
    requires
        0 <= upto <= ids.len(),
    ensures
        forall|x: NodeId| kid_ids(f, ids, i, upto).contains(x) ==> exists|j: int|
            0 <= j < upto && ids[j] == x,
    decreases upto,
{
    if upto > 0 {
        lemma_kid_ids_subset(f, ids, i, upto - 1);
        let prev = kid_ids(f, ids, i, upto - 1);
        assert forall|x: NodeId| kid_ids(f, ids, i, upto).contains(x) implies exists|j: int|
            0 <= j < upto && ids[j] == x by {
            let kk = kid_ids(f, ids, i, upto);
            let m = choose|m: int| 0 <= m < kk.len() && kk[m] == x;
            if m < prev.len() {
                assert(prev[m] == x);
                assert(prev.contains(x));
            } else {
                assert(ids[upto - 1] == x);
            }
        }
    }
}


/// Push `children` onto the work stack in reverse, so that the first child ends
/// on top, each under `parent` (whose preorder index is `k`).
fn push_children_reversed(
    stack: &mut Vec<(Node, NodeId)>,
    children: Vec<Node>,
    parent: NodeId,
    Ghost(pidx): Ghost<Seq<int>>,
    Ghost(k): Ghost<int>,
) -> (new_pidx: Ghost<Seq<int>>)
    requires
        pidx.len() == old(stack)@.len(),
    ensures
        final(stack)@.len() == old(stack)@.len() + children@.len(),
        new_pidx@.len() == final(stack)@.len(),
        forall|j: int|
            #![trigger final(stack)@[j]]
            0 <= j < old(stack)@.len() ==> final(stack)@[j] == old(stack)@[j] && new_pidx@[j]
                == pidx[j],
        forall|j: int|
            #![trigger final(stack)@[j]]
            old(stack)@.len() <= j < final(stack)@.len() ==> final(stack)@[j].1 == parent
                && new_pidx@[j] == k,
        pending_flat(final(stack)@, new_pidx@, k + 1) == flatten_forest(children@, k, k + 1)
            + pending_flat(old(stack)@, pidx, k + 1 + flatten_forest(children@, k, k + 1).len()),
{
    let mut ch = children;
    let ghost mut np = pidx;
    let ghost target = flatten_forest(children@, k, k + 1) + pending_flat(
        stack@,
        pidx,
        k + 1 + flatten_forest(children@, k, k + 1).len(),
    );
    let ghost old_stack = stack@;
    while ch.len() > 0
        invariant
            np.len() == stack@.len(),
            pidx.len() == old_stack.len(),
            stack@.len() == old_stack.len() + (children@.len() - ch@.len()),
            ch@.len() <= children@.len(),
            forall|j: int|
                #![trigger stack@[j]]
                0 <= j < old_stack.len() ==> stack@[j] == old_stack[j] && np[j] == pidx[j],
            forall|j: int|
                #![trigger stack@[j]]
                old_stack.len() <= j < stack@.len() ==> stack@[j].1 == parent && np[j] == k,
            flatten_forest(ch@, k, k + 1) + pending_flat(
                stack@,
                np,
                k + 1 + flatten_forest(ch@, k, k + 1).len(),
            ) == target,
        decreases ch.len(),
    {
        let ghost before_ch = ch@;
        let ghost before_stack = stack@;
        let ghost before_np = np;
        let c = ch.pop().unwrap();
        proof {
            assert(before_ch =~= ch@.push(c));
            lemma_flatten_forest_push(ch@, c, k, k + 1);
        }
        let ghost item = (c, parent);
        stack.push((c, parent));
        proof {
            assert(stack@ == before_stack.push(item));
            np = np.push(k);
            let base = k + 1 + flatten_forest(ch@, k, k + 1).len();
            assert(stack@.drop_last() =~= before_stack);
            assert(np.drop_last() =~= before_np);
            assert(pending_flat(stack@, np, base) == flatten(c, k, base) + pending_flat(
                before_stack,
                before_np,
                base + flatten(c, k, base).len(),
            ));
            assert(flatten_forest(ch@, k, k + 1) + pending_flat(stack@, np, base) =~= target);
            assert forall|j: int| old_stack.len() <= j < stack@.len() implies stack@[j].1 == parent
                && np[j] == k by {
                if j < stack@.len() - 1 {
                    assert(stack@[j] == before_stack[j]);
                    assert(np[j] == before_np[j]);
                } else {
                    assert(j == before_np.len());
                    assert(stack@[j] == item);
                    assert(np[j] == k);
                }
            }
            assert forall|j: int| 0 <= j < old_stack.len() implies stack@[j] == old_stack[j]
                && np[j] == pidx[j] by {
                assert(stack@[j] == before_stack[j]);
                assert(np[j] == before_np[j]);
            }
        }
    }
    proof {
        assert(flatten_forest(ch@, k, k + 1) =~= Seq::<FlatNode>::empty());
        assert(pending_flat(stack@, np, k + 1) =~= target);
    }
    Ghost(np)
}


/// Appending one fresh, childless node below a placed node keeps the tree consistent.
#[verifier::rlimit(40)]
proof fn lemma_attach_tree(
    before: DocView,
    after: DocView,
    f: Seq<FlatNode>,
    ids: Seq<NodeId>,
    top: Option<NodeId>,
    id: NodeId,
    parent_id: NodeId,
    q: int,
)
    requires
        tree_wf(before),
        placed(before, f, ids, top, ids.len() as int),
        ids.len() < f.len(),
        0 <= q < ids.len(),
        parent_id == ids[q],
        f[ids.len() as int].parent == q,
        !before.nodes.contains_key(id),
        after.root == before.root,
        after.nodes.dom() == before.nodes.dom().insert(id),
        after.depth == before.depth.insert(id, before.depth[parent_id] + 1),
        after.nodes[id].id == id,
        after.nodes[id].parent == Some(parent_id),
        after.nodes[id].children@.len() == 0,
        after.nodes[id].srcmap == f[ids.len() as int].srcmap,
        after.nodes[id].attrs@ == f[ids.len() as int].attrs,
        after.nodes[id].node_value == f[ids.len() as int].value,
        after.nodes[parent_id].children@ == before.nodes[parent_id].children@.push(id),
        after.nodes[parent_id].id == before.nodes[parent_id].id,
        after.nodes[parent_id].parent == before.nodes[parent_id].parent,
        after.nodes[parent_id].srcmap == before.nodes[parent_id].srcmap,
        after.nodes[parent_id].attrs == before.nodes[parent_id].attrs,
        after.nodes[parent_id].node_value == before.nodes[parent_id].node_value,
        forall|n: NodeId| n != id && n != parent_id ==> after.nodes[n] == before.nodes[n],
    ensures
        tree_wf(after),
{
    let k = ids.len() as int;
    let ids2 = ids.push(id);
    assert(before.nodes.contains_key(parent_id)) by {
        assert(ids[q] == parent_id);
    }
    assert(node_ok(before, parent_id));
    let pd = before.nodes[parent_id];
    // the new node is not among the parent's old children
    assert(!pd.children@.contains(id)) by {
        if pd.children@.contains(id) {
            let i = choose|i: int| 0 <= i < pd.children@.len() && pd.children@[i] == id;
            assert(before.nodes.contains_key(pd.children@[i]));
        }
    }
    // the parent is not its own child
    assert(!pd.children@.contains(parent_id)) by {
        if pd.children@.contains(parent_id) {
            let i = choose|i: int| 0 <= i < pd.children@.len() && pd.children@[i] == parent_id;
            assert(before.nodes[pd.children@[i]].parent == Some(parent_id));
        }
    }
    assert forall|n: NodeId| #[trigger] after.nodes.contains_key(n) implies node_ok(after, n) by {
        if n == id {
            assert(after.nodes[parent_id].children@.last() == id);
            assert(after.nodes[parent_id].children@.contains(id));
        } else if n == parent_id {
            let d = after.nodes[n];
            assert(d.children@.no_duplicates());
            assert forall|i: int| 0 <= i < d.children@.len() implies after.nodes.contains_key(
                d.children@[i],
            ) && after.nodes[d.children@[i]].parent == Some(n) by {
                if i < pd.children@.len() {
                    let c = pd.children@[i];
                    assert(d.children@[i] == c);
                    assert(before.nodes.contains_key(c));
                    assert(c != id);
                    assert(c != parent_id) by {
                        assert(pd.children@.contains(c));
                    }
                }
            }
            if n != after.root {
                let g = pd.parent->0;
                assert(before.nodes.contains_key(g));
                assert(g != id);
                if g == parent_id {
                    assert(pd.children@.contains(parent_id));
                }
            }
        } else {
            assert(before.nodes.contains_key(n));
            assert(node_ok(before, n));
            let d = before.nodes[n];
            assert(after.nodes[n] == d);
            assert forall|i: int| 0 <= i < d.children@.len() implies after.nodes.contains_key(
                d.children@[i],
            ) && after.nodes[d.children@[i]].parent == Some(n) by {
                let c = d.children@[i];
                assert(before.nodes.contains_key(c));
            }
            if n != after.root {
                let g = d.parent->0;
                assert(before.nodes.contains_key(g));
                if g == parent_id {
                    assert(after.nodes[parent_id].children@ == pd.children@.push(id));
                    let j = choose|j: int| 0 <= j < pd.children@.len() && pd.children@[j] == n;
                    assert(after.nodes[parent_id].children@[j] == n);
                }
            }
        }
    }
    assert(after.nodes.dom().finite());
}

/// Appending one fresh, childless node below a placed node extends the placement by one entry.
#[verifier::rlimit(40)]
proof fn lemma_attach_placed(
    before: DocView,
    after: DocView,
    f: Seq<FlatNode>,
    ids: Seq<NodeId>,
    top: Option<NodeId>,
    id: NodeId,
    parent_id: NodeId,
    q: int,
)
    requires
        tree_wf(before),
        placed(before, f, ids, top, ids.len() as int),
        ids.len() < f.len(),
        0 <= q < ids.len(),
        parent_id == ids[q],
        f[ids.len() as int].parent == q,
        !before.nodes.contains_key(id),
        after.root == before.root,
        after.nodes.dom() == before.nodes.dom().insert(id),
        after.depth == before.depth.insert(id, before.depth[parent_id] + 1),
        after.nodes[id].id == id,
        after.nodes[id].parent == Some(parent_id),
        after.nodes[id].children@.len() == 0,
        after.nodes[id].srcmap == f[ids.len() as int].srcmap,
        after.nodes[id].attrs@ == f[ids.len() as int].attrs,
        after.nodes[id].node_value == f[ids.len() as int].value,
        after.nodes[parent_id].children@ == before.nodes[parent_id].children@.push(id),
        after.nodes[parent_id].id == before.nodes[parent_id].id,
        after.nodes[parent_id].parent == before.nodes[parent_id].parent,
        after.nodes[parent_id].srcmap == before.nodes[parent_id].srcmap,
        after.nodes[parent_id].attrs == before.nodes[parent_id].attrs,
        after.nodes[parent_id].node_value == before.nodes[parent_id].node_value,
        forall|n: NodeId| n != id && n != parent_id ==> after.nodes[n] == before.nodes[n],
    ensures
        placed(after, f, ids.push(id), top, ids.len() as int + 1),
{
    let k = ids.len() as int;
    let ids2 = ids.push(id);
    assert(before.nodes.contains_key(parent_id)) by {
        assert(ids[q] == parent_id);
    }
    // placement
    assert forall|j: int| 0 <= j < k implies ids2[j] != id by {
        assert(before.nodes.contains_key(ids[j]));
    }
    assert(ids2.no_duplicates()) by {
        assert forall|a: int, b: int| 0 <= a < ids2.len() && 0 <= b < ids2.len() && a != b implies ids2[a]
            != ids2[b] by {
            if a < k && b < k {
                assert(ids2[a] == ids[a] && ids2[b] == ids[b]);
            }
        }
    }
    assert forall|i: int|
        #![trigger ids2[i]]
        0 <= i < k + 1 implies {
        &&& f[i].parent < i
        &&& after.nodes.contains_key(ids2[i])
        &&& after.nodes[ids2[i]].srcmap == f[i].srcmap
        &&& after.nodes[ids2[i]].attrs@ == f[i].attrs
        &&& after.nodes[ids2[i]].node_value == f[i].value
        &&& after.nodes[ids2[i]].parent == (if f[i].parent < 0 {
            top
        } else {
            Some(ids2[f[i].parent])
        })
        &&& after.nodes[ids2[i]].children@ == kid_ids(f, ids2, i, k + 1)
    } by {
        lemma_kid_ids_ext(f, ids, ids2, i, k);
        if i < k {
            assert(ids2[i] == ids[i]);
            assert(before.nodes.contains_key(ids[i]));
            if f[i].parent >= 0 {
                assert(ids2[f[i].parent] == ids[f[i].parent]);
            }
            if i == q {
                assert(kid_ids(f, ids2, i, k + 1) =~= kid_ids(f, ids, i, k).push(id));
            } else {
                assert(ids[i] != parent_id);
                assert(kid_ids(f, ids2, i, k + 1) =~= kid_ids(f, ids, i, k));
            }
        } else {
            assert forall|j: int| 0 <= j < k + 1 implies f[j].parent != k by {
                if j < k {
                    let t = ids[j];
                    assert(f[j].parent < j);
                }
            }
            lemma_kid_ids_none(f, ids2, k, k + 1);
            assert(after.nodes[id].children@ =~= Seq::<NodeId>::empty());
        }
    }
}



proof fn lemma_pending_pop(f: Seq<FlatNode>, k: int, stack: Seq<(Node, NodeId)>, pidx: Seq<int>)
    requires
        0 <= k <= f.len(),
        stack.len() > 0,
        pidx.len() == stack.len(),
        f == f.take(k) + pending_flat(stack, pidx, k),
    ensures
        k < f.len(),
        f[k] == flat_entry(stack.last().0, pidx.last()),
        f == f.take(k + 1) + (flatten_forest(stack.last().0.children@, k, k + 1) + pending_flat(
            stack.drop_last(),
            pidx.drop_last(),
            k + 1 + flatten_forest(stack.last().0.children@, k, k + 1).len(),
        )),
{
    let n = stack.last().0;
    let q = pidx.last();
    let h = flatten(n, q, k);
    let ff = flatten_forest(n.children@, k, k + 1);
    assert(h =~= seq![flat_entry(n, q)] + ff);
    let rest = pending_flat(stack.drop_last(), pidx.drop_last(), k + h.len());
    assert(pending_flat(stack, pidx, k) == h + rest);
    assert(f.take(k).len() == k);
    assert(f[k] == h[0]);
    assert(f =~= f.take(k + 1) + (ff + rest));
}

proof fn lemma_dom_step(
    old_dom: Set<NodeId>,
    dom_before: Set<NodeId>,
    dom_now: Set<NodeId>,
    n0: int,
    ids: Seq<NodeId>,
    id: NodeId,
)
    requires
        0 <= n0 <= ids.len(),
        dom_before == old_dom + ids.subrange(n0, ids.len() as int).to_set(),
        dom_now == dom_before.insert(id),
    ensures
        dom_now == old_dom + ids.push(id).subrange(n0, ids.len() as int + 1).to_set(),
{
    let sub_before = ids.subrange(n0, ids.len() as int);
    let sub = ids.push(id).subrange(n0, ids.len() as int + 1);
    assert(sub =~= sub_before.push(id));
    assert forall|x: NodeId| #[trigger] dom_now.contains(x) <==> (old_dom.contains(x)
        || sub.to_set().contains(x)) by {
        if sub.contains(x) && x != id {
            let m = choose|m: int| 0 <= m < sub.len() && sub[m] == x;
            assert(sub_before[m] == x);
            assert(sub_before.contains(x));
        }
        if sub_before.contains(x) {
            let m = choose|m: int| 0 <= m < sub_before.len() && sub_before[m] == x;
            assert(sub[m] == x);
        }
        assert(sub[sub.len() - 1] == id);
    }
    assert(dom_now =~= old_dom + sub.to_set());
}


/// Inserting one fresh, childless node into the children of a live node keeps
/// the tree consistent.
#[verifier::rlimit(40)]
proof fn lemma_insert_child_tree(before: DocView, after: DocView, id: NodeId, parent_id: NodeId, pos: int)
    requires
        tree_wf(before),
        before.nodes.contains_key(parent_id),
        0 <= pos <= before.nodes[parent_id].children@.len(),
        !before.nodes.contains_key(id),
        after.root == before.root,
        after.nodes.dom() == before.nodes.dom().insert(id),
        after.depth == before.depth.insert(id, before.depth[parent_id] + 1),
        after.nodes[id].id == id,
        after.nodes[id].parent == Some(parent_id),
        after.nodes[id].children@.len() == 0,
        after.nodes[parent_id].children@ == before.nodes[parent_id].children@.insert(pos, id),
        after.nodes[parent_id].id == before.nodes[parent_id].id,
        after.nodes[parent_id].parent == before.nodes[parent_id].parent,
        forall|n: NodeId| n != id && n != parent_id ==> after.nodes[n] == before.nodes[n],
    ensures
        tree_wf(after),
{
    assert(node_ok(before, parent_id));
    let pd = before.nodes[parent_id];
    let nc = after.nodes[parent_id].children@;
    assert(!pd.children@.contains(id)) by {
        if pd.children@.contains(id) {
            let i = choose|i: int| 0 <= i < pd.children@.len() && pd.children@[i] == id;
            assert(before.nodes.contains_key(pd.children@[i]));
        }
    }
    assert(!pd.children@.contains(parent_id)) by {
        if pd.children@.contains(parent_id) {
            let i = choose|i: int| 0 <= i < pd.children@.len() && pd.children@[i] == parent_id;
            assert(before.nodes[pd.children@[i]].parent == Some(parent_id));
        }
    }
    assert forall|i: int| 0 <= i < nc.len() implies (i < pos ==> nc[i] == pd.children@[i]) && (i
        == pos ==> nc[i] == id) && (i > pos ==> nc[i] == pd.children@[i - 1]) by {
    }
    assert(nc.no_duplicates()) by {
        assert forall|a: int, b: int| 0 <= a < nc.len() && 0 <= b < nc.len() && a != b implies nc[a]
            != nc[b] by {
            if a != pos && b != pos {
                let a0 = if a < pos { a } else { a - 1 };
                let b0 = if b < pos { b } else { b - 1 };
                assert(nc[a] == pd.children@[a0]);
                assert(nc[b] == pd.children@[b0]);
            } else if a == pos {
                let b0 = if b < pos { b } else { b - 1 };
                assert(nc[b] == pd.children@[b0]);
                assert(pd.children@.contains(nc[b]));
            } else {
                let a0 = if a < pos { a } else { a - 1 };
                assert(nc[a] == pd.children@[a0]);
                assert(pd.children@.contains(nc[a]));
            }
        }
    }
    assert forall|n: NodeId| #[trigger] after.nodes.contains_key(n) implies node_ok(after, n) by {
        if n == id {
            assert(nc[pos] == id);
            assert(nc.contains(id));
        } else if n == parent_id {
            let d = after.nodes[n];
            assert forall|i: int| 0 <= i < d.children@.len() implies after.nodes.contains_key(
                d.children@[i],
            ) && after.nodes[d.children@[i]].parent == Some(n) by {
                if i != pos {
                    let i0 = if i < pos { i } else { i - 1 };
                    let c = pd.children@[i0];
                    assert(d.children@[i] == c);
                    assert(before.nodes.contains_key(c));
                    assert(c != id);
                    assert(c != parent_id) by {
                        assert(pd.children@.contains(c));
                    }
                }
            }
            if n != after.root {
                let g = pd.parent->0;
                assert(before.nodes.contains_key(g));
                assert(g != id);
                if g == parent_id {
                    assert(pd.children@.contains(parent_id));
                }
            }
        } else {
            assert(before.nodes.contains_key(n));
            assert(node_ok(before, n));
            let d = before.nodes[n];
            assert(after.nodes[n] == d);
            assert forall|i: int| 0 <= i < d.children@.len() implies after.nodes.contains_key(
                d.children@[i],
            ) && after.nodes[d.children@[i]].parent == Some(n) by {
                let c = d.children@[i];
                assert(before.nodes.contains_key(c));
            }
            if n != after.root {
                let g = d.parent->0;
                assert(before.nodes.contains_key(g));
                if g == parent_id {
                    let j = choose|j: int| 0 <= j < pd.children@.len() && pd.children@[j] == n;
                    let j2 = if j < pos { j } else { j + 1 };
                    assert(nc[j2] == n);
                }
            }
        }
    }
}


/// The state after moving a run of siblings under a fresh wrapper is a
/// consistent tree and is what the wrap promises.
#[verifier::rlimit(80)]
proof fn lemma_wrap_finish(
    a: DocView,
    v: DocView,
    p: NodeId,
    fi: int,
    li: int,
    w: NodeId,
    first: NodeId,
    last: NodeId,
    wrapper: Node,
    sel: Seq<NodeId>,
    b0: DocView,
)
    requires
        tree_wf(a),
        a.nodes.contains_key(p),
        a.nodes[first].parent == Some(p),
        0 <= fi <= li < a.nodes[p].children@.len(),
        a.nodes[p].children@[fi] == first,
        a.nodes[p].children@[li] == last,
        sel == a.nodes[p].children@.subrange(fi, li + 1),
        !a.nodes.contains_key(w),
        b0.nodes.dom() == a.nodes.dom().insert(w),
        b0.root == a.root,
        b0.source == a.source,
        b0.nodes[p].children@ == a.nodes[p].children@.subrange(0, fi) + seq![w]
            + a.nodes[p].children@.subrange(li + 1, a.nodes[p].children@.len() as int),
        same_but_children(a.nodes[p], b0.nodes[p]),
        b0.nodes[w].id == w,
        b0.nodes[w].parent == Some(p),
        b0.nodes[w].children@ == sel,
        b0.nodes[w].srcmap == wrapper.srcmap,
        b0.nodes[w].attrs@ == wrapper.attrs@,
        b0.nodes[w].node_value == wrapper.node_value,
        forall|n: NodeId| n != p && n != w ==> b0.nodes[n] == a.nodes[n],
        v.nodes.dom() == b0.nodes.dom(),
        v.root == b0.root,
        v.source == b0.source,
        forall|m: int|
            0 <= m < sel.len() ==> {
                &&& v.nodes[#[trigger] sel[m]].parent == Some(w)
                &&& v.nodes[sel[m]].id == b0.nodes[sel[m]].id
                &&& v.nodes[sel[m]].children == b0.nodes[sel[m]].children
                &&& v.nodes[sel[m]].srcmap == b0.nodes[sel[m]].srcmap
                &&& v.nodes[sel[m]].attrs == b0.nodes[sel[m]].attrs
                &&& v.nodes[sel[m]].node_value == b0.nodes[sel[m]].node_value
            },
        forall|n: NodeId| !sel.contains(n) ==> v.nodes[n] == b0.nodes[n],
        v.depth == Map::new(
            |n: NodeId| v.nodes.contains_key(n),
            |n: NodeId|
                if n == w {
                    a.depth[p] + 1
                } else if subtrees(a, sel).contains(n) {
                    a.depth[n] + 1
                } else {
                    a.depth[n]
                },
        ),
    ensures
        tree_wf(v),
        wrap_one(a, v, first, last, wrapper, w),
{
    let kids = a.nodes[p].children@;
    assert(node_ok(a, p));
    assert(!sel.contains(p)) by {
        if sel.contains(p) {
            let q = choose|q: int| 0 <= q < sel.len() && sel[q] == p;
            assert(kids[fi + q] == p);
            assert(a.nodes.contains_key(kids[fi + q]));
            assert(node_ok(a, p));
        }
    }
    assert(!sel.contains(w)) by {
        if sel.contains(w) {
            let q = choose|q: int| 0 <= q < sel.len() && sel[q] == w;
            assert(kids[fi + q] == w);
            assert(a.nodes.contains_key(kids[fi + q]));
        }
    }
    assert forall|q: int| fi <= q <= li implies {
        &&& v.nodes[kids[q]].parent == Some(w)
        &&& v.nodes[kids[q]].id == a.nodes[kids[q]].id
        &&& v.nodes[kids[q]].children@ == a.nodes[kids[q]].children@
        &&& v.nodes[kids[q]].srcmap == a.nodes[kids[q]].srcmap
        &&& v.nodes[kids[q]].attrs == a.nodes[kids[q]].attrs
        &&& v.nodes[kids[q]].node_value == a.nodes[kids[q]].node_value
    } by {
        assert(sel[q - fi] == kids[q]);
        assert(kids[q] != p) by {
            assert(a.nodes.contains_key(kids[q]));
            assert(node_ok(a, kids[q]));
        }
        assert(kids[q] != w) by {
            assert(a.nodes.contains_key(kids[q]));
        }
    }
    assert forall|n: NodeId|
        a.nodes.contains_key(n) && n != p && !sel.contains(n) implies same_node(
            a.nodes[n],
            #[trigger] v.nodes[n],
        ) by {
        assert(n != w);
    }
    assert(v.nodes[p] == b0.nodes[p]);
    assert(v.nodes[w] == b0.nodes[w]);
    lemma_wrap_tree(a, v, p, fi, li, w);
    assert(wrap_one(a, v, first, last, wrapper, w));
}

/// The owned tree `n` holds exactly the subtree of `v` at `id`: each node's
/// payload, attributes and source mapping, with the children in order.
pub open spec fn tree_matches(v: DocView, id: NodeId, n: Node) -> bool
    decreases n,
{
    &&& v.nodes.contains_key(id)
    &&& n.node_value == v.nodes[id].node_value
    &&& n.attrs@ == v.nodes[id].attrs@
    &&& n.srcmap == v.nodes[id].srcmap
    &&& n.children@.len() == v.nodes[id].children@.len()
    &&& forall|i: int|
        #![trigger n.children@[i]]
        0 <= i < n.children@.len() ==> tree_matches(v, v.nodes[id].children@[i], n.children@[i])
}

/// Two nodes above a common descendant lie one above the other.
pub proof fn lemma_common_descendant(v: DocView, a: NodeId, b: NodeId, x: NodeId)
    requires
        tree_wf(v),
        in_subtree(v, a, x),
        in_subtree(v, b, x),
    ensures
        in_subtree(v, a, b) || in_subtree(v, b, a),
    decreases v.depth[x],
{
    assert(node_ok(v, x));
    if x == a {
        assert(in_subtree(v, b, a));
    } else if x == b {
        assert(in_subtree(v, a, b));
    } else {
        assert(x != v.root) by {
            if x == v.root {
                assert(v.depth[x] == 0);
            }
        }
        let p = v.nodes[x].parent->0;
        assert(node_ok(v, p));
        assert(v.depth[x] == v.depth[p] + 1);
        assert(reaches(v, a, p, v.depth[p]));
        assert(reaches(v, b, p, v.depth[p]));
        lemma_common_descendant(v, a, b, p);
    }
}

pub struct Document {
    source: String,
    arena: Arena<DocumentNode>,
    root: NodeId,
    depth: Ghost<Map<NodeId, nat>>,
}

impl Document {
    pub closed spec fn view(&self) -> DocView {
        DocView { source: self.source@, root: self.root, nodes: self.arena@, depth: self.depth@ }
    }

    /// The document's storage and tree links are consistent.
    pub closed spec fn wf(&self) -> bool {
        &&& self.arena.wf()
        &&& tree_wf(self@)
    }

    /// The handle `id` was issued by this document once and can never resolve again.
    pub closed spec fn stale(&self, id: NodeId) -> bool {
        self.arena.stale(id)
    }

    /// A stale handle resolves to no node.
    pub proof fn lemma_stale_not_live(&self, id: NodeId)
        requires
            self.wf(),
            self.stale(id),
        ensures
            !self@.nodes.contains_key(id),
    {
        self.arena.lemma_stale(id);
    }

    /// A well-formed document's nodes form one tree below its root.
    pub proof fn lemma_tree(&self)
        requires
            self.wf(),
        ensures
            tree_wf(self@),
    {
    }

    /// How many more nodes the document can hold.
    pub closed spec fn room(&self) -> int {
        u32::MAX as int + 1 - self.arena.slots@.len()
    }

    proof fn lemma_room(&self)
        requires
            self.wf(),
            self.room() >= 1,
        ensures
            self.arena.can_insert(),
    {
    }


    /// Attach the trees waiting on `stack`, in preorder, each as the last child
    /// of the node its item names.
    #[verifier::rlimit(100)]
    #[verifier::spinoff_prover]
    fn attach_pending(
        &mut self,
        stack: Vec<(Node, NodeId)>,
        Ghost(f): Ghost<Seq<FlatNode>>,
        Ghost(ids0): Ghost<Seq<NodeId>>,
        Ghost(pidx0): Ghost<Seq<int>>,
        Ghost(top): Ghost<Option<NodeId>>,
    ) -> (ids: Ghost<Seq<NodeId>>)
        requires
            old(self).wf(),
            placed(old(self)@, f, ids0, top, ids0.len() as int),
            pidx0.len() == stack@.len(),
            forall|j: int|
                0 <= j < pidx0.len() ==> 0 <= #[trigger] pidx0[j] < ids0.len() && stack@[j].1
                    == ids0[pidx0[j]],
            f == f.take(ids0.len() as int) + pending_flat(stack@, pidx0, ids0.len() as int),
            old(self).room() >= f.len() - ids0.len(),
        ensures
            final(self).wf(),
            placed(final(self)@, f, ids@, top, f.len() as int),
            ids@.take(ids0.len() as int) == ids0,
            forall|j: int|
                ids0.len() <= j < f.len() ==> !old(self)@.nodes.contains_key(#[trigger] ids@[j]),
            final(self)@.nodes.dom() == old(self)@.nodes.dom() + ids@.subrange(
                ids0.len() as int,
                f.len() as int,
            ).to_set(),
            forall|n: NodeId|
                old(self)@.nodes.contains_key(n) && !ids0.contains(n) ==> final(self)@.nodes[n]
                    == old(self)@.nodes[n],
            final(self)@.source == old(self)@.source,
            final(self)@.root == old(self)@.root,
            final(self).room() >= old(self).room() - (f.len() - ids0.len()),
            forall|x: NodeId| old(self).arena.stale(x) ==> final(self).arena.stale(x),
            forall|j: int| ids0.len() <= j < f.len() ==> !old(self).arena.stale(#[trigger] ids@[j]),
    {
        let mut stack = stack;
        let ghost mut ids = ids0;
        let ghost mut pidx = pidx0;
        let ghost old_view = self@;
        let ghost old_arena = self.arena;
        let ghost old_room = self.room();
        proof {
            assert(ids.subrange(ids0.len() as int, ids.len() as int).to_set() =~= Set::empty());
            assert(self@.nodes.dom() =~= old_view.nodes.dom() + Set::empty());
        }
        while stack.len() > 0
            invariant
                self.wf(),
                placed(self@, f, ids, top, ids.len() as int),
                ids0.len() <= ids.len() <= f.len(),
                ids.take(ids0.len() as int) == ids0,
                pidx.len() == stack@.len(),
                forall|j: int|
                    0 <= j < pidx.len() ==> 0 <= #[trigger] pidx[j] < ids.len() && stack@[j].1
                        == ids[pidx[j]],
                f == f.take(ids.len() as int) + pending_flat(stack@, pidx, ids.len() as int),
                self.room() >= f.len() - ids.len(),
                self.room() >= old_room - (ids.len() - ids0.len()),
                forall|j: int|
                    ids0.len() <= j < ids.len() ==> !old_view.nodes.contains_key(#[trigger] ids[j]),
                self@.nodes.dom() == old_view.nodes.dom() + ids.subrange(
                    ids0.len() as int,
                    ids.len() as int,
                ).to_set(),
                forall|n: NodeId|
                    old_view.nodes.contains_key(n) && !ids0.contains(n) ==> self@.nodes[n]
                        == old_view.nodes[n],
                self@.source == old_view.source,
                self@.root == old_view.root,
                forall|x: NodeId| old_arena.stale(x) ==> self.arena.stale(x),
                forall|j: int| ids0.len() <= j < ids.len() ==> !old_arena.stale(#[trigger] ids[j]),
            decreases f.len() - ids.len(),
        {
            let ghost k = ids.len() as int;
            let ghost q = pidx.last();
            let ghost before_stack = stack@;
            let ghost before = self@;
            let ghost pidx_before = pidx;
            let ghost before_arena = self.arena;
            proof {
                lemma_pending_pop(f, k, before_stack, pidx_before);
            }
            let (node, parent_id) = stack.pop().unwrap();
            proof {
                assert(before_stack.drop_last() =~= stack@);
                pidx = pidx.drop_last();
                assert(parent_id == ids[q]);
                self.lemma_room();
            }
            let Node { children, srcmap, attrs, node_value } = node;
            let id = self.arena.vacant_id();
            let dn = DocumentNode {
                id,
                parent: Some(parent_id),
                children: Vec::new(),
                srcmap,
                attrs,
                node_value,
            };
            let _ = self.arena.insert(dn);
            let ghost after_insert = self.arena;
            self.push_child_id(parent_id, id);
            proof {
                self.depth@ = self.depth@.insert(id, self.depth@[parent_id] + 1);
                assert forall|x: NodeId| old_arena.stale(x) implies self.arena.stale(x) by {
                    assert(before_arena.stale(x));
                    assert(after_insert.stale(x));
                }
            }
            let ghost ids_before = ids;
            proof {
                ids = ids.push(id);
                assert(!old_arena.stale(id)) by {
                    if old_arena.stale(id) {
                        assert(before_arena.stale(id));
                    }
                }
            }
            let ghost popped = stack@;
            let new_pidx = push_children_reversed(&mut stack, children, id, Ghost(pidx), Ghost(k));
            proof {
                assert(ids_before.take(ids0.len() as int) == ids0);
                if q < ids0.len() {
                    assert(ids0[q] == ids_before[q]);
                    assert(ids0.contains(parent_id));
                } else {
                    assert(!old_view.nodes.contains_key(ids_before[q]));
                }
                assert forall|n: NodeId|
                    old_view.nodes.contains_key(n) && !ids0.contains(n) implies self@.nodes[n]
                        == old_view.nodes[n] by {
                    assert(n != id);
                    assert(n != parent_id);
                }
                pidx = new_pidx@;
                lemma_attach_tree(before, self@, f, ids_before, top, id, parent_id, q);
                lemma_attach_placed(before, self@, f, ids_before, top, id, parent_id, q);
                lemma_dom_step(
                    old_view.nodes.dom(),
                    before.nodes.dom(),
                    self@.nodes.dom(),
                    ids0.len() as int,
                    ids_before,
                    id,
                );
                assert(ids.take(ids0.len() as int) =~= ids_before.take(ids0.len() as int));
                assert forall|j: int| ids0.len() <= j < ids.len() implies !old_arena.stale(#[trigger] ids[j]) by {
                    if j < ids.len() - 1 {
                        assert(ids[j] == ids_before[j]);
                    } else {
                        assert(ids[j] == id);
                    }
                }
                assert forall|j: int| 0 <= j < pidx.len() implies 0 <= #[trigger] pidx[j] < ids.len()
                    && stack@[j].1 == ids[pidx[j]] by {
                    if j < before_stack.len() - 1 {
                        assert(stack@[j] == popped[j]);
                        assert(popped[j] == before_stack[j]);
                        assert(pidx[j] == pidx_before[j]);
                        assert(0 <= pidx_before[j] < ids_before.len());
                        assert(ids[pidx[j]] == ids_before[pidx[j]]);
                    } else {
                        assert(stack@[j].1 == id);
                        assert(pidx[j] == k);
                        assert(ids[k] == id);
                    }
                }
            }
        }
        Ghost(ids)
    }




    /// Look up a node, rejecting handles with an unknown slot or a stale generation.
    pub fn node(&self, id: NodeId) -> (r: Result<&DocumentNode, InvalidNodeId>)
        ensures
            r is Ok <==> self@.nodes.contains_key(id),
            r matches Ok(n) ==> *n == self@.nodes[id],
            r matches Err(e) ==> e == InvalidNodeId(id),
    {
        match self.arena.get(id) {
            Some(n) => Ok(n),
            None => Err(InvalidNodeId(id)),
        }
    }

    /// Look up a node's parent.
    pub fn parent(&self, id: NodeId) -> (r: Result<Option<NodeId>, InvalidNodeId>)
        ensures
            r is Ok <==> self@.nodes.contains_key(id),
            r matches Ok(p) ==> p == self@.nodes[id].parent,
            r matches Err(e) ==> e == InvalidNodeId(id),
    {
        match self.node(id) {
            Ok(n) => Ok(n.parent),
            Err(e) => Err(e),
        }
    }

    /// Look up a node's ordered children.
    pub fn children(&self, id: NodeId) -> (r: Result<&[NodeId], InvalidNodeId>)
        ensures
            r is Ok <==> self@.nodes.contains_key(id),
            r matches Ok(c) ==> c@ == self@.nodes[id].children@,
            r matches Err(e) ==> e == InvalidNodeId(id),
    {
        match self.node(id) {
            Ok(n) => Ok(n.children.as_slice()),
            Err(e) => Err(e),
        }
    }

    /// Original Markdown source owned by this document.
    pub fn source(&self) -> (r: &str)
        ensures
            r@ == self@.source,
    {
        self.source.as_str()
    }

    /// Handle of the document root, which stays live for the document's life.
    pub fn root(&self) -> (r: NodeId)
        ensures
            r == self@.root,
    {
        self.root
    }

    /// Number of live nodes.
    pub fn len(&self) -> (r: usize)
        requires
            self.wf(),
        ensures
            r == self@.nodes.len(),
    {
        self.arena.len
    }

    /// A document always holds at least its root.
    pub fn is_empty(&self) -> (r: bool)
        requires
            self.wf(),
        ensures
            r == (self@.nodes.len() == 0),
            !r,
    {
        proof {
            assert(self@.nodes.dom().contains(self@.root));
        }
        self.arena.len == 0
    }


    /// The nearest node of `set` on the path from `start` (itself included when
    /// `include_self`) up to the root.
    pub(crate) fn nearest_in(&self, start: NodeId, set: &[NodeId], include_self: bool) -> (r: Option<NodeId>)
        requires
            self.wf(),
            self@.nodes.contains_key(start),
        ensures
            r matches Some(a) ==> set@.contains(a) && in_subtree(self@, a, start) && (!include_self ==> a != start),
            r is None ==> forall|a: NodeId| #![trigger set@.contains(a)] set@.contains(a) && in_subtree(self@, a, start) ==> (!include_self && a == start),
    {
        let ghost v = self@;
        let mut current = if include_self {
            Some(start)
        } else {
            match self.node(start) {
                Ok(n) => n.parent,
                Err(_) => vstd::pervasive::unreached(),
            }
        };
        proof {
            assert(node_ok(v, start));
            assert(reaches(v, start, start, v.depth[start]));
            if let Some(c) = current {
                if !include_self {
                    assert(start != v.root);
                    assert(v.depth[start] == v.depth[c] + 1);
                    assert(reaches(v, c, c, v.depth[c]));
                    assert(reaches(v, c, start, v.depth[start]));
                    assert(node_ok(v, c));
                    assert(c != start) by {
                        assert(v.depth[start] == v.depth[c] + 1);
                    }
                }
            }
            if !include_self {
                assert forall|a: NodeId| #![trigger set@.contains(a)] set@.contains(a) && in_subtree(v, a, start) && a != start implies (current matches Some(c) && reaches(v, a, c, v.depth[c])) by {
                    if start == v.root {
                        assert(v.nodes[start].parent is None);
                    }
                }
            }
        }
        while current.is_some()
            invariant
                self@ == v,
                tree_wf(v),
                v.nodes.contains_key(start),
                current matches Some(c) ==> v.nodes.contains_key(c) && reaches(v, c, start, v.depth[start]) && (!include_self ==> c != start) && v.depth[c] <= v.depth[start],
                forall|a: NodeId| #![trigger set@.contains(a)] set@.contains(a) && in_subtree(v, a, start) && (include_self || a != start) ==> (current matches Some(c) && reaches(v, a, c, v.depth[c])),
            decreases if current is Some { v.depth[current->0] + 1 } else { 0 },
        {
            let c = match current {
                Some(c) => c,
                None => vstd::pervasive::unreached(),
            };
            if contains_id(set, c) {
                proof {
                    lemma_reaches_fuel(v, c, start, v.depth[start], v.depth[start]);
                }
                return Some(c);
            }
            let next = match self.node(c) {
                Ok(n) => n.parent,
                Err(_) => vstd::pervasive::unreached(),
            };
            proof {
                assert(node_ok(v, c));
                if let Some(nx) = next {
                    assert(c != v.root);
                    assert(v.depth[c] == v.depth[nx] + 1);
                    lemma_reaches_up(v, c, nx, start);
                }
                assert forall|a: NodeId| #![trigger set@.contains(a)] set@.contains(a) && in_subtree(v, a, start) && (include_self || a != start) implies (next matches Some(nc) && reaches(v, a, nc, v.depth[nc])) by {
                    assert(reaches(v, a, c, v.depth[c]));
                    assert(a != c);
                    if c == v.root {
                        assert(v.nodes[c].parent is None);
                    }
                }
            }
            current = next;
        }
        None
    }

    /// Delete every node of the subtrees at `roots` from storage.
    #[verifier::rlimit(80)]
    #[verifier::spinoff_prover]
    fn delete_subtrees(&mut self, roots: &[NodeId])
        requires
            old(self).wf(),
            disjoint_roots(old(self)@, roots@),
        ensures
            final(self).arena.wf(),
            final(self)@.nodes.dom() == old(self)@.nodes.dom() - subtrees(old(self)@, roots@),
            forall|n: NodeId|
                #[trigger] final(self)@.nodes.contains_key(n) ==> final(self)@.nodes[n] == old(
                    self,
                )@.nodes[n],
            final(self)@.source == old(self)@.source,
            final(self)@.root == old(self)@.root,
            final(self)@.depth == old(self)@.depth,
            final(self).arena.slots@.len() == old(self).arena.slots@.len(),
            forall|x: NodeId| old(self).arena.stale(x) ==> final(self).arena.stale(x),
            forall|x: NodeId| #[trigger] subtrees(old(self)@, roots@).contains(x) ==> final(self).arena.stale(x),
    {
        let ghost o = self@;
        let ghost oa = self.arena;
        let ghost gone = subtrees(o, roots@);
        let mut pending: Vec<NodeId> = Vec::new();
        let mut i: usize = 0;
        while i < roots.len()
            invariant
                0 <= i <= roots@.len(),
                pending@ == roots@.take(i as int),
            decreases roots@.len() - i,
        {
            pending.push(roots[i]);
            i = i + 1;
            assert(pending@ =~= roots@.take(i as int));
        }
        proof {
            assert(pending@ =~= roots@);
            lemma_delete_init(o, roots@);
        }
        let ghost slots0 = self.arena.slots@.len();
        while pending.len() > 0
            invariant
                self.arena.wf(),
                delete_inv(o, roots@, self@, pending@),
                self@.nodes.dom().finite(),
                self.arena.slots@.len() == slots0,
                forall|x: NodeId| oa.stale(x) ==> self.arena.stale(x),
                forall|x: NodeId| o.nodes.contains_key(x) && !#[trigger] self@.nodes.contains_key(x) ==> self.arena.stale(x),
            decreases self@.nodes.dom().len(),
        {
            let ghost before = self@;
            let ghost p = pending@;
            let x = pending.pop().unwrap();
            proof {
                assert(p[p.len() - 1] == x);
                assert(before.nodes.contains_key(p[p.len() - 1]));
            }
            let removed = self.arena.remove(x);
            proof {
                assert(self@ == (DocView { nodes: before.nodes.remove(x), ..before }));
                lemma_delete_step(o, roots@, before, self@, p);
            }
            match removed {
                Some(node) => {
                    let kids = node.children;
                    let mut j: usize = 0;
                    while j < kids.len()
                        invariant
                            0 <= j <= kids@.len(),
                            kids@ == o.nodes[x].children@,
                            pending@ == p.drop_last() + kids@.take(j as int),
                        decreases kids@.len() - j,
                    {
                        pending.push(kids[j]);
                        j = j + 1;
                        assert(pending@ =~= p.drop_last() + kids@.take(j as int));
                    }
                    assert(kids@.take(kids@.len() as int) =~= kids@);
                    assert(pending@ =~= p.drop_last() + o.nodes[x].children@);
                },
                None => vstd::pervasive::unreached(),
            }
        }
        proof {
            lemma_delete_done(o, roots@, self@);
            assert forall|x: NodeId| #[trigger] subtrees(o, roots@).contains(x) implies self.arena.stale(x) by {
                let q = choose|q: int| 0 <= q < roots@.len() && in_subtree(o, roots@[q], x);
                assert(!self@.nodes.contains_key(x));
            }
        }
    }

    /// Drop the members of `roots` from the children of the live node `parent`.
    fn drop_children(&mut self, parent: NodeId, roots: &[NodeId])
        requires
            old(self).arena.wf(),
            old(self)@.nodes.contains_key(parent),
        ensures
            final(self).arena.wf(),
            final(self)@.nodes.dom() == old(self)@.nodes.dom(),
            final(self)@.nodes[parent].children@ == without(
                old(self)@.nodes[parent].children@,
                roots@,
            ),
            same_but_children(old(self)@.nodes[parent], final(self)@.nodes[parent]),
            forall|n: NodeId| n != parent ==> final(self)@.nodes[n] == old(self)@.nodes[n],
            final(self)@.source == old(self)@.source,
            final(self)@.root == old(self)@.root,
            final(self)@.depth == old(self)@.depth,
            final(self).arena.slots@.len() == old(self).arena.slots@.len(),
            forall|x: NodeId| old(self).arena.stale(x) ==> final(self).arena.stale(x),
    {
        let placeholder = DocumentNode {
            id: parent,
            parent: None,
            children: Vec::new(),
            srcmap: None,
            attrs: Vec::new(),
            node_value: NodeValue::Paragraph(Paragraph),
        };
        let mut node = self.arena.replace(parent, placeholder);
        let mut kept: Vec<NodeId> = Vec::new();
        let mut j: usize = 0;
        while j < node.children.len()
            invariant
                0 <= j <= node.children@.len(),
                kept@ == without(node.children@.take(j as int), roots@),
            decreases node.children@.len() - j,
        {
            let c = node.children[j];
            if !contains_id(roots, c) {
                kept.push(c);
            }
            j = j + 1;
            proof {
                let t = node.children@.take(j as int);
                assert(t.drop_last() =~= node.children@.take(j - 1));
                assert(t.last() == c);
            }
        }
        proof {
            assert(node.children@.take(j as int) =~= node.children@);
        }
        node.children = kept;
        let _ = self.arena.replace(parent, node);
    }

    /// Remove the disjoint subtrees rooted at `roots`.
    #[verifier::rlimit(60)]
    pub(crate) fn remove_subtrees(&mut self, roots: &[NodeId])
        requires
            old(self).wf(),
            disjoint_roots(old(self)@, roots@),
        ensures
            final(self).wf(),
            removal_result(old(self)@, final(self)@, roots@),
            final(self).room() == old(self).room(),
            final(self)@.depth == old(self)@.depth,
            forall|x: NodeId| old(self).stale(x) ==> final(self).stale(x),
            kept_or_retired(*old(self), *final(self)),
            forall|x: NodeId| #[trigger] subtrees(old(self)@, roots@).contains(x) ==> final(self).stale(x),
    {
        let ghost o = self@;
        let ghost gone = subtrees(o, roots@);
        // the parents of the roots, each once, before anything goes
        let mut parents: Vec<NodeId> = Vec::new();
        let mut i: usize = 0;
        while i < roots.len()
            invariant
                0 <= i <= roots@.len(),
                self@ == o,
                self.wf(),
                disjoint_roots(o, roots@),
                forall|k: int| 0 <= k < parents@.len() ==> loses_children(o, roots@, #[trigger] parents@[k]) && o.nodes.contains_key(parents@[k]),
                forall|k: int| 0 <= k < i ==> parents@.contains(#[trigger] o.nodes[roots@[k]].parent->0),
                parents@.no_duplicates(),
            decreases roots@.len() - i,
        {
            let r = roots[i];
            proof {
                assert(o.nodes.contains_key(roots@[i as int]));
                assert(node_ok(o, r));
            }
            let p = match self.node(r) {
                Ok(n) => match n.parent {
                    Some(p) => p,
                    None => vstd::pervasive::unreached(),
                },
                Err(_) => vstd::pervasive::unreached(),
            };
            let ghost before_parents = parents@;
            if !contains_id(parents.as_slice(), p) {
                parents.push(p);
                proof {
                    assert(parents@[parents@.len() - 1] == p);
                    assert(parents@.no_duplicates()) by {
                        assert forall|a: int, b: int|
                            0 <= a < parents@.len() && 0 <= b < parents@.len() && a != b implies parents@[a]
                            != parents@[b] by {
                            if a < before_parents.len() && b < before_parents.len() {
                                assert(parents@[a] == before_parents[a]);
                                assert(parents@[b] == before_parents[b]);
                            } else if a < before_parents.len() {
                                assert(parents@[a] == before_parents[a]);
                                assert(before_parents.contains(parents@[a]));
                            } else {
                                assert(parents@[b] == before_parents[b]);
                                assert(before_parents.contains(parents@[b]));
                            }
                        }
                    }
                }
            }
            proof {
                assert(o.nodes[roots@[i as int]].parent == Some(p));
                assert(loses_children(o, roots@, p));
                assert(parents@.contains(p));
                assert forall|x: NodeId| before_parents.contains(x) implies parents@.contains(x) by {
                    let a = choose|a: int| 0 <= a < before_parents.len() && before_parents[a] == x;
                    assert(parents@[a] == x);
                }
                assert forall|kk: int| 0 <= kk < parents@.len() implies loses_children(o, roots@, #[trigger] parents@[kk]) && o.nodes.contains_key(parents@[kk]) by {
                    if kk < before_parents.len() {
                        assert(parents@[kk] == before_parents[kk]);
                    }
                }
            }
            i = i + 1;
        }
        let ghost oa = self.arena;
        self.delete_subtrees(roots);
        let ghost mid = self@;
        let ghost ma = self.arena;
        let ghost mid_slots = self.arena.slots@.len();
        // parents survive
        proof {
            assert forall|k: int| 0 <= k < parents@.len() implies !gone.contains(#[trigger] parents@[k]) by {
                let pk = parents@[k];
                let ri = choose|ri: int| 0 <= ri < roots@.len() && o.nodes[roots@[ri]].parent == Some(pk);
                if gone.contains(pk) {
                    let q = choose|q: int| 0 <= q < roots@.len() && in_subtree(o, roots@[q], pk);
                    assert(node_ok(o, roots@[ri]));
                    lemma_child_in_subtree(o, roots@[q], pk, roots@[ri]);
                    if q == ri {
                        lemma_reaches_depth(o, roots@[q], pk, o.depth[pk]);
                    }
                }
            }
        }
        let mut k: usize = 0;
        while k < parents.len()
            invariant
                0 <= k <= parents@.len(),
                self.arena.wf(),
                self@.nodes.dom() == mid.nodes.dom(),
                self@.source == o.source,
                self@.root == o.root,
                self@.depth == o.depth,
                self.arena.slots@.len() == mid_slots,
                forall|x: NodeId| ma.stale(x) ==> self.arena.stale(x),
                parents@.no_duplicates(),
                forall|a: int| 0 <= a < parents@.len() ==> mid.nodes.contains_key(#[trigger] parents@[a]),
                forall|n: NodeId|
                    #[trigger] self@.nodes.contains_key(n) ==> {
                        &&& same_but_children(o.nodes[n], self@.nodes[n])
                        &&& self@.nodes[n].children@ == if parents@.take(k as int).contains(n) {
                            without(o.nodes[n].children@, roots@)
                        } else {
                            o.nodes[n].children@
                        }
                    },
            decreases parents@.len() - k,
        {
            let p = parents[k];
            let ghost before = self@;
            proof {
                assert(!parents@.take(k as int).contains(p)) by {
                    if parents@.take(k as int).contains(p) {
                        let a = choose|a: int| 0 <= a < k && parents@.take(k as int)[a] == p;
                        assert(parents@[a] == parents@[k as int]);
                    }
                }
            }
            let ghost ka = self.arena;
            self.drop_children(p, roots);
            proof {
                assert forall|x: NodeId| ma.stale(x) implies self.arena.stale(x) by {
                    assert(ka.stale(x));
                }
            }
            k = k + 1;
            proof {
                let t1 = parents@.take(k - 1);
                let t2 = parents@.take(k as int);
                assert(t2 =~= t1.push(p));
                assert forall|n: NodeId| #[trigger] t2.contains(n) <==> (t1.contains(n) || n == p) by {
                    if t2.contains(n) {
                        let a = choose|a: int| 0 <= a < t2.len() && t2[a] == n;
                        if a < t1.len() {
                            assert(t1[a] == n);
                        }
                    }
                    if t1.contains(n) {
                        let a = choose|a: int| 0 <= a < t1.len() && t1[a] == n;
                        assert(t2[a] == n);
                    }
                    if n == p {
                        assert(t2[t2.len() - 1] == p);
                    }
                }
            }
        }
        proof {
            assert(parents@.take(parents@.len() as int) =~= parents@);
            assert forall|n: NodeId| #[trigger] self@.nodes.contains_key(n) implies (parents@.contains(n) <==> loses_children(o, roots@, n)) by {
                if loses_children(o, roots@, n) {
                    let ri = choose|ri: int| 0 <= ri < roots@.len() && o.nodes[roots@[ri]].parent == Some(n);
                    assert(parents@.contains(o.nodes[roots@[ri]].parent->0));
                }
                if parents@.contains(n) {
                    let a = choose|a: int| 0 <= a < parents@.len() && parents@[a] == n;
                    assert(loses_children(o, roots@, parents@[a]));
                }
            }
            lemma_removal_tree(o, self@, roots@);
            assert forall|x: NodeId| oa.stale(x) implies self.arena.stale(x) by {
                assert(ma.stale(x));
            }
            assert forall|x: NodeId| #[trigger] subtrees(o, roots@).contains(x) implies self.arena.stale(x) by {
                assert(ma.stale(x));
            }
            reveal(kept_or_retired);
        }
    }


    /// Position of `x` among the children of the live node `parent`.
    pub(crate) fn child_position(&self, parent: NodeId, x: NodeId) -> (i: usize)
        requires
            self@.nodes.contains_key(parent),
            self@.nodes[parent].children@.contains(x),
        ensures
            i < self@.nodes[parent].children@.len(),
            self@.nodes[parent].children@[i as int] == x,
            self@.nodes[parent].children@.len() <= usize::MAX,
    {
        let children = match self.node(parent) {
            Ok(n) => n.children.as_slice(),
            Err(_) => vstd::pervasive::unreached(),
        };
        let n = children.len();
        let mut i: usize = 0;
        while i < children.len()
            invariant
                0 <= i <= children@.len(),
                children@.len() == n,
                children@ == self@.nodes[parent].children@,
                children@.contains(x),
                forall|j: int| 0 <= j < i ==> children@[j] != x,
            decreases children@.len() - i,
        {
            if children[i] == x {
                return i;
            }
            i = i + 1;
        }
        proof {
            let j = choose|j: int| 0 <= j < children@.len() && children@[j] == x;
        }
        vstd::pervasive::unreached()
    }

    /// Replace the subtree at the live non-root node `target` with an owned tree,
    /// at the same position.
    #[verifier::rlimit(60)]
    pub(crate) fn replace_subtree(&mut self, target: NodeId, draft: Node)
        requires
            old(self).wf(),
            old(self)@.nodes.contains_key(target),
            target != old(self)@.root,
            old(self).room() >= tree_size(draft),
        ensures
            final(self).wf(),
            replace_one(old(self)@, final(self)@, target, draft),
            final(self).room() >= old(self).room() - tree_size(draft),
            forall|x: NodeId| old(self).stale(x) ==> final(self).stale(x),
            forall|x: NodeId| #[trigger] old(self)@.nodes.contains_key(x) ==> final(self)@.nodes.contains_key(x) || final(self).stale(x),
    {
        let ghost a = self@;
        proof {
            assert(node_ok(a, target));
        }
        let parent = match self.node(target) {
            Ok(n) => match n.parent {
                Some(p) => p,
                None => vstd::pervasive::unreached(),
            },
            Err(_) => vstd::pervasive::unreached(),
        };
        let i = self.child_position(parent, target);
        let roots = [target];
        proof {
            assert(roots@ =~= seq![target]);
            lemma_single_root_disjoint(a, target);
        }
        self.remove_subtrees(&roots);
        let ghost mid = self@;
        proof {
            assert(node_ok(a, parent));
            lemma_without_single(a.nodes[parent].children@, target, i as int);
            assert(loses_children(a, seq![target], parent));
            // the parent survives
            assert(!subtrees(a, seq![target]).contains(parent)) by {
                if subtrees(a, seq![target]).contains(parent) {
                    let q = choose|q: int| 0 <= q < 1 && in_subtree(a, seq![target][q], parent);
                    assert(seq![target][q] == target);
                    lemma_reaches_depth(a, target, parent, a.depth[parent]);
                }
            }
            assert(mid.nodes.contains_key(parent));
        }
        let ghost ma = self.arena;
        let (x, ids) = self.attach_subtree(parent, i, draft);
        proof {
            let gone = subtrees(a, seq![target]);
            assert forall|j: int| 0 <= j < ids@.len() implies !a.nodes.contains_key(#[trigger] ids@[j]) by {
                assert(!mid.nodes.contains_key(ids@[j]));
                assert(!ma.stale(ids@[j]));
                if a.nodes.contains_key(ids@[j]) {
                    assert(gone.contains(ids@[j]));
                }
            }
            lemma_replace_result(a, mid, self@, target, parent, i as int, draft, ids@);
        }
    }

    /// Insert an owned tree next to the live non-root node `target`: just
    /// before it, or just after it.
    pub(crate) fn insert_sibling(&mut self, target: NodeId, before: bool, draft: Node)
        requires
            old(self).wf(),
            old(self)@.nodes.contains_key(target),
            target != old(self)@.root,
            old(self).room() >= tree_size(draft),
        ensures
            final(self).wf(),
            ({
                let p = old(self)@.nodes[target].parent->0;
                exists|i: int|
                    0 <= i < old(self)@.nodes[p].children@.len() && old(self)@.nodes[p].children@[i]
                        == target && insert_one(
                        old(self)@,
                        final(self)@,
                        p,
                        if before {
                            i
                        } else {
                            i + 1
                        },
                        draft,
                    )
            }),
            final(self).room() >= old(self).room() - tree_size(draft),
            forall|x: NodeId| old(self).stale(x) ==> final(self).stale(x),
            forall|x: NodeId| #[trigger] old(self)@.nodes.contains_key(x) ==> final(self)@.nodes.contains_key(x) || final(self).stale(x),
    {
        let ghost a = self@;
        proof {
            assert(node_ok(a, target));
        }
        let parent = match self.node(target) {
            Ok(n) => match n.parent {
                Some(p) => p,
                None => vstd::pervasive::unreached(),
            },
            Err(_) => vstd::pervasive::unreached(),
        };
        let i = self.child_position(parent, target);
        let pos = if before {
            i
        } else {
            i + 1
        };
        let (x, ids) = self.attach_subtree(parent, pos, draft);
        proof {
            assert(insert_one(a, self@, parent, pos as int, draft)) by {
                assert(self@.nodes.dom() == a.nodes.dom() + ids@.to_set());
            }
        }
    }

    /// Swap the payload (source map, attributes, value) of a live node for
    /// another, returning the old one; the tree links stay.
    fn swap_payload(
        &mut self,
        id: NodeId,
        srcmap: Option<SourcePos>,
        attrs: HtmlAttributes,
        value: NodeValue,
    ) -> (r: (Option<SourcePos>, HtmlAttributes, NodeValue))
        requires
            old(self).wf(),
            old(self)@.nodes.contains_key(id),
        ensures
            final(self).wf(),
            r.0 == old(self)@.nodes[id].srcmap,
            r.1 == old(self)@.nodes[id].attrs,
            r.2 == old(self)@.nodes[id].node_value,
            final(self)@.nodes.dom() == old(self)@.nodes.dom(),
            final(self)@.nodes[id].srcmap == srcmap,
            final(self)@.nodes[id].attrs == attrs,
            final(self)@.nodes[id].node_value == value,
            final(self)@.nodes[id].id == old(self)@.nodes[id].id,
            final(self)@.nodes[id].parent == old(self)@.nodes[id].parent,
            final(self)@.nodes[id].children == old(self)@.nodes[id].children,
            forall|n: NodeId| n != id ==> final(self)@.nodes[n] == old(self)@.nodes[n],
            final(self)@.source == old(self)@.source,
            final(self)@.root == old(self)@.root,
            final(self)@.depth == old(self)@.depth,
            final(self).room() == old(self).room(),
            forall|x: NodeId| old(self).arena.stale(x) ==> final(self).arena.stale(x),
    {
        let ghost a = self@;
        let placeholder = DocumentNode {
            id,
            parent: None,
            children: Vec::new(),
            srcmap: None,
            attrs: Vec::new(),
            node_value: NodeValue::Paragraph(Paragraph),
        };
        let node = self.arena.replace(id, placeholder);
        let DocumentNode { id: nid, parent, children, srcmap: old_srcmap, attrs: old_attrs, node_value: old_value } = node;
        let fresh = DocumentNode { id: nid, parent, children, srcmap, attrs, node_value: value };
        let _ = self.arena.replace(id, fresh);
        proof {
            assert forall|n: NodeId| #[trigger] self@.nodes.contains_key(n) implies node_ok(self@, n) by {
                assert(node_ok(a, n));
                let d = a.nodes[n];
                assert forall|i: int| 0 <= i < d.children@.len() implies self@.nodes.contains_key(
                    #[trigger] d.children@[i],
                ) && self@.nodes[d.children@[i]].parent == Some(n) by {
                    assert(a.nodes.contains_key(d.children@[i]));
                }
                if n != a.root {
                    assert(a.nodes.contains_key(d.parent->0));
                }
            }
        }
        (old_srcmap, old_attrs, old_value)
    }


    /// Set the parent link of a live node; everything else stays.
    /// Put `value` in place of the payload of the live node `id`.
    pub(crate) fn replace_value(&mut self, id: NodeId, value: NodeValue) -> (r: NodeValue)
        requires
            old(self).wf(),
            old(self)@.nodes.contains_key(id),
        ensures
            final(self).wf(),
            r == old(self)@.nodes[id].node_value,
            final(self)@ == (DocView {
                nodes: old(self)@.nodes.insert(
                    id,
                    DocumentNode { node_value: value, ..old(self)@.nodes[id] },
                ),
                ..old(self)@
            }),
            final(self).room() == old(self).room(),
            forall|x: NodeId| old(self).stale(x) ==> final(self).stale(x),
    {
        let ghost a = self@;
        let (s, at, old_value) = self.swap_payload(
            id,
            None,
            Vec::new(),
            NodeValue::Paragraph(Paragraph),
        );
        let _ = self.swap_payload(id, s, at, value);
        proof {
            assert(self@.nodes =~= a.nodes.insert(id, DocumentNode { node_value: value, ..a.nodes[id] }));
        }
        old_value
    }

    /// Set or clear the source mapping of the live node `id`.
    pub(crate) fn replace_srcmap(&mut self, id: NodeId, srcmap: Option<SourcePos>)
        requires
            old(self).wf(),
            old(self)@.nodes.contains_key(id),
        ensures
            final(self).wf(),
            final(self)@ == (DocView {
                nodes: old(self)@.nodes.insert(
                    id,
                    DocumentNode { srcmap, ..old(self)@.nodes[id] },
                ),
                ..old(self)@
            }),
            final(self).room() == old(self).room(),
            forall|x: NodeId| old(self).stale(x) ==> final(self).stale(x),
    {
        let ghost a = self@;
        let (_, at, value) = self.swap_payload(
            id,
            None,
            Vec::new(),
            NodeValue::Paragraph(Paragraph),
        );
        let _ = self.swap_payload(id, srcmap, at, value);
        proof {
            assert(self@.nodes =~= a.nodes.insert(id, DocumentNode { srcmap, ..a.nodes[id] }));
        }
    }

    /// Put `attrs` in place of the attributes of the live node `id`.
    pub(crate) fn replace_attrs(&mut self, id: NodeId, attrs: HtmlAttributes) -> (r: HtmlAttributes)
        requires
            old(self).wf(),
            old(self)@.nodes.contains_key(id),
        ensures
            final(self).wf(),
            r == old(self)@.nodes[id].attrs,
            final(self)@ == (DocView {
                nodes: old(self)@.nodes.insert(
                    id,
                    DocumentNode { attrs, ..old(self)@.nodes[id] },
                ),
                ..old(self)@
            }),
            final(self).room() == old(self).room(),
            forall|x: NodeId| old(self).stale(x) ==> final(self).stale(x),
    {
        let ghost a = self@;
        let (s, old_attrs, value) = self.swap_payload(
            id,
            None,
            Vec::new(),
            NodeValue::Paragraph(Paragraph),
        );
        let _ = self.swap_payload(id, s, attrs, value);
        proof {
            assert(self@.nodes =~= a.nodes.insert(id, DocumentNode { attrs, ..a.nodes[id] }));
        }
        old_attrs
    }

    fn set_parent_link(&mut self, id: NodeId, parent: Option<NodeId>)
        requires
            old(self).arena.wf(),
            old(self)@.nodes.contains_key(id),
        ensures
            final(self).arena.wf(),
            final(self)@.nodes.dom() == old(self)@.nodes.dom(),
            final(self)@.nodes[id].parent == parent,
            final(self)@.nodes[id].id == old(self)@.nodes[id].id,
            final(self)@.nodes[id].children == old(self)@.nodes[id].children,
            final(self)@.nodes[id].srcmap == old(self)@.nodes[id].srcmap,
            final(self)@.nodes[id].attrs == old(self)@.nodes[id].attrs,
            final(self)@.nodes[id].node_value == old(self)@.nodes[id].node_value,
            forall|n: NodeId| n != id ==> final(self)@.nodes[n] == old(self)@.nodes[n],
            final(self)@.source == old(self)@.source,
            final(self)@.root == old(self)@.root,
            final(self)@.depth == old(self)@.depth,
            final(self).arena.slots@.len() == old(self).arena.slots@.len(),
            forall|x: NodeId| old(self).arena.stale(x) ==> final(self).arena.stale(x),
    {
        let placeholder = DocumentNode {
            id,
            parent: None,
            children: Vec::new(),
            srcmap: None,
            attrs: Vec::new(),
            node_value: NodeValue::Paragraph(Paragraph),
        };
        let mut node = self.arena.replace(id, placeholder);
        node.parent = parent;
        let _ = self.arena.replace(id, node);
    }

    /// Set the children of a live node; everything else stays.
    fn set_children(&mut self, id: NodeId, children: Vec<NodeId>)
        requires
            old(self).arena.wf(),
            old(self)@.nodes.contains_key(id),
        ensures
            final(self).arena.wf(),
            final(self)@.nodes.dom() == old(self)@.nodes.dom(),
            final(self)@.nodes[id].children@ == children@,
            same_but_children(old(self)@.nodes[id], final(self)@.nodes[id]),
            forall|n: NodeId| n != id ==> final(self)@.nodes[n] == old(self)@.nodes[n],
            final(self)@.source == old(self)@.source,
            final(self)@.root == old(self)@.root,
            final(self)@.depth == old(self)@.depth,
            final(self).arena.slots@.len() == old(self).arena.slots@.len(),
            forall|x: NodeId| old(self).arena.stale(x) ==> final(self).arena.stale(x),
    {
        let placeholder = DocumentNode {
            id,
            parent: None,
            children: Vec::new(),
            srcmap: None,
            attrs: Vec::new(),
            node_value: NodeValue::Paragraph(Paragraph),
        };
        let mut node = self.arena.replace(id, placeholder);
        node.children = children;
        let _ = self.arena.replace(id, node);
    }

    /// Move the siblings from `first` through `last` under a fresh node made
    /// from the childless `wrapper`, which takes their place.
    pub(crate) fn wrap_siblings(&mut self, first: NodeId, last: NodeId, wrapper: Node) -> (w: NodeId)
        requires
            old(self).wf(),
            old(self)@.nodes.contains_key(first),
            old(self)@.nodes.contains_key(last),
            first != old(self)@.root,
            old(self)@.nodes[first].parent == old(self)@.nodes[last].parent,
            wrapper.children@.len() == 0,
            old(self).room() >= 1,
            exists|fi: int, li: int|
                0 <= fi <= li < old(self)@.nodes[old(self)@.nodes[first].parent->0].children@.len()
                    && old(self)@.nodes[old(self)@.nodes[first].parent->0].children@[fi] == first
                    && old(self)@.nodes[old(self)@.nodes[first].parent->0].children@[li] == last,
        ensures
            final(self).wf(),
            wrap_one(old(self)@, final(self)@, first, last, wrapper, w),
            final(self).room() >= old(self).room() - 1,
            forall|x: NodeId| old(self).stale(x) ==> final(self).stale(x),
            forall|x: NodeId| #[trigger] old(self)@.nodes.contains_key(x) ==> final(self)@.nodes.contains_key(x) || final(self).stale(x),
            !old(self).stale(w),
    {
        self.wrap_range(first, last, wrapper)
    }

    /// Move the siblings from `first` through `last` under a fresh node made
    /// from the childless `wrapper`, which takes their place.
    #[verifier::rlimit(100)]
    #[verifier::spinoff_prover]
    fn wrap_range(&mut self, first: NodeId, last: NodeId, wrapper: Node) -> (w: NodeId)
        requires
            old(self).wf(),
            old(self)@.nodes.contains_key(first),
            old(self)@.nodes.contains_key(last),
            first != old(self)@.root,
            old(self)@.nodes[first].parent == old(self)@.nodes[last].parent,
            wrapper.children@.len() == 0,
            old(self).room() >= 1,
            exists|fi: int, li: int|
                0 <= fi <= li < old(self)@.nodes[old(self)@.nodes[first].parent->0].children@.len()
                    && old(self)@.nodes[old(self)@.nodes[first].parent->0].children@[fi] == first
                    && old(self)@.nodes[old(self)@.nodes[first].parent->0].children@[li] == last,
        ensures
            final(self).wf(),
            wrap_one(old(self)@, final(self)@, first, last, wrapper, w),
            final(self).room() >= old(self).room() - 1,
            forall|x: NodeId| old(self).arena.stale(x) ==> final(self).arena.stale(x),
            !old(self).arena.stale(w),
    {
        let ghost a = self@;
        let ghost a_arena = self.arena;
        proof {
            assert(node_ok(a, first));
        }
        let p = match self.node(first) {
            Ok(n) => match n.parent {
                Some(p) => p,
                None => vstd::pervasive::unreached(),
            },
            Err(_) => vstd::pervasive::unreached(),
        };
        proof {
            assert(node_ok(a, p));
            let (fi0, li0) = choose|fi: int, li: int|
                0 <= fi <= li < a.nodes[p].children@.len() && a.nodes[p].children@[fi] == first
                    && a.nodes[p].children@[li] == last;
            assert(a.nodes[p].children@.contains(last)) by {
                assert(a.nodes[p].children@[li0] == last);
            }
        }
        let fi = self.child_position(p, first);
        let li = self.child_position(p, last);
        proof {
            let (fi0, li0) = choose|fi: int, li: int|
                0 <= fi <= li < a.nodes[p].children@.len() && a.nodes[p].children@[fi] == first
                    && a.nodes[p].children@[li] == last;
            assert(fi0 == fi && li0 == li) by {
                assert(a.nodes[p].children@.no_duplicates());
            }
        }
        // copies of the selected run and of the surrounding siblings
        let kids_ref = match self.node(p) {
            Ok(n) => n.children.as_slice(),
            Err(_) => vstd::pervasive::unreached(),
        };
        let ghost kids = kids_ref@;
        let (pre, sel, suf) = split_ids(kids_ref, fi, li);
        proof {
            self.lemma_room();
        }
        let ghost wrapperc = wrapper;
        let Node { children: _, srcmap, attrs, node_value } = wrapper;
        let w = self.arena.vacant_id();
        let sel_copy = copy_ids(&sel);
        let dn = DocumentNode { id: w, parent: Some(p), children: sel_copy, srcmap, attrs, node_value };
        let _ = self.arena.insert(dn);
        let ghost a1 = self.arena;
        let new_kids = join_ids(pre, w, &suf);
        self.set_children(p, new_kids);
        let ghost b0 = self@;
        let ghost a2 = self.arena;
        proof {
            assert(kids.subrange(fi as int, li + 1).no_duplicates()) by {
                let t = kids.subrange(fi as int, li + 1);
                assert forall|x: int, y: int| 0 <= x < t.len() && 0 <= y < t.len() && x != y implies t[x] != t[y] by {
                    assert(t[x] == kids[fi + x]);
                    assert(t[y] == kids[fi + y]);
                }
            }
            assert forall|m: int| 0 <= m < sel@.len() implies b0.nodes.contains_key(#[trigger] sel@[m]) by {
                assert(sel@[m] == kids[fi + m]);
            }
        }
        self.reparent_all(&sel, w, Ghost(b0));
        proof {
            let moved = subtrees(a, kids.subrange(fi as int, li + 1));
            let nd = Map::new(
                |n: NodeId| self@.nodes.contains_key(n),
                |n: NodeId|
                    if n == w {
                        a.depth[p] + 1
                    } else if moved.contains(n) {
                        a.depth[n] + 1
                    } else {
                        a.depth[n]
                    },
            );
            self.depth@ = nd;
            assert(sel@.take(sel@.len() as int) =~= sel@);
            assert(b0.nodes[p].children@ =~= kids.subrange(0, fi as int) + seq![w] + kids.subrange(li + 1, kids.len() as int));
            lemma_wrap_finish(a, self@, p, fi as int, li as int, w, first, last, wrapperc, sel@, b0);
            assert forall|x: NodeId| a_arena.stale(x) implies self.arena.stale(x) by {
                assert(a1.stale(x));
                assert(a2.stale(x));
            }
        }
        w
    }

    /// Give each node of `sel` the parent `w`, leaving everything else as it
    /// was in `b0`.
    #[verifier::rlimit(40)]
    fn reparent_all(&mut self, sel: &Vec<NodeId>, w: NodeId, Ghost(b0): Ghost<DocView>)
        requires
            old(self).arena.wf(),
            old(self)@ == b0,
            forall|m: int| 0 <= m < sel@.len() ==> b0.nodes.contains_key(#[trigger] sel@[m]),
            sel@.no_duplicates(),
        ensures
            final(self).arena.wf(),
            final(self)@.nodes.dom() == b0.nodes.dom(),
            final(self)@.source == b0.source,
            final(self)@.root == b0.root,
            final(self)@.depth == b0.depth,
            final(self).arena.slots@.len() == old(self).arena.slots@.len(),
            forall|x: NodeId| old(self).arena.stale(x) ==> final(self).arena.stale(x),
            forall|m: int| 0 <= m < sel@.len() ==> {
                &&& final(self)@.nodes[#[trigger] sel@[m]].parent == Some(w)
                &&& final(self)@.nodes[sel@[m]].id == b0.nodes[sel@[m]].id
                &&& final(self)@.nodes[sel@[m]].children == b0.nodes[sel@[m]].children
                &&& final(self)@.nodes[sel@[m]].srcmap == b0.nodes[sel@[m]].srcmap
                &&& final(self)@.nodes[sel@[m]].attrs == b0.nodes[sel@[m]].attrs
                &&& final(self)@.nodes[sel@[m]].node_value == b0.nodes[sel@[m]].node_value
            },
            forall|n: NodeId| !sel@.contains(n) ==> final(self)@.nodes[n] == b0.nodes[n],
    {
        let ghost a2 = self.arena;
        let mut j: usize = 0;
        while j < sel.len()
            invariant
                0 <= j <= sel@.len(),
                self.arena.wf(),
                self@.nodes.dom() == b0.nodes.dom(),
                self@.source == b0.source,
                self@.root == b0.root,
                self@.depth == b0.depth,
                self.arena.slots@.len() == a2.slots@.len(),
                forall|x: NodeId| a2.stale(x) ==> self.arena.stale(x),
                forall|m: int| 0 <= m < j ==> {
                    &&& self@.nodes[#[trigger] sel@[m]].parent == Some(w)
                    &&& self@.nodes[sel@[m]].id == b0.nodes[sel@[m]].id
                    &&& self@.nodes[sel@[m]].children == b0.nodes[sel@[m]].children
                    &&& self@.nodes[sel@[m]].srcmap == b0.nodes[sel@[m]].srcmap
                    &&& self@.nodes[sel@[m]].attrs == b0.nodes[sel@[m]].attrs
                    &&& self@.nodes[sel@[m]].node_value == b0.nodes[sel@[m]].node_value
                },
                forall|n: NodeId| !sel@.take(j as int).contains(n) ==> self@.nodes[n] == b0.nodes[n],
                forall|m: int| 0 <= m < sel@.len() ==> b0.nodes.contains_key(#[trigger] sel@[m]),
                sel@.no_duplicates(),
            decreases sel@.len() - j,
        {
            let c = sel[j];
            let ghost before = self@;
            let ghost ba = self.arena;
            self.set_parent_link(c, Some(w));
            j = j + 1;
            proof {
                assert forall|x: NodeId| a2.stale(x) implies self.arena.stale(x) by {
                    assert(ba.stale(x));
                }
                let t1 = sel@.take(j - 1);
                let t2 = sel@.take(j as int);
                assert forall|n: NodeId| !t2.contains(n) implies self@.nodes[n] == b0.nodes[n] by {
                    assert(t2[j - 1] == c);
                    if t1.contains(n) {
                        let q = choose|q: int| 0 <= q < t1.len() && t1[q] == n;
                        assert(t2[q] == n);
                    }
                }
                assert forall|m: int| 0 <= m < j implies {
                    &&& self@.nodes[#[trigger] sel@[m]].parent == Some(w)
                    &&& self@.nodes[sel@[m]].id == b0.nodes[sel@[m]].id
                    &&& self@.nodes[sel@[m]].children == b0.nodes[sel@[m]].children
                    &&& self@.nodes[sel@[m]].srcmap == b0.nodes[sel@[m]].srcmap
                    &&& self@.nodes[sel@[m]].attrs == b0.nodes[sel@[m]].attrs
                    &&& self@.nodes[sel@[m]].node_value == b0.nodes[sel@[m]].node_value
                } by {
                    if m < j - 1 {
                        assert(sel@[m] != c);
                    } else {
                        assert(!t1.contains(c)) by {
                            if t1.contains(c) {
                                let q = choose|q: int| 0 <= q < t1.len() && t1[q] == c;
                                assert(sel@[q] == sel@[j - 1]);
                            }
                        }
                        assert(before.nodes[c] == b0.nodes[c]);
                    }
                }
            }
        }
        proof {
            assert(sel@.take(sel@.len() as int) =~= sel@);
        }
    }

    /// Insert `child` into the children of the live node `parent` at `pos`.
    fn insert_child_id(&mut self, parent: NodeId, pos: usize, child: NodeId)
        requires
            old(self).arena.wf(),
            old(self)@.nodes.contains_key(parent),
            pos <= old(self)@.nodes[parent].children@.len(),
        ensures
            final(self).arena.wf(),
            final(self)@.nodes.dom() == old(self)@.nodes.dom(),
            final(self)@.nodes[parent].children@ == old(self)@.nodes[parent].children@.insert(
                pos as int,
                child,
            ),
            final(self)@.nodes[parent].id == old(self)@.nodes[parent].id,
            final(self)@.nodes[parent].parent == old(self)@.nodes[parent].parent,
            final(self)@.nodes[parent].srcmap == old(self)@.nodes[parent].srcmap,
            final(self)@.nodes[parent].attrs == old(self)@.nodes[parent].attrs,
            final(self)@.nodes[parent].node_value == old(self)@.nodes[parent].node_value,
            forall|n: NodeId| n != parent ==> final(self)@.nodes[n] == old(self)@.nodes[n],
            final(self)@.source == old(self)@.source,
            final(self)@.root == old(self)@.root,
            final(self)@.depth == old(self)@.depth,
            final(self).arena.slots@.len() == old(self).arena.slots@.len(),
            forall|x: NodeId| old(self).arena.stale(x) ==> final(self).arena.stale(x),
    {
        let placeholder = DocumentNode {
            id: parent,
            parent: None,
            children: Vec::new(),
            srcmap: None,
            attrs: Vec::new(),
            node_value: NodeValue::Paragraph(Paragraph),
        };
        let mut node = self.arena.replace(parent, placeholder);
        node.children.insert(pos, child);
        let _ = self.arena.replace(parent, node);
    }

    /// Move the subtree at `id` out of storage into an owned tree.
    #[verifier::rlimit(80)]
    fn take_legacy(&mut self, id: NodeId, Ghost(v): Ghost<DocView>, Ghost(bound): Ghost<nat>) -> (r: Node)
        requires
            old(self).arena.wf(),
            tree_wf(v),
            v.nodes.contains_key(id),
            forall|x: NodeId|
                #[trigger] in_subtree(v, id, x) ==> old(self).arena@.contains_key(x)
                    && old(self).arena@[x] == v.nodes[x],
            old(self).arena@.dom().len() <= bound,
        ensures
            final(self).arena.wf(),
            tree_matches(v, id, r),
            final(self).arena@.dom() == old(self).arena@.dom() - Set::new(|x: NodeId| in_subtree(v, id, x)),
            forall|x: NodeId| #[trigger] final(self).arena@.contains_key(x) ==> final(self).arena@[x] == old(self).arena@[x],
        decreases bound,
    {
        let ghost a0 = self.arena@;
        proof {
            assert(reaches(v, id, id, v.depth[id]));
            assert(in_subtree(v, id, id));
            assert(node_ok(v, id));
        }
        let data = match self.arena.remove(id) {
            Some(d) => d,
            None => vstd::pervasive::unreached(),
        };
        let DocumentNode { id: _, parent: _, children: child_ids, srcmap, attrs, node_value } = data;
        let ghost kids = child_ids@;
        proof {
            lemma_siblings_disjoint(v, id, kids);
            assert(a0.dom().finite());
            assert(self.arena@.dom().len() == a0.dom().len() - 1);
        }
        let mut children: Vec<Node> = Vec::new();
        let mut k: usize = 0;
        while k < child_ids.len()
            invariant
                k <= kids.len(),
                child_ids@ == kids,
                kids == v.nodes[id].children@,
                tree_wf(v),
                v.nodes.contains_key(id),
                crate::subtree::disjoint_roots(v, kids),
                self.arena.wf(),
                self.arena@.dom().len() < bound,
                self.arena@.dom() == a0.dom().remove(id) - Set::new(|x: NodeId| exists|j: int| 0 <= j < k && #[trigger] in_subtree(v, kids[j], x)),
                forall|x: NodeId| #[trigger] self.arena@.contains_key(x) ==> self.arena@[x] == a0[x],
                forall|x: NodeId|
                    #[trigger] in_subtree(v, id, x) ==> a0.contains_key(x) && a0[x] == v.nodes[x],
                children@.len() == k,
                forall|j: int| #![trigger children@[j]] 0 <= j < k ==> tree_matches(v, kids[j], children@[j]),
            decreases kids.len() - k,
        {
            let c = child_ids[k];
            proof {
                assert(node_ok(v, id));
                assert(v.nodes.contains_key(c));
                assert forall|x: NodeId| #[trigger] in_subtree(v, c, x) implies self.arena@.contains_key(x)
                    && self.arena@[x] == v.nodes[x] by {
                    assert(v.nodes[id].children@.contains(c)) by {
                        assert(kids[k as int] == c);
                    }
                    assert(in_subtree(v, id, id));
                    lemma_child_in_subtree(v, id, id, c);
                    lemma_in_subtree_trans(v, id, c, x);
                    assert(x != id) by {
                        if x == id {
                            assert(node_ok(v, c));
                            lemma_reaches_depth(v, c, id, v.depth[id]);
                        }
                    }
                    assert forall|j: int| 0 <= j < k implies !#[trigger] in_subtree(v, kids[j], x) by {
                        if in_subtree(v, kids[j], x) {
                            lemma_common_descendant(v, kids[j], c, x);
                            assert(kids[k as int] == c);
                        }
                    }
                }
                assert(self.arena@.dom().finite());
            }
            let ghost before = self.arena@.dom();
            let child = self.take_legacy(c, Ghost(v), Ghost((bound - 1) as nat));
            children.push(child);
            proof {
                vstd::set_lib::lemma_len_subset(self.arena@.dom(), before);
                assert(self.arena@.dom() =~= a0.dom().remove(id) - Set::new(|x: NodeId| exists|j: int| 0 <= j < k + 1 && #[trigger] in_subtree(v, kids[j], x))) by {
                    assert forall|x: NodeId| (exists|j: int| 0 <= j < k + 1 && #[trigger] in_subtree(v, kids[j], x)) == ((exists|j: int| 0 <= j < k && #[trigger] in_subtree(v, kids[j], x)) || in_subtree(v, c, x)) by {
                        if in_subtree(v, c, x) {
                            assert(kids[k as int] == c);
                        }
                    }
                }
                assert(children@[k as int] == child);
            }
            k = k + 1;
        }
        proof {
            assert(self.arena@.dom() =~= a0.dom() - Set::new(|x: NodeId| in_subtree(v, id, x))) by {
                assert forall|x: NodeId| (x == id || exists|j: int| 0 <= j < kids.len() && #[trigger] in_subtree(v, kids[j], x)) == in_subtree(v, id, x) by {
                    if in_subtree(v, id, x) && x != id {
                        lemma_below_child(v, id, x);
                        let c = choose|c: NodeId| v.nodes[id].children@.contains(c) && in_subtree(v, c, x);
                        let j = choose|j: int| 0 <= j < kids.len() && kids[j] == c;
                        assert(in_subtree(v, kids[j], x));
                    }
                    if exists|j: int| 0 <= j < kids.len() && #[trigger] in_subtree(v, kids[j], x) {
                        let j = choose|j: int| 0 <= j < kids.len() && #[trigger] in_subtree(v, kids[j], x);
                        assert(v.nodes[id].children@.contains(kids[j]));
                        assert(in_subtree(v, id, id));
                        lemma_child_in_subtree(v, id, id, kids[j]);
                        lemma_in_subtree_trans(v, id, kids[j], x);
                    }
                    if x == id {
                        assert(in_subtree(v, id, id));
                    }
                }
            }
        }
        Node { children, srcmap, attrs, node_value }
    }

    /// Rebuild the owned tree, consuming this document.
    pub fn into_legacy(self) -> (r: Node)
        requires
            self.wf(),
        ensures
            tree_matches(self@, self@.root, r),
    {
        let ghost v = self@;
        let mut d = self;
        let root = d.root;
        proof {
            assert(v.nodes.dom().finite());
        }
        d.take_legacy(root, Ghost(v), Ghost(d.arena@.dom().len()))
    }

    /// Move an owned tree into a new document.
    pub fn from_legacy(source: String, root: Node) -> (d: Document)
        requires
            tree_size(root) <= u32::MAX as int + 1,
        ensures
            d.wf(),
            d@.source == source@,
            exists|ids: Seq<NodeId>|
                {
                    &&& placed(d@, flatten(root, -1, 0), ids, None, tree_size(root) as int)
                    &&& ids[0] == d@.root
                    &&& d@.nodes.dom() == ids.to_set()
                },
            d@.nodes.len() == tree_size(root),
            d.room() >= u32::MAX as int + 1 - tree_size(root),
    {
        let ghost f = flatten(root, -1, 0);
        let ghost rootc = root;
        let Node { children, srcmap, attrs, node_value } = root;
        let mut arena = Arena::new();
        let id = arena.vacant_id();
        let dn = DocumentNode { id, parent: None, children: Vec::new(), srcmap, attrs, node_value };
        let _ = arena.insert(dn);
        let ghost depth0 = Map::<NodeId, nat>::empty().insert(id, 0nat);
        let mut document = Document { source, arena, root: id, depth: Ghost(depth0) };
        proof {
            assert(document@.nodes.dom() =~= set![id]);
            assert(document@.nodes.dom().finite());
            assert(node_ok(document@, id));
            assert(tree_wf(document@));
            let ids = seq![id];
            assert(f[0] == flat_entry(rootc, -1));
            assert(kid_ids(f, ids, 0, 0) =~= Seq::<NodeId>::empty());
            assert(kid_ids(f, ids, 0, 1) =~= Seq::<NodeId>::empty());
            assert(placed(document@, f, ids, None, 1));
        }
        let mut stack: Vec<(Node, NodeId)> = Vec::new();
        let pidx = push_children_reversed(&mut stack, children, id, Ghost(Seq::empty()), Ghost(0));
        proof {
            let ff = flatten_forest(rootc.children@, 0, 1);
            assert(pending_flat(Seq::<(Node, NodeId)>::empty(), Seq::<int>::empty(), 1 + ff.len() as int)
                =~= Seq::<FlatNode>::empty());
            assert(pending_flat(stack@, pidx@, 1) =~= ff);
            assert forall|j: int| 0 <= j < pidx@.len() implies 0 <= #[trigger] pidx@[j] < 1
                && stack@[j].1 == seq![id][pidx@[j]] by {
                assert(stack@[j].1 == id);
            }
            assert(f =~= f.take(1) + pending_flat(stack@, pidx@, 1));
            assert(document.room() >= f.len() - 1);
        }
        let ghost ids1 = seq![id];
        let ids = document.attach_pending(stack, Ghost(f), Ghost(ids1), pidx, Ghost(None));
        proof {
            let ids = ids@;
            assert(ids[0] == id) by {
                assert(ids.take(1)[0] == ids[0]);
            }
            assert(document@.nodes.dom() =~= ids.to_set()) by {
                assert forall|x: NodeId| document@.nodes.dom().contains(x) <==> ids.to_set().contains(
                    x,
                ) by {
                    if ids.contains(x) && x != id {
                        let m = choose|m: int| 0 <= m < ids.len() && ids[m] == x;
                        assert(ids.subrange(1, f.len() as int)[m - 1] == x);
                    }
                    if ids.subrange(1, f.len() as int).contains(x) {
                        let m = choose|m: int|
                            0 <= m < f.len() - 1 && ids.subrange(1, f.len() as int)[m] == x;
                        assert(ids[m + 1] == x);
                    }
                    assert(ids[0] == id);
                }
            }
            ids.unique_seq_to_set();
        }
        document
    }

    /// Insert an owned tree as child `pos` of the live node `parent`.
    #[verifier::rlimit(80)]
    #[verifier::spinoff_prover]
    fn attach_subtree(&mut self, parent: NodeId, pos: usize, draft: Node) -> (r: (
        NodeId,
        Ghost<Seq<NodeId>>,
    ))
        requires
            old(self).wf(),
            old(self)@.nodes.contains_key(parent),
            pos <= old(self)@.nodes[parent].children@.len(),
            old(self).room() >= tree_size(draft),
        ensures
            final(self).wf(),
            placed(final(self)@, flatten(draft, -1, 0), r.1@, Some(parent), tree_size(draft) as int),
            r.1@[0] == r.0,
            forall|j: int|
                0 <= j < tree_size(draft) ==> !old(self)@.nodes.contains_key(#[trigger] r.1@[j]),
            final(self)@.nodes.dom() == old(self)@.nodes.dom() + r.1@.to_set(),
            final(self)@.nodes[parent].children@ == old(self)@.nodes[parent].children@.insert(
                pos as int,
                r.0,
            ),
            final(self)@.nodes[parent].id == old(self)@.nodes[parent].id,
            final(self)@.nodes[parent].parent == old(self)@.nodes[parent].parent,
            final(self)@.nodes[parent].srcmap == old(self)@.nodes[parent].srcmap,
            final(self)@.nodes[parent].attrs == old(self)@.nodes[parent].attrs,
            final(self)@.nodes[parent].node_value == old(self)@.nodes[parent].node_value,
            forall|n: NodeId|
                old(self)@.nodes.contains_key(n) && n != parent ==> final(self)@.nodes[n] == old(
                    self,
                )@.nodes[n],
            final(self)@.source == old(self)@.source,
            final(self)@.root == old(self)@.root,
            final(self).room() >= old(self).room() - tree_size(draft),
            forall|x: NodeId| old(self).arena.stale(x) ==> final(self).arena.stale(x),
            forall|j: int| 0 <= j < tree_size(draft) ==> !old(self).arena.stale(#[trigger] r.1@[j]),
    {
        let ghost f = flatten(draft, -1, 0);
        let ghost draftc = draft;
        let ghost v0 = self@;
        let ghost a0 = self.arena;
        let Node { children, srcmap, attrs, node_value } = draft;
        proof {
            self.lemma_room();
        }
        let id = self.arena.vacant_id();
        let dn = DocumentNode {
            id,
            parent: Some(parent),
            children: Vec::new(),
            srcmap,
            attrs,
            node_value,
        };
        let _ = self.arena.insert(dn);
        let ghost a_ins = self.arena;
        self.insert_child_id(parent, pos, id);
        proof {
            self.depth@ = self.depth@.insert(id, self.depth@[parent] + 1);
            lemma_insert_child_tree(v0, self@, id, parent, pos as int);
            let ids = seq![id];
            assert(f[0] == flat_entry(draftc, -1));
            assert(kid_ids(f, ids, 0, 0) =~= Seq::<NodeId>::empty());
            assert(kid_ids(f, ids, 0, 1) =~= Seq::<NodeId>::empty());
            assert(placed(self@, f, ids, Some(parent), 1));
        }
        let ghost v1 = self@;
        let ghost a1 = self.arena;
        let mut stack: Vec<(Node, NodeId)> = Vec::new();
        let pidx = push_children_reversed(&mut stack, children, id, Ghost(Seq::empty()), Ghost(0));
        proof {
            let ff = flatten_forest(draftc.children@, 0, 1);
            assert(pending_flat(Seq::<(Node, NodeId)>::empty(), Seq::<int>::empty(), 1 + ff.len() as int)
                =~= Seq::<FlatNode>::empty());
            assert(pending_flat(stack@, pidx@, 1) =~= ff);
            assert forall|j: int| 0 <= j < pidx@.len() implies 0 <= #[trigger] pidx@[j] < 1
                && stack@[j].1 == seq![id][pidx@[j]] by {
                assert(stack@[j].1 == id);
            }
            assert(f =~= f.take(1) + pending_flat(stack@, pidx@, 1));
        }
        let ghost ids1 = seq![id];
        let ids = self.attach_pending(stack, Ghost(f), Ghost(ids1), pidx, Ghost(Some(parent)));
        proof {
            let ids = ids@;
            assert(ids[0] == id) by {
                assert(ids.take(1)[0] == ids[0]);
            }
            assert(!seq![id].contains(parent));
            assert(self@.nodes.dom() =~= v0.nodes.dom() + ids.to_set()) by {
                assert forall|x: NodeId| self@.nodes.dom().contains(x) <==> (v0.nodes.dom().contains(x)
                    || ids.to_set().contains(x)) by {
                    if ids.contains(x) && x != id {
                        let m = choose|m: int| 0 <= m < ids.len() && ids[m] == x;
                        assert(ids.subrange(1, f.len() as int)[m - 1] == x);
                    }
                    if ids.subrange(1, f.len() as int).contains(x) {
                        let m = choose|m: int|
                            0 <= m < f.len() - 1 && ids.subrange(1, f.len() as int)[m] == x;
                        assert(ids[m + 1] == x);
                    }
                    assert(ids[0] == id);
                }
            }
            assert forall|n: NodeId| v0.nodes.contains_key(n) && n != parent implies self@.nodes[n]
                == v0.nodes[n] by {
                assert(v1.nodes[n] == v0.nodes[n]);
                assert(!seq![id].contains(n));
            }
            assert forall|j: int| 0 <= j < tree_size(draftc) implies !v0.nodes.contains_key(
                #[trigger] ids[j],
            ) by {
                if j == 0 {
                } else {
                    assert(!v1.nodes.contains_key(ids[j]));
                }
            }
            assert forall|x: NodeId| a0.stale(x) implies a1.stale(x) by {
                assert(a_ins.stale(x));
            }
            assert forall|x: NodeId| a0.stale(x) implies self.arena.stale(x) by {
                assert(a1.stale(x));
            }
            assert forall|j: int| 0 <= j < tree_size(draftc) implies !a0.stale(#[trigger] ids[j]) by {
                if j == 0 {
                } else {
                    assert(!a1.stale(ids[j]));
                }
            }
        }
        (id, ids)
    }

    /// Append `child` to the children of the live node `parent`.
    fn push_child_id(&mut self, parent: NodeId, child: NodeId)
        requires
            old(self).arena.wf(),
            old(self)@.nodes.contains_key(parent),
        ensures
            final(self).arena.wf(),
            final(self)@.nodes.dom() == old(self)@.nodes.dom(),
            final(self)@.nodes[parent].children@ == old(self)@.nodes[parent].children@.push(child),
            final(self)@.nodes[parent].id == old(self)@.nodes[parent].id,
            final(self)@.nodes[parent].parent == old(self)@.nodes[parent].parent,
            final(self)@.nodes[parent].srcmap == old(self)@.nodes[parent].srcmap,
            final(self)@.nodes[parent].attrs == old(self)@.nodes[parent].attrs,
            final(self)@.nodes[parent].node_value == old(self)@.nodes[parent].node_value,
            forall|n: NodeId| n != parent ==> final(self)@.nodes[n] == old(self)@.nodes[n],
            final(self)@.source == old(self)@.source,
            final(self)@.root == old(self)@.root,
            final(self)@.depth == old(self)@.depth,
            final(self).arena.slots@.len() == old(self).arena.slots@.len(),
            forall|x: NodeId| old(self).arena.stale(x) ==> final(self).arena.stale(x),
    {
        let placeholder = DocumentNode {
            id: parent,
            parent: None,
            children: Vec::new(),
            srcmap: None,
            attrs: Vec::new(),
            node_value: NodeValue::Paragraph(Paragraph),
        };
        let mut node = self.arena.replace(parent, placeholder);
        node.children.push(child);
        let _ = self.arena.replace(parent, node);
    }
}

/// The ids of `kids` before position `fi`, from `fi` through `li`, and
/// after `li`.
fn split_ids(kids: &[NodeId], fi: usize, li: usize) -> (r: (Vec<NodeId>, Vec<NodeId>, Vec<NodeId>))
    requires
        fi <= li < kids@.len(),
    ensures
        r.0@ == kids@.subrange(0, fi as int),
        r.1@ == kids@.subrange(fi as int, li + 1),
        r.2@ == kids@.subrange(li + 1, kids@.len() as int),
{
    let ghost ks = kids@;
    let mut sel: Vec<NodeId> = Vec::new();
    let mut pre: Vec<NodeId> = Vec::new();
    let mut suf: Vec<NodeId> = Vec::new();
    let mut k: usize = 0;
    while k < kids.len()
        invariant
            0 <= k <= ks.len(),
            ks == kids@,
            fi <= li < ks.len(),
            pre@ == ks.subrange(0, if k < fi { k as int } else { fi as int }),
            sel@ == if k <= fi { Seq::<NodeId>::empty() } else { ks.subrange(fi as int, if k <= li { k as int } else { li + 1 }) },
            suf@ == if k <= li + 1 { Seq::<NodeId>::empty() } else { ks.subrange(li + 1, k as int) },
        decreases ks.len() - k,
    {
        if k < fi {
            pre.push(kids[k]);
        } else if k <= li {
            sel.push(kids[k]);
        } else {
            suf.push(kids[k]);
        }
        k = k + 1;
        proof {
            assert(pre@ =~= ks.subrange(0, if k < fi { k as int } else { fi as int }));
            assert(sel@ =~= if k <= fi { Seq::<NodeId>::empty() } else { ks.subrange(fi as int, if k <= li { k as int } else { li + 1 }) });
            assert(suf@ =~= if k <= li + 1 { Seq::<NodeId>::empty() } else { ks.subrange(li + 1, k as int) });
        }
    }
    (pre, sel, suf)
}

/// A copy of `ids`.
fn copy_ids(ids: &Vec<NodeId>) -> (r: Vec<NodeId>)
    ensures
        r@ == ids@,
{
    let mut out: Vec<NodeId> = Vec::new();
    let mut j: usize = 0;
    while j < ids.len()
        invariant
            0 <= j <= ids@.len(),
            out@ == ids@.take(j as int),
        decreases ids@.len() - j,
    {
        out.push(ids[j]);
        j = j + 1;
        assert(out@ =~= ids@.take(j as int));
    }
    proof {
        assert(out@ =~= ids@);
    }
    out
}

/// `pre`, then `w`, then `suf`.
fn join_ids(pre: Vec<NodeId>, w: NodeId, suf: &Vec<NodeId>) -> (r: Vec<NodeId>)
    ensures
        r@ == pre@ + seq![w] + suf@,
{
    let mut out = pre;
    out.push(w);
    let ghost with_w = out@;
    let mut j: usize = 0;
    while j < suf.len()
        invariant
            0 <= j <= suf@.len(),
            out@ == with_w + suf@.take(j as int),
        decreases suf@.len() - j,
    {
        out.push(suf[j]);
        j = j + 1;
        assert(out@ =~= with_w + suf@.take(j as int));
    }
    proof {
        assert(suf@.take(suf@.len() as int) =~= suf@);
    }
    out
}

/// Every node live in `d0` is live in `d1`, or retired there for good.
#[verifier::opaque]
pub open spec fn kept_or_retired(d0: Document, d1: Document) -> bool {
    forall|x: NodeId| #[trigger] d0@.nodes.contains_key(x) ==> d1@.nodes.contains_key(x) || d1.stale(x)
}

/// Keeping or retiring nodes composes, as retired handles stay retired.
pub proof fn lemma_retire_chain(d0: Document, d1: Document, d2: Document)
    requires
        kept_or_retired(d0, d1),
        kept_or_retired(d1, d2),
        forall|x: NodeId| d1.stale(x) ==> d2.stale(x),
    ensures
        kept_or_retired(d0, d2),
{
    reveal(kept_or_retired);
    assert forall|x: NodeId| #[trigger] d0@.nodes.contains_key(x) implies d2@.nodes.contains_key(x) || d2.stale(x) by {
        if d1@.nodes.contains_key(x) {
            assert(d2@.nodes.contains_key(x) || d2.stale(x));
        }
    }
}

} // verus!
