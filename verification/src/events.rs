//! Depth-first structural traversal of a document subtree.
use vstd::prelude::*;

use crate::arena::NodeId;
use crate::document::{node_ok, tree_wf, Document, DocumentNode, DocView, InvalidNodeId};
use crate::subtree::{in_subtree, lemma_reaches_depth, reaches};

verus! {

/// The ancestors of `x`, itself included.
pub open spec fn ancestors(v: DocView, x: NodeId) -> Set<NodeId> {
    Set::new(|a: NodeId| in_subtree(v, a, x))
}

/// A node has exactly one ancestor per level above it.
pub proof fn lemma_ancestors(v: DocView, x: NodeId)
    requires
        tree_wf(v),
        v.nodes.contains_key(x),
    ensures
        ancestors(v, x).finite(),
        ancestors(v, x).len() == v.depth[x] + 1,
        ancestors(v, x).subset_of(v.nodes.dom()),
    decreases v.depth[x],
{
    assert(node_ok(v, x));
    assert(in_subtree(v, x, x));
    assert forall|a: NodeId| ancestors(v, x).contains(a) implies v.nodes.dom().contains(a) by {
        lemma_reaches_depth_live(v, a, x, v.depth[x]);
    }
    if x == v.root {
        assert(ancestors(v, x) =~= set![x]) by {
            assert forall|a: NodeId| ancestors(v, x).contains(a) implies a == x by {
                assert(v.depth[x] == 0);
            }
        }
    } else {
        let p = v.nodes[x].parent->0;
        assert(node_ok(v, p));
        assert(v.depth[x] == v.depth[p] + 1);
        lemma_ancestors(v, p);
        assert(ancestors(v, x) =~= ancestors(v, p).insert(x)) by {
            assert forall|a: NodeId| ancestors(v, x).contains(a) <==> (ancestors(v, p).contains(a) || a == x) by {
                if ancestors(v, p).contains(a) {
                    assert(reaches(v, a, p, v.depth[p]));
                    assert(reaches(v, a, x, v.depth[x]));
                }
            }
        }
        assert(!ancestors(v, p).contains(x)) by {
            if ancestors(v, p).contains(x) {
                lemma_reaches_depth(v, x, p, v.depth[p]);
            }
        }
    }
}

proof fn lemma_reaches_depth_live(v: DocView, a: NodeId, x: NodeId, fuel: nat)
    requires
        tree_wf(v),
        v.nodes.contains_key(x),
        reaches(v, a, x, fuel),
    ensures
        v.nodes.contains_key(a),
    decreases fuel,
{
    assert(node_ok(v, x));
    if x != a {
        lemma_reaches_depth_live(v, a, v.nodes[x].parent->0, (fuel - 1) as nat);
    }
}

/// Every node lies fewer levels deep than the document has nodes.
pub proof fn lemma_depth_below_len(v: DocView, x: NodeId)
    requires
        tree_wf(v),
        v.nodes.contains_key(x),
    ensures
        v.depth[x] < v.nodes.dom().len(),
{
    lemma_ancestors(v, x);
    vstd::set_lib::lemma_len_subset(ancestors(v, x), v.nodes.dom());
}

/// One step of a structural traversal, by node handle.
pub ghost enum Step {
    Enter(NodeId),
    Leaf(NodeId),
    Exit(NodeId),
}

/// The steps of the subtree at `id`: a leaf is one `Leaf`; any other node is
/// `Enter`, its children's steps in order, then `Exit`.
pub open spec fn subtree_steps(v: DocView, id: NodeId, fuel: nat) -> Seq<Step>
    decreases fuel, 0int, 0int,
{
    if fuel == 0 {
        Seq::empty()
    } else if v.nodes[id].children@.len() == 0 {
        seq![Step::Leaf(id)]
    } else {
        seq![Step::Enter(id)] + forest_steps(v, v.nodes[id].children@, (fuel - 1) as nat) + seq![
            Step::Exit(id),
        ]
    }
}

/// The steps of a sequence of sibling subtrees.
pub open spec fn forest_steps(v: DocView, ids: Seq<NodeId>, fuel: nat) -> Seq<Step>
    decreases fuel, 1int, ids.len(),
{
    if ids.len() == 0 {
        Seq::empty()
    } else {
        subtree_steps(v, ids[0], fuel) + forest_steps(v, ids.drop_first(), fuel)
    }
}

/// The complete depth-first traversal of the subtree at `id`.
pub open spec fn steps_of(v: DocView, id: NodeId) -> Seq<Step> {
    subtree_steps(v, id, (v.nodes.dom().len() - v.depth[id]) as nat)
}

/// How many steps of `s` visit `x`: enter it, or pass it as a leaf.
pub open spec fn visits(s: Seq<Step>, x: NodeId) -> nat
    decreases s.len(),
{
    if s.len() == 0 {
        0
    } else {
        visits(s.drop_last(), x) + if s.last() == Step::Enter(x) || s.last() == Step::Leaf(x) {
            1nat
        } else {
            0nat
        }
    }
}

proof fn lemma_visits_concat(a: Seq<Step>, b: Seq<Step>, x: NodeId)
    ensures
        visits(a + b, x) == visits(a, x) + visits(b, x),
    decreases b.len(),
{
    if b.len() == 0 {
        assert(a + b =~= a);
    } else {
        assert((a + b).drop_last() =~= a + b.drop_last());
        lemma_visits_concat(a, b.drop_last(), x);
    }
}

proof fn lemma_visits_one(st: Step, x: NodeId)
    ensures
        visits(seq![st], x) == (if st == Step::Enter(x) || st == Step::Leaf(x) {
            1nat
        } else {
            0nat
        }),
{
    let s1 = seq![st];
    assert(s1.drop_last() =~= Seq::<Step>::empty());
    assert(visits(s1.drop_last(), x) == 0);
    assert(s1.last() == st);
}

/// Every live node lies in the subtree of the root.
proof fn lemma_under_root(v: DocView, x: NodeId)
    requires
        tree_wf(v),
        v.nodes.contains_key(x),
    ensures
        in_subtree(v, v.root, x),
    decreases v.depth[x],
{
    assert(node_ok(v, x));
    if x != v.root {
        let q = v.nodes[x].parent->0;
        assert(node_ok(v, q));
        lemma_under_root(v, q);
    }
}

/// No node lies below two different children of one node.
proof fn lemma_siblings_apart(v: DocView, a: NodeId, b: NodeId, x: NodeId)
    requires
        tree_wf(v),
        a != b,
        v.nodes.contains_key(a),
        v.nodes.contains_key(b),
        a != v.root,
        b != v.root,
        v.nodes[a].parent == v.nodes[b].parent,
    ensures
        !(in_subtree(v, a, x) && in_subtree(v, b, x)),
    decreases v.depth[x],
{
    assert(node_ok(v, a));
    assert(node_ok(v, b));
    if !(in_subtree(v, a, x) && in_subtree(v, b, x)) {
    } else if x == a {
        lemma_reaches_depth(v, b, a, v.depth[a]);
    } else if x == b {
        lemma_reaches_depth(v, a, b, v.depth[b]);
    } else {
        assert(node_ok(v, x));
        let q = v.nodes[x].parent->0;
        assert(node_ok(v, q));
        lemma_siblings_apart(v, a, b, q);
    }
}

/// The steps of the subtree at `id` visit each node of that subtree once and
/// no other node, given fuel for its height.
proof fn lemma_subtree_visits(v: DocView, id: NodeId, fuel: nat, x: NodeId)
    requires
        tree_wf(v),
        v.nodes.contains_key(id),
        forall|y: NodeId| #[trigger] in_subtree(v, id, y) ==> v.depth[y] - v.depth[id] < fuel,
    ensures
        visits(subtree_steps(v, id, fuel), x) == (if in_subtree(v, id, x) {
            1nat
        } else {
            0nat
        }),
    decreases fuel, 0int, 0int,
{
    assert(node_ok(v, id));
    assert(in_subtree(v, id, id));
    let kids = v.nodes[id].children@;
    if kids.len() == 0 {
        lemma_visits_one(Step::Leaf(id), x);
        if in_subtree(v, id, x) && x != id {
            crate::subtree::lemma_below_child(v, id, x);
        }
    } else {
        let f = (fuel - 1) as nat;
        assert forall|k: int, y: NodeId| 0 <= k < kids.len() && #[trigger] in_subtree(v, kids[k], y) implies v.depth[y]
            - v.depth[kids[k]] < f by {
            assert(kids.contains(kids[k]));
            crate::subtree::lemma_child_in_subtree(v, id, id, kids[k]);
            crate::subtree::lemma_in_subtree_trans(v, id, kids[k], y);
            assert(node_ok(v, kids[k]));
        }
        lemma_forest_visits(v, id, 0, f, x);
        assert(kids.skip(0) =~= kids);
        let body = forest_steps(v, kids, f);
        lemma_visits_concat(seq![Step::Enter(id)], body, x);
        lemma_visits_concat(seq![Step::Enter(id)] + body, seq![Step::Exit(id)], x);
        lemma_visits_one(Step::Enter(id), x);
        lemma_visits_one(Step::Exit(id), x);
        if x == id {
            assert forall|k: int| 0 <= k < kids.len() implies !in_subtree(v, #[trigger] kids[k], x) by {
                assert(kids.contains(kids[k]));
                assert(node_ok(v, kids[k]));
                if in_subtree(v, kids[k], x) {
                    lemma_reaches_depth(v, kids[k], x, v.depth[x]);
                }
            }
        } else if in_subtree(v, id, x) {
            crate::subtree::lemma_below_child(v, id, x);
            let c = choose|c: NodeId| kids.contains(c) && in_subtree(v, c, x);
            let k = choose|k: int| 0 <= k < kids.len() && kids[k] == c;
            assert(in_subtree(v, kids[k], x));
        } else {
            assert forall|k: int| 0 <= k < kids.len() implies !in_subtree(v, #[trigger] kids[k], x) by {
                assert(kids.contains(kids[k]));
                if in_subtree(v, kids[k], x) {
                    crate::subtree::lemma_child_in_subtree(v, id, id, kids[k]);
                    crate::subtree::lemma_in_subtree_trans(v, id, kids[k], x);
                }
            }
        }
    }
}

/// The steps of the children of `p` from the `i`-th on visit each node below
/// those children once and no other node.
proof fn lemma_forest_visits(v: DocView, p: NodeId, i: int, fuel: nat, x: NodeId)
    requires
        tree_wf(v),
        v.nodes.contains_key(p),
        0 <= i <= v.nodes[p].children@.len(),
        forall|k: int, y: NodeId|
            0 <= k < v.nodes[p].children@.len() && #[trigger] in_subtree(v, v.nodes[p].children@[k], y) ==> v.depth[y]
                - v.depth[v.nodes[p].children@[k]] < fuel,
    ensures
        visits(forest_steps(v, v.nodes[p].children@.skip(i), fuel), x) == (if exists|k: int|
            i <= k < v.nodes[p].children@.len() && #[trigger] in_subtree(v, v.nodes[p].children@[k], x) {
            1nat
        } else {
            0nat
        }),
    decreases fuel, 1int, v.nodes[p].children@.len() - i,
{
    let kids = v.nodes[p].children@;
    assert(node_ok(v, p));
    let ids = kids.skip(i);
    if i == kids.len() {
        assert(ids.len() == 0);
    } else {
        let c = kids[i];
        assert(ids[0] == c);
        assert(ids.drop_first() =~= kids.skip(i + 1));
        assert(v.nodes.contains_key(c));
        assert(node_ok(v, c));
        assert(forall|y: NodeId| #[trigger] in_subtree(v, c, y) ==> v.depth[y] - v.depth[c] < fuel);
        lemma_subtree_visits(v, c, fuel, x);
        lemma_forest_visits(v, p, i + 1, fuel, x);
        lemma_visits_concat(subtree_steps(v, c, fuel), forest_steps(v, kids.skip(i + 1), fuel), x);
        if in_subtree(v, c, x) {
            assert forall|k: int| i + 1 <= k < kids.len() implies !in_subtree(v, #[trigger] kids[k], x) by {
                assert(kids.contains(kids[k]));
                assert(node_ok(v, kids[k]));
                if in_subtree(v, kids[k], x) {
                    assert(kids[k] != c);
                    lemma_siblings_apart(v, c, kids[k], x);
                }
            }
        }
    }
}

/// A structural traversal of a well-formed document from its root visits
/// every live node exactly once, entering it or passing it as a leaf, and
/// visits nothing else.
pub proof fn lemma_traversal_visits_every_node_once(v: DocView, x: NodeId)
    requires
        tree_wf(v),
    ensures
        visits(steps_of(v, v.root), x) == (if v.nodes.contains_key(x) {
            1nat
        } else {
            0nat
        }),
{
    assert(node_ok(v, v.root));
    assert forall|y: NodeId| #[trigger] in_subtree(v, v.root, y) implies v.depth[y] - v.depth[v.root] < (
    v.nodes.dom().len() - v.depth[v.root]) as nat by {
        lemma_depth_below_len(v, y);
    }
    lemma_subtree_visits(v, v.root, (v.nodes.dom().len() - v.depth[v.root]) as nat, x);
    if v.nodes.contains_key(x) {
        lemma_under_root(v, x);
    }
}

/// One step in a depth-first structural traversal.
///
/// Nodes with children produce a balanced `Enter` / `Exit` pair. Nodes
/// without children produce exactly one `Leaf` event.
#[derive(Debug)]
pub enum StructuralEvent<'a> {
    Enter(&'a DocumentNode),
    Leaf(&'a DocumentNode),
    Exit(&'a DocumentNode),
}

impl<'a> StructuralEvent<'a> {
    /// The step this event stands for.
    pub open spec fn step(&self) -> Step {
        match self {
            StructuralEvent::Enter(n) => Step::Enter(n.id),
            StructuralEvent::Leaf(n) => Step::Leaf(n.id),
            StructuralEvent::Exit(n) => Step::Exit(n.id),
        }
    }

    /// The node of this event.
    pub open spec fn spec_node(&self) -> DocumentNode {
        match self {
            StructuralEvent::Enter(n) => **n,
            StructuralEvent::Leaf(n) => **n,
            StructuralEvent::Exit(n) => **n,
        }
    }

    pub fn node(&self) -> (r: &'a DocumentNode)
        ensures
            *r == self.spec_node(),
    {
        match self {
            StructuralEvent::Enter(n) => n,
            StructuralEvent::Leaf(n) => n,
            StructuralEvent::Exit(n) => n,
        }
    }
}

/// Lazy depth-first traversal of a document subtree. The stack holds, for
/// each open node, the node and how many of its children were visited.
pub struct StructuralEvents<'a> {
    document: &'a Document,
    stack: Vec<(&'a DocumentNode, usize)>,
    pending: Option<StructuralEvent<'a>>,
}

/// The steps still due from the open nodes of `stack`, innermost first.
pub open spec fn stack_steps(v: DocView, stack: Seq<(&DocumentNode, usize)>) -> Seq<Step>
    decreases stack.len(),
{
    if stack.len() == 0 {
        Seq::empty()
    } else {
        let (n, k) = stack.last();
        let fuel = (v.nodes.dom().len() - v.depth[n.id]) as nat;
        forest_steps(v, n.children@.skip(k as int), (fuel - 1) as nat) + seq![Step::Exit(n.id)]
            + stack_steps(v, stack.drop_last())
    }
}

impl<'a> StructuralEvents<'a> {
    /// The document being traversed.
    pub closed spec fn doc(&self) -> DocView {
        self.document@
    }

    /// The steps this traversal has yet to produce.
    pub closed spec fn remaining(&self) -> Seq<Step> {
        (match self.pending {
            Some(e) => seq![e.step()],
            None => Seq::empty(),
        }) + stack_steps(self.document@, self.stack@)
    }

    /// The traversal's bookkeeping is consistent with the document.
    pub closed spec fn inv(&self) -> bool {
        let v = self.document@;
        &&& self.document.wf()
        &&& forall|i: int|
            #![trigger self.stack@[i]]
            0 <= i < self.stack@.len() ==> {
                let (n, k) = self.stack@[i];
                &&& v.nodes.contains_key(n.id)
                &&& *n == v.nodes[n.id]
                &&& k <= n.children@.len()
            }
        &&& (self.pending matches Some(e) ==> v.nodes.contains_key(e.spec_node().id)
            && e.spec_node() == v.nodes[e.spec_node().id])
    }

    /// The next step of the traversal, if any.
    #[verifier::rlimit(40)]
    pub fn next(&mut self) -> (r: Option<StructuralEvent<'a>>)
        requires
            old(self).inv(),
        ensures
            final(self).inv(),
            old(self).remaining().len() == 0 ==> r is None && final(self).remaining().len() == 0,
            old(self).remaining().len() > 0 ==> (r matches Some(e) && e.step()
                == old(self).remaining()[0] && final(self).remaining()
                == old(self).remaining().drop_first()),
            final(self).doc() == old(self).doc(),
            r matches Some(e) ==> final(self).doc().nodes.contains_key(e.spec_node().id)
                && e.spec_node() == final(self).doc().nodes[e.spec_node().id],
    {
        let ghost v = self.document@;
        proof {
            self.document.lemma_tree();
        }
        if let Some(e) = self.pending.take() {
            proof {
                assert(old(self).remaining() =~= seq![e.step()] + stack_steps(v, self.stack@));
            }
            return Some(e);
        }
        proof {
            assert(old(self).remaining() =~= stack_steps(v, self.stack@));
        }
        let len = self.stack.len();
        if len == 0 {
            return None;
        }
        let (node, k) = self.stack[len - 1];
        let ghost rest = self.stack@.drop_last();
        let ghost fuel = (v.nodes.dom().len() - v.depth[node.id]) as nat;
        proof {
            assert(self.stack@[len - 1] == (node, k));
            lemma_depth_below_len(v, node.id);
            assert(node_ok(v, node.id));
        }
        if k < node.children.len() {
            let c = node.children[k];
            let child = match self.document.node(c) {
                Ok(n) => n,
                Err(_) => vstd::pervasive::unreached(),
            };
            proof {
                lemma_depth_below_len(v, c);
                assert(node_ok(v, c));
                assert(v.depth[c] == v.depth[node.id] + 1);
                assert(child.id == c);
                let kids = node.children@.skip(k as int);
                assert(kids[0] == c);
                assert(kids.drop_first() =~= node.children@.skip(k as int + 1));
            }
            self.stack.set(len - 1, (node, k + 1));
            if child.children.len() == 0 {
                proof {
                    assert(self.stack@.drop_last() == rest);
                    assert(subtree_steps(v, c, (fuel - 1) as nat) == seq![Step::Leaf(c)]);
                    assert(old(self).remaining() =~= seq![Step::Leaf(c)] + self.remaining());
                }
                return Some(StructuralEvent::Leaf(child));
            }
            self.stack.push((child, 0));
            proof {
                let st = self.stack@;
                let f1 = (fuel - 1) as nat;
                assert(st.drop_last().drop_last() == rest);
                assert(st.last() == (child, 0usize));
                assert(st.drop_last().last() == (node, (k + 1) as usize));
                assert(child.children@.skip(0) =~= child.children@);
                assert(v.nodes[c] == *child);
                assert((v.nodes.dom().len() - v.depth[c]) as nat == f1);
                assert(stack_steps(v, st) == forest_steps(v, child.children@.skip(0), (f1 - 1) as nat)
                    + seq![Step::Exit(c)] + stack_steps(v, st.drop_last()));
                assert(stack_steps(v, st.drop_last()) == forest_steps(v, node.children@.skip(k + 1), f1)
                    + seq![Step::Exit(node.id)] + stack_steps(v, rest));
                assert(forest_steps(v, node.children@.skip(k as int), f1) == subtree_steps(v, c, f1)
                    + forest_steps(v, node.children@.skip(k + 1), f1));
                assert(subtree_steps(v, c, f1) == seq![Step::Enter(c)] + forest_steps(v, child.children@, (f1 - 1) as nat)
                    + seq![Step::Exit(c)]);
                assert(old(self).remaining() =~= seq![Step::Enter(c)] + self.remaining());
            }
            return Some(StructuralEvent::Enter(child));
        }
        self.stack.pop();
        proof {
            assert(self.stack@ == rest);
            assert(node.children@.skip(k as int) =~= Seq::<NodeId>::empty());
            assert(old(self).remaining() =~= seq![Step::Exit(node.id)] + self.remaining());
        }
        Some(StructuralEvent::Exit(node))
    }
}

impl Document {
    /// Lazily traverse a node and its descendants in depth-first order.
    pub fn events(&self, root: NodeId) -> (r: Result<StructuralEvents<'_>, InvalidNodeId>)
        requires
            self.wf(),
        ensures
            r is Ok <==> self@.nodes.contains_key(root),
            r matches Ok(ev) ==> ev.inv() && ev.doc() == self@ && ev.remaining() == steps_of(self@, root),
            r matches Err(e) ==> e == InvalidNodeId(root),
    {
        let node = self.node(root)?;
        let ghost v = self@;
        proof {
            self.lemma_tree();
            lemma_depth_below_len(v, root);
            assert(node_ok(v, root));
        }
        let mut stack: Vec<(&DocumentNode, usize)> = Vec::new();
        let pending = if node.children.len() == 0 {
            Some(StructuralEvent::Leaf(node))
        } else {
            stack.push((node, 0));
            Some(StructuralEvent::Enter(node))
        };
        let ev = StructuralEvents { document: self, stack, pending };
        proof {
            let f = (v.nodes.dom().len() - v.depth[root]) as nat;
            assert(stack_steps(v, Seq::<(&DocumentNode, usize)>::empty()) == Seq::<Step>::empty());
            if node.children@.len() > 0 {
                assert(ev.stack@.drop_last() =~= Seq::<(&DocumentNode, usize)>::empty());
                assert(node.children@.skip(0) =~= node.children@);
                assert(ev.stack@.last() == (node, 0usize));
                assert(stack_steps(v, ev.stack@) == forest_steps(v, node.children@.skip(0), (f - 1) as nat)
                    + seq![Step::Exit(root)] + stack_steps(v, ev.stack@.drop_last()));
                assert(subtree_steps(v, root, f) == seq![Step::Enter(root)] + forest_steps(v, node.children@, (f - 1) as nat)
                    + seq![Step::Exit(root)]);
            } else {
                assert(ev.stack@ =~= Seq::<(&DocumentNode, usize)>::empty());
                assert(subtree_steps(v, root, f) == seq![Step::Leaf(root)]);
            }
            assert(ev.remaining() =~= steps_of(v, root));
        }
        Ok(ev)
    }
}

} // verus!
