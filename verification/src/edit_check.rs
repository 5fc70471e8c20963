//! Checking the source-map and structural edits of a batch against a
//! document, and applying the source-map edits.
use vstd::prelude::*;
use vstd::utf8::encode_utf8_valid_utf8;

use crate::arena::{contains_id, NodeId};
use crate::document::{kept_or_retired, Document, DocView, DocumentNode, node_ok};
use crate::edit::{BatchView, EditError, EditSourceMap, InsertSibling, ReplaceNode};
use crate::edit_spec::{
    edited, error_holds, stage_reports, insertions_valid, live, nested_in, referenced, removals_valid,
    replaced_targets, replacements_valid, srcmap_ok, srcmaps_valid, twice,
};
use crate::node::SourcePos;
use crate::subtree::{disjoint_roots, in_subtree};
use crate::utf8text::{byte_len, utf8};

verus! {

/// Check every source-map edit: a live node, a valid position, and at most
/// one edit per node.
pub(crate) fn validate_srcmaps(doc: &Document, s: &[EditSourceMap], Ghost(b): Ghost<BatchView>) -> (r: Result<(), EditError>)
    requires
        doc.wf(),
        b.srcmaps == s@,
    ensures
        r is Ok <==> srcmaps_valid(doc@, s@),
        r matches Err(e) ==> error_holds(doc@, b, e),
        r matches Err(e) ==> stage_reports(2, b, e),
{
    let source = doc.source();
    let len = byte_len(source);
    proof {
        encode_utf8_valid_utf8(source@);
    }
    let mut i: usize = 0;
    while i < s.len()
        invariant
            i <= s@.len(),
            b.srcmaps == s@,
            source@ == doc@.source,
            len == utf8(source@).len(),
            forall|q: int|
                #![trigger s@[q]]
                0 <= q < i ==> live(doc@, s@[q].node) && (s@[q].source_map matches Some(p)
                    ==> srcmap_ok(doc@, p)),
        decreases s@.len() - i,
    {
        let node = s[i].node;
        match doc.node(node) {
            Ok(_) => {},
            Err(e) => {
                proof {
                    assert(b.srcmaps[i as int].node == node);
                    assert(edited(b, node));
                }
                return Err(EditError::InvalidNode(e));
            },
        }
        match s[i].source_map {
            Some(p) => {
                let (start, end) = p.get_byte_offsets();
                if start > end || end > len || !source.is_char_boundary(start)
                    || !source.is_char_boundary(end) {
                    proof {
                        assert(b.srcmaps[i as int].source_map == Some(SourcePos { start, end }));
                    }
                    return Err(EditError::InvalidSourceMap { node, start, end });
                }
            },
            None => {},
        }
        i = i + 1;
    }
    let mut i: usize = 0;
    while i < s.len()
        invariant
            i <= s@.len(),
            b.srcmaps == s@,
            forall|q: int|
                #![trigger s@[q]]
                0 <= q < s@.len() ==> live(doc@, s@[q].node) && (s@[q].source_map matches Some(p)
                    ==> srcmap_ok(doc@, p)),
            forall|x: int, y: int|
                #![trigger s@[x], s@[y]]
                0 <= x < i && 0 <= y < s@.len() && x != y ==> s@[x].node != s@[y].node,
        decreases s@.len() - i,
    {
        let mut j: usize = i + 1;
        while j < s.len()
            invariant
                i < j <= s@.len(),
                i < s@.len(),
                b.srcmaps == s@,
                forall|q: int| #![trigger s@[q]] 0 <= q < s@.len() ==> live(doc@, s@[q].node),
                forall|y: int| #![trigger s@[y]] i < y < j ==> s@[i as int].node != s@[y].node,
            decreases s@.len() - j,
        {
            if s[i].node == s[j].node {
                proof {
                    assert(b.srcmaps[i as int] == s@[i as int]);
                    assert(b.srcmaps[j as int] == s@[j as int]);
                }
                return Err(EditError::ConflictingSourceMapEdits { node: s[i].node });
            }
            j = j + 1;
        }
        proof {
            assert forall|x: int, y: int|
                #![trigger s@[x], s@[y]]
                0 <= x < i + 1 && 0 <= y < s@.len() && x != y implies s@[x].node != s@[y].node by {
                if x == i && y < i {
                    assert(s@[y].node != s@[x].node);
                }
            }
        }
        i = i + 1;
    }
    Ok(())
}

/// `w` is `v` with the source-map edits `s` applied.
pub open spec fn srcmaps_applied(v: DocView, w: DocView, s: Seq<EditSourceMap>) -> bool {
    &&& w.source == v.source
    &&& w.root == v.root
    &&& w.depth == v.depth
    &&& w.nodes.dom() == v.nodes.dom()
    &&& forall|n: NodeId|
        #[trigger] w.nodes.contains_key(n) ==> if exists|i: int|
            #![trigger s[i]]
            0 <= i < s.len() && s[i].node == n {
            exists|i: int|
                #![trigger s[i]]
                0 <= i < s.len() && s[i].node == n && w.nodes[n] == DocumentNode {
                    srcmap: s[i].source_map,
                    ..v.nodes[n]
                }
        } else {
            w.nodes[n] == v.nodes[n]
        }
}

/// Apply the source-map edits.
pub fn apply_srcmaps(doc: &mut Document, s: &[EditSourceMap])
    requires
        old(doc).wf(),
        srcmaps_valid(old(doc)@, s@),
    ensures
        final(doc).wf(),
        srcmaps_applied(old(doc)@, final(doc)@, s@),
        final(doc).room() == old(doc).room(),
        forall|x: NodeId| old(doc).stale(x) ==> final(doc).stale(x),
        kept_or_retired(*old(doc), *final(doc)),
{
    let ghost v = doc@;
    let mut i: usize = 0;
    while i < s.len()
        invariant
            i <= s@.len(),
            srcmaps_valid(v, s@),
            doc.wf(),
            doc.room() == old(doc).room(),
            forall|x: NodeId| old(doc).stale(x) ==> doc.stale(x),
            old(doc)@ == v,
            doc@.source == v.source,
            doc@.root == v.root,
            doc@.depth == v.depth,
            doc@.nodes.dom() == v.nodes.dom(),
            forall|n: NodeId|
                #[trigger] doc@.nodes.contains_key(n) ==> if exists|q: int|
                    #![trigger s@[q]]
                    0 <= q < i && s@[q].node == n {
                    exists|q: int|
                        #![trigger s@[q]]
                        0 <= q < i && s@[q].node == n && doc@.nodes[n] == DocumentNode {
                            srcmap: s@[q].source_map,
                            ..v.nodes[n]
                        }
                } else {
                    doc@.nodes[n] == v.nodes[n]
                },
        decreases s@.len() - i,
    {
        let node = s[i].node;
        proof {
            assert(live(v, s@[i as int].node));
            assert(!exists|q: int| #![trigger s@[q]] 0 <= q < i && s@[q].node == node);
        }
        doc.replace_srcmap(node, s[i].source_map);
        proof {
            assert forall|n: NodeId| #[trigger] doc@.nodes.contains_key(n) implies if exists|q: int|
                #![trigger s@[q]]
                0 <= q < i + 1 && s@[q].node == n {
                exists|q: int|
                    #![trigger s@[q]]
                    0 <= q < i + 1 && s@[q].node == n && doc@.nodes[n] == DocumentNode {
                        srcmap: s@[q].source_map,
                        ..v.nodes[n]
                    }
            } else {
                doc@.nodes[n] == v.nodes[n]
            } by {
                if n == node {
                    assert(s@[i as int].node == n);
                } else if exists|q: int| #![trigger s@[q]] 0 <= q < i + 1 && s@[q].node == n {
                    let q = choose|q: int| #![trigger s@[q]] 0 <= q < i + 1 && s@[q].node == n;
                    assert(q < i);
                }
            }
        }
        i = i + 1;
    }
    proof {
        assert forall|n: NodeId| #[trigger] doc@.nodes.contains_key(n) implies (exists|q: int|
            #![trigger s@[q]]
            0 <= q < s@.len() && s@[q].node == n) == (exists|q: int|
            #![trigger s@[q]]
            0 <= q < i && s@[q].node == n) by {}
    }
    proof {
        reveal(kept_or_retired);
    }
}

/// Whether `x` occurs among the first `i` entries of `s`.
fn occurs_before(s: &[NodeId], i: usize, x: NodeId) -> (r: bool)
    requires
        i <= s@.len(),
    ensures
        r == exists|j: int| 0 <= j < i && s@[j] == x,
{
    let mut j: usize = 0;
    while j < i
        invariant
            j <= i,
            i <= s@.len(),
            forall|q: int| 0 <= q < j ==> s@[q] != x,
        decreases i - j,
    {
        if s[j] == x {
            return true;
        }
        j = j + 1;
    }
    false
}

/// The nodes that text, attribute and source-map edits name.
pub fn edited_nodes(
    t: &[crate::edit::ReplaceText],
    a: &[crate::edit::EditAttribute],
    s: &[EditSourceMap],
    Ghost(b): Ghost<BatchView>,
) -> (r: Vec<NodeId>)
    requires
        b.text == t@,
        b.attrs == a@,
        b.srcmaps == s@,
    ensures
        forall|n: NodeId| r@.contains(n) <==> edited(b, n),
{
    let mut r: Vec<NodeId> = Vec::new();
    let mut i: usize = 0;
    while i < t.len()
        invariant
            i <= t@.len(),
            b.text == t@,
            forall|n: NodeId| r@.contains(n) <==> exists|q: int| #![trigger t@[q]] 0 <= q < i && t@[q].node == n,
        decreases t@.len() - i,
    {
        let ghost old_r = r@;
        r.push(t[i].node);
        proof {
            assert forall|n: NodeId| r@.contains(n) <==> exists|q: int| #![trigger t@[q]] 0 <= q < i + 1 && t@[q].node == n by {
                if r@.contains(n) {
                    let k = choose|k: int| 0 <= k < r@.len() && r@[k] == n;
                    if k < old_r.len() {
                        assert(old_r[k] == n);
                        assert(old_r.contains(n));
                    }
                }
                if exists|q: int| #![trigger t@[q]] 0 <= q < i + 1 && t@[q].node == n {
                    let q = choose|q: int| #![trigger t@[q]] 0 <= q < i + 1 && t@[q].node == n;
                    if q < i {
                        assert(old_r.contains(n));
                        let k = choose|k: int| 0 <= k < old_r.len() && old_r[k] == n;
                        assert(r@[k] == n);
                    } else {
                        assert(r@[old_r.len() as int] == n);
                    }
                }
            }
        }
        i = i + 1;
    }
    let mut i: usize = 0;
    while i < a.len()
        invariant
            i <= a@.len(),
            b.attrs == a@,
            forall|n: NodeId| r@.contains(n) <==> ((exists|q: int| #![trigger t@[q]] 0 <= q < t@.len() && t@[q].node == n) || exists|q: int| #![trigger a@[q]] 0 <= q < i && a@[q].node == n),
        decreases a@.len() - i,
    {
        let ghost old_r = r@;
        r.push(a[i].node);
        proof {
            assert forall|n: NodeId| r@.contains(n) <==> ((exists|q: int| #![trigger t@[q]] 0 <= q < t@.len() && t@[q].node == n) || exists|q: int| #![trigger a@[q]] 0 <= q < i + 1 && a@[q].node == n) by {
                if r@.contains(n) {
                    let k = choose|k: int| 0 <= k < r@.len() && r@[k] == n;
                    if k < old_r.len() {
                        assert(old_r[k] == n);
                        assert(old_r.contains(n));
                    }
                }
                if (exists|q: int| #![trigger t@[q]] 0 <= q < t@.len() && t@[q].node == n) || exists|q: int| #![trigger a@[q]] 0 <= q < i + 1 && a@[q].node == n {
                    if (exists|q: int| #![trigger t@[q]] 0 <= q < t@.len() && t@[q].node == n) || exists|q: int| #![trigger a@[q]] 0 <= q < i && a@[q].node == n {
                        assert(old_r.contains(n));
                        let k = choose|k: int| 0 <= k < old_r.len() && old_r[k] == n;
                        assert(r@[k] == n);
                    } else {
                        assert(r@[old_r.len() as int] == n);
                    }
                }
            }
        }
        i = i + 1;
    }
    let mut i: usize = 0;
    while i < s.len()
        invariant
            i <= s@.len(),
            b.srcmaps == s@,
            forall|n: NodeId| r@.contains(n) <==> (((exists|q: int| #![trigger t@[q]] 0 <= q < t@.len() && t@[q].node == n) || (exists|q: int| #![trigger a@[q]] 0 <= q < a@.len() && a@[q].node == n)) || exists|q: int| #![trigger s@[q]] 0 <= q < i && s@[q].node == n),
        decreases s@.len() - i,
    {
        let ghost old_r = r@;
        r.push(s[i].node);
        proof {
            assert forall|n: NodeId| r@.contains(n) <==> (((exists|q: int| #![trigger t@[q]] 0 <= q < t@.len() && t@[q].node == n) || (exists|q: int| #![trigger a@[q]] 0 <= q < a@.len() && a@[q].node == n)) || exists|q: int| #![trigger s@[q]] 0 <= q < i + 1 && s@[q].node == n) by {
                if r@.contains(n) {
                    let k = choose|k: int| 0 <= k < r@.len() && r@[k] == n;
                    if k < old_r.len() {
                        assert(old_r[k] == n);
                        assert(old_r.contains(n));
                    }
                }
                if ((exists|q: int| #![trigger t@[q]] 0 <= q < t@.len() && t@[q].node == n) || (exists|q: int| #![trigger a@[q]] 0 <= q < a@.len() && a@[q].node == n)) || exists|q: int| #![trigger s@[q]] 0 <= q < i + 1 && s@[q].node == n {
                    if ((exists|q: int| #![trigger t@[q]] 0 <= q < t@.len() && t@[q].node == n) || (exists|q: int| #![trigger a@[q]] 0 <= q < a@.len() && a@[q].node == n)) || exists|q: int| #![trigger s@[q]] 0 <= q < i && s@[q].node == n {
                        assert(old_r.contains(n));
                        let k = choose|k: int| 0 <= k < old_r.len() && old_r[k] == n;
                        assert(r@[k] == n);
                    } else {
                        assert(r@[old_r.len() as int] == n);
                    }
                }
            }
        }
        i = i + 1;
    }
    proof {
        assert forall|n: NodeId| r@.contains(n) <==> edited(b, n) by {
            if edited(b, n) {
                if exists|q: int| #![trigger b.text[q]] 0 <= q < b.text.len() && b.text[q].node == n {
                    let q = choose|q: int| #![trigger b.text[q]] 0 <= q < b.text.len() && b.text[q].node == n;
                    assert(t@[q].node == n);
                } else if exists|q: int| #![trigger b.attrs[q]] 0 <= q < b.attrs.len() && b.attrs[q].node == n {
                    let q = choose|q: int| #![trigger b.attrs[q]] 0 <= q < b.attrs.len() && b.attrs[q].node == n;
                    assert(a@[q].node == n);
                } else {
                    let q = choose|q: int| #![trigger b.srcmaps[q]] 0 <= q < b.srcmaps.len() && b.srcmaps[q].node == n;
                    assert(s@[q].node == n);
                }
            }
            if r@.contains(n) {
                if (exists|q: int| #![trigger t@[q]] 0 <= q < t@.len() && t@[q].node == n) {
                    let q = choose|q: int| #![trigger t@[q]] 0 <= q < t@.len() && t@[q].node == n;
                    assert(b.text[q].node == n);
                } else if (exists|q: int| #![trigger a@[q]] 0 <= q < a@.len() && a@[q].node == n) {
                    let q = choose|q: int| #![trigger a@[q]] 0 <= q < a@.len() && a@[q].node == n;
                    assert(b.attrs[q].node == n);
                } else {
                    let q = choose|q: int| #![trigger s@[q]] 0 <= q < s@.len() && s@[q].node == n;
                    assert(b.srcmaps[q].node == n);
                }
            }
        }
    }
    r
}

/// Check a list of subtree roots: live, not the document root, and each
/// listed once. `Err(Ok(x))` names a dead node, `Err(Err((x, true)))` the
/// root and `Err(Err((x, false)))` a repeated node.
fn check_roots(doc: &Document, roots: &[NodeId]) -> (r: Result<(), Result<NodeId, (NodeId, bool)>>)
    requires
        doc.wf(),
    ensures
        r is Ok ==> roots@.no_duplicates() && forall|i: int|
            #![trigger roots@[i]]
            0 <= i < roots@.len() ==> live(doc@, roots@[i]) && roots@[i] != doc@.root,
        r matches Err(Ok(x)) ==> roots@.contains(x) && !live(doc@, x),
        r matches Err(Err((x, is_root))) ==> roots@.contains(x) && (if is_root {
            x == doc@.root
        } else {
            twice(roots@, x) && live(doc@, x)
        }),
{
    let mut i: usize = 0;
    while i < roots.len()
        invariant
            i <= roots@.len(),
            forall|q: int|
                #![trigger roots@[q]]
                0 <= q < i ==> live(doc@, roots@[q]) && roots@[q] != doc@.root,
            forall|x: int, y: int| 0 <= x < i && 0 <= y < i && x != y ==> roots@[x] != roots@[y],
        decreases roots@.len() - i,
    {
        let x = roots[i];
        proof {
            assert(roots@[i as int] == x);
        }
        match doc.node(x) {
            Ok(_) => {},
            Err(_) => {
                return Err(Ok(x));
            },
        }
        if x == doc.root() {
            return Err(Err((x, true)));
        }
        if occurs_before(roots, i, x) {
            proof {
                let j = choose|j: int| 0 <= j < i && roots@[j] == x;
                assert(roots@[j] == x && roots@[i as int] == x);
            }
            return Err(Err((x, false)));
        }
        i = i + 1;
    }
    Ok(())
}

/// Check that no root lies strictly inside another root's subtree.
fn check_nesting(doc: &Document, roots: &[NodeId]) -> (r: Option<(NodeId, NodeId)>)
    requires
        doc.wf(),
        forall|i: int| #![trigger roots@[i]] 0 <= i < roots@.len() ==> live(doc@, roots@[i]),
    ensures
        r matches Some((a, d)) ==> nested_in(doc@, roots@, a, d),
        r is None ==> forall|i: int, j: int|
            #![trigger roots@[i], roots@[j]]
            0 <= i < roots@.len() && 0 <= j < roots@.len() && in_subtree(doc@, roots@[i], roots@[j])
                ==> roots@[i] == roots@[j],
{
    let mut j: usize = 0;
    while j < roots.len()
        invariant
            j <= roots@.len(),
            doc.wf(),
            forall|i: int| #![trigger roots@[i]] 0 <= i < roots@.len() ==> live(doc@, roots@[i]),
            forall|i: int, q: int|
                #![trigger roots@[i], roots@[q]]
                0 <= i < roots@.len() && 0 <= q < j && in_subtree(doc@, roots@[i], roots@[q])
                    ==> roots@[i] == roots@[q],
        decreases roots@.len() - j,
    {
        let d = roots[j];
        proof {
            assert(live(doc@, roots@[j as int]));
        }
        match doc.nearest_in(d, roots, false) {
            Some(a) => {
                proof {
                    assert(roots@[j as int] == d);
                }
                return Some((a, d));
            },
            None => {
                proof {
                    assert forall|i: int| #![trigger roots@[i]] 0 <= i < roots@.len() && in_subtree(doc@, roots@[i], d) implies roots@[i] == d by {
                        assert(roots@.contains(roots@[i]));
                    }
                }
            },
        }
        j = j + 1;
    }
    None
}

/// The first of `nodes` that lies in the subtree of one of `roots`, with that
/// root.
fn find_inside(doc: &Document, nodes: &[NodeId], roots: &[NodeId]) -> (r: Option<(NodeId, NodeId)>)
    requires
        doc.wf(),
        forall|i: int| #![trigger nodes@[i]] 0 <= i < nodes@.len() ==> live(doc@, nodes@[i]),
    ensures
        r matches Some((root, n)) ==> roots@.contains(root) && nodes@.contains(n) && in_subtree(
            doc@,
            root,
            n,
        ),
        r is None ==> forall|i: int, n: NodeId|
            #![trigger roots@[i], nodes@.contains(n)]
            0 <= i < roots@.len() && nodes@.contains(n) ==> !in_subtree(doc@, roots@[i], n),
{
    let mut j: usize = 0;
    while j < nodes.len()
        invariant
            j <= nodes@.len(),
            doc.wf(),
            forall|i: int| #![trigger nodes@[i]] 0 <= i < nodes@.len() ==> live(doc@, nodes@[i]),
            forall|i: int, q: int|
                #![trigger roots@[i], nodes@[q]]
                0 <= i < roots@.len() && 0 <= q < j ==> !in_subtree(doc@, roots@[i], nodes@[q]),
        decreases nodes@.len() - j,
    {
        let n = nodes[j];
        proof {
            assert(live(doc@, nodes@[j as int]));
        }
        match doc.nearest_in(n, roots, true) {
            Some(a) => {
                proof {
                    assert(nodes@[j as int] == n);
                }
                return Some((a, n));
            },
            None => {
                proof {
                    assert forall|i: int| #![trigger roots@[i]] 0 <= i < roots@.len() implies !in_subtree(doc@, roots@[i], n) by {
                        assert(roots@.contains(roots@[i]));
                    }
                }
            },
        }
        j = j + 1;
    }
    proof {
        assert forall|i: int, n: NodeId|
            #![trigger roots@[i], nodes@.contains(n)]
            0 <= i < roots@.len() && nodes@.contains(n) implies !in_subtree(doc@, roots@[i], n) by {
            let q = choose|q: int| 0 <= q < nodes@.len() && nodes@[q] == n;
            assert(!in_subtree(doc@, roots@[i], nodes@[q]));
        }
    }
    None
}

/// Check the removals: live non-root nodes, each once, none inside another,
/// and no value edit inside any of them.
#[verifier::rlimit(40)]
pub(crate) fn validate_removals(doc: &Document, removals: &[NodeId], edited_list: &[NodeId], Ghost(b): Ghost<BatchView>) -> (r: Result<(), EditError>)
    requires
        doc.wf(),
        b.removals == removals@,
        forall|n: NodeId| edited_list@.contains(n) <==> edited(b, n),
        forall|n: NodeId| edited(b, n) ==> live(doc@, n),
    ensures
        r is Ok <==> removals_valid(doc@, b),
        r matches Err(e) ==> error_holds(doc@, b, e),
        r matches Err(e) ==> stage_reports(3, b, e),
{
    match check_roots(doc, removals) {
        Ok(()) => {},
        Err(Ok(x)) => {
            return Err(EditError::InvalidNode(crate::document::InvalidNodeId(x)));
        },
        Err(Err((x, true))) => {
            return Err(EditError::CannotRemoveRoot(x));
        },
        Err(Err((x, false))) => {
            return Err(EditError::DuplicateNodeRemoval(x));
        },
    }
    match check_nesting(doc, removals) {
        Some((a, d)) => {
            return Err(EditError::OverlappingNodeRemovals { ancestor: a, descendant: d });
        },
        None => {},
    }
    proof {
        assert forall|i: int| #![trigger edited_list@[i]] 0 <= i < edited_list@.len() implies live(doc@, edited_list@[i]) by {
            assert(edited_list@.contains(edited_list@[i]));
            assert(edited(b, edited_list@[i]));
        }
        assert(disjoint_roots(doc@, removals@));
    }
    match find_inside(doc, edited_list, removals) {
        Some((root, n)) => {
            return Err(EditError::EditTargetsRemovedNode { removed: root, edited: n });
        },
        None => {},
    }
    proof {
        assert forall|i: int, e: NodeId| 0 <= i < b.removals.len() && edited(b, e) implies !#[trigger] in_subtree(doc@, b.removals[i], e) by {
            assert(edited_list@.contains(e));
            assert(!in_subtree(doc@, removals@[i], e));
        }
    }
    Ok(())
}

/// The targets of the insertions, in call order.
pub fn insertion_targets(ins: &[InsertSibling]) -> (r: Vec<NodeId>)
    ensures
        r@.len() == ins@.len(),
        forall|k: int| #![trigger r@[k]] 0 <= k < ins@.len() ==> r@[k] == ins@[k].target,
{
    let mut r: Vec<NodeId> = Vec::new();
    let mut k: usize = 0;
    while k < ins.len()
        invariant
            k <= ins@.len(),
            r@.len() == k,
            forall|q: int| #![trigger r@[q]] 0 <= q < k ==> r@[q] == ins@[q].target,
        decreases ins@.len() - k,
    {
        r.push(ins[k].target);
        k = k + 1;
    }
    r
}

/// The targets of the replacements, in call order.
pub fn replacement_targets(p: &[ReplaceNode]) -> (r: Vec<NodeId>)
    ensures
        r@ == replaced_targets(p@),
{
    let mut r: Vec<NodeId> = Vec::new();
    let mut k: usize = 0;
    while k < p.len()
        invariant
            k <= p@.len(),
            r@ == replaced_targets(p@.take(k as int)),
        decreases p@.len() - k,
    {
        r.push(p[k].target);
        proof {
            assert(replaced_targets(p@.take(k as int + 1)) =~= replaced_targets(p@.take(k as int)).push(p@[k as int].target));
        }
        k = k + 1;
    }
    proof {
        assert(p@.take(p@.len() as int) =~= p@);
    }
    r
}

/// Check the insertions: each targets a live non-root node outside every
/// removed subtree.
pub(crate) fn validate_insertions(doc: &Document, targets: &[NodeId], removals: &[NodeId], Ghost(b): Ghost<BatchView>) -> (r: Result<(), EditError>)
    requires
        doc.wf(),
        b.removals == removals@,
        targets@.len() == b.insertions.len(),
        forall|k: int| #![trigger targets@[k]] 0 <= k < targets@.len() ==> targets@[k] == b.insertions[k].target,
    ensures
        r is Ok <==> insertions_valid(doc@, b),
        r matches Err(e) ==> error_holds(doc@, b, e),
        r matches Err(e) ==> stage_reports(4, b, e),
{
    proof {
        doc.lemma_tree();
    }
    let mut k: usize = 0;
    while k < targets.len()
        invariant
            k <= targets@.len(),
            doc.wf(),
            crate::document::tree_wf(doc@),
            b.removals == removals@,
            targets@.len() == b.insertions.len(),
            forall|q: int| #![trigger targets@[q]] 0 <= q < targets@.len() ==> targets@[q] == b.insertions[q].target,
            forall|q: int|
                #![trigger b.insertions[q]]
                0 <= q < k ==> live(doc@, b.insertions[q].target) && b.insertions[q].target != doc@.root
                    && forall|i: int| 0 <= i < b.removals.len() ==> !#[trigger] in_subtree(doc@, b.removals[i], b.insertions[q].target),
        decreases targets@.len() - k,
    {
        let t = targets[k];
        proof {
            assert(b.insertions[k as int].target == t);
        }
        let parent = match doc.node(t) {
            Ok(n) => n.parent(),
            Err(e) => {
                return Err(EditError::InvalidNode(e));
            },
        };
        if parent.is_none() {
            proof {
                assert(node_ok(doc@, t));
            }
            return Err(EditError::CannotInsertSiblingOfRoot(t));
        }
        proof {
            assert(node_ok(doc@, t));
        }
        match doc.nearest_in(t, removals, true) {
            Some(a) => {
                return Err(EditError::InsertionTargetsRemovedNode { removed: a, target: t });
            },
            None => {
                proof {
                    assert forall|i: int| 0 <= i < b.removals.len() implies !#[trigger] in_subtree(doc@, b.removals[i], t) by {
                        assert(removals@.contains(removals@[i]));
                    }
                }
            },
        }
        k = k + 1;
    }
    Ok(())
}

/// Check the replacements: live non-root targets, each once, none inside
/// another, none overlapping a removal, and no value edit or insertion inside
/// any of them.
#[verifier::rlimit(40)]
pub(crate) fn validate_replacements(
    doc: &Document,
    targets: &[NodeId],
    removals: &[NodeId],
    edited_list: &[NodeId],
    ins_targets: &[NodeId],
    Ghost(b): Ghost<BatchView>,
) -> (r: Result<(), EditError>)
    requires
        doc.wf(),
        targets@ == replaced_targets(b.replacements),
        b.removals == removals@,
        forall|i: int| #![trigger removals@[i]] 0 <= i < removals@.len() ==> live(doc@, removals@[i]),
        forall|n: NodeId| edited_list@.contains(n) <==> edited(b, n),
        forall|n: NodeId| edited(b, n) ==> live(doc@, n),
        ins_targets@.len() == b.insertions.len(),
        forall|k: int| #![trigger ins_targets@[k]] 0 <= k < ins_targets@.len() ==> ins_targets@[k] == b.insertions[k].target,
        forall|k: int| #![trigger ins_targets@[k]] 0 <= k < ins_targets@.len() ==> live(doc@, ins_targets@[k]),
    ensures
        r is Ok <==> replacements_valid(doc@, b),
        r matches Err(e) ==> error_holds(doc@, b, e),
        r matches Err(e) ==> stage_reports(5, b, e),
{
    let ghost p = replaced_targets(b.replacements);
    match check_roots(doc, targets) {
        Ok(()) => {},
        Err(Ok(x)) => {
            return Err(EditError::InvalidNode(crate::document::InvalidNodeId(x)));
        },
        Err(Err((x, true))) => {
            return Err(EditError::CannotReplaceRoot(x));
        },
        Err(Err((x, false))) => {
            return Err(EditError::DuplicateNodeReplacement(x));
        },
    }
    match check_nesting(doc, targets) {
        Some((a, d)) => {
            return Err(EditError::OverlappingNodeReplacements { ancestor: a, descendant: d });
        },
        None => {},
    }
    proof {
        assert(disjoint_roots(doc@, p));
    }
    match find_inside(doc, targets, removals) {
        Some((removed, t)) => {
            return Err(EditError::ConflictingNodeRemovalAndReplacement { removed, replaced: t });
        },
        None => {},
    }
    match find_inside(doc, removals, targets) {
        Some((replaced, rm)) => {
            return Err(EditError::ConflictingNodeRemovalAndReplacement { removed: rm, replaced });
        },
        None => {},
    }
    proof {
        assert forall|i: int| #![trigger edited_list@[i]] 0 <= i < edited_list@.len() implies live(doc@, edited_list@[i]) by {
            assert(edited_list@.contains(edited_list@[i]));
            assert(edited(b, edited_list@[i]));
        }
    }
    match find_inside(doc, edited_list, targets) {
        Some((replaced, e)) => {
            return Err(EditError::EditTargetsReplacedNode { replaced, edited: e });
        },
        None => {},
    }
    match find_inside(doc, ins_targets, targets) {
        Some((replaced, t)) => {
            proof {
                let k = choose|k: int| 0 <= k < ins_targets@.len() && ins_targets@[k] == t;
                assert(b.insertions[k].target == t);
            }
            return Err(EditError::InsertionTargetsReplacedNode { replaced, target: t });
        },
        None => {},
    }
    proof {
        assert forall|k: int, i: int|
            #![trigger p[k], b.removals[i]]
            0 <= k < p.len() && 0 <= i < b.removals.len() implies !in_subtree(doc@, b.removals[i], p[k])
                && !in_subtree(doc@, p[k], b.removals[i]) by {
            assert(targets@.contains(p[k]));
            assert(removals@.contains(b.removals[i]));
        }
        assert forall|k: int, e: NodeId| 0 <= k < p.len() && edited(b, e) implies !#[trigger] in_subtree(doc@, p[k], e) by {
            assert(edited_list@.contains(e));
        }
        assert forall|k: int, m: int|
            #![trigger p[k], b.insertions[m]]
            0 <= k < p.len() && 0 <= m < b.insertions.len() implies !in_subtree(doc@, p[k], b.insertions[m].target) by {
            assert(ins_targets@[m] == b.insertions[m].target);
            assert(ins_targets@.contains(b.insertions[m].target));
        }
    }
    Ok(())
}

} // verus!
