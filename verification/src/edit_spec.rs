//! When an edit batch is valid for a document, which errors it can be
//! refused with, and what committing it does.
use vstd::prelude::*;
use vstd::utf8::is_char_boundary;

use crate::arena::NodeId;
use crate::document::{DocView, InvalidNodeId};
use crate::edit::{
    replacement_bytes, AttributeChange, BatchView, EditAttribute, EditError, EditSourceMap,
    InsertSibling, ReplaceNode, ReplaceText, SiblingPosition, WrapRange,
};
use crate::node::{HtmlAttribute, SourcePos};
use crate::subtree::{disjoint_roots, in_subtree};
use crate::utf8text::utf8;

verus! {

/// `n` is a live node of the document.
pub open spec fn live(v: DocView, n: NodeId) -> bool {
    v.nodes.contains_key(n)
}

/// The UTF-8 bytes of the content of the `Text` node `n`.
pub open spec fn text_bytes(v: DocView, n: NodeId) -> Seq<u8> {
    utf8(v.nodes[n].node_value->Text_0.content@)
}

/// `start..end` is an ordered range of `bytes` whose ends fall on character
/// boundaries.
pub open spec fn range_ok(bytes: Seq<u8>, start: int, end: int) -> bool {
    &&& start <= end <= bytes.len()
    &&& is_char_boundary(bytes, start)
    &&& is_char_boundary(bytes, end)
}

/// Text edits are ordered by start, then end, then call order.
pub open spec fn text_key_lt(t: Seq<ReplaceText>, i: int, j: int) -> bool {
    ||| t[i].start < t[j].start
    ||| (t[i].start == t[j].start && t[i].end < t[j].end)
    ||| (t[i].start == t[j].start && t[i].end == t[j].end && i < j)
}

/// Text edit `i` names a live `Text` node.
pub open spec fn text_target_ok(v: DocView, t: Seq<ReplaceText>, i: int) -> bool {
    live(v, t[i].node) && v.nodes[t[i].node].node_value is Text
}

/// Text edit `i` has a valid range in its node's content.
pub open spec fn text_range_ok(v: DocView, t: Seq<ReplaceText>, i: int) -> bool {
    range_ok(text_bytes(v, t[i].node), t[i].start as int, t[i].end as int)
}

/// Text edit `j` comes after text edit `i` on the same node but starts
/// before `i` ends.
pub open spec fn texts_overlap(t: Seq<ReplaceText>, i: int, j: int) -> bool {
    &&& i != j
    &&& t[i].node == t[j].node
    &&& text_key_lt(t, i, j)
    &&& t[j].start < t[i].end
}

/// Every text edit targets a live `Text` node with a valid range, and no two
/// edits of one node overlap.
pub open spec fn text_valid(v: DocView, t: Seq<ReplaceText>) -> bool {
    &&& forall|i: int|
        #![trigger t[i]]
        0 <= i < t.len() ==> text_target_ok(v, t, i) && text_range_ok(v, t, i)
    &&& forall|i: int, j: int|
        0 <= i < t.len() && 0 <= j < t.len() ==> !#[trigger] texts_overlap(t, i, j)
}

/// Total length in bytes of all replacements.
pub open spec fn replacement_total(t: Seq<ReplaceText>) -> nat
    decreases t.len(),
{
    if t.len() == 0 {
        0
    } else {
        replacement_total(t.drop_last()) + replacement_bytes(t.last().replacement).len()
    }
}

/// Every attribute edit names a live node, and no node has two edits of one
/// attribute name.
pub open spec fn attrs_valid(v: DocView, a: Seq<EditAttribute>) -> bool {
    &&& forall|i: int| #![trigger a[i]] 0 <= i < a.len() ==> live(v, a[i].node)
    &&& forall|i: int, j: int|
        #![trigger a[i], a[j]]
        0 <= i < a.len() && 0 <= j < a.len() && i != j ==> !(a[i].node == a[j].node && a[i].name@
            == a[j].name@)
}

/// A source position is an ordered range of the document's source bytes on
/// character boundaries.
pub open spec fn srcmap_ok(v: DocView, p: SourcePos) -> bool {
    range_ok(utf8(v.source), p.start as int, p.end as int)
}

/// Every source-map edit names a live node, at most one per node, with a
/// valid position.
pub open spec fn srcmaps_valid(v: DocView, s: Seq<EditSourceMap>) -> bool {
    &&& forall|i: int|
        #![trigger s[i]]
        0 <= i < s.len() ==> live(v, s[i].node) && (s[i].source_map matches Some(p) ==> srcmap_ok(
            v,
            p,
        ))
    &&& forall|i: int, j: int|
        #![trigger s[i], s[j]]
        0 <= i < s.len() && 0 <= j < s.len() && i != j ==> s[i].node != s[j].node
}

/// `n` is the node of some text, attribute or source-map edit.
pub open spec fn edited(b: BatchView, n: NodeId) -> bool {
    ||| exists|i: int| #![trigger b.text[i]] 0 <= i < b.text.len() && b.text[i].node == n
    ||| exists|i: int| #![trigger b.attrs[i]] 0 <= i < b.attrs.len() && b.attrs[i].node == n
    ||| exists|i: int| #![trigger b.srcmaps[i]] 0 <= i < b.srcmaps.len() && b.srcmaps[i].node == n
}

/// The removals are disjoint subtrees that no value edit reaches into.
pub open spec fn removals_valid(v: DocView, b: BatchView) -> bool {
    &&& disjoint_roots(v, b.removals)
    &&& forall|i: int, e: NodeId|
        0 <= i < b.removals.len() && edited(b, e) ==> !#[trigger] in_subtree(v, b.removals[i], e)
}

/// Every insertion targets a live non-root node outside the removed subtrees.
pub open spec fn insertions_valid(v: DocView, b: BatchView) -> bool {
    forall|k: int|
        #![trigger b.insertions[k]]
        0 <= k < b.insertions.len() ==> {
            &&& live(v, b.insertions[k].target)
            &&& b.insertions[k].target != v.root
            &&& forall|i: int|
                0 <= i < b.removals.len() ==> !#[trigger] in_subtree(
                    v,
                    b.removals[i],
                    b.insertions[k].target,
                )
        }
}

/// The targets of the replacements, in call order.
pub open spec fn replaced_targets(p: Seq<ReplaceNode>) -> Seq<NodeId> {
    p.map(|k: int, r: ReplaceNode| r.target)
}

/// The replacements are disjoint subtrees, apart from the removed ones, and
/// no value edit or insertion reaches into them.
pub open spec fn replacements_valid(v: DocView, b: BatchView) -> bool {
    let p = replaced_targets(b.replacements);
    &&& disjoint_roots(v, p)
    &&& forall|k: int, i: int|
        #![trigger p[k], b.removals[i]]
        0 <= k < p.len() && 0 <= i < b.removals.len() ==> !in_subtree(v, b.removals[i], p[k])
            && !in_subtree(v, p[k], b.removals[i])
    &&& forall|k: int, e: NodeId|
        0 <= k < p.len() && edited(b, e) ==> !#[trigger] in_subtree(v, p[k], e)
    &&& forall|k: int, m: int|
        #![trigger p[k], b.insertions[m]]
        0 <= k < p.len() && 0 <= m < b.insertions.len() ==> !in_subtree(
            v,
            p[k],
            b.insertions[m].target,
        )
}

/// The parent of the endpoints of a wrap.
pub open spec fn wrap_parent(v: DocView, w: WrapRange) -> NodeId {
    v.nodes[w.first].parent->0
}

/// The position of `x` among the children of `p`.
pub open spec fn child_index(v: DocView, p: NodeId, x: NodeId) -> int {
    v.nodes[p].children@.index_of(x)
}

/// The endpoints of `w` are live non-root siblings in order, and its wrapper
/// has no children.
pub open spec fn wrap_ok(v: DocView, w: WrapRange) -> bool {
    &&& live(v, w.first)
    &&& live(v, w.last)
    &&& w.first != v.root
    &&& w.last != v.root
    &&& v.nodes[w.first].parent == v.nodes[w.last].parent
    &&& w.wrapper.children@.len() == 0
    &&& child_index(v, wrap_parent(v, w), w.first) <= child_index(v, wrap_parent(v, w), w.last)
}

/// `s` is one of the siblings that `w` wraps.
pub open spec fn wrap_selects(v: DocView, w: WrapRange, s: NodeId) -> bool {
    let p = wrap_parent(v, w);
    let kids = v.nodes[p].children@;
    exists|q: int|
        #![trigger kids[q]]
        child_index(v, p, w.first) <= q <= child_index(v, p, w.last) && kids[q] == s
}

/// Two wraps under one parent share a sibling.
pub open spec fn wraps_overlap(v: DocView, w1: WrapRange, w2: WrapRange) -> bool {
    let p = wrap_parent(v, w1);
    &&& wrap_parent(v, w2) == p
    &&& child_index(v, p, w2.first) <= child_index(v, p, w1.last)
    &&& child_index(v, p, w1.first) <= child_index(v, p, w2.last)
}

/// Every wrap is well formed, no two wraps share a sibling, no wrapped sibling
/// lies in a removed or replaced subtree, and no insertion targets one.
pub open spec fn wraps_valid(v: DocView, b: BatchView) -> bool {
    let w = b.wraps;
    let p = replaced_targets(b.replacements);
    &&& forall|k: int| #![trigger w[k]] 0 <= k < w.len() ==> wrap_ok(v, w[k])
    &&& forall|k: int, m: int|
        #![trigger w[k], w[m]]
        0 <= k < w.len() && 0 <= m < w.len() && k != m ==> !wraps_overlap(v, w[k], w[m])
    &&& forall|k: int, s: NodeId, i: int|
        0 <= k < w.len() && 0 <= i < b.removals.len() && #[trigger] wrap_selects(v, w[k], s)
            ==> !#[trigger] in_subtree(v, b.removals[i], s)
    &&& forall|k: int, s: NodeId, q: int|
        0 <= k < w.len() && 0 <= q < p.len() && #[trigger] wrap_selects(v, w[k], s)
            ==> !#[trigger] in_subtree(v, p[q], s)
    &&& forall|k: int, m: int|
        #![trigger w[k], b.insertions[m]]
        0 <= k < w.len() && 0 <= m < b.insertions.len() ==> !wrap_selects(
            v,
            w[k],
            b.insertions[m].target,
        )
}

/// A batch that commits: each kind of edit is valid on its own and against
/// the others.
pub open spec fn batch_valid(v: DocView, b: BatchView) -> bool {
    &&& text_valid(v, b.text)
    &&& attrs_valid(v, b.attrs)
    &&& srcmaps_valid(v, b.srcmaps)
    &&& removals_valid(v, b)
    &&& insertions_valid(v, b)
    &&& replacements_valid(v, b)
    &&& wraps_valid(v, b)
}

/// `n` is named by some edit of the batch.
pub open spec fn referenced(b: BatchView, n: NodeId) -> bool {
    ||| edited(b, n)
    ||| b.removals.contains(n)
    ||| exists|k: int|
        #![trigger b.insertions[k]]
        0 <= k < b.insertions.len() && b.insertions[k].target == n
    ||| replaced_targets(b.replacements).contains(n)
    ||| exists|k: int|
        #![trigger b.wraps[k]]
        0 <= k < b.wraps.len() && (b.wraps[k].first == n || b.wraps[k].last == n)
}

/// `n` occurs at two positions of `s`.
pub open spec fn twice(s: Seq<NodeId>, n: NodeId) -> bool {
    exists|i: int, j: int|
        #![trigger s[i], s[j]]
        0 <= i < s.len() && 0 <= j < s.len() && i != j && s[i] == n && s[j] == n
}

/// `a` is a proper ancestor of `d`, both taken from `s`.
pub open spec fn nested_in(v: DocView, s: Seq<NodeId>, a: NodeId, d: NodeId) -> bool {
    &&& s.contains(a)
    &&& s.contains(d)
    &&& a != d
    &&& in_subtree(v, a, d)
}

/// The wrap `w` with endpoints `first` and `last` occurs in the batch and is
/// well formed.
pub open spec fn wrap_in_batch_ok(v: DocView, b: BatchView, first: NodeId, last: NodeId, k: int) -> bool {
    0 <= k < b.wraps.len() && b.wraps[k].first == first && b.wraps[k].last == last && wrap_ok(
        v,
        b.wraps[k],
    )
}

/// Whether validation step `k` can report `e`. Commit validates in the
/// steps text edits (0), attribute edits (1), source-map edits (2),
/// removals (3), insertions (4), replacements (5) and wraps (6); each step
/// reports only its own kinds of fault, and a missing node only where the
/// step names it.
pub open spec fn stage_reports(k: int, b: BatchView, e: EditError) -> bool {
    match e {
        EditError::InvalidNode(InvalidNodeId(n)) => {
            ||| k == 0 && exists|i: int| #![trigger b.text[i]] 0 <= i < b.text.len() && b.text[i].node == n
            ||| k == 1 && exists|i: int| #![trigger b.attrs[i]] 0 <= i < b.attrs.len() && b.attrs[i].node == n
            ||| k == 2 && exists|i: int| #![trigger b.srcmaps[i]] 0 <= i < b.srcmaps.len() && b.srcmaps[i].node == n
            ||| k == 3 && b.removals.contains(n)
            ||| k == 4 && exists|q: int|
                #![trigger b.insertions[q]]
                0 <= q < b.insertions.len() && b.insertions[q].target == n
            ||| k == 5 && replaced_targets(b.replacements).contains(n)
            ||| k == 6 && exists|q: int|
                #![trigger b.wraps[q]]
                0 <= q < b.wraps.len() && (b.wraps[q].first == n || b.wraps[q].last == n)
        },
        EditError::NotEditableText(_) => k == 0,
        EditError::InvalidTextRange { .. } => k == 0,
        EditError::OverlappingTextEdits { .. } => k == 0,
        EditError::TextLengthOverflow(_) => k == 0,
        EditError::ConflictingAttributeEdits { .. } => k == 1,
        EditError::ConflictingSourceMapEdits { .. } => k == 2,
        EditError::InvalidSourceMap { .. } => k == 2,
        EditError::CannotRemoveRoot(_) => k == 3,
        EditError::DuplicateNodeRemoval(_) => k == 3,
        EditError::OverlappingNodeRemovals { .. } => k == 3,
        EditError::EditTargetsRemovedNode { .. } => k == 3,
        EditError::CannotInsertSiblingOfRoot(_) => k == 4,
        EditError::InsertionTargetsRemovedNode { .. } => k == 4,
        EditError::CannotReplaceRoot(_) => k == 5,
        EditError::DuplicateNodeReplacement(_) => k == 5,
        EditError::OverlappingNodeReplacements { .. } => k == 5,
        EditError::ConflictingNodeRemovalAndReplacement { .. } => k == 5,
        EditError::EditTargetsReplacedNode { .. } => k == 5,
        EditError::InsertionTargetsReplacedNode { .. } => k == 5,
        _ => k == 6,
    }
}

/// The first validation step that `b` fails on `v`, or 7 when it passes all.
pub open spec fn failing_stage(v: DocView, b: BatchView) -> int {
    if !text_valid(v, b.text) {
        0
    } else if !attrs_valid(v, b.attrs) {
        1
    } else if !srcmaps_valid(v, b.srcmaps) {
        2
    } else if !removals_valid(v, b) {
        3
    } else if !insertions_valid(v, b) {
        4
    } else if !replacements_valid(v, b) {
        5
    } else if !wraps_valid(v, b) {
        6
    } else {
        7
    }
}

/// The conditions under which commit may refuse the batch with `e`.
pub open spec fn error_holds(v: DocView, b: BatchView, e: EditError) -> bool {
    let t = b.text;
    let p = replaced_targets(b.replacements);
    match e {
        EditError::InvalidNode(InvalidNodeId(n)) => !live(v, n) && referenced(b, n),
        EditError::NotEditableText(n) => exists|i: int|
            #![trigger t[i]]
            0 <= i < t.len() && t[i].node == n && live(v, n) && !(v.nodes[n].node_value is Text),
        EditError::InvalidTextRange { node, range } => exists|i: int|
            #![trigger t[i]]
            0 <= i < t.len() && t[i].node == node && t[i].start == range.start && t[i].end
                == range.end && text_target_ok(v, t, i) && !text_range_ok(v, t, i),
        EditError::OverlappingTextEdits { node, first, second } => exists|i: int, j: int|
            #![trigger t[i], t[j]]
            0 <= i < t.len() && 0 <= j < t.len() && t[i].node == node && t[i].start == first.start
                && t[i].end == first.end && t[j].start == second.start && t[j].end == second.end
                && text_target_ok(v, t, i) && text_range_ok(v, t, i) && text_target_ok(v, t, j)
                && text_range_ok(v, t, j) && texts_overlap(t, i, j),
        EditError::TextLengthOverflow(_) => false,
        EditError::ConflictingAttributeEdits { node, name } => exists|i: int, j: int|
            #![trigger b.attrs[i], b.attrs[j]]
            0 <= i < b.attrs.len() && 0 <= j < b.attrs.len() && i != j && b.attrs[i].node == node
                && b.attrs[j].node == node && b.attrs[i].name@ == name@ && b.attrs[j].name@
                == name@ && live(v, node),
        EditError::ConflictingSourceMapEdits { node } => exists|i: int, j: int|
            #![trigger b.srcmaps[i], b.srcmaps[j]]
            0 <= i < b.srcmaps.len() && 0 <= j < b.srcmaps.len() && i != j && b.srcmaps[i].node
                == node && b.srcmaps[j].node == node && live(v, node),
        EditError::InvalidSourceMap { node, start, end } => exists|i: int|
            #![trigger b.srcmaps[i]]
            0 <= i < b.srcmaps.len() && b.srcmaps[i].node == node && live(v, node)
                && b.srcmaps[i].source_map == Some(SourcePos { start, end }) && !srcmap_ok(
                v,
                SourcePos { start, end },
            ),
        EditError::CannotRemoveRoot(n) => b.removals.contains(n) && n == v.root,
        EditError::DuplicateNodeRemoval(n) => twice(b.removals, n) && live(v, n),
        EditError::OverlappingNodeRemovals { ancestor, descendant } => nested_in(
            v,
            b.removals,
            ancestor,
            descendant,
        ),
        EditError::EditTargetsRemovedNode { removed, edited: e } => b.removals.contains(removed)
            && edited(b, e) && in_subtree(v, removed, e),
        EditError::CannotInsertSiblingOfRoot(n) => exists|k: int|
            #![trigger b.insertions[k]]
            0 <= k < b.insertions.len() && b.insertions[k].target == n && n == v.root,
        EditError::InsertionTargetsRemovedNode { removed, target } => b.removals.contains(removed)
            && (exists|k: int|
            #![trigger b.insertions[k]]
            0 <= k < b.insertions.len() && b.insertions[k].target == target) && in_subtree(
            v,
            removed,
            target,
        ),
        EditError::CannotReplaceRoot(n) => p.contains(n) && n == v.root,
        EditError::DuplicateNodeReplacement(n) => twice(p, n) && live(v, n),
        EditError::OverlappingNodeReplacements { ancestor, descendant } => nested_in(
            v,
            p,
            ancestor,
            descendant,
        ),
        EditError::ConflictingNodeRemovalAndReplacement { removed, replaced } => b.removals.contains(
            removed,
        ) && p.contains(replaced) && (in_subtree(v, removed, replaced) || in_subtree(
            v,
            replaced,
            removed,
        )),
        EditError::EditTargetsReplacedNode { replaced, edited: e } => p.contains(replaced)
            && edited(b, e) && in_subtree(v, replaced, e),
        EditError::InsertionTargetsReplacedNode { replaced, target } => p.contains(replaced)
            && (exists|k: int|
            #![trigger b.insertions[k]]
            0 <= k < b.insertions.len() && b.insertions[k].target == target) && in_subtree(
            v,
            replaced,
            target,
        ),
        EditError::CannotWrapRoot(n) => exists|k: int|
            #![trigger b.wraps[k]]
            0 <= k < b.wraps.len() && live(v, b.wraps[k].first) && live(v, b.wraps[k].last) && (
            b.wraps[k].first == n || b.wraps[k].last == n) && n == v.root,
        EditError::WrapEndpointsHaveDifferentParents { first, last } => exists|k: int|
            #![trigger b.wraps[k]]
            0 <= k < b.wraps.len() && b.wraps[k].first == first && b.wraps[k].last == last && live(
                v,
                first,
            ) && live(v, last) && first != v.root && last != v.root && v.nodes[first].parent
                != v.nodes[last].parent,
        EditError::ReversedWrapRange { first, last } => exists|k: int|
            #![trigger b.wraps[k]]
            0 <= k < b.wraps.len() && b.wraps[k].first == first && b.wraps[k].last == last && live(
                v,
                first,
            ) && live(v, last) && first != v.root && last != v.root && v.nodes[first].parent
                == v.nodes[last].parent && child_index(v, wrap_parent(v, b.wraps[k]), last)
                < child_index(v, wrap_parent(v, b.wraps[k]), first),
        EditError::WrapperDraftHasChildren { first, last } => exists|k: int|
            #![trigger b.wraps[k]]
            0 <= k < b.wraps.len() && b.wraps[k].first == first && b.wraps[k].last == last && live(
                v,
                first,
            ) && live(v, last) && first != v.root && last != v.root && v.nodes[first].parent
                == v.nodes[last].parent && b.wraps[k].wrapper.children@.len() > 0,
        EditError::OverlappingWrapRanges { first_range, second_range } => exists|k: int, m: int|
            #![trigger b.wraps[k], b.wraps[m]]
            k != m && wrap_in_batch_ok(v, b, first_range.0, first_range.1, k) && wrap_in_batch_ok(
                v,
                b,
                second_range.0,
                second_range.1,
                m,
            ) && wraps_overlap(v, b.wraps[k], b.wraps[m]),
        EditError::WrapRangeTargetsRemovedNode { removed, first, last } => exists|k: int, s: NodeId|
            #![trigger b.wraps[k], wrap_selects(v, b.wraps[k], s)]
            wrap_in_batch_ok(v, b, first, last, k) && wrap_selects(v, b.wraps[k], s)
                && b.removals.contains(removed) && in_subtree(v, removed, s),
        EditError::WrapRangeTargetsReplacedNode { replaced, first, last } => exists|
            k: int,
            s: NodeId,
        |
            #![trigger b.wraps[k], wrap_selects(v, b.wraps[k], s)]
            wrap_in_batch_ok(v, b, first, last, k) && wrap_selects(v, b.wraps[k], s)
                && p.contains(replaced) && in_subtree(v, replaced, s),
        EditError::InsertionTargetsWrappedNode { first, last, target } => exists|k: int, m: int|
            #![trigger b.wraps[k], b.insertions[m]]
            wrap_in_batch_ok(v, b, first, last, k) && 0 <= m < b.insertions.len()
                && b.insertions[m].target == target && wrap_selects(v, b.wraps[k], target),
    }
}

} // verus!
