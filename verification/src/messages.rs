//! Human-readable descriptions of node handles and edit errors.
use std::ops::Range;
use vstd::prelude::*;

use crate::arena::NodeId;
use crate::document::InvalidNodeId;
use crate::edit::EditError;
use crate::slug::{decimal, push_decimal};
use crate::utf8text::append_all;

verus! {

/// The `Debug` rendering of a string: the text in double quotes, with
/// quotes, backslashes and unprintable characters escaped.
pub uninterp spec fn debug_str(s: Seq<char>) -> Seq<char>;

/// `<str as Debug>::fmt`, by way of `format!`: the string in double quotes,
/// with quotes, backslashes and unprintable characters escaped.
#[verifier::external_body]
fn debug_quoted(s: &str) -> (r: String)
    ensures
        r@ == debug_str(s@),
{
    format!("{s:?}")
}

/// How a node handle reads: `NodeId(slot:generation)`.
pub open spec fn node_text(id: NodeId) -> Seq<char> {
    "NodeId("@ + decimal(id.spec_slot() as nat) + ":"@ + decimal(id.spec_generation() as nat) + ")"@
}

/// How a byte range reads: `start..end`.
pub open spec fn range_text(r: Range<usize>) -> Seq<char> {
    decimal(r.start as nat) + ".."@ + decimal(r.end as nat)
}

/// How a failed lookup reads.
pub open spec fn invalid_text(e: InvalidNodeId) -> Seq<char> {
    "invalid or stale node ID: "@ + node_text(e.0)
}

/// Append how `id` reads.
fn push_node(out: &mut String, id: NodeId)
    ensures
        final(out)@ == old(out)@ + node_text(id),
{
    let ghost start = out@;
    append_all(out, "NodeId(");
    push_decimal(out, id.slot() as usize);
    append_all(out, ":");
    push_decimal(out, id.generation() as usize);
    append_all(out, ")");
    proof {
        assert(out@ =~= start + node_text(id));
    }
}

/// Append how `r` reads.
fn push_range(out: &mut String, r: &Range<usize>)
    ensures
        final(out)@ == old(out)@ + range_text(*r),
{
    let ghost start = out@;
    push_decimal(out, r.start);
    append_all(out, "..");
    push_decimal(out, r.end);
    proof {
        assert(out@ =~= start + range_text(*r));
    }
}

impl NodeId {
    /// How this handle reads: `NodeId(slot:generation)`.
    pub fn describe(self) -> (r: String)
        ensures
            r@ == node_text(self),
    {
        let mut out = String::new();
        push_node(&mut out, self);
        proof {
            assert(out@ =~= node_text(self));
        }
        out
    }
}

impl InvalidNodeId {
    /// The message of this error.
    pub fn message(&self) -> (r: String)
        ensures
            r@ == invalid_text(*self),
    {
        let mut out = "invalid or stale node ID: ".to_owned();
        push_node(&mut out, self.0);
        out
    }
}

impl EditError {
    /// What the message of this error says.
    pub open spec fn spec_message(&self) -> Seq<char> {
        match *self {
            EditError::InvalidNode(e) => invalid_text(e),
            EditError::NotEditableText(node) => "node "@ + node_text(node) + " is not an editable Text node"@,
            EditError::InvalidTextRange { node, range } => "invalid UTF-8 text range "@ + range_text(range) + " for node "@ + node_text(node),
            EditError::OverlappingTextEdits { node, first, second } => "overlapping text ranges "@ + range_text(first) + " and "@ + range_text(second) + " for node "@ + node_text(node),
            EditError::TextLengthOverflow(node) => "edited text length overflows usize for node "@ + node_text(node),
            EditError::ConflictingAttributeEdits { node, name } => "conflicting edits for attribute "@ + debug_str(name@) + " on node "@ + node_text(node),
            EditError::ConflictingSourceMapEdits { node } => "conflicting source map edits on node "@ + node_text(node),
            EditError::InvalidSourceMap { node, start, end } => "invalid source map "@ + decimal(start as nat) + ".."@ + decimal(end as nat) + " for node "@ + node_text(node),
            EditError::CannotRemoveRoot(node) => "cannot remove document root "@ + node_text(node),
            EditError::DuplicateNodeRemoval(node) => "node "@ + node_text(node) + " is removed more than once"@,
            EditError::OverlappingNodeRemovals { ancestor, descendant } => "cannot remove both ancestor "@ + node_text(ancestor) + " and descendant "@ + node_text(descendant),
            EditError::EditTargetsRemovedNode { removed, edited } => "edit targets node "@ + node_text(edited) + " inside removed subtree "@ + node_text(removed),
            EditError::CannotInsertSiblingOfRoot(node) => "cannot insert a sibling of document root "@ + node_text(node),
            EditError::InsertionTargetsRemovedNode { removed, target } => "insertion targets node "@ + node_text(target) + " inside removed subtree "@ + node_text(removed),
            EditError::CannotReplaceRoot(node) => "cannot replace document root "@ + node_text(node),
            EditError::DuplicateNodeReplacement(node) => "node "@ + node_text(node) + " is replaced more than once"@,
            EditError::OverlappingNodeReplacements { ancestor, descendant } => "cannot replace both ancestor "@ + node_text(ancestor) + " and descendant "@ + node_text(descendant),
            EditError::ConflictingNodeRemovalAndReplacement { removed, replaced } => "cannot remove subtree "@ + node_text(removed) + " and replace overlapping node "@ + node_text(replaced),
            EditError::EditTargetsReplacedNode { replaced, edited } => "edit targets node "@ + node_text(edited) + " inside replaced subtree "@ + node_text(replaced),
            EditError::InsertionTargetsReplacedNode { replaced, target } => "insertion targets node "@ + node_text(target) + " inside replaced subtree "@ + node_text(replaced),
            EditError::CannotWrapRoot(node) => "cannot wrap document root "@ + node_text(node),
            EditError::WrapEndpointsHaveDifferentParents { first, last } => "wrap endpoints "@ + node_text(first) + " and "@ + node_text(last) + " have different parents"@,
            EditError::ReversedWrapRange { first, last } => "wrap range "@ + node_text(first) + " through "@ + node_text(last) + " is reversed"@,
            EditError::WrapperDraftHasChildren { first, last } => "wrapper draft for range "@ + node_text(first) + " through "@ + node_text(last) + " already has children"@,
            EditError::OverlappingWrapRanges { first_range, second_range } => "wrap ranges "@ + node_text(first_range.0) + " through "@ + node_text(first_range.1) + " and "@ + node_text(second_range.0) + " through "@ + node_text(second_range.1) + " overlap"@,
            EditError::WrapRangeTargetsRemovedNode { removed, first, last } => "wrap range "@ + node_text(first) + " through "@ + node_text(last) + " is inside removed subtree "@ + node_text(removed),
            EditError::WrapRangeTargetsReplacedNode { replaced, first, last } => "wrap range "@ + node_text(first) + " through "@ + node_text(last) + " is inside replaced subtree "@ + node_text(replaced),
            EditError::InsertionTargetsWrappedNode { first, last, target } => "insertion targets wrapped sibling "@ + node_text(target) + " in range "@ + node_text(first) + " through "@ + node_text(last),
        }
    }

    /// The message of this error.
    #[verifier::rlimit(40)]
    pub fn message(&self) -> (r: String)
        ensures
            r@ == self.spec_message(),
    {
        match self {
            EditError::InvalidNode(e) => e.message(),
            EditError::NotEditableText(node) => {
                let mut out = "node ".to_owned();
                push_node(&mut out, *node);
                append_all(&mut out, " is not an editable Text node");
                out
            },
            EditError::InvalidTextRange { node, range } => {
                let mut out = "invalid UTF-8 text range ".to_owned();
                push_range(&mut out, range);
                append_all(&mut out, " for node ");
                push_node(&mut out, *node);
                out
            },
            EditError::OverlappingTextEdits { node, first, second } => {
                let mut out = "overlapping text ranges ".to_owned();
                push_range(&mut out, first);
                append_all(&mut out, " and ");
                push_range(&mut out, second);
                append_all(&mut out, " for node ");
                push_node(&mut out, *node);
                out
            },
            EditError::TextLengthOverflow(node) => {
                let mut out = "edited text length overflows usize for node ".to_owned();
                push_node(&mut out, *node);
                out
            },
            EditError::ConflictingAttributeEdits { node, name } => {
                let mut out = "conflicting edits for attribute ".to_owned();
                append_all(&mut out, debug_quoted(name.as_str()).as_str());
                append_all(&mut out, " on node ");
                push_node(&mut out, *node);
                out
            },
            EditError::ConflictingSourceMapEdits { node } => {
                let mut out = "conflicting source map edits on node ".to_owned();
                push_node(&mut out, *node);
                out
            },
            EditError::InvalidSourceMap { node, start, end } => {
                let mut out = "invalid source map ".to_owned();
                push_decimal(&mut out, *start);
                append_all(&mut out, "..");
                push_decimal(&mut out, *end);
                append_all(&mut out, " for node ");
                push_node(&mut out, *node);
                out
            },
            EditError::CannotRemoveRoot(node) => {
                let mut out = "cannot remove document root ".to_owned();
                push_node(&mut out, *node);
                out
            },
            EditError::DuplicateNodeRemoval(node) => {
                let mut out = "node ".to_owned();
                push_node(&mut out, *node);
                append_all(&mut out, " is removed more than once");
                out
            },
            EditError::OverlappingNodeRemovals { ancestor, descendant } => {
                let mut out = "cannot remove both ancestor ".to_owned();
                push_node(&mut out, *ancestor);
                append_all(&mut out, " and descendant ");
                push_node(&mut out, *descendant);
                out
            },
            EditError::EditTargetsRemovedNode { removed, edited } => {
                let mut out = "edit targets node ".to_owned();
                push_node(&mut out, *edited);
                append_all(&mut out, " inside removed subtree ");
                push_node(&mut out, *removed);
                out
            },
            EditError::CannotInsertSiblingOfRoot(node) => {
                let mut out = "cannot insert a sibling of document root ".to_owned();
                push_node(&mut out, *node);
                out
            },
            EditError::InsertionTargetsRemovedNode { removed, target } => {
                let mut out = "insertion targets node ".to_owned();
                push_node(&mut out, *target);
                append_all(&mut out, " inside removed subtree ");
                push_node(&mut out, *removed);
                out
            },
            EditError::CannotReplaceRoot(node) => {
                let mut out = "cannot replace document root ".to_owned();
                push_node(&mut out, *node);
                out
            },
            EditError::DuplicateNodeReplacement(node) => {
                let mut out = "node ".to_owned();
                push_node(&mut out, *node);
                append_all(&mut out, " is replaced more than once");
                out
            },
            EditError::OverlappingNodeReplacements { ancestor, descendant } => {
                let mut out = "cannot replace both ancestor ".to_owned();
                push_node(&mut out, *ancestor);
                append_all(&mut out, " and descendant ");
                push_node(&mut out, *descendant);
                out
            },
            EditError::ConflictingNodeRemovalAndReplacement { removed, replaced } => {
                let mut out = "cannot remove subtree ".to_owned();
                push_node(&mut out, *removed);
                append_all(&mut out, " and replace overlapping node ");
                push_node(&mut out, *replaced);
                out
            },
            EditError::EditTargetsReplacedNode { replaced, edited } => {
                let mut out = "edit targets node ".to_owned();
                push_node(&mut out, *edited);
                append_all(&mut out, " inside replaced subtree ");
                push_node(&mut out, *replaced);
                out
            },
            EditError::InsertionTargetsReplacedNode { replaced, target } => {
                let mut out = "insertion targets node ".to_owned();
                push_node(&mut out, *target);
                append_all(&mut out, " inside replaced subtree ");
                push_node(&mut out, *replaced);
                out
            },
            EditError::CannotWrapRoot(node) => {
                let mut out = "cannot wrap document root ".to_owned();
                push_node(&mut out, *node);
                out
            },
            EditError::WrapEndpointsHaveDifferentParents { first, last } => {
                let mut out = "wrap endpoints ".to_owned();
                push_node(&mut out, *first);
                append_all(&mut out, " and ");
                push_node(&mut out, *last);
                append_all(&mut out, " have different parents");
                out
            },
            EditError::ReversedWrapRange { first, last } => {
                let mut out = "wrap range ".to_owned();
                push_node(&mut out, *first);
                append_all(&mut out, " through ");
                push_node(&mut out, *last);
                append_all(&mut out, " is reversed");
                out
            },
            EditError::WrapperDraftHasChildren { first, last } => {
                let mut out = "wrapper draft for range ".to_owned();
                push_node(&mut out, *first);
                append_all(&mut out, " through ");
                push_node(&mut out, *last);
                append_all(&mut out, " already has children");
                out
            },
            EditError::OverlappingWrapRanges { first_range, second_range } => {
                let mut out = "wrap ranges ".to_owned();
                push_node(&mut out, first_range.0);
                append_all(&mut out, " through ");
                push_node(&mut out, first_range.1);
                append_all(&mut out, " and ");
                push_node(&mut out, second_range.0);
                append_all(&mut out, " through ");
                push_node(&mut out, second_range.1);
                append_all(&mut out, " overlap");
                out
            },
            EditError::WrapRangeTargetsRemovedNode { removed, first, last } => {
                let mut out = "wrap range ".to_owned();
                push_node(&mut out, *first);
                append_all(&mut out, " through ");
                push_node(&mut out, *last);
                append_all(&mut out, " is inside removed subtree ");
                push_node(&mut out, *removed);
                out
            },
            EditError::WrapRangeTargetsReplacedNode { replaced, first, last } => {
                let mut out = "wrap range ".to_owned();
                push_node(&mut out, *first);
                append_all(&mut out, " through ");
                push_node(&mut out, *last);
                append_all(&mut out, " is inside replaced subtree ");
                push_node(&mut out, *replaced);
                out
            },
            EditError::InsertionTargetsWrappedNode { first, last, target } => {
                let mut out = "insertion targets wrapped sibling ".to_owned();
                push_node(&mut out, *target);
                append_all(&mut out, " in range ");
                push_node(&mut out, *first);
                append_all(&mut out, " through ");
                push_node(&mut out, *last);
                out
            },
        }
    }
}

} // verus!
