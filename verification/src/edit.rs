//! Transactional edits for arena-backed documents.
//!
//! An [`EditBatch`] records text, attribute, source-map and structural edits.
//! [`EditBatch::commit`] validates all of them against the document first and
//! applies them only when every one is valid, so a failed commit leaves the
//! document unchanged.
use vstd::prelude::*;

use crate::arena::NodeId;
use crate::document::{kept_or_retired, lemma_retire_chain, Document, DocView, InvalidNodeId};
use crate::edit_apply::{apply_structure, nodes_needed, structure_applied};
use crate::edit_attr::{apply_attrs, attrs_applied, sort_attrs, validate_attrs};
use crate::edit_check::{
    apply_srcmaps, edited_nodes, insertion_targets, replacement_targets, srcmaps_applied,
    validate_insertions, validate_removals, validate_replacements, validate_srcmaps,
};
use crate::edit_spec::{batch_valid, error_holds, failing_stage, stage_reports};
use crate::edit_text::{apply_text, lemma_same_links, sort_text, text_applied, validate_text};
use crate::edit_wrap::validate_wraps;
use crate::node::{Node, SourcePos};
use crate::subtree::same_node;
use crate::utf8text::{append_all, append_char, byte_len, char_len_utf8, utf8};
use core::ops::Range;

verus! {

/// The new text of one replaced byte range.
#[derive(Debug)]
pub enum TextReplacement {
    String(String),
    Char(char),
}

/// The UTF-8 bytes a replacement puts in place of its range.
pub open spec fn replacement_bytes(r: TextReplacement) -> Seq<u8> {
    match r {
        TextReplacement::String(s) => utf8(s@),
        TextReplacement::Char(c) => utf8(seq![c]),
    }
}

impl TextReplacement {
    /// Length of the replacement in bytes.
    pub fn len(&self) -> (r: usize)
        ensures
            r == replacement_bytes(*self).len(),
    {
        match self {
            TextReplacement::String(value) => byte_len(value.as_str()),
            TextReplacement::Char(value) => char_len_utf8(*value),
        }
    }

    /// Append the replacement to `output`.
    pub fn push_to(&self, output: &mut String)
        ensures
            utf8(final(output)@) == utf8(old(output)@) + replacement_bytes(*self),
    {
        match self {
            TextReplacement::String(value) => append_all(output, value.as_str()),
            TextReplacement::Char(value) => append_char(output, *value),
        }
    }
}

/// Replace the bytes `start..end` of a `Text` node's content.
#[derive(Debug)]
pub struct ReplaceText {
    pub node: NodeId,
    pub start: usize,
    pub end: usize,
    pub replacement: TextReplacement,
}

/// What an attribute edit does.
#[derive(Debug)]
pub enum AttributeChange {
    Assign(String),
    Remove,
}

/// Set or remove the attribute `name` of a node.
#[derive(Debug)]
pub struct EditAttribute {
    pub node: NodeId,
    pub name: String,
    pub change: AttributeChange,
}

/// Set or clear the source mapping of a node.
#[derive(Debug)]
pub struct EditSourceMap {
    pub node: NodeId,
    pub source_map: Option<SourcePos>,
}

/// Which side of its target an inserted sibling goes to.
#[derive(Clone, Copy, PartialEq, Eq, Structural, Debug)]
pub enum SiblingPosition {
    Before,
    After,
}

/// Insert a draft next to an existing node.
#[derive(Debug)]
pub struct InsertSibling {
    pub target: NodeId,
    pub position: SiblingPosition,
    pub draft: Node,
}

/// Replace a node and its subtree with a draft.
#[derive(Debug)]
pub struct ReplaceNode {
    pub target: NodeId,
    pub draft: Node,
}

/// Move the siblings `first` through `last` under a new wrapper node.
#[derive(Debug)]
pub struct WrapRange {
    pub first: NodeId,
    pub last: NodeId,
    pub wrapper: Node,
}

#[derive(Debug)]
struct NodePatchSet {
    text: Vec<ReplaceText>,
    attributes: Vec<EditAttribute>,
    source_maps: Vec<EditSourceMap>,
}

impl NodePatchSet {
    fn len(&self) -> (r: usize)
        requires
            self.text@.len() + self.attributes@.len() + self.source_maps@.len() <= usize::MAX,
        ensures
            r == self.text@.len() + self.attributes@.len() + self.source_maps@.len(),
    {
        self.text.len() + self.attributes.len() + self.source_maps.len()
    }

    fn is_empty(&self) -> (r: bool)
        ensures
            r == (self.text@.len() == 0 && self.attributes@.len() == 0 && self.source_maps@.len()
                == 0),
    {
        self.text.len() == 0 && self.attributes.len() == 0 && self.source_maps.len() == 0
    }
}

#[derive(Debug)]
struct StructuralEditSet {
    removals: Vec<NodeId>,
    insertions: Vec<InsertSibling>,
    replacements: Vec<ReplaceNode>,
    wraps: Vec<WrapRange>,
}

impl StructuralEditSet {
    fn len(&self) -> (r: usize)
        requires
            self.removals@.len() + self.insertions@.len() + self.replacements@.len()
                + self.wraps@.len() <= usize::MAX,
        ensures
            r == self.removals@.len() + self.insertions@.len() + self.replacements@.len()
                + self.wraps@.len(),
    {
        self.removals.len() + self.insertions.len() + self.replacements.len() + self.wraps.len()
    }

    fn is_empty(&self) -> (r: bool)
        ensures
            r == (self.removals@.len() == 0 && self.insertions@.len() == 0
                && self.replacements@.len() == 0 && self.wraps@.len() == 0),
    {
        self.removals.len() == 0 && self.insertions.len() == 0 && self.replacements.len() == 0
            && self.wraps.len() == 0
    }
}

/// The edits a batch holds, each kind in call order.
pub ghost struct BatchView {
    pub text: Seq<ReplaceText>,
    pub attrs: Seq<EditAttribute>,
    pub srcmaps: Seq<EditSourceMap>,
    pub removals: Seq<NodeId>,
    pub insertions: Seq<InsertSibling>,
    pub replacements: Seq<ReplaceNode>,
    pub wraps: Seq<WrapRange>,
}

impl BatchView {
    /// Number of recorded edits.
    pub open spec fn count(self) -> nat {
        self.text.len() + self.attrs.len() + self.srcmaps.len() + self.removals.len()
            + self.insertions.len() + self.replacements.len() + self.wraps.len()
    }
}

/// A validation failure that leaves the document unchanged.
#[derive(Debug, PartialEq, Eq)]
pub enum EditError {
    InvalidNode(InvalidNodeId),
    NotEditableText(NodeId),
    InvalidTextRange { node: NodeId, range: Range<usize> },
    OverlappingTextEdits { node: NodeId, first: Range<usize>, second: Range<usize> },
    TextLengthOverflow(NodeId),
    ConflictingAttributeEdits { node: NodeId, name: String },
    ConflictingSourceMapEdits { node: NodeId },
    InvalidSourceMap { node: NodeId, start: usize, end: usize },
    CannotRemoveRoot(NodeId),
    DuplicateNodeRemoval(NodeId),
    OverlappingNodeRemovals { ancestor: NodeId, descendant: NodeId },
    EditTargetsRemovedNode { removed: NodeId, edited: NodeId },
    CannotInsertSiblingOfRoot(NodeId),
    InsertionTargetsRemovedNode { removed: NodeId, target: NodeId },
    CannotReplaceRoot(NodeId),
    DuplicateNodeReplacement(NodeId),
    OverlappingNodeReplacements { ancestor: NodeId, descendant: NodeId },
    ConflictingNodeRemovalAndReplacement { removed: NodeId, replaced: NodeId },
    EditTargetsReplacedNode { replaced: NodeId, edited: NodeId },
    InsertionTargetsReplacedNode { replaced: NodeId, target: NodeId },
    CannotWrapRoot(NodeId),
    WrapEndpointsHaveDifferentParents { first: NodeId, last: NodeId },
    ReversedWrapRange { first: NodeId, last: NodeId },
    WrapperDraftHasChildren { first: NodeId, last: NodeId },
    OverlappingWrapRanges { first_range: (NodeId, NodeId), second_range: (NodeId, NodeId) },
    WrapRangeTargetsRemovedNode { removed: NodeId, first: NodeId, last: NodeId },
    WrapRangeTargetsReplacedNode { replaced: NodeId, first: NodeId, last: NodeId },
    InsertionTargetsWrappedNode { first: NodeId, last: NodeId, target: NodeId },
}

impl EditError {
    /// Wrap a lookup failure.
    pub fn from_invalid(value: InvalidNodeId) -> (r: EditError)
        ensures
            r == EditError::InvalidNode(value),
    {
        EditError::InvalidNode(value)
    }
}

/// A batch of document edits that is validated and committed atomically.
#[derive(Debug)]
pub struct EditBatch {
    node_patches: NodePatchSet,
    structural_edits: StructuralEditSet,
}

impl EditBatch {
    pub closed spec fn view(&self) -> BatchView {
        BatchView {
            text: self.node_patches.text@,
            attrs: self.node_patches.attributes@,
            srcmaps: self.node_patches.source_maps@,
            removals: self.structural_edits.removals@,
            insertions: self.structural_edits.insertions@,
            replacements: self.structural_edits.replacements@,
            wraps: self.structural_edits.wraps@,
        }
    }

    pub fn new() -> (r: EditBatch)
        ensures
            r@.count() == 0,
    {
        EditBatch {
            node_patches: NodePatchSet {
                text: Vec::new(),
                attributes: Vec::new(),
                source_maps: Vec::new(),
            },
            structural_edits: StructuralEditSet {
                removals: Vec::new(),
                insertions: Vec::new(),
                replacements: Vec::new(),
                wraps: Vec::new(),
            },
        }
    }

    /// Number of recorded edits.
    pub fn len(&self) -> (r: usize)
        requires
            self@.count() <= usize::MAX,
        ensures
            r == self@.count(),
    {
        self.node_patches.len() + self.structural_edits.len()
    }

    pub fn is_empty(&self) -> (r: bool)
        ensures
            r == (self@.count() == 0),
    {
        self.node_patches.is_empty() && self.structural_edits.is_empty()
    }

    /// Replace one byte range in a built-in `Text` node.
    pub fn replace_text(&mut self, node: NodeId, range: Range<usize>, replacement: &str)
        ensures
            final(self)@.text.len() == old(self)@.text.len() + 1,
            final(self)@.text.drop_last() == old(self)@.text,
            final(self)@.text.last().node == node,
            final(self)@.text.last().start == range.start,
            final(self)@.text.last().end == range.end,
            final(self)@.text.last().replacement matches TextReplacement::String(s) && s@
                == replacement@,
            final(self)@ == (BatchView { text: final(self)@.text, ..old(self)@ }),
    {
        let value = replacement.to_owned();
        self.push(node, range, TextReplacement::String(value));
    }

    /// Replace one byte range with one character.
    pub fn replace_char(&mut self, node: NodeId, range: Range<usize>, replacement: char)
        ensures
            final(self)@.text == old(self)@.text.push(
                ReplaceText {
                    node,
                    start: range.start,
                    end: range.end,
                    replacement: TextReplacement::Char(replacement),
                },
            ),
            final(self)@ == (BatchView { text: final(self)@.text, ..old(self)@ }),
    {
        self.push(node, range, TextReplacement::Char(replacement));
    }

    /// Set an attribute, replacing every existing value with the same exact
    /// name with one value.
    pub fn set_attribute(&mut self, node: NodeId, name: &str, value: &str)
        ensures
            final(self)@.attrs.len() == old(self)@.attrs.len() + 1,
            final(self)@.attrs.drop_last() == old(self)@.attrs,
            final(self)@.attrs.last().node == node,
            final(self)@.attrs.last().name@ == name@,
            final(self)@.attrs.last().change matches AttributeChange::Assign(s) && s@ == value@,
            final(self)@ == (BatchView { attrs: final(self)@.attrs, ..old(self)@ }),
    {
        let edit = EditAttribute {
            node,
            name: name.to_owned(),
            change: AttributeChange::Assign(value.to_owned()),
        };
        self.node_patches.attributes.push(edit);
        proof {
            assert(self@.attrs.drop_last() =~= old(self)@.attrs);
        }
    }

    /// Remove every attribute with the same exact name.
    pub fn remove_attribute(&mut self, node: NodeId, name: &str)
        ensures
            final(self)@.attrs.len() == old(self)@.attrs.len() + 1,
            final(self)@.attrs.drop_last() == old(self)@.attrs,
            final(self)@.attrs.last().node == node,
            final(self)@.attrs.last().name@ == name@,
            final(self)@.attrs.last().change is Remove,
            final(self)@ == (BatchView { attrs: final(self)@.attrs, ..old(self)@ }),
    {
        let edit = EditAttribute { node, name: name.to_owned(), change: AttributeChange::Remove };
        self.node_patches.attributes.push(edit);
        proof {
            assert(self@.attrs.drop_last() =~= old(self)@.attrs);
        }
    }

    /// Set or clear a node's source mapping.
    pub fn set_source_map(&mut self, node: NodeId, source_map: Option<SourcePos>)
        ensures
            final(self)@.srcmaps == old(self)@.srcmaps.push(EditSourceMap { node, source_map }),
            final(self)@ == (BatchView { srcmaps: final(self)@.srcmaps, ..old(self)@ }),
    {
        self.node_patches.source_maps.push(EditSourceMap { node, source_map });
    }

    /// Remove a non-root node and its complete subtree.
    pub fn remove_node(&mut self, node: NodeId)
        ensures
            final(self)@.removals == old(self)@.removals.push(node),
            final(self)@ == (BatchView { removals: final(self)@.removals, ..old(self)@ }),
    {
        self.structural_edits.removals.push(node);
    }

    /// Insert an owned draft immediately before `target` when the batch
    /// commits. Insertions at the same target keep call order.
    pub fn insert_before(&mut self, target: NodeId, draft: Node)
        ensures
            final(self)@.insertions == old(self)@.insertions.push(
                InsertSibling { target, position: SiblingPosition::Before, draft },
            ),
            final(self)@ == (BatchView { insertions: final(self)@.insertions, ..old(self)@ }),
    {
        self.structural_edits.insertions.push(
            InsertSibling { target, position: SiblingPosition::Before, draft },
        );
    }

    /// Insert an owned draft immediately after `target` when the batch
    /// commits. Insertions at the same target keep call order.
    pub fn insert_after(&mut self, target: NodeId, draft: Node)
        ensures
            final(self)@.insertions == old(self)@.insertions.push(
                InsertSibling { target, position: SiblingPosition::After, draft },
            ),
            final(self)@ == (BatchView { insertions: final(self)@.insertions, ..old(self)@ }),
    {
        self.structural_edits.insertions.push(
            InsertSibling { target, position: SiblingPosition::After, draft },
        );
    }

    /// Replace a non-root node and its complete subtree with an owned draft.
    pub fn replace_node(&mut self, target: NodeId, draft: Node)
        ensures
            final(self)@.replacements == old(self)@.replacements.push(
                ReplaceNode { target, draft },
            ),
            final(self)@ == (BatchView { replacements: final(self)@.replacements, ..old(self)@ }),
    {
        self.structural_edits.replacements.push(ReplaceNode { target, draft });
    }

    /// Wrap an inclusive range of ordered siblings in a childless draft.
    pub fn wrap_range(&mut self, first: NodeId, last: NodeId, wrapper: Node)
        ensures
            final(self)@.wraps == old(self)@.wraps.push(WrapRange { first, last, wrapper }),
            final(self)@ == (BatchView { wraps: final(self)@.wraps, ..old(self)@ }),
    {
        self.structural_edits.wraps.push(WrapRange { first, last, wrapper });
    }

    fn push(&mut self, node: NodeId, range: Range<usize>, replacement: TextReplacement)
        ensures
            final(self)@.text == old(self)@.text.push(
                ReplaceText { node, start: range.start, end: range.end, replacement },
            ),
            final(self)@ == (BatchView { text: final(self)@.text, ..old(self)@ }),
    {
        self.node_patches.text.push(
            ReplaceText { node, start: range.start, end: range.end, replacement },
        );
    }
}

/// `w` is `v` after committing `b`: text edits, then the structural edits,
/// then source maps, then attributes.
pub open spec fn committed(v: DocView, b: BatchView, w: DocView) -> bool {
    exists|v1: DocView, v5: DocView, v6: DocView|
        {
            &&& text_applied(v, v1, b.text)
            &&& structure_applied(v1, v5, b)
            &&& srcmaps_applied(v5, v6, b.srcmaps)
            &&& attrs_applied(v6, w, b.attrs)
        }
}

/// Committing a batch that holds no edit keeps every node, with the same
/// data and links, and keeps the root and the source.
pub proof fn lemma_empty_commit(v: DocView, b: BatchView, w: DocView)
    requires
        b.count() == 0,
        committed(v, b, w),
    ensures
        w.nodes.dom() == v.nodes.dom(),
        forall|n: NodeId| #[trigger] w.nodes.contains_key(n) ==> same_node(v.nodes[n], w.nodes[n]),
        w.root == v.root,
        w.source == v.source,
{
    let (v1, v5, v6) = choose|v1: DocView, v5: DocView, v6: DocView|
        {
            &&& text_applied(v, v1, b.text)
            &&& structure_applied(v1, v5, b)
            &&& srcmaps_applied(v5, v6, b.srcmaps)
            &&& attrs_applied(v6, w, b.attrs)
        };
    assert forall|n: NodeId| #[trigger] v1.nodes.contains_key(n) implies v1.nodes[n] == v.nodes[n] by {
        assert(!crate::edit_text::has_text_edit(b.text, n));
    }
    let (v2, rs, ws, is) = choose|v2: DocView, rs: Seq<DocView>, ws: Seq<DocView>, is: Seq<DocView>|
        {
            &&& crate::subtree::removal_result(v1, v2, b.removals)
            &&& rs.len() > 0 && rs[0] == v2
            &&& crate::edit_apply::replace_chain(rs, b.replacements)
            &&& ws.len() > 0 && ws[0] == rs.last()
            &&& crate::edit_apply::wrap_chain(ws, b.wraps)
            &&& is.len() > 0 && is[0] == ws.last()
            &&& crate::edit_apply::insert_chain(is, crate::edit_apply::insertion_order(b.insertions))
            &&& is.last() == v5
        };
    assert(crate::subtree::subtrees(v1, b.removals) =~= Set::<NodeId>::empty());
    assert(v2.nodes.dom() =~= v1.nodes.dom());
    assert forall|n: NodeId| #[trigger] v2.nodes.contains_key(n) implies same_node(v1.nodes[n], v2.nodes[n]) by {
        assert(!crate::subtree::loses_children(v1, b.removals, n));
    }
    assert(crate::edit_apply::befores(b.insertions) =~= Seq::<InsertSibling>::empty());
    assert(crate::edit_apply::afters(b.insertions) =~= Seq::<InsertSibling>::empty());
    assert(crate::edit_apply::insertion_order(b.insertions) =~= Seq::<InsertSibling>::empty());
    assert(v5 == v2);
    assert forall|n: NodeId| #[trigger] w.nodes.contains_key(n) implies same_node(v.nodes[n], w.nodes[n]) by {
        assert(!crate::edit_attr::has_attr_edit(b.attrs, n));
        assert(v6.nodes.contains_key(n));
        assert(v6.nodes[n] == v5.nodes[n]);
        assert(w.nodes[n] == v6.nodes[n]);
        assert(v1.nodes[n] == v.nodes[n]);
    }
}

impl EditBatch {
    /// Validate every edit, then apply the whole batch.
    ///
    /// Validation runs over text edits, attribute edits, source-map edits,
    /// removals, insertions, replacements and wraps, in that order, and the
    /// first step that fails reports the error. Any returned error leaves
    /// `document` unchanged.
    #[verifier::rlimit(80)]
    pub fn commit(self, document: &mut Document) -> (r: Result<(), EditError>)
        requires
            old(document).wf(),
            old(document).room() >= nodes_needed(self@),
        ensures
            final(document).wf(),
            r is Ok <==> batch_valid(old(document)@, self@),
            r matches Err(e) ==> error_holds(old(document)@, self@, e),
            r matches Err(e) ==> stage_reports(failing_stage(old(document)@, self@), self@, e),
            r is Err ==> final(document)@ == old(document)@,
            r is Ok ==> committed(old(document)@, self@, final(document)@),
            final(document).room() >= old(document).room() - nodes_needed(self@),
            final(document)@.root == old(document)@.root,
            final(document)@.source == old(document)@.source,
            forall|x: NodeId| old(document).stale(x) ==> final(document).stale(x),
            forall|x: NodeId| #[trigger] old(document)@.nodes.contains_key(x) ==> final(document)@.nodes.contains_key(x)
                || final(document).stale(x),
    {
        let ghost b = self@;
        let ghost v0 = document@;
        let EditBatch { node_patches, structural_edits } = self;
        let NodePatchSet { text, attributes, source_maps } = node_patches;
        let StructuralEditSet { removals, insertions, replacements, wraps } = structural_edits;
        let text_order = sort_text(text.as_slice());
        let attr_order = sort_attrs(attributes.as_slice());
        validate_text(document, text.as_slice(), text_order.as_slice(), Ghost(b))?;
        validate_attrs(document, attributes.as_slice(), Ghost(b))?;
        validate_srcmaps(document, source_maps.as_slice(), Ghost(b))?;
        let edited = edited_nodes(text.as_slice(), attributes.as_slice(), source_maps.as_slice(), Ghost(b));
        proof {
            assert forall|n: NodeId| crate::edit_spec::edited(b, n) implies crate::edit_spec::live(v0, n) by {
                if exists|i: int| #![trigger b.text[i]] 0 <= i < b.text.len() && b.text[i].node == n {
                    let i = choose|i: int| #![trigger b.text[i]] 0 <= i < b.text.len() && b.text[i].node == n;
                    assert(crate::edit_spec::text_target_ok(v0, b.text, i));
                } else if exists|i: int| #![trigger b.attrs[i]] 0 <= i < b.attrs.len() && b.attrs[i].node == n {
                } else {
                }
            }
        }
        validate_removals(document, removals.as_slice(), edited.as_slice(), Ghost(b))?;
        let ins_targets = insertion_targets(insertions.as_slice());
        validate_insertions(document, ins_targets.as_slice(), removals.as_slice(), Ghost(b))?;
        let targets = replacement_targets(replacements.as_slice());
        proof {
            assert forall|i: int| #![trigger removals@[i]] 0 <= i < removals@.len() implies crate::edit_spec::live(v0, removals@[i]) by {
                assert(b.removals[i] == removals@[i]);
            }
            assert forall|k: int| #![trigger ins_targets@[k]] 0 <= k < ins_targets@.len() implies crate::edit_spec::live(v0, ins_targets@[k]) by {
                assert(b.insertions[k].target == ins_targets@[k]);
            }
        }
        validate_replacements(document, targets.as_slice(), removals.as_slice(), edited.as_slice(), ins_targets.as_slice(), Ghost(b))?;
        validate_wraps(document, wraps.as_slice(), removals.as_slice(), targets.as_slice(), ins_targets.as_slice(), Ghost(b))?;
        proof {
            assert(batch_valid(v0, b));
        }
        proof {
            document.lemma_tree();
        }
        let ghost d0 = *document;
        apply_text(document, text.as_slice(), text_order.as_slice());
        let ghost v1 = document@;
        let ghost d1 = *document;
        proof {
            document.lemma_tree();
            lemma_same_links(v0, v1, b);
        }
        apply_structure(document, removals.as_slice(), replacements, wraps, insertions, Ghost(b));
        let ghost v5 = document@;
        let ghost d2 = *document;
        proof {
            assert forall|i: int| #![trigger b.srcmaps[i]] 0 <= i < b.srcmaps.len() implies v5.nodes.contains_key(b.srcmaps[i].node) by {
                let n = b.srcmaps[i].node;
                assert(crate::edit_spec::edited(b, n));
                assert(!crate::edit_apply::destroyed(v1, b, n)) by {
                    if exists|q: int| 0 <= q < b.removals.len() && #[trigger] crate::subtree::in_subtree(v1, b.removals[q], n) {
                        let q = choose|q: int| 0 <= q < b.removals.len() && #[trigger] crate::subtree::in_subtree(v1, b.removals[q], n);
                        assert(!crate::subtree::in_subtree(v0, b.removals[q], n));
                    }
                    if exists|q: int| 0 <= q < b.replacements.len() && #[trigger] crate::subtree::in_subtree(v1, b.replacements[q].target, n) {
                        let q = choose|q: int| 0 <= q < b.replacements.len() && #[trigger] crate::subtree::in_subtree(v1, b.replacements[q].target, n);
                        assert(crate::edit_spec::replaced_targets(b.replacements)[q] == b.replacements[q].target);
                        assert(!crate::subtree::in_subtree(v0, b.replacements[q].target, n));
                    }
                }
            }
            assert(crate::edit_spec::srcmaps_valid(v5, b.srcmaps));
        }
        apply_srcmaps(document, source_maps.as_slice());
        let ghost v6 = document@;
        let ghost d3 = *document;
        proof {
            assert forall|i: int| #![trigger b.attrs[i]] 0 <= i < b.attrs.len() implies v6.nodes.contains_key(b.attrs[i].node) by {
                let n = b.attrs[i].node;
                assert(crate::edit_spec::edited(b, n));
                assert(!crate::edit_apply::destroyed(v1, b, n)) by {
                    if exists|q: int| 0 <= q < b.removals.len() && #[trigger] crate::subtree::in_subtree(v1, b.removals[q], n) {
                        let q = choose|q: int| 0 <= q < b.removals.len() && #[trigger] crate::subtree::in_subtree(v1, b.removals[q], n);
                        assert(!crate::subtree::in_subtree(v0, b.removals[q], n));
                    }
                    if exists|q: int| 0 <= q < b.replacements.len() && #[trigger] crate::subtree::in_subtree(v1, b.replacements[q].target, n) {
                        let q = choose|q: int| 0 <= q < b.replacements.len() && #[trigger] crate::subtree::in_subtree(v1, b.replacements[q].target, n);
                        assert(crate::edit_spec::replaced_targets(b.replacements)[q] == b.replacements[q].target);
                        assert(!crate::subtree::in_subtree(v0, b.replacements[q].target, n));
                    }
                }
            }
            assert(crate::edit_spec::attrs_valid(v6, b.attrs));
        }
        apply_attrs(document, attributes.as_slice(), attr_order.as_slice());
        proof {
            assert(committed(v0, b, document@));
            lemma_retire_chain(d0, d1, d2);
            lemma_retire_chain(d0, d2, d3);
            lemma_retire_chain(d0, d3, *document);
            reveal(kept_or_retired);
        }
        Ok(())
    }
}

} // verus!
