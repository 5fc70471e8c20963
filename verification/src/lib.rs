//! A Markdown document model: an arena-backed syntax tree with stable node
//! handles, transactional edits and text projections.
use vstd::prelude::*;

pub mod arena;
pub mod node;
pub mod document;
pub mod subtree;
pub mod utf8text;
pub mod edit;
pub mod edit_spec;
pub mod edit_text;
pub mod edit_attr;
pub mod edit_check;
pub mod edit_wrap;
pub mod edit_shape;
pub mod edit_apply;
pub mod events;
pub mod typekey;
pub mod slug;
pub mod heading_anchors;
pub mod document_text;
pub mod probe;
pub mod scanners;
pub mod messages;
pub mod link;
pub mod line_offsets;
pub mod directive_attrs;
pub mod tree_text;
pub mod cjk;
pub mod emph_pair;
pub mod code_pair;
pub mod directives;
pub mod alert;
pub mod legacy_roundtrip;
pub mod html_attrs;
pub mod typographer;

verus! {

} // verus!
