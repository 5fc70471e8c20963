# markdown_it (verified core)

A Markdown document model and the parsing helpers around it, written in Verus
and proved against its contracts.

- `node`, `arena`, `document`, `subtree`: owned syntax trees, an arena with
  generation-checked node handles, and the document built on it.
- `edit*`: transactional edit batches (text, attributes, source maps,
  removals, insertions, replacements, wraps), validated as a whole and
  applied atomically.
- `events`, `document_text`, `tree_text`: structural and text event streams
  and deferred text edits on owned trees.
- `legacy_roundtrip`: moving a tree into a document and back keeps it.
- Inline and block scanners: `scanners`, `link`, `code_pair`, `emph_pair`,
  `cjk`, `directive_attrs`, `directives`, `alert`, `line_offsets`.
- `slug`, `heading_anchors`: heading identifiers, unique per document.
- `typographer`: typographic replacements, made with the `regex` crate.
- `html_attrs`, `messages`: how attributes and errors are written out.

`tests/` exercises the library on concrete values.
