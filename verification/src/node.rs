//! Owned syntax trees, node payloads and source positions.
use vstd::prelude::*;

use crate::emph_pair::EmphMarker;

verus! {

/// A byte range of the original Markdown source.
#[derive(Clone, Copy, PartialEq, Eq, Structural, Debug)]
pub struct SourcePos {
    pub start: usize,
    pub end: usize,
}

impl SourcePos {
    pub fn new(start: usize, end: usize) -> (r: SourcePos)
        ensures
            r == (SourcePos { start, end }),
    {
        SourcePos { start, end }
    }

    /// The `(start, end)` byte offsets of this position.
    pub fn get_byte_offsets(&self) -> (r: (usize, usize))
        ensures
            r == (self.start, self.end),
    {
        (self.start, self.end)
    }
}

/// One HTML attribute: `(name, value)`.
pub type HtmlAttribute = (String, String);

/// HTML attributes attached to a node.
pub type HtmlAttributes = Vec<HtmlAttribute>;

/// The document root; holds the whole Markdown source.
#[derive(Debug)]
pub struct Root {
    pub content: String,
}

impl Root {
    pub fn new(content: String) -> (r: Root)
        ensures
            r.content@ == content@,
    {
        Root { content }
    }
}

/// A paragraph block.
#[derive(Debug)]
pub struct Paragraph;

/// A block quote (`> text`).
#[derive(Debug)]
pub struct Blockquote;

/// Plain text.
#[derive(Debug)]
pub struct Text {
    pub content: String,
}

/// Escaped text (backslash escapes and entities).
#[derive(Debug)]
pub struct TextSpecial {
    pub content: String,
    pub markup: String,
    pub info: String,
}

/// A soft line break.
#[derive(Debug)]
pub struct Softbreak;

/// A hard line break.
#[derive(Debug)]
pub struct Hardbreak;

/// Raw inline HTML.
#[derive(Debug)]
pub struct HtmlInline {
    pub content: String,
}

/// An ATX heading (`# Title`).
#[derive(Debug)]
pub struct ATXHeading {
    pub level: u8,
}

/// A setext heading (a title underlined with `=` or `-`).
#[derive(Debug)]
pub struct SetextHeader {
    pub level: u8,
    pub marker: char,
}

/// An autolink (`<https://example.com>`).
#[derive(Debug)]
pub struct Autolink {
    pub url: String,
}

/// Inline code.
#[derive(Debug)]
pub struct CodeInline {
    pub marker: char,
    pub marker_len: usize,
}

/// Emphasis.
#[derive(Debug)]
pub struct Em {
    pub marker: char,
}

/// Strong emphasis.
#[derive(Debug)]
pub struct Strong {
    pub marker: char,
}

/// An image.
#[derive(Debug)]
pub struct Image {
    pub url: String,
    pub title: Option<String>,
}

/// A link.
#[derive(Debug)]
pub struct Link {
    pub url: String,
    pub title: Option<String>,
}

/// Marked (highlighted) text.
#[derive(Debug)]
pub struct Mark;

/// Struck-through text.
#[derive(Debug)]
pub struct Strikethrough {
    pub marker: char,
}

/// The kind of an alert block.
#[derive(Clone, Copy, PartialEq, Eq, Structural, Debug)]
pub enum AlertKind {
    Note,
    Tip,
    Important,
    Warning,
    Caution,
}

/// An alert block (`> [!NOTE]`).
#[derive(Debug)]
pub struct Alert {
    pub kind: AlertKind,
}

/// A task list checkbox.
#[derive(Debug)]
pub struct TaskListMarker {
    pub checked: bool,
}

/// A link found in plain text.
#[derive(Debug)]
pub struct Linkified {
    pub url: String,
}

/// The syntax of a front matter block.
#[derive(Clone, Copy, PartialEq, Eq, Structural, Debug)]
pub enum FrontMatterKind {
    Yaml,
    Toml,
}

/// A front matter block at the start of a document.
#[derive(Debug)]
pub struct FrontMatter {
    pub kind: FrontMatterKind,
    pub raw: String,
    pub start_line: usize,
    pub end_line: usize,
}

/// A payload defined outside the built-in node kinds: a type name and its data.
#[derive(Debug)]
pub struct CustomValue {
    pub name: String,
    pub data: String,
}

/// The kind of a node payload, without its data.
#[derive(Clone, Copy, PartialEq, Eq, Structural, Debug)]
pub enum NodeKind {
    Root,
    Paragraph,
    Blockquote,
    Text,
    TextSpecial,
    Softbreak,
    Hardbreak,
    HtmlInline,
    ATXHeading,
    SetextHeader,
    Autolink,
    CodeInline,
    Em,
    Strong,
    Image,
    Link,
    Mark,
    Strikethrough,
    Alert,
    TaskListMarker,
    Linkified,
    FrontMatter,
    EmphMarker,
    Custom,
}

/// Contents of one syntax tree node.
#[derive(Debug)]
pub enum NodeValue {
    Root(Root),
    Paragraph(Paragraph),
    Blockquote(Blockquote),
    Text(Text),
    TextSpecial(TextSpecial),
    Softbreak(Softbreak),
    Hardbreak(Hardbreak),
    HtmlInline(HtmlInline),
    ATXHeading(ATXHeading),
    SetextHeader(SetextHeader),
    Autolink(Autolink),
    CodeInline(CodeInline),
    Em(Em),
    Strong(Strong),
    Image(Image),
    Link(Link),
    Mark(Mark),
    Strikethrough(Strikethrough),
    Alert(Alert),
    TaskListMarker(TaskListMarker),
    Linkified(Linkified),
    FrontMatter(FrontMatter),
    EmphMarker(EmphMarker),
    Custom(CustomValue),
}

impl NodeValue {
    pub open spec fn spec_kind(&self) -> NodeKind {
        match self {
            NodeValue::Root(_) => NodeKind::Root,
            NodeValue::Paragraph(_) => NodeKind::Paragraph,
            NodeValue::Blockquote(_) => NodeKind::Blockquote,
            NodeValue::Text(_) => NodeKind::Text,
            NodeValue::TextSpecial(_) => NodeKind::TextSpecial,
            NodeValue::Softbreak(_) => NodeKind::Softbreak,
            NodeValue::Hardbreak(_) => NodeKind::Hardbreak,
            NodeValue::HtmlInline(_) => NodeKind::HtmlInline,
            NodeValue::ATXHeading(_) => NodeKind::ATXHeading,
            NodeValue::SetextHeader(_) => NodeKind::SetextHeader,
            NodeValue::Autolink(_) => NodeKind::Autolink,
            NodeValue::CodeInline(_) => NodeKind::CodeInline,
            NodeValue::Em(_) => NodeKind::Em,
            NodeValue::Strong(_) => NodeKind::Strong,
            NodeValue::Image(_) => NodeKind::Image,
            NodeValue::Link(_) => NodeKind::Link,
            NodeValue::Mark(_) => NodeKind::Mark,
            NodeValue::Strikethrough(_) => NodeKind::Strikethrough,
            NodeValue::Alert(_) => NodeKind::Alert,
            NodeValue::TaskListMarker(_) => NodeKind::TaskListMarker,
            NodeValue::Linkified(_) => NodeKind::Linkified,
            NodeValue::FrontMatter(_) => NodeKind::FrontMatter,
            NodeValue::EmphMarker(_) => NodeKind::EmphMarker,
            NodeValue::Custom(_) => NodeKind::Custom,
        }
    }

    pub fn kind(&self) -> (r: NodeKind)
        ensures
            r == self.spec_kind(),
    {
        match self {
            NodeValue::Root(_) => NodeKind::Root,
            NodeValue::Paragraph(_) => NodeKind::Paragraph,
            NodeValue::Blockquote(_) => NodeKind::Blockquote,
            NodeValue::Text(_) => NodeKind::Text,
            NodeValue::TextSpecial(_) => NodeKind::TextSpecial,
            NodeValue::Softbreak(_) => NodeKind::Softbreak,
            NodeValue::Hardbreak(_) => NodeKind::Hardbreak,
            NodeValue::HtmlInline(_) => NodeKind::HtmlInline,
            NodeValue::ATXHeading(_) => NodeKind::ATXHeading,
            NodeValue::SetextHeader(_) => NodeKind::SetextHeader,
            NodeValue::Autolink(_) => NodeKind::Autolink,
            NodeValue::CodeInline(_) => NodeKind::CodeInline,
            NodeValue::Em(_) => NodeKind::Em,
            NodeValue::Strong(_) => NodeKind::Strong,
            NodeValue::Image(_) => NodeKind::Image,
            NodeValue::Link(_) => NodeKind::Link,
            NodeValue::Mark(_) => NodeKind::Mark,
            NodeValue::Strikethrough(_) => NodeKind::Strikethrough,
            NodeValue::Alert(_) => NodeKind::Alert,
            NodeValue::TaskListMarker(_) => NodeKind::TaskListMarker,
            NodeValue::Linkified(_) => NodeKind::Linkified,
            NodeValue::FrontMatter(_) => NodeKind::FrontMatter,
            NodeValue::EmphMarker(_) => NodeKind::EmphMarker,
            NodeValue::Custom(_) => NodeKind::Custom,
        }
    }

    /// The full path of the payload's type in this crate;
    /// a custom payload carries its own.
    pub open spec fn type_path(self) -> Seq<char> {
        match self {
            NodeValue::Root(_) => "markdown_it::node::Root"@,
            NodeValue::Paragraph(_) => "markdown_it::node::Paragraph"@,
            NodeValue::Blockquote(_) => "markdown_it::node::Blockquote"@,
            NodeValue::Text(_) => "markdown_it::node::Text"@,
            NodeValue::TextSpecial(_) => "markdown_it::node::TextSpecial"@,
            NodeValue::Softbreak(_) => "markdown_it::node::Softbreak"@,
            NodeValue::Hardbreak(_) => "markdown_it::node::Hardbreak"@,
            NodeValue::HtmlInline(_) => "markdown_it::node::HtmlInline"@,
            NodeValue::ATXHeading(_) => "markdown_it::node::ATXHeading"@,
            NodeValue::SetextHeader(_) => "markdown_it::node::SetextHeader"@,
            NodeValue::Autolink(_) => "markdown_it::node::Autolink"@,
            NodeValue::CodeInline(_) => "markdown_it::node::CodeInline"@,
            NodeValue::Em(_) => "markdown_it::node::Em"@,
            NodeValue::Strong(_) => "markdown_it::node::Strong"@,
            NodeValue::Image(_) => "markdown_it::node::Image"@,
            NodeValue::Link(_) => "markdown_it::node::Link"@,
            NodeValue::Mark(_) => "markdown_it::node::Mark"@,
            NodeValue::Strikethrough(_) => "markdown_it::node::Strikethrough"@,
            NodeValue::Alert(_) => "markdown_it::node::Alert"@,
            NodeValue::TaskListMarker(_) => "markdown_it::node::TaskListMarker"@,
            NodeValue::Linkified(_) => "markdown_it::node::Linkified"@,
            NodeValue::FrontMatter(_) => "markdown_it::node::FrontMatter"@,
            NodeValue::EmphMarker(_) => "markdown_it::emph_pair::EmphMarker"@,
            NodeValue::Custom(c) => c.name@,
        }
    }

    /// The name of the payload's type.
    pub fn name(&self) -> (r: &str)
        ensures
            r@ == self.type_path(),
    {
        match self {
            NodeValue::Root(_) => "markdown_it::node::Root",
            NodeValue::Paragraph(_) => "markdown_it::node::Paragraph",
            NodeValue::Blockquote(_) => "markdown_it::node::Blockquote",
            NodeValue::Text(_) => "markdown_it::node::Text",
            NodeValue::TextSpecial(_) => "markdown_it::node::TextSpecial",
            NodeValue::Softbreak(_) => "markdown_it::node::Softbreak",
            NodeValue::Hardbreak(_) => "markdown_it::node::Hardbreak",
            NodeValue::HtmlInline(_) => "markdown_it::node::HtmlInline",
            NodeValue::ATXHeading(_) => "markdown_it::node::ATXHeading",
            NodeValue::SetextHeader(_) => "markdown_it::node::SetextHeader",
            NodeValue::Autolink(_) => "markdown_it::node::Autolink",
            NodeValue::CodeInline(_) => "markdown_it::node::CodeInline",
            NodeValue::Em(_) => "markdown_it::node::Em",
            NodeValue::Strong(_) => "markdown_it::node::Strong",
            NodeValue::Image(_) => "markdown_it::node::Image",
            NodeValue::Link(_) => "markdown_it::node::Link",
            NodeValue::Mark(_) => "markdown_it::node::Mark",
            NodeValue::Strikethrough(_) => "markdown_it::node::Strikethrough",
            NodeValue::Alert(_) => "markdown_it::node::Alert",
            NodeValue::TaskListMarker(_) => "markdown_it::node::TaskListMarker",
            NodeValue::Linkified(_) => "markdown_it::node::Linkified",
            NodeValue::FrontMatter(_) => "markdown_it::node::FrontMatter",
            NodeValue::EmphMarker(_) => "markdown_it::emph_pair::EmphMarker",
            NodeValue::Custom(c) => c.name.as_str(),
        }
    }

    /// Whether the payload is of the given kind.
    pub fn is(&self, kind: NodeKind) -> (r: bool)
        ensures
            r == (self.spec_kind() == kind),
    {
        self.kind() == kind
    }

    /// The payload as plain text, if it is a `Text` node.
    pub fn as_text(&self) -> (r: Option<&Text>)
        ensures
            r is Some <==> self is Text,
            r matches Some(t) ==> *t == self->Text_0,
    {
        match self {
            NodeValue::Text(t) => Some(t),
            _ => None,
        }
    }

    /// The payload as a custom value, if it is one.
    pub fn as_custom(&self) -> (r: Option<&CustomValue>)
        ensures
            r is Some <==> self is Custom,
            r matches Some(c) ==> *c == self->Custom_0,
    {
        match self {
            NodeValue::Custom(c) => Some(c),
            _ => None,
        }
    }
}

/// A node of an owned syntax tree: a parsed tree, or a draft to be inserted
/// into a document.
#[derive(Debug)]
pub struct Node {
    /// Child nodes, in order.
    pub children: Vec<Node>,
    /// Source mapping info.
    pub srcmap: Option<SourcePos>,
    /// Additional attributes to be added to resulting html.
    pub attrs: HtmlAttributes,
    /// The node's payload.
    pub node_value: NodeValue,
}

/// An owned subtree that an edit inserts into a document.
pub type NodeDraft = Node;

/// One node of a flattened tree: its own data and the preorder index of its
/// parent (`-1` for the top node).
pub ghost struct FlatNode {
    pub srcmap: Option<SourcePos>,
    pub attrs: Seq<HtmlAttribute>,
    pub value: NodeValue,
    pub parent: int,
}

pub open spec fn flat_entry(n: Node, parent: int) -> FlatNode {
    FlatNode { srcmap: n.srcmap, attrs: n.attrs@, value: n.node_value, parent }
}

/// The preorder listing of a tree whose top node gets parent index `parent`
/// and whose own index is `base`.
pub open spec fn flatten(n: Node, parent: int, base: int) -> Seq<FlatNode>
    decreases n, 1int,
{
    seq![flat_entry(n, parent)] + flatten_forest(n.children@, base, base + 1)
}

/// The preorder listing of a sequence of sibling trees with parent index
/// `parent`, the first of which gets index `base`.
pub open spec fn flatten_forest(s: Seq<Node>, parent: int, base: int) -> Seq<FlatNode>
    decreases s, 0int,
{
    if s.len() == 0 {
        Seq::empty()
    } else {
        let head = flatten(s[0], parent, base);
        head + flatten_forest(s.subrange(1, s.len() as int), parent, base + head.len())
    }
}

/// Number of nodes in a tree.
pub open spec fn tree_size(n: Node) -> nat {
    flatten(n, -1, 0).len()
}


/// The length of a flattened tree does not depend on where it is placed.
pub proof fn lemma_flatten_len(n: Node, p1: int, b1: int, p2: int, b2: int)
    ensures
        flatten(n, p1, b1).len() == flatten(n, p2, b2).len(),
    decreases n, 1int,
{
    lemma_flatten_forest_len(n.children@, b1, b1 + 1, b2, b2 + 1);
}

pub proof fn lemma_flatten_forest_len(s: Seq<Node>, p1: int, b1: int, p2: int, b2: int)
    ensures
        flatten_forest(s, p1, b1).len() == flatten_forest(s, p2, b2).len(),
    decreases s, 0int,
{
    if s.len() > 0 {
        lemma_flatten_len(s[0], p1, b1, p2, b2);
        let h1 = flatten(s[0], p1, b1);
        let h2 = flatten(s[0], p2, b2);
        lemma_flatten_forest_len(
            s.subrange(1, s.len() as int),
            p1,
            b1 + h1.len(),
            p2,
            b2 + h2.len(),
        );
    }
}

/// Flattening a forest with one more tree at the end appends that tree's listing.
pub proof fn lemma_flatten_forest_push(s: Seq<Node>, x: Node, p: int, b: int)
    ensures
        flatten_forest(s.push(x), p, b) == flatten_forest(s, p, b) + flatten(
            x,
            p,
            b + flatten_forest(s, p, b).len(),
        ),
    decreases s.len(),
{
    if s.len() == 0 {
        assert(s.push(x).subrange(1, 1) =~= Seq::<Node>::empty());
        assert(flatten_forest(Seq::<Node>::empty(), p, b + flatten(x, p, b).len()) =~= Seq::<
            FlatNode,
        >::empty());
        assert(flatten_forest(s.push(x), p, b) =~= flatten(x, p, b));
        assert(flatten_forest(s, p, b) =~= Seq::<FlatNode>::empty());
    } else {
        let h = flatten(s[0], p, b);
        let rest = s.subrange(1, s.len() as int);
        assert(s.push(x).subrange(1, s.len() as int + 1) =~= rest.push(x));
        assert(s.push(x)[0] == s[0]);
        lemma_flatten_forest_push(rest, x, p, b + h.len());
        assert(flatten_forest(s.push(x), p, b) =~= h + flatten_forest(rest.push(x), p, b + h.len()));
    }
}

/// The text a node contributes by itself: the content of a `Text` or
/// `TextSpecial` node, a newline for a soft break, nothing otherwise.
pub open spec fn own_text(v: NodeValue) -> Seq<char> {
    match v {
        NodeValue::Text(t) => t.content@,
        NodeValue::TextSpecial(t) => t.content@,
        NodeValue::Softbreak(_) => seq!['\n'],
        _ => Seq::empty(),
    }
}

/// The text of a tree, in preorder.
pub open spec fn tree_text(n: Node) -> Seq<char>
    decreases n, 1int,
{
    own_text(n.node_value) + forest_text(n.children@)
}

/// The text of a sequence of trees, in order.
pub open spec fn forest_text(s: Seq<Node>) -> Seq<char>
    decreases s, 0int,
{
    if s.len() == 0 {
        Seq::empty()
    } else {
        forest_text(s.subrange(0, s.len() - 1)) + tree_text(s[s.len() - 1])
    }
}

impl Node {
    /// Create a childless node with a payload.
    pub fn new(value: NodeValue) -> (r: Node)
        ensures
            r.children@.len() == 0,
            r.srcmap is None,
            r.attrs@.len() == 0,
            r.node_value == value,
    {
        Node { children: Vec::new(), srcmap: None, attrs: Vec::new(), node_value: value }
    }

    /// Name of the payload's type.
    pub fn name(&self) -> (r: &str)
        ensures
            r@ == self.node_value.type_path(),
    {
        self.node_value.name()
    }

    /// Whether the payload is of the given kind.
    pub fn is(&self, kind: NodeKind) -> (r: bool)
        ensures
            r == (self.node_value.spec_kind() == kind),
    {
        self.node_value.is(kind)
    }

    /// Set or clear the source mapping.
    pub fn set_srcmap(&mut self, srcmap: Option<SourcePos>)
        ensures
            final(self).srcmap == srcmap,
            final(self).children == old(self).children,
            final(self).attrs == old(self).attrs,
            final(self).node_value == old(self).node_value,
    {
        self.srcmap = srcmap;
    }

    /// Mutable access to the attributes.
    pub fn attrs_mut(&mut self) -> (r: &mut HtmlAttributes)
        ensures
            *r == old(self).attrs,
            *final(self) == (Node { attrs: *final(r), ..*old(self) }),
    {
        &mut self.attrs
    }

    /// Append a child subtree.
    pub fn push_child(&mut self, child: Node)
        ensures
            final(self).children@ == old(self).children@.push(child),
            final(self).srcmap == old(self).srcmap,
            final(self).attrs == old(self).attrs,
            final(self).node_value == old(self).node_value,
    {
        self.children.push(child);
    }

    /// The payload as plain text, if this is a `Text` node.
    pub fn cast_text(&self) -> (r: Option<&Text>)
        ensures
            r is Some <==> self.node_value is Text,
            r matches Some(t) ==> *t == self.node_value->Text_0,
    {
        self.node_value.as_text()
    }

    /// The payload as a custom value, if it is one.
    pub fn cast_custom(&self) -> (r: Option<&CustomValue>)
        ensures
            r is Some <==> self.node_value is Custom,
            r matches Some(c) ==> *c == self.node_value->Custom_0,
    {
        self.node_value.as_custom()
    }

    /// The payload, if it has the given kind.
    pub fn cast(&self, kind: NodeKind) -> (r: Option<&NodeValue>)
        ensures
            r is Some <==> self.node_value.spec_kind() == kind,
            r matches Some(x) ==> *x == self.node_value,
    {
        if self.node_value.is(kind) {
            Some(&self.node_value)
        } else {
            None
        }
    }

    /// Replace the payload, keeping children, attributes and source mapping.
    pub fn replace(&mut self, value: NodeValue)
        ensures
            final(self).node_value == value,
            final(self).children == old(self).children,
            final(self).attrs == old(self).attrs,
            final(self).srcmap == old(self).srcmap,
    {
        self.node_value = value;
    }

    /// Walk recursively through child nodes and collect all text nodes
    /// into a single string.
    pub fn collect_text(&self) -> (r: String)
        ensures
            r@ == tree_text(*self),
    {
        let mut result = String::new();
        self.collect_into(&mut result);
        proof {
            assert(Seq::<char>::empty() + tree_text(*self) =~= tree_text(*self));
        }
        result
    }

    fn collect_into(&self, out: &mut String)
        ensures
            final(out)@ == old(out)@ + tree_text(*self),
        decreases self,
    {
        match &self.node_value {
            NodeValue::Text(t) => crate::utf8text::append_all(out, t.content.as_str()),
            NodeValue::TextSpecial(t) => crate::utf8text::append_all(out, t.content.as_str()),
            NodeValue::Softbreak(_) => crate::utf8text::push_char(out, '\n'),
            _ => {},
        }
        let ghost mid = out@;
        proof {
            assert(mid == old(out)@ + own_text(self.node_value));
            assert(self.children@.subrange(0, 0) =~= Seq::<Node>::empty());
        }
        let mut i: usize = 0;
        while i < self.children.len()
            invariant
                i <= self.children@.len(),
                out@ == mid + forest_text(self.children@.subrange(0, i as int)),
            decreases self.children@.len() - i,
        {
            let ghost before = out@;
            proof {
                assert(decreases_to!(*self => self.children@[i as int]));
            }
            self.children[i].collect_into(out);
            proof {
                let s = self.children@.subrange(0, i as int + 1);
                assert(s.subrange(0, s.len() - 1) =~= self.children@.subrange(0, i as int));
                assert(s[s.len() - 1] == self.children@[i as int]);
            }
            i = i + 1;
        }
        proof {
            assert(self.children@.subrange(0, self.children@.len() as int) =~= self.children@);
        }
    }

    /// The children, in order.
    pub fn children(&self) -> (r: &[Node])
        ensures
            r@ == self.children@,
    {
        self.children.as_slice()
    }
}

} // verus!
