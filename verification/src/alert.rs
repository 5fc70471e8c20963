//! GitHub alerts: a top-level block quote whose first line is a marker such
//! as `[!NOTE]` becomes an alert of that kind.
use vstd::prelude::*;

use crate::node::{Alert, AlertKind, Node, NodeValue};

verus! {

/// The kind of alert that the marker text `s` names.
pub open spec fn kind_of_marker(s: Seq<char>) -> Option<AlertKind> {
    if s == "[!NOTE]"@ {
        Some(AlertKind::Note)
    } else if s == "[!TIP]"@ {
        Some(AlertKind::Tip)
    } else if s == "[!IMPORTANT]"@ {
        Some(AlertKind::Important)
    } else if s == "[!WARNING]"@ {
        Some(AlertKind::Warning)
    } else if s == "[!CAUTION]"@ {
        Some(AlertKind::Caution)
    } else {
        None
    }
}

/// Whether `s` holds the text `lit`.
fn text_is(s: &String, lit: &str) -> (r: bool)
    ensures
        r == (s@ == lit@),
{
    *s == lit.to_owned()
}

impl AlertKind {
    /// The kind that the marker `marker` names, such as `[!NOTE]`.
    pub fn parse(marker: &str) -> (r: Option<AlertKind>)
        ensures
            r == kind_of_marker(marker@),
    {
        let s = marker.to_owned();
        if text_is(&s, "[!NOTE]") {
            Some(AlertKind::Note)
        } else if text_is(&s, "[!TIP]") {
            Some(AlertKind::Tip)
        } else if text_is(&s, "[!IMPORTANT]") {
            Some(AlertKind::Important)
        } else if text_is(&s, "[!WARNING]") {
            Some(AlertKind::Warning)
        } else if text_is(&s, "[!CAUTION]") {
            Some(AlertKind::Caution)
        } else {
            None
        }
    }

    /// The kind's name, as used in class names: `note`, `tip`, ...
    pub fn name(self) -> (r: &'static str)
        ensures
            r@ == (match self {
                AlertKind::Note => "note"@,
                AlertKind::Tip => "tip"@,
                AlertKind::Important => "important"@,
                AlertKind::Warning => "warning"@,
                AlertKind::Caution => "caution"@,
            }),
    {
        match self {
            AlertKind::Note => "note",
            AlertKind::Tip => "tip",
            AlertKind::Important => "important",
            AlertKind::Warning => "warning",
            AlertKind::Caution => "caution",
        }
    }

    /// The kind's title: `Note`, `Tip`, ...
    pub fn title(self) -> (r: &'static str)
        ensures
            r@ == (match self {
                AlertKind::Note => "Note"@,
                AlertKind::Tip => "Tip"@,
                AlertKind::Important => "Important"@,
                AlertKind::Warning => "Warning"@,
                AlertKind::Caution => "Caution"@,
            }),
    {
        match self {
            AlertKind::Note => "Note",
            AlertKind::Tip => "Tip",
            AlertKind::Important => "Important",
            AlertKind::Warning => "Warning",
            AlertKind::Caution => "Caution",
        }
    }
}

/// Whether `v` is a line break.
pub open spec fn is_break(v: NodeValue) -> bool {
    v is Softbreak || v is Hardbreak
}

/// The alert that the block quote `n` opens: its first child is a paragraph
/// whose first child is a text that is exactly a marker, followed by nothing
/// or by a line break.
pub open spec fn alert_in(n: Node) -> Option<AlertKind> {
    if n.node_value is Blockquote && n.children@.len() > 0 && n.children@[0].node_value is Paragraph {
        let p = n.children@[0];
        if p.children@.len() > 0 && p.children@[0].node_value is Text {
            match kind_of_marker(p.children@[0].node_value->Text_0.content@) {
                Some(k) => if p.children@.len() > 1 && !is_break(p.children@[1].node_value) {
                    None
                } else {
                    Some(k)
                },
                None => None,
            }
        } else {
            None
        }
    } else {
        None
    }
}

/// What is left of the paragraph's children once the marker, and a line
/// break after it, are gone.
pub open spec fn after_marker(kids: Seq<Node>) -> Seq<Node> {
    if kids.len() > 1 && is_break(kids[1].node_value) {
        kids.skip(2)
    } else {
        kids.skip(1)
    }
}

/// `b` is `a` turned into an alert, if `a` opens one: the marker (and a line
/// break after it) leave the first paragraph, an emptied paragraph leaves the
/// block, and the block becomes an alert of the marker's kind.
pub open spec fn alerted(a: Node, b: Node) -> bool {
    match alert_in(a) {
        None => b == a,
        Some(kind) => {
            let p = a.children@[0];
            let rest = after_marker(p.children@);
            &&& b.node_value == NodeValue::Alert(Alert { kind })
            &&& b.srcmap == a.srcmap
            &&& b.attrs == a.attrs
            &&& if rest.len() == 0 {
                b.children@ == a.children@.skip(1)
            } else {
                &&& b.children@.len() == a.children@.len()
                &&& b.children@.skip(1) == a.children@.skip(1)
                &&& b.children@[0].children@ == rest
                &&& b.children@[0].node_value == p.node_value
                &&& b.children@[0].srcmap == p.srcmap
                &&& b.children@[0].attrs == p.attrs
            }
        },
    }
}

/// The transform that turns block quotes into alerts.
pub struct AlertScanner;

impl AlertScanner {
    /// Turn the block quote `node` into an alert if its first line is an
    /// alert marker.
    pub fn process(node: &mut Node)
        ensures
            alerted(*old(node), *final(node)),
    {
        let is_quote = match &node.node_value {
            NodeValue::Blockquote(_) => true,
            _ => false,
        };
        if !is_quote || node.children.len() == 0 {
            return;
        }
        let kind = {
            let p = &node.children[0];
            let is_para = match &p.node_value {
                NodeValue::Paragraph(_) => true,
                _ => false,
            };
            if !is_para || p.children.len() == 0 {
                return;
            }
            let found = match &p.children[0].node_value {
                NodeValue::Text(t) => AlertKind::parse(t.content.as_str()),
                _ => None,
            };
            let kind = match found {
                Some(k) => k,
                None => {
                    return;
                },
            };
            if p.children.len() > 1 {
                let brk = match &p.children[1].node_value {
                    NodeValue::Softbreak(_) => true,
                    NodeValue::Hardbreak(_) => true,
                    _ => false,
                };
                if !brk {
                    return;
                }
            }
            kind
        };
        let ghost a = *node;
        let mut kids: Vec<Node> = Vec::new();
        std::mem::swap(&mut kids, &mut node.children);
        let mut p = kids.remove(0);
        let ghost pk = p.children@;
        p.children.remove(0);
        let drop_break = p.children.len() > 0 && match &p.children[0].node_value {
            NodeValue::Softbreak(_) => true,
            NodeValue::Hardbreak(_) => true,
            _ => false,
        };
        if drop_break {
            p.children.remove(0);
        }
        proof {
            assert(p.children@ =~= after_marker(pk));
        }
        if p.children.len() > 0 {
            kids.insert(0, p);
        }
        node.children = kids;
        node.node_value = NodeValue::Alert(Alert { kind });
        proof {
            assert(node.children@.skip(1) =~= a.children@.skip(1) || node.children@ =~= a.children@.skip(1));
        }
    }

    /// Turn every top-level block quote of `root` into an alert where its
    /// first line is an alert marker.
    pub fn run(root: &mut Node)
        ensures
            final(root).node_value == old(root).node_value,
            final(root).srcmap == old(root).srcmap,
            final(root).attrs == old(root).attrs,
            final(root).children@.len() == old(root).children@.len(),
            forall|i: int|
                0 <= i < old(root).children@.len() ==> alerted(
                    #[trigger] old(root).children@[i],
                    final(root).children@[i],
                ),
    {
        let mut kids: Vec<Node> = Vec::new();
        std::mem::swap(&mut kids, &mut root.children);
        let ghost before = kids@;
        let mut rest: Vec<Node> = Vec::new();
        proof {
            assert(kids@ =~= before.subrange(0, kids@.len() as int));
            assert(rest@ =~= before.subrange(kids@.len() as int, before.len() as int).reverse());
        }
        while kids.len() > 0
            invariant
                kids@ == before.subrange(0, kids@.len() as int),
                kids@.len() <= before.len(),
                rest@ == before.subrange(kids@.len() as int, before.len() as int).reverse(),
            decreases kids@.len(),
        {
            let ghost k = kids@.len() as int;
            let x = kids.pop().unwrap();
            rest.push(x);
            proof {
                assert(kids@ =~= before.subrange(0, k - 1));
                assert(rest@ =~= before.subrange(k - 1, before.len() as int).reverse());
            }
        }
        let mut done: Vec<Node> = Vec::new();
        while rest.len() > 0
            invariant
                done@.len() + rest@.len() == before.len(),
                rest@ == before.subrange(done@.len() as int, before.len() as int).reverse(),
                forall|j: int| 0 <= j < done@.len() ==> alerted(#[trigger] before[j], done@[j]),
            decreases rest@.len(),
        {
            let ghost k = done@.len() as int;
            let mut child = rest.pop().unwrap();
            proof {
                assert(child == before[k]);
                assert(rest@ =~= before.subrange(k + 1, before.len() as int).reverse());
            }
            AlertScanner::process(&mut child);
            done.push(child);
        }
        root.children = done;
    }
}

} // verus!
