//! Ordering, checking and applying the text edits of a batch.
use vstd::prelude::*;
use vstd::utf8::{encode_utf8_valid_utf8, is_char_boundary};

use crate::arena::NodeId;
use crate::document::{kept_or_retired, Document, DocView, DocumentNode};
use crate::edit::{replacement_bytes, BatchView, EditError, ReplaceText};
use crate::edit_spec::{
    batch_valid, child_index, error_holds, stage_reports, edited, insertions_valid, live, range_ok, referenced,
    removals_valid, replaced_targets, replacements_valid, text_bytes, text_key_lt, text_range_ok,
    text_target_ok, text_valid, texts_overlap, wrap_ok, wrap_parent, wrap_selects, wraps_overlap,
    wraps_valid,
};
use crate::document::{node_ok, tree_wf};
use crate::edit::WrapRange;
use crate::subtree::{disjoint_roots, in_subtree, reaches};
use crate::utf8text::{append_range, byte_len, utf8};
use crate::node::{NodeValue, Text};

verus! {

/// Text edit `i` is applied before text edit `j`: by node handle, then by
/// start, end and call order.
pub open spec fn text_before(t: Seq<ReplaceText>, i: int, j: int) -> bool {
    let a = t[i].node;
    let b = t[j].node;
    ||| a.spec_slot() < b.spec_slot()
    ||| (a.spec_slot() == b.spec_slot() && a.spec_generation() < b.spec_generation())
    ||| (a.spec_slot() == b.spec_slot() && a.spec_generation() == b.spec_generation()
        && text_key_lt(t, i, j))
}

/// `order` lists each of `0..n` exactly once.
pub open spec fn perm_of(order: Seq<usize>, n: int) -> bool {
    &&& order.len() == n
    &&& order.no_duplicates()
    &&& forall|k: int| #![trigger order[k]] 0 <= k < order.len() ==> order[k] < n
    &&& forall|i: int| 0 <= i < n ==> #[trigger] order.contains(i as usize)
}

/// `order` lists the text edits in application order.
pub open spec fn text_sorted(t: Seq<ReplaceText>, order: Seq<usize>) -> bool {
    forall|a: int, b: int|
        #![trigger order[a], order[b]]
        0 <= a < b < order.len() ==> text_before(t, order[a] as int, order[b] as int)
}

proof fn lemma_text_before_trans(t: Seq<ReplaceText>, i: int, j: int, k: int)
    requires
        text_before(t, i, j),
        text_before(t, j, k),
    ensures
        text_before(t, i, k),
{
}

proof fn lemma_text_before_total(t: Seq<ReplaceText>, i: int, j: int)
    requires
        i != j,
    ensures
        text_before(t, i, j) || text_before(t, j, i),
{
}

/// Whether text edit `i` is applied before text edit `j`.
fn text_precedes(t: &[ReplaceText], i: usize, j: usize) -> (r: bool)
    requires
        i < t@.len(),
        j < t@.len(),
    ensures
        r == text_before(t@, i as int, j as int),
{
    let a = &t[i];
    let b = &t[j];
    let (sa, sb) = (a.node.slot(), b.node.slot());
    let (ga, gb) = (a.node.generation(), b.node.generation());
    if sa != sb {
        return sa < sb;
    }
    if ga != gb {
        return ga < gb;
    }
    if a.start != b.start {
        return a.start < b.start;
    }
    if a.end != b.end {
        return a.end < b.end;
    }
    i < j
}

/// The text edits' indices in application order.
pub fn sort_text(t: &[ReplaceText]) -> (order: Vec<usize>)
    ensures
        perm_of(order@, t@.len() as int),
        text_sorted(t@, order@),
{
    let mut order: Vec<usize> = Vec::new();
    let mut k: usize = 0;
    while k < t.len()
        invariant
            k <= t@.len(),
            order@.len() == k,
            order@.no_duplicates(),
            forall|q: int| #![trigger order@[q]] 0 <= q < order@.len() ==> order@[q] < k,
            forall|i: int| 0 <= i < k ==> #[trigger] order@.contains(i as usize),
            text_sorted(t@, order@),
        decreases t@.len() - k,
    {
        let mut p: usize = 0;
        while p < order.len() && !text_precedes(t, k, order[p])
            invariant
                k < t@.len(),
                p <= order@.len(),
                order@.len() == k,
                forall|q: int| #![trigger order@[q]] 0 <= q < order@.len() ==> order@[q] < k,
                forall|q: int|
                    #![trigger order@[q]]
                    0 <= q < p ==> !text_before(t@, k as int, order@[q] as int),
            decreases order@.len() - p,
        {
            p = p + 1;
        }
        let ghost old_order = order@;
        order.insert(p, k);
        proof {
            assert(order@ == old_order.insert(p as int, k));
            assert forall|q: int| #![trigger order@[q]] 0 <= q < order@.len() implies order@[q] < k
                + 1 by {}
            assert forall|i: int| 0 <= i < k + 1 implies #[trigger] order@.contains(i as usize) by {
                if i < k {
                    assert(old_order.contains(i as usize));
                    let q = choose|q: int| 0 <= q < old_order.len() && old_order[q] == i as usize;
                    if q < p {
                        assert(order@[q] == i as usize);
                    } else {
                        assert(order@[q + 1] == i as usize);
                    }
                } else {
                    assert(order@[p as int] == k);
                }
            }
            assert(order@.no_duplicates()) by {
                assert forall|a: int, b: int|
                    0 <= a < order@.len() && 0 <= b < order@.len() && a != b implies order@[a]
                    != order@[b] by {
                    if a != p && b != p {
                        let a0 = if a < p { a } else { a - 1 };
                        let b0 = if b < p { b } else { b - 1 };
                        assert(old_order[a0] == order@[a]);
                        assert(old_order[b0] == order@[b]);
                    } else if a == p {
                        let b0 = if b < p { b } else { b - 1 };
                        assert(old_order[b0] < k);
                    } else {
                        let a0 = if a < p { a } else { a - 1 };
                        assert(old_order[a0] < k);
                    }
                }
            }
            assert forall|a: int, b: int|
                #![trigger order@[a], order@[b]]
                0 <= a < b < order@.len() implies text_before(
                t@,
                order@[a] as int,
                order@[b] as int,
            ) by {
                if b < p {
                    assert(old_order[a] == order@[a] && old_order[b] == order@[b]);
                } else if b == p {
                    assert(order@[a] == old_order[a]);
                    assert(!text_before(t@, k as int, old_order[a] as int));
                    lemma_text_before_total(t@, k as int, old_order[a] as int);
                } else if a > p {
                    assert(old_order[a - 1] == order@[a] && old_order[b - 1] == order@[b]);
                } else if a == p {
                    assert(order@[b] == old_order[b - 1]);
                    assert(text_before(t@, k as int, old_order[p as int] as int));
                    if b - 1 > p {
                        lemma_text_before_trans(
                            t@,
                            k as int,
                            old_order[p as int] as int,
                            old_order[b - 1] as int,
                        );
                    }
                } else {
                    assert(order@[a] == old_order[a] && order@[b] == old_order[b - 1]);
                }
            }
        }
        k = k + 1;
    }
    order
}

/// Two positions of a sorted order whose edits name the same node enclose
/// only edits of that node.
proof fn lemma_same_node_between(t: Seq<ReplaceText>, order: Seq<usize>, q: int, m: int, k: int)
    requires
        text_sorted(t, order),
        0 <= q < m < k < order.len(),
        perm_of(order, t.len() as int),
        t[order[q] as int].node == t[order[k] as int].node,
    ensures
        t[order[m] as int].node == t[order[k] as int].node,
{
    assert(text_before(t, order[q] as int, order[m] as int));
    assert(text_before(t, order[m] as int, order[k] as int));
    NodeId::lemma_eq_by_parts(t[order[m] as int].node, t[order[k] as int].node);
    NodeId::lemma_eq_by_parts(t[order[q] as int].node, t[order[k] as int].node);
}

/// Check every text edit, in application order.
#[verifier::rlimit(60)]
pub(crate) fn validate_text(doc: &Document, t: &[ReplaceText], order: &[usize], Ghost(b): Ghost<BatchView>) -> (r: Result<(), EditError>)
    requires
        doc.wf(),
        b.text == t@,
        perm_of(order@, t@.len() as int),
        text_sorted(t@, order@),
    ensures
        r is Ok <==> text_valid(doc@, t@),
        r matches Err(e) ==> error_holds(doc@, b, e),
        r matches Err(e) ==> stage_reports(0, b, e),
{
    let ghost v = doc@;
    let n = order.len();
    let mut k: usize = 0;
    let mut content: &str = "";
    while k < n
        invariant
            n == order@.len(),
            n == t@.len(),
            b.text == t@,
            v == doc@,
            perm_of(order@, t@.len() as int),
            text_sorted(t@, order@),
            k <= n,
            forall|q: int|
                #![trigger order@[q]]
                0 <= q < k ==> text_target_ok(v, t@, order@[q] as int) && text_range_ok(
                    v,
                    t@,
                    order@[q] as int,
                ),
            forall|q1: int, q2: int|
                #![trigger order@[q1], order@[q2]]
                0 <= q1 < q2 < k && t@[order@[q1] as int].node == t@[order@[q2] as int].node
                    ==> t@[order@[q2] as int].start >= t@[order@[q1] as int].end,
            k > 0 ==> forall|q: int|
                #![trigger order@[q]]
                0 <= q < k && t@[order@[q] as int].node == t@[order@[k - 1] as int].node
                    ==> t@[order@[q] as int].end <= t@[order@[k - 1] as int].end,
            k > 0 ==> content@ == v.nodes[t@[order@[k - 1] as int].node].node_value->Text_0.content@,
        decreases n - k,
    {
        let i = order[k];
        let node = t[i].node;
        let fresh = k == 0 || t[order[k - 1]].node != node;
        if fresh {
            let dn = match doc.node(node) {
                Ok(dn) => dn,
                Err(e) => {
                    proof {
                        assert(b.text[i as int].node == node);
                        assert(edited(b, node));
                    }
                    return Err(EditError::InvalidNode(e));
                },
            };
            match dn.cast_text() {
                Some(text) => {
                    content = text.content.as_str();
                },
                None => {
                    proof {
                        assert(t@[i as int].node == node);
                    }
                    return Err(EditError::NotEditableText(node));
                },
            }
        }
        proof {
            if !fresh {
                assert(text_target_ok(v, t@, order@[k - 1] as int));
            }
            encode_utf8_valid_utf8(content@);
        }
        let start = t[i].start;
        let end = t[i].end;
        let len = byte_len(content);
        if start > end || end > len || !content.is_char_boundary(start) || !content.is_char_boundary(end) {
            proof {
                assert(text_target_ok(v, t@, i as int));
                assert(!text_range_ok(v, t@, i as int));
            }
            return Err(EditError::InvalidTextRange { node, range: start..end });
        }
        proof {
            assert(text_range_ok(v, t@, i as int));
        }
        if !fresh {
            let prev = order[k - 1];
            if start < t[prev].end {
                proof {
                    assert(text_before(t@, prev as int, i as int));
                    assert(texts_overlap(t@, prev as int, i as int));
                    assert(text_target_ok(v, t@, prev as int));
                    assert(text_range_ok(v, t@, prev as int));
                }
                return Err(EditError::OverlappingTextEdits {
                    node,
                    first: t[prev].start..t[prev].end,
                    second: start..end,
                });
            }
        }
        proof {
            assert forall|q1: int, q2: int|
                #![trigger order@[q1], order@[q2]]
                0 <= q1 < q2 < k + 1 && t@[order@[q1] as int].node == t@[order@[q2] as int].node
                    implies t@[order@[q2] as int].start >= t@[order@[q1] as int].end by {
                if q2 == k {
                    if fresh {
                        if q1 < k - 1 {
                            lemma_same_node_between(t@, order@, q1, k - 1, k as int);
                        }
                    } else {
                        assert(t@[order@[q1] as int].end <= t@[order@[k - 1] as int].end);
                    }
                }
            }
            assert forall|q: int|
                #![trigger order@[q]]
                0 <= q < k + 1 && t@[order@[q] as int].node == t@[order@[k as int] as int].node
                    implies t@[order@[q] as int].end <= t@[order@[k as int] as int].end by {
                if q < k {
                    if fresh {
                        if q < k - 1 {
                            lemma_same_node_between(t@, order@, q, k - 1, k as int);
                        }
                        assert(false);
                    } else {
                        assert(t@[order@[q] as int].end <= t@[order@[k - 1] as int].end);
                    }
                }
            }
        }
        k = k + 1;
    }
    proof {
        assert forall|i: int| #![trigger t@[i]] 0 <= i < t@.len() implies text_target_ok(v, t@, i)
            && text_range_ok(v, t@, i) by {
            assert(order@.contains(i as usize));
            let q = choose|q: int| 0 <= q < order@.len() && order@[q] == i as usize;
            assert(order@[q] == i as usize);
        }
        assert forall|i: int, j: int| 0 <= i < t@.len() && 0 <= j < t@.len() implies !#[trigger] texts_overlap(t@, i, j) by {
            if texts_overlap(t@, i, j) {
                assert(order@.contains(i as usize));
                assert(order@.contains(j as usize));
                let qi = choose|q: int| 0 <= q < order@.len() && order@[q] == i as usize;
                let qj = choose|q: int| 0 <= q < order@.len() && order@[q] == j as usize;
                if qi < qj {
                    assert(order@[qi] == i as usize && order@[qj] == j as usize);
                } else {
                    assert(qi != qj);
                    assert(text_before(t@, order@[qj] as int, order@[qi] as int));
                    NodeId::lemma_eq_by_parts(t@[i].node, t@[j].node);
                }
            }
        }
    }
    Ok(())
}

/// `idx` lists, in application order, the indices of all text edits of node
/// `n`.
pub open spec fn group_of(t: Seq<ReplaceText>, n: NodeId, idx: Seq<int>) -> bool {
    &&& idx.no_duplicates()
    &&& forall|k: int|
        #![trigger idx[k]]
        0 <= k < idx.len() ==> 0 <= idx[k] < t.len() && t[idx[k]].node == n
    &&& forall|i: int| 0 <= i < t.len() && t[i].node == n ==> #[trigger] idx.contains(i)
    &&& forall|a: int, b: int|
        #![trigger idx[a], idx[b]]
        0 <= a < b < idx.len() ==> text_key_lt(t, idx[a], idx[b])
}

/// The edits at the indices `idx`.
pub open spec fn group_edits(t: Seq<ReplaceText>, idx: Seq<int>) -> Seq<ReplaceText> {
    idx.map_values(|i: int| t[i])
}

/// The bytes of `b` from `pos` on, with each range of `es` (in order, after
/// `pos`) replaced by its replacement.
pub open spec fn splice_from(b: Seq<u8>, es: Seq<ReplaceText>, pos: int) -> Seq<u8>
    decreases es.len(),
{
    if es.len() == 0 {
        b.subrange(pos, b.len() as int)
    } else {
        b.subrange(pos, es[0].start as int) + replacement_bytes(es[0].replacement) + splice_from(
            b,
            es.drop_first(),
            es[0].end as int,
        )
    }
}

/// Node `n` has some text edit.
pub open spec fn has_text_edit(t: Seq<ReplaceText>, n: NodeId) -> bool {
    exists|i: int| #![trigger t[i]] 0 <= i < t.len() && t[i].node == n
}

/// `content` is the content of `Text` node `n` after its text edits.
pub open spec fn text_result(v: DocView, t: Seq<ReplaceText>, n: NodeId, content: Seq<char>) -> bool {
    exists|idx: Seq<int>|
        group_of(t, n, idx) && utf8(content) == splice_from(
            text_bytes(v, n),
            group_edits(t, idx),
            0,
        )
}

/// `w` is `v` with the text edits `t` applied: each edited `Text` node gets
/// its spliced content, and nothing else changes.
pub open spec fn text_applied(v: DocView, w: DocView, t: Seq<ReplaceText>) -> bool {
    &&& w.source == v.source
    &&& w.root == v.root
    &&& w.depth == v.depth
    &&& w.nodes.dom() == v.nodes.dom()
    &&& forall|n: NodeId|
        #[trigger] w.nodes.contains_key(n) ==> if has_text_edit(t, n) {
            exists|c: String|
                w.nodes[n] == DocumentNode {
                    node_value: NodeValue::Text(Text { content: c }),
                    ..v.nodes[n]
                } && text_result(v, t, n, c@)
        } else {
            w.nodes[n] == v.nodes[n]
        }
}

/// Build the spliced content of one text node from the edits at positions
/// `g0..g1` of `order`.
#[verifier::rlimit(40)]
fn splice_group(content: &str, t: &[ReplaceText], order: &[usize], g0: usize, g1: usize) -> (out: String)
    requires
        perm_of(order@, t@.len() as int),
        0 <= g0 < g1 <= order@.len(),
        forall|q: int| #![trigger order@[q]] g0 <= q < g1 ==> range_ok(utf8(content@), t@[order@[q] as int].start as int, t@[order@[q] as int].end as int),
        forall|q1: int, q2: int| #![trigger order@[q1], order@[q2]] g0 <= q1 < q2 < g1 ==> t@[order@[q2] as int].start >= t@[order@[q1] as int].end,
    ensures
        utf8(out@) == splice_from(
            utf8(content@),
            group_edits(t@, order@.subrange(g0 as int, g1 as int).map_values(|x: usize| x as int)),
            0,
        ),
{
    let ghost bytes = utf8(content@);
    let ghost es = group_edits(t@, order@.subrange(g0 as int, g1 as int).map_values(|x: usize| x as int));
    let len = byte_len(content);
    proof {
        encode_utf8_valid_utf8(content@);
        vstd::utf8::is_char_boundary_start_end_of_seq(bytes);
        assert(es.len() == g1 - g0);
        assert forall|j: int| 0 <= j < es.len() implies #[trigger] es[j] == t@[order@[g0 + j] as int] by {}
    }
    let mut out = String::new();
    let mut copied: usize = 0;
    let mut q = g0;
    proof {
        assert(es.subrange(0, es.len() as int) =~= es);
        assert(utf8(out@) =~= Seq::<u8>::empty()) by {
            assert(out@ =~= Seq::<char>::empty());
        }
    }
    while q < g1
        invariant
            g0 <= q <= g1,
            g1 <= order@.len(),
            perm_of(order@, t@.len() as int),
            es.len() == g1 - g0,
            len == bytes.len(),
            bytes == utf8(content@),
            forall|j: int| 0 <= j < es.len() ==> #[trigger] es[j] == t@[order@[g0 + j] as int],
            forall|r: int| #![trigger order@[r]] g0 <= r < g1 ==> range_ok(bytes, t@[order@[r] as int].start as int, t@[order@[r] as int].end as int),
            forall|q1: int, q2: int| #![trigger order@[q1], order@[q2]] g0 <= q1 < q2 < g1 ==> t@[order@[q2] as int].start >= t@[order@[q1] as int].end,
            copied <= len,
            is_char_boundary(bytes, copied as int),
            q > g0 ==> copied == t@[order@[q - 1] as int].end,
            q == g0 ==> copied == 0,
            utf8(out@) + splice_from(bytes, es.subrange(q - g0, es.len() as int), copied as int)
                == splice_from(bytes, es, 0),
        decreases g1 - q,
    {
        let e = &t[order[q]];
        proof {
            assert(range_ok(bytes, e.start as int, e.end as int));
            if q > g0 {
                assert(e.start >= t@[order@[q - 1] as int].end);
            }
            let rest = es.subrange(q - g0, es.len() as int);
            assert(rest[0] == es[q - g0]);
            assert(rest.drop_first() =~= es.subrange(q - g0 + 1, es.len() as int));
        }
        let ghost before = utf8(out@);
        let ghost c0 = copied;
        append_range(&mut out, content, copied, e.start);
        e.replacement.push_to(&mut out);
        copied = e.end;
        proof {
            assert(utf8(out@) == before + bytes.subrange(c0 as int, e.start as int)
                + replacement_bytes(e.replacement));
        }
        q = q + 1;
    }
    let ghost before = utf8(out@);
    append_range(&mut out, content, copied, len);
    proof {
        assert(es.subrange(g1 - g0, es.len() as int) =~= Seq::<ReplaceText>::empty());
        assert(bytes.subrange(copied as int, len as int) =~= bytes.subrange(copied as int, bytes.len() as int));
    }
    out
}

/// The positions `g0..g1` of a sorted order, bounded by edits of other nodes,
/// hold all edits of node `n`, in application order.
proof fn lemma_group_of(t: Seq<ReplaceText>, order: Seq<usize>, g0: int, g1: int, n: NodeId)
    requires
        perm_of(order, t.len() as int),
        text_sorted(t, order),
        t.len() <= usize::MAX,
        0 <= g0 < g1 <= order.len(),
        forall|q: int| #![trigger order[q]] g0 <= q < g1 ==> t[order[q] as int].node == n,
        g0 > 0 ==> t[order[g0 - 1] as int].node != n,
        g1 < order.len() ==> t[order[g1] as int].node != n,
    ensures
        group_of(t, n, order.subrange(g0, g1).map_values(|x: usize| x as int)),
{
    let idx = order.subrange(g0, g1).map_values(|x: usize| x as int);
    assert forall|k: int| #![trigger idx[k]] 0 <= k < idx.len() implies 0 <= idx[k] < t.len()
        && t[idx[k]].node == n by {
        assert(idx[k] == order[g0 + k] as int);
    }
    assert(idx.no_duplicates()) by {
        assert forall|a: int, b: int| 0 <= a < idx.len() && 0 <= b < idx.len() && a != b implies idx[a] != idx[b] by {
            assert(idx[a] == order[g0 + a] as int);
            assert(idx[b] == order[g0 + b] as int);
        }
    }
    assert forall|i: int| 0 <= i < t.len() && t[i].node == n implies #[trigger] idx.contains(i) by {
        assert(order.contains(i as usize));
        let q = choose|q: int| 0 <= q < order.len() && order[q] == i as usize;
        assert(t[order[g0] as int].node == n);
        assert(t[order[q] as int].node == n);
        if q < g0 {
            if q < g0 - 1 {
                lemma_same_node_between(t, order, q, g0 - 1, g0);
            }
            assert(false);
        } else if q >= g1 {
            if q > g1 {
                lemma_same_node_between(t, order, g0, g1, q);
            }
            assert(false);
        } else {
            assert(idx[q - g0] == i);
        }
    }
    assert forall|a: int, b: int| #![trigger idx[a], idx[b]] 0 <= a < b < idx.len() implies text_key_lt(t, idx[a], idx[b]) by {
        assert(idx[a] == order[g0 + a] as int);
        assert(idx[b] == order[g0 + b] as int);
        assert(text_before(t, order[g0 + a] as int, order[g0 + b] as int));
        NodeId::lemma_eq_by_parts(t[idx[a]].node, t[idx[b]].node);
    }
}

/// Apply all text edits, one node at a time.
#[verifier::rlimit(80)]
pub fn apply_text(doc: &mut Document, t: &[ReplaceText], order: &[usize])
    requires
        old(doc).wf(),
        text_valid(old(doc)@, t@),
        perm_of(order@, t@.len() as int),
        text_sorted(t@, order@),
    ensures
        final(doc).wf(),
        text_applied(old(doc)@, final(doc)@, t@),
        final(doc).room() == old(doc).room(),
        forall|x: NodeId| old(doc).stale(x) ==> final(doc).stale(x),
        kept_or_retired(*old(doc), *final(doc)),
{
    let ghost v = doc@;
    let ghost r0 = doc.room();
    let n = order.len();
    let mut g0: usize = 0;
    while g0 < n
        invariant
            n == order@.len(),
            n == t@.len(),
            text_valid(v, t@),
            perm_of(order@, t@.len() as int),
            text_sorted(t@, order@),
            g0 <= n,
            g0 > 0 && g0 < n ==> t@[order@[g0 as int] as int].node != t@[order@[g0 - 1] as int].node,
            doc.wf(),
            doc.room() == r0,
            forall|x: NodeId| old(doc).stale(x) ==> doc.stale(x),
            old(doc)@ == v,
            doc@.source == v.source,
            doc@.root == v.root,
            doc@.depth == v.depth,
            doc@.nodes.dom() == v.nodes.dom(),
            forall|m: NodeId|
                #[trigger] doc@.nodes.contains_key(m) ==> if exists|q: int| 0 <= q < g0 && #[trigger] t@[order@[q] as int].node == m {
                    exists|c: String|
                        doc@.nodes[m] == DocumentNode {
                            node_value: NodeValue::Text(Text { content: c }),
                            ..v.nodes[m]
                        } && text_result(v, t@, m, c@)
                } else {
                    doc@.nodes[m] == v.nodes[m]
                },
        decreases n - g0,
    {
        let node = t[order[g0]].node;
        let mut g1 = g0 + 1;
        while g1 < n && t[order[g1]].node == node
            invariant
                g0 < g1 <= n,
                n == order@.len(),
                n == t@.len(),
                perm_of(order@, t@.len() as int),
                forall|q: int| #![trigger order@[q]] g0 <= q < g1 ==> t@[order@[q] as int].node == node,
            decreases n - g1,
        {
            g1 = g1 + 1;
        }
        let ghost d = doc@;
        proof {
            assert(text_target_ok(v, t@, order@[g0 as int] as int));
            assert(!exists|q: int| 0 <= q < g0 && #[trigger] t@[order@[q] as int].node == node) by {
                if exists|q: int| 0 <= q < g0 && #[trigger] t@[order@[q] as int].node == node {
                    let q = choose|q: int| 0 <= q < g0 && #[trigger] t@[order@[q] as int].node == node;
                    if q < g0 - 1 {
                        lemma_same_node_between(t@, order@, q, g0 - 1, g0 as int);
                    }
                }
            }
            assert(d.nodes[node] == v.nodes[node]);
        }
        let content = match doc.node(node) {
            Ok(dn) => match dn.cast_text() {
                Some(text) => {
                    proof {
                        assert forall|q: int| #![trigger order@[q]] g0 <= q < g1 implies range_ok(
                            utf8(text.content@),
                            t@[order@[q] as int].start as int,
                            t@[order@[q] as int].end as int,
                        ) by {
                            assert(text_range_ok(v, t@, order@[q] as int));
                        }
                        assert forall|q1: int, q2: int| #![trigger order@[q1], order@[q2]] g0 <= q1 < q2 < g1 implies t@[order@[q2] as int].start >= t@[order@[q1] as int].end by {
                            assert(text_before(t@, order@[q1] as int, order@[q2] as int));
                            NodeId::lemma_eq_by_parts(t@[order@[q1] as int].node, t@[order@[q2] as int].node);
                            assert(!texts_overlap(t@, order@[q1] as int, order@[q2] as int));
                        }
                    }
                    splice_group(text.content.as_str(), t, order, g0, g1)
                },
                None => vstd::pervasive::unreached(),
            },
            Err(_) => vstd::pervasive::unreached(),
        };
        proof {
            lemma_group_of(t@, order@, g0 as int, g1 as int, node);
        }
        let ghost c = content;
        let _ = doc.replace_value(node, NodeValue::Text(Text { content }));
        proof {
            let idx = order@.subrange(g0 as int, g1 as int).map_values(|x: usize| x as int);
            assert(text_result(v, t@, node, c@));
            assert forall|m: NodeId|
                #[trigger] doc@.nodes.contains_key(m) implies if exists|q: int| 0 <= q < g1 && #[trigger] t@[order@[q] as int].node == m {
                    exists|c2: String|
                        doc@.nodes[m] == DocumentNode {
                            node_value: NodeValue::Text(Text { content: c2 }),
                            ..v.nodes[m]
                        } && text_result(v, t@, m, c2@)
                } else {
                    doc@.nodes[m] == v.nodes[m]
                } by {
                if m == node {
                    assert(t@[order@[g0 as int] as int].node == m);
                    assert(doc@.nodes[m] == DocumentNode {
                        node_value: NodeValue::Text(Text { content: c }),
                        ..v.nodes[m]
                    });
                } else {
                    if exists|q: int| 0 <= q < g1 && #[trigger] t@[order@[q] as int].node == m {
                        let q = choose|q: int| 0 <= q < g1 && #[trigger] t@[order@[q] as int].node == m;
                        assert(q < g0);
                    }
                }
            }
        }
        g0 = g1;
    }
    proof {
        assert forall|m: NodeId| #[trigger] doc@.nodes.contains_key(m) implies (exists|q: int| 0 <= q < n && #[trigger] t@[order@[q] as int].node == m) == has_text_edit(t@, m) by {
            if has_text_edit(t@, m) {
                let i = choose|i: int| 0 <= i < t@.len() && t@[i].node == m;
                assert(order@.contains(i as usize));
                let q = choose|q: int| 0 <= q < order@.len() && order@[q] == i as usize;
                assert(t@[order@[q] as int].node == m);
            }
            if exists|q: int| 0 <= q < n && #[trigger] t@[order@[q] as int].node == m {
                let q = choose|q: int| 0 <= q < n && #[trigger] t@[order@[q] as int].node == m;
                assert(t@[order@[q] as int] == t@[order@[q] as int]);
            }
        }
    }
    proof {
        reveal(kept_or_retired);
    }
}

/// Applying text edits changes no parent or child links, so ancestry stays
/// the same.
proof fn lemma_text_reaches(v0: DocView, v1: DocView, t: Seq<ReplaceText>, a: NodeId, x: NodeId, f: nat)
    requires
        tree_wf(v0),
        text_applied(v0, v1, t),
        v0.nodes.contains_key(x),
    ensures
        reaches(v1, a, x, f) == reaches(v0, a, x, f),
    decreases f,
{
    assert(v1.nodes.contains_key(x));
    assert(v1.nodes[x].parent == v0.nodes[x].parent);
    if f > 0 && x != a {
        if let Some(p) = v0.nodes[x].parent {
            assert(node_ok(v0, x));
            lemma_text_reaches(v0, v1, t, a, p, (f - 1) as nat);
        }
    }
}

/// After the text edits of a valid batch, its structural edits are still
/// valid, and ancestry is unchanged.
pub proof fn lemma_same_links(v0: DocView, v1: DocView, b: BatchView)
    requires
        tree_wf(v0),
        text_applied(v0, v1, b.text),
        batch_valid(v0, b),
    ensures
        removals_valid(v1, b),
        insertions_valid(v1, b),
        replacements_valid(v1, b),
        wraps_valid(v1, b),
        forall|a: NodeId, x: NodeId| #[trigger] in_subtree(v1, a, x) == in_subtree(v0, a, x),
{
    assert forall|n: NodeId| #[trigger] v1.nodes.contains_key(n) implies v1.nodes[n].parent == v0.nodes[n].parent
        && v1.nodes[n].children == v0.nodes[n].children by {}
    assert forall|a: NodeId, x: NodeId| #[trigger] in_subtree(v1, a, x) == in_subtree(v0, a, x) by {
        if v0.nodes.contains_key(x) {
            lemma_text_reaches(v0, v1, b.text, a, x, v0.depth[x]);
        }
    }
    assert forall|p: NodeId, x: NodeId| v0.nodes.contains_key(p) implies #[trigger] child_index(v1, p, x) == child_index(v0, p, x) by {
        assert(v1.nodes[p].children@ == v0.nodes[p].children@);
    }
    assert(disjoint_roots(v1, b.removals));
    assert(removals_valid(v1, b));
    assert(insertions_valid(v1, b));
    assert(disjoint_roots(v1, replaced_targets(b.replacements)));
    assert(replacements_valid(v1, b));
    let w = b.wraps;
    assert forall|k: int| 0 <= k < w.len() implies wrap_parent(v1, #[trigger] w[k]) == wrap_parent(v0, w[k])
        && v0.nodes.contains_key(wrap_parent(v0, w[k])) && wrap_ok(v1, w[k]) by {
        assert(wrap_ok(v0, w[k]));
        assert(node_ok(v0, w[k].first));
    }
    assert forall|k: int, s: NodeId| 0 <= k < w.len() implies #[trigger] wrap_selects(v1, w[k], s) == wrap_selects(v0, w[k], s) by {
        let p = wrap_parent(v0, w[k]);
        assert(wrap_parent(v1, w[k]) == p);
        assert(v1.nodes[p].children@ == v0.nodes[p].children@);
    }
    assert forall|k: int, m: int| 0 <= k < w.len() && 0 <= m < w.len() implies #[trigger] wraps_overlap(v1, w[k], w[m]) == wraps_overlap(v0, w[k], w[m]) by {
        assert(wrap_parent(v1, w[k]) == wrap_parent(v0, w[k]));
        assert(wrap_parent(v1, w[m]) == wrap_parent(v0, w[m]));
    }
    assert(wraps_valid(v1, b));
}

} // verus!
