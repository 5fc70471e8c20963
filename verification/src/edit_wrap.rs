//! Checking the wrap edits of a batch against a document.
use vstd::prelude::*;

use crate::arena::NodeId;
use crate::document::{node_ok, tree_wf, Document, DocView, InvalidNodeId};
use crate::edit::{BatchView, EditError, WrapRange};
use crate::edit_spec::{
    child_index, error_holds, stage_reports, live, referenced, replaced_targets, wrap_in_batch_ok, wrap_ok,
    wrap_parent, wrap_selects, wraps_overlap, wraps_valid,
};
use crate::subtree::in_subtree;

verus! {

/// In a sequence without repeats, the index of the element at `i` is `i`.
pub proof fn lemma_index_of(s: Seq<NodeId>, i: int)
    requires
        s.no_duplicates(),
        0 <= i < s.len(),
    ensures
        s.index_of(s[i]) == i,
{
    assert(s.contains(s[i]));
}

/// Where a well-formed wrap sits: its parent and the positions of its
/// endpoints among the parent's children.
pub open spec fn resolved_ok(v: DocView, w: WrapRange, r: (NodeId, usize, usize)) -> bool {
    &&& wrap_ok(v, w)
    &&& r.0 == wrap_parent(v, w)
    &&& v.nodes.contains_key(r.0)
    &&& r.1 == child_index(v, r.0, w.first)
    &&& r.2 == child_index(v, r.0, w.last)
    &&& (r.2 as int) < v.nodes[r.0].children@.len()
    &&& v.nodes[r.0].children@[r.1 as int] == w.first
    &&& v.nodes[r.0].children@[r.2 as int] == w.last
}

/// Resolve each wrap to its parent and endpoint positions, checking that it
/// is well formed.
#[verifier::rlimit(40)]
fn resolve_wraps(doc: &Document, w: &[WrapRange], Ghost(b): Ghost<BatchView>) -> (r: Result<Vec<(NodeId, usize, usize)>, EditError>)
    requires
        doc.wf(),
        b.wraps == w@,
    ensures
        r matches Ok(res) ==> res@.len() == w@.len() && forall|k: int|
            #![trigger res@[k]]
            0 <= k < w@.len() ==> resolved_ok(doc@, w@[k], res@[k]),
        r matches Err(e) ==> error_holds(doc@, b, e) && stage_reports(6, b, e) && exists|k: int|
            #![trigger w@[k]]
            0 <= k < w@.len() && !wrap_ok(doc@, w@[k]),
{
    proof {
        doc.lemma_tree();
    }
    let ghost v = doc@;
    let mut res: Vec<(NodeId, usize, usize)> = Vec::new();
    let mut k: usize = 0;
    while k < w.len()
        invariant
            k <= w@.len(),
            v == doc@,
            tree_wf(v),
            b.wraps == w@,
            res@.len() == k,
            forall|q: int| #![trigger res@[q]] 0 <= q < k ==> resolved_ok(v, w@[q], res@[q]),
        decreases w@.len() - k,
    {
        let first = w[k].first;
        let last = w[k].last;
        proof {
            assert(b.wraps[k as int] == w@[k as int]);
        }
        let pf = match doc.node(first) {
            Ok(n) => n.parent(),
            Err(e) => {
                return Err(EditError::InvalidNode(e));
            },
        };
        let pl = match doc.node(last) {
            Ok(n) => n.parent(),
            Err(e) => {
                return Err(EditError::InvalidNode(e));
            },
        };
        proof {
            assert(node_ok(v, first));
            assert(node_ok(v, last));
        }
        let p = match pf {
            Some(p) => p,
            None => {
                return Err(EditError::CannotWrapRoot(first));
            },
        };
        match pl {
            Some(_) => {},
            None => {
                return Err(EditError::CannotWrapRoot(last));
            },
        }
        if pf != pl {
            return Err(EditError::WrapEndpointsHaveDifferentParents { first, last });
        }
        if w[k].wrapper.children().len() != 0 {
            return Err(EditError::WrapperDraftHasChildren { first, last });
        }
        let fi = doc.child_position(p, first);
        let li = doc.child_position(p, last);
        proof {
            assert(node_ok(v, p));
            assert(v.nodes.contains_key(p));
            lemma_index_of(v.nodes[p].children@, fi as int);
            lemma_index_of(v.nodes[p].children@, li as int);
        }
        if fi > li {
            return Err(EditError::ReversedWrapRange { first, last });
        }
        res.push((p, fi, li));
        k = k + 1;
    }
    Ok(res)
}

/// Whether `x` is among the children `kids[fi..=li]`.
fn selects(kids: &[NodeId], fi: usize, li: usize, x: NodeId) -> (r: bool)
    requires
        fi <= li < kids@.len(),
    ensures
        r == exists|q: int| #![trigger kids@[q]] fi <= q <= li && kids@[q] == x,
{
    let mut q = fi;
    while q <= li
        invariant
            fi <= q <= li + 1,
            li < kids@.len(),
            forall|j: int| #![trigger kids@[j]] fi <= j < q ==> kids@[j] != x,
        decreases li + 1 - q,
    {
        if kids[q] == x {
            return true;
        }
        q = q + 1;
    }
    false
}

/// Check the wraps: each well formed, no two sharing a sibling, no wrapped
/// sibling inside a removed or replaced subtree, and no insertion targeting
/// a wrapped sibling.
#[verifier::rlimit(80)]
pub(crate) fn validate_wraps(
    doc: &Document,
    w: &[WrapRange],
    removals: &[NodeId],
    targets: &[NodeId],
    ins_targets: &[NodeId],
    Ghost(b): Ghost<BatchView>,
) -> (r: Result<(), EditError>)
    requires
        doc.wf(),
        b.wraps == w@,
        b.removals == removals@,
        targets@ == replaced_targets(b.replacements),
        ins_targets@.len() == b.insertions.len(),
        forall|k: int| #![trigger ins_targets@[k]] 0 <= k < ins_targets@.len() ==> ins_targets@[k] == b.insertions[k].target,
    ensures
        r is Ok <==> wraps_valid(doc@, b),
        r matches Err(e) ==> error_holds(doc@, b, e),
        r matches Err(e) ==> stage_reports(6, b, e),
{
    proof {
        doc.lemma_tree();
    }
    let ghost v = doc@;
    let res = match resolve_wraps(doc, w, Ghost(b)) {
        Ok(res) => res,
        Err(e) => {
            proof {
                let k = choose|k: int| #![trigger w@[k]] 0 <= k < w@.len() && !wrap_ok(doc@, w@[k]);
                assert(b.wraps[k] == w@[k]);
            }
            return Err(e);
        },
    };
    // no two wraps share a sibling
    let mut k: usize = 0;
    while k < res.len()
        invariant
            k <= res@.len(),
            doc.wf(),
            res@.len() == w@.len(),
            b.wraps == w@,
            v == doc@,
            forall|q: int| #![trigger res@[q]] 0 <= q < w@.len() ==> resolved_ok(v, w@[q], res@[q]),
            forall|x: int, y: int|
                #![trigger w@[x], w@[y]]
                0 <= x < k && 0 <= y < w@.len() && x != y ==> !wraps_overlap(v, w@[x], w@[y]),
        decreases res@.len() - k,
    {
        let mut m: usize = k + 1;
        while m < res.len()
            invariant
                k < m <= res@.len(),
                res@.len() == w@.len(),
                b.wraps == w@,
                v == doc@,
                forall|q: int| #![trigger res@[q]] 0 <= q < w@.len() ==> resolved_ok(v, w@[q], res@[q]),
                forall|y: int| #![trigger w@[y]] k < y < m ==> !wraps_overlap(v, w@[k as int], w@[y]),
            decreases res@.len() - m,
        {
            let (pk, fk, lk) = res[k];
            let (pm, fm, lm) = res[m];
            proof {
                assert(resolved_ok(v, w@[k as int], res@[k as int]));
                assert(resolved_ok(v, w@[m as int], res@[m as int]));
            }
            if pk == pm && fm <= lk && fk <= lm {
                proof {
                    assert(wrap_in_batch_ok(v, b, w@[k as int].first, w@[k as int].last, k as int));
                    assert(wrap_in_batch_ok(v, b, w@[m as int].first, w@[m as int].last, m as int));
                    assert(wraps_overlap(v, w@[k as int], w@[m as int]));
                    assert(wraps_overlap(v, w@[m as int], w@[k as int]));
                    assert(!wraps_valid(v, b));
                }
                if fk < fm || (fk == fm && lk <= lm) {
                    return Err(EditError::OverlappingWrapRanges {
                        first_range: (w[k].first, w[k].last),
                        second_range: (w[m].first, w[m].last),
                    });
                } else {
                    return Err(EditError::OverlappingWrapRanges {
                        first_range: (w[m].first, w[m].last),
                        second_range: (w[k].first, w[k].last),
                    });
                }
            }
            m = m + 1;
        }
        proof {
            assert forall|x: int, y: int|
                #![trigger w@[x], w@[y]]
                0 <= x < k + 1 && 0 <= y < w@.len() && x != y implies !wraps_overlap(v, w@[x], w@[y]) by {
                if x == k && y < k {
                    assert(!wraps_overlap(v, w@[y], w@[x]));
                    assert(resolved_ok(v, w@[x], res@[x]));
                    assert(resolved_ok(v, w@[y], res@[y]));
                }
            }
        }
        k = k + 1;
    }
    // no wrapped sibling lies in a removed or replaced subtree
    let mut k: usize = 0;
    while k < res.len()
        invariant
            k <= res@.len(),
            res@.len() == w@.len(),
            b.wraps == w@,
            b.removals == removals@,
            targets@ == replaced_targets(b.replacements),
            v == doc@,
            doc.wf(),
            tree_wf(v),
            forall|q: int| #![trigger res@[q]] 0 <= q < w@.len() ==> resolved_ok(v, w@[q], res@[q]),
            forall|x: int, s: NodeId, i: int|
                0 <= x < k && 0 <= i < removals@.len() && #[trigger] wrap_selects(v, w@[x], s)
                    ==> !#[trigger] in_subtree(v, removals@[i], s),
            forall|x: int, s: NodeId, i: int|
                0 <= x < k && 0 <= i < targets@.len() && #[trigger] wrap_selects(v, w@[x], s)
                    ==> !#[trigger] in_subtree(v, targets@[i], s),
        decreases res@.len() - k,
    {
        let (p, fi, li) = res[k];
        proof {
            assert(resolved_ok(v, w@[k as int], res@[k as int]));
        }
        let kids = match doc.children(p) {
            Ok(c) => c,
            Err(_) => vstd::pervasive::unreached(),
        };
        let mut q = fi;
        while q <= li
            invariant
                fi <= q <= li + 1,
                (li as int) < kids@.len(),
                kids@ == v.nodes[p].children@,
                v == doc@,
                doc.wf(),
                tree_wf(v),
                v.nodes.contains_key(p),
                k < res@.len(),
                res@.len() == w@.len(),
                b.wraps == w@,
                b.removals == removals@,
                targets@ == replaced_targets(b.replacements),
                res@[k as int] == (p, fi, li),
                resolved_ok(v, w@[k as int], res@[k as int]),
                forall|j: int, i: int|
                    #![trigger kids@[j], removals@[i]]
                    fi <= j < q && 0 <= i < removals@.len() ==> !in_subtree(v, removals@[i], kids@[j]),
                forall|j: int, i: int|
                    #![trigger kids@[j], targets@[i]]
                    fi <= j < q && 0 <= i < targets@.len() ==> !in_subtree(v, targets@[i], kids@[j]),
            decreases li + 1 - q,
        {
            let s = kids[q];
            proof {
                assert(node_ok(v, p));
                assert(v.nodes.contains_key(kids@[q as int]));
            }
            match doc.nearest_in(s, removals, true) {
                Some(a) => {
                    proof {
                        assert(wrap_in_batch_ok(v, b, w@[k as int].first, w@[k as int].last, k as int));
                        assert(wrap_selects(v, b.wraps[k as int], s)) by {
                            assert(kids@[q as int] == s);
                        }
                        let i = choose|i: int| 0 <= i < removals@.len() && removals@[i] == a;
                        assert(in_subtree(v, b.removals[i], s));
                        assert(!wraps_valid(v, b));
                    }
                    return Err(EditError::WrapRangeTargetsRemovedNode { removed: a, first: w[k].first, last: w[k].last });
                },
                None => {},
            }
            match doc.nearest_in(s, targets, true) {
                Some(a) => {
                    proof {
                        assert(wrap_in_batch_ok(v, b, w@[k as int].first, w@[k as int].last, k as int));
                        assert(wrap_selects(v, b.wraps[k as int], s)) by {
                            assert(kids@[q as int] == s);
                        }
                        let i = choose|i: int| 0 <= i < targets@.len() && targets@[i] == a;
                        assert(in_subtree(v, replaced_targets(b.replacements)[i], s));
                        assert(!wraps_valid(v, b));
                    }
                    return Err(EditError::WrapRangeTargetsReplacedNode { replaced: a, first: w[k].first, last: w[k].last });
                },
                None => {},
            }
            proof {
                assert forall|i: int| 0 <= i < removals@.len() implies !in_subtree(v, removals@[i], s) by {
                    assert(removals@.contains(removals@[i]));
                }
                assert forall|i: int| 0 <= i < targets@.len() implies !in_subtree(v, targets@[i], s) by {
                    assert(targets@.contains(targets@[i]));
                }
            }
            q = q + 1;
        }
        proof {
            assert forall|x: int, s: NodeId, i: int|
                0 <= x < k + 1 && 0 <= i < removals@.len() && #[trigger] wrap_selects(v, w@[x], s)
                    implies !#[trigger] in_subtree(v, removals@[i], s) by {
                if x == k {
                    let j = choose|j: int| #![trigger kids@[j]] child_index(v, p, w@[x].first) <= j <= child_index(v, p, w@[x].last) && v.nodes[p].children@[j] == s;
                    assert(kids@[j] == s);
                }
            }
            assert forall|x: int, s: NodeId, i: int|
                0 <= x < k + 1 && 0 <= i < targets@.len() && #[trigger] wrap_selects(v, w@[x], s)
                    implies !#[trigger] in_subtree(v, targets@[i], s) by {
                if x == k {
                    let j = choose|j: int| #![trigger kids@[j]] child_index(v, p, w@[x].first) <= j <= child_index(v, p, w@[x].last) && v.nodes[p].children@[j] == s;
                    assert(kids@[j] == s);
                }
            }
        }
        k = k + 1;
    }
    // no insertion targets a wrapped sibling
    let mut m: usize = 0;
    while m < ins_targets.len()
        invariant
            m <= ins_targets@.len(),
            doc.wf(),
            res@.len() == w@.len(),
            b.wraps == w@,
            v == doc@,
            ins_targets@.len() == b.insertions.len(),
            forall|q: int| #![trigger ins_targets@[q]] 0 <= q < ins_targets@.len() ==> ins_targets@[q] == b.insertions[q].target,
            forall|q: int| #![trigger res@[q]] 0 <= q < w@.len() ==> resolved_ok(v, w@[q], res@[q]),
            forall|x: int, y: int|
                #![trigger w@[x], b.insertions[y]]
                0 <= x < w@.len() && 0 <= y < m ==> !wrap_selects(v, w@[x], b.insertions[y].target),
        decreases ins_targets@.len() - m,
    {
        let t = ins_targets[m];
        let mut k: usize = 0;
        while k < res.len()
            invariant
                k <= res@.len(),
                m < ins_targets@.len(),
                t == ins_targets@[m as int],
                res@.len() == w@.len(),
                b.wraps == w@,
                v == doc@,
                forall|q: int| #![trigger res@[q]] 0 <= q < w@.len() ==> resolved_ok(v, w@[q], res@[q]),
                forall|x: int| #![trigger w@[x]] 0 <= x < k ==> !wrap_selects(v, w@[x], t),
                doc.wf(),
                ins_targets@.len() == b.insertions.len(),
                forall|q: int| #![trigger ins_targets@[q]] 0 <= q < ins_targets@.len() ==> ins_targets@[q] == b.insertions[q].target,
            decreases res@.len() - k,
        {
            let (p, fi, li) = res[k];
            proof {
                assert(resolved_ok(v, w@[k as int], res@[k as int]));
            }
            let kids = match doc.children(p) {
                Ok(c) => c,
                Err(_) => vstd::pervasive::unreached(),
            };
            let found = selects(kids, fi, li, t);
            proof {
                assert(found == wrap_selects(v, w@[k as int], t));
            }
            if found {
                proof {
                    assert(wrap_in_batch_ok(v, b, w@[k as int].first, w@[k as int].last, k as int));
                    assert(b.insertions[m as int].target == t);
                    assert(!wraps_valid(v, b));
                }
                return Err(EditError::InsertionTargetsWrappedNode { first: w[k].first, last: w[k].last, target: t });
            }
            k = k + 1;
        }
        m = m + 1;
    }
    proof {
        assert forall|x: int, s: NodeId, i: int|
            0 <= x < w@.len() && 0 <= i < b.removals.len() && #[trigger] wrap_selects(v, w@[x], s)
                implies !#[trigger] in_subtree(v, b.removals[i], s) by {
            assert(b.removals[i] == removals@[i]);
        }
        let p = replaced_targets(b.replacements);
        assert forall|x: int, s: NodeId, q: int|
            0 <= x < w@.len() && 0 <= q < p.len() && #[trigger] wrap_selects(v, w@[x], s)
                implies !#[trigger] in_subtree(v, p[q], s) by {
            assert(p[q] == targets@[q]);
        }
        assert forall|x: int| #![trigger b.wraps[x]] 0 <= x < b.wraps.len() implies wrap_ok(v, b.wraps[x]) by {
            assert(resolved_ok(v, w@[x], res@[x]));
        }
        assert forall|x: int, y: int|
            #![trigger b.wraps[x], b.insertions[y]]
            0 <= x < b.wraps.len() && 0 <= y < b.insertions.len() implies !wrap_selects(v, b.wraps[x], b.insertions[y].target) by {
            assert(b.wraps[x] == w@[x]);
        }
        assert forall|x: int, y: int|
            #![trigger b.wraps[x], b.wraps[y]]
            0 <= x < b.wraps.len() && 0 <= y < b.wraps.len() && x != y implies !wraps_overlap(v, b.wraps[x], b.wraps[y]) by {
            assert(b.wraps[x] == w@[x]);
            assert(b.wraps[y] == w@[y]);
        }
        assert(wraps_valid(v, b));
    }
    Ok(())
}

} // verus!
