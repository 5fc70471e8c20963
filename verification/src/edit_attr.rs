//! Ordering, checking and applying the attribute edits of a batch.
use vstd::prelude::*;
use vstd::utf8::encode_utf8_decode_utf8;

use crate::arena::NodeId;
use crate::document::{kept_or_retired, Document, DocView, DocumentNode};
use crate::edit::{AttributeChange, BatchView, EditAttribute, EditError};
use crate::edit_spec::{attrs_valid, edited, error_holds, live, stage_reports};
use crate::edit_text::perm_of;
use crate::node::HtmlAttribute;
use crate::utf8text::utf8;

verus! {

/// Byte-wise lexicographic order, as strings compare.
pub open spec fn bytes_lt(a: Seq<u8>, b: Seq<u8>) -> bool
    decreases a.len(),
{
    if a.len() == 0 {
        b.len() > 0
    } else if b.len() == 0 {
        false
    } else if a[0] != b[0] {
        a[0] < b[0]
    } else {
        bytes_lt(a.drop_first(), b.drop_first())
    }
}

proof fn lemma_bytes_lt_asym(a: Seq<u8>, b: Seq<u8>)
    ensures
        bytes_lt(a, b) ==> !bytes_lt(b, a),
    decreases a.len(),
{
    if a.len() > 0 && b.len() > 0 && a[0] == b[0] {
        lemma_bytes_lt_asym(a.drop_first(), b.drop_first());
    }
}

proof fn lemma_bytes_lt_total(a: Seq<u8>, b: Seq<u8>)
    ensures
        a != b ==> bytes_lt(a, b) || bytes_lt(b, a),
    decreases a.len(),
{
    if a.len() > 0 && b.len() > 0 && a[0] == b[0] {
        lemma_bytes_lt_total(a.drop_first(), b.drop_first());
        if a.drop_first() == b.drop_first() {
            assert(a =~= seq![a[0]] + a.drop_first());
            assert(b =~= seq![b[0]] + b.drop_first());
        }
    } else if a.len() == 0 && b.len() == 0 {
        assert(a =~= b);
    }
}

proof fn lemma_bytes_lt_trans(a: Seq<u8>, b: Seq<u8>, c: Seq<u8>)
    requires
        bytes_lt(a, b),
        bytes_lt(b, c),
    ensures
        bytes_lt(a, c),
    decreases a.len(),
{
    if a.len() > 0 && b.len() > 0 && c.len() > 0 && a[0] == b[0] && b[0] == c[0] {
        lemma_bytes_lt_trans(a.drop_first(), b.drop_first(), c.drop_first());
    }
}

/// Whether `a` sorts before `b`, byte-wise.
fn bytes_less(a: &[u8], b: &[u8]) -> (r: bool)
    ensures
        r == bytes_lt(a@, b@),
{
    let mut i: usize = 0;
    proof {
        assert(a@.subrange(0, a@.len() as int) =~= a@);
        assert(b@.subrange(0, b@.len() as int) =~= b@);
    }
    while i < a.len() && i < b.len()
        invariant
            i <= a@.len(),
            i <= b@.len(),
            bytes_lt(a@, b@) == bytes_lt(
                a@.subrange(i as int, a@.len() as int),
                b@.subrange(i as int, b@.len() as int),
            ),
        decreases a@.len() - i,
    {
        let ghost sa = a@.subrange(i as int, a@.len() as int);
        let ghost sb = b@.subrange(i as int, b@.len() as int);
        if a[i] != b[i] {
            proof {
                assert(sa[0] == a@[i as int]);
                assert(sb[0] == b@[i as int]);
            }
            return a[i] < b[i];
        }
        proof {
            assert(sa.drop_first() =~= a@.subrange(i as int + 1, a@.len() as int));
            assert(sb.drop_first() =~= b@.subrange(i as int + 1, b@.len() as int));
        }
        i = i + 1;
    }
    i < b.len()
}

/// The UTF-8 bytes of the name of attribute edit `i`.
pub open spec fn name_bytes(a: Seq<EditAttribute>, i: int) -> Seq<u8> {
    utf8(a[i].name@)
}

/// Attribute edit `i` is applied before attribute edit `j`: by node handle,
/// then by name, then by call order.
pub open spec fn attr_before(a: Seq<EditAttribute>, i: int, j: int) -> bool {
    let x = a[i].node;
    let y = a[j].node;
    ||| x.spec_slot() < y.spec_slot()
    ||| (x.spec_slot() == y.spec_slot() && x.spec_generation() < y.spec_generation())
    ||| (x.spec_slot() == y.spec_slot() && x.spec_generation() == y.spec_generation() && (
    bytes_lt(name_bytes(a, i), name_bytes(a, j)) || (name_bytes(a, i) == name_bytes(a, j) && i
        < j)))
}

/// `order` lists the attribute edits in application order.
pub open spec fn attrs_sorted(a: Seq<EditAttribute>, order: Seq<usize>) -> bool {
    forall|p: int, q: int|
        #![trigger order[p], order[q]]
        0 <= p < q < order.len() ==> attr_before(a, order[p] as int, order[q] as int)
}

proof fn lemma_attr_before_trans(a: Seq<EditAttribute>, i: int, j: int, k: int)
    requires
        attr_before(a, i, j),
        attr_before(a, j, k),
    ensures
        attr_before(a, i, k),
{
    if bytes_lt(name_bytes(a, i), name_bytes(a, j)) && bytes_lt(name_bytes(a, j), name_bytes(a, k)) {
        lemma_bytes_lt_trans(name_bytes(a, i), name_bytes(a, j), name_bytes(a, k));
    }
}

proof fn lemma_attr_before_total(a: Seq<EditAttribute>, i: int, j: int)
    requires
        i != j,
    ensures
        attr_before(a, i, j) || attr_before(a, j, i),
{
    lemma_bytes_lt_total(name_bytes(a, i), name_bytes(a, j));
}

/// Whether attribute edit `i` is applied before attribute edit `j`.
fn attr_precedes(a: &[EditAttribute], i: usize, j: usize) -> (r: bool)
    requires
        i < a@.len(),
        j < a@.len(),
    ensures
        r == attr_before(a@, i as int, j as int),
{
    let x = &a[i];
    let y = &a[j];
    let (sx, sy) = (x.node.slot(), y.node.slot());
    let (gx, gy) = (x.node.generation(), y.node.generation());
    if sx != sy {
        return sx < sy;
    }
    if gx != gy {
        return gx < gy;
    }
    let nx = x.name.as_str().as_bytes();
    let ny = y.name.as_str().as_bytes();
    if bytes_less(nx, ny) {
        return true;
    }
    if bytes_less(ny, nx) {
        return false;
    }
    proof {
        lemma_bytes_lt_total(nx@, ny@);
    }
    i < j
}

/// The attribute edits' indices in application order.
pub fn sort_attrs(a: &[EditAttribute]) -> (order: Vec<usize>)
    ensures
        perm_of(order@, a@.len() as int),
        attrs_sorted(a@, order@),
{
    let mut order: Vec<usize> = Vec::new();
    let mut k: usize = 0;
    while k < a.len()
        invariant
            k <= a@.len(),
            order@.len() == k,
            order@.no_duplicates(),
            forall|q: int| #![trigger order@[q]] 0 <= q < order@.len() ==> order@[q] < k,
            forall|i: int| 0 <= i < k ==> #[trigger] order@.contains(i as usize),
            attrs_sorted(a@, order@),
        decreases a@.len() - k,
    {
        let mut p: usize = 0;
        while p < order.len() && !attr_precedes(a, k, order[p])
            invariant
                k < a@.len(),
                p <= order@.len(),
                order@.len() == k,
                forall|q: int| #![trigger order@[q]] 0 <= q < order@.len() ==> order@[q] < k,
                forall|q: int|
                    #![trigger order@[q]]
                    0 <= q < p ==> !attr_before(a@, k as int, order@[q] as int),
            decreases order@.len() - p,
        {
            p = p + 1;
        }
        let ghost old_order = order@;
        order.insert(p, k);
        proof {
            assert(order@ == old_order.insert(p as int, k));
            assert forall|i: int| 0 <= i < k + 1 implies #[trigger] order@.contains(i as usize) by {
                if i < k {
                    assert(old_order.contains(i as usize));
                    let q = choose|q: int| 0 <= q < old_order.len() && old_order[q] == i as usize;
                    if q < p {
                        assert(order@[q] == i as usize);
                    } else {
                        assert(order@[q + 1] == i as usize);
                    }
                } else {
                    assert(order@[p as int] == k);
                }
            }
            assert(order@.no_duplicates()) by {
                assert forall|x: int, y: int|
                    0 <= x < order@.len() && 0 <= y < order@.len() && x != y implies order@[x]
                    != order@[y] by {
                    if x != p && y != p {
                        let x0 = if x < p { x } else { x - 1 };
                        let y0 = if y < p { y } else { y - 1 };
                        assert(old_order[x0] == order@[x]);
                        assert(old_order[y0] == order@[y]);
                    } else if x == p {
                        let y0 = if y < p { y } else { y - 1 };
                        assert(old_order[y0] < k);
                    } else {
                        let x0 = if x < p { x } else { x - 1 };
                        assert(old_order[x0] < k);
                    }
                }
            }
            assert forall|x: int, y: int|
                #![trigger order@[x], order@[y]]
                0 <= x < y < order@.len() implies attr_before(
                a@,
                order@[x] as int,
                order@[y] as int,
            ) by {
                if y < p {
                    assert(old_order[x] == order@[x] && old_order[y] == order@[y]);
                } else if y == p {
                    assert(order@[x] == old_order[x]);
                    lemma_attr_before_total(a@, k as int, old_order[x] as int);
                } else if x > p {
                    assert(old_order[x - 1] == order@[x] && old_order[y - 1] == order@[y]);
                } else if x == p {
                    assert(order@[y] == old_order[y - 1]);
                    if y - 1 > p {
                        lemma_attr_before_trans(
                            a@,
                            k as int,
                            old_order[p as int] as int,
                            old_order[y - 1] as int,
                        );
                    }
                } else {
                    assert(order@[x] == old_order[x] && order@[y] == old_order[y - 1]);
                }
            }
        }
        k = k + 1;
    }
    order
}

/// Check that every attribute edit names a live node and that no node has
/// two edits of one name.
pub(crate) fn validate_attrs(doc: &Document, a: &[EditAttribute], Ghost(b): Ghost<BatchView>) -> (r: Result<(), EditError>)
    requires
        doc.wf(),
        b.attrs == a@,
    ensures
        r is Ok <==> attrs_valid(doc@, a@),
        r matches Err(e) ==> error_holds(doc@, b, e),
        r matches Err(e) ==> stage_reports(1, b, e),
{
    let mut i: usize = 0;
    while i < a.len()
        invariant
            i <= a@.len(),
            b.attrs == a@,
            forall|q: int| #![trigger a@[q]] 0 <= q < i ==> live(doc@, a@[q].node),
        decreases a@.len() - i,
    {
        match doc.node(a[i].node) {
            Ok(_) => {},
            Err(e) => {
                proof {
                    assert(b.attrs[i as int].node == a@[i as int].node);
                    assert(edited(b, a@[i as int].node));
                }
                return Err(EditError::InvalidNode(e));
            },
        }
        i = i + 1;
    }
    let mut i: usize = 0;
    while i < a.len()
        invariant
            i <= a@.len(),
            b.attrs == a@,
            forall|q: int| #![trigger a@[q]] 0 <= q < a@.len() ==> live(doc@, a@[q].node),
            forall|x: int, y: int|
                #![trigger a@[x], a@[y]]
                0 <= x < i && 0 <= y < a@.len() && x != y ==> !(a@[x].node == a@[y].node
                    && a@[x].name@ == a@[y].name@),
        decreases a@.len() - i,
    {
        let mut j: usize = i + 1;
        while j < a.len()
            invariant
                i < j <= a@.len(),
                i < a@.len(),
                b.attrs == a@,
                forall|q: int| #![trigger a@[q]] 0 <= q < a@.len() ==> live(doc@, a@[q].node),
                forall|y: int|
                    #![trigger a@[y]]
                    i < y < j ==> !(a@[i as int].node == a@[y].node && a@[i as int].name@ == a@[y].name@),
            decreases a@.len() - j,
        {
            if a[i].node == a[j].node && a[i].name == a[j].name {
                let name = a[i].name.clone();
                proof {
                    assert(b.attrs[i as int] == a@[i as int]);
                    assert(b.attrs[j as int] == a@[j as int]);
                }
                return Err(EditError::ConflictingAttributeEdits { node: a[i].node, name });
            }
            j = j + 1;
        }
        proof {
            assert forall|x: int, y: int|
                #![trigger a@[x], a@[y]]
                0 <= x < i + 1 && 0 <= y < a@.len() && x != y implies !(a@[x].node == a@[y].node
                    && a@[x].name@ == a@[y].name@) by {
                if x == i && y < i {
                    assert(!(a@[y].node == a@[x].node && a@[y].name@ == a@[x].name@));
                }
            }
        }
        i = i + 1;
    }
    Ok(())
}

/// `s` holds an attribute named `name`.
pub open spec fn has_name(s: Seq<HtmlAttribute>, name: Seq<char>) -> bool {
    exists|i: int| 0 <= i < s.len() && #[trigger] s[i].0@ == name
}

/// `s` with its first attribute named `name` given the value `value`, and
/// its later attributes of that name dropped.
pub open spec fn set_first(s: Seq<HtmlAttribute>, name: Seq<char>, value: String) -> Seq<HtmlAttribute>
    decreases s.len(),
{
    if s.len() == 0 {
        s
    } else {
        let p = set_first(s.drop_last(), name, value);
        if s.last().0@ != name {
            p.push(s.last())
        } else if has_name(s.drop_last(), name) {
            p
        } else {
            p.push((s.last().0, value))
        }
    }
}

/// The attributes after setting `name` to `value`: the first attribute of
/// that name takes the value and later ones go; with none, the pair is
/// appended.
pub open spec fn set_attr(s: Seq<HtmlAttribute>, name: String, value: String) -> Seq<HtmlAttribute> {
    if has_name(s, name@) {
        set_first(s, name@, value)
    } else {
        s.push((name, value))
    }
}

/// The attributes not named `name`, in order.
pub open spec fn remove_attr(s: Seq<HtmlAttribute>, name: Seq<char>) -> Seq<HtmlAttribute>
    decreases s.len(),
{
    if s.len() == 0 {
        s
    } else {
        let p = remove_attr(s.drop_last(), name);
        if s.last().0@ != name {
            p.push(s.last())
        } else {
            p
        }
    }
}

proof fn lemma_set_first_absent(s: Seq<HtmlAttribute>, name: Seq<char>, value: String)
    requires
        !has_name(s, name),
    ensures
        set_first(s, name, value) == s,
    decreases s.len(),
{
    if s.len() > 0 {
        assert(!has_name(s.drop_last(), name)) by {
            if has_name(s.drop_last(), name) {
                let i = choose|i: int| 0 <= i < s.len() - 1 && #[trigger] s.drop_last()[i].0@ == name;
                assert(s[i] == s.drop_last()[i]);
            }
        }
        lemma_set_first_absent(s.drop_last(), name, value);
        assert(s.last().0@ != name) by {
            if s.last().0@ == name {
                assert(s[s.len() - 1].0@ == name);
            }
        }
        assert(s.drop_last().push(s.last()) =~= s);
    }
}

/// The attributes after one edit.
pub open spec fn apply_attr(s: Seq<HtmlAttribute>, e: EditAttribute) -> Seq<HtmlAttribute> {
    match e.change {
        AttributeChange::Assign(value) => set_attr(s, e.name, value),
        AttributeChange::Remove => remove_attr(s, e.name@),
    }
}

/// The attributes after the edits `es`, first to last.
pub open spec fn fold_attrs(s: Seq<HtmlAttribute>, es: Seq<EditAttribute>) -> Seq<HtmlAttribute>
    decreases es.len(),
{
    if es.len() == 0 {
        s
    } else {
        apply_attr(fold_attrs(s, es.drop_last()), es.last())
    }
}

/// `idx` lists all attribute edits of node `n`, by increasing name.
pub open spec fn attr_group_of(a: Seq<EditAttribute>, n: NodeId, idx: Seq<int>) -> bool {
    &&& idx.no_duplicates()
    &&& forall|k: int|
        #![trigger idx[k]]
        0 <= k < idx.len() ==> 0 <= idx[k] < a.len() && a[idx[k]].node == n
    &&& forall|i: int| 0 <= i < a.len() && a[i].node == n ==> #[trigger] idx.contains(i)
    &&& forall|x: int, y: int|
        #![trigger idx[x], idx[y]]
        0 <= x < y < idx.len() ==> bytes_lt(name_bytes(a, idx[x]), name_bytes(a, idx[y]))
}

/// The attribute edits at the indices `idx`.
pub open spec fn attr_group_edits(a: Seq<EditAttribute>, idx: Seq<int>) -> Seq<EditAttribute> {
    idx.map_values(|i: int| a[i])
}

/// Node `n` has some attribute edit.
pub open spec fn has_attr_edit(a: Seq<EditAttribute>, n: NodeId) -> bool {
    exists|i: int| #![trigger a[i]] 0 <= i < a.len() && a[i].node == n
}

/// `x` and `y` agree on everything but the attributes.
pub open spec fn same_but_attrs(x: DocumentNode, y: DocumentNode) -> bool {
    &&& x.id == y.id
    &&& x.parent == y.parent
    &&& x.children == y.children
    &&& x.srcmap == y.srcmap
    &&& x.node_value == y.node_value
}

/// `w` is `v` with the attribute edits `a` applied: each node's edits in
/// order of name, other nodes unchanged.
pub open spec fn attrs_applied(v: DocView, w: DocView, a: Seq<EditAttribute>) -> bool {
    &&& w.source == v.source
    &&& w.root == v.root
    &&& w.depth == v.depth
    &&& w.nodes.dom() == v.nodes.dom()
    &&& forall|n: NodeId|
        #[trigger] w.nodes.contains_key(n) ==> if has_attr_edit(a, n) {
            same_but_attrs(v.nodes[n], w.nodes[n]) && exists|idx: Seq<int>|
                attr_group_of(a, n, idx) && w.nodes[n].attrs@ == fold_attrs(
                    v.nodes[n].attrs@,
                    attr_group_edits(a, idx),
                )
        } else {
            w.nodes[n] == v.nodes[n]
        }
}

/// Set `name` to `value`.
fn set_attr_exec(attrs: &Vec<HtmlAttribute>, name: &String, value: &String) -> (out: Vec<HtmlAttribute>)
    ensures
        out@ == set_attr(attrs@, *name, *value),
{
    let mut out: Vec<HtmlAttribute> = Vec::new();
    let mut found = false;
    let mut k: usize = 0;
    while k < attrs.len()
        invariant
            k <= attrs@.len(),
            out@ == set_first(attrs@.take(k as int), name@, *value),
            found == has_name(attrs@.take(k as int), name@),
        decreases attrs@.len() - k,
    {
        let ghost pre = attrs@.take(k as int);
        proof {
            assert(attrs@.take(k as int + 1).drop_last() =~= pre);
            assert(attrs@.take(k as int + 1).last() == attrs@[k as int]);
        }
        let x = &attrs[k];
        if x.0 == *name {
            if !found {
                let pair = (x.0.clone(), value.clone());
                assert(pair == (attrs@[k as int].0, *value));
                out.push(pair);
            }
            found = true;
            proof {
                assert(attrs@.take(k as int + 1)[k as int].0@ == name@);
            }
        } else {
            let pair = (x.0.clone(), x.1.clone());
            assert(pair == attrs@[k as int]);
            out.push(pair);
            proof {
                assert forall|i: int| 0 <= i < k + 1 && #[trigger] attrs@.take(k as int + 1)[i].0@ == name@ implies i < k by {}
                if has_name(attrs@.take(k as int + 1), name@) {
                    let i = choose|i: int| 0 <= i < k + 1 && #[trigger] attrs@.take(k as int + 1)[i].0@ == name@;
                    assert(pre[i] == attrs@.take(k as int + 1)[i]);
                }
                if found {
                    let i = choose|i: int| 0 <= i < k && #[trigger] pre[i].0@ == name@;
                    assert(attrs@.take(k as int + 1)[i] == pre[i]);
                }
            }
        }
        k = k + 1;
    }
    proof {
        assert(attrs@.take(attrs@.len() as int) =~= attrs@);
        if !found {
            lemma_set_first_absent(attrs@, name@, *value);
        }
    }
    if !found {
        let pair = (name.clone(), value.clone());
        assert(pair == (*name, *value));
        out.push(pair);
    }
    out
}

/// Drop every attribute named `name`.
fn remove_attr_exec(attrs: &Vec<HtmlAttribute>, name: &String) -> (out: Vec<HtmlAttribute>)
    ensures
        out@ == remove_attr(attrs@, name@),
{
    let mut out: Vec<HtmlAttribute> = Vec::new();
    let mut k: usize = 0;
    while k < attrs.len()
        invariant
            k <= attrs@.len(),
            out@ == remove_attr(attrs@.take(k as int), name@),
        decreases attrs@.len() - k,
    {
        proof {
            assert(attrs@.take(k as int + 1).drop_last() =~= attrs@.take(k as int));
            assert(attrs@.take(k as int + 1).last() == attrs@[k as int]);
        }
        let x = &attrs[k];
        let ghost pre = attrs@.take(k as int);
        let ghost o = out@;
        if x.0 != *name {
            let pair = (x.0.clone(), x.1.clone());
            assert(pair == attrs@[k as int]);
            out.push(pair);
        }
        k = k + 1;
    }
    proof {
        assert(attrs@.take(attrs@.len() as int) =~= attrs@);
    }
    out
}

/// Apply one attribute edit.
fn apply_attr_exec(attrs: &Vec<HtmlAttribute>, e: &EditAttribute) -> (out: Vec<HtmlAttribute>)
    ensures
        out@ == apply_attr(attrs@, *e),
{
    match &e.change {
        AttributeChange::Assign(value) => set_attr_exec(attrs, &e.name, value),
        AttributeChange::Remove => remove_attr_exec(attrs, &e.name),
    }
}

proof fn lemma_attr_same_node_between(a: Seq<EditAttribute>, order: Seq<usize>, q: int, m: int, k: int)
    requires
        attrs_sorted(a, order),
        0 <= q < m < k < order.len(),
        perm_of(order, a.len() as int),
        a[order[q] as int].node == a[order[k] as int].node,
    ensures
        a[order[m] as int].node == a[order[k] as int].node,
{
    assert(attr_before(a, order[q] as int, order[m] as int));
    assert(attr_before(a, order[m] as int, order[k] as int));
    NodeId::lemma_eq_by_parts(a[order[m] as int].node, a[order[k] as int].node);
    NodeId::lemma_eq_by_parts(a[order[q] as int].node, a[order[k] as int].node);
}

proof fn lemma_attr_group_of(a: Seq<EditAttribute>, order: Seq<usize>, g0: int, g1: int, n: NodeId, v: DocView)
    requires
        perm_of(order, a.len() as int),
        attrs_sorted(a, order),
        attrs_valid(v, a),
        a.len() <= usize::MAX,
        0 <= g0 < g1 <= order.len(),
        forall|q: int| #![trigger order[q]] g0 <= q < g1 ==> a[order[q] as int].node == n,
        g0 > 0 ==> a[order[g0 - 1] as int].node != n,
        g1 < order.len() ==> a[order[g1] as int].node != n,
    ensures
        attr_group_of(a, n, order.subrange(g0, g1).map_values(|x: usize| x as int)),
{
    let idx = order.subrange(g0, g1).map_values(|x: usize| x as int);
    assert forall|k: int| #![trigger idx[k]] 0 <= k < idx.len() implies 0 <= idx[k] < a.len()
        && a[idx[k]].node == n by {
        assert(idx[k] == order[g0 + k] as int);
    }
    assert(idx.no_duplicates()) by {
        assert forall|x: int, y: int| 0 <= x < idx.len() && 0 <= y < idx.len() && x != y implies idx[x] != idx[y] by {
            assert(idx[x] == order[g0 + x] as int);
            assert(idx[y] == order[g0 + y] as int);
        }
    }
    assert forall|i: int| 0 <= i < a.len() && a[i].node == n implies #[trigger] idx.contains(i) by {
        assert(order.contains(i as usize));
        let q = choose|q: int| 0 <= q < order.len() && order[q] == i as usize;
        assert(a[order[g0] as int].node == n);
        assert(a[order[q] as int].node == n);
        if q < g0 {
            if q < g0 - 1 {
                lemma_attr_same_node_between(a, order, q, g0 - 1, g0);
            }
            assert(false);
        } else if q >= g1 {
            if q > g1 {
                lemma_attr_same_node_between(a, order, g0, g1, q);
            }
            assert(false);
        } else {
            assert(idx[q - g0] == i);
        }
    }
    assert forall|x: int, y: int| #![trigger idx[x], idx[y]] 0 <= x < y < idx.len() implies bytes_lt(name_bytes(a, idx[x]), name_bytes(a, idx[y])) by {
        let i = idx[x];
        let j = idx[y];
        assert(i == order[g0 + x] as int);
        assert(j == order[g0 + y] as int);
        assert(attr_before(a, i, j));
        NodeId::lemma_eq_by_parts(a[i].node, a[j].node);
        assert(i != j);
        assert(a[i].name@ != a[j].name@);
        if name_bytes(a, i) == name_bytes(a, j) {
            encode_utf8_decode_utf8(a[i].name@);
            encode_utf8_decode_utf8(a[j].name@);
        }
    }
}

/// Apply all attribute edits, one node at a time, each node's edits by name.
#[verifier::rlimit(80)]
pub fn apply_attrs(doc: &mut crate::document::Document, a: &[EditAttribute], order: &[usize])
    requires
        old(doc).wf(),
        attrs_valid(old(doc)@, a@),
        perm_of(order@, a@.len() as int),
        attrs_sorted(a@, order@),
    ensures
        final(doc).wf(),
        attrs_applied(old(doc)@, final(doc)@, a@),
        final(doc).room() == old(doc).room(),
        forall|x: NodeId| old(doc).stale(x) ==> final(doc).stale(x),
        kept_or_retired(*old(doc), *final(doc)),
{
    let ghost v = doc@;
    let ghost r0 = doc.room();
    let n = order.len();
    let mut g0: usize = 0;
    while g0 < n
        invariant
            n == order@.len(),
            n == a@.len(),
            attrs_valid(v, a@),
            perm_of(order@, a@.len() as int),
            attrs_sorted(a@, order@),
            g0 <= n,
            g0 > 0 && g0 < n ==> a@[order@[g0 as int] as int].node != a@[order@[g0 - 1] as int].node,
            doc.wf(),
            doc.room() == r0,
            forall|x: NodeId| old(doc).stale(x) ==> doc.stale(x),
            old(doc)@ == v,
            doc@.source == v.source,
            doc@.root == v.root,
            doc@.depth == v.depth,
            doc@.nodes.dom() == v.nodes.dom(),
            forall|m: NodeId|
                #[trigger] doc@.nodes.contains_key(m) ==> if exists|q: int| 0 <= q < g0 && #[trigger] a@[order@[q] as int].node == m {
                    same_but_attrs(v.nodes[m], doc@.nodes[m]) && exists|idx: Seq<int>|
                        attr_group_of(a@, m, idx) && doc@.nodes[m].attrs@ == fold_attrs(
                            v.nodes[m].attrs@,
                            attr_group_edits(a@, idx),
                        )
                } else {
                    doc@.nodes[m] == v.nodes[m]
                },
        decreases n - g0,
    {
        let node = a[order[g0]].node;
        let mut g1 = g0 + 1;
        while g1 < n && a[order[g1]].node == node
            invariant
                g0 < g1 <= n,
                n == order@.len(),
                n == a@.len(),
                perm_of(order@, a@.len() as int),
                forall|q: int| #![trigger order@[q]] g0 <= q < g1 ==> a@[order@[q] as int].node == node,
            decreases n - g1,
        {
            g1 = g1 + 1;
        }
        proof {
            assert(live(v, a@[order@[g0 as int] as int].node));
            assert(!exists|q: int| 0 <= q < g0 && #[trigger] a@[order@[q] as int].node == node) by {
                if exists|q: int| 0 <= q < g0 && #[trigger] a@[order@[q] as int].node == node {
                    let q = choose|q: int| 0 <= q < g0 && #[trigger] a@[order@[q] as int].node == node;
                    if q < g0 - 1 {
                        lemma_attr_same_node_between(a@, order@, q, g0 - 1, g0 as int);
                    }
                }
            }
            lemma_attr_group_of(a@, order@, g0 as int, g1 as int, node, v);
        }
        let ghost idx = order@.subrange(g0 as int, g1 as int).map_values(|x: usize| x as int);
        let ghost es = attr_group_edits(a@, idx);
        let mut cur = doc.replace_attrs(node, Vec::new());
        let ghost start = cur@;
        proof {
            assert(start == v.nodes[node].attrs@);
            assert(es.take(0) =~= Seq::<EditAttribute>::empty());
        }
        let mut q = g0;
        while q < g1
            invariant
                g0 <= q <= g1,
                g1 <= n,
                n == order@.len(),
                n == a@.len(),
                perm_of(order@, a@.len() as int),
                idx == order@.subrange(g0 as int, g1 as int).map_values(|x: usize| x as int),
                es == attr_group_edits(a@, idx),
                cur@ == fold_attrs(start, es.take(q - g0)),
            decreases g1 - q,
        {
            proof {
                assert(es.take(q - g0 + 1).drop_last() =~= es.take(q - g0));
                assert(es.take(q - g0 + 1).last() == a@[order@[q as int] as int]);
            }
            cur = apply_attr_exec(&cur, &a[order[q]]);
            q = q + 1;
        }
        proof {
            assert(es.take(g1 - g0) =~= es);
        }
        let ghost mid = doc@;
        let _ = doc.replace_attrs(node, cur);
        proof {
            assert forall|m: NodeId|
                #[trigger] doc@.nodes.contains_key(m) implies if exists|q: int| 0 <= q < g1 && #[trigger] a@[order@[q] as int].node == m {
                    same_but_attrs(v.nodes[m], doc@.nodes[m]) && exists|idx2: Seq<int>|
                        attr_group_of(a@, m, idx2) && doc@.nodes[m].attrs@ == fold_attrs(
                            v.nodes[m].attrs@,
                            attr_group_edits(a@, idx2),
                        )
                } else {
                    doc@.nodes[m] == v.nodes[m]
                } by {
                if m == node {
                    assert(a@[order@[g0 as int] as int].node == m);
                } else {
                    if exists|q: int| 0 <= q < g1 && #[trigger] a@[order@[q] as int].node == m {
                        let q = choose|q: int| 0 <= q < g1 && #[trigger] a@[order@[q] as int].node == m;
                        assert(q < g0);
                    }
                }
            }
        }
        g0 = g1;
    }
    proof {
        assert forall|m: NodeId| #[trigger] doc@.nodes.contains_key(m) implies (exists|q: int| 0 <= q < n && #[trigger] a@[order@[q] as int].node == m) == has_attr_edit(a@, m) by {
            if has_attr_edit(a@, m) {
                let i = choose|i: int| 0 <= i < a@.len() && a@[i].node == m;
                assert(order@.contains(i as usize));
                let q = choose|q: int| 0 <= q < order@.len() && order@[q] == i as usize;
                assert(a@[order@[q] as int].node == m);
            }
            if exists|q: int| 0 <= q < n && #[trigger] a@[order@[q] as int].node == m {
                let q = choose|q: int| 0 <= q < n && #[trigger] a@[order@[q] as int].node == m;
                assert(a@[order@[q] as int] == a@[order@[q] as int]);
            }
        }
    }
    proof {
        reveal(kept_or_retired);
    }
}

} // verus!
