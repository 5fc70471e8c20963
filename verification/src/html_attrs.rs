//! The attributes of an HTML tag as they are written: grouped by name in the
//! order each name first occurs, `class` values joined by spaces and `style`
//! values by semicolons, other repeated names written once per value.
use vstd::prelude::*;

use crate::directive_attrs::attrs_view;
use crate::utf8text::append_all;

verus! {

/// The values given to `name` in `a`, in order.
pub open spec fn values_of(a: Seq<(Seq<char>, Seq<char>)>, name: Seq<char>, lo: int, hi: int) -> Seq<Seq<char>>
    decreases hi - lo,
{
    if hi <= lo {
        Seq::empty()
    } else {
        values_of(a, name, lo, hi - 1) + if a[hi - 1].0 == name {
            seq![a[hi - 1].1]
        } else {
            Seq::<Seq<char>>::empty()
        }
    }
}

/// The values `vs` joined with `sep` between them.
pub open spec fn join(vs: Seq<Seq<char>>, sep: Seq<char>) -> Seq<char>
    decreases vs.len(),
{
    if vs.len() == 0 {
        Seq::empty()
    } else if vs.len() == 1 {
        vs[0]
    } else {
        join(vs.drop_last(), sep) + sep + vs.last()
    }
}

/// The attributes written for `name`, whose values in `a` are `vs`.
pub open spec fn emitted(name: Seq<char>, vs: Seq<Seq<char>>) -> Seq<(Seq<char>, Seq<char>)> {
    if name == "class"@ {
        seq![(name, join(vs, " "@))]
    } else if name == "style"@ {
        seq![(name, join(vs, ";"@))]
    } else {
        vs.map_values(|v: Seq<char>| (name, v))
    }
}

/// Whether entry `j` of `a` is the first with its name.
pub open spec fn first_of_name(a: Seq<(Seq<char>, Seq<char>)>, j: int) -> bool {
    forall|k: int| 0 <= k < j ==> a[k].0 != a[j].0
}

/// The attributes written for the first `i` entries of `a`: each name at its
/// first entry, with all of its values.
pub open spec fn written(a: Seq<(Seq<char>, Seq<char>)>, i: int) -> Seq<(Seq<char>, Seq<char>)>
    decreases i,
{
    if i <= 0 {
        Seq::empty()
    } else {
        written(a, i - 1) + if first_of_name(a, i - 1) {
            emitted(a[i - 1].0, values_of(a, a[i - 1].0, 0, a.len() as int))
        } else {
            Seq::empty()
        }
    }
}

/// Values before the first entry of a name hold nothing for it.
proof fn lemma_values_before_first(a: Seq<(Seq<char>, Seq<char>)>, i: int, hi: int)
    requires
        0 <= hi <= i < a.len(),
        first_of_name(a, i),
    ensures
        values_of(a, a[i].0, 0, hi) == Seq::<Seq<char>>::empty(),
    decreases hi,
{
    if hi > 0 {
        lemma_values_before_first(a, i, hi - 1);
        assert(values_of(a, a[i].0, 0, hi) =~= Seq::<Seq<char>>::empty());
    }
}

proof fn lemma_values_split(a: Seq<(Seq<char>, Seq<char>)>, name: Seq<char>, lo: int, mid: int, hi: int)
    requires
        lo <= mid <= hi,
    ensures
        values_of(a, name, lo, hi) == values_of(a, name, lo, mid) + values_of(a, name, mid, hi),
    decreases hi - mid,
{
    if hi == mid {
        assert(values_of(a, name, lo, mid) + values_of(a, name, mid, hi) =~= values_of(a, name, lo, mid));
    } else {
        lemma_values_split(a, name, lo, mid, hi - 1);
        assert(values_of(a, name, lo, hi) =~= values_of(a, name, lo, mid) + values_of(a, name, mid, hi));
    }
}

/// Whether `s` holds the text `lit`.
fn text_is(s: &String, lit: &str) -> (r: bool)
    ensures
        r == (s@ == lit@),
{
    *s == lit.to_owned()
}

/// The values `vs` joined with `sep` between them.
fn join_values(vs: &Vec<String>, sep: &str) -> (r: String)
    ensures
        r@ == join(vs@.map_values(|v: String| v@), sep@),
{
    let ghost w = vs@.map_values(|v: String| v@);
    let mut out = String::new();
    let mut i: usize = 0;
    while i < vs.len()
        invariant
            i <= vs@.len(),
            w == vs@.map_values(|v: String| v@),
            out@ == join(w.take(i as int), sep@),
        decreases vs@.len() - i,
    {
        proof {
            assert(w.take(i + 1).drop_last() =~= w.take(i as int));
            assert(w.take(i + 1).last() == vs@[i as int]@);
        }
        if i > 0 {
            append_all(&mut out, sep);
        }
        append_all(&mut out, vs[i].as_str());
        proof {
            if i == 0 {
                assert(w.take(1) =~= seq![vs@[0]@]);
                assert(out@ =~= vs@[0]@);
            }
        }
        i = i + 1;
    }
    proof {
        assert(w.take(vs@.len() as int) =~= w);
    }
    out
}

/// The attributes of a tag as they are written, before escaping: names in
/// the order each first occurs; all `class` values as one, joined by spaces;
/// all `style` values as one, joined by semicolons; and every value of any
/// other name, in order, at the place of that name's first occurrence.
pub fn html_attr_pairs(attrs: &Vec<(String, String)>) -> (r: Vec<(String, String)>)
    ensures
        attrs_view(r@) == written(attrs_view(attrs@), attrs@.len() as int),
{
    let ghost a = attrs_view(attrs@);
    let n = attrs.len();
    let mut out: Vec<(String, String)> = Vec::new();
    let mut i: usize = 0;
    while i < n
        invariant
            n == attrs@.len(),
            a == attrs_view(attrs@),
            a.len() == n,
            i <= n,
            attrs_view(out@) == written(a, i as int),
        decreases n - i,
    {
        let name = &attrs[i].0;
        let mut seen = false;
        let mut j: usize = 0;
        while j < i && !seen
            invariant
                i < n,
                n == attrs@.len(),
                a == attrs_view(attrs@),
                j <= i,
                name == attrs@[i as int].0,
                seen <==> exists|k: int| 0 <= k < j && a[k].0 == a[i as int].0,
            decreases i - j + (if seen {
                0int
            } else {
                1int
            }),
        {
            proof {
                assert(a[j as int] == (attrs@[j as int].0@, attrs@[j as int].1@));
                assert(a[i as int] == (attrs@[i as int].0@, attrs@[i as int].1@));
            }
            if attrs[j].0 == *name {
                seen = true;
            }
            j = j + 1;
        }
        let ghost before = out@;
        if !seen {
            proof {
                assert(first_of_name(a, i as int));
            }
            let mut values: Vec<String> = Vec::new();
            let mut k: usize = i;
            proof {
                lemma_values_before_first(a, i as int, i as int);
            }
            while k < n
                invariant
                    i <= k <= n,
                    n == attrs@.len(),
                    a == attrs_view(attrs@),
                    name == attrs@[i as int].0,
                    values@.map_values(|v: String| v@) == values_of(a, a[i as int].0, i as int, k as int),
                decreases n - k,
            {
                if attrs[k].0 == *name {
                    values.push(attrs[k].1.clone());
                }
                proof {
                    assert(values@.map_values(|v: String| v@) =~= values_of(a, a[i as int].0, i as int, k + 1));
                }
                k = k + 1;
            }
            proof {
                lemma_values_split(a, a[i as int].0, 0, i as int, n as int);
                lemma_values_before_first(a, i as int, i as int);
                assert(values_of(a, a[i as int].0, 0, n as int) =~= values@.map_values(|v: String| v@));
            }
            if text_is(name, "class") {
                let joined = join_values(&values, " ");
                out.push((name.clone(), joined));
            } else if text_is(name, "style") {
                let joined = join_values(&values, ";");
                out.push((name.clone(), joined));
            } else {
                let mut m: usize = 0;
                while m < values.len()
                    invariant
                        m <= values@.len(),
                        name == attrs@[i as int].0,
                        attrs_view(out@) == attrs_view(before) + values@.take(m as int).map_values(
                            |v: String| (name@, v@),
                        ),
                    decreases values@.len() - m,
                {
                    let ghost pre = out@;
                    let key = name.clone();
                    let value = values[m].clone();
                    out.push((key, value));
                    proof {
                        assert(out@ == pre.push((key, value)));
                        assert(attrs_view(out@) =~= attrs_view(pre).push((name@, values@[m as int]@)));
                        assert(values@.take(m + 1).map_values(|v: String| (name@, v@)) =~= values@.take(
                            m as int,
                        ).map_values(|v: String| (name@, v@)).push((name@, values@[m as int]@)));
                        assert(attrs_view(out@) =~= attrs_view(before) + values@.take(m + 1).map_values(
                            |v: String| (name@, v@),
                        ));
                    }
                    m = m + 1;
                }
                proof {
                    assert(values@.take(values@.len() as int) =~= values@);
                    assert(values@.map_values(|v: String| (name@, v@)) =~= values@.map_values(|v: String| v@).map_values(
                        |v: Seq<char>| (name@, v),
                    ));
                }
            }
            proof {
                assert(attrs_view(out@) =~= written(a, i + 1));
            }
        } else {
            proof {
                let k = choose|k: int| 0 <= k < j && a[k].0 == a[i as int].0;
                assert(!first_of_name(a, i as int));
                assert(written(a, i + 1) =~= written(a, i as int));
            }
        }
        i = i + 1;
    }
    out
}

} // verus!
