//! The canonical order of a batch.
use crate::runtime::route::key_le;
use crate::runtime::route::key_not_above;
use crate::runtime::route::rows_model;
use crate::runtime::route::BatchRow;
use crate::runtime::route::RowModel;
use vstd::prelude::*;

verus! {

/// The number of leading rows that `x` comes after or shares its place with.
pub open spec fn place_of(s: Seq<RowModel>, x: RowModel) -> int
    decreases s.len(),
{
    if s.len() == 0 {
        0
    } else if key_le(s.last().key, x.key) {
        s.len() as int
    } else {
        place_of(s.drop_last(), x)
    }
}

/// The rows in canonical order: each row goes behind those that came before it and do not
/// come after it in the order.
pub open spec fn canonical(s: Seq<RowModel>) -> Seq<RowModel>
    decreases s.len(),
{
    if s.len() == 0 {
        s
    } else {
        let t = canonical(s.drop_last());
        t.insert(place_of(t, s.last()), s.last())
    }
}

pub open spec fn in_order(s: Seq<RowModel>) -> bool {
    forall|i: int, j: int| 0 <= i <= j < s.len() ==> key_le((#[trigger] s[i]).key, (#[trigger] s[j]).key)
}

proof fn lemma_place(s: Seq<RowModel>, x: RowModel)
    requires
        in_order(s),
    ensures
        0 <= place_of(s, x) <= s.len(),
        forall|i: int| 0 <= i < place_of(s, x) ==> key_le((#[trigger] s[i]).key, x.key),
        forall|i: int| place_of(s, x) <= i < s.len() ==> !key_le((#[trigger] s[i]).key, x.key),
    decreases s.len(),
{
    if s.len() > 0 {
        let t = s.drop_last();
        if key_le(s.last().key, x.key) {
            assert forall|i: int| 0 <= i < s.len() implies key_le((#[trigger] s[i]).key, x.key) by {
                assert(key_le(s[i].key, s[s.len() - 1].key));
            }
        } else {
            assert(in_order(t)) by {
                assert forall|i: int, j: int| 0 <= i <= j < t.len() implies key_le(
                    (#[trigger] t[i]).key,
                    (#[trigger] t[j]).key,
                ) by {
                    assert(t[i] == s[i] && t[j] == s[j]);
                }
            }
            lemma_place(t, x);
            assert forall|i: int| 0 <= i < place_of(s, x) implies key_le(
                (#[trigger] s[i]).key,
                x.key,
            ) by {
                assert(s[i] == t[i]);
            }
            assert forall|i: int| place_of(s, x) <= i < s.len() implies !key_le(
                (#[trigger] s[i]).key,
                x.key,
            ) by {
                if i < t.len() {
                    assert(s[i] == t[i]);
                }
            }
        }
    }
}

/// Canonical order sorts the rows by writer and field, and neither loses nor invents one.
pub proof fn law_canonical_sorts(s: Seq<RowModel>)
    ensures
        in_order(canonical(s)),
        canonical(s).to_multiset() == s.to_multiset(),
        canonical(s).len() == s.len(),
    decreases s.len(),
{
    broadcast use vstd::seq_lib::group_to_multiset_ensures;

    if s.len() > 0 {
        let r = s.drop_last();
        let x = s.last();
        law_canonical_sorts(r);
        let t = canonical(r);
        lemma_place(t, x);
        let k = place_of(t, x);
        let c = t.insert(k, x);
        assert forall|i: int, j: int| 0 <= i <= j < c.len() implies key_le(
            (#[trigger] c[i]).key,
            (#[trigger] c[j]).key,
        ) by {
            let a = if i < k {
                i
            } else {
                i - 1
            };
            let b = if j < k {
                j
            } else {
                j - 1
            };
            if i != k && j != k {
                assert(c[i] == t[a] && c[j] == t[b]);
            } else if i == k && j > k {
                assert(c[j] == t[b]);
                assert(!key_le(t[b].key, x.key));
            } else if j == k && i < k {
                assert(c[i] == t[a]);
            }
        }
        assert(s =~= r.push(x));
        vstd::seq_lib::to_multiset_insert(t, k, x);
    }
}

/// Rows with distinct places come in one order, in whatever order they were collected.
pub proof fn law_canonical_ignores_arrival(a: Seq<RowModel>, b: Seq<RowModel>)
    requires
        a.to_multiset() == b.to_multiset(),
        forall|i: int, j: int| 0 <= i < j < a.len() ==> (#[trigger] a[i]).key != (#[trigger] a[j]).key,
    ensures
        canonical(a) == canonical(b),
{
    broadcast use vstd::seq_lib::group_to_multiset_ensures;

    law_canonical_sorts(a);
    law_canonical_sorts(b);
    let x = canonical(a);
    let y = canonical(b);
    lemma_key_injective(a, x);
    assert(y.to_multiset() == x.to_multiset());
    lemma_sorted_unique(x, y);
}

/// A sequence with the rows of `a` has distinct places where `a` has.
proof fn lemma_key_injective(a: Seq<RowModel>, x: Seq<RowModel>)
    requires
        a.to_multiset() == x.to_multiset(),
        forall|i: int, j: int| 0 <= i < j < a.len() ==> (#[trigger] a[i]).key != (#[trigger] a[j]).key,
    ensures
        forall|r: RowModel, s: RowModel|
            #![trigger x.to_multiset().count(r), x.to_multiset().count(s)]
            x.to_multiset().count(r) > 0 && x.to_multiset().count(s) > 0 && r.key == s.key ==> r
                == s,
        forall|r: RowModel| #[trigger] x.to_multiset().count(r) <= 1,
{
    broadcast use vstd::seq_lib::group_to_multiset_ensures;

    assert forall|r: RowModel, s: RowModel|
        #![trigger x.to_multiset().count(r), x.to_multiset().count(s)]
        x.to_multiset().count(r) > 0 && x.to_multiset().count(s) > 0 && r.key == s.key implies r
        == s by {
        assert(a.contains(r) && a.contains(s));
        let i = choose|i: int| 0 <= i < a.len() && a[i] == r;
        let j = choose|j: int| 0 <= j < a.len() && a[j] == s;
        if i < j {
            assert(a[i].key != a[j].key);
        } else if j < i {
            assert(a[j].key != a[i].key);
        }
    }
    assert(a.no_duplicates()) by {
        assert forall|i: int, j: int| 0 <= i < a.len() && 0 <= j < a.len() && i != j implies a[i]
            != a[j] by {
            if i < j {
                assert(a[i].key != a[j].key);
            } else {
                assert(a[j].key != a[i].key);
            }
        }
    }
    a.lemma_multiset_has_no_duplicates();
    assert forall|r: RowModel| #[trigger] x.to_multiset().count(r) <= 1 by {
        if a.to_multiset().count(r) > 0 {
            assert(a.to_multiset().contains(r));
        }
    }
}

proof fn lemma_sorted_unique(x: Seq<RowModel>, y: Seq<RowModel>)
    requires
        in_order(x),
        in_order(y),
        x.to_multiset() == y.to_multiset(),
        forall|r: RowModel, s: RowModel|
            #![trigger x.to_multiset().count(r), x.to_multiset().count(s)]
            x.to_multiset().count(r) > 0 && x.to_multiset().count(s) > 0 && r.key == s.key ==> r
                == s,
        forall|r: RowModel| #[trigger] x.to_multiset().count(r) <= 1,
    ensures
        x == y,
    decreases x.len(),
{
    broadcast use vstd::seq_lib::group_to_multiset_ensures;

    assert(x.len() == x.to_multiset().len());
    assert(y.len() == y.to_multiset().len());
    if x.len() == 0 {
        assert(x =~= y);
    } else {
        let a = x.last();
        let b = y.last();
        assert(x[x.len() - 1] == a);
        assert(y[y.len() - 1] == b);
        assert(x.contains(a) && y.contains(b));
        assert(y.to_multiset().count(a) > 0);
        assert(x.to_multiset().count(b) > 0);
        assert(y.contains(a) && x.contains(b));
        let i = choose|i: int| 0 <= i < y.len() && y[i] == a;
        let j = choose|j: int| 0 <= j < x.len() && x[j] == b;
        assert(key_le(y[i].key, y[y.len() - 1].key));
        assert(key_le(x[j].key, x[x.len() - 1].key));
        assert(a.key == b.key);
        assert(a == b);
        let xs = x.drop_last();
        let ys = y.drop_last();
        assert(x =~= xs.push(a));
        assert(y =~= ys.push(b));
        assert(x.to_multiset() == xs.to_multiset().insert(a));
        assert(y.to_multiset() == ys.to_multiset().insert(a));
        assert(xs.to_multiset() =~= xs.to_multiset().insert(a).remove(a));
        assert(ys.to_multiset() =~= ys.to_multiset().insert(a).remove(a));
        assert forall|r: RowModel| #[trigger] xs.to_multiset().count(r) <= 1 by {
            assert(x.to_multiset().count(r) <= 1);
        }
        assert forall|r: RowModel, s: RowModel|
            #![trigger xs.to_multiset().count(r), xs.to_multiset().count(s)]
            xs.to_multiset().count(r) > 0 && xs.to_multiset().count(s) > 0 && r.key
                == s.key implies r == s by {
            assert(x.to_multiset().count(r) > 0 && x.to_multiset().count(s) > 0);
        }
        assert(in_order(xs)) by {
            assert forall|p: int, q: int| 0 <= p <= q < xs.len() implies key_le(
                (#[trigger] xs[p]).key,
                (#[trigger] xs[q]).key,
            ) by {
                assert(xs[p] == x[p] && xs[q] == x[q]);
            }
        }
        assert(in_order(ys)) by {
            assert forall|p: int, q: int| 0 <= p <= q < ys.len() implies key_le(
                (#[trigger] ys[p]).key,
                (#[trigger] ys[q]).key,
            ) by {
                assert(ys[p] == y[p] && ys[q] == y[q]);
            }
        }
        lemma_sorted_unique(xs, ys);
        assert(x =~= y);
    }
}

/// Puts the rows of a batch into canonical order.
pub fn sort_rows(rows: Vec<BatchRow>) -> (r: Vec<BatchRow>)
    ensures
        rows_model(r@) == canonical(rows_model(rows@)),
{
    let ghost all = rows_model(rows@);
    let mut rest = rows;
    let mut rev: Vec<BatchRow> = Vec::new();
    while rest.len() > 0
        invariant
            all == rows_model(rows@),
            rest@.len() <= rows@.len(),
            rest@ == rows@.take(rest@.len() as int),
            rev@.len() + rest@.len() == rows@.len(),
            forall|i: int| 0 <= i < rev@.len() ==> #[trigger] rev@[i] == rows@[rows@.len() - 1 - i],
        decreases rest@.len(),
    {
        let ghost n = rest@.len();
        let x = rest.pop().unwrap();
        assert(x == rows@[n - 1]);
        rev.push(x);
        assert(rest@ =~= rows@.take(n - 1));
    }
    let mut out: Vec<BatchRow> = Vec::new();
    proof {
        assert(rows_model(out@) =~= canonical(all.take(0)));
    }
    while rev.len() > 0
        invariant
            all == rows_model(rows@),
            rev@.len() <= rows@.len(),
            forall|i: int| 0 <= i < rev@.len() ==> #[trigger] rev@[i] == rows@[rows@.len() - 1 - i],
            rows_model(out@) == canonical(all.take(rows@.len() - rev@.len())),
        decreases rev@.len(),
    {
        let ghost n = rows@.len() - rev@.len();
        let ghost t = rows_model(out@);
        let x = rev.pop().unwrap();
        proof {
            assert(x == rows@[n]);
            assert(all.take(n + 1).drop_last() =~= all.take(n));
            assert(all.take(n + 1).last() == x@);
        }
        let mut k: usize = out.len();
        proof {
            assert(t.take(k as int) =~= t);
        }
        while k > 0 && !key_not_above(out[k - 1].key, x.key)
            invariant
                k <= out@.len(),
                t == rows_model(out@),
                place_of(t, x@) == place_of(t.take(k as int), x@),
            ensures
                k <= out@.len(),
                place_of(t, x@) == k,
            decreases k,
        {
            proof {
                assert(t.take(k as int).last() == out@[k - 1]@);
                assert(t.take(k as int).drop_last() =~= t.take(k - 1));
            }
            k = k - 1;
        }
        let ghost before = out@;
        let ghost xm = x@;
        out.insert(k, x);
        proof {
            assert(rows_model(out@) =~= t.insert(k as int, xm));
        }
    }
    proof {
        assert(all.take(rows@.len() as int) =~= all);
    }
    out
}

}
