//! What dictionaries hold and when they are equal.
use crate::column::resized;
use crate::float64::one;
use crate::float_laws::law_cutting_off;
use crate::float_order::law_comparison_is_the_order_of_values;
use crate::value::entry_at;
use crate::value::lemma_entry_at;
use crate::value::lookup;
use crate::value::unique_keys;
use crate::value::Val;
use std::cmp::Ordering;
use vstd::prelude::*;

verus! {

/// A dictionary gives the first value under a key, and none where no entry has the key.
pub proof fn law_entries_are_found(m: Seq<(Seq<char>, Val)>, key: Seq<char>, k: int)
    ensures
        0 <= k < m.len() && m[k].0 == key && (forall|j: int|
            0 <= j < k ==> (#[trigger] m[j]).0 != key) ==> lookup(m, key) == Some(m[k].1),
        0 <= k < m.len() && m[k].0 == key && unique_keys(m) ==> lookup(m, key) == Some(m[k].1),
        lookup(m, key) is None <==> forall|j: int|
            0 <= j < m.len() ==> (#[trigger] m[j]).0 != key,
        lookup(m, key) is Some ==> m.contains((key, lookup(m, key)->0)),
{
    if 0 <= k < m.len() && m[k].0 == key {
        if unique_keys(m) || (forall|j: int| 0 <= j < k ==> (#[trigger] m[j]).0 != key) {
            assert forall|j: int| 0 <= j < k implies (#[trigger] m[j]).0 != key by {
                if unique_keys(m) {
                    assert(m[j].0 != m[k].0);
                }
            }
            lemma_entry_at(m, key, k);
        }
    }
    lemma_place(m, key);
    let n = entry_at(m, key);
    if n < m.len() {
        assert(m[n] == (key, m[n].1));
    }
}

proof fn lemma_place(m: Seq<(Seq<char>, Val)>, key: Seq<char>)
    ensures
        0 <= entry_at(m, key) <= m.len(),
        forall|i: int| 0 <= i < entry_at(m, key) ==> (#[trigger] m[i]).0 != key,
        entry_at(m, key) < m.len() ==> m[entry_at(m, key)].0 == key,
    decreases m.len(),
{
    if m.len() > 0 && m[0].0 != key {
        let t = m.drop_first();
        lemma_place(t, key);
        assert forall|i: int| 0 <= i < entry_at(m, key) implies (#[trigger] m[i]).0 != key by {
            if i > 0 {
                assert(t[i - 1] == m[i]);
            }
        }
    }
}

/// Of pairs that are told from the last on, the last with a key counts.
pub proof fn law_the_last_pair_counts(m: Seq<(Seq<char>, Val)>, key: Seq<char>, k: int)
    requires
        0 <= k < m.len(),
        m[k].0 == key,
        forall|j: int| k < j < m.len() ==> (#[trigger] m[j]).0 != key,
    ensures
        lookup(m.reverse(), key) == Some(m[k].1),
{
    let r = m.reverse();
    let n = m.len() - 1 - k;
    assert forall|j: int| 0 <= j < n implies (#[trigger] r[j]).0 != key by {
        assert(r[j] == m[m.len() - 1 - j]);
    }
    lemma_entry_at(r, key, n);
}

/// Dictionaries are equal where they hold equally many entries and every entry of the one has
/// an equal value in the other, in whatever order they stand.
pub proof fn law_dictionaries_are_equal_by_what_they_hold(
    a: Seq<(Seq<char>, Val)>,
    b: Seq<(Seq<char>, Val)>,
)
    ensures
        Val::Dict(a).same(Val::Dict(b)) <==> a.len() == b.len() && forall|i: int|
            0 <= i < a.len() ==> lookup(b, (#[trigger] a[i]).0) is Some && a[i].1.same(
                lookup(b, a[i].0)->0,
            ),
{
    let x = Val::Dict(a);
    let y = Val::Dict(b);
    assert(x->Dict_0 == a && y->Dict_0 == b);
    if x.same(y) {
        assert forall|i: int| 0 <= i < a.len() implies lookup(b, (#[trigger] a[i]).0) is Some
            && a[i].1.same(lookup(b, a[i].0)->0) by {
            let j = entry_at(b, a[i].0);
            assert(0 <= j < b.len() && a[i].1.same(b[j].1));
        }
    }
    if a.len() == b.len() && (forall|i: int|
        0 <= i < a.len() ==> lookup(b, (#[trigger] a[i]).0) is Some && a[i].1.same(
            lookup(b, a[i].0)->0,
        )) {
        assert forall|i: int| 0 <= i < a.len() implies {
            let j = entry_at(b, (#[trigger] a[i]).0);
            0 <= j < b.len() && a[i].1.same(b[j].1)
        } by {
            assert(lookup(b, a[i].0) is Some);
        }
    }
}

/// Numbers compare as they stand in order, and what has no number compares to nothing.
pub proof fn law_numbers_are_ordered(a: Val, b: Val)
    ensures
        a.num() is Some && b.num() is Some && a.num()->0.finite() && b.num()->0.finite() ==> {
            let x = a.num()->0.scaled();
            let y = b.num()->0.scaled();
            &&& a.ordered(b) == Some(Ordering::Less) <==> x < y
            &&& a.ordered(b) == Some(Ordering::Equal) <==> x == y
            &&& a.ordered(b) == Some(Ordering::Greater) <==> x > y
        },
        a.num() is None || b.num() is None ==> a.ordered(b) is None,
        a.num() is Some && b.num() is Some && (a.num()->0.nan() || b.num()->0.nan()) ==> a.ordered(
            b,
        ) is None,
{
    if a.num() is Some && b.num() is Some && a.num()->0.finite() && b.num()->0.finite() {
        law_comparison_is_the_order_of_values(a.num()->0, b.num()->0);
        law_comparison_is_the_order_of_values(b.num()->0, a.num()->0);
    }
}

/// An integer is itself, a number loses its fraction, and nothing else is an integer.
pub proof fn law_integers_of_values(v: Val)
    ensures
        v is Int ==> v.int_of() == Some(v->Int_0),
        v is Float && v->Float_0.finite() && -0x7FFF_FFFF_FFFF_FFFF * one() < v->Float_0.scaled()
            < 0x7FFF_FFFF_FFFF_FFFF * one() ==> {
            let n = v.int_of()->0;
            &&& v.int_of() is Some
            &&& v->Float_0.scaled() >= 0 ==> n * one() <= v->Float_0.scaled() < (n + 1) * one()
            &&& v->Float_0.scaled() <= 0 ==> (n - 1) * one() < v->Float_0.scaled() <= n * one()
        },
        !(v is Int || v is Float) ==> v.int_of() is None,
{
    if v is Float && v->Float_0.finite() && -0x7FFF_FFFF_FFFF_FFFF * one() < v->Float_0.scaled()
        < 0x7FFF_FFFF_FFFF_FFFF * one() {
        assert(-0x7FFF_FFFF_FFFF_FFFF * one() == -(0x7FFF_FFFF_FFFF_FFFF * one()))
            by (nonlinear_arith);
        law_cutting_off(v->Float_0);
    }
}

/// What is made longer or shorter keeps its items as far as they go, and is filled up with the
/// one that is given.
pub proof fn law_resizing_keeps_what_fits<T>(s: Seq<T>, n: nat, x: T, i: int)
    requires
        0 <= i < n,
    ensures
        resized(s, n, x).len() == n,
        i < s.len() ==> resized(s, n, x)[i] == s[i],
        i >= s.len() ==> resized(s, n, x)[i] == x,
{
}

}
