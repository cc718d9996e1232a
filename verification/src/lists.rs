//! Sequences: the first item with a property, and the items that have one.
use vstd::prelude::*;

verus! {

/// The place of the first item with the property, or the length.
pub open spec fn first<T>(s: Seq<T>, p: spec_fn(T) -> bool) -> int
    decreases s.len(),
{
    if s.len() == 0 || p(s[0]) {
        0
    } else {
        1 + first(s.drop_first(), p)
    }
}

/// What makes a place the first one.
pub proof fn lemma_first<T>(s: Seq<T>, p: spec_fn(T) -> bool, n: int)
    requires
        0 <= n <= s.len(),
        forall|i: int| 0 <= i < n ==> !p(#[trigger] s[i]),
        n < s.len() ==> p(s[n]),
    ensures
        first(s, p) == n,
    decreases n,
{
    if n > 0 {
        let t = s.drop_first();
        assert forall|i: int| 0 <= i < n - 1 implies !p(#[trigger] t[i]) by {
            assert(t[i] == s[i + 1]);
        }
        if n < s.len() {
            assert(t[n - 1] == s[n]);
        }
        lemma_first(t, p, n - 1);
    }
}

/// What the first place is.
pub proof fn lemma_first_found<T>(s: Seq<T>, p: spec_fn(T) -> bool)
    ensures
        0 <= first(s, p) <= s.len(),
        forall|i: int| 0 <= i < first(s, p) ==> !p(#[trigger] s[i]),
        first(s, p) < s.len() ==> p(s[first(s, p)]),
    decreases s.len(),
{
    if s.len() > 0 && !p(s[0]) {
        let t = s.drop_first();
        lemma_first_found(t, p);
        assert forall|i: int| 0 <= i < first(s, p) implies !p(#[trigger] s[i]) by {
            if i > 0 {
                assert(t[i - 1] == s[i]);
            }
        }
    }
}

/// The items with the property, in their order.
pub open spec fn kept<T>(s: Seq<T>, p: spec_fn(T) -> bool) -> Seq<T>
    decreases s.len(),
{
    if s.len() == 0 {
        Seq::empty()
    } else if p(s.last()) {
        kept(s.drop_last(), p).push(s.last())
    } else {
        kept(s.drop_last(), p)
    }
}

/// One item more.
pub proof fn lemma_kept_next<T>(s: Seq<T>, p: spec_fn(T) -> bool, k: int)
    requires
        0 <= k < s.len(),
    ensures
        kept(s.take(k + 1), p) == (if p(s[k]) {
            kept(s.take(k), p).push(s[k])
        } else {
            kept(s.take(k), p)
        }),
{
    assert(s.take(k + 1).drop_last() =~= s.take(k));
    assert(s.take(k + 1).last() == s[k]);
}

/// What is kept is what has the property.
pub proof fn lemma_kept<T>(s: Seq<T>, p: spec_fn(T) -> bool)
    ensures
        forall|x: T| #[trigger] kept(s, p).contains(x) <==> s.contains(x) && p(x),
        kept(s, p).len() <= s.len(),
    decreases s.len(),
{
    if s.len() > 0 {
        let t = s.drop_last();
        lemma_kept(t, p);
        assert forall|x: T| #[trigger] kept(s, p).contains(x) <==> s.contains(x) && p(x) by {
            if kept(s, p).contains(x) {
                let i = choose|i: int| 0 <= i < kept(s, p).len() && kept(s, p)[i] == x;
                if i < kept(t, p).len() {
                    assert(kept(t, p)[i] == x);
                    assert(kept(t, p).contains(x));
                    let j = choose|j: int| 0 <= j < t.len() && t[j] == x;
                    assert(s[j] == x);
                } else {
                    assert(s[s.len() - 1] == x);
                }
            }
            if s.contains(x) && p(x) {
                let j = choose|j: int| 0 <= j < s.len() && s[j] == x;
                if j < t.len() {
                    assert(t[j] == x);
                    assert(kept(t, p).contains(x));
                    let i = choose|i: int| 0 <= i < kept(t, p).len() && kept(t, p)[i] == x;
                    assert(kept(s, p)[i] == x);
                } else {
                    assert(kept(s, p)[kept(t, p).len() as int] == x);
                }
            }
        }
    }
}

/// What is kept of items that differ differs.
pub proof fn lemma_kept_distinct<T>(s: Seq<T>, p: spec_fn(T) -> bool)
    requires
        s.no_duplicates(),
    ensures
        kept(s, p).no_duplicates(),
    decreases s.len(),
{
    if s.len() > 0 {
        let t = s.drop_last();
        assert(t.no_duplicates());
        lemma_kept_distinct(t, p);
        lemma_kept(t, p);
        if p(s.last()) {
            let k = kept(s, p);
            assert forall|i: int, j: int| 0 <= i < k.len() && 0 <= j < k.len() && i != j implies k[i]
                != k[j] by {
                if i == k.len() - 1 || j == k.len() - 1 {
                    let o = if i == k.len() - 1 {
                        j
                    } else {
                        i
                    };
                    assert(kept(t, p).contains(k[o]));
                    let x = choose|x: int| 0 <= x < t.len() && t[x] == k[o];
                    assert(s[x] == k[o]);
                }
            }
        }
    }
}

/// Keeping twice keeps what has both properties.
pub proof fn lemma_kept_twice<T>(s: Seq<T>, p: spec_fn(T) -> bool, q: spec_fn(T) -> bool)
    ensures
        kept(kept(s, p), q) == kept(s, |x: T| p(x) && q(x)),
    decreases s.len(),
{
    if s.len() > 0 {
        let t = s.drop_last();
        lemma_kept_twice(t, p, q);
        if p(s.last()) {
            assert(kept(s, p).drop_last() =~= kept(t, p));
        }
    }
}

/// Properties that agree on the items keep the same.
pub proof fn lemma_kept_same<T>(s: Seq<T>, p: spec_fn(T) -> bool, q: spec_fn(T) -> bool)
    requires
        forall|i: int| 0 <= i < s.len() ==> (p(#[trigger] s[i]) <==> q(s[i])),
    ensures
        kept(s, p) == kept(s, q),
    decreases s.len(),
{
    if s.len() > 0 {
        let t = s.drop_last();
        assert forall|i: int| 0 <= i < t.len() implies (p(#[trigger] t[i]) <==> q(t[i])) by {
            assert(t[i] == s[i]);
        }
        lemma_kept_same(t, p, q);
        assert(p(s[s.len() - 1]) <==> q(s[s.len() - 1]));
    }
}

/// Keeping everything changes nothing.
pub proof fn lemma_kept_all<T>(s: Seq<T>, p: spec_fn(T) -> bool)
    requires
        forall|i: int| 0 <= i < s.len() ==> p(#[trigger] s[i]),
    ensures
        kept(s, p) == s,
    decreases s.len(),
{
    if s.len() > 0 {
        let t = s.drop_last();
        assert forall|i: int| 0 <= i < t.len() implies p(#[trigger] t[i]) by {
            assert(t[i] == s[i]);
        }
        lemma_kept_all(t, p);
        assert(p(s[s.len() - 1]));
        assert(t.push(s.last()) =~= s);
    }
}

}
