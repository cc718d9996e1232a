//! How often a subscription is hit: a table that takes in one subscription gives at most one
//! hit more.
use crate::calculation::CalcId;
use crate::runtime::buckets::BucketEntry;
use crate::runtime::buckets::PathBuckets;
use crate::runtime::index::bucket_fires;
use crate::runtime::index::bucket_hits;
use crate::runtime::index::collect;
use crate::runtime::index::lemma_collect_push;
use crate::runtime::index::Hit;
use crate::value::path_of;
use crate::value::Val;
use vstd::multiset::Multiset;
use vstd::prelude::*;

verus! {

/// A hit more, or none.
pub open spec fn with_hit(m: Multiset<Hit>, h: Option<Hit>) -> Multiset<Hit> {
    match h {
        Some(x) => m.insert(x),
        None => m,
    }
}

/// `after` holds what `before` holds and at most one hit more, which belongs to the group of
/// the calculation.
pub open spec fn one_more(
    after: Multiset<Hit>,
    before: Multiset<Hit>,
    calc: CalcId,
    group: u32,
) -> bool {
    exists|h: Option<Hit>|
        after == #[trigger] with_hit(before, h) && (h is Some ==> h->0.calc == calc && h->0.group
            == group)
}

/// There is at most one hit of the group of the calculation, and it is there once.
pub open spec fn at_most_once(m: Multiset<Hit>, calc: CalcId, group: u32) -> bool {
    forall|a: Hit, b: Hit|
        #![trigger m.count(a), m.count(b)]
        a.calc == calc && a.group == group && b.calc == calc && b.group == group && m.count(a) > 0
            && m.count(b) > 0 ==> a == b && m.count(a) == 1
}

/// There is no hit of the group of the calculation.
pub open spec fn never(m: Multiset<Hit>, calc: CalcId, group: u32) -> bool {
    forall|a: Hit| a.calc == calc && a.group == group ==> #[trigger] m.count(a) == 0
}

/// The first hit of a group makes it hit once, and leaves all others as they are.
pub proof fn lemma_first_hit(
    after: Multiset<Hit>,
    before: Multiset<Hit>,
    calc: CalcId,
    group: u32,
)
    requires
        one_more(after, before, calc, group),
    ensures
        forall|a: Hit|
            a.calc != calc || a.group != group ==> #[trigger] after.count(a) == before.count(a),
        forall|a: Hit| #[trigger] after.count(a) >= before.count(a),
        never(before, calc, group) ==> at_most_once(after, calc, group),
        forall|c: CalcId, g: u32|
            (c != calc || g != group) && #[trigger] at_most_once(before, c, g) ==> at_most_once(
                after,
                c,
                g,
            ),
{
    let h = choose|h: Option<Hit>|
        after == #[trigger] with_hit(before, h) && (h is Some ==> h->0.calc == calc && h->0.group
            == group);
    assert forall|c: CalcId, g: u32|
        (c != calc || g != group) && #[trigger] at_most_once(before, c, g) implies at_most_once(
        after,
        c,
        g,
    ) by {
        assert forall|a: Hit, b: Hit|
            #![trigger after.count(a), after.count(b)]
            a.calc == c && a.group == g && b.calc == c && b.group == g && after.count(a) > 0
                && after.count(b) > 0 implies a == b && after.count(a) == 1 by {
            assert(after.count(a) == before.count(a));
            assert(after.count(b) == before.count(b));
        }
    }
    if never(before, calc, group) {
        assert forall|a: Hit, b: Hit|
            #![trigger after.count(a), after.count(b)]
            a.calc == calc && a.group == group && b.calc == calc && b.group == group && after.count(
                a,
            ) > 0 && after.count(b) > 0 implies a == b && after.count(a) == 1 by {
            assert(before.count(a) == 0);
            assert(before.count(b) == 0);
        }
    }
}

/// Where a group is hit at most once, no two places of a list hold hits of it.
pub proof fn lemma_one_place(s: Seq<Hit>, calc: CalcId, group: u32, i: int, j: int)
    requires
        at_most_once(s.to_multiset(), calc, group),
        0 <= i < j < s.len(),
        s[i].calc == calc,
        s[i].group == group,
    ensures
        s[j].calc != calc || s[j].group != group,
{
    if s[j].calc == calc && s[j].group == group {
        let m = s.to_multiset();
        vstd::seq_lib::to_multiset_contains(s, s[i]);
        vstd::seq_lib::to_multiset_contains(s, s[j]);
        assert(s.contains(s[i]) && s.contains(s[j]));
        assert(m.count(s[i]) > 0 && m.count(s[j]) > 0);
        assert(s[i] == s[j]);
        let r = s.remove(i);
        vstd::seq_lib::to_multiset_remove(s, i);
        vstd::seq_lib::to_multiset_contains(r, s[j]);
        assert(r[j - 1] == s[j]);
        assert(r.contains(s[j]));
    }
}

/// One item more in a table, wherever it went.
pub proof fn lemma_collect_count<T>(s: Seq<T>, k: int, x: T, f: spec_fn(T) -> Option<Hit>)
    requires
        0 <= k <= s.len(),
    ensures
        collect(s.insert(k, x), f).to_multiset() == with_hit(collect(s, f).to_multiset(), f(x)),
    decreases s.len() - k,
{
    let t = s.insert(k, x);
    if k == s.len() {
        assert(t =~= s.push(x));
        lemma_collect_push(s, x, f);
        if f(x) is Some {
            vstd::seq_lib::to_multiset_build(collect(s, f), f(x)->0);
        }
    } else {
        let r = s.drop_last();
        lemma_collect_count(r, k, x, f);
        assert(t.drop_last() =~= r.insert(k, x));
        assert(t.last() == s.last());
        if f(s.last()) is Some {
            vstd::seq_lib::to_multiset_build(collect(r, f), f(s.last())->0);
            vstd::seq_lib::to_multiset_build(collect(r.insert(k, x), f), f(s.last())->0);
        }
        assert(collect(t, f).to_multiset() =~= with_hit(collect(s, f).to_multiset(), f(x)));
    }
}

/// A path without entries adds nothing.
pub proof fn lemma_bucket_empty(ps: Seq<PathBuckets>, p: PathBuckets, new: Val)
    requires
        p.entries@.len() == 0,
    ensures
        bucket_hits(ps.push(p), new) == bucket_hits(ps, new),
{
    assert(ps.push(p).drop_last() =~= ps);
    assert(bucket_hits(ps.push(p), new) =~= bucket_hits(ps, new));
}

/// One entry more under one of the paths.
pub proof fn lemma_bucket_count(
    after: Seq<PathBuckets>,
    before: Seq<PathBuckets>,
    i: int,
    e: BucketEntry,
    new: Val,
)
    requires
        0 <= i < before.len(),
        after.len() == before.len(),
        forall|a: int| 0 <= a < before.len() && a != i ==> #[trigger] after[a] == before[a],
        after[i].path == before[i].path,
        after[i].entries@ == before[i].entries@.push(e),
    ensures
        bucket_hits(after, new).to_multiset() == with_hit(
            bucket_hits(before, new).to_multiset(),
            bucket_fires(new.get_path(path_of(before[i].path@)))(e),
        ),
    decreases before.len(),
{
    let f = bucket_fires(new.get_path(path_of(before.last().path@)));
    let a = bucket_hits(after.drop_last(), new);
    let b = bucket_hits(before.drop_last(), new);
    let x = collect(after.last().entries@, f);
    let y = collect(before.last().entries@, f);
    vstd::seq_lib::lemma_multiset_commutative(a, x);
    vstd::seq_lib::lemma_multiset_commutative(b, y);
    if i == before.len() - 1 {
        assert(after.drop_last() =~= before.drop_last());
        let n = before[i].entries@.len() as int;
        lemma_collect_count(before[i].entries@, n, e, f);
        assert(before[i].entries@.insert(n, e) =~= before[i].entries@.push(e));
        assert(bucket_hits(after, new).to_multiset() =~= with_hit(
            bucket_hits(before, new).to_multiset(),
            f(e),
        ));
    } else {
        assert(after.last() == before.last());
        lemma_bucket_count(after.drop_last(), before.drop_last(), i, e, new);
        let g = bucket_fires(new.get_path(path_of(before[i].path@)));
        assert(bucket_hits(after, new).to_multiset() =~= with_hit(
            bucket_hits(before, new).to_multiset(),
            g(e),
        ));
    }
}

}
