//! What the plan of a frame says of its triggers, and what a scope asks of its writes.
use crate::calculation::CalcId;
use crate::kernel::reads_of;
use crate::predicate::Scope;
use crate::runtime::profile::hot_le;
use crate::runtime::profile::resident;
use crate::runtime::profile::CellCount;
use crate::runtime::profile::GroupModel;
use crate::runtime::profile::Profile;
use crate::runtime::route::Trig;
use crate::runtime::schedule::by_calc;
use crate::runtime::schedule::of_calc;
use crate::runtime::schedule::plan;
use crate::runtime::scope::flattened;
use crate::runtime::scope::Atom;
use crate::runtime::CalcInfo;
use crate::runtime::Residency;
use crate::runtime::Tier;
use vstd::prelude::*;

verus! {

/// The triggers of a calculation keep the order in which they came.
pub proof fn law_triggers_keep_their_order(ts: Seq<Trig>, c: int)
    ensures
        of_calc(ts, c) == ts.filter(|t: Trig| t.calc.0 == c),
    decreases ts.len(),
{
    let p = |t: Trig| t.calc.0 == c;
    reveal(Seq::filter);
    if ts.len() > 0 {
        law_triggers_keep_their_order(ts.drop_last(), c);
    } else {
        assert(of_calc(ts, c) =~= ts.filter(p));
    }
}

/// Ordering by calculation keeps how often every trigger occurs.
pub proof fn law_triggers_keep_their_number(ts: Seq<Trig>, n: int)
    requires
        n >= 0,
        forall|i: int| 0 <= i < ts.len() ==> (#[trigger] ts[i]).calc.0 < n,
    ensures
        by_calc(ts, n).to_multiset() == ts.to_multiset(),
    decreases ts.len(),
{
    if ts.len() == 0 {
        lemma_none(ts, n);
        assert(by_calc(ts, n) =~= ts);
    } else {
        let r = ts.drop_last();
        let t = ts.last();
        law_triggers_keep_their_number(r, n);
        lemma_one_more(r, t, n);
        assert(ts =~= r.push(t));
        vstd::seq_lib::to_multiset_build(r, t);
    }
}

proof fn lemma_none(ts: Seq<Trig>, n: int)
    requires
        ts.len() == 0,
    ensures
        by_calc(ts, n).len() == 0,
    decreases n,
{
    if n > 0 {
        lemma_none(ts, n - 1);
    }
}

/// One more trigger occurs once more, if it is of one of the calculations.
proof fn lemma_one_more(r: Seq<Trig>, t: Trig, n: int)
    requires
        n >= 0,
    ensures
        by_calc(r.push(t), n).to_multiset() == (if t.calc.0 < n {
            by_calc(r, n).to_multiset().insert(t)
        } else {
            by_calc(r, n).to_multiset()
        }),
    decreases n,
{
    if n > 0 {
        lemma_one_more(r, t, n - 1);
        let s = r.push(t);
        assert(s.drop_last() =~= r);
        assert(s.last() == t);
        let a = by_calc(r, n - 1);
        let b = of_calc(r, n - 1);
        let x = by_calc(s, n - 1);
        let y = of_calc(s, n - 1);
        vstd::seq_lib::lemma_multiset_commutative(a, b);
        vstd::seq_lib::lemma_multiset_commutative(x, y);
        if t.calc.0 == n - 1 {
            vstd::seq_lib::to_multiset_build(b, t);
            assert(y == b.push(t));
            assert(x.to_multiset().add(b.to_multiset().insert(t)) =~= a.to_multiset().add(
                b.to_multiset(),
            ).insert(t));
        } else {
            assert(y == b);
            if t.calc.0 < n - 1 {
                assert(a.to_multiset().insert(t).add(b.to_multiset()) =~= a.to_multiset().add(
                    b.to_multiset(),
                ).insert(t));
            }
        }
    } else {
        assert(by_calc(r.push(t), n) =~= by_calc(r, n));
    }
}

/// The number of triggers in the first `k` groups.
pub open spec fn before_group(gs: Seq<GroupModel>, k: int) -> int
    decreases k,
{
    if k <= 0 {
        0
    } else {
        before_group(gs, k - 1) + gs[k - 1].count
    }
}

/// A group holds as many triggers as it says, all of its calculation, after those of the
/// groups before it, and the group before it is of another.
pub open spec fn holds_its_triggers(gs: Seq<GroupModel>, ts: Seq<Trig>, k: int) -> bool {
    &&& gs[k].count > 0
    &&& forall|i: int|
        before_group(gs, k) <= i < before_group(gs, k) + gs[k].count ==> (#[trigger] ts[i]).calc
            == gs[k].calc
    &&& k > 0 ==> gs[k].calc != gs[k - 1].calc
}

/// The groups of a plan follow one another through the triggers, and between them they hold
/// all.
pub proof fn law_plans_tile_the_triggers(ts: Seq<Trig>, infos: Seq<CalcInfo>, profile: Profile)
    ensures
        ({
            let gs = plan(ts, infos, profile);
            &&& before_group(gs, gs.len() as int) == ts.len()
            &&& forall|k: int| 0 <= k < gs.len() ==> #[trigger] holds_its_triggers(gs, ts, k)
        }),
    decreases ts.len(),
{
    let gs = plan(ts, infos, profile);
    if ts.len() > 0 {
        let rs = ts.drop_last();
        let hs = plan(rs, infos, profile);
        law_plans_tile_the_triggers(rs, infos, profile);
        let n = hs.len() as int;
        let c = ts.last().calc;
        if n > 0 && hs.last().calc == c {
            assert(gs.len() == n);
            lemma_before(hs, gs, n - 1);
            assert(before_group(gs, n) == before_group(hs, n) + 1);
            assert forall|k: int| 0 <= k < gs.len() implies #[trigger] holds_its_triggers(
                gs,
                ts,
                k,
            ) by {
                assert(holds_its_triggers(hs, rs, k));
                lemma_held(hs, gs, rs, ts, k);
            }
        } else {
            assert(gs.len() == n + 1);
            lemma_before(hs, gs, n);
            assert forall|k: int| 0 <= k < gs.len() implies #[trigger] holds_its_triggers(
                gs,
                ts,
                k,
            ) by {
                if k < n {
                    assert(holds_its_triggers(hs, rs, k));
                    lemma_held(hs, gs, rs, ts, k);
                } else {
                    assert(gs[k].calc == c && gs[k].count == 1);
                    if k > 0 {
                        assert(gs[k - 1] == hs.last());
                    }
                    assert forall|i: int|
                        before_group(gs, k) <= i < before_group(gs, k) + gs[k].count implies (
                    #[trigger] ts[i]).calc == gs[k].calc by {
                        assert(i == ts.len() - 1);
                    }
                }
            }
        }
    }
}

/// A group holds its triggers when one more came, to it if it is the last.
proof fn lemma_held(
    hs: Seq<GroupModel>,
    gs: Seq<GroupModel>,
    rs: Seq<Trig>,
    ts: Seq<Trig>,
    k: int,
)
    requires
        0 <= k < hs.len() <= gs.len(),
        ts.len() == rs.len() + 1,
        rs == ts.drop_last(),
        before_group(hs, hs.len() as int) == rs.len(),
        forall|j: int| 0 <= j < hs.len() ==> gs[j].calc == hs[j].calc,
        forall|j: int| 0 <= j < hs.len() - 1 ==> gs[j].count == hs[j].count,
        gs[hs.len() - 1].count == hs.last().count || (gs[hs.len() - 1].count == hs.last().count + 1
            && gs[hs.len() - 1].calc == ts.last().calc),
        holds_its_triggers(hs, rs, k),
    ensures
        holds_its_triggers(gs, ts, k),
{
    lemma_before(hs, gs, k);
    lemma_before_mono(hs, k + 1, hs.len() as int);
    assert(before_group(hs, k + 1) == before_group(hs, k) + hs[k].count);
    assert forall|i: int|
        before_group(gs, k) <= i < before_group(gs, k) + gs[k].count implies (
    #[trigger] ts[i]).calc == gs[k].calc by {
        lemma_before_mono(hs, 0, k);
        if i < before_group(hs, k) + hs[k].count {
            assert(rs[i].calc == hs[k].calc);
            assert(rs[i] == ts[i]);
        } else {
            assert(k == hs.len() - 1);
            assert(i == rs.len());
        }
    }
}

proof fn lemma_before(hs: Seq<GroupModel>, gs: Seq<GroupModel>, k: int)
    requires
        k <= hs.len(),
        k <= gs.len(),
        forall|j: int| 0 <= j < k ==> hs[j].count == gs[j].count,
    ensures
        before_group(hs, k) == before_group(gs, k),
    decreases k,
{
    if k > 0 {
        lemma_before(hs, gs, k - 1);
    }
}

proof fn lemma_before_mono(gs: Seq<GroupModel>, a: int, b: int)
    requires
        a <= b,
    ensures
        before_group(gs, a) <= before_group(gs, b),
    decreases b - a,
{
    if a < b {
        lemma_before_mono(gs, a, b - 1);
    }
}

/// A group tells of its calculation: the tier and the reads that were registered, and where
/// it runs: where it is pinned to, and otherwise on the GPU where it is a kernel that was
/// triggered often enough.
pub proof fn law_groups_tell_of_their_calculation(
    ts: Seq<Trig>,
    infos: Seq<CalcInfo>,
    profile: Profile,
    k: int,
)
    requires
        0 <= k < plan(ts, infos, profile).len(),
    ensures
        ({
            let g = plan(ts, infos, profile)[k];
            let opts = infos[g.calc.0 as int].opts;
            &&& g.tier == opts.tier
            &&& g.reads == reads_of(opts.reads)
            &&& opts.residency != Residency::Auto ==> g.residency == opts.residency
            &&& opts.residency == Residency::Auto ==> (g.residency == Residency::Gpu <==> opts.tier
                == Tier::Kernel && profile.triggers_of(g.calc) >= 1024)
            &&& g.residency != Residency::Auto
        }),
    decreases ts.len(),
{
    let gs = plan(ts, infos, profile);
    let rs = ts.drop_last();
    let hs = plan(rs, infos, profile);
    if k < hs.len() {
        law_groups_tell_of_their_calculation(rs, infos, profile, k);
    }
}

/// The parts of a plan on the CPU and on the GPU hold the groups between them, in order.
pub proof fn law_residency_parts_the_plan(s: Seq<GroupModel>, c: CalcId)
    ensures
        resident(s, true).len() + resident(s, false).len() == s.len(),
        resident(s, true).contains(c) <==> exists|k: int|
            0 <= k < s.len() && (#[trigger] s[k]).calc == c && s[k].residency == Residency::Gpu,
        resident(s, false).contains(c) <==> exists|k: int|
            0 <= k < s.len() && (#[trigger] s[k]).calc == c && s[k].residency != Residency::Gpu,
    decreases s.len(),
{
    if s.len() > 0 {
        let r = s.drop_last();
        law_residency_parts_the_plan(r, c);
        lemma_part(s, c, true);
        lemma_part(s, c, false);
    }
}

proof fn lemma_part(s: Seq<GroupModel>, c: CalcId, gpu: bool)
    requires
        s.len() > 0,
        resident(s.drop_last(), gpu).contains(c) <==> exists|k: int|
            0 <= k < s.drop_last().len() && (#[trigger] s.drop_last()[k]).calc == c && (
            s.drop_last()[k].residency == Residency::Gpu) == gpu,
    ensures
        resident(s, gpu).contains(c) <==> exists|k: int|
            0 <= k < s.len() && (#[trigger] s[k]).calc == c && (s[k].residency == Residency::Gpu)
                == gpu,
{
    let r = s.drop_last();
    let a = resident(r, gpu);
    let b = resident(s, gpu);
    let l = s.last();
    let n = s.len() - 1;
    if b.contains(c) {
        let i = choose|i: int| 0 <= i < b.len() && b[i] == c;
        if i < a.len() {
            assert(a[i] == c);
            assert(a.contains(c));
            let k = choose|k: int|
                0 <= k < r.len() && (#[trigger] r[k]).calc == c && (r[k].residency
                    == Residency::Gpu) == gpu;
            assert(s[k] == r[k]);
        } else {
            assert(s[n].calc == c);
        }
    }
    if exists|k: int|
        0 <= k < s.len() && (#[trigger] s[k]).calc == c && (s[k].residency == Residency::Gpu)
            == gpu {
        let k = choose|k: int|
            0 <= k < s.len() && (#[trigger] s[k]).calc == c && (s[k].residency == Residency::Gpu)
                == gpu;
        if k < n {
            assert(r[k] == s[k]);
            assert(a.contains(c));
            let i = choose|i: int| 0 <= i < a.len() && a[i] == c;
            assert(b[i] == c);
        } else {
            assert(b[b.len() - 1] == c);
        }
    }
}

/// What was written more comes first; what was written as often comes by type and then by
/// field.
pub proof fn law_the_hottest_comes_first(a: CellCount, b: CellCount)
    ensures
        a.1 > b.1 ==> hot_le(a, b) && !hot_le(b, a),
        a.1 == b.1 && a.0.0.0 < b.0.0.0 ==> hot_le(a, b) && !hot_le(b, a),
        a.1 == b.1 && a.0.0 == b.0.0 && a.0.1.0 < b.0.1.0 ==> hot_le(a, b) && !hot_le(b, a),
{
}

/// What a scope asks for, when some of its cells are written.
pub open spec fn asks(s: Scope, written: spec_fn(Atom) -> bool) -> bool
    decreases s,
{
    match s {
        Scope::Own(f) => written(Atom::Own(f)),
        Scope::Inst { ref_field, field } => written(Atom::Inst { ref_field, field }),
        Scope::Type(ty, f) => written(Atom::Type(ty, f)),
        Scope::Or(a, b) => asks(*a, written) || asks(*b, written),
        Scope::And(a, b) => asks(*a, written) && asks(*b, written),
    }
}

/// The scope has a conjunction in it.
pub open spec fn conjoins(s: Scope) -> bool
    decreases s,
{
    match s {
        Scope::And(_, _) => true,
        Scope::Or(a, b) => conjoins(*a) || conjoins(*b),
        _ => false,
    }
}

/// A disjunction in the scope has a conjunction below it.
pub open spec fn chooses_between_conjunctions(s: Scope) -> bool
    decreases s,
{
    match s {
        Scope::Or(a, b) => conjoins(*a) || conjoins(*b) || chooses_between_conjunctions(*a)
            || chooses_between_conjunctions(*b),
        Scope::And(a, b) => chooses_between_conjunctions(*a) || chooses_between_conjunctions(*b),
        _ => false,
    }
}

/// A group is written to through any of its cells.
pub open spec fn touched(g: Seq<Atom>, written: spec_fn(Atom) -> bool) -> bool {
    exists|i: int| 0 <= i < g.len() && written(#[trigger] g[i])
}

/// The groups of a scope ask for what the scope asks for: every group is written to. A scope
/// has groups unless it chooses between conjunctions.
pub proof fn law_groups_ask_for_the_same(s: Scope, written: spec_fn(Atom) -> bool)
    ensures
        flattened(s) is None <==> chooses_between_conjunctions(s),
        flattened(s) is Some ==> flattened(s)->0.len() > 0,
        flattened(s) is Some ==> (flattened(s)->0.len() == 1 <==> !conjoins(s)),
        flattened(s) is Some ==> (asks(s, written) <==> forall|k: int|
            0 <= k < flattened(s)->0.len() ==> touched(#[trigger] flattened(s)->0[k], written)),
    decreases s,
{
    match s {
        Scope::Own(f) => {
            lemma_single_atom(Atom::Own(f), s, written);
        },
        Scope::Inst { ref_field, field } => {
            lemma_single_atom(Atom::Inst { ref_field, field }, s, written);
        },
        Scope::Type(ty, f) => {
            lemma_single_atom(Atom::Type(ty, f), s, written);
        },
        Scope::Or(a, b) => {
            law_groups_ask_for_the_same(*a, written);
            law_groups_ask_for_the_same(*b, written);
            if flattened(s) is Some {
                let x = flattened(*a)->0[0];
                let y = flattened(*b)->0[0];
                let g = flattened(s)->0[0];
                assert(g == x + y);
                if touched(x, written) {
                    let i = choose|i: int| 0 <= i < x.len() && written(#[trigger] x[i]);
                    assert(written(g[i]));
                }
                if touched(y, written) {
                    let i = choose|i: int| 0 <= i < y.len() && written(#[trigger] y[i]);
                    assert(written(g[x.len() + i]));
                }
                if touched(g, written) {
                    let i = choose|i: int| 0 <= i < g.len() && written(#[trigger] g[i]);
                    if i < x.len() {
                        assert(written(x[i]));
                    } else {
                        assert(written(y[i - x.len()]));
                    }
                }
                assert(asks(*a, written) <==> touched(x, written));
                assert(asks(*b, written) <==> touched(y, written));
                assert((forall|k: int|
                    0 <= k < flattened(s)->0.len() ==> touched(
                        #[trigger] flattened(s)->0[k],
                        written,
                    )) <==> touched(g, written));
            }
        },
        Scope::And(a, b) => {
            law_groups_ask_for_the_same(*a, written);
            law_groups_ask_for_the_same(*b, written);
            if flattened(s) is Some {
                let x = flattened(*a)->0;
                let y = flattened(*b)->0;
                let g = flattened(s)->0;
                assert(g == x + y);
                if asks(s, written) {
                    assert forall|k: int| 0 <= k < g.len() implies touched(
                        #[trigger] g[k],
                        written,
                    ) by {
                        if k < x.len() {
                            assert(g[k] == x[k]);
                        } else {
                            assert(g[k] == y[k - x.len()]);
                        }
                    }
                }
                if forall|k: int| 0 <= k < g.len() ==> touched(#[trigger] g[k], written) {
                    assert forall|k: int| 0 <= k < x.len() implies touched(
                        #[trigger] x[k],
                        written,
                    ) by {
                        assert(g[k] == x[k]);
                    }
                    assert forall|k: int| 0 <= k < y.len() implies touched(
                        #[trigger] y[k],
                        written,
                    ) by {
                        assert(g[x.len() + k] == y[k]);
                    }
                }
            }
        },
    }
}

proof fn lemma_single_atom(a: Atom, s: Scope, written: spec_fn(Atom) -> bool)
    requires
        flattened(s) == Some(seq![seq![a]]),
        asks(s, written) == written(a),
    ensures
        asks(s, written) <==> forall|k: int|
            0 <= k < flattened(s)->0.len() ==> touched(#[trigger] flattened(s)->0[k], written),
{
    let g = seq![a];
    assert(flattened(s)->0[0] == g);
    assert(g[0] == a);
    if written(a) {
        assert(touched(g, written));
    }
}

}
