//! What the aggregates deliver, in terms of the writes that they took in.
use crate::calculation::CalcId;
use crate::entity::CellAddr;
use crate::entity::InstanceId;
use crate::float64::of_int;
use crate::float64::one;
use crate::float64::F64;
use crate::float_laws::law_cutting_off;
use crate::float_laws::law_differences_are_nearest;
use crate::float_laws::law_integers_are_nearest;
use crate::float_laws::law_sums_are_nearest;
use crate::float_laws::small;
use crate::predicate::FoldOp;
use crate::runtime::engine::Runtime;
use crate::runtime::fold::contribution;
use crate::runtime::fold::extreme;
use crate::runtime::fold::fold_result;
use crate::runtime::fold::fold_start;
use crate::runtime::fold::fold_step;
use crate::runtime::fold::fold_without;
use crate::runtime::fold::law_contributions_follow_the_cells;
use crate::runtime::fold::law_extreme;
use crate::runtime::fold::law_revoked;
use crate::runtime::fold::lemma_member_found;
use crate::runtime::fold::member_at;
use crate::runtime::fold::one_each;
use crate::runtime::fold::order_key;
use crate::runtime::fold::FoldModel;
use crate::runtime::fold::Member;
use crate::runtime::lifecycle::WriteModel;
use crate::runtime::route::folds_of;
use crate::runtime::routing::frame_triggers;
use crate::runtime::shares::acc_after;
use crate::runtime::shares::acc_at;
use crate::runtime::shares::law_triggers_are_what_is_owed;
use crate::runtime::shares::received;
use crate::runtime::shares::trigs_for;
use crate::value::Val;
use vstd::prelude::*;

verus! {

/// The order that minimum and maximum go by is that of the numbers.
proof fn lemma_order_key(a: F64, b: F64)
    ensures
        !a.nan() && !b.nan() && order_key(a) <= order_key(b) ==> a.fle(b),
        a.finite() && b.finite() && order_key(a) <= order_key(b) ==> a.scaled() <= b.scaled(),
{
    if a.finite() && b.finite() && order_key(a) <= order_key(b) {
        crate::float_order::law_comparison_is_the_order_of_values(a, b);
    }
}

/// The delivered maximum is one of the contributions, and no contribution is greater; the
/// delivered minimum is one of them, and none is less. Of no contributions there is neither.
pub proof fn law_extremes_are_delivered(ms: Seq<Member>, i: int)
    ensures
        ({
            let max = fold_result(FoldOp::Max, FoldModel::Members(ms));
            let min = fold_result(FoldOp::Min, FoldModel::Members(ms));
            &&& ms.len() == 0 ==> max is Null && min is Null
            &&& ms.len() > 0 ==> {
                &&& max is Float
                &&& min is Float
                &&& exists|k: int|
                    0 <= k < ms.len() && (#[trigger] ms[k]).value == max->Float_0
                &&& exists|k: int|
                    0 <= k < ms.len() && (#[trigger] ms[k]).value == min->Float_0
                &&& 0 <= i < ms.len() ==> {
                    &&& order_key(ms[i].value) <= order_key(max->Float_0)
                    &&& order_key(min->Float_0) <= order_key(ms[i].value)
                    &&& ms[i].value.finite() && max->Float_0.finite() ==> ms[i].value.scaled()
                        <= max->Float_0.scaled()
                    &&& ms[i].value.finite() && min->Float_0.finite() ==> min->Float_0.scaled()
                        <= ms[i].value.scaled()
                    &&& !ms[i].value.nan() && !max->Float_0.nan() ==> ms[i].value.fle(
                        max->Float_0,
                    )
                    &&& !ms[i].value.nan() && !min->Float_0.nan() ==> min->Float_0.fle(
                        ms[i].value,
                    )
                }
            }
        }),
{
    law_extreme(ms, true);
    law_extreme(ms, false);
    if 0 <= i < ms.len() {
        let lo = extreme(ms, true)->0;
        let hi = extreme(ms, false)->0;
        let x = ms[i].value;
        assert(order_key(lo) <= order_key(ms[i].value));
        assert(order_key(ms[i].value) <= order_key(hi));
        lemma_order_key(x, hi);
        lemma_order_key(lo, x);
    }
}

/// A minimum or a maximum keeps, for each cell, the number last written to it: a write of a
/// number replaces what its cell contributed, a write of anything else takes it away, and the
/// contributions of other cells stay.
pub proof fn law_extremes_keep_the_last_write(
    op: FoldOp,
    ms: Seq<Member>,
    cell: CellAddr,
    old: Val,
    new: Val,
    m: Member,
)
    requires
        op is Min || op is Max,
        one_each(ms),
    ensures
        ({
            let st = fold_step(op, FoldModel::Members(ms), cell, old, new);
            &&& st is Members
            &&& one_each(st->Members_0)
            &&& m.cell != cell ==> (st->Members_0.contains(m) <==> ms.contains(m))
            &&& m.cell == cell ==> (st->Members_0.contains(m) <==> new.num() == Some(m.value))
        }),
{
    let st = fold_step(op, FoldModel::Members(ms), cell, old, new);
    let after = st->Members_0;
    law_contributions_follow_the_cells(ms, cell, new.num(), m.cell);
    lemma_contains(after, m);
    lemma_contains(ms, m);
    if m.cell == cell {
        law_contributions_follow_the_cells(ms, cell, new.num(), cell);
    }
}

/// What contributes is what its cell contributes.
proof fn lemma_contains(ms: Seq<Member>, m: Member)
    requires
        one_each(ms),
    ensures
        ms.contains(m) <==> contribution(ms, m.cell) == Some(m.value),
{
    lemma_member_found(ms, m.cell);
    let i = member_at(ms, m.cell);
    if ms.contains(m) {
        let k = choose|k: int| 0 <= k < ms.len() && ms[k] == m;
        if i < k {
            assert(ms[i].cell != ms[k].cell);
        } else if k < i {
            assert(ms[k].cell != m.cell);
        }
    }
    if contribution(ms, m.cell) == Some(m.value) {
        assert(ms[i] == m);
    }
}

/// When an instance dies, its contributions leave a minimum or a maximum and no others do;
/// sum and count stay as they are.
pub proof fn law_the_dead_do_not_contribute(ms: Seq<Member>, x: F64, dead: InstanceId, m: Member)
    ensures
        fold_without(FoldModel::Members(ms), dead) is Members,
        fold_without(FoldModel::Members(ms), dead)->Members_0.contains(m) <==> ms.contains(m)
            && m.cell.inst != dead,
        fold_without(FoldModel::Num(x), dead) == FoldModel::Num(x),
{
    law_revoked(ms, dead, m);
}

/// An integer that counts, or something that is no number and counts as zero.
pub open spec fn countable(v: Val) -> bool {
    v.num() is None || (v is Int && small(v->Int_0 as int))
}

/// What a countable value amounts to.
pub open spec fn amount(v: Val) -> int {
    if v is Int {
        v->Int_0 as int
    } else {
        0
    }
}

/// By how much the first `n` writes raised the total.
pub open spec fn balance(ws: Seq<WriteModel>, n: int) -> int
    decreases n,
{
    if n <= 0 {
        0
    } else {
        balance(ws, n - 1) + amount(ws[n - 1].new) - amount(ws[n - 1].old)
    }
}

proof fn lemma_amount(v: Val)
    requires
        countable(v),
    ensures
        crate::runtime::fold::or_zero(v.num()).finite(),
        crate::runtime::fold::or_zero(v.num()).scaled() == amount(v) * one(),
{
    law_integers_are_nearest(0, F64 { bits: 0 });
    if v is Int {
        law_integers_are_nearest(v->Int_0 as int, F64 { bits: 0 });
    }
}

/// A sum delivers what the writes add up to: each adds its new value and takes away the old
/// one. Where it stood at `base` before them, it stands at `base` and their balance after
/// them.
pub proof fn law_sums_add_up(acc: Option<FoldModel>, base: int, ws: Seq<WriteModel>)
    requires
        acc is None ==> base == 0,
        acc is Some ==> acc->0 is Num && acc->0->Num_0.finite() && acc->0->Num_0.scaled() == base
            * one(),
        forall|k: int|
            0 <= k < ws.len() ==> countable((#[trigger] ws[k]).new) && countable(ws[k].old)
                && small(amount(ws[k].new) - amount(ws[k].old)),
        forall|k: int| 0 <= k <= ws.len() ==> small(base + #[trigger] balance(ws, k)),
    ensures
        ws.len() > 0 || acc is Some ==> {
            let r = acc_after(FoldOp::Sum, acc, ws);
            &&& r is Some
            &&& r->0 is Num
            &&& fold_result(FoldOp::Sum, r->0) is Float
            &&& fold_result(FoldOp::Sum, r->0)->Float_0.finite()
            &&& fold_result(FoldOp::Sum, r->0)->Float_0.scaled() == (base + balance(
                ws,
                ws.len() as int,
            )) * one()
        },
    decreases ws.len(),
{
    let n = ws.len() as int;
    if n > 0 {
        let t = ws.drop_last();
        let w = ws.last();
        assert(ws[n - 1] == w);
        assert forall|k: int| 0 <= k < t.len() implies countable((#[trigger] t[k]).new)
            && countable(t[k].old) && small(amount(t[k].new) - amount(t[k].old)) by {
            assert(t[k] == ws[k]);
        }
        assert forall|k: int| 0 <= k <= t.len() implies small(base + #[trigger] balance(t, k)) by {
            lemma_balance(t, ws, k);
            assert(small(base + balance(ws, k)));
        }
        law_sums_add_up(acc, base, t);
        lemma_balance(t, ws, n - 1);
        let b = base + balance(ws, n - 1);
        let d = amount(w.new) - amount(w.old);
        let zero = F64 { bits: 0 };
        law_integers_are_nearest(0, zero);
        let st = match acc_after(FoldOp::Sum, acc, t) {
            Some(s) => s,
            None => fold_start(FoldOp::Sum),
        };
        let x = st->Num_0;
        assert(x.finite() && x.scaled() == b * one()) by {
            if acc_after(FoldOp::Sum, acc, t) is None {
                assert(b * one() == 0) by (nonlinear_arith)
                    requires
                        b == 0,
                ;
            }
        }
        let p = crate::runtime::fold::or_zero(w.new.num());
        let q = crate::runtime::fold::or_zero(w.old.num());
        lemma_amount(w.new);
        lemma_amount(w.old);
        law_integers_are_nearest(d, zero);
        law_differences_are_nearest(p, q, of_int(d));
        assert(d * one() == amount(w.new) * one() - amount(w.old) * one()) by (nonlinear_arith)
            requires
                d == amount(w.new) - amount(w.old),
        ;
        let y = p.sub_spec(q);
        assert(base + balance(ws, n) == b + d);
        assert(small(base + balance(ws, n)));
        law_integers_are_nearest(b + d, zero);
        law_sums_are_nearest(x, y, of_int(b + d));
        assert((b + d) * one() == b * one() + d * one()) by (nonlinear_arith);
    } else {
        assert((base + balance(ws, 0)) * one() == base * one());
    }
}

proof fn lemma_balance(a: Seq<WriteModel>, b: Seq<WriteModel>, n: int)
    requires
        n <= a.len() <= b.len(),
        forall|k: int| 0 <= k < n ==> #[trigger] a[k] == b[k],
    ensures
        balance(a, n) == balance(b, n),
    decreases n,
{
    if n > 0 {
        lemma_balance(a, b, n - 1);
        assert(a[n - 1] == b[n - 1]);
    }
}

/// A count delivers how many writes there were, whatever they wrote. Where it stood at `base`
/// before them, it stands that much higher.
pub proof fn law_counts_count(acc: Option<FoldModel>, base: int, ws: Seq<WriteModel>)
    requires
        0 <= base,
        small(base + ws.len()),
        acc is None ==> base == 0,
        acc is Some ==> acc->0 is Num && acc->0->Num_0.finite() && acc->0->Num_0.scaled() == base
            * one(),
    ensures
        ws.len() > 0 || acc is Some ==> {
            let r = acc_after(FoldOp::Count, acc, ws);
            &&& r is Some
            &&& r->0 is Num
            &&& fold_result(FoldOp::Count, r->0) == Val::Int((base + ws.len()) as i64)
        },
{
    if ws.len() > 0 || acc is Some {
        lemma_counted(acc, base, ws);
        let x = acc_after(FoldOp::Count, acc, ws)->0->Num_0;
        let n = base + ws.len();
        let o = one() as int;
        vstd::arithmetic::power2::lemma_pow2_pos(1074);
        assert(0 <= n * o < 0x7FFF_FFFF_FFFF_FFFF * o) by (nonlinear_arith)
            requires
                0 <= n < 0x7FFF_FFFF_FFFF_FFFF,
                o > 0,
        ;
        law_cutting_off(x);
        let t = x.trunc_spec() as int;
        assert(t == n) by (nonlinear_arith)
            requires
                t * o <= n * o < (t + 1) * o,
                o > 0,
        ;
    }
}

proof fn lemma_counted(acc: Option<FoldModel>, base: int, ws: Seq<WriteModel>)
    requires
        0 <= base,
        small(base + ws.len()),
        acc is None ==> base == 0,
        acc is Some ==> acc->0 is Num && acc->0->Num_0.finite() && acc->0->Num_0.scaled() == base
            * one(),
        ws.len() > 0 || acc is Some,
    ensures
        ({
            let r = acc_after(FoldOp::Count, acc, ws);
            &&& r is Some
            &&& r->0 is Num
            &&& r->0->Num_0.finite()
            &&& r->0->Num_0.scaled() == (base + ws.len()) * one()
        }),
    decreases ws.len(),
{
    if ws.len() > 0 {
        let t = ws.drop_last();
        let b = base + t.len();
        let zero = F64 { bits: 0 };
        law_integers_are_nearest(0, zero);
        law_integers_are_nearest(1, zero);
        law_integers_are_nearest(b + 1, zero);
        if t.len() > 0 || acc is Some {
            lemma_counted(acc, base, t);
        } else {
            assert(0 * one() == 0);
        }
        let st = match acc_after(FoldOp::Count, acc, t) {
            Some(s) => s,
            None => fold_start(FoldOp::Count),
        };
        law_sums_are_nearest(st->Num_0, of_int(1), of_int(b + 1));
        assert((b + 1) * one() == b * one() + 1 * one()) by (nonlinear_arith);
    }
}

/// What the writes of a frame leave of a minimum or a maximum: the number that was written
/// last to a cell contributes, and what contributes was written or contributed before.
pub proof fn law_extremes_after_writes(
    op: FoldOp,
    acc: Option<FoldModel>,
    ws: Seq<WriteModel>,
    m: Member,
    k: int,
)
    requires
        op is Min || op is Max,
        acc is Some ==> acc->0 is Members && one_each(acc->0->Members_0),
        ws.len() > 0 || acc is Some,
    ensures
        acc_after(op, acc, ws) is Some,
        acc_after(op, acc, ws)->0 is Members,
        one_each(acc_after(op, acc, ws)->0->Members_0),
        0 <= k < ws.len() && ws[k].inst == m.cell.inst && ws[k].field == m.cell.field && (forall|
            j: int,
        |
            k < j < ws.len() ==> !((#[trigger] ws[j]).inst == m.cell.inst && ws[j].field
                == m.cell.field)) ==> (acc_after(op, acc, ws)->0->Members_0.contains(m)
            <==> ws[k].new.num() == Some(m.value)),
        (forall|j: int|
            0 <= j < ws.len() ==> !((#[trigger] ws[j]).inst == m.cell.inst && ws[j].field
                == m.cell.field)) ==> (acc_after(op, acc, ws)->0->Members_0.contains(m) <==> acc
            is Some && acc->0->Members_0.contains(m)),
    decreases ws.len(),
{
    if ws.len() > 0 {
        let r = ws.drop_last();
        let w = ws.last();
        let before = acc_after(op, acc, r);
        let ms = match before {
            Some(a) => a->Members_0,
            None => Seq::<Member>::empty(),
        };
        if r.len() > 0 || acc is Some {
            law_extremes_after_writes(op, acc, r, m, k);
        }
        assert(fold_start(op) is Members && fold_start(op)->Members_0 =~= Seq::<Member>::empty());
        let cell = CellAddr { inst: w.inst, field: w.field };
        law_extremes_keep_the_last_write(op, ms, cell, w.old, w.new, m);
        assert(acc_after(op, acc, ws)->0 == fold_step(
            op,
            FoldModel::Members(ms),
            cell,
            w.old,
            w.new,
        ));
        assert(m.cell != cell <==> !(w.inst == m.cell.inst && w.field == m.cell.field));
        assert(ws[ws.len() - 1] == w);
        if 0 <= k < r.len() && (forall|j: int|
            k < j < ws.len() ==> !((#[trigger] ws[j]).inst == m.cell.inst && ws[j].field
                == m.cell.field)) {
            assert forall|j: int| k < j < r.len() implies !((#[trigger] r[j]).inst == m.cell.inst
                && r[j].field == m.cell.field) by {
                assert(ws[j] == r[j]);
            }
        }
        if forall|j: int|
            0 <= j < ws.len() ==> !((#[trigger] ws[j]).inst == m.cell.inst && ws[j].field
                == m.cell.field) {
            assert forall|j: int| 0 <= j < r.len() implies !((#[trigger] r[j]).inst == m.cell.inst
                && r[j].field == m.cell.field) by {
                assert(ws[j] == r[j]);
            }
        }
    }
}

/// A subscriber to a maximum is told a number that no number of the frame exceeds, of those
/// that were written last to their cells; a subscriber to a minimum one that none is below.
pub proof fn law_extremes_reach_their_subscribers<F>(
    rt: Runtime<F>,
    c: CalcId,
    sub: InstanceId,
    k: int,
)
    requires
        rt.wf(),
        c.0 < rt.infos@.len(),
        rt.infos@[c.0 as int].n_groups == 1,
        rt.infos@[c.0 as int].pred.delivery is Fold,
        rt.infos@[c.0 as int].pred.delivery->Fold_0 is Max
            || rt.infos@[c.0 as int].pred.delivery->Fold_0 is Min,
        acc_at(folds_of(rt.folds@), c, sub) is Some ==> acc_at(
            folds_of(rt.folds@),
            c,
            sub,
        )->0 is Members && one_each(acc_at(folds_of(rt.folds@), c, sub)->0->Members_0),
        ({
            let ws = received(rt.world(), c, sub, rt.next_log(), rt.next_log().len() as int);
            &&& 0 <= k < ws.len()
            &&& ws[k].new.num() is Some
            &&& ws[k].new.num()->0.finite()
            &&& forall|j: int|
                k < j < ws.len() ==> !((#[trigger] ws[j]).inst == ws[k].inst && ws[j].field
                    == ws[k].field)
        }),
    ensures
        ({
            let ws = received(rt.world(), c, sub, rt.next_log(), rt.next_log().len() as int);
            let ts = trigs_for(
                frame_triggers(rt.next_routing(), rt.infos@, rt.determinism),
                c,
                sub,
            );
            let r = ts[0].input->Fold_0;
            &&& ts.len() == 1
            &&& ts[0].calc == c
            &&& ts[0].sub == sub
            &&& ts[0].input is Fold
            &&& r is Float
            &&& rt.infos@[c.0 as int].pred.delivery->Fold_0 is Max && r->Float_0.finite()
                ==> ws[k].new.num()->0.scaled() <= r->Float_0.scaled()
            &&& rt.infos@[c.0 as int].pred.delivery->Fold_0 is Min && r->Float_0.finite()
                ==> r->Float_0.scaled() <= ws[k].new.num()->0.scaled()
        }),
{
    law_triggers_are_what_is_owed(rt, c, sub);
    let op = rt.infos@[c.0 as int].pred.delivery->Fold_0;
    let ws = received(rt.world(), c, sub, rt.next_log(), rt.next_log().len() as int);
    let acc = acc_at(folds_of(rt.folds@), c, sub);
    let w = ws[k];
    let m = Member {
        cell: CellAddr { inst: w.inst, field: w.field },
        value: w.new.num()->0,
    };
    law_extremes_after_writes(op, acc, ws, m, k);
    let ms = acc_after(op, acc, ws)->0->Members_0;
    let i = choose|i: int| 0 <= i < ms.len() && ms[i] == m;
    law_extremes_are_delivered(ms, i);
    assert(acc_after(op, acc, ws)->0 == FoldModel::Members(ms));
}

}
