//! Aggregates that are kept up to date write by write.
use crate::column::copied;
use crate::entity::CellAddr;
use crate::entity::InstanceId;
use crate::float64::of_int;
use crate::float64::F64;
use crate::predicate::FoldOp;
use crate::value::Val;
use crate::value::Value;
use vstd::prelude::*;

verus! {

/// What one cell contributes to a minimum or a maximum.
#[derive(Clone, Copy, Debug)]
pub struct Member {
    pub cell: CellAddr,
    pub value: F64,
}

/// The state of an aggregate. Sum and count need one number; minimum and maximum need the
/// contribution of every cell, so that a value can leave again.
pub enum FoldAcc {
    Num(F64),
    Members(Vec<Member>),
}

/// What a `FoldAcc` holds.
pub ghost enum FoldModel {
    Num(F64),
    Members(Seq<Member>),
}

impl View for FoldAcc {
    type V = FoldModel;

    open spec fn view(&self) -> FoldModel {
        match *self {
            FoldAcc::Num(f) => FoldModel::Num(f),
            FoldAcc::Members(ms) => FoldModel::Members(ms@),
        }
    }
}

/// The state belongs to an aggregate of this kind.
pub open spec fn acc_fits(op: FoldOp, st: FoldModel) -> bool {
    match op {
        FoldOp::Sum | FoldOp::Count => st is Num,
        FoldOp::Min | FoldOp::Max => st is Members,
    }
}

/// The place of a number in the order that minimum and maximum go by. It separates the
/// zeros, and puts every NaN at one of the ends.
pub open spec fn order_key(f: F64) -> int {
    if f.neg_bit() {
        -1 - f.mag()
    } else {
        f.mag()
    }
}

fn key_of_number(f: F64) -> (r: i64)
    ensures
        r == order_key(f),
{
    let c = f.code();
    if f.negative() {
        -1 - c as i64
    } else {
        c as i64
    }
}

/// The index of the first contribution of the cell, or the length.
pub open spec fn member_at(ms: Seq<Member>, cell: CellAddr) -> int
    decreases ms.len(),
{
    if ms.len() == 0 {
        0
    } else if ms[0].cell == cell {
        0
    } else {
        1 + member_at(ms.drop_first(), cell)
    }
}

proof fn lemma_member_at(ms: Seq<Member>, cell: CellAddr, n: int)
    requires
        0 <= n <= ms.len(),
        forall|i: int| 0 <= i < n ==> (#[trigger] ms[i]).cell != cell,
        n < ms.len() ==> ms[n].cell == cell,
    ensures
        member_at(ms, cell) == n,
    decreases n,
{
    if n > 0 {
        let t = ms.drop_first();
        assert forall|i: int| 0 <= i < n - 1 implies (#[trigger] t[i]).cell != cell by {
            assert(t[i] == ms[i + 1]);
        }
        if n < ms.len() {
            assert(t[n - 1] == ms[n]);
        }
        lemma_member_at(t, cell, n - 1);
    }
}

/// The contributions after the cell took the value `v`. What is no number contributes
/// nothing.
pub open spec fn put(ms: Seq<Member>, cell: CellAddr, v: Option<F64>) -> Seq<Member> {
    let i = member_at(ms, cell);
    match v {
        Some(x) => if i < ms.len() {
            ms.update(i, Member { cell, value: x })
        } else {
            ms.push(Member { cell, value: x })
        },
        None => if i < ms.len() {
            ms.remove(i)
        } else {
            ms
        },
    }
}

pub open spec fn or_zero(f: Option<F64>) -> F64 {
    match f {
        Some(x) => x,
        None => of_int(0),
    }
}

pub open spec fn fold_start(op: FoldOp) -> FoldModel {
    match op {
        FoldOp::Sum | FoldOp::Count => FoldModel::Num(of_int(0)),
        FoldOp::Min | FoldOp::Max => FoldModel::Members(Seq::empty()),
    }
}

/// The state after a write.
pub open spec fn fold_step(
    op: FoldOp,
    st: FoldModel,
    cell: CellAddr,
    old: Val,
    new: Val,
) -> FoldModel {
    match (op, st) {
        (FoldOp::Sum, FoldModel::Num(acc)) => FoldModel::Num(
            acc.add_spec(or_zero(new.num()).sub_spec(or_zero(old.num()))),
        ),
        (FoldOp::Count, FoldModel::Num(acc)) => FoldModel::Num(acc.add_spec(of_int(1))),
        (_, FoldModel::Members(ms)) => FoldModel::Members(put(ms, cell, new.num())),
        _ => st,
    }
}

/// The contribution with the least place, or the greatest.
pub open spec fn extreme(ms: Seq<Member>, least: bool) -> Option<F64>
    decreases ms.len(),
{
    if ms.len() == 0 {
        None
    } else {
        let x = ms.last().value;
        match extreme(ms.drop_last(), least) {
            None => Some(x),
            Some(y) => if least && order_key(x) < order_key(y) || !least && order_key(y)
                < order_key(x) {
                Some(x)
            } else {
                Some(y)
            },
        }
    }
}

/// The value that is delivered.
pub open spec fn fold_result(op: FoldOp, st: FoldModel) -> Val {
    match (op, st) {
        (FoldOp::Count, FoldModel::Num(acc)) => Val::Int(acc.trunc_spec()),
        (FoldOp::Sum, FoldModel::Num(acc)) => Val::Float(acc),
        (FoldOp::Min, FoldModel::Members(ms)) => match extreme(ms, true) {
            Some(x) => Val::Float(x),
            None => Val::Null,
        },
        (FoldOp::Max, FoldModel::Members(ms)) => match extreme(ms, false) {
            Some(x) => Val::Float(x),
            None => Val::Null,
        },
        _ => Val::Null,
    }
}

pub fn fold_init(op: FoldOp) -> (r: FoldAcc)
    ensures
        r@ == fold_start(op),
        acc_fits(op, r@),
{
    match op {
        FoldOp::Sum | FoldOp::Count => FoldAcc::Num(F64::from_i64(0)),
        FoldOp::Min | FoldOp::Max => {
            let ms: Vec<Member> = Vec::new();
            assert(ms@ =~= Seq::empty());
            FoldAcc::Members(ms)
        },
    }
}

fn find_member(ms: &Vec<Member>, cell: CellAddr) -> (r: usize)
    ensures
        r == member_at(ms@, cell),
        r <= ms@.len(),
{
    let mut i: usize = 0;
    while i < ms.len()
        invariant
            i <= ms@.len(),
            forall|j: int| 0 <= j < i ==> (#[trigger] ms@[j]).cell != cell,
        ensures
            i <= ms@.len(),
            forall|j: int| 0 <= j < i ==> (#[trigger] ms@[j]).cell != cell,
            i < ms@.len() ==> ms@[i as int].cell == cell,
        decreases ms@.len() - i,
    {
        if ms[i].cell == cell {
            break;
        }
        i = i + 1;
    }
    proof {
        lemma_member_at(ms@, cell, i as int);
    }
    i
}

/// Takes a write into an aggregate.
pub fn apply_fold(op: FoldOp, st: &mut FoldAcc, cell: CellAddr, before: &Value, after: &Value)
    requires
        acc_fits(op, old(st)@),
    ensures
        final(st)@ == fold_step(op, old(st)@, cell, before@, after@),
        acc_fits(op, final(st)@),
{
    let new = after.as_f64();
    match st {
        FoldAcc::Num(acc) => {
            if matches!(op, FoldOp::Sum) {
                let n = match new {
                    Some(x) => x,
                    None => F64::from_i64(0),
                };
                let o = match before.as_f64() {
                    Some(x) => x,
                    None => F64::from_i64(0),
                };
                *acc = acc.add(n.sub(o));
            } else {
                *acc = acc.add(F64::from_i64(1));
            }
        },
        FoldAcc::Members(ms) => {
            let i = find_member(ms, cell);
            match new {
                Some(x) => {
                    if i < ms.len() {
                        ms.set(i, Member { cell, value: x });
                    } else {
                        ms.push(Member { cell, value: x });
                    }
                },
                None => {
                    if i < ms.len() {
                        ms.remove(i);
                    }
                },
            }
        },
    }
}

fn extreme_of(ms: &Vec<Member>, least: bool) -> (r: Option<F64>)
    ensures
        r == extreme(ms@, least),
{
    let mut best: Option<F64> = None;
    let mut i: usize = 0;
    assert(ms@.take(0) =~= Seq::empty());
    while i < ms.len()
        invariant
            i <= ms@.len(),
            best == extreme(ms@.take(i as int), least),
        decreases ms@.len() - i,
    {
        let x = ms[i].value;
        proof {
            assert(ms@.take(i + 1).drop_last() =~= ms@.take(i as int));
        }
        best = match best {
            None => Some(x),
            Some(y) => {
                let kx = key_of_number(x);
                let ky = key_of_number(y);
                if (least && kx < ky) || (!least && ky < kx) {
                    Some(x)
                } else {
                    Some(y)
                }
            },
        };
        i = i + 1;
    }
    assert(ms@.take(i as int) =~= ms@);
    best
}

/// The value that is delivered.
pub fn fold_value(op: FoldOp, st: &FoldAcc) -> (r: Value)
    requires
        acc_fits(op, st@),
    ensures
        r@ == fold_result(op, st@),
{
    match st {
        FoldAcc::Num(acc) => if matches!(op, FoldOp::Count) {
            Value::Int(acc.trunc_i64())
        } else {
            Value::Float(*acc)
        },
        FoldAcc::Members(ms) => match extreme_of(ms, matches!(op, FoldOp::Min)) {
            Some(x) => Value::Float(x),
            None => Value::Null,
        },
    }
}

/// The contributions of all instances but one.
pub open spec fn without(ms: Seq<Member>, dead: InstanceId) -> Seq<Member>
    decreases ms.len(),
{
    if ms.len() == 0 {
        ms
    } else {
        let r = without(ms.drop_last(), dead);
        if ms.last().cell.inst == dead {
            r
        } else {
            r.push(ms.last())
        }
    }
}

/// The state after the death of an instance. Sum and count keep what they have.
pub open spec fn fold_without(st: FoldModel, dead: InstanceId) -> FoldModel {
    match st {
        FoldModel::Num(_) => st,
        FoldModel::Members(ms) => FoldModel::Members(without(ms, dead)),
    }
}

proof fn lemma_without_shorter(ms: Seq<Member>, dead: InstanceId)
    ensures
        without(ms, dead).len() <= ms.len(),
        without(ms, dead).len() == ms.len() <==> without(ms, dead) == ms,
    decreases ms.len(),
{
    if ms.len() > 0 {
        lemma_without_shorter(ms.drop_last(), dead);
        if without(ms, dead).len() == ms.len() {
            assert(without(ms, dead) =~= ms);
        }
    }
}

/// Takes the contributions of a dead instance out of an aggregate, and says whether there
/// were any.
pub fn fold_revoke_member(st: &mut FoldAcc, dead: InstanceId) -> (r: bool)
    ensures
        final(st)@ == fold_without(old(st)@, dead),
        r == (final(st)@ != old(st)@),
        forall|op: FoldOp| acc_fits(op, old(st)@) ==> #[trigger] acc_fits(op, final(st)@),
{
    match st {
        FoldAcc::Num(_) => false,
        FoldAcc::Members(ms) => {
            let ghost before = ms@;
            let mut out: Vec<Member> = Vec::new();
            let mut i: usize = 0;
            assert(before.take(0) =~= Seq::empty());
            assert(out@ =~= Seq::empty());
            while i < ms.len()
                invariant
                    ms@ == before,
                    i <= before.len(),
                    out@ == without(before.take(i as int), dead),
                decreases before.len() - i,
            {
                proof {
                    assert(before.take(i + 1).drop_last() =~= before.take(i as int));
                }
                if ms[i].cell.inst != dead {
                    out.push(ms[i]);
                }
                i = i + 1;
            }
            proof {
                assert(before.take(i as int) =~= before);
                lemma_without_shorter(before, dead);
            }
            let r = out.len() < ms.len();
            *ms = out;
            r
        },
    }
}

impl Clone for FoldAcc {
    fn clone(&self) -> (r: FoldAcc)
        ensures
            r@ == self@,
    {
        match self {
            FoldAcc::Num(f) => FoldAcc::Num(*f),
            FoldAcc::Members(ms) => FoldAcc::Members(copied(ms)),
        }
    }
}

/// A minimum or maximum is one of the contributions, and none lies beyond it.
pub proof fn law_extreme(ms: Seq<Member>, least: bool)
    ensures
        ms.len() == 0 <==> extreme(ms, least) is None,
        ms.len() > 0 ==> {
            let x = extreme(ms, least)->0;
            &&& exists|i: int| 0 <= i < ms.len() && (#[trigger] ms[i]).value == x
            &&& forall|i: int|
                0 <= i < ms.len() ==> if least {
                    order_key(x) <= order_key((#[trigger] ms[i]).value)
                } else {
                    order_key((#[trigger] ms[i]).value) <= order_key(x)
                }
        },
    decreases ms.len(),
{
    if ms.len() > 0 {
        let t = ms.drop_last();
        law_extreme(t, least);
        let x = extreme(ms, least)->0;
        assert(ms[ms.len() - 1] == ms.last());
        if t.len() > 0 {
            let y = extreme(t, least)->0;
            let k = choose|k: int| 0 <= k < t.len() && (#[trigger] t[k]).value == y;
            assert(ms[k] == t[k]);
            assert forall|i: int| 0 <= i < ms.len() implies if least {
                order_key(x) <= order_key((#[trigger] ms[i]).value)
            } else {
                order_key((#[trigger] ms[i]).value) <= order_key(x)
            } by {
                if i < t.len() {
                    assert(ms[i] == t[i]);
                }
            }
        }
    }
}

/// After the death of an instance none of its contributions is left, and all others are.
pub proof fn law_revoked(ms: Seq<Member>, dead: InstanceId, m: Member)
    ensures
        without(ms, dead).contains(m) <==> ms.contains(m) && m.cell.inst != dead,
    decreases ms.len(),
{
    if ms.len() > 0 {
        let t = ms.drop_last();
        law_revoked(t, dead, m);
        let r = without(t, dead);
        let full = without(ms, dead);
        if ms.contains(m) {
            let k = choose|k: int| 0 <= k < ms.len() && ms[k] == m;
            if k < t.len() {
                assert(t[k] == m);
                if m.cell.inst != dead {
                    let j = choose|j: int| 0 <= j < r.len() && r[j] == m;
                    assert(full[j] == m);
                }
            } else if m.cell.inst != dead {
                assert(full[full.len() - 1] == m);
            }
        }
        if full.contains(m) {
            let k = choose|k: int| 0 <= k < full.len() && full[k] == m;
            if k < r.len() {
                assert(r[k] == m);
                assert(t.contains(m));
                let j = choose|j: int| 0 <= j < t.len() && t[j] == m;
                assert(ms[j] == m);
            } else {
                assert(ms[ms.len() - 1] == m);
            }
        }
    }
}

/// What a cell contributes.
pub open spec fn contribution(ms: Seq<Member>, cell: CellAddr) -> Option<F64> {
    let i = member_at(ms, cell);
    if 0 <= i < ms.len() {
        Some(ms[i].value)
    } else {
        None
    }
}

/// No cell contributes twice.
pub open spec fn one_each(ms: Seq<Member>) -> bool {
    forall|i: int, j: int|
        0 <= i < j < ms.len() ==> (#[trigger] ms[i]).cell != (#[trigger] ms[j]).cell
}

pub proof fn lemma_member_found(ms: Seq<Member>, cell: CellAddr)
    ensures
        0 <= member_at(ms, cell) <= ms.len(),
        forall|i: int| 0 <= i < member_at(ms, cell) ==> (#[trigger] ms[i]).cell != cell,
        member_at(ms, cell) < ms.len() ==> ms[member_at(ms, cell)].cell == cell,
    decreases ms.len(),
{
    if ms.len() > 0 && ms[0].cell != cell {
        let t = ms.drop_first();
        lemma_member_found(t, cell);
        assert forall|i: int| 0 <= i < member_at(ms, cell) implies (#[trigger] ms[i]).cell
            != cell by {
            if i > 0 {
                assert(t[i - 1] == ms[i]);
            }
        }
    }
}

/// A cell contributes the last number written to it, once, and a write to it leaves what all
/// other cells contribute.
pub proof fn law_contributions_follow_the_cells(
    ms: Seq<Member>,
    cell: CellAddr,
    v: Option<F64>,
    other: CellAddr,
)
    requires
        one_each(ms),
    ensures
        one_each(put(ms, cell, v)),
        contribution(put(ms, cell, v), cell) == v,
        other != cell ==> contribution(put(ms, cell, v), other) == contribution(ms, other),
{
    let after = put(ms, cell, v);
    let i = member_at(ms, cell);
    lemma_member_found(ms, cell);
    lemma_member_found(ms, other);
    lemma_member_found(after, cell);
    lemma_member_found(after, other);
    let x = member_at(ms, other);
    let y = member_at(after, other);
    let z = member_at(after, cell);
    match v {
        Some(f) => {
            let at = if i < ms.len() {
                i
            } else {
                ms.len() as int
            };
            assert(after[at] == (Member { cell, value: f }));
            assert forall|a: int, b: int| 0 <= a < b < after.len() implies (#[trigger] after[a]).cell
                != (#[trigger] after[b]).cell by {
                if b < ms.len() {
                    assert(ms[a].cell != ms[b].cell);
                }
            }
            if z < at {
                assert(after[z].cell != after[at].cell);
            }
            if other != cell {
                if x < ms.len() {
                    assert(after[x] == ms[x]);
                    if y < x {
                        assert(after[y].cell != after[x].cell);
                    }
                } else if y < after.len() && y < ms.len() {
                    assert(ms[y].cell == other);
                }
            }
        },
        None => {
            if i < ms.len() {
                assert forall|a: int| 0 <= a < after.len() implies #[trigger] after[a] == ms[if a
                    < i {
                    a
                } else {
                    a + 1
                }] by {}
                assert forall|a: int, b: int| 0 <= a < b < after.len() implies (
                #[trigger] after[a]).cell != (#[trigger] after[b]).cell by {
                    let p = if a < i {
                        a
                    } else {
                        a + 1
                    };
                    let q = if b < i {
                        b
                    } else {
                        b + 1
                    };
                    assert(ms[p].cell != ms[q].cell);
                }
                if z < after.len() {
                    let q = if z < i {
                        z
                    } else {
                        z + 1
                    };
                    assert(ms[q].cell == cell);
                    if q < i {
                        assert(ms[q].cell != ms[i].cell);
                    } else {
                        assert(ms[i].cell != ms[q].cell);
                    }
                }
                if other != cell {
                    if x < ms.len() {
                        let p = if x < i {
                            x
                        } else {
                            x - 1
                        };
                        assert(after[p] == ms[x]);
                        if y < p {
                            assert(after[y].cell != after[p].cell);
                        }
                    } else if y < after.len() {
                        let q = if y < i {
                            y
                        } else {
                            y + 1
                        };
                        assert(ms[q].cell == other);
                    }
                }
            }
        },
    }
}

}
