//! What programs compute: a program made of smaller ones computes from what they compute.
use crate::entity::InstanceId;
use crate::calculation::InputModel;
use crate::kernel::SnapshotRead;
use crate::kernel::lane_env;
use crate::kernel::reads_in_writes;
use crate::kernel::reads_in_ops;
use crate::entity::FieldId;
use crate::entity::FIELD_ALIVE;
use crate::float_arith::lemma_units_zero;
use crate::float_laws::difference_of;
use crate::float_laws::law_arithmetic_is_nearest;
use crate::float_laws::product_of;
use crate::float_laws::quotient_of;
use crate::float_laws::sum_of;
use crate::kernel::depth_after;
use crate::kernel::law_accepted_programs_balance;
use crate::kernel::operands;
use crate::kernel::program_check;
use crate::kernel::program_value;
use crate::kernel::rest;
use crate::kernel::stack_after;
use crate::kernel::step;
use crate::kernel::top;
use crate::kernel::writes_check;
use crate::kernel::KernelEnv;
use crate::kernel::KernelInputShape;
use crate::kernel::KernelOp;
use crate::kernel::KernelWrite;
use crate::predicate::compares;
use crate::predicate::CmpOp;
use crate::value::Val;
use crate::value::Value;
use vstd::prelude::*;

verus! {

/// A program on its own reads what its instruction names.
pub proof fn law_programs_read(v: Value, f: FieldId, i: usize, env: KernelEnv)
    ensures
        program_value(seq![KernelOp::Const(v)], env) == v@,
        program_value(seq![KernelOp::ReadOwn(f)], env) == (env.row)(f),
        env.input is Each && i < env.input->Each_0.len() ==> program_value(
            seq![KernelOp::InputArg(i)],
            env,
        ) == env.input->Each_0[i as int],
        env.input is Fold ==> program_value(seq![KernelOp::FoldInput], env) == env.input->Fold_0,
        env.input is Batch && env.input->Batch_0.len() <= i64::MAX ==> program_value(
            seq![KernelOp::BatchLen],
            env,
        ) is Int && program_value(seq![KernelOp::BatchLen], env)->Int_0 == env.input->Batch_0.len(),
{
    lemma_single(KernelOp::Const(v), env);
    lemma_single(KernelOp::ReadOwn(f), env);
    lemma_single(KernelOp::InputArg(i), env);
    lemma_single(KernelOp::FoldInput, env);
    lemma_single(KernelOp::BatchLen, env);
}

proof fn lemma_single(op: KernelOp, env: KernelEnv)
    ensures
        program_value(seq![op], env) == top(step(op, Seq::empty(), env)),
{
    reveal_with_fuel(stack_after, 2);
    assert(seq![op][0] == op);
}

/// A program that follows another works on top of what that one left.
proof fn lemma_on_top(
    p: Seq<KernelOp>,
    q: Seq<KernelOp>,
    n: int,
    env: KernelEnv,
    reads: Option<Seq<FieldId>>,
    shape: KernelInputShape,
)
    requires
        program_check(q, reads, shape) is Ok,
        0 <= n <= q.len(),
    ensures
        stack_after(p + q, p.len() + n, env) == stack_after(p, p.len() as int, env) + stack_after(
            q,
            n,
            env,
        ),
    decreases n,
{
    let base = stack_after(p, p.len() as int, env);
    if n > 0 {
        lemma_on_top(p, q, n - 1, env, reads, shape);
        law_accepted_programs_balance(q, n - 1, reads, shape, env);
        let s = stack_after(q, n - 1, env);
        let op = q[n - 1];
        assert((p + q)[p.len() + n - 1] == op);
        assert(s.len() >= operands(op));
        lemma_step_on(base, s, op, env);
    } else {
        lemma_same_start(p, p + q, p.len() as int, env);
        assert(base + stack_after(q, 0, env) =~= base);
    }
}

/// An instruction that finds its operands leaves what lies below them.
proof fn lemma_step_on(base: Seq<Val>, s: Seq<Val>, op: KernelOp, env: KernelEnv)
    requires
        s.len() >= operands(op),
    ensures
        step(op, base + s, env) == base + step(op, s, env),
{
    let n = operands(op);
    let t = base + s;
    if n >= 1 {
        assert(top(t) == top(s));
        assert(rest(t) =~= base + rest(s));
    }
    if n >= 2 {
        assert(top(rest(t)) == top(rest(s)));
        assert(rest(rest(t)) =~= base + rest(rest(s)));
    }
    if n >= 3 {
        assert(top(rest(rest(t))) == top(rest(rest(s))));
        assert(rest(rest(rest(t))) =~= base + rest(rest(rest(s))));
    }
    assert(step(op, t, env) =~= base + step(op, s, env));
}

/// Programs that start alike leave the same.
proof fn lemma_same_start(p: Seq<KernelOp>, q: Seq<KernelOp>, n: int, env: KernelEnv)
    requires
        0 <= n <= p.len(),
        n <= q.len(),
        forall|i: int| 0 <= i < n ==> p[i] == q[i],
    ensures
        stack_after(p, n, env) == stack_after(q, n, env),
    decreases n,
{
    if n > 0 {
        lemma_same_start(p, q, n - 1, env);
    }
}

/// The stack after two programs and an instruction.
proof fn lemma_two(
    p: Seq<KernelOp>,
    q: Seq<KernelOp>,
    op: KernelOp,
    env: KernelEnv,
    reads: Option<Seq<FieldId>>,
    shape: KernelInputShape,
)
    requires
        program_check(p, reads, shape) is Ok,
        program_check(q, reads, shape) is Ok,
    ensures
        stack_after(p, p.len() as int, env) == seq![program_value(p, env)],
        stack_after(p + q, (p + q).len() as int, env) == seq![
            program_value(p, env),
            program_value(q, env),
        ],
        program_value(p + q + seq![op], env) == top(
            step(op, seq![program_value(p, env), program_value(q, env)], env),
        ),
        program_value(p + seq![op], env) == top(step(op, seq![program_value(p, env)], env)),
{
    law_accepted_programs_balance(p, p.len() as int, reads, shape, env);
    law_accepted_programs_balance(q, q.len() as int, reads, shape, env);
    let a = stack_after(p, p.len() as int, env);
    let b = stack_after(q, q.len() as int, env);
    assert(a =~= seq![program_value(p, env)]);
    assert(b =~= seq![program_value(q, env)]);
    lemma_on_top(p, q, q.len() as int, env, reads, shape);
    assert(a + b =~= seq![program_value(p, env), program_value(q, env)]);
    lemma_last(p, op, env);
    lemma_last(p + q, op, env);
}

proof fn lemma_last(p: Seq<KernelOp>, op: KernelOp, env: KernelEnv)
    ensures
        program_value(p + seq![op], env) == top(
            step(op, stack_after(p, p.len() as int, env), env),
        ),
{
    let w = p + seq![op];
    assert(w[p.len() as int] == op);
    lemma_same_start(p, w, p.len() as int, env);
}

/// Two programs and an operator compute what the operator makes of what the two compute, the
/// first being the left operand.
pub proof fn law_programs_calculate(
    p: Seq<KernelOp>,
    q: Seq<KernelOp>,
    env: KernelEnv,
    reads: Option<Seq<FieldId>>,
    shape: KernelInputShape,
)
    requires
        program_check(p, reads, shape) is Ok,
        program_check(q, reads, shape) is Ok,
    ensures
        ({
            let x = program_value(p, env).num();
            let y = program_value(q, env).num();
            let add = program_value(p + q + seq![KernelOp::Add], env);
            let sub = program_value(p + q + seq![KernelOp::Sub], env);
            let mul = program_value(p + q + seq![KernelOp::Mul], env);
            let div = program_value(p + q + seq![KernelOp::Div], env);
            &&& x is None || y is None ==> add is Null && sub is Null && mul is Null && div is Null
            &&& x is Some && y is Some ==> add is Float && sub is Float && mul is Float
                && div is Float
            &&& x is Some && y is Some && x->0.finite() && y->0.finite() ==> {
                &&& add->Float_0.finite() ==> sum_of(add->Float_0, x->0, y->0)
                &&& sub->Float_0.finite() ==> difference_of(sub->Float_0, x->0, y->0)
                &&& mul->Float_0.finite() ==> product_of(mul->Float_0, x->0, y->0)
                &&& y->0.scaled() != 0 && div->Float_0.finite() ==> quotient_of(
                    div->Float_0,
                    x->0,
                    y->0,
                )
                &&& y->0.scaled() == 0 ==> !div->Float_0.finite()
            }
        }),
{
    let x = program_value(p, env).num();
    let y = program_value(q, env).num();
    lemma_two(p, q, KernelOp::Add, env, reads, shape);
    lemma_two(p, q, KernelOp::Sub, env, reads, shape);
    lemma_two(p, q, KernelOp::Mul, env, reads, shape);
    lemma_two(p, q, KernelOp::Div, env, reads, shape);
    if x is Some && y is Some && x->0.finite() && y->0.finite() {
        law_arithmetic_is_nearest(x->0, y->0);
        lemma_units_zero(y->0);
    }
}

/// Comparisons and connectives on what two programs compute, the first being on the left.
pub proof fn law_programs_decide(
    p: Seq<KernelOp>,
    q: Seq<KernelOp>,
    w: Seq<KernelOp>,
    test: CmpOp,
    env: KernelEnv,
    reads: Option<Seq<FieldId>>,
    shape: KernelInputShape,
)
    requires
        program_check(p, reads, shape) is Ok,
        program_check(q, reads, shape) is Ok,
        program_check(w, reads, shape) is Ok,
    ensures
        ({
            let a = program_value(p, env);
            let b = program_value(q, env);
            let c = program_value(w, env);
            let yes = Val::Bool(true);
            &&& program_value(p + q + seq![KernelOp::Cmp(test)], env) == yes <==> compares(
                a,
                test,
                b,
            )
            &&& program_value(p + q + seq![KernelOp::Cmp(test)], env) is Bool
            &&& program_value(p + q + seq![KernelOp::And], env) == yes <==> a == yes && b == yes
            &&& program_value(p + q + seq![KernelOp::And], env) is Bool
            &&& program_value(p + q + seq![KernelOp::Or], env) == yes <==> a == yes || b == yes
            &&& program_value(p + q + seq![KernelOp::Or], env) is Bool
            &&& program_value(p + seq![KernelOp::Not], env) == yes <==> a != yes
            &&& program_value(p + seq![KernelOp::Not], env) is Bool
            &&& a == yes ==> program_value(p + q + w + seq![KernelOp::Select], env) == b
            &&& a != yes ==> program_value(p + q + w + seq![KernelOp::Select], env) == c
        }),
{
    lemma_two(p, q, KernelOp::Cmp(test), env, reads, shape);
    lemma_two(p, q, KernelOp::And, env, reads, shape);
    lemma_two(p, q, KernelOp::Or, env, reads, shape);
    lemma_two(p, q, KernelOp::Not, env, reads, shape);
    lemma_two(w, q, KernelOp::Not, env, reads, shape);
    lemma_on_top(p + q, w, w.len() as int, env, reads, shape);
    lemma_last(p + q + w, KernelOp::Select, env);
    let s = seq![program_value(p, env), program_value(q, env)];
    assert(rest(rest(rest(s + seq![program_value(w, env)]))) =~= Seq::<Val>::empty());
    assert(rest(s + seq![program_value(w, env)]) =~= s);
    assert(rest(s) =~= seq![program_value(p, env)]);
}

/// An accepted program reads declared fields and the delivery that it was declared for, and
/// nothing else.
pub proof fn law_accepted_programs_read_what_is_declared(
    ops: Seq<KernelOp>,
    k: int,
    reads: Option<Seq<FieldId>>,
    shape: KernelInputShape,
)
    requires
        program_check(ops, reads, shape) is Ok,
        0 <= k < ops.len(),
    ensures
        ops[k] is ReadOwn && reads is Some ==> reads->0.contains(ops[k]->ReadOwn_0),
        ops[k] is InputArg ==> shape is Each && ops[k]->InputArg_0 < shape->arity,
        ops[k] is FoldInput ==> shape is Fold,
        ops[k] is BatchLen ==> shape is Batch,
{
    lemma_prefix(ops, k + 1, reads, shape);
}

proof fn lemma_prefix(
    ops: Seq<KernelOp>,
    n: int,
    reads: Option<Seq<FieldId>>,
    shape: KernelInputShape,
)
    requires
        0 <= n <= ops.len(),
        depth_after(ops, ops.len() as int, reads, shape) is Ok,
    ensures
        depth_after(ops, n, reads, shape) is Ok,
    decreases ops.len() - n,
{
    if n < ops.len() {
        lemma_prefix(ops, n + 1, reads, shape);
    }
}

/// The outputs of a kernel are accepted where none is the life of an instance, no two are
/// the same, each is declared, and each program is accepted.
pub proof fn law_accepted_outputs(
    writes: Seq<KernelWrite>,
    n: int,
    declared: Seq<FieldId>,
    reads: Option<Seq<FieldId>>,
    shape: KernelInputShape,
)
    requires
        0 <= n <= writes.len(),
    ensures
        writes_check(writes, n, declared, reads, shape) is Ok <==> {
            &&& forall|i: int|
                0 <= i < n ==> (#[trigger] writes[i]).field.0 != FIELD_ALIVE && declared.contains(
                    writes[i].field,
                ) && program_check(writes[i].ops@, reads, shape) is Ok
            &&& forall|i: int, j: int|
                0 <= i < j < n ==> (#[trigger] writes[i]).field != (#[trigger] writes[j]).field
        },
    decreases n,
{
    if n > 0 {
        law_accepted_outputs(writes, n - 1, declared, reads, shape);
        let w = writes[n - 1];
        if writes_check(writes, n, declared, reads, shape) is Ok {
            assert forall|i: int, j: int| 0 <= i < j < n implies (#[trigger] writes[i]).field != (
            #[trigger] writes[j]).field by {
                if j == n - 1 {
                    assert(writes[i].field != w.field);
                }
            }
        }
    }
}

/// The fields that a kernel reads are those that an instruction of one of its programs names.
pub proof fn law_kernels_read_what_they_name(ws: Seq<KernelWrite>, f: FieldId)
    ensures
        reads_in_writes(ws).contains(f) <==> exists|i: int, j: int|
            0 <= i < ws.len() && 0 <= j < ws[i].ops@.len() && #[trigger] ws[i].ops@[j]
                == KernelOp::ReadOwn(f),
    decreases ws.len(),
{
    if ws.len() > 0 {
        let t = ws.drop_last();
        let n = ws.len() - 1;
        law_kernels_read_what_they_name(t, f);
        lemma_reads(ws[n].ops@, f);
        let a = reads_in_writes(t);
        let b = reads_in_ops(ws[n].ops@);
        let c = reads_in_writes(ws);
        assert(c == a + b);
        if c.contains(f) {
            let x = choose|x: int| 0 <= x < c.len() && c[x] == f;
            if x < a.len() {
                assert(a[x] == f);
                assert(a.contains(f));
                let (i, j) = choose|i: int, j: int|
                    0 <= i < t.len() && 0 <= j < t[i].ops@.len() && #[trigger] t[i].ops@[j]
                        == KernelOp::ReadOwn(f);
                assert(ws[i].ops@[j] == KernelOp::ReadOwn(f));
            } else {
                assert(b[x - a.len()] == f);
                assert(b.contains(f));
                let j = choose|j: int|
                    0 <= j < ws[n].ops@.len() && #[trigger] ws[n].ops@[j] == KernelOp::ReadOwn(f);
                assert(ws[n].ops@[j] == KernelOp::ReadOwn(f));
            }
        }
        if exists|i: int, j: int|
            0 <= i < ws.len() && 0 <= j < ws[i].ops@.len() && #[trigger] ws[i].ops@[j]
                == KernelOp::ReadOwn(f) {
            let (i, j) = choose|i: int, j: int|
                0 <= i < ws.len() && 0 <= j < ws[i].ops@.len() && #[trigger] ws[i].ops@[j]
                    == KernelOp::ReadOwn(f);
            if i < n {
                assert(t[i].ops@[j] == KernelOp::ReadOwn(f));
                assert(a.contains(f));
                let x = choose|x: int| 0 <= x < a.len() && a[x] == f;
                assert(c[x] == f);
            } else {
                assert(b.contains(f));
                let x = choose|x: int| 0 <= x < b.len() && b[x] == f;
                assert(c[a.len() + x] == f);
            }
        }
    }
}

proof fn lemma_reads(ops: Seq<KernelOp>, f: FieldId)
    ensures
        reads_in_ops(ops).contains(f) <==> exists|j: int|
            0 <= j < ops.len() && #[trigger] ops[j] == KernelOp::ReadOwn(f),
    decreases ops.len(),
{
    if ops.len() > 0 {
        let t = ops.drop_last();
        let n = ops.len() - 1;
        lemma_reads(t, f);
        let a = reads_in_ops(t);
        let b = reads_in_ops(ops);
        if b.contains(f) {
            let x = choose|x: int| 0 <= x < b.len() && b[x] == f;
            if x < a.len() {
                assert(a[x] == f);
                assert(a.contains(f));
                let j = choose|j: int| 0 <= j < t.len() && #[trigger] t[j] == KernelOp::ReadOwn(f);
                assert(ops[j] == KernelOp::ReadOwn(f));
            } else {
                assert(ops[n] == KernelOp::ReadOwn(f));
            }
        }
        if exists|j: int| 0 <= j < ops.len() && #[trigger] ops[j] == KernelOp::ReadOwn(f) {
            let j = choose|j: int| 0 <= j < ops.len() && #[trigger] ops[j] == KernelOp::ReadOwn(f);
            if j < n {
                assert(t[j] == KernelOp::ReadOwn(f));
                assert(a.contains(f));
                let x = choose|x: int| 0 <= x < a.len() && a[x] == f;
                assert(b[x] == f);
            } else {
                assert(b[a.len() as int] == f);
            }
        }
    }
}

/// The program of an instance reads that instance's own cells.
pub proof fn law_programs_read_their_own_row<S: SnapshotRead>(
    source: &S,
    inst: InstanceId,
    input: InputModel,
    no_batch: Val,
    f: FieldId,
)
    ensures
        program_value(seq![KernelOp::ReadOwn(f)], lane_env(source, inst, input, no_batch))
            == source.cell(inst, f),
        lane_env(source, inst, input, no_batch).input == input,
{
    lemma_single(KernelOp::ReadOwn(f), lane_env(source, inst, input, no_batch));
}

}
