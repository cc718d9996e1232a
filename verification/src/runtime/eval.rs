//! Evaluation of conditions and projections.
use crate::entity::FieldId;
use crate::entity::InstanceId;
use crate::float64::F64;
use crate::predicate::compares;
use crate::predicate::expr_value;
use crate::predicate::holds;
use crate::predicate::ref_value;
use crate::predicate::CmpOp;
use crate::predicate::Cond;
use crate::predicate::Dir;
use crate::predicate::Env;
use crate::predicate::Expr;
use crate::predicate::Proj;
use crate::predicate::ValRef;
use crate::runtime::store::Store;
use crate::value::path_of;
use crate::value::vals_of;
use crate::value::Val;
use crate::value::Value;
use vstd::prelude::*;

verus! {

/// One write and one subscriber.
pub struct EvalCtx<'a> {
    pub store: &'a Store,
    pub sub: InstanceId,
    pub new: &'a Value,
    pub old: &'a Value,
}

/// What a condition reads when `sub` looks at a write of `new` over `old`.
pub open spec fn env_of(store: Store, sub: InstanceId, new: Val, old: Val) -> Env {
    Env { new, old, sub, row: |f: FieldId| store.value(sub, f) }
}

impl<'a> EvalCtx<'a> {
    pub open spec fn env(self) -> Env {
        env_of(*self.store, self.sub, self.new@, self.old@)
    }
}

pub fn eval_val(v: &ValRef, c: &EvalCtx) -> (r: Value)
    requires
        c.store.wf(),
    ensures
        r@ == ref_value(*v, c.env()),
{
    match v {
        ValRef::New(path) => c.new.get_path(path),
        ValRef::Old(path) => c.old.get_path(path),
        ValRef::Own(f) => c.store.read(c.sub, *f),
        ValRef::Const(v) => v.clone(),
        ValRef::SelfRef => Value::Ref(c.sub),
    }
}

pub fn eval_expr(e: &Expr, c: &EvalCtx) -> (r: Value)
    requires
        c.store.wf(),
    ensures
        r@ == expr_value(*e, c.env()),
    decreases e,
{
    match e {
        Expr::Val(v) => eval_val(v, c),
        Expr::Add(a, b) => match numbers(&eval_expr(a, c), &eval_expr(b, c)) {
            Some((x, y)) => Value::Float(x.add(y)),
            None => Value::Null,
        },
        Expr::Sub(a, b) => match numbers(&eval_expr(a, c), &eval_expr(b, c)) {
            Some((x, y)) => Value::Float(x.sub(y)),
            None => Value::Null,
        },
        Expr::Mul(a, b) => match numbers(&eval_expr(a, c), &eval_expr(b, c)) {
            Some((x, y)) => Value::Float(x.mul(y)),
            None => Value::Null,
        },
        Expr::Div(a, b) => match numbers(&eval_expr(a, c), &eval_expr(b, c)) {
            Some((x, y)) => Value::Float(x.div(y)),
            None => Value::Null,
        },
    }
}

/// Both operands as numbers.
fn numbers(a: &Value, b: &Value) -> (r: Option<(F64, F64)>)
    ensures
        r == (match (a@.num(), b@.num()) {
            (Some(x), Some(y)) => Some((x, y)),
            _ => None,
        }),
{
    match (a.as_f64(), b.as_f64()) {
        (Some(x), Some(y)) => Some((x, y)),
        _ => None,
    }
}

/// Evaluates a condition.
pub fn eval_cond(cond: &Cond, c: &EvalCtx) -> (r: bool)
    requires
        c.store.wf(),
    ensures
        r == holds(*cond, c.env()),
    decreases cond,
{
    match cond {
        Cond::True => true,
        Cond::Cmp(l, op, r) => {
            let lv = eval_expr(l, c);
            let rv = eval_expr(r, c);
            compare(&lv, *op, &rv)
        },
        Cond::InRange(a, b) => match c.new.as_f64() {
            Some(v) => a.le(v) && v.le(*b),
            None => false,
        },
        Cond::InSet(vs) => in_set(vs, c.new),
        Cond::Changed => !c.new.val_eq(c.old),
        Cond::Became(v) => c.new.val_eq(v) && !c.old.val_eq(v),
        Cond::Crossed(t, dir) => {
            match (eval_expr(t, c).as_f64(), c.old.as_f64(), c.new.as_f64()) {
                (Some(t), Some(old), Some(new)) => match dir {
                    Dir::Down => t.le(old) && new.lt(t),
                    Dir::Up => old.le(t) && t.lt(new),
                },
                _ => false,
            }
        },
        Cond::And(a, b) => eval_cond(a, c) && eval_cond(b, c),
        Cond::Or(a, b) => eval_cond(a, c) || eval_cond(b, c),
        Cond::AndNot(a, b) => eval_cond(a, c) && !eval_cond(b, c),
    }
}

/// Whether a value equals one of a list.
fn in_set(vs: &Vec<Value>, v: &Value) -> (r: bool)
    ensures
        r == exists|i: int| 0 <= i < vs@.len() && (#[trigger] vs@[i])@.equals(v@),
{
    let mut i: usize = 0;
    while i < vs.len()
        invariant
            i <= vs@.len(),
            forall|j: int| 0 <= j < i ==> !(#[trigger] vs@[j])@.equals(v@),
        decreases vs@.len() - i,
    {
        if vs[i].val_eq(v) {
            return true;
        }
        i = i + 1;
    }
    false
}

fn compare(a: &Value, op: CmpOp, b: &Value) -> (r: bool)
    ensures
        r == compares(a@, op, b@),
{
    match op {
        CmpOp::Eq => a.val_eq(b),
        CmpOp::Ne => !a.val_eq(b),
        _ => match (a.as_f64(), b.as_f64()) {
            (Some(x), Some(y)) => match op {
                CmpOp::Lt => x.lt(y),
                CmpOp::Le => x.le(y),
                CmpOp::Gt => y.lt(x),
                _ => y.le(x),
            },
            _ => false,
        },
    }
}

/// One item of a delivery.
pub open spec fn projected(p: Proj, writer: InstanceId, env: Env) -> Val {
    match p {
        Proj::New(path) => env.new.get_path(path_of(path@)),
        Proj::Old(path) => env.old.get_path(path_of(path@)),
        Proj::WriterId => Val::Ref(writer),
        Proj::Own(f) => (env.row)(f),
        Proj::Expr(e) => expr_value(e, env),
    }
}

/// What is delivered of a write.
pub open spec fn projection(ps: Seq<Proj>, writer: InstanceId, env: Env) -> Seq<Val> {
    Seq::new(ps.len(), |i: int| projected(ps[i], writer, env))
}

/// What is delivered of a write: copies of the values, never references to cells.
pub fn project(projs: &Vec<Proj>, writer: InstanceId, c: &EvalCtx) -> (r: Vec<Value>)
    requires
        c.store.wf(),
    ensures
        vals_of(r@) == projection(projs@, writer, c.env()),
{
    let mut out: Vec<Value> = Vec::new();
    let mut i: usize = 0;
    while i < projs.len()
        invariant
            c.store.wf(),
            i <= projs@.len(),
            out@.len() == i,
            forall|j: int|
                0 <= j < i ==> (#[trigger] out@[j])@ == projected(projs@[j], writer, c.env()),
        decreases projs@.len() - i,
    {
        let v = match &projs[i] {
            Proj::New(path) => c.new.get_path(path),
            Proj::Old(path) => c.old.get_path(path),
            Proj::WriterId => Value::Ref(writer),
            Proj::Own(f) => c.store.read(c.sub, *f),
            Proj::Expr(e) => eval_expr(e, c),
        };
        out.push(v);
        i = i + 1;
    }
    assert(vals_of(out@) =~= projection(projs@, writer, c.env()));
    out
}

/// The expression reads nothing of the subscriber.
pub open spec fn expr_independent(e: Expr) -> bool
    decreases e,
{
    match e {
        Expr::Val(v) => !(v is Own || v is SelfRef),
        Expr::Add(a, b) => expr_independent(*a) && expr_independent(*b),
        Expr::Sub(a, b) => expr_independent(*a) && expr_independent(*b),
        Expr::Mul(a, b) => expr_independent(*a) && expr_independent(*b),
        Expr::Div(a, b) => expr_independent(*a) && expr_independent(*b),
    }
}

/// The condition reads nothing of the subscriber.
pub open spec fn independent(c: Cond) -> bool
    decreases c,
{
    match c {
        Cond::Cmp(a, _, b) => expr_independent(a) && expr_independent(b),
        Cond::Crossed(t, _) => expr_independent(t),
        Cond::And(a, b) => independent(*a) && independent(*b),
        Cond::Or(a, b) => independent(*a) && independent(*b),
        Cond::AndNot(a, b) => independent(*a) && independent(*b),
        _ => true,
    }
}

fn expr_sub_independent(e: &Expr) -> (r: bool)
    ensures
        r == expr_independent(*e),
    decreases e,
{
    match e {
        Expr::Val(v) => !matches!(v, ValRef::Own(_) | ValRef::SelfRef),
        Expr::Add(a, b) => expr_sub_independent(a) && expr_sub_independent(b),
        Expr::Sub(a, b) => expr_sub_independent(a) && expr_sub_independent(b),
        Expr::Mul(a, b) => expr_sub_independent(a) && expr_sub_independent(b),
        Expr::Div(a, b) => expr_sub_independent(a) && expr_sub_independent(b),
    }
}

/// Whether the condition has one answer for all subscribers of a write.
pub fn cond_sub_independent(c: &Cond) -> (r: bool)
    ensures
        r == independent(*c),
    decreases c,
{
    match c {
        Cond::Cmp(a, _, b) => expr_sub_independent(a) && expr_sub_independent(b),
        Cond::Crossed(t, _) => expr_sub_independent(t),
        Cond::And(a, b) => cond_sub_independent(a) && cond_sub_independent(b),
        Cond::Or(a, b) => cond_sub_independent(a) && cond_sub_independent(b),
        Cond::AndNot(a, b) => cond_sub_independent(a) && cond_sub_independent(b),
        _ => true,
    }
}

proof fn lemma_expr_independent(e: Expr, a: Env, b: Env)
    requires
        expr_independent(e),
        a.new == b.new,
        a.old == b.old,
    ensures
        expr_value(e, a) == expr_value(e, b),
    decreases e,
{
    match e {
        Expr::Val(_) => {},
        Expr::Add(x, y) => {
            lemma_expr_independent(*x, a, b);
            lemma_expr_independent(*y, a, b);
        },
        Expr::Sub(x, y) => {
            lemma_expr_independent(*x, a, b);
            lemma_expr_independent(*y, a, b);
        },
        Expr::Mul(x, y) => {
            lemma_expr_independent(*x, a, b);
            lemma_expr_independent(*y, a, b);
        },
        Expr::Div(x, y) => {
            lemma_expr_independent(*x, a, b);
            lemma_expr_independent(*y, a, b);
        },
    }
}

/// A condition that reads nothing of the subscriber has one answer for all of them.
pub proof fn law_independent(c: Cond, a: Env, b: Env)
    requires
        independent(c),
        a.new == b.new,
        a.old == b.old,
    ensures
        holds(c, a) == holds(c, b),
    decreases c,
{
    match c {
        Cond::Cmp(x, _, y) => {
            lemma_expr_independent(x, a, b);
            lemma_expr_independent(y, a, b);
        },
        Cond::Crossed(t, _) => {
            lemma_expr_independent(t, a, b);
        },
        Cond::And(x, y) => {
            law_independent(*x, a, b);
            law_independent(*y, a, b);
        },
        Cond::Or(x, y) => {
            law_independent(*x, a, b);
            law_independent(*y, a, b);
        },
        Cond::AndNot(x, y) => {
            law_independent(*x, a, b);
            law_independent(*y, a, b);
        },
        _ => {},
    }
}

}
