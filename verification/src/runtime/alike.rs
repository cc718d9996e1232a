//! Conditions that are written alike are evaluated once per write.
use crate::predicate::expr_value;
use crate::predicate::holds;
use crate::predicate::Cond;
use crate::predicate::Env;
use crate::predicate::Expr;
use crate::predicate::ValRef;
use crate::runtime::index::path_same;
use crate::value::path_of;
use crate::value::vals_of;
use crate::value::Value;
use vstd::prelude::*;

verus! {

pub open spec fn refs_alike(a: ValRef, b: ValRef) -> bool {
    match (a, b) {
        (ValRef::New(p), ValRef::New(q)) => path_of(p@) == path_of(q@),
        (ValRef::Old(p), ValRef::Old(q)) => path_of(p@) == path_of(q@),
        (ValRef::Own(f), ValRef::Own(g)) => f == g,
        (ValRef::Const(v), ValRef::Const(w)) => v@ == w@,
        (ValRef::SelfRef, ValRef::SelfRef) => true,
        _ => false,
    }
}

pub open spec fn exprs_alike(a: Expr, b: Expr) -> bool
    decreases a,
{
    match (a, b) {
        (Expr::Val(v), Expr::Val(w)) => refs_alike(v, w),
        (Expr::Add(x, y), Expr::Add(u, v)) => exprs_alike(*x, *u) && exprs_alike(*y, *v),
        (Expr::Sub(x, y), Expr::Sub(u, v)) => exprs_alike(*x, *u) && exprs_alike(*y, *v),
        (Expr::Mul(x, y), Expr::Mul(u, v)) => exprs_alike(*x, *u) && exprs_alike(*y, *v),
        (Expr::Div(x, y), Expr::Div(u, v)) => exprs_alike(*x, *u) && exprs_alike(*y, *v),
        _ => false,
    }
}

/// The conditions are written alike.
pub open spec fn alike(a: Cond, b: Cond) -> bool
    decreases a,
{
    match (a, b) {
        (Cond::True, Cond::True) => true,
        (Cond::Cmp(x, o, y), Cond::Cmp(u, p, v)) => exprs_alike(x, u) && o == p && exprs_alike(
            y,
            v,
        ),
        (Cond::InRange(x, y), Cond::InRange(u, v)) => x == u && y == v,
        (Cond::InSet(x), Cond::InSet(y)) => vals_of(x@) == vals_of(y@),
        (Cond::Changed, Cond::Changed) => true,
        (Cond::Became(x), Cond::Became(y)) => x@ == y@,
        (Cond::Crossed(x, d), Cond::Crossed(y, e)) => exprs_alike(x, y) && d == e,
        (Cond::And(x, y), Cond::And(u, v)) => alike(*x, *u) && alike(*y, *v),
        (Cond::Or(x, y), Cond::Or(u, v)) => alike(*x, *u) && alike(*y, *v),
        (Cond::AndNot(x, y), Cond::AndNot(u, v)) => alike(*x, *u) && alike(*y, *v),
        _ => false,
    }
}

proof fn lemma_exprs_alike(a: Expr, b: Expr, env: Env)
    requires
        exprs_alike(a, b),
    ensures
        expr_value(a, env) == expr_value(b, env),
    decreases a,
{
    match (a, b) {
        (Expr::Add(x, y), Expr::Add(u, v)) => {
            lemma_exprs_alike(*x, *u, env);
            lemma_exprs_alike(*y, *v, env);
        },
        (Expr::Sub(x, y), Expr::Sub(u, v)) => {
            lemma_exprs_alike(*x, *u, env);
            lemma_exprs_alike(*y, *v, env);
        },
        (Expr::Mul(x, y), Expr::Mul(u, v)) => {
            lemma_exprs_alike(*x, *u, env);
            lemma_exprs_alike(*y, *v, env);
        },
        (Expr::Div(x, y), Expr::Div(u, v)) => {
            lemma_exprs_alike(*x, *u, env);
            lemma_exprs_alike(*y, *v, env);
        },
        _ => {},
    }
}

/// Conditions that are written alike agree on every write.
pub proof fn law_alike_agree(a: Cond, b: Cond, env: Env)
    requires
        alike(a, b),
    ensures
        holds(a, env) == holds(b, env),
    decreases a,
{
    match (a, b) {
        (Cond::Cmp(x, _, y), Cond::Cmp(u, _, v)) => {
            lemma_exprs_alike(x, u, env);
            lemma_exprs_alike(y, v, env);
        },
        (Cond::InSet(x), Cond::InSet(y)) => {
            let p = vals_of(x@);
            let q = vals_of(y@);
            assert(p.len() == x@.len() && q.len() == y@.len());
            if holds(a, env) {
                let i = choose|i: int| 0 <= i < x@.len() && (#[trigger] x@[i])@.equals(env.new);
                assert(p[i] == q[i]);
                assert(y@[i]@.equals(env.new));
            }
            if holds(b, env) {
                let i = choose|i: int| 0 <= i < y@.len() && (#[trigger] y@[i])@.equals(env.new);
                assert(p[i] == q[i]);
                assert(x@[i]@.equals(env.new));
            }
        },
        (Cond::Crossed(x, _), Cond::Crossed(y, _)) => {
            lemma_exprs_alike(x, y, env);
        },
        (Cond::And(x, y), Cond::And(u, v)) => {
            law_alike_agree(*x, *u, env);
            law_alike_agree(*y, *v, env);
        },
        (Cond::Or(x, y), Cond::Or(u, v)) => {
            law_alike_agree(*x, *u, env);
            law_alike_agree(*y, *v, env);
        },
        (Cond::AndNot(x, y), Cond::AndNot(u, v)) => {
            law_alike_agree(*x, *u, env);
            law_alike_agree(*y, *v, env);
        },
        _ => {},
    }
}

fn same_refs(a: &ValRef, b: &ValRef) -> (r: bool)
    ensures
        r == refs_alike(*a, *b),
{
    match (a, b) {
        (ValRef::New(p), ValRef::New(q)) => path_same(p, q),
        (ValRef::Old(p), ValRef::Old(q)) => path_same(p, q),
        (ValRef::Own(f), ValRef::Own(g)) => *f == *g,
        (ValRef::Const(v), ValRef::Const(w)) => v.identical(w),
        (ValRef::SelfRef, ValRef::SelfRef) => true,
        _ => false,
    }
}

fn same_exprs(a: &Expr, b: &Expr) -> (r: bool)
    ensures
        r == exprs_alike(*a, *b),
    decreases a,
{
    match (a, b) {
        (Expr::Val(v), Expr::Val(w)) => same_refs(v, w),
        (Expr::Add(x, y), Expr::Add(u, v)) => same_exprs(x, u) && same_exprs(y, v),
        (Expr::Sub(x, y), Expr::Sub(u, v)) => same_exprs(x, u) && same_exprs(y, v),
        (Expr::Mul(x, y), Expr::Mul(u, v)) => same_exprs(x, u) && same_exprs(y, v),
        (Expr::Div(x, y), Expr::Div(u, v)) => same_exprs(x, u) && same_exprs(y, v),
        _ => false,
    }
}

fn same_values(a: &Vec<Value>, b: &Vec<Value>) -> (r: bool)
    ensures
        r == (vals_of(a@) == vals_of(b@)),
{
    if a.len() != b.len() {
        assert(vals_of(a@).len() != vals_of(b@).len());
        return false;
    }
    let mut i: usize = 0;
    while i < a.len()
        invariant
            i <= a@.len(),
            a@.len() == b@.len(),
            forall|j: int| 0 <= j < i ==> (#[trigger] a@[j])@ == b@[j]@,
        decreases a@.len() - i,
    {
        if !a[i].identical(&b[i]) {
            assert(vals_of(a@)[i as int] != vals_of(b@)[i as int]);
            return false;
        }
        i = i + 1;
    }
    assert(vals_of(a@) =~= vals_of(b@));
    true
}

/// Whether two conditions are written alike.
pub fn same_conds(a: &Cond, b: &Cond) -> (r: bool)
    ensures
        r == alike(*a, *b),
    decreases a,
{
    match (a, b) {
        (Cond::True, Cond::True) => true,
        (Cond::Cmp(x, o, y), Cond::Cmp(u, p, v)) => same_exprs(x, u) && *o == *p && same_exprs(
            y,
            v,
        ),
        (Cond::InRange(x, y), Cond::InRange(u, v)) => x.bits == u.bits && y.bits == v.bits,
        (Cond::InSet(x), Cond::InSet(y)) => same_values(x, y),
        (Cond::Changed, Cond::Changed) => true,
        (Cond::Became(x), Cond::Became(y)) => x.identical(y),
        (Cond::Crossed(x, d), Cond::Crossed(y, e)) => same_exprs(x, y) && *d == *e,
        (Cond::And(x, y), Cond::And(u, v)) => same_conds(x, u) && same_conds(y, v),
        (Cond::Or(x, y), Cond::Or(u, v)) => same_conds(x, u) && same_conds(y, v),
        (Cond::AndNot(x, y), Cond::AndNot(u, v)) => same_conds(x, u) && same_conds(y, v),
        _ => false,
    }
}

}
