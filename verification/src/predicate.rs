//! Predicates: a closed algebra, fixed at registration.
//!
//! A predicate is data in three parts: the scope says whose writes to watch, the condition
//! says which of them matter, and the delivery says what is handed over and how often.
use crate::entity::EntityTypeId;
use crate::entity::FieldId;
use crate::entity::InstanceId;
use crate::float64::F64;
use crate::value::path_of;
use crate::value::Val;
use crate::value::Value;
use vstd::prelude::*;

verus! {

/// Whose writes are watched.
#[derive(Debug)]
pub enum Scope {
    /// A cell of the subscriber itself.
    Own(FieldId),
    /// A cell of the instance that a reference field of the subscriber points to.
    Inst { ref_field: FieldId, field: FieldId },
    /// A cell of every instance of a type.
    Type(EntityTypeId, FieldId),
    /// A write to either side triggers.
    Or(Box<Scope>, Box<Scope>),
    /// Writes to both sides in one frame trigger.
    And(Box<Scope>, Box<Scope>),
}

/// What a condition can read: the write, the subscriber's own row, and constants.
#[derive(Debug)]
pub enum ValRef {
    /// The value written, under a field path.
    New(Vec<String>),
    /// The value of the cell before the write, under a field path.
    Old(Vec<String>),
    /// A field of the subscriber.
    Own(FieldId),
    Const(Value),
    /// A reference to the subscriber.
    SelfRef,
}

/// An operand: a value, or arithmetic on operands.
#[derive(Debug)]
pub enum Expr {
    Val(ValRef),
    Add(Box<Expr>, Box<Expr>),
    Sub(Box<Expr>, Box<Expr>),
    Mul(Box<Expr>, Box<Expr>),
    Div(Box<Expr>, Box<Expr>),
}

#[derive(Clone, Copy, Debug, PartialEq, Eq, Structural)]
pub enum CmpOp {
    Eq,
    Ne,
    Lt,
    Le,
    Gt,
    Ge,
}

#[derive(Clone, Copy, Debug, PartialEq, Eq, Structural)]
pub enum Dir {
    Up,
    Down,
}

/// Which writes matter.
#[derive(Debug)]
pub enum Cond {
    /// Every write.
    True,
    Cmp(Expr, CmpOp, Expr),
    /// The new value is a number within the closed interval.
    InRange(F64, F64),
    /// The new value equals one of these.
    InSet(Vec<Value>),
    /// The new value differs from the old one.
    Changed,
    /// The new value equals this one and the old one did not.
    Became(Value),
    /// The threshold was crossed: downwards, from at or above it to below it.
    Crossed(Expr, Dir),
    And(Box<Cond>, Box<Cond>),
    Or(Box<Cond>, Box<Cond>),
    /// The first holds and the second does not.
    AndNot(Box<Cond>, Box<Cond>),
}

/// One item of a delivery. What is delivered is a copy of the value.
#[derive(Debug)]
pub enum Proj {
    New(Vec<String>),
    Old(Vec<String>),
    /// A reference to the writer.
    WriterId,
    /// A field of the subscriber.
    Own(FieldId),
    /// Arithmetic on what a condition can read.
    Expr(Expr),
}

#[derive(Clone, Copy, Debug, PartialEq, Eq, Structural)]
pub enum FoldOp {
    Sum,
    Count,
    Min,
    Max,
}

/// What is handed over, and how often.
#[derive(Debug)]
pub enum Delivery {
    /// Every hit triggers once.
    Each(Vec<Proj>),
    /// The hits of a frame come as one batch. Their order is not defined.
    Batch(Vec<Proj>),
    /// The runtime keeps an aggregate and delivers its value.
    Fold(FoldOp),
}

/// What stands in front of a calculation.
#[derive(Debug)]
pub struct Predicate {
    pub scope: Scope,
    pub cond: Cond,
    pub delivery: Delivery,
}

impl Predicate {
    pub fn new(scope: Scope, cond: Cond, delivery: Delivery) -> (r: Predicate)
        ensures
            r == (Predicate { scope, cond, delivery }),
    {
        Predicate { scope, cond, delivery }
    }
}

pub fn own(field: FieldId) -> (r: Scope)
    ensures
        r == Scope::Own(field),
{
    Scope::Own(field)
}

pub fn inst(ref_field: FieldId, field: FieldId) -> (r: Scope)
    ensures
        r == (Scope::Inst { ref_field, field }),
{
    Scope::Inst { ref_field, field }
}

pub fn type_scope(ty: EntityTypeId, field: FieldId) -> (r: Scope)
    ensures
        r == Scope::Type(ty, field),
{
    Scope::Type(ty, field)
}

/// The value written, whole.
pub fn new_val() -> (r: Expr)
    ensures
        forall|env: Env| #[trigger] expr_value(r, env) == env.new,
{
    let r = Expr::Val(ValRef::New(Vec::new()));
    assert(forall|env: Env| #[trigger] expr_value(r, env) == env.new);
    r
}

/// The value written, under a path.
pub fn new_path(path: &Vec<String>) -> (r: Expr)
    ensures
        forall|env: Env| #[trigger] expr_value(r, env) == env.new.get_path(path_of(path@)),
{
    let mut p: Vec<String> = Vec::new();
    let mut i: usize = 0;
    while i < path.len()
        invariant
            i <= path@.len(),
            p@.len() == i,
            forall|j: int| 0 <= j < i ==> (#[trigger] p@[j])@ == path@[j]@,
        decreases path@.len() - i,
    {
        p.push(path[i].clone());
        i = i + 1;
    }
    assert(path_of(p@) =~= path_of(path@));
    let r = Expr::Val(ValRef::New(p));
    assert(forall|env: Env| #[trigger] expr_value(r, env) == env.new.get_path(path_of(path@)));
    r
}

pub fn own_field(f: FieldId) -> (r: Expr)
    ensures
        r == Expr::Val(ValRef::Own(f)),
{
    Expr::Val(ValRef::Own(f))
}

pub fn lit(v: Value) -> (r: Expr)
    ensures
        r == Expr::Val(ValRef::Const(v)),
{
    Expr::Val(ValRef::Const(v))
}

/// What a condition is evaluated against: one write and one subscriber.
pub ghost struct Env {
    pub new: Val,
    pub old: Val,
    pub sub: InstanceId,
    /// The subscriber's own row.
    pub row: spec_fn(FieldId) -> Val,
}

pub open spec fn ref_value(v: ValRef, env: Env) -> Val {
    match v {
        ValRef::New(path) => env.new.get_path(path_of(path@)),
        ValRef::Old(path) => env.old.get_path(path_of(path@)),
        ValRef::Own(f) => (env.row)(f),
        ValRef::Const(c) => c@,
        ValRef::SelfRef => Val::Ref(env.sub),
    }
}

/// Arithmetic on two values: a float where both are numbers, otherwise null.
pub open spec fn lifted(a: Val, b: Val, f: spec_fn(F64, F64) -> F64) -> Val {
    match (a.num(), b.num()) {
        (Some(x), Some(y)) => Val::Float(f(x, y)),
        _ => Val::Null,
    }
}

pub open spec fn expr_value(e: Expr, env: Env) -> Val
    decreases e,
{
    match e {
        Expr::Val(v) => ref_value(v, env),
        Expr::Add(a, b) => lifted(
            expr_value(*a, env),
            expr_value(*b, env),
            |x: F64, y: F64| x.add_spec(y),
        ),
        Expr::Sub(a, b) => lifted(
            expr_value(*a, env),
            expr_value(*b, env),
            |x: F64, y: F64| x.sub_spec(y),
        ),
        Expr::Mul(a, b) => lifted(
            expr_value(*a, env),
            expr_value(*b, env),
            |x: F64, y: F64| x.mul_spec(y),
        ),
        Expr::Div(a, b) => lifted(
            expr_value(*a, env),
            expr_value(*b, env),
            |x: F64, y: F64| x.div_spec(y),
        ),
    }
}

/// How two values compare under an operator. Order is for numbers only.
pub open spec fn compares(a: Val, op: CmpOp, b: Val) -> bool {
    match op {
        CmpOp::Eq => a.equals(b),
        CmpOp::Ne => !a.equals(b),
        _ => match (a.num(), b.num()) {
            (Some(x), Some(y)) => match op {
                CmpOp::Lt => x.flt(y),
                CmpOp::Le => x.fle(y),
                CmpOp::Gt => y.flt(x),
                _ => y.fle(x),
            },
            _ => false,
        },
    }
}

/// The threshold `t` was crossed by a write.
pub open spec fn crosses(t: Val, dir: Dir, old: Val, new: Val) -> bool {
    match (t.num(), old.num(), new.num()) {
        (Some(t), Some(o), Some(n)) => match dir {
            Dir::Down => t.fle(o) && n.flt(t),
            Dir::Up => o.fle(t) && t.flt(n),
        },
        _ => false,
    }
}

/// The condition holds of a write, for a subscriber.
pub open spec fn holds(c: Cond, env: Env) -> bool
    decreases c,
{
    match c {
        Cond::True => true,
        Cond::Cmp(l, op, r) => compares(expr_value(l, env), op, expr_value(r, env)),
        Cond::InRange(a, b) => match env.new.num() {
            Some(v) => a.fle(v) && v.fle(b),
            None => false,
        },
        Cond::InSet(vs) => exists|i: int| 0 <= i < vs@.len() && (#[trigger] vs@[i])@.equals(env.new),
        Cond::Changed => !env.new.equals(env.old),
        Cond::Became(v) => env.new.equals(v@) && !env.old.equals(v@),
        Cond::Crossed(t, dir) => crosses(expr_value(t, env), dir, env.old, env.new),
        Cond::And(a, b) => holds(*a, env) && holds(*b, env),
        Cond::Or(a, b) => holds(*a, env) || holds(*b, env),
        Cond::AndNot(a, b) => holds(*a, env) && !holds(*b, env),
    }
}

/// The operator with its sides exchanged, where it orders.
pub fn mirror(op: CmpOp) -> (r: Option<CmpOp>)
    ensures
        r is Some <==> !(op is Eq || op is Ne),
        r is Some ==> !(r->0 is Eq || r->0 is Ne) && forall|a: Val, b: Val| #[trigger]
            compares(a, op, b) == compares(b, r->0, a),
{
    match op {
        CmpOp::Lt => Some(CmpOp::Gt),
        CmpOp::Le => Some(CmpOp::Ge),
        CmpOp::Gt => Some(CmpOp::Lt),
        CmpOp::Ge => Some(CmpOp::Le),
        _ => None,
    }
}

}
