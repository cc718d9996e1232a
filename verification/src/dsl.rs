//! Predicates by field name: scopes, operands and conditions that are resolved against the
//! registered types when a calculation is registered.
use crate::entity::EntityTypeId;
use crate::entity::InstanceId;
use crate::float64::F64;
use crate::predicate::CmpOp;
use crate::predicate::Dir;
use crate::value::path_of;
use crate::value::Value;
use vstd::prelude::*;
use vstd::string::StrSliceExecFns;

verus! {

/// A scope by field name.
#[derive(Debug)]
pub enum S {
    /// A cell of the subscriber itself.
    Own(String),
    /// A cell of the instance that a reference field of the subscriber points to.
    Via(String, String),
    /// A cell of every instance of a type.
    All(EntityTypeId, String),
    /// The frame number: with no condition, and hit by hit, a run for every instance in
    /// every frame.
    EveryFrame,
    Or(Box<S>, Box<S>),
    And(Box<S>, Box<S>),
}

/// A cell of the subscriber itself.
pub fn own(field: &str) -> (r: S)
    ensures
        r is Own,
        r->Own_0@ == field@,
{
    S::Own(field.to_owned())
}

/// A cell of the instance that `ref_field` points to.
pub fn via(ref_field: &str, field: &str) -> (r: S)
    ensures
        r is Via,
        r->Via_0@ == ref_field@,
        r->Via_1@ == field@,
{
    S::Via(ref_field.to_owned(), field.to_owned())
}

/// A cell of every instance of a type.
pub fn all(ty: EntityTypeId, field: &str) -> (r: S)
    ensures
        r is All,
        r->All_0 == ty,
        r->All_1@ == field@,
{
    S::All(ty, field.to_owned())
}

/// Every frame.
pub fn every_frame() -> (r: S)
    ensures
        r == S::EveryFrame,
{
    S::EveryFrame
}

impl S {
    /// A write to either side triggers.
    pub fn or(self, rhs: S) -> (r: S)
        ensures
            r == S::Or(Box::new(self), Box::new(rhs)),
    {
        S::Or(Box::new(self), Box::new(rhs))
    }

    /// Writes to both sides in one frame trigger.
    pub fn and(self, rhs: S) -> (r: S)
        ensures
            r == S::And(Box::new(self), Box::new(rhs)),
    {
        S::And(Box::new(self), Box::new(rhs))
    }
}


/// An operand of a condition, or an item of a delivery, by field name.
#[derive(Debug)]
pub enum E {
    /// The value written, under a path.
    New(Vec<String>),
    /// The value before, under a path.
    Old(Vec<String>),
    /// A field of the subscriber.
    OwnF(String),
    Const(Value),
    /// The subscriber.
    SelfRef,
    /// The writer. For deliveries alone.
    Writer,
    Add(Box<E>, Box<E>),
    Sub(Box<E>, Box<E>),
    Mul(Box<E>, Box<E>),
    Div(Box<E>, Box<E>),
}

/// The parts of a text between its dots. A text without dots is one part.
pub open spec fn split_at_dots(s: Seq<char>) -> Seq<Seq<char>>
    decreases s.len(),
{
    if s.len() == 0 {
        seq![Seq::empty()]
    } else {
        let rest = split_at_dots(s.drop_last());
        if s.last() == '.' {
            rest.push(Seq::empty())
        } else {
            rest.drop_last().push(rest.last().push(s.last()))
        }
    }
}

/// A path is the parts between the dots; the empty text is the empty path.
pub open spec fn path_parts(s: Seq<char>) -> Seq<Seq<char>> {
    if s.len() == 0 {
        Seq::empty()
    } else {
        split_at_dots(s)
    }
}

/// Splits a path at its dots.
pub fn path(p: &str) -> (r: Vec<String>)
    ensures
        path_of(r@) == path_parts(p@),
{
    let n = p.unicode_len();
    let mut out: Vec<String> = Vec::new();
    if n == 0 {
        assert(path_of(out@) =~= Seq::empty());
        return out;
    }
    let mut from: usize = 0;
    let mut i: usize = 0;
    proof {
        assert(p@.take(0) =~= Seq::empty());
        assert(split_at_dots(p@.take(0)) =~= path_of(out@).push(p@.subrange(0, 0)));
    }
    while i < n
        invariant
            n == p@.len(),
            from <= i <= n,
            split_at_dots(p@.take(i as int)) == path_of(out@).push(
                p@.subrange(from as int, i as int),
            ),
        decreases n - i,
    {
        let c = p.get_char(i);
        let ghost before = path_of(out@);
        let ghost part = p@.subrange(from as int, i as int);
        proof {
            assert(p@.take(i + 1).drop_last() =~= p@.take(i as int));
            assert(p@.take(i + 1).last() == c);
        }
        if c == '.' {
            out.push(p.substring_char(from, i).to_string());
            from = i + 1;
            proof {
                assert(path_of(out@) =~= before.push(part));
                assert(p@.subrange(from as int, i + 1) =~= Seq::empty());
            }
        } else {
            proof {
                let rest = split_at_dots(p@.take(i as int));
                assert(rest.drop_last() =~= before);
                assert(p@.subrange(from as int, i + 1) =~= part.push(c));
            }
        }
        i = i + 1;
    }
    let ghost before = path_of(out@);
    out.push(p.substring_char(from, n).to_string());
    proof {
        assert(p@.take(n as int) =~= p@);
        assert(path_of(out@) =~= before.push(p@.subrange(from as int, n as int)));
    }
    out
}

/// The value written, whole.
pub fn newv() -> (r: E)
    ensures
        r is New,
        r->New_0@.len() == 0,
{
    E::New(Vec::new())
}

/// The value written, under a path.
pub fn new_(p: &str) -> (r: E)
    ensures
        r is New,
        path_of(r->New_0@) == path_parts(p@),
{
    E::New(path(p))
}

/// The value before, whole.
pub fn oldv() -> (r: E)
    ensures
        r is Old,
        r->Old_0@.len() == 0,
{
    E::Old(Vec::new())
}

/// The value before, under a path.
pub fn old_(p: &str) -> (r: E)
    ensures
        r is Old,
        path_of(r->Old_0@) == path_parts(p@),
{
    E::Old(path(p))
}

/// A field of the subscriber.
pub fn own_(field: &str) -> (r: E)
    ensures
        r is OwnF,
        r->OwnF_0@ == field@,
{
    E::OwnF(field.to_owned())
}

/// The subscriber.
pub fn self_() -> (r: E)
    ensures
        r == E::SelfRef,
{
    E::SelfRef
}

/// The writer.
pub fn writer() -> (r: E)
    ensures
        r == E::Writer,
{
    E::Writer
}

/// A constant.
pub fn val(v: Value) -> (r: E)
    ensures
        r == E::Const(v),
{
    E::Const(v)
}

impl From<bool> for E {
    fn from(v: bool) -> (r: E) {
        E::Const(Value::Bool(v))
    }
}

impl vstd::std_specs::convert::FromSpecImpl<bool> for E {
    open spec fn obeys_from_spec() -> bool {
        true
    }

    open spec fn from_spec(v: bool) -> E {
        E::Const(Value::Bool(v))
    }
}

impl From<i64> for E {
    fn from(v: i64) -> (r: E) {
        E::Const(Value::Int(v))
    }
}

impl vstd::std_specs::convert::FromSpecImpl<i64> for E {
    open spec fn obeys_from_spec() -> bool {
        true
    }

    open spec fn from_spec(v: i64) -> E {
        E::Const(Value::Int(v))
    }
}

impl From<F64> for E {
    fn from(v: F64) -> (r: E) {
        E::Const(Value::Float(v))
    }
}

impl vstd::std_specs::convert::FromSpecImpl<F64> for E {
    open spec fn obeys_from_spec() -> bool {
        true
    }

    open spec fn from_spec(v: F64) -> E {
        E::Const(Value::Float(v))
    }
}

impl From<String> for E {
    fn from(v: String) -> (r: E) {
        E::Const(Value::Str(v))
    }
}

impl vstd::std_specs::convert::FromSpecImpl<String> for E {
    open spec fn obeys_from_spec() -> bool {
        true
    }

    open spec fn from_spec(v: String) -> E {
        E::Const(Value::Str(v))
    }
}

impl From<InstanceId> for E {
    fn from(v: InstanceId) -> (r: E) {
        E::Const(Value::Ref(v))
    }
}

impl vstd::std_specs::convert::FromSpecImpl<InstanceId> for E {
    open spec fn obeys_from_spec() -> bool {
        true
    }

    open spec fn from_spec(v: InstanceId) -> E {
        E::Const(Value::Ref(v))
    }
}

impl From<Value> for E {
    fn from(v: Value) -> (r: E) {
        E::Const(v)
    }
}

impl vstd::std_specs::convert::FromSpecImpl<Value> for E {
    open spec fn obeys_from_spec() -> bool {
        true
    }

    open spec fn from_spec(v: Value) -> E {
        E::Const(v)
    }
}

impl E {
    pub open spec fn plus(self, rhs: E) -> E {
        E::Add(Box::new(self), Box::new(rhs))
    }

    pub open spec fn minus(self, rhs: E) -> E {
        E::Sub(Box::new(self), Box::new(rhs))
    }

    pub open spec fn times(self, rhs: E) -> E {
        E::Mul(Box::new(self), Box::new(rhs))
    }

    pub open spec fn over(self, rhs: E) -> E {
        E::Div(Box::new(self), Box::new(rhs))
    }

    pub open spec fn equal_to(self, rhs: E) -> C {
        C::Cmp(self, CmpOp::Eq, rhs)
    }

    pub open spec fn unequal_to(self, rhs: E) -> C {
        C::Cmp(self, CmpOp::Ne, rhs)
    }

    pub open spec fn less(self, rhs: E) -> C {
        C::Cmp(self, CmpOp::Lt, rhs)
    }

    pub open spec fn at_most(self, rhs: E) -> C {
        C::Cmp(self, CmpOp::Le, rhs)
    }

    pub open spec fn more(self, rhs: E) -> C {
        C::Cmp(self, CmpOp::Gt, rhs)
    }

    pub open spec fn at_least(self, rhs: E) -> C {
        C::Cmp(self, CmpOp::Ge, rhs)
    }

    /// The sum.
    pub fn add(self, rhs: E) -> (r: E)
        ensures
            r == E::Add(Box::new(self), Box::new(rhs)),
            r == self.plus(rhs),
    {
        E::Add(Box::new(self), Box::new(rhs))
    }

    /// The difference.
    pub fn sub(self, rhs: E) -> (r: E)
        ensures
            r == E::Sub(Box::new(self), Box::new(rhs)),
            r == self.minus(rhs),
    {
        E::Sub(Box::new(self), Box::new(rhs))
    }

    /// The product.
    pub fn mul(self, rhs: E) -> (r: E)
        ensures
            r == E::Mul(Box::new(self), Box::new(rhs)),
            r == self.times(rhs),
    {
        E::Mul(Box::new(self), Box::new(rhs))
    }

    /// The quotient.
    pub fn div(self, rhs: E) -> (r: E)
        ensures
            r == E::Div(Box::new(self), Box::new(rhs)),
            r == self.over(rhs),
    {
        E::Div(Box::new(self), Box::new(rhs))
    }

    pub fn eq(self, rhs: E) -> (r: C)
        ensures
            r == C::Cmp(self, CmpOp::Eq, rhs),
            r == self.equal_to(rhs),
    {
        C::Cmp(self, CmpOp::Eq, rhs)
    }

    pub fn ne(self, rhs: E) -> (r: C)
        ensures
            r == C::Cmp(self, CmpOp::Ne, rhs),
            r == self.unequal_to(rhs),
    {
        C::Cmp(self, CmpOp::Ne, rhs)
    }

    pub fn lt(self, rhs: E) -> (r: C)
        ensures
            r == C::Cmp(self, CmpOp::Lt, rhs),
            r == self.less(rhs),
    {
        C::Cmp(self, CmpOp::Lt, rhs)
    }

    pub fn le(self, rhs: E) -> (r: C)
        ensures
            r == C::Cmp(self, CmpOp::Le, rhs),
            r == self.at_most(rhs),
    {
        C::Cmp(self, CmpOp::Le, rhs)
    }

    pub fn gt(self, rhs: E) -> (r: C)
        ensures
            r == C::Cmp(self, CmpOp::Gt, rhs),
            r == self.more(rhs),
    {
        C::Cmp(self, CmpOp::Gt, rhs)
    }

    pub fn ge(self, rhs: E) -> (r: C)
        ensures
            r == C::Cmp(self, CmpOp::Ge, rhs),
            r == self.at_least(rhs),
    {
        C::Cmp(self, CmpOp::Ge, rhs)
    }
}

/// A condition by field name.
#[derive(Debug)]
pub enum C {
    True,
    Cmp(E, CmpOp, E),
    InRange(F64, F64),
    InSet(Vec<Value>),
    Changed,
    Became(Value),
    Crossed(E, Dir),
    And(Box<C>, Box<C>),
    Or(Box<C>, Box<C>),
    AndNot(Box<C>, Box<C>),
}

pub open spec fn fallen_below(t: E) -> C {
    C::Crossed(t, Dir::Down)
}

pub open spec fn risen_above(t: E) -> C {
    C::Crossed(t, Dir::Up)
}

/// The value differs from the one before.
pub fn changed() -> (r: C)
    ensures
        r == C::Changed,
{
    C::Changed
}

/// The value equals this one and did not before.
pub fn became(v: Value) -> (r: C)
    ensures
        r == C::Became(v),
{
    C::Became(v)
}

/// From at or above the threshold to below it.
pub fn crossed_down(t: E) -> (r: C)
    ensures
        r == C::Crossed(t, Dir::Down),
        r == fallen_below(t),
{
    C::Crossed(t, Dir::Down)
}

/// From at or below the threshold to above it.
pub fn crossed_up(t: E) -> (r: C)
    ensures
        r == C::Crossed(t, Dir::Up),
        r == risen_above(t),
{
    C::Crossed(t, Dir::Up)
}

/// Within the closed interval.
pub fn in_range(a: F64, b: F64) -> (r: C)
    ensures
        r == C::InRange(a, b),
{
    C::InRange(a, b)
}

/// One of these values.
pub fn one_of(vs: Vec<Value>) -> (r: C)
    ensures
        r == C::InSet(vs),
{
    C::InSet(vs)
}

impl C {
    pub open spec fn both(self, rhs: C) -> C {
        C::And(Box::new(self), Box::new(rhs))
    }

    pub open spec fn either(self, rhs: C) -> C {
        C::Or(Box::new(self), Box::new(rhs))
    }

    pub open spec fn but_not(self, rhs: C) -> C {
        C::AndNot(Box::new(self), Box::new(rhs))
    }

    pub fn and(self, rhs: C) -> (r: C)
        ensures
            r == C::And(Box::new(self), Box::new(rhs)),
            r == self.both(rhs),
    {
        C::And(Box::new(self), Box::new(rhs))
    }

    pub fn or(self, rhs: C) -> (r: C)
        ensures
            r == C::Or(Box::new(self), Box::new(rhs)),
            r == self.either(rhs),
    {
        C::Or(Box::new(self), Box::new(rhs))
    }

    /// The first holds and the second does not.
    pub fn and_not(self, rhs: C) -> (r: C)
        ensures
            r == C::AndNot(Box::new(self), Box::new(rhs)),
            r == self.but_not(rhs),
    {
        C::AndNot(Box::new(self), Box::new(rhs))
    }
}

}
