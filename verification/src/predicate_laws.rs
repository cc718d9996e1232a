//! What expressions and conditions mean, in terms of the numbers and values that they read.
use crate::entity::FieldId;
use crate::entity::InstanceId;
use crate::float64::of_int;
use crate::float64::one;
use crate::float64::F64;
use crate::float_laws::apart;
use crate::float_laws::law_differences_are_nearest;
use crate::float_laws::law_integers_are_nearest;
use crate::float_laws::law_products_are_nearest;
use crate::float_laws::law_quotients_are_nearest;
use crate::float_laws::law_sums_are_nearest;
use crate::float_laws::small;
use crate::float_order::law_comparison_is_the_order_of_values;
use crate::predicate::compares;
use crate::predicate::expr_value;
use crate::predicate::holds;
use crate::predicate::CmpOp;
use crate::predicate::Cond;
use crate::predicate::Dir;
use crate::predicate::Env;
use crate::predicate::Expr;
use crate::predicate::ValRef;
use crate::runtime::eval::env_of;
use crate::runtime::store::Store;
use crate::value::path_of;
use crate::value::unique_keys;
use crate::value::Val;
use crate::value::Value;
use vstd::prelude::*;

verus! {

/// Integers, booleans and floats are numbers; nothing else is. An integer of up to
/// fifty-three bits is exactly itself, true is one, and false is zero.
pub proof fn law_numbers_of_values(i: i64, f: F64, b: bool, v: Val)
    ensures
        Val::Int(i).num() is Some,
        small(i as int) ==> Val::Int(i).num()->0.finite() && Val::Int(i).num()->0.scaled() == i
            * one(),
        Val::Float(f).num() == Some(f),
        Val::Bool(b).num() is Some,
        Val::Bool(b).num()->0.finite(),
        Val::Bool(b).num()->0.scaled() == (if b {
            one() as int
        } else {
            0
        }),
        v is Null || v is Str || v is Ref || v is Dict || v is Vec3 || v is Quat ==> v.num()
            is None,
{
    law_integers_are_nearest(i as int, f64_zero());
    law_integers_are_nearest(1, f64_zero());
    law_integers_are_nearest(0, f64_zero());
}

/// Some finite number.
spec fn f64_zero() -> F64 {
    F64 { bits: 0 }
}

/// What an expression reads: of the write, of the subscriber's own row, a constant, or the
/// subscriber itself.
pub proof fn law_what_expressions_read(
    store: Store,
    sub: InstanceId,
    new: Val,
    old: Val,
    path: Vec<String>,
    f: FieldId,
    c: Value,
)
    ensures
        expr_value(Expr::Val(ValRef::New(path)), env_of(store, sub, new, old)) == new.get_path(
            path_of(path@),
        ),
        expr_value(Expr::Val(ValRef::Old(path)), env_of(store, sub, new, old)) == old.get_path(
            path_of(path@),
        ),
        expr_value(Expr::Val(ValRef::Own(f)), env_of(store, sub, new, old)) == store.value(sub, f),
        expr_value(Expr::Val(ValRef::Const(c)), env_of(store, sub, new, old)) == c@,
        expr_value(Expr::Val(ValRef::SelfRef), env_of(store, sub, new, old)) == Val::Ref(sub),
{
}

/// Arithmetic is that of the numbers, in the order of the operands: of two finite numbers the
/// sum, difference, product and quotient are floats, and no float `z` is nearer to the exact
/// result. Where an operand is no number the result is null.
pub proof fn law_arithmetic(a: Expr, b: Expr, env: Env, z: F64)
    ensures
        ({
            let x = expr_value(a, env).num();
            let y = expr_value(b, env).num();
            let p = x->0.scaled();
            let q = y->0.scaled();
            let add = expr_value(Expr::Add(Box::new(a), Box::new(b)), env);
            let sub = expr_value(Expr::Sub(Box::new(a), Box::new(b)), env);
            let mul = expr_value(Expr::Mul(Box::new(a), Box::new(b)), env);
            let div = expr_value(Expr::Div(Box::new(a), Box::new(b)), env);
            &&& x is None || y is None ==> add is Null && sub is Null && mul is Null && div is Null
            &&& x is Some && y is Some ==> add is Float && sub is Float && mul is Float
                && div is Float
            &&& x is Some && y is Some && x->0.finite() && y->0.finite() && z.finite() ==> {
                &&& add->Float_0.finite() ==> apart(p + q, add->Float_0.scaled()) <= apart(
                    p + q,
                    z.scaled(),
                )
                &&& sub->Float_0.finite() ==> apart(p - q, sub->Float_0.scaled()) <= apart(
                    p - q,
                    z.scaled(),
                )
                &&& mul->Float_0.finite() ==> apart(p * q, one() * mul->Float_0.scaled())
                    <= apart(p * q, one() * z.scaled())
                &&& q != 0 && div->Float_0.finite() ==> apart(
                    p * one(),
                    q * div->Float_0.scaled(),
                ) <= apart(p * one(), q * z.scaled())
                &&& q == 0 ==> !div->Float_0.finite()
                &&& p + q == z.scaled() ==> add->Float_0.finite() && add->Float_0.scaled() == p + q
                &&& p - q == z.scaled() ==> sub->Float_0.finite() && sub->Float_0.scaled() == p - q
                &&& p * q == one() * z.scaled() ==> mul->Float_0.finite()
                    && mul->Float_0.scaled() == z.scaled()
                &&& q != 0 && p * one() == q * z.scaled() ==> div->Float_0.finite()
                    && div->Float_0.scaled() == z.scaled()
            }
        }),
{
    let x = expr_value(a, env).num();
    let y = expr_value(b, env).num();
    if x is Some && y is Some && x->0.finite() && y->0.finite() && z.finite() {
        let f = x->0;
        let g = y->0;
        law_sums_are_nearest(f, g, z);
        law_differences_are_nearest(f, g, z);
        law_products_are_nearest(f, g, z);
        crate::float_arith::lemma_units_zero(g);
        if !g.zero() {
            law_quotients_are_nearest(f, g, z);
        }
    }
}

/// On integers arithmetic is exact, as long as the results have up to fifty-three bits.
pub proof fn law_integer_arithmetic(a: Expr, b: Expr, env: Env, i: i64, j: i64, k: int)
    requires
        expr_value(a, env) == Val::Int(i),
        expr_value(b, env) == Val::Int(j),
        small(i as int),
        small(j as int),
    ensures
        ({
            let add = expr_value(Expr::Add(Box::new(a), Box::new(b)), env);
            let sub = expr_value(Expr::Sub(Box::new(a), Box::new(b)), env);
            let mul = expr_value(Expr::Mul(Box::new(a), Box::new(b)), env);
            let div = expr_value(Expr::Div(Box::new(a), Box::new(b)), env);
            &&& small(i + j) ==> add is Float && add->Float_0.feq(of_int(i + j))
            &&& small(i - j) ==> sub is Float && sub->Float_0.feq(of_int(i - j))
            &&& small(i * j) ==> mul is Float && mul->Float_0.feq(of_int(i * j))
            &&& j != 0 && i == j * k && small(k) ==> div is Float && div->Float_0.feq(of_int(k))
        }),
{
    let x = of_int(i as int);
    let y = of_int(j as int);
    let zero = f64_zero();
    let o = one() as int;
    law_integers_are_nearest(i as int, zero);
    law_integers_are_nearest(j as int, zero);
    vstd::arithmetic::power2::lemma_pow2_pos(1074);
    if small(i + j) {
        let z = of_int(i + j);
        law_integers_are_nearest(i + j, zero);
        law_sums_are_nearest(x, y, z);
        assert((i + j) * o == i * o + j * o) by (nonlinear_arith);
        law_comparison_is_the_order_of_values(x.add_spec(y), z);
    }
    if small(i - j) {
        let z = of_int(i - j);
        law_integers_are_nearest(i - j, zero);
        law_differences_are_nearest(x, y, z);
        assert((i - j) * o == i * o - j * o) by (nonlinear_arith);
        law_comparison_is_the_order_of_values(x.sub_spec(y), z);
    }
    if small(i * j) {
        let z = of_int(i * j);
        law_integers_are_nearest(i * j, zero);
        law_products_are_nearest(x, y, z);
        assert((i * o) * (j * o) == o * ((i * j) * o)) by (nonlinear_arith);
        law_comparison_is_the_order_of_values(x.mul_spec(y), z);
    }
    if j != 0 && i == j * k && small(k) {
        let z = of_int(k);
        law_integers_are_nearest(k, zero);
        assert(j * o != 0) by (nonlinear_arith)
            requires
                j != 0,
                o > 0,
        ;
        crate::float_arith::lemma_units_zero(y);
        law_quotients_are_nearest(x, y, z);
        assert((i * o) * o == (j * o) * (k * o)) by (nonlinear_arith)
            requires
                i == j * k,
        ;
        law_comparison_is_the_order_of_values(x.div_spec(y), z);
    }
}

/// Numbers compare by their values. What is no number has no order.
pub proof fn law_comparisons(a: Val, b: Val)
    ensures
        a.num() is Some && b.num() is Some && a.num()->0.finite() && b.num()->0.finite() ==> {
            let x = a.num()->0.scaled();
            let y = b.num()->0.scaled();
            &&& compares(a, CmpOp::Eq, b) <==> x == y
            &&& compares(a, CmpOp::Ne, b) <==> x != y
            &&& compares(a, CmpOp::Lt, b) <==> x < y
            &&& compares(a, CmpOp::Le, b) <==> x <= y
            &&& compares(a, CmpOp::Gt, b) <==> x > y
            &&& compares(a, CmpOp::Ge, b) <==> x >= y
        },
        a.num() is None || b.num() is None || a.num()->0.nan() || b.num()->0.nan() ==> !compares(
            a,
            CmpOp::Lt,
            b,
        ) && !compares(a, CmpOp::Le, b) && !compares(a, CmpOp::Gt, b) && !compares(
            a,
            CmpOp::Ge,
            b,
        ),
        compares(a, CmpOp::Ne, b) <==> !compares(a, CmpOp::Eq, b),
{
    if a.num() is Some && b.num() is Some && a.num()->0.finite() && b.num()->0.finite() {
        law_comparison_is_the_order_of_values(a.num()->0, b.num()->0);
        law_comparison_is_the_order_of_values(b.num()->0, a.num()->0);
    }
}

/// Texts are equal letter by letter, references by the instance they name, and values of
/// different kinds are not equal unless both are numbers.
pub proof fn law_equality(s: Seq<char>, t: Seq<char>, i: InstanceId, j: InstanceId, a: Val, b: Val)
    ensures
        Val::Str(s).equals(Val::Str(t)) <==> s == t,
        Val::Ref(i).equals(Val::Ref(j)) <==> i == j,
        Val::Null.equals(Val::Null),
        a is Null && b.equals(a) ==> b is Null,
        a is Str && b.equals(a) ==> b is Str,
        a is Ref && b.equals(a) ==> b is Ref,
        a is Dict && b.equals(a) ==> b is Dict,
        a is Vec3 && b.equals(a) ==> b is Vec3,
        a is Quat && b.equals(a) ==> b is Quat,
        a.num() is Some && b.equals(a) ==> b.num() is Some,
{
}

/// Vectors and quaternions are equal where each of their numbers is.
pub proof fn law_equality_of_vectors(
    a: (F64, F64, F64, F64),
    b: (F64, F64, F64, F64),
)
    requires
        a.0.finite() && a.1.finite() && a.2.finite() && a.3.finite(),
        b.0.finite() && b.1.finite() && b.2.finite() && b.3.finite(),
    ensures
        Val::Vec3(a.0, a.1, a.2).equals(Val::Vec3(b.0, b.1, b.2)) <==> a.0.scaled()
            == b.0.scaled() && a.1.scaled() == b.1.scaled() && a.2.scaled() == b.2.scaled(),
        Val::Quat(a.0, a.1, a.2, a.3).equals(Val::Quat(b.0, b.1, b.2, b.3)) <==> a.0.scaled()
            == b.0.scaled() && a.1.scaled() == b.1.scaled() && a.2.scaled() == b.2.scaled()
            && a.3.scaled() == b.3.scaled(),
{
    law_comparison_is_the_order_of_values(a.0, b.0);
    law_comparison_is_the_order_of_values(a.1, b.1);
    law_comparison_is_the_order_of_values(a.2, b.2);
    law_comparison_is_the_order_of_values(a.3, b.3);
}

/// A path is followed step by step: the whole of it leads where its second part leads from
/// the end of its first.
pub proof fn law_paths_are_followed(v: Val, p: Seq<Seq<char>>, q: Seq<Seq<char>>)
    ensures
        v.get_path(Seq::empty()) == v,
        v.get_path(p + q) == v.get_path(p).get_path(q),
    decreases p.len(),
{
    if p.len() == 0 {
        assert(p + q =~= q);
        assert(p =~= Seq::empty());
    } else {
        assert((p + q).drop_first() =~= p.drop_first() + q);
        assert((p + q)[0] == p[0]);
        match v {
            Val::Dict(m) => {
                let i = crate::value::entry_at(m, p[0]);
                if 0 <= i < m.len() {
                    law_paths_are_followed(m[i].1, p.drop_first(), q);
                }
            },
            _ => {},
        }
    }
}

/// One step leads to the value under the key; to a component of a vector or a quaternion by
/// its letter; and to null where there is nothing.
pub proof fn law_steps_of_paths(v: Val, key: Seq<char>, i: int)
    ensures
        v is Dict && unique_keys(v->Dict_0) && 0 <= i < v->Dict_0.len() && v->Dict_0[i].0 == key
            ==> v.get_path(seq![key]) == v->Dict_0[i].1,
        v is Dict && (forall|j: int|
            0 <= j < v->Dict_0.len() ==> (#[trigger] v->Dict_0[j]).0 != key)
            ==> v.get_path(seq![key]) is Null,
        v is Vec3 ==> {
            &&& key == seq!['x'] ==> v.get_path(seq![key]) == Val::Float(v->Vec3_0)
            &&& key == seq!['y'] ==> v.get_path(seq![key]) == Val::Float(v->Vec3_1)
            &&& key == seq!['z'] ==> v.get_path(seq![key]) == Val::Float(v->Vec3_2)
            &&& key != seq!['x'] && key != seq!['y'] && key != seq!['z'] ==> v.get_path(
                seq![key],
            ) is Null
        },
        v is Quat ==> {
            &&& key == seq!['x'] ==> v.get_path(seq![key]) == Val::Float(v->Quat_0)
            &&& key == seq!['y'] ==> v.get_path(seq![key]) == Val::Float(v->Quat_1)
            &&& key == seq!['z'] ==> v.get_path(seq![key]) == Val::Float(v->Quat_2)
            &&& key == seq!['w'] ==> v.get_path(seq![key]) == Val::Float(v->Quat_3)
            &&& key != seq!['x'] && key != seq!['y'] && key != seq!['z'] && key != seq!['w']
                ==> v.get_path(seq![key]) is Null
        },
        !(v is Dict || v is Vec3 || v is Quat) ==> v.get_path(seq![key]) is Null,
{
    let p = seq![key];
    assert(p.drop_first() =~= Seq::empty());
    reveal_with_fuel(Val::get_path, 3);
    if key.len() == 1 {
        assert(key =~= seq![key[0]]);
    }
    if v is Dict {
        let m = v->Dict_0;
        if unique_keys(m) && 0 <= i < m.len() && m[i].0 == key {
            assert forall|j: int| 0 <= j < i implies (#[trigger] m[j]).0 != key by {
                assert(m[j].0 != m[i].0);
            }
            crate::value::lemma_entry_at(m, key, i);
        }
        if forall|j: int| 0 <= j < m.len() ==> (#[trigger] m[j]).0 != key {
            crate::value::lemma_entry_at(m, key, m.len() as int);
        }
    }
}

/// A range holds its ends and what lies between them, and numbers only.
pub proof fn law_ranges(lo: F64, hi: F64, env: Env)
    requires
        lo.finite(),
        hi.finite(),
    ensures
        env.new.num() is Some && env.new.num()->0.finite() ==> (holds(
            Cond::InRange(lo, hi),
            env,
        ) <==> lo.scaled() <= env.new.num()->0.scaled() <= hi.scaled()),
        env.new.num() is None || env.new.num()->0.nan() ==> !holds(Cond::InRange(lo, hi), env),
{
    if env.new.num() is Some && env.new.num()->0.finite() {
        law_comparison_is_the_order_of_values(lo, env.new.num()->0);
        law_comparison_is_the_order_of_values(env.new.num()->0, hi);
    }
}

/// Crossing goes from one side of the threshold to beyond it: downwards from at least the
/// threshold to below it, upwards from at most it to above it.
pub proof fn law_crossings(t: Expr, env: Env)
    ensures
        ({
            let x = expr_value(t, env).num();
            let o = env.old.num();
            let n = env.new.num();
            &&& x is Some && o is Some && n is Some && x->0.finite() && o->0.finite()
                && n->0.finite() ==> {
                &&& holds(Cond::Crossed(t, Dir::Down), env) <==> o->0.scaled() >= x->0.scaled()
                    > n->0.scaled()
                &&& holds(Cond::Crossed(t, Dir::Up), env) <==> o->0.scaled() <= x->0.scaled()
                    < n->0.scaled()
            }
            &&& x is None || o is None || n is None ==> !holds(Cond::Crossed(t, Dir::Down), env)
                && !holds(Cond::Crossed(t, Dir::Up), env)
        }),
{
    let x = expr_value(t, env).num();
    let o = env.old.num();
    let n = env.new.num();
    if x is Some && o is Some && n is Some && x->0.finite() && o->0.finite() && n->0.finite() {
        law_comparison_is_the_order_of_values(x->0, o->0);
        law_comparison_is_the_order_of_values(n->0, x->0);
        law_comparison_is_the_order_of_values(o->0, x->0);
        law_comparison_is_the_order_of_values(x->0, n->0);
    }
}

/// Changing, becoming and belonging to a set are comparisons: of the written value with the
/// one before it, with a value that the one before it did not have, and with one of several.
pub proof fn law_edges_are_comparisons(new: Expr, old: Expr, c: Value, cs: Vec<Value>, env: Env)
    requires
        expr_value(new, env) == env.new,
        expr_value(old, env) == env.old,
    ensures
        holds(Cond::Changed, env) <==> holds(Cond::Cmp(new, CmpOp::Ne, old), env),
        holds(Cond::Became(c), env) <==> holds(
            Cond::Cmp(new, CmpOp::Eq, Expr::Val(ValRef::Const(c))),
            env,
        ) && holds(Cond::Cmp(old, CmpOp::Ne, Expr::Val(ValRef::Const(c))), env),
        holds(Cond::InSet(cs), env) <==> exists|i: int|
            0 <= i < cs@.len() && holds(
                Cond::Cmp(Expr::Val(ValRef::Const(#[trigger] cs@[i])), CmpOp::Eq, new),
                env,
            ),
{
    assert forall|i: int| 0 <= i < cs@.len() implies holds(
        Cond::Cmp(Expr::Val(ValRef::Const(#[trigger] cs@[i])), CmpOp::Eq, new),
        env,
    ) == cs@[i]@.equals(env.new) by {
        assert(expr_value(Expr::Val(ValRef::Const(cs@[i])), env) == cs@[i]@);
    }
    let set = Cond::InSet(cs);
    assert(set->InSet_0 == cs);
    assert(holds(set, env) <==> exists|i: int|
        0 <= i < cs@.len() && (#[trigger] cs@[i])@.equals(env.new));
    if holds(Cond::InSet(cs), env) {
        let i = choose|i: int| 0 <= i < cs@.len() && (#[trigger] cs@[i])@.equals(env.new);
        assert(holds(Cond::Cmp(Expr::Val(ValRef::Const(cs@[i])), CmpOp::Eq, new), env));
    } else {
        assert forall|i: int| 0 <= i < cs@.len() implies !holds(
            Cond::Cmp(Expr::Val(ValRef::Const(#[trigger] cs@[i])), CmpOp::Eq, new),
            env,
        ) by {
            assert(!cs@[i]@.equals(env.new));
        }
    }
}

/// A comparison in a condition is that of the two values.
pub proof fn law_comparing_expressions(a: Expr, b: Expr, op: CmpOp, env: Env)
    ensures
        holds(Cond::Cmp(a, op, b), env) <==> compares(expr_value(a, env), op, expr_value(b, env)),
{
}

/// Conditions combine as truth does: a part and its exclusion cover the part, they exclude
/// each other, and a disjunction is what is not excluded twice.
pub proof fn law_connectives(a: Cond, b: Cond, env: Env)
    ensures
        holds(Cond::True, env),
        holds(Cond::And(Box::new(a), Box::new(b)), env) ==> holds(a, env) && holds(b, env),
        holds(a, env) <==> holds(Cond::And(Box::new(a), Box::new(b)), env) || holds(
            Cond::AndNot(Box::new(a), Box::new(b)),
            env,
        ),
        !(holds(Cond::And(Box::new(a), Box::new(b)), env) && holds(
            Cond::AndNot(Box::new(a), Box::new(b)),
            env,
        )),
        holds(Cond::AndNot(Box::new(a), Box::new(b)), env) ==> !holds(b, env),
        holds(Cond::Or(Box::new(a), Box::new(b)), env) <==> holds(
            Cond::AndNot(Box::new(a), Box::new(b)),
            env,
        ) || holds(b, env),
{
}

}
