//! What names stand for.
use crate::runtime::CalcOptions;
use crate::predicate::Predicate;
use crate::dsl_build::CalcBuilder;
use crate::dsl::fallen_below;
use crate::dsl::path_parts;
use crate::dsl::risen_above;
use crate::dsl::split_at_dots;
use crate::dsl::C;
use crate::dsl::E;
use crate::dsl::S;
use crate::dsl_resolve::cond_of;
use crate::dsl_resolve::expr_of;
use crate::dsl_resolve::field_named;
use crate::dsl_resolve::fields_of;
use crate::dsl_resolve::named;
use crate::dsl_resolve::proj_of;
use crate::dsl_resolve::projs_of;
use crate::dsl_resolve::resolve_name;
use crate::dsl_resolve::resolve_target;
use crate::dsl_resolve::scope_of;
use crate::dsl_resolve::target;
use crate::dsl_resolve::NameError;
use crate::entity::EntityTypeId;
use crate::entity::FieldId;
use crate::float_arith::lemma_units_zero;
use crate::float_laws::difference_of;
use crate::float_laws::law_arithmetic_is_nearest;
use crate::float_laws::product_of;
use crate::float_laws::quotient_of;
use crate::float_laws::sum_of;
use crate::lists::lemma_first_found;
use crate::predicate::compares;
use crate::predicate::expr_value;
use crate::predicate::holds;
use crate::predicate::CmpOp;
use crate::predicate::Env;
use crate::predicate::Proj;
use crate::predicate::Scope;
use crate::predicate_laws::law_comparisons;
use crate::runtime::clock::Clock;
use crate::runtime::store::Store;
use crate::value::path_of;
use crate::value::Val;
use vstd::prelude::*;

verus! {

/// Texts joined by dots.
pub open spec fn joined(parts: Seq<Seq<char>>) -> Seq<char>
    decreases parts.len(),
{
    if parts.len() == 0 {
        Seq::empty()
    } else if parts.len() == 1 {
        parts[0]
    } else {
        joined(parts.drop_last()).push('.') + parts.last()
    }
}

/// The parts of a path hold no dots, and joined by dots they are the text again. A text of
/// nothing is the path without parts.
pub proof fn law_paths_are_split_at_dots(s: Seq<char>)
    ensures
        joined(path_parts(s)) == s,
        s.len() == 0 ==> path_parts(s).len() == 0,
        s.len() > 0 ==> path_parts(s).len() > 0,
        forall|i: int|
            0 <= i < path_parts(s).len() ==> !(#[trigger] path_parts(s)[i]).contains('.'),
{
    lemma_split(s);
}

proof fn lemma_split(s: Seq<char>)
    ensures
        split_at_dots(s).len() > 0,
        joined(split_at_dots(s)) == s,
        forall|i: int|
            0 <= i < split_at_dots(s).len() ==> !(#[trigger] split_at_dots(s)[i]).contains('.'),
    decreases s.len(),
{
    let p = split_at_dots(s);
    if s.len() == 0 {
        assert(joined(p) =~= s);
    } else {
        let t = s.drop_last();
        let q = split_at_dots(t);
        lemma_split(t);
        if s.last() == '.' {
            assert(p.drop_last() =~= q);
            assert(joined(p) =~= joined(q).push('.'));
            assert(joined(p) =~= s);
            assert forall|i: int| 0 <= i < p.len() implies !(#[trigger] p[i]).contains('.') by {
                if i < q.len() {
                    assert(p[i] == q[i]);
                }
            }
        } else {
            assert(p.drop_last() =~= q.drop_last());
            assert(p.last() == q.last().push(s.last()));
            if q.len() == 1 {
                assert(p.len() == 1);
                assert(joined(q) == q[0]);
                assert(joined(p) == p[0]);
                assert(p[0] == t.push(s.last()));
                assert(joined(p) =~= s);
            } else {
                assert(joined(q) == joined(q.drop_last()).push('.') + q.last());
                assert(joined(p) == joined(q.drop_last()).push('.') + p.last());
                assert(joined(p) =~= joined(q).push(s.last()));
                assert(joined(p) =~= s);
            }
            assert forall|i: int| 0 <= i < p.len() implies !(#[trigger] p[i]).contains('.') by {
                if i < q.len() - 1 {
                    assert(p[i] == q[i]);
                } else {
                    let l = q.last();
                    assert(!q[q.len() - 1].contains('.'));
                    if p[i].contains('.') {
                        let k = choose|k: int| 0 <= k < p[i].len() && p[i][k] == '.';
                        assert(k < l.len());
                        assert(l[k] == '.');
                    }
                }
            }
        }
    }
}

/// The field `f` of a type has the name, and no earlier field has.
pub open spec fn is_field(store: Store, ty: EntityTypeId, name: Seq<char>, f: FieldId) -> bool {
    &&& (ty.0 as int) < store.types@.len()
    &&& (f.0 as int) < store.types@[ty.0 as int].fields@.len()
    &&& store.types@[ty.0 as int].fields@[f.0 as int].name@ == name
    &&& forall|k: int|
        0 <= k < f.0 ==> (#[trigger] store.types@[ty.0 as int].fields@[k]).name@ != name
}

/// The type has no field of this name.
pub open spec fn lacks(store: Store, ty: EntityTypeId, name: Seq<char>) -> bool {
    (ty.0 as int) < store.types@.len() ==> forall|k: int|
        0 <= k < store.types@[ty.0 as int].fields@.len() ==> (
        #[trigger] store.types@[ty.0 as int].fields@[k]).name@ != name
}

/// A name stands for the first field of the type that has it; without one it is refused, and
/// so is a type that is not there.
pub proof fn law_names_are_found(store: Store, ty: EntityTypeId, name: String)
    requires
        store.wf(),
    ensures
        match resolve_name(store, ty, name) {
            Ok(f) => is_field(store, ty, name@, f),
            Err(NameError::NoSuchType(t)) => t == ty && ty.0 >= store.types@.len(),
            Err(NameError::NoSuchField(t, n)) => t == ty && n == name && ty.0 < store.types@.len()
                && lacks(store, ty, name@),
            Err(_) => false,
        },
{
    lemma_field_named(store, ty, name@);
}

proof fn lemma_field_named(store: Store, ty: EntityTypeId, name: Seq<char>)
    requires
        store.wf(),
    ensures
        match field_named(store, ty, name) {
            Some(f) => is_field(store, ty, name, f),
            None => lacks(store, ty, name),
        },
{
    if store.known(ty) {
        let fs = store.at(ty).fields@;
        lemma_first_found(fs, named(name));
        let k = crate::lists::first(fs, named(name));
        assert forall|j: int| 0 <= j < k implies (#[trigger] fs[j]).name@ != name by {
            assert(!named(name)(fs[j]));
        }
        assert(fs.len() <= u32::MAX) by {
            assert(store.at(ty).wf());
        }
    }
}

/// The name of a field behind a reference stands for the number that every type which has the
/// name gives it.
pub proof fn law_targets_are_agreed_on(store: Store, name: String)
    requires
        store.wf(),
    ensures
        match resolve_target(store, name) {
            Ok(f) => {
                &&& exists|t: EntityTypeId| #[trigger] is_field(store, t, name@, f)
                &&& forall|t: EntityTypeId, g: FieldId| #[trigger]
                    is_field(store, t, name@, g) ==> g == f
            },
            Err(NameError::NoSuchTarget(n)) => n == name && forall|t: EntityTypeId| #[trigger]
                lacks(store, t, name@),
            Err(NameError::Ambiguous(n)) => n == name && exists|
                t: EntityTypeId,
                u: EntityTypeId,
                f: FieldId,
                g: FieldId,
            | #[trigger]
                is_field(store, t, name@, f) && #[trigger] is_field(store, u, name@, g) && f != g,
            Err(_) => false,
        },
{
    let n = store.types@.len() as int;
    lemma_target(store, name@, n);
    let r = resolve_target(store, name);
    match target(store, name@, n) {
        None => {
            assert(r == Err::<FieldId, _>(NameError::NoSuchTarget(name)));
            assert forall|t: EntityTypeId| #[trigger] lacks(store, t, name@) by {
                if t.0 < n {
                    assert(lacks(store, t, name@));
                }
            }
        },
        Some(Some(f)) => {
            assert(r == Ok::<_, NameError>(f));
            assert(r->Ok_0 == f);
            let t = choose|t: EntityTypeId| #[trigger] is_field(store, t, name@, f);
            assert(is_field(store, t, name@, r->Ok_0));
            assert forall|t: EntityTypeId, g: FieldId| #[trigger]
                is_field(store, t, name@, g) implies g == f by {
                assert(t.0 < n);
            }
        },
        Some(None) => {
            let (t, u, f, g) = choose|t: EntityTypeId, u: EntityTypeId, f: FieldId, g: FieldId|
                #[trigger]
                is_field(store, t, name@, f) && #[trigger] is_field(store, u, name@, g) && f != g;
            assert(is_field(store, t, name@, f) && is_field(store, u, name@, g) && f != g);
            assert(r == Err::<FieldId, _>(NameError::Ambiguous(name)));
        },
    }
}

proof fn lemma_target(store: Store, name: Seq<char>, n: int)
    requires
        store.wf(),
        0 <= n <= store.types@.len(),
        store.types@.len() <= u32::MAX,
    ensures
        match target(store, name, n) {
            None => forall|t: EntityTypeId| t.0 < n ==> #[trigger] lacks(store, t, name),
            Some(Some(f)) => {
                &&& exists|t: EntityTypeId| #[trigger] is_field(store, t, name, f)
                &&& forall|t: EntityTypeId, g: FieldId|
                    t.0 < n && #[trigger] is_field(store, t, name, g) ==> g == f
            },
            Some(None) => exists|t: EntityTypeId, u: EntityTypeId, f: FieldId, g: FieldId|
                #[trigger]
                is_field(store, t, name, f) && #[trigger] is_field(store, u, name, g) && f != g,
        },
    decreases n,
{
    if n > 0 {
        lemma_target(store, name, n - 1);
        let t = EntityTypeId((n - 1) as u32);
        lemma_field_named(store, t, name);
        assert forall|u: EntityTypeId| u.0 < n && u.0 >= n - 1 implies u == t by {}
        match field_named(store, t, name) {
            Some(f) => {
                assert(is_field(store, t, name, f));
                assert forall|g: FieldId| #[trigger] is_field(store, t, name, g) implies g == f by {
                    lemma_one_field(store, t, name, f, g);
                }
                if target(store, name, n - 1) is None {
                    assert forall|u: EntityTypeId, g: FieldId|
                        u.0 < n && #[trigger] is_field(store, u, name, g) implies g == f by {
                        if u.0 < n - 1 {
                            assert(lacks(store, u, name));
                        } else {
                            assert(u == t);
                        }
                    }
                } else if target(store, name, n - 1) == Some(Some(f)) {
                    assert forall|u: EntityTypeId, g: FieldId|
                        u.0 < n && #[trigger] is_field(store, u, name, g) implies g == f by {
                        if u.0 >= n - 1 {
                            assert(u == t);
                        }
                    }
                }
            },
            None => {
                assert forall|u: EntityTypeId, g: FieldId|
                    u.0 < n && #[trigger] is_field(store, u, name, g) implies u.0 < n - 1 by {
                    if u.0 >= n - 1 {
                        assert(u == t);
                    }
                }
            },
        }
    }
}

proof fn lemma_one_field(store: Store, ty: EntityTypeId, name: Seq<char>, f: FieldId, g: FieldId)
    requires
        is_field(store, ty, name, f),
        is_field(store, ty, name, g),
    ensures
        f == g,
{
    let fs = store.types@[ty.0 as int].fields@;
    if f.0 < g.0 {
        assert(fs[f.0 as int].name@ != name);
    } else if g.0 < f.0 {
        assert(fs[g.0 as int].name@ != name);
    }
}

/// A scope by name watches the cells that the names stand for.
pub proof fn law_scopes_by_name(
    store: Store,
    clock: Clock,
    ty: EntityTypeId,
    f: String,
    g: String,
    t: EntityTypeId,
    a: S,
    b: S,
)
    requires
        store.wf(),
    ensures
        match scope_of(store, clock, ty, S::Own(f)) {
            Ok(Scope::Own(k)) => is_field(store, ty, f@, k),
            Ok(_) => false,
            Err(_) => lacks(store, ty, f@),
        },
        match scope_of(store, clock, ty, S::All(t, f)) {
            Ok(Scope::Type(u, k)) => u == t && is_field(store, t, f@, k),
            Ok(_) => false,
            Err(_) => lacks(store, t, f@),
        },
        match scope_of(store, clock, ty, S::Via(f, g)) {
            Ok(Scope::Inst { ref_field, field }) => is_field(store, ty, f@, ref_field) && exists|
                u: EntityTypeId,
            | #[trigger] is_field(store, u, g@, field),
            Ok(_) => false,
            Err(_) => true,
        },
        scope_of(store, clock, ty, S::EveryFrame) == Ok::<_, NameError>(
            Scope::Type(clock.ty, clock.f_frame),
        ),
        match scope_of(store, clock, ty, S::Or(Box::new(a), Box::new(b))) {
            Ok(Scope::Or(x, y)) => scope_of(store, clock, ty, a) == Ok::<_, NameError>(*x)
                && scope_of(store, clock, ty, b) == Ok::<_, NameError>(*y),
            Ok(_) => false,
            Err(_) => scope_of(store, clock, ty, a) is Err || scope_of(store, clock, ty, b) is Err,
        },
        match scope_of(store, clock, ty, S::And(Box::new(a), Box::new(b))) {
            Ok(Scope::And(x, y)) => scope_of(store, clock, ty, a) == Ok::<_, NameError>(*x)
                && scope_of(store, clock, ty, b) == Ok::<_, NameError>(*y),
            Ok(_) => false,
            Err(_) => scope_of(store, clock, ty, a) is Err || scope_of(store, clock, ty, b) is Err,
        },
{
    law_names_are_found(store, ty, f);
    law_names_are_found(store, t, f);
    law_targets_are_agreed_on(store, g);
    match scope_of(store, clock, ty, S::Via(f, g)) {
        Ok(Scope::Inst { ref_field, field }) => {
            assert(resolve_target(store, g) == Ok::<_, NameError>(field));
            let u = choose|u: EntityTypeId| #[trigger] is_field(store, u, g@, field);
            assert(is_field(store, u, g@, field));
        },
        _ => {},
    }
}

/// An operand by name reads what it names.
pub proof fn law_operands_by_name(
    store: Store,
    ty: EntityTypeId,
    p: Vec<String>,
    f: String,
    v: crate::value::Value,
    env: Env,
)
    requires
        store.wf(),
    ensures
        expr_of(store, ty, E::New(p)) is Ok && expr_value(expr_of(store, ty, E::New(p))->Ok_0, env)
            == env.new.get_path(path_of(p@)),
        expr_of(store, ty, E::Old(p)) is Ok && expr_value(expr_of(store, ty, E::Old(p))->Ok_0, env)
            == env.old.get_path(path_of(p@)),
        expr_of(store, ty, E::Const(v)) is Ok && expr_value(
            expr_of(store, ty, E::Const(v))->Ok_0,
            env,
        ) == v@,
        expr_of(store, ty, E::SelfRef) is Ok && expr_value(
            expr_of(store, ty, E::SelfRef)->Ok_0,
            env,
        ) == Val::Ref(env.sub),
        expr_of(store, ty, E::Writer) is Err,
        match expr_of(store, ty, E::OwnF(f)) {
            Ok(x) => exists|k: FieldId| #[trigger]
                is_field(store, ty, f@, k) && expr_value(x, env) == (env.row)(k),
            Err(_) => lacks(store, ty, f@),
        },
{
    law_names_are_found(store, ty, f);
}

/// Arithmetic by name is the arithmetic of what the operands read, the first on the left.
pub proof fn law_arithmetic_by_name(store: Store, ty: EntityTypeId, a: E, b: E, env: Env)
    requires
        expr_of(store, ty, a) is Ok,
        expr_of(store, ty, b) is Ok,
    ensures
        ({
            let x = expr_value(expr_of(store, ty, a)->Ok_0, env).num();
            let y = expr_value(expr_of(store, ty, b)->Ok_0, env).num();
            let sum = expr_of(store, ty, E::Add(Box::new(a), Box::new(b)));
            let difference = expr_of(store, ty, E::Sub(Box::new(a), Box::new(b)));
            let product = expr_of(store, ty, E::Mul(Box::new(a), Box::new(b)));
            let quotient = expr_of(store, ty, E::Div(Box::new(a), Box::new(b)));
            &&& sum is Ok && difference is Ok && product is Ok && quotient is Ok
            &&& x is Some && y is Some && x->0.finite() && y->0.finite() ==> {
                let s = expr_value(sum->Ok_0, env);
                let d = expr_value(difference->Ok_0, env);
                let p = expr_value(product->Ok_0, env);
                let q = expr_value(quotient->Ok_0, env);
                &&& s is Float && d is Float && p is Float && q is Float
                &&& s->Float_0.finite() ==> sum_of(s->Float_0, x->0, y->0)
                &&& d->Float_0.finite() ==> difference_of(d->Float_0, x->0, y->0)
                &&& p->Float_0.finite() ==> product_of(p->Float_0, x->0, y->0)
                &&& y->0.scaled() != 0 && q->Float_0.finite() ==> quotient_of(
                    q->Float_0,
                    x->0,
                    y->0,
                )
            }
        }),
{
    let x = expr_value(expr_of(store, ty, a)->Ok_0, env).num();
    let y = expr_value(expr_of(store, ty, b)->Ok_0, env).num();
    if x is Some && y is Some && x->0.finite() && y->0.finite() {
        law_arithmetic_is_nearest(x->0, y->0);
        lemma_units_zero(y->0);
    }
}

/// A condition by name holds where what it says of the operands does.
pub proof fn law_conditions_by_name(
    store: Store,
    ty: EntityTypeId,
    a: E,
    op: CmpOp,
    b: E,
    c: C,
    d: C,
    env: Env,
)
    ensures
        expr_of(store, ty, a) is Ok && expr_of(store, ty, b) is Ok ==> {
            let r = cond_of(store, ty, C::Cmp(a, op, b));
            r is Ok && (holds(r->Ok_0, env) <==> compares(
                expr_value(expr_of(store, ty, a)->Ok_0, env),
                op,
                expr_value(expr_of(store, ty, b)->Ok_0, env),
            ))
        },
        expr_of(store, ty, a) is Err || expr_of(store, ty, b) is Err ==> cond_of(
            store,
            ty,
            C::Cmp(a, op, b),
        ) is Err,
        cond_of(store, ty, C::True) is Ok && holds(cond_of(store, ty, C::True)->Ok_0, env),
        cond_of(store, ty, C::Changed) is Ok && (holds(cond_of(store, ty, C::Changed)->Ok_0, env)
            <==> !env.new.equals(env.old)),
        cond_of(store, ty, c) is Ok && cond_of(store, ty, d) is Ok ==> {
            let both = cond_of(store, ty, C::And(Box::new(c), Box::new(d)));
            let either = cond_of(store, ty, C::Or(Box::new(c), Box::new(d)));
            let first = cond_of(store, ty, C::AndNot(Box::new(c), Box::new(d)));
            let x = holds(cond_of(store, ty, c)->Ok_0, env);
            let y = holds(cond_of(store, ty, d)->Ok_0, env);
            &&& both is Ok && (holds(both->Ok_0, env) <==> x && y)
            &&& either is Ok && (holds(either->Ok_0, env) <==> x || y)
            &&& first is Ok && (holds(first->Ok_0, env) <==> x && !y)
        },
        cond_of(store, ty, c) is Err || cond_of(store, ty, d) is Err ==> cond_of(
            store,
            ty,
            C::And(Box::new(c), Box::new(d)),
        ) is Err && cond_of(store, ty, C::Or(Box::new(c), Box::new(d))) is Err && cond_of(
            store,
            ty,
            C::AndNot(Box::new(c), Box::new(d)),
        ) is Err,
{
}

/// An edge by name is an edge of what its threshold reads, and ranges, sets and values are
/// those that are given.
pub proof fn law_edges_by_name(
    store: Store,
    ty: EntityTypeId,
    t: E,
    vs: Vec<crate::value::Value>,
    v: crate::value::Value,
    lo: crate::float64::F64,
    hi: crate::float64::F64,
    env: Env,
)
    requires
        expr_of(store, ty, t) is Ok,
    ensures
        ({
            let up = cond_of(store, ty, C::Crossed(t, crate::predicate::Dir::Up));
            let down = cond_of(store, ty, C::Crossed(t, crate::predicate::Dir::Down));
            let x = expr_value(expr_of(store, ty, t)->Ok_0, env);
            &&& up is Ok && down is Ok
            &&& holds(up->Ok_0, env) <==> compares(env.old, CmpOp::Le, x) && compares(
                env.new,
                CmpOp::Gt,
                x,
            )
            &&& holds(down->Ok_0, env) <==> compares(env.old, CmpOp::Ge, x) && compares(
                env.new,
                CmpOp::Lt,
                x,
            )
        }),
        ({
            let r = cond_of(store, ty, C::Became(v));
            r is Ok && (holds(r->Ok_0, env) <==> env.new.equals(v@) && !env.old.equals(v@))
        }),
        ({
            let r = cond_of(store, ty, C::InSet(vs));
            r is Ok && (holds(r->Ok_0, env) <==> exists|i: int|
                0 <= i < vs@.len() && (#[trigger] vs@[i])@.equals(env.new))
        }),
        ({
            let r = cond_of(store, ty, C::InRange(lo, hi));
            r is Ok && (holds(r->Ok_0, env) <==> env.new.num() is Some && lo.fle(env.new.num()->0)
                && env.new.num()->0.fle(hi))
        }),
{
    let set = crate::predicate::Cond::InSet(vs);
    assert(set->InSet_0 == vs);
    assert(cond_of(store, ty, C::InSet(vs)) == Ok::<_, NameError>(set));
    assert(holds(set, env) <==> exists|i: int|
        0 <= i < vs@.len() && (#[trigger] vs@[i])@.equals(env.new));
}

/// An item by name delivers what it names: the values of the write, the writer, or a field of
/// the subscriber. Nothing else can be delivered.
pub proof fn law_items_by_name(store: Store, ty: EntityTypeId, e: E)
    requires
        store.wf(),
    ensures
        match proj_of(store, ty, e) {
            Ok(Proj::New(p)) => e == E::New(p),
            Ok(Proj::Old(p)) => e == E::Old(p),
            Ok(Proj::WriterId) => e is Writer,
            Ok(Proj::Own(k)) => e is OwnF && is_field(store, ty, e->OwnF_0@, k),
            Ok(Proj::Expr(_)) => false,
            Err(_) => !(e is New || e is Old || e is Writer) && (e is OwnF ==> lacks(
                store,
                ty,
                e->OwnF_0@,
            )),
        },
{
    if e is OwnF {
        law_names_are_found(store, ty, e->OwnF_0);
    }
}

/// Lists of names stand for the lists of what they name, in order, and one that cannot be
/// resolved refuses the whole list.
pub proof fn law_lists_by_name(
    store: Store,
    ty: EntityTypeId,
    es: Seq<E>,
    names: Seq<String>,
    n: int,
)
    requires
        0 <= n <= es.len(),
        n <= names.len(),
    ensures
        match projs_of(store, ty, es, n) {
            Ok(ps) => ps.len() == n && forall|i: int|
                0 <= i < n ==> proj_of(store, ty, #[trigger] es[i]) == Ok::<_, NameError>(ps[i]),
            Err(_) => exists|i: int| 0 <= i < n && proj_of(store, ty, #[trigger] es[i]) is Err,
        },
        match fields_of(store, ty, names, n) {
            Ok(fs) => fs.len() == n && forall|i: int|
                0 <= i < n ==> resolve_name(store, ty, #[trigger] names[i]) == Ok::<_, NameError>(
                    fs[i],
                ),
            Err(_) => exists|i: int|
                0 <= i < n && resolve_name(store, ty, #[trigger] names[i]) is Err,
        },
    decreases n,
{
    if n > 0 {
        law_lists_by_name(store, ty, es, names, n - 1);
        assert(proj_of(store, ty, es[n - 1]) is Ok || proj_of(store, ty, es[n - 1]) is Err);
    }
}

/// What is built stands for its names: it is told of the fields that are named as written and
/// as read, delivers what is named in order, and runs as it was asked to.
pub proof fn law_what_is_built(
    b: CalcBuilder,
    store: Store,
    clock: Clock,
    pred: Predicate,
    writes: Seq<FieldId>,
    opts: CalcOptions,
    k: int,
)
    requires
        store.wf(),
        b.stands_for(store, clock, pred, writes, opts),
    ensures
        writes.len() == b.writes@.len(),
        0 <= k < writes.len() ==> is_field(store, b.ty, b.writes@[k]@, writes[k]),
        opts.tier == b.tier,
        opts.residency == b.residency,
        b.reads is None <==> opts.reads is None,
        b.reads is Some ==> opts.reads->0@.len() == b.reads->0@.len(),
        b.reads is Some && 0 <= k < b.reads->0@.len() ==> is_field(
            store,
            b.ty,
            b.reads->0@[k]@,
            opts.reads->0@[k],
        ),
        pred.delivery is Each && 0 <= k < b.items().len() ==> proj_of(store, b.ty, b.items()[k])
            == Ok::<_, NameError>(pred.delivery->Each_0@[k]),
        pred.delivery is Batch && 0 <= k < b.items().len() ==> proj_of(store, b.ty, b.items()[k])
            == Ok::<_, NameError>(pred.delivery->Batch_0@[k]),
{
    lemma_fields(store, b.ty, b.writes@, b.writes@.len() as int);
    if 0 <= k < writes.len() {
        law_names_are_found(store, b.ty, b.writes@[k]);
    }
    if b.reads is Some {
        lemma_fields(store, b.ty, b.reads->0@, b.reads->0@.len() as int);
        if 0 <= k < b.reads->0@.len() {
            law_names_are_found(store, b.ty, b.reads->0@[k]);
        }
    }
    lemma_projs(store, b.ty, b.items(), b.items().len() as int);
}

proof fn lemma_fields(store: Store, ty: EntityTypeId, names: Seq<String>, n: int)
    requires
        0 <= n <= names.len(),
    ensures
        fields_of(store, ty, names, n) is Ok ==> {
            let fs = fields_of(store, ty, names, n)->Ok_0;
            &&& fs.len() == n
            &&& forall|i: int|
                0 <= i < n ==> resolve_name(store, ty, #[trigger] names[i]) == Ok::<_, NameError>(
                    fs[i],
                )
        },
    decreases n,
{
    if n > 0 {
        lemma_fields(store, ty, names, n - 1);
    }
}

proof fn lemma_projs(store: Store, ty: EntityTypeId, es: Seq<E>, n: int)
    requires
        0 <= n <= es.len(),
    ensures
        projs_of(store, ty, es, n) is Ok ==> {
            let ps = projs_of(store, ty, es, n)->Ok_0;
            &&& ps.len() == n
            &&& forall|i: int|
                0 <= i < n ==> proj_of(store, ty, #[trigger] es[i]) == Ok::<_, NameError>(ps[i])
        },
    decreases n,
{
    if n > 0 {
        lemma_projs(store, ty, es, n - 1);
    }
}

/// Comparisons of operands are comparisons of the numbers that they read, the first on the
/// left.
pub proof fn law_comparisons_by_name(store: Store, ty: EntityTypeId, a: E, b: E, env: Env)
    requires
        expr_of(store, ty, a) is Ok,
        expr_of(store, ty, b) is Ok,
        expr_value(expr_of(store, ty, a)->Ok_0, env).num() is Some,
        expr_value(expr_of(store, ty, b)->Ok_0, env).num() is Some,
        expr_value(expr_of(store, ty, a)->Ok_0, env).num()->0.finite(),
        expr_value(expr_of(store, ty, b)->Ok_0, env).num()->0.finite(),
    ensures
        ({
            let x = expr_value(expr_of(store, ty, a)->Ok_0, env).num()->0.scaled();
            let y = expr_value(expr_of(store, ty, b)->Ok_0, env).num()->0.scaled();
            let holds_of = |c: C| cond_of(store, ty, c) is Ok && holds(
                cond_of(store, ty, c)->Ok_0,
                env,
            );
            &&& holds_of(a.equal_to(b)) <==> x == y
            &&& holds_of(a.unequal_to(b)) <==> x != y
            &&& holds_of(a.less(b)) <==> x < y
            &&& holds_of(a.at_most(b)) <==> x <= y
            &&& holds_of(a.more(b)) <==> x > y
            &&& holds_of(a.at_least(b)) <==> x >= y
        }),
{
    law_comparisons(
        expr_value(expr_of(store, ty, a)->Ok_0, env),
        expr_value(expr_of(store, ty, b)->Ok_0, env),
    );
}

/// Crossings by name are from one side of the threshold to the other, and the connectives
/// are those of what the conditions say.
pub proof fn law_crossings_by_name(store: Store, ty: EntityTypeId, t: E, c: C, d: C, env: Env)
    requires
        expr_of(store, ty, t) is Ok,
        expr_value(expr_of(store, ty, t)->Ok_0, env).num() is Some,
        expr_value(expr_of(store, ty, t)->Ok_0, env).num()->0.finite(),
        env.old.num() is Some && env.old.num()->0.finite(),
        env.new.num() is Some && env.new.num()->0.finite(),
        cond_of(store, ty, c) is Ok,
        cond_of(store, ty, d) is Ok,
    ensures
        ({
            let edge = expr_value(expr_of(store, ty, t)->Ok_0, env).num()->0.scaled();
            let was = env.old.num()->0.scaled();
            let is_now = env.new.num()->0.scaled();
            let holds_of = |c: C| cond_of(store, ty, c) is Ok && holds(
                cond_of(store, ty, c)->Ok_0,
                env,
            );
            &&& holds_of(fallen_below(t)) <==> was >= edge && is_now < edge
            &&& holds_of(risen_above(t)) <==> was <= edge && is_now > edge
            &&& holds_of(c.both(d)) <==> holds_of(c) && holds_of(d)
            &&& holds_of(c.either(d)) <==> holds_of(c) || holds_of(d)
            &&& holds_of(c.but_not(d)) <==> holds_of(c) && !holds_of(d)
        }),
{
    let x = expr_value(expr_of(store, ty, t)->Ok_0, env);
    law_comparisons(env.old, x);
    law_comparisons(env.new, x);
}

/// Sums, differences, products and quotients of operands are those of the numbers that they
/// read, the first on the left.
pub proof fn law_calculations_by_name(store: Store, ty: EntityTypeId, a: E, b: E, env: Env)
    requires
        expr_of(store, ty, a) is Ok,
        expr_of(store, ty, b) is Ok,
        expr_value(expr_of(store, ty, a)->Ok_0, env).num() is Some,
        expr_value(expr_of(store, ty, b)->Ok_0, env).num() is Some,
        expr_value(expr_of(store, ty, a)->Ok_0, env).num()->0.finite(),
        expr_value(expr_of(store, ty, b)->Ok_0, env).num()->0.finite(),
    ensures
        ({
            let x = expr_value(expr_of(store, ty, a)->Ok_0, env).num()->0;
            let y = expr_value(expr_of(store, ty, b)->Ok_0, env).num()->0;
            let value = |e: E| expr_value(expr_of(store, ty, e)->Ok_0, env)->Float_0;
            &&& value(a.plus(b)).finite() ==> sum_of(value(a.plus(b)), x, y)
            &&& value(a.minus(b)).finite() ==> difference_of(value(a.minus(b)), x, y)
            &&& value(a.times(b)).finite() ==> product_of(value(a.times(b)), x, y)
            &&& y.scaled() != 0 && value(a.over(b)).finite() ==> quotient_of(
                value(a.over(b)),
                x,
                y,
            )
        }),
{
    law_arithmetic_by_name(store, ty, a, b, env);
}

}
