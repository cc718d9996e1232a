//! The resolution of names: scopes, operands and conditions by field name become predicates
//! over field numbers.
use crate::dsl::C;
use crate::dsl::E;
use crate::dsl::S;
use crate::entity::EntityTypeId;
use crate::entity::FieldDef;
use crate::entity::FieldId;
use crate::lists::first;
use crate::lists::lemma_first;
use crate::predicate::Cond;
use crate::predicate::Expr;
use crate::predicate::Proj;
use crate::predicate::Scope;
use crate::predicate::ValRef;
use crate::runtime::clock::Clock;
use crate::runtime::store::Store;
use vstd::prelude::*;

verus! {

/// Why a name cannot be resolved.
#[derive(Debug)]
pub enum NameError {
    NoSuchType(EntityTypeId),
    /// The type has no field of this name.
    NoSuchField(EntityTypeId, String),
    /// No type has a field of this name.
    NoSuchTarget(String),
    /// The field of this name has different numbers in different types.
    Ambiguous(String),
    /// The writer cannot stand in a condition.
    WriterInCondition,
    /// Only the written values, the writer, and fields of the subscriber can be delivered.
    NotDeliverable,
}

/// The field has this name.
pub open spec fn named(name: Seq<char>) -> spec_fn(FieldDef) -> bool {
    |f: FieldDef| f.name@ == name
}

/// The first field of a type with this name.
pub open spec fn field_named(store: Store, ty: EntityTypeId, name: Seq<char>) -> Option<FieldId> {
    if store.known(ty) {
        let k = first(store.at(ty).fields@, named(name));
        if k < store.at(ty).fields@.len() {
            Some(FieldId(k as u32))
        } else {
            None
        }
    } else {
        None
    }
}

/// The number of a name, or why there is none.
pub open spec fn resolve_name(store: Store, ty: EntityTypeId, name: String) -> Result<
    FieldId,
    NameError,
> {
    if !store.known(ty) {
        Err(NameError::NoSuchType(ty))
    } else {
        match field_named(store, ty, name@) {
            Some(f) => Ok(f),
            None => Err(NameError::NoSuchField(ty, name)),
        }
    }
}

fn find_name(store: &Store, ty: EntityTypeId, name: &String) -> (r: Option<FieldId>)
    requires
        store.wf(),
        store.known(ty),
    ensures
        r == field_named(*store, ty, name@),
{
    let r = store.try_field(ty, name);
    proof {
        let fs = store.at(ty).fields@;
        match r {
            Some(f) => {
                lemma_first(fs, named(name@), f.0 as int);
            },
            None => {
                lemma_first(fs, named(name@), fs.len() as int);
            },
        }
    }
    r
}

/// Resolves a name against a type.
pub fn field_by_name(store: &Store, ty: EntityTypeId, name: String) -> (r: Result<
    FieldId,
    NameError,
>)
    requires
        store.wf(),
    ensures
        r == resolve_name(*store, ty, name),
{
    if ty.0 as usize >= store.types.len() {
        return Err(NameError::NoSuchType(ty));
    }
    match find_name(store, ty, &name) {
        Some(f) => Ok(f),
        None => Err(NameError::NoSuchField(ty, name)),
    }
}

/// The numbers that a name has in the first `n` types: none, one, or several.
pub open spec fn target(store: Store, name: Seq<char>, n: int) -> Option<Option<FieldId>>
    decreases n,
{
    if n <= 0 {
        None
    } else {
        match (
            target(store, name, n - 1),
            field_named(store, EntityTypeId((n - 1) as u32), name),
        ) {
            (None, None) => None,
            (None, Some(f)) => Some(Some(f)),
            (Some(t), None) => Some(t),
            (Some(Some(g)), Some(f)) => if f == g {
                Some(Some(g))
            } else {
                Some(None)
            },
            (Some(None), Some(f)) => Some(None),
        }
    }
}

/// The number of a name in whatever type a reference points to: the types that have the name
/// must agree on it.
pub open spec fn resolve_target(store: Store, name: String) -> Result<FieldId, NameError> {
    match target(store, name@, store.types@.len() as int) {
        None => Err(NameError::NoSuchTarget(name)),
        Some(None) => Err(NameError::Ambiguous(name)),
        Some(Some(f)) => Ok(f),
    }
}

pub fn resolve_target_field(store: &Store, name: String) -> (r: Result<FieldId, NameError>)
    requires
        store.wf(),
    ensures
        r == resolve_target(*store, name),
{
    let mut found: Option<Option<FieldId>> = None;
    let mut t: usize = 0;
    while t < store.types.len()
        invariant
            store.wf(),
            store.types@.len() <= u32::MAX,
            t <= store.types@.len(),
            found == target(*store, name@, t as int),
        decreases store.types@.len() - t,
    {
        if let Some(f) = find_name(store, EntityTypeId(t as u32), &name) {
            found = match found {
                None => Some(Some(f)),
                Some(Some(g)) => if f == g {
                    Some(Some(g))
                } else {
                    Some(None)
                },
                Some(None) => Some(None),
            };
        }
        t = t + 1;
    }
    match found {
        None => Err(NameError::NoSuchTarget(name)),
        Some(None) => Err(NameError::Ambiguous(name)),
        Some(Some(f)) => Ok(f),
    }
}

/// A scope over field numbers, or the first name that cannot be resolved.
pub open spec fn scope_of(store: Store, clock: Clock, ty: EntityTypeId, s: S) -> Result<
    Scope,
    NameError,
>
    decreases s,
{
    match s {
        S::Own(f) => match resolve_name(store, ty, f) {
            Ok(f) => Ok(Scope::Own(f)),
            Err(e) => Err(e),
        },
        S::Via(rf, f) => match resolve_name(store, ty, rf) {
            Ok(ref_field) => match resolve_target(store, f) {
                Ok(field) => Ok(Scope::Inst { ref_field, field }),
                Err(e) => Err(e),
            },
            Err(e) => Err(e),
        },
        S::All(t, f) => match resolve_name(store, t, f) {
            Ok(f) => Ok(Scope::Type(t, f)),
            Err(e) => Err(e),
        },
        S::EveryFrame => Ok(Scope::Type(clock.ty, clock.f_frame)),
        S::Or(a, b) => match scope_of(store, clock, ty, *a) {
            Ok(x) => match scope_of(store, clock, ty, *b) {
                Ok(y) => Ok(Scope::Or(Box::new(x), Box::new(y))),
                Err(e) => Err(e),
            },
            Err(e) => Err(e),
        },
        S::And(a, b) => match scope_of(store, clock, ty, *a) {
            Ok(x) => match scope_of(store, clock, ty, *b) {
                Ok(y) => Ok(Scope::And(Box::new(x), Box::new(y))),
                Err(e) => Err(e),
            },
            Err(e) => Err(e),
        },
    }
}

pub fn resolve_scope(store: &Store, clock: &Clock, ty: EntityTypeId, s: S) -> (r: Result<
    Scope,
    NameError,
>)
    requires
        store.wf(),
    ensures
        r == scope_of(*store, *clock, ty, s),
    decreases s,
{
    match s {
        S::Own(f) => match field_by_name(store, ty, f) {
            Ok(f) => Ok(Scope::Own(f)),
            Err(e) => Err(e),
        },
        S::Via(rf, f) => match field_by_name(store, ty, rf) {
            Ok(ref_field) => match resolve_target_field(store, f) {
                Ok(field) => Ok(Scope::Inst { ref_field, field }),
                Err(e) => Err(e),
            },
            Err(e) => Err(e),
        },
        S::All(t, f) => match field_by_name(store, t, f) {
            Ok(f) => Ok(Scope::Type(t, f)),
            Err(e) => Err(e),
        },
        S::EveryFrame => Ok(Scope::Type(clock.ty, clock.f_frame)),
        S::Or(a, b) => match resolve_scope(store, clock, ty, *a) {
            Ok(x) => match resolve_scope(store, clock, ty, *b) {
                Ok(y) => Ok(Scope::Or(Box::new(x), Box::new(y))),
                Err(e) => Err(e),
            },
            Err(e) => Err(e),
        },
        S::And(a, b) => match resolve_scope(store, clock, ty, *a) {
            Ok(x) => match resolve_scope(store, clock, ty, *b) {
                Ok(y) => Ok(Scope::And(Box::new(x), Box::new(y))),
                Err(e) => Err(e),
            },
            Err(e) => Err(e),
        },
    }
}

/// An operand over field numbers.
pub open spec fn expr_of(store: Store, ty: EntityTypeId, e: E) -> Result<Expr, NameError>
    decreases e,
{
    match e {
        E::New(p) => Ok(Expr::Val(ValRef::New(p))),
        E::Old(p) => Ok(Expr::Val(ValRef::Old(p))),
        E::OwnF(f) => match resolve_name(store, ty, f) {
            Ok(f) => Ok(Expr::Val(ValRef::Own(f))),
            Err(e) => Err(e),
        },
        E::Const(v) => Ok(Expr::Val(ValRef::Const(v))),
        E::SelfRef => Ok(Expr::Val(ValRef::SelfRef)),
        E::Writer => Err(NameError::WriterInCondition),
        E::Add(a, b) => match (expr_of(store, ty, *a), expr_of(store, ty, *b)) {
            (Ok(x), Ok(y)) => Ok(Expr::Add(Box::new(x), Box::new(y))),
            (Err(e), _) => Err(e),
            (_, Err(e)) => Err(e),
        },
        E::Sub(a, b) => match (expr_of(store, ty, *a), expr_of(store, ty, *b)) {
            (Ok(x), Ok(y)) => Ok(Expr::Sub(Box::new(x), Box::new(y))),
            (Err(e), _) => Err(e),
            (_, Err(e)) => Err(e),
        },
        E::Mul(a, b) => match (expr_of(store, ty, *a), expr_of(store, ty, *b)) {
            (Ok(x), Ok(y)) => Ok(Expr::Mul(Box::new(x), Box::new(y))),
            (Err(e), _) => Err(e),
            (_, Err(e)) => Err(e),
        },
        E::Div(a, b) => match (expr_of(store, ty, *a), expr_of(store, ty, *b)) {
            (Ok(x), Ok(y)) => Ok(Expr::Div(Box::new(x), Box::new(y))),
            (Err(e), _) => Err(e),
            (_, Err(e)) => Err(e),
        },
    }
}

pub fn resolve_expr(store: &Store, ty: EntityTypeId, e: E) -> (r: Result<Expr, NameError>)
    requires
        store.wf(),
    ensures
        r == expr_of(*store, ty, e),
    decreases e,
{
    match e {
        E::New(p) => Ok(Expr::Val(ValRef::New(p))),
        E::Old(p) => Ok(Expr::Val(ValRef::Old(p))),
        E::OwnF(f) => match field_by_name(store, ty, f) {
            Ok(f) => Ok(Expr::Val(ValRef::Own(f))),
            Err(e) => Err(e),
        },
        E::Const(v) => Ok(Expr::Val(ValRef::Const(v))),
        E::SelfRef => Ok(Expr::Val(ValRef::SelfRef)),
        E::Writer => Err(NameError::WriterInCondition),
        E::Add(a, b) => match (resolve_expr(store, ty, *a), resolve_expr(store, ty, *b)) {
            (Ok(x), Ok(y)) => Ok(Expr::Add(Box::new(x), Box::new(y))),
            (Err(e), _) => Err(e),
            (_, Err(e)) => Err(e),
        },
        E::Sub(a, b) => match (resolve_expr(store, ty, *a), resolve_expr(store, ty, *b)) {
            (Ok(x), Ok(y)) => Ok(Expr::Sub(Box::new(x), Box::new(y))),
            (Err(e), _) => Err(e),
            (_, Err(e)) => Err(e),
        },
        E::Mul(a, b) => match (resolve_expr(store, ty, *a), resolve_expr(store, ty, *b)) {
            (Ok(x), Ok(y)) => Ok(Expr::Mul(Box::new(x), Box::new(y))),
            (Err(e), _) => Err(e),
            (_, Err(e)) => Err(e),
        },
        E::Div(a, b) => match (resolve_expr(store, ty, *a), resolve_expr(store, ty, *b)) {
            (Ok(x), Ok(y)) => Ok(Expr::Div(Box::new(x), Box::new(y))),
            (Err(e), _) => Err(e),
            (_, Err(e)) => Err(e),
        },
    }
}

/// A condition over field numbers.
pub open spec fn cond_of(store: Store, ty: EntityTypeId, c: C) -> Result<Cond, NameError>
    decreases c,
{
    match c {
        C::True => Ok(Cond::True),
        C::Cmp(a, op, b) => match (expr_of(store, ty, a), expr_of(store, ty, b)) {
            (Ok(x), Ok(y)) => Ok(Cond::Cmp(x, op, y)),
            (Err(e), _) => Err(e),
            (_, Err(e)) => Err(e),
        },
        C::InRange(a, b) => Ok(Cond::InRange(a, b)),
        C::InSet(vs) => Ok(Cond::InSet(vs)),
        C::Changed => Ok(Cond::Changed),
        C::Became(v) => Ok(Cond::Became(v)),
        C::Crossed(t, d) => match expr_of(store, ty, t) {
            Ok(x) => Ok(Cond::Crossed(x, d)),
            Err(e) => Err(e),
        },
        C::And(a, b) => match (cond_of(store, ty, *a), cond_of(store, ty, *b)) {
            (Ok(x), Ok(y)) => Ok(Cond::And(Box::new(x), Box::new(y))),
            (Err(e), _) => Err(e),
            (_, Err(e)) => Err(e),
        },
        C::Or(a, b) => match (cond_of(store, ty, *a), cond_of(store, ty, *b)) {
            (Ok(x), Ok(y)) => Ok(Cond::Or(Box::new(x), Box::new(y))),
            (Err(e), _) => Err(e),
            (_, Err(e)) => Err(e),
        },
        C::AndNot(a, b) => match (cond_of(store, ty, *a), cond_of(store, ty, *b)) {
            (Ok(x), Ok(y)) => Ok(Cond::AndNot(Box::new(x), Box::new(y))),
            (Err(e), _) => Err(e),
            (_, Err(e)) => Err(e),
        },
    }
}

pub fn resolve_cond(store: &Store, ty: EntityTypeId, c: C) -> (r: Result<Cond, NameError>)
    requires
        store.wf(),
    ensures
        r == cond_of(*store, ty, c),
    decreases c,
{
    match c {
        C::True => Ok(Cond::True),
        C::Cmp(a, op, b) => match (resolve_expr(store, ty, a), resolve_expr(store, ty, b)) {
            (Ok(x), Ok(y)) => Ok(Cond::Cmp(x, op, y)),
            (Err(e), _) => Err(e),
            (_, Err(e)) => Err(e),
        },
        C::InRange(a, b) => Ok(Cond::InRange(a, b)),
        C::InSet(vs) => Ok(Cond::InSet(vs)),
        C::Changed => Ok(Cond::Changed),
        C::Became(v) => Ok(Cond::Became(v)),
        C::Crossed(t, d) => match resolve_expr(store, ty, t) {
            Ok(x) => Ok(Cond::Crossed(x, d)),
            Err(e) => Err(e),
        },
        C::And(a, b) => match (resolve_cond(store, ty, *a), resolve_cond(store, ty, *b)) {
            (Ok(x), Ok(y)) => Ok(Cond::And(Box::new(x), Box::new(y))),
            (Err(e), _) => Err(e),
            (_, Err(e)) => Err(e),
        },
        C::Or(a, b) => match (resolve_cond(store, ty, *a), resolve_cond(store, ty, *b)) {
            (Ok(x), Ok(y)) => Ok(Cond::Or(Box::new(x), Box::new(y))),
            (Err(e), _) => Err(e),
            (_, Err(e)) => Err(e),
        },
        C::AndNot(a, b) => match (resolve_cond(store, ty, *a), resolve_cond(store, ty, *b)) {
            (Ok(x), Ok(y)) => Ok(Cond::AndNot(Box::new(x), Box::new(y))),
            (Err(e), _) => Err(e),
            (_, Err(e)) => Err(e),
        },
    }
}

/// An item of a delivery over field numbers.
pub open spec fn proj_of(store: Store, ty: EntityTypeId, e: E) -> Result<Proj, NameError> {
    match e {
        E::New(p) => Ok(Proj::New(p)),
        E::Old(p) => Ok(Proj::Old(p)),
        E::Writer => Ok(Proj::WriterId),
        E::OwnF(f) => match resolve_name(store, ty, f) {
            Ok(f) => Ok(Proj::Own(f)),
            Err(e) => Err(e),
        },
        _ => Err(NameError::NotDeliverable),
    }
}

fn resolve_proj(store: &Store, ty: EntityTypeId, e: E) -> (r: Result<Proj, NameError>)
    requires
        store.wf(),
    ensures
        r == proj_of(*store, ty, e),
{
    match e {
        E::New(p) => Ok(Proj::New(p)),
        E::Old(p) => Ok(Proj::Old(p)),
        E::Writer => Ok(Proj::WriterId),
        E::OwnF(f) => match field_by_name(store, ty, f) {
            Ok(f) => Ok(Proj::Own(f)),
            Err(e) => Err(e),
        },
        _ => Err(NameError::NotDeliverable),
    }
}

/// The first `n` items of a delivery over field numbers, or the first error.
pub open spec fn projs_of(store: Store, ty: EntityTypeId, es: Seq<E>, n: int) -> Result<
    Seq<Proj>,
    NameError,
>
    decreases n,
{
    if n <= 0 {
        Ok(Seq::empty())
    } else {
        match projs_of(store, ty, es, n - 1) {
            Ok(ps) => match proj_of(store, ty, es[n - 1]) {
                Ok(p) => Ok(ps.push(p)),
                Err(e) => Err(e),
            },
            Err(e) => Err(e),
        }
    }
}

/// The first error stands.
proof fn lemma_projs_stuck(store: Store, ty: EntityTypeId, es: Seq<E>, k: int, n: int)
    requires
        k <= n,
        projs_of(store, ty, es, k) is Err,
    ensures
        projs_of(store, ty, es, n) == projs_of(store, ty, es, k),
    decreases n - k,
{
    if k < n {
        lemma_projs_stuck(store, ty, es, k, n - 1);
    }
}

pub fn resolve_projs(store: &Store, ty: EntityTypeId, es: Vec<E>) -> (r: Result<
    Vec<Proj>,
    NameError,
>)
    requires
        store.wf(),
    ensures
        match projs_of(*store, ty, es@, es@.len() as int) {
            Ok(ps) => r is Ok && r->Ok_0@ == ps,
            Err(e) => r == Err::<Vec<Proj>, NameError>(e),
        },
{
    let ghost all = es@;
    let mut rest = es;
    let n = rest.len();
    let mut out: Vec<Proj> = Vec::new();
    let mut i: usize = 0;
    while i < n
        invariant
            store.wf(),
            n == rest@.len() == all.len(),
            i <= n,
            forall|j: int| i <= j < n ==> #[trigger] rest@[j] == all[j],
            all == es@,
            projs_of(*store, ty, all, i as int) is Ok,
            projs_of(*store, ty, all, i as int)->Ok_0 == out@,
        decreases n - i,
    {
        let mut e = E::SelfRef;
        core::mem::swap(&mut e, &mut rest[i]);
        assert(e == all[i as int]);
        match resolve_proj(store, ty, e) {
            Ok(p) => {
                out.push(p);
            },
            Err(err) => {
                proof {
                    lemma_projs_stuck(*store, ty, all, i + 1, n as int);
                }
                return Err(err);
            },
        }
        i = i + 1;
    }
    Ok(out)
}

/// The first `n` fields of some names, or the first error.
pub open spec fn fields_of(store: Store, ty: EntityTypeId, names: Seq<String>, n: int) -> Result<
    Seq<FieldId>,
    NameError,
>
    decreases n,
{
    if n <= 0 {
        Ok(Seq::empty())
    } else {
        match fields_of(store, ty, names, n - 1) {
            Ok(fs) => match resolve_name(store, ty, names[n - 1]) {
                Ok(f) => Ok(fs.push(f)),
                Err(e) => Err(e),
            },
            Err(e) => Err(e),
        }
    }
}

proof fn lemma_fields_stuck(store: Store, ty: EntityTypeId, names: Seq<String>, k: int, n: int)
    requires
        k <= n,
        fields_of(store, ty, names, k) is Err,
    ensures
        fields_of(store, ty, names, n) == fields_of(store, ty, names, k),
    decreases n - k,
{
    if k < n {
        lemma_fields_stuck(store, ty, names, k, n - 1);
    }
}

pub fn resolve_fields(store: &Store, ty: EntityTypeId, names: Vec<String>) -> (r: Result<
    Vec<FieldId>,
    NameError,
>)
    requires
        store.wf(),
    ensures
        match fields_of(*store, ty, names@, names@.len() as int) {
            Ok(fs) => r is Ok && r->Ok_0@ == fs,
            Err(e) => r == Err::<Vec<FieldId>, NameError>(e),
        },
{
    let ghost all = names@;
    let mut rest = names;
    let n = rest.len();
    let mut out: Vec<FieldId> = Vec::new();
    let mut i: usize = 0;
    while i < n
        invariant
            store.wf(),
            n == rest@.len() == all.len(),
            i <= n,
            forall|j: int| i <= j < n ==> #[trigger] rest@[j] == all[j],
            all == names@,
            fields_of(*store, ty, all, i as int) is Ok,
            fields_of(*store, ty, all, i as int)->Ok_0 == out@,
        decreases n - i,
    {
        let mut name = String::new();
        core::mem::swap(&mut name, &mut rest[i]);
        assert(name == all[i as int]);
        match field_by_name(store, ty, name) {
            Ok(f) => {
                out.push(f);
            },
            Err(err) => {
                proof {
                    lemma_fields_stuck(*store, ty, all, i + 1, n as int);
                }
                return Err(err);
            },
        }
        i = i + 1;
    }
    Ok(out)
}

}
