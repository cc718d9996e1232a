//! Builders: types and calculations declared by name, step by step.
use crate::calculation::CalcId;
use crate::calculation::Ctx;
use crate::calculation::Input;
use crate::dsl::C;
use crate::dsl::E;
use crate::dsl::S;
use crate::dsl_resolve::cond_of;
use crate::dsl_resolve::fields_of;
use crate::dsl_resolve::projs_of;
use crate::dsl_resolve::resolve_cond;
use crate::dsl_resolve::resolve_fields;
use crate::dsl_resolve::resolve_projs;
use crate::dsl_resolve::resolve_scope;
use crate::dsl_resolve::scope_of;
use crate::dsl_resolve::NameError;
use crate::entity::EntityTypeId;
use crate::entity::FieldDef;
use crate::entity::FieldId;
use crate::predicate::Delivery;
use crate::predicate::FoldOp;
use crate::predicate::Predicate;
use crate::runtime::clock::Clock;
use crate::runtime::engine::Runtime;
use crate::runtime::registry::register_error;
use crate::runtime::registry::RegisterError;
use crate::runtime::store::RowPolicy;
use crate::runtime::store::Store;
use crate::runtime::CalcOptions;
use crate::runtime::Residency;
use crate::runtime::Tier;
use crate::value::Value;
use vstd::prelude::*;

verus! {

/// A type to be registered.
pub struct EntityBuilder {
    pub name: String,
    pub fields: Vec<FieldDef>,
    pub singleton: bool,
    pub policy: RowPolicy,
}

impl EntityBuilder {
    /// A field with its default.
    pub fn field(self, name: &str, default: Value) -> (r: EntityBuilder)
        ensures
            r == (EntityBuilder { fields: r.fields, ..self }),
            r.fields@.len() == self.fields@.len() + 1,
            r.fields@.drop_last() == self.fields@,
            r.fields@.last().name@ == name@,
            !r.fields@.last().is_ref,
            r.fields@.last().default == default,
    {
        let mut b = self;
        b.fields.push(FieldDef::new(name, default));
        assert(b.fields@.drop_last() =~= self.fields@);
        b
    }

    /// A reference to an instance: null once that instance dies.
    pub fn ref_field(self, name: &str) -> (r: EntityBuilder)
        ensures
            r == (EntityBuilder { fields: r.fields, ..self }),
            r.fields@.len() == self.fields@.len() + 1,
            r.fields@.drop_last() == self.fields@,
            r.fields@.last().name@ == name@,
            r.fields@.last().is_ref,
            r.fields@.last().default == Value::Null,
    {
        let mut b = self;
        b.fields.push(FieldDef::reference(name));
        assert(b.fields@.drop_last() =~= self.fields@);
        b
    }

    /// A type with one instance, made at registration.
    pub fn singleton(self) -> (r: EntityBuilder)
        ensures
            r == (EntityBuilder { singleton: true, ..self }),
    {
        EntityBuilder { singleton: true, ..self }
    }

    /// Rows stay dense: the last one moves into a hole.
    pub fn compact(self) -> (r: EntityBuilder)
        ensures
            r == (EntityBuilder { policy: RowPolicy::Compact, ..self }),
    {
        EntityBuilder { policy: RowPolicy::Compact, ..self }
    }

    /// Registers the type.
    pub fn done<F: for<'a, 'b, 'c> Fn(&'a mut Ctx<'b>, &'c Input)>(self, rt: &mut Runtime<F>) -> (r:
        EntityTypeId)
        requires
            old(rt).wf(),
            old(rt).store.types@.len() < u32::MAX,
            self.fields@.len() < u32::MAX,
        ensures
            final(rt).wf(),
            final(rt).same_setup(*old(rt)),
            final(rt).type_registered(
                *old(rt),
                self.name@,
                self.fields@,
                self.singleton,
                self.policy,
                r,
            ),
    {
        rt.register_entity_type_with(
            self.name.as_str(),
            self.fields,
            self.singleton,
            self.policy,
        )
    }
}

/// What is delivered, by field name.
pub enum Dv {
    Each(Vec<E>),
    Batch(Vec<E>),
    Fold(FoldOp),
}

/// Why a calculation cannot be registered.
#[derive(Debug)]
pub enum BuildError {
    /// It watches nothing.
    NoScope,
    Name(NameError),
    Register(RegisterError),
}

/// A calculation to be registered. Without a condition every write triggers, and without a
/// delivery each hit is delivered with nothing.
pub struct CalcBuilder {
    pub name: String,
    pub ty: EntityTypeId,
    pub scope: Option<S>,
    pub cond: C,
    pub delivery: Dv,
    pub writes: Vec<String>,
    pub reads: Option<Vec<String>>,
    pub tier: Tier,
    pub residency: Residency,
}

/// Names as texts.
pub open spec fn texts_of(names: Seq<&str>) -> Seq<Seq<char>> {
    Seq::new(names.len(), |i: int| names[i]@)
}

pub open spec fn strings_of(names: Seq<String>) -> Seq<Seq<char>> {
    Seq::new(names.len(), |i: int| names[i]@)
}

fn to_strings(names: &[&str]) -> (r: Vec<String>)
    ensures
        strings_of(r@) == texts_of(names@),
{
    let mut out: Vec<String> = Vec::new();
    let mut i: usize = 0;
    while i < names.len()
        invariant
            i <= names@.len(),
            out@.len() == i,
            forall|j: int| 0 <= j < i ==> (#[trigger] out@[j])@ == names@[j]@,
        decreases names@.len() - i,
    {
        out.push(names[i].to_string());
        i = i + 1;
    }
    assert(strings_of(out@) =~= texts_of(names@));
    out
}

impl CalcBuilder {
    /// What is watched.
    pub fn on(self, scope: S) -> (r: CalcBuilder)
        ensures
            r == (CalcBuilder { scope: Some(scope), ..self }),
    {
        CalcBuilder { scope: Some(scope), ..self }
    }

    /// Which writes matter.
    pub fn when(self, cond: C) -> (r: CalcBuilder)
        ensures
            r == (CalcBuilder { cond, ..self }),
    {
        CalcBuilder { cond, ..self }
    }

    /// Every hit triggers once.
    pub fn each(self, projs: Vec<E>) -> (r: CalcBuilder)
        ensures
            r == (CalcBuilder { delivery: Dv::Each(projs), ..self }),
    {
        CalcBuilder { delivery: Dv::Each(projs), ..self }
    }

    /// The hits of a frame come as one batch.
    pub fn batch(self, projs: Vec<E>) -> (r: CalcBuilder)
        ensures
            r == (CalcBuilder { delivery: Dv::Batch(projs), ..self }),
    {
        CalcBuilder { delivery: Dv::Batch(projs), ..self }
    }

    pub fn fold_sum(self) -> (r: CalcBuilder)
        ensures
            r == (CalcBuilder { delivery: Dv::Fold(FoldOp::Sum), ..self }),
    {
        CalcBuilder { delivery: Dv::Fold(FoldOp::Sum), ..self }
    }

    pub fn fold_count(self) -> (r: CalcBuilder)
        ensures
            r == (CalcBuilder { delivery: Dv::Fold(FoldOp::Count), ..self }),
    {
        CalcBuilder { delivery: Dv::Fold(FoldOp::Count), ..self }
    }

    pub fn fold_min(self) -> (r: CalcBuilder)
        ensures
            r == (CalcBuilder { delivery: Dv::Fold(FoldOp::Min), ..self }),
    {
        CalcBuilder { delivery: Dv::Fold(FoldOp::Min), ..self }
    }

    pub fn fold_max(self) -> (r: CalcBuilder)
        ensures
            r == (CalcBuilder { delivery: Dv::Fold(FoldOp::Max), ..self }),
    {
        CalcBuilder { delivery: Dv::Fold(FoldOp::Max), ..self }
    }

    /// The fields that it writes.
    pub fn writes(self, fields: &[&str]) -> (r: CalcBuilder)
        ensures
            r == (CalcBuilder { writes: r.writes, ..self }),
            strings_of(r.writes@) == texts_of(fields@),
    {
        let writes = to_strings(fields);
        CalcBuilder { writes, ..self }
    }

    /// The fields of its own instance that it reads.
    pub fn reads(self, fields: &[&str]) -> (r: CalcBuilder)
        ensures
            r == (CalcBuilder { reads: r.reads, ..self }),
            r.reads is Some,
            strings_of(r.reads->0@) == texts_of(fields@),
    {
        let reads = Some(to_strings(fields));
        CalcBuilder { reads, ..self }
    }

    pub fn tier(self, t: Tier) -> (r: CalcBuilder)
        ensures
            r == (CalcBuilder { tier: t, ..self }),
    {
        CalcBuilder { tier: t, ..self }
    }

    pub fn residency(self, x: Residency) -> (r: CalcBuilder)
        ensures
            r == (CalcBuilder { residency: x, ..self }),
    {
        CalcBuilder { residency: x, ..self }
    }

    /// The names that the delivery uses.
    pub open spec fn items(self) -> Seq<E> {
        match self.delivery {
            Dv::Each(es) => es@,
            Dv::Batch(es) => es@,
            Dv::Fold(_) => Seq::empty(),
        }
    }

    /// What cannot be resolved first: scope, condition, delivery, writes, reads.
    pub open spec fn unresolved(self, store: Store, clock: Clock) -> Option<BuildError> {
        match self.scope {
            None => Some(BuildError::NoScope),
            Some(s) => match scope_of(store, clock, self.ty, s) {
                Err(e) => Some(BuildError::Name(e)),
                Ok(_) => match cond_of(store, self.ty, self.cond) {
                    Err(e) => Some(BuildError::Name(e)),
                    Ok(_) => match projs_of(
                        store,
                        self.ty,
                        self.items(),
                        self.items().len() as int,
                    ) {
                        Err(e) => Some(BuildError::Name(e)),
                        Ok(_) => match fields_of(
                            store,
                            self.ty,
                            self.writes@,
                            self.writes@.len() as int,
                        ) {
                            Err(e) => Some(BuildError::Name(e)),
                            Ok(_) => match self.reads {
                                None => None,
                                Some(ns) => match fields_of(
                                    store,
                                    self.ty,
                                    ns@,
                                    ns@.len() as int,
                                ) {
                                    Err(e) => Some(BuildError::Name(e)),
                                    Ok(_) => None,
                                },
                            },
                        },
                    },
                },
            },
        }
    }

    /// The predicate, the writes and the options are what the names stand for.
    pub open spec fn stands_for(
        self,
        store: Store,
        clock: Clock,
        pred: Predicate,
        writes: Seq<FieldId>,
        opts: CalcOptions,
    ) -> bool {
        let n = self.items().len() as int;
        &&& self.scope is Some
        &&& scope_of(store, clock, self.ty, self.scope->0) == Ok::<_, NameError>(pred.scope)
        &&& cond_of(store, self.ty, self.cond) == Ok::<_, NameError>(pred.cond)
        &&& match (self.delivery, pred.delivery) {
            (Dv::Each(_), Delivery::Each(ps)) => projs_of(store, self.ty, self.items(), n) == Ok::<
                _,
                NameError,
            >(ps@),
            (Dv::Batch(_), Delivery::Batch(ps)) => projs_of(store, self.ty, self.items(), n)
                == Ok::<_, NameError>(ps@),
            (Dv::Fold(a), Delivery::Fold(b)) => a == b,
            _ => false,
        }
        &&& fields_of(store, self.ty, self.writes@, self.writes@.len() as int) == Ok::<
            _,
            NameError,
        >(writes)
        &&& match (self.reads, opts.reads) {
            (None, None) => true,
            (Some(ns), Some(fs)) => fields_of(store, self.ty, ns@, ns@.len() as int) == Ok::<
                _,
                NameError,
            >(fs@),
            _ => false,
        }
        &&& opts.tier == self.tier
        &&& opts.residency == self.residency
    }

    /// Resolves the names and registers the calculation. A refusal leaves the runtime as it
    /// was.
    pub fn body<F: for<'a, 'b, 'c> Fn(&'a mut Ctx<'b>, &'c Input)>(
        self,
        rt: &mut Runtime<F>,
        f: F,
    ) -> (r: Result<CalcId, BuildError>)
        requires
            old(rt).wf(),
        ensures
            final(rt).wf(),
            match self.unresolved(old(rt).store, old(rt).clock) {
                Some(e) => r == Err::<CalcId, BuildError>(e) && *final(rt) == *old(rt),
                None => exists|pred: Predicate, writes: Seq<FieldId>, opts: CalcOptions|
                    {
                        &&& #[trigger] self.stands_for(
                            old(rt).store,
                            old(rt).clock,
                            pred,
                            writes,
                            opts,
                        )
                        &&& match register_error(
                            old(rt).store,
                            old(rt).owners@,
                            old(rt).clock,
                            old(rt).infos@.len(),
                            self.ty,
                            pred,
                            writes,
                        ) {
                            Some(e) => r == Err::<CalcId, BuildError>(BuildError::Register(e))
                                && *final(rt) == *old(rt),
                            None => r is Ok && final(rt).calc_registered(
                                *old(rt),
                                self.name@,
                                self.ty,
                                pred,
                                writes,
                                opts,
                                f,
                                r->Ok_0,
                            ),
                        }
                    },
            },
    {
        let ghost b = self;
        let ty = self.ty;
        let s = match self.scope {
            Some(s) => s,
            None => {
                return Err(BuildError::NoScope);
            },
        };
        let scope = match resolve_scope(&rt.store, &rt.clock, ty, s) {
            Ok(x) => x,
            Err(e) => {
                return Err(BuildError::Name(e));
            },
        };
        let cond = match resolve_cond(&rt.store, ty, self.cond) {
            Ok(x) => x,
            Err(e) => {
                return Err(BuildError::Name(e));
            },
        };
        let delivery = match self.delivery {
            Dv::Each(es) => match resolve_projs(&rt.store, ty, es) {
                Ok(ps) => Delivery::Each(ps),
                Err(e) => {
                    return Err(BuildError::Name(e));
                },
            },
            Dv::Batch(es) => match resolve_projs(&rt.store, ty, es) {
                Ok(ps) => Delivery::Batch(ps),
                Err(e) => {
                    return Err(BuildError::Name(e));
                },
            },
            Dv::Fold(op) => Delivery::Fold(op),
        };
        let writes = match resolve_fields(&rt.store, ty, self.writes) {
            Ok(x) => x,
            Err(e) => {
                return Err(BuildError::Name(e));
            },
        };
        let reads = match self.reads {
            Some(ns) => match resolve_fields(&rt.store, ty, ns) {
                Ok(x) => Some(x),
                Err(e) => {
                    return Err(BuildError::Name(e));
                },
            },
            None => None,
        };
        let opts = CalcOptions { reads, tier: self.tier, residency: self.residency };
        let pred = Predicate::new(scope, cond, delivery);
        assert(b.stands_for(rt.store, rt.clock, pred, writes@, opts));
        match rt.register_calculation_opt(self.name.as_str(), ty, pred, &writes, opts, f) {
            Ok(id) => Ok(id),
            Err(e) => Err(BuildError::Register(e)),
        }
    }
}

impl<F: for<'a, 'b, 'c> Fn(&'a mut Ctx<'b>, &'c Input)> Runtime<F> {
    /// Starts the declaration of a type.
    pub fn entity(&self, name: &str) -> (r: EntityBuilder)
        ensures
            r.name@ == name@,
            r.fields@.len() == 0,
            !r.singleton,
            r.policy == RowPolicy::Stable,
    {
        EntityBuilder {
            name: name.to_string(),
            fields: Vec::new(),
            singleton: false,
            policy: RowPolicy::Stable,
        }
    }

    /// Starts the declaration of a calculation of a type.
    pub fn calc(&self, name: &str, ty: EntityTypeId) -> (r: CalcBuilder)
        ensures
            r.name@ == name@,
            r.ty == ty,
            r.scope is None,
            r.cond == C::True,
            r.delivery is Each,
            r.items().len() == 0,
            r.writes@.len() == 0,
            r.reads is None,
            r.tier == Tier::General,
            r.residency == Residency::Auto,
    {
        CalcBuilder {
            name: name.to_string(),
            ty,
            scope: None,
            cond: C::True,
            delivery: Dv::Each(Vec::new()),
            writes: Vec::new(),
            reads: None,
            tier: Tier::General,
            residency: Residency::Auto,
        }
    }
}

}
