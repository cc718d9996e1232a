//! The registration of calculations.
use crate::calculation::CalcId;
use crate::column::copied;
use crate::entity::EntityTypeId;
use crate::entity::FieldId;
use crate::entity::FIELD_ALIVE;
use crate::predicate::holds;
use crate::predicate::Cond;
use crate::predicate::Delivery;
use crate::predicate::Env;
use crate::predicate::Predicate;
use crate::runtime::bindings::lemma_bound_always;
use crate::runtime::bindings::lemma_bound_grown;
use crate::runtime::bindings::lemma_not_entered;
use crate::runtime::bindings::lemma_once_grown;
use crate::runtime::bindings::watched_groups;
use crate::runtime::alike::alike;
use crate::runtime::alike::same_conds;
use crate::runtime::engine::ecs_ok;
use crate::runtime::engine::owners_ok;
use crate::runtime::engine::writes_known;
use crate::runtime::engine::Runtime;
use crate::runtime::eval::cond_sub_independent;
use crate::runtime::eval::independent;
use crate::runtime::index::Hit;
use crate::runtime::indexes::cell_key;
use crate::runtime::indexes::cell_key_of;
use crate::runtime::indexes::Indexes;
use crate::runtime::registry::added;
use crate::runtime::registry::attach;
use crate::runtime::registry::check_groups;
use crate::runtime::registry::check_writes;
use crate::runtime::registry::distinct_groups;
use crate::runtime::registry::grown;
use crate::runtime::registry::hits_at;
use crate::runtime::registry::is_every_frame;
use crate::runtime::registry::lemma_writes_fine;
use crate::runtime::registry::register_error;
use crate::runtime::registry::subs_grown;
use crate::runtime::registry::types_covered;
use crate::runtime::registry::write_error;
use crate::runtime::registry::RegisterError;
use crate::runtime::route::fold_entry_ok;
use crate::runtime::route::folds_of;
use crate::runtime::route::folds_ok;
use crate::runtime::routing::classes_ok;
use crate::runtime::routing::dirty_ok;
use crate::runtime::routing::idx_ok;
use crate::runtime::routing::infos_ok;
use crate::runtime::routing::sub_ok;
use crate::runtime::scope::distinct_atoms;
use crate::runtime::scope::flatten_scope;
use crate::runtime::scope::flattened;
use crate::runtime::scope::groups_of;
use crate::runtime::scope::Atom;
use crate::runtime::CalcInfo;
use crate::runtime::CalcOptions;
use crate::value::Val;
use std::collections::HashMap;
use vstd::prelude::*;

verus! {

broadcast use vstd::std_specs::hash::group_hash_axioms;

/// The class of a condition: that of the first calculation with one like it, or a new one.
fn class_of(infos: &Vec<CalcInfo>, cond: &Cond) -> (r: u32)
    requires
        infos@.len() < u32::MAX,
        classes_ok(infos@),
        forall|c: int| 0 <= c < infos@.len() ==> (#[trigger] infos@[c]).cond_class <= c,
    ensures
        r <= infos@.len(),
        forall|c: int, env: Env|
            #![trigger holds(infos@[c].pred.cond, env)]
            0 <= c < infos@.len() && infos@[c].cond_class == r ==> holds(infos@[c].pred.cond, env)
                == holds(*cond, env),
{
    let mut i: usize = 0;
    while i < infos.len()
        invariant
            infos@.len() < u32::MAX,
            classes_ok(infos@),
            forall|c: int| 0 <= c < infos@.len() ==> (#[trigger] infos@[c]).cond_class <= c,
            i <= infos@.len(),
        decreases infos@.len() - i,
    {
        if same_conds(&infos[i].pred.cond, cond) {
            let r = infos[i].cond_class;
            proof {
                assert forall|c: int, env: Env|
                    #![trigger holds(infos@[c].pred.cond, env)]
                    0 <= c < infos@.len() && infos@[c].cond_class == r implies holds(
                    infos@[c].pred.cond,
                    env,
                ) == holds(*cond, env) by {
                    crate::runtime::alike::law_alike_agree(
                        infos@[i as int].pred.cond,
                        *cond,
                        env,
                    );
                    assert(infos@[i as int].cond_class == r);
                    assert(holds(infos@[c].pred.cond, env) == holds(
                        infos@[i as int].pred.cond,
                        env,
                    ));
                }
            }
            return r;
        }
        i = i + 1;
    }
    proof {
        assert forall|c: int, env: Env|
            #![trigger holds(infos@[c].pred.cond, env)]
            0 <= c < infos@.len() && infos@[c].cond_class == infos@.len() implies holds(
            infos@[c].pred.cond,
            env,
        ) == holds(*cond, env) by {
            assert(infos@[c].cond_class <= c);
        }
    }
    infos.len() as u32
}

/// Makes a calculation the owner of its declared fields.
fn take_ownership(
    owners: &mut HashMap<u64, CalcId>,
    ty: EntityTypeId,
    writes: &Vec<FieldId>,
    id: CalcId,
)
    ensures
        forall|k: u64| #[trigger]
            final(owners)@.contains_key(k) <==> old(owners)@.contains_key(k) || owned_key(
                ty,
                writes@,
                k,
                writes@.len() as int,
            ),
        forall|k: u64| #[trigger]
            final(owners)@.contains_key(k) ==> final(owners)@[k] == (if owned_key(
                ty,
                writes@,
                k,
                writes@.len() as int,
            ) {
                id
            } else {
                old(owners)@[k]
            }),
{
    let ghost before = owners@;
    let mut i: usize = 0;
    while i < writes.len()
        invariant
            i <= writes@.len(),
            forall|k: u64| #[trigger]
                owners@.contains_key(k) <==> before.contains_key(k) || owned_key(
                    ty,
                    writes@,
                    k,
                    i as int,
                ),
            forall|k: u64| #[trigger]
                owners@.contains_key(k) ==> owners@[k] == (if owned_key(
                    ty,
                    writes@,
                    k,
                    i as int,
                ) {
                    id
                } else {
                    before[k]
                }),
        decreases writes@.len() - i,
    {
        let w = writes[i];
        if w.0 != FIELD_ALIVE {
            owners.insert(cell_key_of(ty, w), id);
        }
        proof {
            assert forall|k: u64| owned_key(ty, writes@, k, i + 1) <==> owned_key(
                ty,
                writes@,
                k,
                i as int,
            ) || (w.0 != FIELD_ALIVE && k == cell_key(ty, w)) by {
                if owned_key(ty, writes@, k, i + 1) {
                    let x = choose|x: int|
                        0 <= x < i + 1 && (#[trigger] writes@[x]).0 != FIELD_ALIVE && k == cell_key(
                            ty,
                            writes@[x],
                        );
                    if x < i {
                        assert(owned_key(ty, writes@, k, i as int));
                    }
                }
                if w.0 != FIELD_ALIVE && k == cell_key(ty, w) {
                    assert(writes@[i as int].0 != FIELD_ALIVE);
                }
            }
        }
        i = i + 1;
    }
}

/// The key is that of one of the first `n` declared fields.
pub open spec fn owned_key(ty: EntityTypeId, writes: Seq<FieldId>, k: u64, n: int) -> bool {
    exists|i: int|
        0 <= i < n && (#[trigger] writes[i]).0 != FIELD_ALIVE && k == cell_key(ty, writes[i])
}

impl<F> Runtime<F> {
    /// Nothing but what registering a calculation touches differs from `other`.
    pub open spec fn same_world(self, other: Runtime<F>) -> bool {
        &&& self.store == other.store
        &&& self.refs == other.refs
        &&& self.folds == other.folds
        &&& self.fold_dirty == other.fold_dirty
        &&& self.pending == other.pending
        &&& self.schedule == other.schedule
        &&& self.detect == other.detect
        &&& self.determinism == other.determinism
        &&& self.clock == other.clock
        &&& self.frame == other.frame
        &&& self.render_feed == other.render_feed
        &&& self.last_routed == other.last_routed
        &&& self.profile.frames == other.profile.frames
        &&& self.profile.last_writes == other.profile.last_writes
        &&& self.profile.last_triggers == other.profile.last_triggers
        &&& self.profile.write_counts == other.profile.write_counts
    }

    /// The calculation `id` was registered.
    pub open spec fn calc_registered(
        self,
        before: Runtime<F>,
        name: Seq<char>,
        ty: EntityTypeId,
        pred: Predicate,
        writes: Seq<FieldId>,
        opts: CalcOptions,
        f: F,
        id: CalcId,
    ) -> bool {
        let n = before.infos@.len();
        let gs = distinct_groups(flattened(pred.scope)->0);
        &&& id.0 == n
        &&& self.infos@.len() == n + 1
        &&& self.infos@.drop_last() == before.infos@
        &&& self.infos@[n as int].name@ == name
        &&& self.infos@[n as int].ty == ty
        &&& self.infos@[n as int].pred == pred
        &&& self.infos@[n as int].n_groups == gs.len()
        &&& self.infos@[n as int].declared_writes@ == writes
        &&& self.infos@[n as int].opts == opts
        &&& self.tys@ == before.tys@.push(ty)
        &&& self.bodies@ == before.bodies@.push(f)
        &&& self.profile.trigger_counts@ == before.profile.trigger_counts@.push(0)
        &&& forall|k: u64| #[trigger]
            self.owners@.contains_key(k) <==> before.owners@.contains_key(k) || owned_key(
                ty,
                writes,
                k,
                writes.len() as int,
            )
        &&& forall|k: u64| #[trigger]
            self.owners@.contains_key(k) ==> self.owners@[k] == (if owned_key(
                ty,
                writes,
                k,
                writes.len() as int,
            ) {
                id
            } else {
                before.owners@[k]
            })
        &&& if is_every_frame(before.clock, gs, pred) {
            self.idx == before.idx && self.ecs_calcs@ == before.ecs_calcs@.push(id)
        } else {
            &&& self.ecs_calcs == before.ecs_calcs
            &&& subs_grown(self.idx, before.idx, ty, gs, id, gs.len() as int)
            &&& grown(self.idx, before.idx, gs, id, gs.len() as int)
            &&& types_covered(self.idx, gs, pred.cond, id, gs.len() as int)
        }
        &&& self.same_world(before)
    }

    /// Registers a calculation with the default options.
    pub fn register_calculation(
        &mut self,
        name: &str,
        ty: EntityTypeId,
        pred: Predicate,
        declared_writes: &Vec<FieldId>,
        f: F,
    ) -> (r: Result<CalcId, RegisterError>)
        requires
            old(self).wf(),
        ensures
            final(self).wf(),
            match register_error(
                old(self).store,
                old(self).owners@,
                old(self).clock,
                old(self).infos@.len(),
                ty,
                pred,
                declared_writes@,
            ) {
                Some(e) => r == Err::<CalcId, RegisterError>(e) && *final(self) == *old(self),
                None => {
                    &&& r is Ok
                    &&& exists|opts: CalcOptions|
                        opts.reads is None && opts.tier == crate::runtime::Tier::General
                            && opts.residency == crate::runtime::Residency::Auto
                            && #[trigger] final(self).calc_registered(
                            *old(self),
                            name@,
                            ty,
                            pred,
                            declared_writes@,
                            opts,
                            f,
                            r->Ok_0,
                        )
                },
            },
    {
        self.register_calculation_opt(name, ty, pred, declared_writes, CalcOptions::default(), f)
    }

    /// Registers a calculation and its predicate. A refusal leaves the runtime as it was.
    pub fn register_calculation_opt(
        &mut self,
        name: &str,
        ty: EntityTypeId,
        pred: Predicate,
        declared_writes: &Vec<FieldId>,
        opts: CalcOptions,
        f: F,
    ) -> (r: Result<CalcId, RegisterError>)
        requires
            old(self).wf(),
        ensures
            final(self).wf(),
            match register_error(
                old(self).store,
                old(self).owners@,
                old(self).clock,
                old(self).infos@.len(),
                ty,
                pred,
                declared_writes@,
            ) {
                Some(e) => r == Err::<CalcId, RegisterError>(e) && *final(self) == *old(self),
                None => {
                    &&& r is Ok
                    &&& final(self).calc_registered(
                        *old(self),
                        name@,
                        ty,
                        pred,
                        declared_writes@,
                        opts,
                        f,
                        r->Ok_0,
                    )
                },
            },
    {
        let ghost before = *self;
        let flat = match flatten_scope(&pred.scope) {
            Some(g) => g,
            None => {
                return Err(RegisterError::ScopeNesting);
            },
        };
        let groups = dedup_groups(&flat);
        let ghost gs = groups_of(groups@);
        let each = matches!(pred.delivery, Delivery::Each(_));
        if groups.len() > 1 && !each {
            return Err(RegisterError::ConjunctionDelivery);
        }
        if let Some(e) = check_writes(&self.store, &self.owners, &self.clock, ty, declared_writes) {
            return Err(e);
        }
        let every = groups.len() == 1 && groups[0].len() == 1 && groups[0][0] == Atom::Type(
            self.clock.ty,
            self.clock.f_frame,
        ) && matches!(pred.cond, Cond::True) && each;
        proof {
            if gs.len() == 1 {
                assert(gs[0] == groups@[0]@);
                if every {
                    assert(gs[0] =~= seq![Atom::Type(self.clock.ty, self.clock.f_frame)]);
                }
            }
            assert(every == is_every_frame(self.clock, gs, pred));
        }
        if !every {
            if let Some(e) = check_groups(&self.store, ty, &groups) {
                return Err(e);
            }
        }
        if self.infos.len() >= u32::MAX as usize || groups.len() > u32::MAX as usize {
            return Err(RegisterError::TooMany);
        }
        let id = CalcId(self.infos.len() as u32);
        take_ownership(&mut self.owners, ty, declared_writes, id);
        if every {
            self.ecs_calcs.push(id);
        } else {
            proof {
                assert forall|g: int| 0 <= g < groups@.len() implies (
                #[trigger] groups@[g])@.no_duplicates() by {
                    assert(gs[g] == groups@[g]@);
                    crate::runtime::scope::law_distinct(groups_of(flat@)[g]);
                }
            }
            proof {
                lemma_not_entered(
                    self.idx,
                    self.infos@,
                    self.ecs_calcs@,
                    self.clock.ty,
                    self.clock.f_frame,
                    id,
                );
            }
            attach(&mut self.idx, ty, &pred.cond, id, &groups);
        }
        let cond_indep = cond_sub_independent(&pred.cond);
        proof {
            assert forall|c: int| 0 <= c < self.infos@.len() implies (
            #[trigger] self.infos@[c]).cond_class <= c by {}
        }
        let cond_class = class_of(&self.infos, &pred.cond);
        self.profile.trigger_counts.push(0);
        self.tys.push(ty);
        self.bodies.push(f);
        let ghost infos0 = self.infos@;
        self.infos.push(
            CalcInfo {
                name: name.to_owned(),
                ty,
                pred,
                n_groups: groups.len() as u32,
                cond_indep,
                cond_class,
                declared_writes: copied(declared_writes),
                opts,
            },
        );
        proof {
            let n = infos0.len() as int;
            let infos1 = self.infos@;
            assert(infos1.drop_last() =~= infos0);
            assert forall|c: int| 0 <= c < n implies #[trigger] infos1[c] == infos0[c] by {}
            lemma_writes_fine(
                before.store,
                before.owners@,
                before.clock,
                ty,
                declared_writes@,
                declared_writes@.len() as int,
            );
            crate::runtime::scope::lemma_some_group(infos1[n].pred.scope);
            lemma_registered_infos(infos0, infos1, before.tys@, self.tys@);
            assert(writes_known(infos1, self.store)) by {
                assert forall|c: int, w: int|
                    #![trigger infos1[c].declared_writes@[w]]
                    0 <= c < infos1.len() && 0 <= w
                        < infos1[c].declared_writes@.len() implies self.store.field_known(
                    infos1[c].ty,
                    infos1[c].declared_writes@[w],
                ) by {
                    if c < n {
                        assert(infos1[c] == infos0[c]);
                        assert(before.store.field_known(
                            infos0[c].ty,
                            infos0[c].declared_writes@[w],
                        ));
                    } else {
                        assert(write_error(
                            before.store,
                            before.owners@,
                            before.clock,
                            ty,
                            declared_writes@[w],
                        ) is None);
                    }
                }
            }
            assert forall|c: int|
                0 <= c < infos1.len() && (#[trigger] infos1[c]).ty
                    == self.clock.ty implies infos1[c].declared_writes@.len() == 0 by {
                if c < n {
                    assert(infos1[c] == infos0[c]);
                } else if declared_writes@.len() > 0 {
                    assert(write_error(
                        before.store,
                        before.owners@,
                        before.clock,
                        ty,
                        declared_writes@[0],
                    ) is None);
                }
            }
            assert(owners_ok(self.owners@, infos1)) by {
                assert forall|c: int, w: int|
                    #![trigger infos1[c].declared_writes@[w]]
                    0 <= c < infos1.len() && 0 <= w < infos1[c].declared_writes@.len()
                        && infos1[c].declared_writes@[w].0 != FIELD_ALIVE implies {
                    let k = cell_key(infos1[c].ty, infos1[c].declared_writes@[w]);
                    self.owners@.contains_key(k) && self.owners@[k] == CalcId(c as u32)
                } by {
                    let k = cell_key(infos1[c].ty, infos1[c].declared_writes@[w]);
                    if c < n {
                        assert(infos1[c] == infos0[c]);
                        assert(infos0[c].declared_writes@[w].0 != FIELD_ALIVE);
                        assert(before.owners@.contains_key(k) && before.owners@[k] == CalcId(
                            c as u32,
                        ));
                        if owned_key(ty, declared_writes@, k, declared_writes@.len() as int) {
                            let x = choose|x: int|
                                0 <= x < declared_writes@.len() && (
                                #[trigger] declared_writes@[x]).0 != FIELD_ALIVE && k == cell_key(
                                    ty,
                                    declared_writes@[x],
                                );
                            assert(write_error(
                                before.store,
                                before.owners@,
                                before.clock,
                                ty,
                                declared_writes@[x],
                            ) is None);
                        }
                    } else {
                        assert(infos1[c].declared_writes@ == declared_writes@);
                        assert(declared_writes@[w].0 != FIELD_ALIVE);
                        assert(owned_key(ty, declared_writes@, k, declared_writes@.len() as int));
                    }
                    assert(self.owners@.contains_key(k));
                    assert(self.owners@[k] == CalcId(c as u32));
                }
                assert forall|k: u64| #[trigger] self.owners@.contains_key(k) implies self.owners@[k].0
                    < infos1.len() by {
                    if !owned_key(ty, declared_writes@, k, declared_writes@.len() as int) {
                        assert(before.owners@.contains_key(k));
                    }
                }
            }
            assert(ecs_ok(self.ecs_calcs@, infos1)) by {
                assert forall|i: int| 0 <= i < self.ecs_calcs@.len() implies (
                #[trigger] self.ecs_calcs@[i]).0 < infos1.len()
                    && infos1[self.ecs_calcs@[i].0 as int].pred.delivery is Each by {
                    if i < before.ecs_calcs@.len() {
                        assert(self.ecs_calcs@[i] == before.ecs_calcs@[i]);
                    }
                }
            }
            assert(watched_groups(infos1[n]) == gs);
            if every {
                lemma_idx_kept(self.idx, infos0, infos1);
                lemma_bound_always(
                    self.idx,
                    infos0,
                    infos1,
                    before.ecs_calcs@,
                    self.ecs_calcs@,
                    self.clock.ty,
                    self.clock.f_frame,
                );
            } else {
                lemma_idx_grown(self.idx, before.idx, infos0, infos1, ty, gs, id);
                lemma_once_grown(
                    self.idx,
                    before.idx,
                    infos0,
                    self.ecs_calcs@,
                    self.clock.ty,
                    self.clock.f_frame,
                    ty,
                    gs,
                    id,
                );
                lemma_bound_grown(
                    self.idx,
                    before.idx,
                    infos0,
                    infos1,
                    self.ecs_calcs@,
                    self.clock.ty,
                    self.clock.f_frame,
                );
            }
            lemma_folds_kept(folds_of(self.folds@), self.fold_dirty@, infos0, infos1);
        }
        Ok(id)
    }
}

/// Each group without repetitions.
fn dedup_groups(gs: &Vec<Vec<Atom>>) -> (r: Vec<Vec<Atom>>)
    ensures
        groups_of(r@) == distinct_groups(groups_of(gs@)),
{
    let mut out: Vec<Vec<Atom>> = Vec::new();
    let mut i: usize = 0;
    while i < gs.len()
        invariant
            i <= gs@.len(),
            out@.len() == i,
            forall|k: int|
                0 <= k < i ==> (#[trigger] out@[k])@ == crate::runtime::scope::distinct(gs@[k]@),
        decreases gs@.len() - i,
    {
        out.push(distinct_atoms(&gs[i]));
        i = i + 1;
    }
    assert(groups_of(out@) =~= distinct_groups(groups_of(gs@)));
    out
}

proof fn lemma_registered_infos(
    infos0: Seq<CalcInfo>,
    infos1: Seq<CalcInfo>,
    tys0: Seq<EntityTypeId>,
    tys1: Seq<EntityTypeId>,
)
    requires
        infos_ok(infos0, tys0),
        infos0.len() < u32::MAX,
        infos1.len() == infos0.len() + 1,
        infos1.drop_last() == infos0,
        tys1 == tys0.push(infos1.last().ty),
        infos1.last().n_groups >= 1,
        infos1.last().cond_indep == independent(infos1.last().pred.cond),
        infos1.last().cond_class <= infos0.len(),
        forall|c: int, env: Env|
            #![trigger holds(infos0[c].pred.cond, env)]
            0 <= c < infos0.len() && infos0[c].cond_class == infos1.last().cond_class ==> holds(
                infos0[c].pred.cond,
                env,
            ) == holds(infos1.last().pred.cond, env),
    ensures
        infos_ok(infos1, tys1),
{
    let n = infos0.len() as int;
    assert forall|c: int| 0 <= c < n implies #[trigger] infos1[c] == infos0[c] by {
        assert(infos1.drop_last()[c] == infos0[c]);
    }
    assert(classes_ok(infos1)) by {
        assert forall|a: int, b: int, env: Env|
            #![trigger holds(infos1[a].pred.cond, env), infos1[b].cond_class]
            0 <= a < infos1.len() && 0 <= b < infos1.len() && infos1[a].cond_class
                == infos1[b].cond_class implies holds(infos1[a].pred.cond, env) == holds(
            infos1[b].pred.cond,
            env,
        ) by {
            if a < n && b < n {
                assert(infos1[a] == infos0[a] && infos1[b] == infos0[b]);
                assert(holds(infos0[a].pred.cond, env) == holds(infos0[b].pred.cond, env));
            } else if a < n {
                assert(infos1[a] == infos0[a]);
                assert(holds(infos0[a].pred.cond, env) == holds(infos1[n].pred.cond, env));
            } else if b < n {
                assert(infos1[b] == infos0[b]);
                assert(holds(infos0[b].pred.cond, env) == holds(infos1[n].pred.cond, env));
            }
        }
    }
    assert forall|c: int| 0 <= c < infos1.len() implies {
        &&& (#[trigger] infos1[c]).n_groups >= 1
        &&& infos1[c].cond_indep == independent(infos1[c].pred.cond)
        &&& infos1[c].cond_class <= c
        &&& tys1[c] == infos1[c].ty
    } by {
        if c < n {
            assert(infos1[c] == infos0[c]);
            assert(tys1[c] == tys0[c]);
        }
    }
}

proof fn lemma_idx_kept(idx: Indexes, infos0: Seq<CalcInfo>, infos1: Seq<CalcInfo>)
    requires
        idx_ok(idx, infos0),
        infos1.len() == infos0.len() + 1,
        forall|c: int| 0 <= c < infos0.len() ==> #[trigger] infos1[c] == infos0[c],
    ensures
        idx_ok(idx, infos1),
{
    assert forall|ty: EntityTypeId, f: FieldId, i: int|
        0 <= i < idx.own_subs(ty, f).len() implies sub_ok(
        #[trigger] idx.own_subs(ty, f)[i],
        ty,
        infos1,
    ) by {
        assert(sub_ok(idx.own_subs(ty, f)[i], ty, infos0));
        assert(infos1[idx.own_subs(ty, f)[i].0.0 as int] == infos0[idx.own_subs(
            ty,
            f,
        )[i].0.0 as int]);
    }
    assert forall|ty: EntityTypeId, r: FieldId, f: FieldId, i: int|
        0 <= i < idx.inst_subs(ty, r, f).len() implies sub_ok(
        #[trigger] idx.inst_subs(ty, r, f)[i],
        ty,
        infos1,
    ) by {
        assert(sub_ok(idx.inst_subs(ty, r, f)[i], ty, infos0));
        assert(infos1[idx.inst_subs(ty, r, f)[i].0.0 as int] == infos0[idx.inst_subs(
            ty,
            r,
            f,
        )[i].0.0 as int]);
    }
    assert forall|k: u64, new: Val, old: Val, tys: Seq<EntityTypeId>, h: Hit|
        idx.type_@.contains_key(k) && #[trigger] idx.type_@[k].hits(new, old, tys).contains(
            h,
        ) implies h.calc.0 < infos1.len() && h.group < infos1[h.calc.0 as int].n_groups by {
        assert(h.calc.0 < infos0.len());
        assert(infos1[h.calc.0 as int] == infos0[h.calc.0 as int]);
    }
}

proof fn lemma_idx_grown(
    idx: Indexes,
    before: Indexes,
    infos0: Seq<CalcInfo>,
    infos1: Seq<CalcInfo>,
    ty: EntityTypeId,
    gs: Seq<Seq<Atom>>,
    id: CalcId,
)
    requires
        idx.wf(),
        idx_ok(before, infos0),
        infos1.len() == infos0.len() + 1,
        forall|c: int| 0 <= c < infos0.len() ==> #[trigger] infos1[c] == infos0[c],
        id.0 == infos0.len(),
        infos1[id.0 as int].ty == ty,
        infos1[id.0 as int].n_groups == gs.len(),
        gs.len() <= u32::MAX,
        subs_grown(idx, before, ty, gs, id, gs.len() as int),
        grown(idx, before, gs, id, gs.len() as int),
    ensures
        idx_ok(idx, infos1),
{
    let n = gs.len() as int;
    assert forall|t: EntityTypeId, f: FieldId, i: int|
        0 <= i < idx.own_subs(t, f).len() implies sub_ok(
        #[trigger] idx.own_subs(t, f)[i],
        t,
        infos1,
    ) by {
        let a = before.own_subs(t, f);
        if i < a.len() {
            assert(idx.own_subs(t, f)[i] == a[i]);
            assert(sub_ok(a[i], t, infos0));
            assert(infos1[a[i].0.0 as int] == infos0[a[i].0.0 as int]);
        } else {
            assert(t == ty);
            lemma_added_ok(gs, id, Atom::Own(f), n);
            assert(idx.own_subs(t, f)[i] == added(gs, id, Atom::Own(f), n)[i - a.len()]);
        }
    }
    assert forall|t: EntityTypeId, r: FieldId, f: FieldId, i: int|
        0 <= i < idx.inst_subs(t, r, f).len() implies sub_ok(
        #[trigger] idx.inst_subs(t, r, f)[i],
        t,
        infos1,
    ) by {
        let a = before.inst_subs(t, r, f);
        if i < a.len() {
            assert(idx.inst_subs(t, r, f)[i] == a[i]);
            assert(sub_ok(a[i], t, infos0));
            assert(infos1[a[i].0.0 as int] == infos0[a[i].0.0 as int]);
        } else {
            let at = Atom::Inst { ref_field: r, field: f };
            assert(t == ty);
            lemma_added_ok(gs, id, at, n);
            assert(idx.inst_subs(t, r, f)[i] == added(gs, id, at, n)[i - a.len()]);
        }
    }
    assert forall|k: u64, new: Val, old: Val, tys: Seq<EntityTypeId>, h: Hit|
        idx.type_@.contains_key(k) && #[trigger] idx.type_@[k].hits(new, old, tys).contains(
            h,
        ) implies h.calc.0 < infos1.len() && h.group < infos1[h.calc.0 as int].n_groups by {
        assert(hits_at(idx, k, new, old, tys, h));
        if hits_at(before, k, new, old, tys, h) {
            assert(h.calc.0 < infos0.len());
            assert(infos1[h.calc.0 as int] == infos0[h.calc.0 as int]);
        }
    }
}

proof fn lemma_added_ok(gs: Seq<Seq<Atom>>, id: CalcId, a: Atom, n: int)
    requires
        0 <= n <= gs.len() <= u32::MAX,
    ensures
        forall|i: int|
            0 <= i < added(gs, id, a, n).len() ==> (#[trigger] added(gs, id, a, n)[i]).0 == id
                && added(gs, id, a, n)[i].1 < n,
    decreases n,
{
    if n > 0 {
        lemma_added_ok(gs, id, a, n - 1);
        let p = added(gs, id, a, n - 1);
        let q = added(gs, id, a, n);
        assert forall|i: int| 0 <= i < q.len() implies (#[trigger] q[i]).0 == id && q[i].1 < n by {
            if i < p.len() {
                assert(q[i] == p[i]);
            }
        }
    }
}

proof fn lemma_folds_kept(
    folds: Seq<crate::runtime::route::FoldEntryModel>,
    dirty: Seq<(CalcId, crate::entity::InstanceId)>,
    infos0: Seq<CalcInfo>,
    infos1: Seq<CalcInfo>,
)
    requires
        folds_ok(folds, infos0),
        dirty_ok(dirty, folds, infos0),
        infos1.len() == infos0.len() + 1,
        forall|c: int| 0 <= c < infos0.len() ==> #[trigger] infos1[c] == infos0[c],
    ensures
        folds_ok(folds, infos1),
        dirty_ok(dirty, folds, infos1),
{
    assert forall|i: int| 0 <= i < folds.len() implies fold_entry_ok(#[trigger] folds[i], infos1) by {
        assert(fold_entry_ok(folds[i], infos0));
        assert(infos1[folds[i].calc.0 as int] == infos0[folds[i].calc.0 as int]);
    }
    assert forall|i: int| 0 <= i < dirty.len() implies (#[trigger] dirty[i]).0.0 < infos1.len()
        && infos1[dirty[i].0.0 as int].pred.delivery is Fold && crate::runtime::route::fold_at(
        folds,
        dirty[i].0,
        dirty[i].1,
    ) < folds.len() by {
        assert(infos1[dirty[i].0.0 as int] == infos0[dirty[i].0.0 as int]);
    }
}

}
