//! The runtime: frame by frame it routes the last writes, runs what they trigger, and commits
//! what the runs wrote.
use crate::calculation::CalcId;
use crate::entity::EntityTypeId;
use crate::entity::FieldDef;
use crate::entity::FieldId;
use crate::entity::InstanceId;
use crate::entity::FIELD_ALIVE;
use crate::runtime::bindings::bound_ok;
use crate::runtime::bindings::bound_once;
use crate::runtime::clock::Clock;
use crate::runtime::fold::fold_revoke_member;
use crate::runtime::fold::fold_without;
use crate::runtime::indexes::cell_key;
use crate::runtime::indexes::Indexes;
use crate::runtime::lifecycle::birth_keeps;
use crate::runtime::lifecycle::birth_log;
use crate::runtime::lifecycle::init_ok;
use crate::runtime::lifecycle::init_value;
use crate::runtime::lifecycle::log_of;
use crate::runtime::lifecycle::null_log;
use crate::runtime::lifecycle::push_log;
use crate::runtime::lifecycle::refers;
use crate::runtime::lifecycle::refs_ok;
use crate::runtime::lifecycle::settle_death;
use crate::runtime::lifecycle::spawn_now;
use crate::runtime::lifecycle::write_cell;
use crate::runtime::lifecycle::WriteModel;
use crate::runtime::lifecycle::WriteRec;
use crate::runtime::profile::Profile;
use crate::runtime::profile::Schedule;
use crate::runtime::refs::is_ref;
use crate::runtime::refs::Edge;
use crate::runtime::refs::RefTable;
use crate::runtime::route::fold_at;
use crate::runtime::route::fold_entry_ok;
use crate::runtime::route::folds_of;
use crate::runtime::route::folds_ok;
use crate::runtime::route::fold_keys;
use crate::runtime::route::FoldTable;
use crate::runtime::route::FoldEntryModel;
use crate::runtime::routing::dirty_ok;
use crate::runtime::routing::idx_ok;
use crate::runtime::routing::infos_ok;
use crate::runtime::store::Layout;
use crate::runtime::store::RowPolicy;
use crate::runtime::store::Store;
use crate::runtime::CalcInfo;
use crate::runtime::Detect;
use crate::runtime::Determinism;
use crate::value::Val;
use crate::value::Value;
use std::collections::HashMap;
use vstd::prelude::*;

verus! {

broadcast use vstd::std_specs::hash::group_hash_axioms;

/// The scheduler, the indexes and the data. `F` is the type of calculation bodies.
pub struct Runtime<F> {
    pub store: Store,
    pub infos: Vec<CalcInfo>,
    /// The type of each calculation.
    pub tys: Vec<EntityTypeId>,
    pub bodies: Vec<F>,
    /// The one writer of each field.
    pub owners: HashMap<u64, CalcId>,
    pub idx: Indexes,
    pub refs: RefTable,
    /// Calculations that run for every instance in every frame.
    pub ecs_calcs: Vec<CalcId>,
    pub folds: FoldTable,
    /// Aggregates that lost a member since they were last delivered.
    pub fold_dirty: Vec<(CalcId, InstanceId)>,
    /// The writes to route in the next frame.
    pub pending: Vec<WriteRec>,
    pub profile: Profile,
    pub schedule: Schedule,
    pub detect: Detect,
    pub determinism: Determinism,
    pub clock: Clock,
    pub frame: u64,
    /// Whether the routed writes are kept for a second runtime.
    pub render_feed: bool,
    pub last_routed: Vec<WriteRec>,
}

/// The writes that a calculation declares are fields of its type.
pub open spec fn writes_known(infos: Seq<CalcInfo>, store: Store) -> bool {
    forall|c: int, w: int|
        #![trigger infos[c].declared_writes@[w]]
        0 <= c < infos.len() && 0 <= w < infos[c].declared_writes@.len() ==> store.field_known(
            infos[c].ty,
            infos[c].declared_writes@[w],
        )
}

/// Every declared field other than `_alive` belongs to the calculation that declares it.
pub open spec fn owners_ok(owners: Map<u64, CalcId>, infos: Seq<CalcInfo>) -> bool {
    &&& forall|c: int, w: int|
        #![trigger infos[c].declared_writes@[w]]
        0 <= c < infos.len() && 0 <= w < infos[c].declared_writes@.len()
            && infos[c].declared_writes@[w].0 != FIELD_ALIVE ==> {
            let k = cell_key(infos[c].ty, infos[c].declared_writes@[w]);
            owners.contains_key(k) && owners[k] == CalcId(c as u32)
        }
    &&& forall|k: u64| #[trigger] owners.contains_key(k) ==> owners[k].0 < infos.len()
}

/// The calculations that run in every frame deliver hit by hit.
pub open spec fn ecs_ok(ecs: Seq<CalcId>, infos: Seq<CalcInfo>) -> bool {
    forall|i: int|
        0 <= i < ecs.len() ==> (#[trigger] ecs[i]).0 < infos.len()
            && infos[ecs[i].0 as int].pred.delivery is Each
}

pub open spec fn clock_ok(clock: Clock, store: Store) -> bool {
    &&& clock.inst.ty == clock.ty
    &&& store.field_known(clock.ty, clock.f_frame)
    &&& store.field_known(clock.ty, clock.f_alarm)
    &&& clock.f_frame.0 != FIELD_ALIVE
    &&& clock.f_alarm.0 != FIELD_ALIVE
    &&& !is_ref(store, clock.ty, clock.f_frame)
    &&& !is_ref(store, clock.ty, clock.f_alarm)
}

/// No calculation writes the cells of the clock.
pub open spec fn clock_alone(infos: Seq<CalcInfo>, clock: Clock) -> bool {
    forall|c: int|
        0 <= c < infos.len() && (#[trigger] infos[c]).ty == clock.ty
            ==> infos[c].declared_writes@.len() == 0
}

/// What the calculations and the clock say of the types.
pub open spec fn schema_ok(
    store: Store,
    infos: Seq<CalcInfo>,
    tys: Seq<EntityTypeId>,
    clock: Clock,
) -> bool {
    &&& infos_ok(infos, tys)
    &&& writes_known(infos, store)
    &&& clock_ok(clock, store)
    &&& clock_alone(infos, clock)
}

pub proof fn lemma_schema_ok(
    a: Store,
    b: Store,
    infos: Seq<CalcInfo>,
    tys: Seq<EntityTypeId>,
    clock: Clock,
)
    requires
        schema_ok(b, infos, tys, clock),
        a.types@.len() >= b.types@.len(),
        forall|t: int|
            0 <= t < b.types@.len() ==> (#[trigger] a.types@[t]).same_schema(b.types@[t]),
    ensures
        schema_ok(a, infos, tys, clock),
{
    assert forall|ty: EntityTypeId, f: FieldId| b.field_known(ty, f) implies #[trigger] a.field_known(
        ty,
        f,
    ) by {
        assert(a.types@[ty.0 as int].same_schema(b.types@[ty.0 as int]));
    }
    assert(writes_known(infos, a)) by {
        assert forall|c: int, w: int|
            #![trigger infos[c].declared_writes@[w]]
            0 <= c < infos.len() && 0 <= w < infos[c].declared_writes@.len() implies a.field_known(
            infos[c].ty,
            infos[c].declared_writes@[w],
        ) by {
            assert(b.field_known(infos[c].ty, infos[c].declared_writes@[w]));
        }
    }
    assert(a.types@[clock.ty.0 as int].same_schema(b.types@[clock.ty.0 as int]));
}

/// The aggregates after the death of an instance.
pub open spec fn folds_without(fs: Seq<FoldEntryModel>, dead: InstanceId) -> Seq<FoldEntryModel> {
    Seq::new(
        fs.len(),
        |i: int| FoldEntryModel { acc: fold_without(fs[i].acc, dead), ..fs[i] },
    )
}

/// Those of the first `n` aggregates that lose a member.
pub open spec fn losing(fs: Seq<FoldEntryModel>, dead: InstanceId, n: int) -> Seq<
    (CalcId, InstanceId),
>
    decreases n,
{
    if n <= 0 {
        Seq::empty()
    } else if fold_without(fs[n - 1].acc, dead) != fs[n - 1].acc {
        losing(fs, dead, n - 1).push((fs[n - 1].calc, fs[n - 1].sub))
    } else {
        losing(fs, dead, n - 1)
    }
}

/// Finding an aggregate goes by its subscriber only.
pub proof fn lemma_fold_at_keys(
    a: Seq<FoldEntryModel>,
    b: Seq<FoldEntryModel>,
    calc: CalcId,
    sub: InstanceId,
)
    requires
        a.len() == b.len(),
        forall|i: int| 0 <= i < a.len() ==> (#[trigger] a[i]).calc == b[i].calc && a[i].sub == b[i].sub,
    ensures
        fold_at(a, calc, sub) == fold_at(b, calc, sub),
    decreases a.len(),
{
    if a.len() > 0 {
        let s = a.drop_first();
        let t = b.drop_first();
        assert forall|i: int| 0 <= i < s.len() implies (#[trigger] s[i]).calc == t[i].calc && s[i].sub
            == t[i].sub by {
            assert(s[i] == a[i + 1]);
            assert(t[i] == b[i + 1]);
        }
        lemma_fold_at_keys(s, t, calc, sub);
        assert(a[0].calc == b[0].calc);
    }
}

/// Takes a dead instance out of all aggregates, and notes those that lost a member.
pub(crate) fn revoke_from_folds(
    folds: &mut FoldTable,
    dirty: &mut Vec<(CalcId, InstanceId)>,
    dead: InstanceId,
    infos: Ghost<Seq<CalcInfo>>,
)
    requires
        old(folds).wf(),
        folds_ok(folds_of(old(folds)@), infos@),
        dirty_ok(old(dirty)@, folds_of(old(folds)@), infos@),
    ensures
        final(folds).wf(),
        folds_of(final(folds)@) == folds_without(folds_of(old(folds)@), dead),
        final(dirty)@ == old(dirty)@ + losing(
            folds_of(old(folds)@),
            dead,
            old(folds)@.len() as int,
        ),
        folds_ok(folds_of(final(folds)@), infos@),
        dirty_ok(final(dirty)@, folds_of(final(folds)@), infos@),
{
    let ghost f0 = folds_of(folds@);
    let ghost d0 = dirty@;
    let ghost places = folds.places;
    let mut i: usize = 0;
    assert(dirty@ =~= d0 + losing(f0, dead, 0));
    while i < folds.len()
        invariant
            folds@.len() == f0.len(),
            folds.places == places,
            i <= folds@.len(),
            forall|k: int|
                0 <= k < i ==> (#[trigger] folds@[k])@ == (FoldEntryModel {
                    acc: fold_without(f0[k].acc, dead),
                    ..f0[k]
                }),
            forall|k: int| i <= k < folds@.len() ==> (#[trigger] folds@[k])@ == f0[k],
            dirty@ == d0 + losing(f0, dead, i as int),
            folds_ok(f0, infos@),
            forall|k: int|
                0 <= k < i ==> fold_entry_ok((#[trigger] folds@[k])@, infos@),
        decreases folds@.len() - i,
    {
        let calc = folds.entries[i].calc;
        let sub = folds.entries[i].sub;
        let ghost before = folds@;
        assert(folds@[i as int]@ == f0[i as int]);
        assert(fold_entry_ok(f0[i as int], infos@));
        let lost = fold_revoke_member(&mut folds.entries[i].acc, dead);
        if lost {
            dirty.push((calc, sub));
        }
        assert(dirty@ =~= d0 + losing(f0, dead, i + 1));
        i = i + 1;
    }
    proof {
        let f1 = folds_of(folds@);
        assert(f1 =~= folds_without(f0, dead));
        assert(fold_keys(f1) =~= fold_keys(f0));
        assert forall|k: int| 0 <= k < f1.len() implies fold_entry_ok(#[trigger] f1[k], infos@) by {
            assert(f1[k] == folds@[k]@);
        }
        lemma_losing_ok(f0, dead, f0.len() as int, infos@);
        assert forall|k: int| 0 <= k < dirty@.len() implies (#[trigger] dirty@[k]).0.0 < infos@.len()
            && infos@[dirty@[k].0.0 as int].pred.delivery is Fold && fold_at(
            f1,
            dirty@[k].0,
            dirty@[k].1,
        ) < f1.len() by {
            lemma_fold_at_keys(f1, f0, dirty@[k].0, dirty@[k].1);
            if k < d0.len() {
                assert(dirty@[k] == d0[k]);
            } else {
                assert(dirty@[k] == losing(f0, dead, f0.len() as int)[k - d0.len()]);
            }
        }
    }
}

proof fn lemma_losing_ok(
    fs: Seq<FoldEntryModel>,
    dead: InstanceId,
    n: int,
    infos: Seq<CalcInfo>,
)
    requires
        0 <= n <= fs.len(),
        folds_ok(fs, infos),
    ensures
        dirty_ok(losing(fs, dead, n), fs, infos),
    decreases n,
{
    if n > 0 {
        lemma_losing_ok(fs, dead, n - 1, infos);
        let a = losing(fs, dead, n - 1);
        let b = losing(fs, dead, n);
        let e = fs[n - 1];
        assert(fold_entry_ok(e, infos));
        crate::runtime::route::lemma_fold_found(fs, e.calc, e.sub);
        assert forall|k: int| 0 <= k < b.len() implies (#[trigger] b[k]).0.0 < infos.len()
            && infos[b[k].0.0 as int].pred.delivery is Fold && fold_at(fs, b[k].0, b[k].1)
            < fs.len() by {
            if k < a.len() {
                assert(b[k] == a[k]);
            }
        }
    }
}

/// A type more, without instances, changes no answer.
pub proof fn lemma_type_appended(after: Store, before: Store, refs: RefTable)
    requires
        before.wf(),
        after.wf(),
        after.types@.len() == before.types@.len() + 1,
        after.types@.drop_last() == before.types@,
        after.types@.last().id_slot@.len() == 0,
        refs_ok(before, refs),
    ensures
        forall|i: InstanceId| #[trigger] after.has(i) <==> before.has(i),
        forall|i: InstanceId, f: FieldId| #[trigger] after.value(i, f) == before.value(i, f),
        forall|i: InstanceId| #[trigger] after.gone(i) <==> before.gone(i),
        refs_ok(after, refs),
{
    let n = before.types@.len() as int;
    assert forall|t: int| 0 <= t < n implies #[trigger] after.types@[t] == before.types@[t] by {
        assert(after.types@.drop_last()[t] == before.types@[t]);
    }
    assert forall|i: InstanceId| #[trigger] after.has(i) <==> before.has(i) by {
        if i.ty.0 < n {
            assert(after.types@[i.ty.0 as int] == before.types@[i.ty.0 as int]);
        }
    }
    assert forall|i: InstanceId, f: FieldId| #[trigger] after.value(i, f) == before.value(i, f) by {
        if i.ty.0 < n {
            assert(after.types@[i.ty.0 as int] == before.types@[i.ty.0 as int]);
        }
    }
    assert forall|i: InstanceId| #[trigger] after.gone(i) <==> before.gone(i) by {
        if i.ty.0 < n {
            assert(after.types@[i.ty.0 as int] == before.types@[i.ty.0 as int]);
        }
    }
    assert forall|e: Edge| #[trigger] refs.has(e) implies {
        &&& after.has(e.holder)
        &&& is_ref(after, e.holder.ty, e.field)
        &&& after.value(e.holder, e.field) == Val::Ref(e.target)
    } by {
        assert(before.has(e.holder));
        assert(after.types@[e.holder.ty.0 as int] == before.types@[e.holder.ty.0 as int]);
    }
    assert forall|h: InstanceId, f: FieldId, t: InstanceId|
        #![trigger refs.has(Edge { target: t, holder: h, field: f })]
        after.is_alive(h) && is_ref(after, h.ty, f) && after.value(h, f) == Val::Ref(
            t,
        ) implies refs.has(Edge { target: t, holder: h, field: f }) by {
        assert(before.is_alive(h));
        assert(before.has(h));
        assert(after.types@[h.ty.0 as int] == before.types@[h.ty.0 as int]);
    }
}

/// The fields of a type as registered: `_alive` first, then those given.
pub open spec fn with_alive(fs: Seq<FieldDef>, given: Seq<FieldDef>) -> bool {
    &&& fs.len() == given.len() + 1
    &&& fs[0].name@ == "_alive"@
    &&& !fs[0].is_ref
    &&& fs[0].default@ == Val::Bool(false)
    &&& fs.skip(1) == given
}

impl<F> Runtime<F> {
    pub open spec fn wf(self) -> bool {
        &&& self.store.wf()
        &&& refs_ok(self.store, self.refs)
        &&& schema_ok(self.store, self.infos@, self.tys@, self.clock)
        &&& idx_ok(self.idx, self.infos@)
        &&& self.folds.wf()
        &&& folds_ok(folds_of(self.folds@), self.infos@)
        &&& dirty_ok(self.fold_dirty@, folds_of(self.folds@), self.infos@)
        &&& self.bodies@.len() == self.infos@.len()
        &&& owners_ok(self.owners@, self.infos@)
        &&& ecs_ok(self.ecs_calcs@, self.infos@)
        &&& bound_once(self.idx)
        &&& bound_ok(
            self.idx,
            self.infos@,
            self.ecs_calcs@,
            self.clock.ty,
            self.clock.f_frame,
        )
        &&& self.profile.wf()
        &&& self.profile.trigger_counts@.len() == self.infos@.len()
    }

    /// All but the data, the reverse table, the aggregates and the pending writes is as in
    /// `other`.
    pub open spec fn same_setup(self, other: Runtime<F>) -> bool {
        &&& self.infos == other.infos
        &&& self.tys == other.tys
        &&& self.bodies == other.bodies
        &&& self.owners == other.owners
        &&& self.idx == other.idx
        &&& self.ecs_calcs == other.ecs_calcs
        &&& self.profile == other.profile
        &&& self.schedule == other.schedule
        &&& self.detect == other.detect
        &&& self.determinism == other.determinism
        &&& self.clock == other.clock
        &&& self.frame == other.frame
        &&& self.render_feed == other.render_feed
        &&& self.last_routed == other.last_routed
    }

    /// A runtime with the clock and nothing else.
    pub fn new(detect: Detect) -> (r: Runtime<F>)
        ensures
            r.wf(),
            r.frame == 0,
            r.infos@.len() == 0,
            r.detect == detect,
            r.determinism == Determinism::Free,
            !r.render_feed,
            r.last_routed@.len() == 0,
            r.folds@.len() == 0,
            r.fold_dirty@.len() == 0,
            r.profile.write_counts@.len() == 0,
            r.store.types@.len() == 1,
            r.clock.ty == EntityTypeId(0),
            r.clock.inst == (InstanceId { ty: EntityTypeId(0), id: 0, generation: 0 }),
            r.clock.f_frame == FieldId(1),
            r.clock.f_alarm == FieldId(2),
            forall|frame: u64| (#[trigger] r.clock.due(frame)).len() == 0,
            r.store.is_alive(r.clock.inst),
            r.store.at(r.clock.ty).layout() == Layout::empty().with_new(RowPolicy::Stable),
            r.store.at(r.clock.ty).name@ == "Clock"@,
            r.store.at(r.clock.ty).fields@.len() == 3,
            r.store.at(r.clock.ty).fields@[1].name@ == "frame"@,
            r.store.at(r.clock.ty).fields@[2].name@ == "alarm"@,
            r.store.value(r.clock.inst, r.clock.f_frame) == Val::Int(0),
            r.store.value(r.clock.inst, r.clock.f_alarm) == Val::Null,
            log_of(r.pending@) == seq![
                WriteModel {
                    inst: r.clock.inst,
                    field: FieldId(FIELD_ALIVE),
                    old: Val::Bool(false),
                    new: Val::Bool(true),
                },
            ],
    {
        let mut store = Store::new();
        let mut refs = RefTable::new();
        let mut fields: Vec<FieldDef> = Vec::new();
        fields.push(FieldDef::new("_alive", Value::Bool(false)));
        fields.push(FieldDef::new("frame", Value::Int(0)));
        fields.push(FieldDef::new("alarm", Value::Null));
        let ty = store.add_type("Clock", fields, true, RowPolicy::Stable);
        let ghost s0 = store;
        let mut pending: Vec<WriteRec> = Vec::new();
        let init: Vec<(FieldId, Value)> = Vec::new();
        let ghost l0 = log_of(pending@);
        proof {
            assert(refs_ok(store, refs));
        }
        let inst = spawn_now(&mut store, &mut refs, ty, init, &mut pending);
        proof {
            assert(store.types@[0].same_schema(s0.types@[0]));
            assert(s0.field_known(ty, FieldId(1)));
            assert(s0.field_known(ty, FieldId(2)));
            assert(log_of(pending@) =~= seq![
                WriteModel {
                    inst,
                    field: FieldId(FIELD_ALIVE),
                    old: Val::Bool(false),
                    new: Val::Bool(true),
                },
            ]);
        }
        let r = Runtime {
            store,
            infos: Vec::new(),
            tys: Vec::new(),
            bodies: Vec::new(),
            owners: HashMap::new(),
            idx: Indexes::new(),
            refs,
            ecs_calcs: Vec::new(),
            folds: FoldTable::new(),
            fold_dirty: Vec::new(),
            pending,
            profile: Profile::new(),
            schedule: Schedule::new(),
            detect,
            determinism: Determinism::Free,
            clock: Clock::new(ty, inst, FieldId(1), FieldId(2)),
            frame: 0,
            render_feed: false,
            last_routed: Vec::new(),
        };
        proof {
            assert(idx_ok(r.idx, r.infos@));
        }
        r
    }

    /// Registers a type with stable rows.
    pub fn register_entity_type(
        &mut self,
        name: &str,
        fields: Vec<FieldDef>,
        singleton: bool,
    ) -> (r: EntityTypeId)
        requires
            old(self).wf(),
            old(self).store.types@.len() < u32::MAX,
            fields@.len() < u32::MAX,
        ensures
            final(self).wf(),
            final(self).same_setup(*old(self)),
            final(self).type_registered(*old(self), name@, fields@, singleton, RowPolicy::Stable, r),
    {
        self.register_entity_type_with(name, fields, singleton, RowPolicy::Stable)
    }

    /// The type `ty` was registered, with its one instance if it is a singleton; nothing else
    /// changed.
    pub open spec fn type_registered(
        self,
        before: Runtime<F>,
        name: Seq<char>,
        given: Seq<FieldDef>,
        singleton: bool,
        policy: RowPolicy,
        ty: EntityTypeId,
    ) -> bool {
        &&& ty.0 == before.store.types@.len()
        &&& self.store.types@.len() == before.store.types@.len() + 1
        &&& forall|t: int|
            0 <= t < before.store.types@.len() ==> #[trigger] self.store.types@[t]
                == before.store.types@[t]
        &&& self.store.at(ty).layout() == (if singleton {
            Layout::empty().with_new(policy)
        } else {
            Layout::empty()
        })
        &&& self.store.at(ty).room()
        &&& self.store.at(ty).next_id() == (if singleton {
            1u32
        } else {
            0u32
        })
        &&& self.store.at(ty).next_generation() == 0
        &&& self.store.at(ty).name@ == name
        &&& with_alive(self.store.at(ty).fields@, given)
        &&& self.store.at(ty).singleton == singleton
        &&& self.store.at(ty).policy == policy
        &&& self.folds == before.folds
        &&& self.fold_dirty == before.fold_dirty
        &&& self.store.gone_kept(before.store)
        &&& {
            let inst = InstanceId { ty, id: 0, generation: 0 };
            &&& forall|i: InstanceId| #[trigger]
                self.store.has(i) <==> before.store.has(i) || (singleton && i == inst)
            &&& forall|i: InstanceId, f: FieldId|
                i != inst ==> #[trigger] self.store.value(i, f) == before.store.value(i, f)
            &&& singleton ==> {
                &&& self.store.is_alive(inst)
                &&& forall|f: FieldId|
                    0 < f.0 <= given.len() ==> #[trigger] self.store.value(inst, f)
                        == given[f.0 - 1].default@
                &&& log_of(self.pending@) == log_of(before.pending@).push(
                    WriteModel {
                        inst,
                        field: FieldId(FIELD_ALIVE),
                        old: Val::Bool(false),
                        new: Val::Bool(true),
                    },
                )
            }
            &&& !singleton ==> self.pending == before.pending
        }
    }

    /// Registers a type. `_alive` becomes its field 0. A singleton gets its instance at once.
    pub fn register_entity_type_with(
        &mut self,
        name: &str,
        fields: Vec<FieldDef>,
        singleton: bool,
        policy: RowPolicy,
    ) -> (r: EntityTypeId)
        requires
            old(self).wf(),
            old(self).store.types@.len() < u32::MAX,
            fields@.len() < u32::MAX,
        ensures
            final(self).wf(),
            final(self).same_setup(*old(self)),
            final(self).type_registered(*old(self), name@, fields@, singleton, policy, r),
    {
        let ghost before = *self;
        let ghost given = fields@;
        let mut fields = fields;
        fields.insert(0, FieldDef::new("_alive", Value::Bool(false)));
        proof {
            assert(fields@.skip(1) =~= given);
        }
        let ghost all = fields@;
        let ty = self.store.add_type(name, fields, singleton, policy);
        let ghost s1 = self.store;
        proof {
            lemma_type_appended(s1, before.store, before.refs);
            assert forall|t: int| 0 <= t < before.store.types@.len() implies #[trigger] s1.types@[t]
                == before.store.types@[t] by {
                assert(s1.types@.drop_last()[t] == before.store.types@[t]);
            }
            lemma_schema_ok(s1, before.store, self.infos@, self.tys@, self.clock);
        }
        if singleton {
            let init: Vec<(FieldId, Value)> = Vec::new();
            let ghost l0 = log_of(self.pending@);
            let inst = spawn_now(
                &mut self.store,
                &mut self.refs,
                ty,
                init,
                &mut self.pending,
            );
            proof {
                lemma_schema_ok(self.store, s1, self.infos@, self.tys@, self.clock);
                assert(self.store.types@[ty.0 as int].same_schema(s1.types@[ty.0 as int]));
                assert forall|t: int| 0 <= t < before.store.types@.len() implies
                    #[trigger] self.store.types@[t] == before.store.types@[t] by {
                    assert(self.store.at(EntityTypeId(t as u32)) == s1.at(EntityTypeId(t as u32)));
                    assert(s1.types@[t] == before.store.types@[t]);
                }
                assert(self.store.at(ty).layout() == Layout::empty().with_new(policy));
                assert(log_of(self.pending@) =~= l0.push(
                    WriteModel {
                        inst,
                        field: FieldId(FIELD_ALIVE),
                        old: Val::Bool(false),
                        new: Val::Bool(true),
                    },
                ));
                assert forall|i: InstanceId| #[trigger]
                    self.store.has(i) <==> before.store.has(i) || i == inst by {
                    if i.ty == ty && i.id == inst.id {
                        assert(!s1.has(i));
                    } else {
                        assert(self.store.has(i) <==> s1.has(i));
                    }
                }
                assert forall|i: InstanceId, f: FieldId|
                    i != inst implies #[trigger] self.store.value(i, f) == before.store.value(
                    i,
                    f,
                ) by {
                    if i.ty == ty && i.id == inst.id {
                        assert(!self.store.has(i));
                        assert(!s1.has(i));
                    } else {
                        assert(self.store.value(i, f) == s1.value(i, f));
                    }
                }
                assert forall|f: FieldId| 0 < f.0 <= given.len() implies #[trigger] self.store.value(
                    inst,
                    f,
                ) == given[f.0 - 1].default@ by {
                    assert(s1.field_known(ty, f));
                    assert(all[f.0 as int] == all.skip(1)[f.0 - 1]);
                }
                assert forall|i: InstanceId| before.store.gone(i) implies #[trigger] self.store.gone(
                    i,
                ) by {
                    assert(s1.gone(i));
                }
            }
        }
        ty
    }
}

/// Why an instance cannot be created with these fields, or nothing.
#[derive(Clone, Copy, Debug, PartialEq, Eq, Structural)]
pub enum WriteError {
    NoSuchType(EntityTypeId),
    NoSuchField(EntityTypeId, FieldId),
    /// `_alive` is written by births and deaths only.
    Alive,
    /// The cells of the clock belong to the runtime.
    ClockCells,
    /// The ids of the type are used up.
    NoRoom,
}

/// The first error among the first `n` initial fields.
pub open spec fn init_error(
    store: Store,
    ty: EntityTypeId,
    init: Seq<(FieldId, Value)>,
    n: int,
) -> Option<WriteError>
    decreases n,
{
    if n <= 0 {
        None
    } else {
        match init_error(store, ty, init, n - 1) {
            Some(e) => Some(e),
            None => if !store.field_known(ty, init[n - 1].0) {
                Some(WriteError::NoSuchField(ty, init[n - 1].0))
            } else if init[n - 1].0.0 == FIELD_ALIVE {
                Some(WriteError::Alive)
            } else {
                None
            },
        }
    }
}

/// Why a request cannot be met, or nothing.
pub open spec fn spawn_error(store: Store, ty: EntityTypeId, init: Seq<(FieldId, Value)>) -> Option<
    WriteError,
> {
    if !store.known(ty) {
        Some(WriteError::NoSuchType(ty))
    } else {
        match init_error(store, ty, init, init.len() as int) {
            Some(e) => Some(e),
            None => if store.at(ty).room() {
                None
            } else {
                Some(WriteError::NoRoom)
            },
        }
    }
}

proof fn lemma_init_error(
    store: Store,
    ty: EntityTypeId,
    init: Seq<(FieldId, Value)>,
    n: int,
    m: int,
)
    requires
        0 <= n <= m <= init.len(),
        init_error(store, ty, init, n) is Some,
    ensures
        init_error(store, ty, init, m) == init_error(store, ty, init, n),
    decreases m - n,
{
    if n < m {
        lemma_init_error(store, ty, init, n, m - 1);
    }
}

/// Checks a request to create an instance.
pub fn validate_spawn(store: &Store, ty: EntityTypeId, init: &Vec<(FieldId, Value)>) -> (r: Option<
    WriteError,
>)
    ensures
        r == spawn_error(*store, ty, init@),
        r is None ==> init_ok(*store, ty, init@) && store.at(ty).room(),
{
    if ty.0 as usize >= store.types.len() {
        return Some(WriteError::NoSuchType(ty));
    }
    let n = store.fields(ty).len();
    let mut i: usize = 0;
    while i < init.len()
        invariant
            store.known(ty),
            n == store.at(ty).fields@.len(),
            i <= init@.len(),
            init_error(*store, ty, init@, i as int) is None,
            forall|k: int|
                0 <= k < i ==> store.field_known(ty, (#[trigger] init@[k]).0) && init@[k].0.0
                    != FIELD_ALIVE,
        decreases init@.len() - i,
    {
        let f = init[i].0;
        let e: Option<WriteError> = if f.0 as usize >= n {
            Some(WriteError::NoSuchField(ty, f))
        } else if f.0 == FIELD_ALIVE {
            Some(WriteError::Alive)
        } else {
            None
        };
        if e.is_some() {
            proof {
                lemma_init_error(*store, ty, init@, i + 1, init@.len() as int);
            }
            return e;
        }
        i = i + 1;
    }
    if store.types[ty.0 as usize].has_room() {
        None
    } else {
        Some(WriteError::NoRoom)
    }
}

/// Why a cell cannot be written from outside, or nothing.
pub open spec fn external_error(store: Store, clock_ty: EntityTypeId, ty: EntityTypeId, field: FieldId) -> Option<
    WriteError,
> {
    if !store.known(ty) {
        Some(WriteError::NoSuchType(ty))
    } else if !store.field_known(ty, field) {
        Some(WriteError::NoSuchField(ty, field))
    } else if ty == clock_ty {
        Some(WriteError::ClockCells)
    } else if field.0 == FIELD_ALIVE {
        Some(WriteError::Alive)
    } else {
        None
    }
}

/// Checks a write from outside.
pub fn validate_external_write(
    store: &Store,
    clock_ty: EntityTypeId,
    inst: InstanceId,
    field: FieldId,
) -> (r: Option<WriteError>)
    ensures
        r == external_error(*store, clock_ty, inst.ty, field),
{
    if inst.ty.0 as usize >= store.types.len() {
        Some(WriteError::NoSuchType(inst.ty))
    } else if field.0 as usize >= store.fields(inst.ty).len() {
        Some(WriteError::NoSuchField(inst.ty, field))
    } else if inst.ty == clock_ty {
        Some(WriteError::ClockCells)
    } else if field.0 == FIELD_ALIVE {
        Some(WriteError::Alive)
    } else {
        None
    }
}

impl<F> Runtime<F> {
    /// Creates an instance. Its `_alive` and initial fields are ordinary writes that are
    /// routed in the next frame.
    pub fn spawn(&mut self, ty: EntityTypeId, init: Vec<(FieldId, Value)>) -> (r: InstanceId)
        requires
            old(self).wf(),
            spawn_error(old(self).store, ty, init@) is None,
        ensures
            final(self).wf(),
            final(self).same_setup(*old(self)),
            final(self).folds == old(self).folds,
            final(self).fold_dirty == old(self).fold_dirty,
            birth_keeps(final(self).store, old(self).store, r),
            r.ty == ty,
            r.id == old(self).store.at(ty).next_id(),
            r.generation == old(self).store.at(ty).next_generation(),
            forall|i: InstanceId| i.ty == ty && i.id == r.id ==> !#[trigger] old(self).store.has(i),
            forall|i: InstanceId|
                i.ty == ty && i.id == r.id ==> (#[trigger] final(self).store.has(i) <==> i == r),
            !old(self).store.gone(r),
            final(self).store.is_alive(r),
            forall|f: FieldId|
                f.0 != FIELD_ALIVE && old(self).store.field_known(ty, f)
                    ==> #[trigger] final(self).store.value(r, f) == init_value(
                    init@,
                    init@.len() as int,
                    f,
                    old(self).store.at(ty).default_of(f.0 as int),
                ),
            log_of(final(self).pending@) == log_of(old(self).pending@) + birth_log(
                r,
                old(self).store.at(ty),
                init@,
            ),
    {
        let ghost before = *self;
        proof {
            lemma_spawn_fine(self.store, ty, init@);
        }
        let inst = spawn_now(&mut self.store, &mut self.refs, ty, init, &mut self.pending);
        proof {
            lemma_schema_ok(self.store, before.store, self.infos@, self.tys@, self.clock);
        }
        inst
    }

    /// Destroys an instance that is alive, as if it had written `_alive = false`. References
    /// to it become null, and the aggregates forget it.
    pub fn destroy(&mut self, inst: InstanceId)
        requires
            old(self).wf(),
        ensures
            final(self).wf(),
            final(self).same_setup(*old(self)),
            !old(self).store.is_alive(inst) ==> *final(self) == *old(self),
            old(self).store.is_alive(inst) ==> {
                &&& final(self).store.same_schema(old(self).store)
                &&& final(self).store.gone_kept(old(self).store)
                &&& final(self).store.layouts_without(old(self).store, inst)
                &&& final(self).store.gone(inst)
                &&& forall|i: InstanceId|
                    i.ty == inst.ty && i.id == inst.id ==> !#[trigger] final(self).store.has(i)
                &&& forall|i: InstanceId|
                    i.ty != inst.ty || i.id != inst.id ==> (#[trigger] final(self).store.has(i)
                        <==> old(self).store.has(i))
                &&& forall|i: InstanceId, f: FieldId|
                    i.ty != inst.ty || i.id != inst.id ==> #[trigger] final(self).store.value(i, f)
                        == (if refers(old(self).store, i, f, inst) {
                        Val::Null
                    } else {
                        old(self).store.value(i, f)
                    })
                &&& folds_of(final(self).folds@) == folds_without(folds_of(old(self).folds@), inst)
                &&& final(self).fold_dirty@ == old(self).fold_dirty@ + losing(
                    folds_of(old(self).folds@),
                    inst,
                    old(self).folds@.len() as int,
                )
                &&& log_of(final(self).pending@) == log_of(old(self).pending@).push(
                    WriteModel {
                        inst,
                        field: FieldId(FIELD_ALIVE),
                        old: Val::Bool(true),
                        new: Val::Bool(false),
                    },
                ) + null_log(
                    old(self).store,
                    old(self).refs.holders_of(inst),
                    inst,
                    old(self).refs.holders_of(inst).len() as int,
                )
            },
    {
        let ghost before = *self;
        if self.store.alive(inst) {
            let old = self.store.read(inst, FieldId(FIELD_ALIVE));
            proof {
                assert(self.store.at(inst.ty).wf());
                assert(self.store.field_known(inst.ty, FieldId(FIELD_ALIVE)));
            }
            write_cell(
                &mut self.store,
                &mut self.refs,
                inst,
                FieldId(FIELD_ALIVE),
                &old,
                &Value::Bool(false),
            );
            let ghost dying = self.store;
            push_log(
                &mut self.pending,
                WriteRec { inst, field: FieldId(FIELD_ALIVE), old, new: Value::Bool(false) },
            );
            revoke_from_folds(
                &mut self.folds,
                &mut self.fold_dirty,
                inst,
                Ghost(self.infos@),
            );
            assert(self.refs == before.refs);
            settle_death(&mut self.store, &mut self.refs, inst, &mut self.pending);
            proof {
                assert forall|t: int| 0 <= t < before.store.types@.len() implies (
                #[trigger] self.store.types@[t]).same_schema(before.store.types@[t]) by {
                    assert(dying.types@[t].same_schema(before.store.types@[t]));
                }
                lemma_schema_ok(self.store, before.store, self.infos@, self.tys@, self.clock);
                assert forall|t: EntityTypeId| before.store.known(t) implies (
                #[trigger] self.store.at(t)).layout() == (if t == inst.ty {
                    before.store.at(t).layout().without(before.store.at(t).policy, inst.id)
                } else {
                    before.store.at(t).layout()
                }) by {
                    assert(dying.known(t));
                    assert(dying.at(t).layout() == before.store.at(t).layout());
                    assert(dying.types@[t.0 as int].same_schema(before.store.types@[t.0 as int]));
                }
                assert forall|i: InstanceId| dying.is_alive(i) <==> i != inst
                    && #[trigger] before.store.is_alive(i) by {
                    assert(dying.value(i, FieldId(FIELD_ALIVE)) == (if i == inst {
                        Val::Bool(false)
                    } else {
                        before.store.value(i, FieldId(FIELD_ALIVE))
                    }));
                }
                crate::runtime::lifecycle::lemma_schema_refs(dying, before.store);
                crate::runtime::lifecycle::lemma_null_log(
                    dying,
                    before.store,
                    before.refs.holders_of(inst),
                    inst,
                    before.refs.holders_of(inst).len() as int,
                );
                assert forall|i: InstanceId, f: FieldId|
                    i.ty != inst.ty || i.id != inst.id implies #[trigger] self.store.value(i, f)
                    == (if refers(before.store, i, f, inst) {
                    Val::Null
                } else {
                    before.store.value(i, f)
                }) by {
                    assert(dying.value(i, f) == before.store.value(i, f));
                    assert(dying.is_alive(i) <==> before.store.is_alive(i));
                    assert(is_ref(dying, i.ty, f) <==> is_ref(before.store, i.ty, f));
                }
                assert forall|i: InstanceId| before.store.gone(i) implies #[trigger] self.store.gone(
                    i,
                ) by {
                    assert(dying.gone(i));
                }
            }
        }
    }

    /// Writes a cell from outside, as an ordinary write. A dead instance is left alone.
    pub fn debug_write(&mut self, inst: InstanceId, field: FieldId, v: Value)
        requires
            old(self).wf(),
            external_error(old(self).store, old(self).clock.ty, inst.ty, field) is None,
        ensures
            final(self).wf(),
            final(self).same_setup(*old(self)),
            final(self).folds == old(self).folds,
            final(self).fold_dirty == old(self).fold_dirty,
            !old(self).store.is_alive(inst) ==> *final(self) == *old(self),
            old(self).store.is_alive(inst) ==> {
                &&& final(self).store.same_schema(old(self).store)
                &&& final(self).store.gone_kept(old(self).store)
                &&& final(self).store.only_type(old(self).store, inst.ty)
                &&& final(self).store.same_layouts(old(self).store)
                &&& forall|i: InstanceId| #[trigger]
                    final(self).store.has(i) <==> old(self).store.has(i)
                &&& forall|i: InstanceId, f: FieldId| #[trigger]
                    final(self).store.value(i, f) == (if i == inst && f == field {
                        v@
                    } else {
                        old(self).store.value(i, f)
                    })
                &&& log_of(final(self).pending@) == log_of(old(self).pending@).push(
                    WriteModel {
                        inst,
                        field,
                        old: old(self).store.value(inst, field),
                        new: v@,
                    },
                )
            },
    {
        let ghost before = *self;
        if self.store.alive(inst) {
            let old = self.store.read(inst, field);
            write_cell(&mut self.store, &mut self.refs, inst, field, &old, &v);
            push_log(&mut self.pending, WriteRec { inst, field, old, new: v });
            proof {
                lemma_schema_ok(self.store, before.store, self.infos@, self.tys@, self.clock);
            }
        }
    }
}

pub proof fn lemma_spawn_fine(store: Store, ty: EntityTypeId, init: Seq<(FieldId, Value)>)
    requires
        spawn_error(store, ty, init) is None,
    ensures
        init_ok(store, ty, init),
        store.at(ty).room(),
{
    lemma_init_fine(store, ty, init, init.len() as int);
}

proof fn lemma_init_fine(store: Store, ty: EntityTypeId, init: Seq<(FieldId, Value)>, n: int)
    requires
        0 <= n <= init.len(),
        init_error(store, ty, init, n) is None,
    ensures
        forall|k: int|
            0 <= k < n ==> store.field_known(ty, (#[trigger] init[k]).0) && init[k].0.0
                != FIELD_ALIVE,
    decreases n,
{
    if n > 0 {
        lemma_init_fine(store, ty, init, n - 1);
    }
}

}
