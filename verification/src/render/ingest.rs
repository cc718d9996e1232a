//! Taking in a simulation frame: what changed, what came to rest, and who died.
use crate::entity::EntityTypeId;
use crate::entity::FieldId;
use crate::entity::InstanceId;
use crate::render::handoff::coalesce;
use crate::render::handoff::coalesced;
use crate::render::handoff::delta_at;
use crate::render::handoff::deltas_of;
use crate::render::handoff::law_coalesced;
use crate::render::handoff::lemma_delta_found;
use crate::render::handoff::of_cell;
use crate::render::handoff::one_per_cell;
use crate::render::handoff::DeltaModel;
use crate::render::handoff::TrackedDelta;
use crate::render::mirror::lemma_setup_kept;
use crate::render::mirror::Mirror;
use crate::render::store::RFieldId;
use crate::value::Val;
use vstd::prelude::*;

verus! {

pub fn has_instance(v: &Vec<InstanceId>, inst: InstanceId) -> (r: bool)
    ensures
        r == v@.contains(inst),
{
    let mut i: usize = 0;
    while i < v.len()
        invariant
            i <= v@.len(),
            forall|j: int| 0 <= j < i ==> v@[j] != inst,
        decreases v@.len() - i,
    {
        if v[i] == inst {
            return true;
        }
        i = i + 1;
    }
    false
}

/// The change of a cell, if it changed.
pub open spec fn change_of(ds: Seq<DeltaModel>, inst: InstanceId, f: FieldId) -> Option<
    DeltaModel,
> {
    let k = delta_at(ds, inst, f);
    if 0 <= k < ds.len() {
        Some(ds[k])
    } else {
        None
    }
}

impl Mirror {
    /// The simulation field behind a mirror.
    pub open spec fn source(self, ty: EntityTypeId, t: int) -> FieldId {
        self.store.at(ty).tracks@[t].sim_field
    }

    /// The track mirrors the field of the instance's type.
    pub open spec fn follows(self, ti: int, inst: InstanceId, f: FieldId) -> bool {
        &&& 0 <= ti < self.tracks@.len()
        &&& self.tracks@[ti].ty == inst.ty
        &&& self.tracks@[ti].sim_field == f
    }

    /// `self` is `before` once the changes were taken in: every mirror of a changed field
    /// holds the values before and after, that of a newborn the value after alone; `active`
    /// is what moved; and the culled ones stand where they moved to.
    pub open spec fn after_changes(
        self,
        before: Mirror,
        ds: Seq<DeltaModel>,
        births: Seq<InstanceId>,
    ) -> bool {
        &&& self.same_setup(before)
        &&& self.same_view(before)
        &&& self.dying == before.dying
        &&& forall|i: InstanceId| #[trigger] self.store.present(i) <==> before.store.present(i)
        &&& forall|i: InstanceId, f: RFieldId| #[trigger]
            self.store.value(i, f) == before.store.value(i, f)
        &&& forall|i: InstanceId, t: int|
            self.store.present(i) && self.store.slot_known(i.ty, t) ==> #[trigger] self.store.pair(
                i,
                t,
            ) == match change_of(ds, i, self.source(i.ty, t)) {
                Some(d) => (
                    if births.contains(i) {
                        d.new
                    } else {
                        d.old
                    },
                    d.new,
                ),
                None => before.store.pair(i, t),
            }
        &&& forall|i: InstanceId, ti: usize| #[trigger]
            self.active@.contains((i, ti)) <==> self.store.present(i) && ti < self.tracks@.len()
                && self.tracks@[ti as int].ty == i.ty && change_of(
                ds,
                i,
                self.tracks@[ti as int].sim_field,
            ) is Some
        &&& forall|i: InstanceId| #[trigger]
            self.grid_at(i) == match before.culling(i.ty) {
                Some(c) => match change_of(ds, i, c.translation_field) {
                    Some(d) => if before.store.present(i) {
                        before.place(d.new)
                    } else {
                        None
                    },
                    None => before.grid_at(i),
                },
                None => before.grid_at(i),
            }
    }

    /// Takes in one change.
    fn take_change(&mut self, d: &TrackedDelta, just_born: bool)
        requires
            old(self).wf(),
            forall|ti: usize|
                old(self).follows(ti as int, d.inst, d.sim_field) ==> !(#[trigger] old(
                    self).active@.contains((d.inst, ti))),
        ensures
            final(self).wf(),
            final(self).same_setup(*old(self)),
            final(self).same_view(*old(self)),
            final(self).dying == old(self).dying,
            forall|i: InstanceId| #[trigger] final(self).store.present(i) <==> old(
                self).store.present(i),
            forall|i: InstanceId, f: RFieldId| #[trigger]
                final(self).store.value(i, f) == old(self).store.value(i, f),
            forall|i: InstanceId, t: int|
                final(self).store.present(i) && final(self).store.slot_known(i.ty, t)
                    ==> #[trigger] final(self).store.pair(i, t) == (if i == d.inst && final(
                    self).source(i.ty, t) == d.sim_field {
                    (
                        if just_born {
                            d.new@
                        } else {
                            d.old@
                        },
                        d.new@,
                    )
                } else {
                    old(self).store.pair(i, t)
                }),
            forall|i: InstanceId, ti: usize| #[trigger]
                final(self).active@.contains((i, ti)) <==> old(self).active@.contains((i, ti)) || (i
                    == d.inst && old(self).store.present(i) && old(self).follows(
                    ti as int,
                    i,
                    d.sim_field,
                )),
            forall|i: InstanceId| #[trigger]
                final(self).grid_at(i) == match old(self).culling(i.ty) {
                    Some(c) => if i == d.inst && c.translation_field == d.sim_field {
                        if old(self).store.present(i) {
                            old(self).place(d.new@)
                        } else {
                            None
                        }
                    } else {
                        old(self).grid_at(i)
                    },
                    None => old(self).grid_at(i),
                },
    {
        let ghost before = *self;
        let mut ti: usize = 0;
        while ti < self.tracks.len()
            invariant
                ti <= self.tracks@.len(),
                before.wf(),
                self.wf(),
                *self == (Mirror { store: self.store, active: self.active, ..before }),
                self.store.same_schema(before.store),
                forall|x: usize|
                    before.follows(x as int, d.inst, d.sim_field) ==> !(
                    #[trigger] before.active@.contains((d.inst, x))),
                forall|i: InstanceId| #[trigger] self.store.present(i) <==> before.store.present(i),
                forall|i: InstanceId, f: RFieldId| #[trigger]
                    self.store.value(i, f) == before.store.value(i, f),
                forall|i: InstanceId, t: int|
                    self.store.present(i) && self.store.slot_known(i.ty, t)
                        ==> #[trigger] self.store.pair(i, t) == (if i == d.inst && (exists|x: int|
                        0 <= x < ti && before.follows(x, i, d.sim_field) && (
                        #[trigger] before.tracks@[x]).slot == t) {
                        (
                            if just_born {
                                d.new@
                            } else {
                                d.old@
                            },
                            d.new@,
                        )
                    } else {
                        before.store.pair(i, t)
                    }),
                forall|i: InstanceId, x: usize| #[trigger]
                    self.active@.contains((i, x)) <==> before.active@.contains((i, x)) || (i
                        == d.inst && before.store.present(i) && x < ti && before.follows(
                        x as int,
                        i,
                        d.sim_field,
                    )),
            decreases self.tracks@.len() - ti,
        {
            let ghost s0 = *self;
            let tr = self.tracks[ti];
            proof {
                assert(before.track_ok(before.tracks@[ti as int]));
                assert(self.track_ok(self.tracks@[ti as int]));
            }
            if tr.ty == d.inst.ty && tr.sim_field == d.sim_field {
                let applied = self.store.apply_delta(d.inst, tr.slot, &d.old, &d.new, just_born);
                if applied {
                    self.active.push((d.inst, ti));
                }
                proof {
                    assert(before.follows(ti as int, d.inst, d.sim_field));
                    assert forall|i: InstanceId, x: usize| #[trigger]
                        self.active@.contains((i, x)) <==> before.active@.contains((i, x)) || (i
                            == d.inst && before.store.present(i) && x < ti + 1 && before.follows(
                            x as int,
                            i,
                            d.sim_field,
                        )) by {
                        if s0.active@.contains((i, x)) {
                            let j = choose|j: int| 0 <= j < s0.active@.len() && s0.active@[j] == (i, x);
                            assert(self.active@[j] == (i, x));
                        }
                        if self.active@.contains((i, x)) {
                            let j = choose|j: int|
                                0 <= j < self.active@.len() && self.active@[j] == (i, x);
                            if j < s0.active@.len() {
                                assert(s0.active@[j] == (i, x));
                            }
                        }
                        if applied {
                            assert(self.active@[s0.active@.len() as int] == (d.inst, ti));
                        }
                    }
                    assert(!s0.active@.contains((d.inst, ti)));
                    assert(self.active_ok()) by {
                        if applied {
                            assert forall|k: int| 0 <= k < self.active@.len() implies (
                            #[trigger] self.active@[k]).1 < self.tracks@.len()
                                && self.tracks@[self.active@[k].1 as int].ty
                                == self.active@[k].0.ty by {
                                if k < s0.active@.len() {
                                    assert(self.active@[k] == s0.active@[k]);
                                }
                            }
                            assert(s0.active@.push((d.inst, ti)).no_duplicates());
                        }
                    }
                    assert(self.store.same_schema(before.store)) by {
                        assert forall|t: int| 0 <= t < self.store.types@.len() implies (
                        #[trigger] self.store.types@[t]).same_schema(before.store.types@[t]) by {
                            assert(s0.store.types@[t].same_schema(before.store.types@[t]));
                        }
                    }
                    lemma_setup_kept(*self, before);
                }
            }
            proof {
                assert forall|i: InstanceId, t: int|
                    self.store.present(i) && self.store.slot_known(
                        i.ty,
                        t,
                    ) implies #[trigger] self.store.pair(i, t) == (if i == d.inst && (exists|
                    x: int,
                |
                    0 <= x < ti + 1 && before.follows(x, i, d.sim_field) && (
                    #[trigger] before.tracks@[x]).slot == t) {
                    (
                        if just_born {
                            d.new@
                        } else {
                            d.old@
                        },
                        d.new@,
                    )
                } else {
                    before.store.pair(i, t)
                }) by {
                    assert(s0.store.present(i));
                    assert(s0.store.slot_known(i.ty, t)) by {
                        assert(self.store.types@[i.ty.0 as int].same_schema(
                            before.store.types@[i.ty.0 as int],
                        ));
                        assert(s0.store.types@[i.ty.0 as int].same_schema(
                            before.store.types@[i.ty.0 as int],
                        ));
                    }
                    let was = s0.store.pair(i, t);
                    if i == d.inst && before.follows(ti as int, i, d.sim_field)
                        && before.tracks@[ti as int].slot == t {
                    } else {
                        assert(self.store.pair(i, t) == was);
                        assert(i == d.inst ==> ((exists|x: int|
                            0 <= x < ti && before.follows(x, i, d.sim_field) && (
                            #[trigger] before.tracks@[x]).slot == t) <==> (exists|x: int|
                            0 <= x < ti + 1 && before.follows(x, i, d.sim_field) && (
                            #[trigger] before.tracks@[x]).slot == t)));
                    }
                }
            }
            ti = ti + 1;
        }
        let ghost fed = *self;
        proof {
            assert forall|i: InstanceId, t: int|
                self.store.present(i) && self.store.slot_known(
                    i.ty,
                    t,
                ) implies #[trigger] self.store.pair(i, t) == (if i == d.inst && self.source(
                i.ty,
                t,
            ) == d.sim_field {
                (
                    if just_born {
                        d.new@
                    } else {
                        d.old@
                    },
                    d.new@,
                )
            } else {
                before.store.pair(i, t)
            }) by {
                assert(self.store.types@[i.ty.0 as int].same_schema(
                    before.store.types@[i.ty.0 as int],
                ));
                assert(before.store.slot_known(i.ty, t));
                let x = choose|x: int|
                    0 <= x < before.tracks@.len() && (#[trigger] before.tracks@[x]).ty == i.ty
                        && before.tracks@[x].slot == t;
                assert(self.track_ok(self.tracks@[x]));
                if exists|y: int|
                    0 <= y < ti && before.follows(y, i, d.sim_field) && (
                    #[trigger] before.tracks@[y]).slot == t {
                    let y = choose|y: int|
                        0 <= y < ti && before.follows(y, i, d.sim_field) && (
                        #[trigger] before.tracks@[y]).slot == t;
                    assert(self.track_ok(self.tracks@[y]));
                }
                if self.source(i.ty, t) == d.sim_field {
                    assert(before.follows(x, i, d.sim_field));
                }
            }
            assert(forall|i: InstanceId| #[trigger] fed.grid_at(i) == before.grid_at(i));
            assert(forall|ty: EntityTypeId| #[trigger] fed.culling(ty) == before.culling(ty));
            assert(forall|v: Val| #[trigger] fed.place(v) == before.place(v));
        }
        if let Some(c) = self.culling_of(d.inst.ty) {
            if c.translation_field == d.sim_field {
                if self.store.is_present(d.inst) {
                    self.put(d.inst, &d.new);
                } else {
                    self.drop_out(d.inst);
                }
            }
        }
    }

    /// Takes in the changes of a frame, and hands back what moved before.
    pub fn take_changes(&mut self, changes: &Vec<TrackedDelta>, births: &Vec<InstanceId>) -> (r:
        Vec<(InstanceId, usize)>)
        requires
            old(self).wf(),
        ensures
            final(self).wf(),
            r@ == old(self).active@,
            final(self).after_changes(*old(self), coalesced(deltas_of(changes@)), births@),
    {
        let ghost before = *self;
        let deltas = coalesce(changes);
        let ghost ds = deltas_of(deltas@);
        let mut prev: Vec<(InstanceId, usize)> = Vec::new();
        core::mem::swap(&mut prev, &mut self.active);
        let mut k: usize = 0;
        proof {
            law_coalesced(deltas_of(changes@));
            lemma_setup_kept(*self, before);
            let none = ds.take(0);
            assert forall|i: InstanceId, f: FieldId| #[trigger] change_of(none, i, f) is None by {
                lemma_delta_found(none, i, f);
            }
            assert(forall|i: InstanceId| #[trigger] self.grid_at(i) == before.grid_at(i));
        }
        while k < deltas.len()
            invariant
                k <= deltas@.len(),
                ds == deltas_of(deltas@),
                one_per_cell(ds),
                before.wf(),
                self.wf(),
                self.after_changes(before, ds.take(k as int), births@),
            decreases deltas@.len() - k,
        {
            let ghost mid = *self;
            let d = &deltas[k];
            let just_born = has_instance(births, d.inst);
            let ghost done = ds.take(k as int);
            let ghost next = ds.take(k + 1);
            proof {
                assert(ds[k as int] == d@);
                lemma_change_next(ds, k as int);
                assert forall|ti: usize|
                    self.follows(ti as int, d.inst, d.sim_field) implies !(
                #[trigger] self.active@.contains((d.inst, ti))) by {
                    assert(change_of(next, d.inst, d.sim_field) == Some(ds[k as int]));
                }
            }
            self.take_change(d, just_born);
            proof {
                assert forall|t: int| 0 <= t < self.store.types@.len() implies (
                #[trigger] self.store.types@[t]).same_schema(before.store.types@[t]) by {
                    assert(mid.store.types@[t].same_schema(before.store.types@[t]));
                }
                assert forall|i: InstanceId, t: int|
                    self.store.present(i) && self.store.slot_known(
                        i.ty,
                        t,
                    ) implies #[trigger] self.store.pair(i, t) == match change_of(
                    next,
                    i,
                    self.source(i.ty, t),
                ) {
                    Some(e) => (
                        if births@.contains(i) {
                            e.new
                        } else {
                            e.old
                        },
                        e.new,
                    ),
                    None => before.store.pair(i, t),
                } by {
                    assert(self.store.types@[i.ty.0 as int].same_schema(
                        mid.store.types@[i.ty.0 as int],
                    ));
                    assert(mid.store.present(i));
                    assert(mid.store.slot_known(i.ty, t));
                    assert(mid.source(i.ty, t) == self.source(i.ty, t));
                    assert(mid.store.pair(i, t) == match change_of(
                        done,
                        i,
                        mid.source(i.ty, t),
                    ) {
                        Some(e) => (
                            if births@.contains(i) {
                                e.new
                            } else {
                                e.old
                            },
                            e.new,
                        ),
                        None => before.store.pair(i, t),
                    });
                }
                assert(forall|ty: EntityTypeId| #[trigger] mid.culling(ty) == before.culling(ty));
                assert(forall|v: Val| #[trigger] mid.place(v) == before.place(v));
                assert forall|i: InstanceId, ti: usize| #[trigger]
                    self.active@.contains((i, ti)) <==> self.store.present(i) && ti
                        < self.tracks@.len() && self.tracks@[ti as int].ty == i.ty && change_of(
                        next,
                        i,
                        self.tracks@[ti as int].sim_field,
                    ) is Some by {
                    assert(mid.active@.contains((i, ti)) <==> mid.store.present(i) && ti
                        < mid.tracks@.len() && mid.tracks@[ti as int].ty == i.ty && change_of(
                        done,
                        i,
                        mid.tracks@[ti as int].sim_field,
                    ) is Some);
                }
            }
            k = k + 1;
        }
        assert(ds.take(ds.len() as int) =~= ds);
        prev
    }
}

/// One change more is the change of its cell.
proof fn lemma_change_next(ds: Seq<DeltaModel>, k: int)
    requires
        0 <= k < ds.len(),
        one_per_cell(ds),
    ensures
        change_of(ds.take(k), ds[k].inst, ds[k].sim_field) is None,
        forall|i: InstanceId, f: FieldId| #[trigger]
            change_of(ds.take(k + 1), i, f) == (if of_cell(ds[k], i, f) {
                Some(ds[k])
            } else {
                change_of(ds.take(k), i, f)
            }),
{
    let done = ds.take(k);
    let next = ds.take(k + 1);
    lemma_delta_found(done, ds[k].inst, ds[k].sim_field);
    if change_of(done, ds[k].inst, ds[k].sim_field) is Some {
        let x = delta_at(done, ds[k].inst, ds[k].sim_field);
        assert(done[x] == ds[x]);
        assert(!(ds[x].inst == ds[k].inst && ds[x].sim_field == ds[k].sim_field));
    }
    assert forall|i: InstanceId, f: FieldId| #[trigger] change_of(next, i, f) == (if of_cell(
        ds[k],
        i,
        f,
    ) {
        Some(ds[k])
    } else {
        change_of(done, i, f)
    }) by {
        lemma_delta_found(done, i, f);
        lemma_delta_found(next, i, f);
        let a = delta_at(done, i, f);
        let b = delta_at(next, i, f);
        if of_cell(ds[k], i, f) {
            assert(a == done.len());
            assert(next[k] == ds[k]);
            if b < k {
                assert(next[b] == done[b]);
            }
        } else {
            if a < done.len() {
                assert(next[a] == done[a]);
                if b < a {
                    assert(next[b] == done[b]);
                }
            } else if b < next.len() {
                if b < k {
                    assert(next[b] == done[b]);
                } else {
                    assert(next[b] == ds[k]);
                }
            }
        }
    }
}

}
