//! Interpolation of what moves.
use crate::entity::EntityTypeId;
use crate::entity::InstanceId;
use crate::float64::of_int;
use crate::float64::F64;
use crate::render::interp::Elementary;
use crate::render::interp::Track;
use crate::lists::kept;
use crate::lists::lemma_kept;
use crate::lists::lemma_kept_next;
use crate::render::mirror::lemma_active_kept;
use crate::render::mirror::lemma_only_values_step;
use crate::render::mirror::lemma_setup_kept;
use crate::render::mirror::Mirror;
use crate::render::store::RFieldId;
use crate::render::writes::only_values;
use crate::value::Val;
use vstd::prelude::*;

verus! {

/// The movement names a track of the instance's type.
pub open spec fn movement_ok(tracks: Seq<Track>, a: (InstanceId, usize)) -> bool {
    a.1 < tracks.len() && tracks[a.1 as int].ty == a.0.ty
}

pub open spec fn movements_ok(tracks: Seq<Track>, list: Seq<(InstanceId, usize)>) -> bool {
    forall|k: int| 0 <= k < list.len() ==> movement_ok(tracks, #[trigger] list[k])
}

/// Some movement of the instance goes to the field.
pub open spec fn moves(
    tracks: Seq<Track>,
    list: Seq<(InstanceId, usize)>,
    i: InstanceId,
    f: RFieldId,
) -> bool {
    exists|ti: usize| #[trigger] list.contains((i, ti)) && tracks[ti as int].out == f
}

fn has_movement(v: &Vec<(InstanceId, usize)>, a: (InstanceId, usize)) -> (r: bool)
    ensures
        r == v@.contains(a),
{
    let mut i: usize = 0;
    while i < v.len()
        invariant
            i <= v@.len(),
            forall|j: int| 0 <= j < i ==> v@[j] != a,
        decreases v@.len() - i,
    {
        if v[i].0 == a.0 && v[i].1 == a.1 {
            assert(v@[i as int] == a);
            return true;
        }
        i = i + 1;
    }
    false
}

/// The movements of a list that are not in another.
fn movements_without(
    list: &Vec<(InstanceId, usize)>,
    other: &Vec<(InstanceId, usize)>,
) -> (r: Vec<(InstanceId, usize)>)
    ensures
        r@ == kept(list@, |a: (InstanceId, usize)| !other@.contains(a)),
{
    let ghost p = |a: (InstanceId, usize)| !other@.contains(a);
    let mut out: Vec<(InstanceId, usize)> = Vec::new();
    let mut i: usize = 0;
    assert(list@.take(0) =~= Seq::empty());
    while i < list.len()
        invariant
            p == (|a: (InstanceId, usize)| !other@.contains(a)),
            i <= list@.len(),
            out@ == kept(list@.take(i as int), p),
        decreases list@.len() - i,
    {
        proof {
            lemma_kept_next(list@, p, i as int);
        }
        if !has_movement(other, list[i]) {
            out.push(list[i]);
        }
        i = i + 1;
    }
    assert(list@.take(list@.len() as int) =~= list@);
    out
}

impl Mirror {
    /// Every movement of the list has put the value at `alpha` into its output, and nothing
    /// else changed.
    pub open spec fn after_sampling<S, A, H>(
        self,
        before: Mirror,
        list: Seq<(InstanceId, usize)>,
        alpha: F64,
        math: Elementary<S, A, H>,
    ) -> bool where S: Fn(F64) -> F64, A: Fn(F64) -> F64, H: Fn(F64, F64) -> F64 {
        &&& self == (Mirror { store: self.store, ..before })
        &&& only_values(self.store, before.store)
        &&& forall|i: InstanceId, ti: usize| #[trigger]
            list.contains((i, ti)) && before.store.present(i) ==> {
                let tr = before.tracks@[ti as int];
                let (prev, cur) = before.store.pair(i, tr.slot as int);
                tr.kind.sampled(prev, cur, alpha, math, self.store.value(i, tr.out))
            }
        &&& forall|i: InstanceId, f: RFieldId|
            !moves(before.tracks@, list, i, f) ==> #[trigger] self.store.value(i, f)
                == before.store.value(i, f)
    }

    fn write_samples<S, A, H>(
        &mut self,
        list: &Vec<(InstanceId, usize)>,
        alpha: F64,
        math: &Elementary<S, A, H>,
    ) where S: Fn(F64) -> F64, A: Fn(F64) -> F64, H: Fn(F64, F64) -> F64
        requires
            old(self).wf(),
            math.total(),
            movements_ok(old(self).tracks@, list@),
        ensures
            final(self).wf(),
            final(self).after_sampling(*old(self), list@, alpha, *math),
    {
        let ghost before = *self;
        let mut k: usize = 0;
        while k < list.len()
            invariant
                k <= list@.len(),
                math.total(),
                before.wf(),
                self.wf(),
                movements_ok(before.tracks@, list@),
                self.after_sampling(before, list@.take(k as int), alpha, *math),
            decreases list@.len() - k,
        {
            let ghost mid = *self;
            let (inst, ti) = list[k];
            let ghost done = list@.take(k as int);
            let ghost next = list@.take(k + 1);
            proof {
                assert(movement_ok(before.tracks@, list@[k as int]));
                assert(before.track_ok(before.tracks@[ti as int]));
                assert(self.track_ok(self.tracks@[ti as int]));
                assert(next =~= done.push((inst, ti)));
                assert forall|a: (InstanceId, usize)| #[trigger] next.contains(a)
                    <==> done.contains(a) || a == (inst, ti) by {
                    if done.contains(a) {
                        let j = choose|j: int| 0 <= j < done.len() && done[j] == a;
                        assert(next[j] == a);
                    }
                    assert(next[k as int] == (inst, ti));
                    if next.contains(a) {
                        let j = choose|j: int| 0 <= j < next.len() && next[j] == a;
                        if j < k {
                            assert(done[j] == a);
                        }
                    }
                }
            }
            let tr = self.tracks[ti];
            if let Some((prev, cur)) = self.store.track_pair(inst, tr.slot) {
                let v = tr.kind.sample(&prev, &cur, alpha, math);
                self.store.write_render(inst, tr.out, v);
                proof {
                    lemma_only_values_step(self.store, mid.store, before.store);
                    assert(mid.store.pair(inst, tr.slot as int) == before.store.pair(
                        inst,
                        tr.slot as int,
                    ));
                    lemma_setup_kept(*self, mid);
                }
            }
            proof {
                assert forall|i: InstanceId, x: usize| #[trigger]
                    next.contains((i, x)) && before.store.present(i) implies ({
                    let t = before.tracks@[x as int];
                    let (prev, cur) = before.store.pair(i, t.slot as int);
                    t.kind.sampled(prev, cur, alpha, *math, self.store.value(i, t.out))
                }) by {
                    if (i, x) != (inst, ti) {
                        assert(done.contains((i, x)));
                        if i == inst {
                            let j = choose|j: int| 0 <= j < done.len() && done[j] == (i, x);
                            assert(movement_ok(before.tracks@, list@[j]));
                            let a = before.tracks@[x as int];
                            let b = before.tracks@[ti as int];
                            assert(a.ty == b.ty);
                            assert(a.out != b.out);
                        }
                        assert(self.store.value(i, before.tracks@[x as int].out)
                            == mid.store.value(i, before.tracks@[x as int].out));
                    } else {
                        assert(mid.store.present(inst));
                        assert(mid.store.field_known(inst.ty, tr.out));
                    }
                }
                assert forall|i: InstanceId, f: RFieldId|
                    !moves(before.tracks@, next, i, f) implies #[trigger] self.store.value(i, f)
                    == before.store.value(i, f) by {
                    if moves(before.tracks@, done, i, f) {
                        let x = choose|x: usize| #[trigger]
                            done.contains((i, x)) && before.tracks@[x as int].out == f;
                        assert(next.contains((i, x)));
                    }
                    if i == inst && f == tr.out {
                        assert(next.contains((inst, ti)));
                    }
                    assert(mid.store.value(i, f) == before.store.value(i, f));
                }
            }
            k = k + 1;
        }
        assert(list@.take(list@.len() as int) =~= list@);
    }

    /// What moved before and moves no more comes to rest: its output is what the last
    /// interpolation ends with.
    pub fn settle<S, A, H>(
        &mut self,
        prev: &Vec<(InstanceId, usize)>,
        math: &Elementary<S, A, H>,
    ) where S: Fn(F64) -> F64, A: Fn(F64) -> F64, H: Fn(F64, F64) -> F64
        requires
            old(self).wf(),
            math.total(),
            movements_ok(old(self).tracks@, prev@),
        ensures
            final(self).wf(),
            final(self).after_sampling(
                *old(self),
                kept(prev@, |a: (InstanceId, usize)| !old(self).active@.contains(a)),
                of_int(1),
                *math,
            ),
    {
        let rest = movements_without(prev, &self.active);
        proof {
            let active = self.active@;
            lemma_kept(prev@, |a: (InstanceId, usize)| !active.contains(a));
            assert forall|k: int| 0 <= k < rest@.len() implies movement_ok(
                self.tracks@,
                #[trigger] rest@[k],
            ) by {
                assert(rest@.contains(rest@[k]));
                let j = choose|j: int| 0 <= j < prev@.len() && prev@[j] == rest@[k];
                assert(movement_ok(self.tracks@, prev@[j]));
            }
        }
        self.write_samples(&rest, F64::from_i64(1), math);
    }

    /// The movement places its instance in the grid.
    pub open spec fn places(self, a: (InstanceId, usize)) -> bool {
        &&& self.store.present(a.0)
        &&& match self.culling(a.0.ty) {
            Some(c) => self.tracks@[a.1 as int].slot == c.track_slot,
            None => false,
        }
    }

    /// `self` is `before` once everything that moves was interpolated: the outputs hold the
    /// values at `alpha`, the culled ones stand there, and who is gone moves no more.
    pub open spec fn after_sweep<S, A, H>(
        self,
        before: Mirror,
        alpha: F64,
        math: Elementary<S, A, H>,
    ) -> bool where S: Fn(F64) -> F64, A: Fn(F64) -> F64, H: Fn(F64, F64) -> F64 {
        &&& (Mirror { active: before.active, spatial: before.spatial, ..self }).after_sampling(
            before,
            before.active@,
            alpha,
            math,
        )
        &&& self.active@ == kept(
            before.active@,
            |a: (InstanceId, usize)| before.store.present(a.0),
        )
        &&& self.same_view(before)
        &&& forall|i: InstanceId, ti: usize| #[trigger]
            before.active@.contains((i, ti)) && before.places((i, ti)) ==> self.grid_at(i)
                == before.place(self.store.value(i, before.tracks@[ti as int].out))
        &&& forall|i: InstanceId|
            (forall|ti: usize| #[trigger]
                before.active@.contains((i, ti)) ==> !before.places((i, ti)))
                ==> #[trigger] self.grid_at(i) == before.grid_at(i)
    }

    /// Interpolates everything that moves.
    pub fn sweep<S, A, H>(&mut self, alpha: F64, math: &Elementary<S, A, H>) where
        S: Fn(F64) -> F64,
        A: Fn(F64) -> F64,
        H: Fn(F64, F64) -> F64,

        requires
            old(self).wf(),
            math.total(),
        ensures
            final(self).wf(),
            final(self).after_sweep(*old(self), alpha, *math),
    {
        let ghost before = *self;
        let mut list: Vec<(InstanceId, usize)> = Vec::new();
        core::mem::swap(&mut list, &mut self.active);
        proof {
            assert forall|k: int| 0 <= k < list@.len() implies movement_ok(
                before.tracks@,
                #[trigger] list@[k],
            ) by {
                assert(before.active@[k].1 < before.tracks@.len());
            }
            lemma_setup_kept(*self, before);
        }
        let ghost bare = *self;
        self.write_samples(&list, alpha, math);
        let ghost sampled = *self;
        let ghost p = |a: (InstanceId, usize)| before.store.present(a.0);
        let mut still: Vec<(InstanceId, usize)> = Vec::new();
        let mut k: usize = 0;
        assert(list@.take(0) =~= Seq::empty());
        proof {
            assert(forall|i: InstanceId| #[trigger] self.grid_at(i) == before.grid_at(i));
            assert(forall|ty: EntityTypeId| #[trigger] self.culling(ty) == before.culling(ty));
            assert(forall|v: Val| #[trigger] self.place(v) == before.place(v));
        }
        while k < list.len()
            invariant
                p == (|a: (InstanceId, usize)| before.store.present(a.0)),
                k <= list@.len(),
                before.wf(),
                sampled.wf(),
                self.wf(),
                list@ == before.active@,
                movements_ok(before.tracks@, list@),
                sampled.tracks == before.tracks,
                only_values(sampled.store, before.store),
                *self == (Mirror { spatial: self.spatial, ..sampled }),
                self.same_view(sampled),
                forall|ty: EntityTypeId| #[trigger] sampled.culling(ty) == before.culling(ty),
                forall|v: Val| #[trigger] sampled.place(v) == before.place(v),
                still@ == kept(list@.take(k as int), p),
                forall|i: InstanceId, ti: usize| #[trigger]
                    list@.take(k as int).contains((i, ti)) && before.places((i, ti))
                        ==> self.grid_at(i) == before.place(
                        sampled.store.value(i, before.tracks@[ti as int].out),
                    ),
                forall|i: InstanceId|
                    (forall|ti: usize| #[trigger]
                        list@.take(k as int).contains((i, ti)) ==> !before.places((i, ti)))
                        ==> #[trigger] self.grid_at(i) == before.grid_at(i),
            decreases list@.len() - k,
        {
            let ghost mid = *self;
            let ghost done = list@.take(k as int);
            let ghost next = list@.take(k + 1);
            let (inst, ti) = list[k];
            proof {
                lemma_kept_next(list@, p, k as int);
                assert(movement_ok(before.tracks@, list@[k as int]));
                assert(next =~= done.push((inst, ti)));
                assert(next[k as int] == (inst, ti));
                assert forall|a: (InstanceId, usize)| #[trigger] next.contains(a)
                    <==> done.contains(a) || a == (inst, ti) by {
                    if done.contains(a) {
                        let j = choose|j: int| 0 <= j < done.len() && done[j] == a;
                        assert(next[j] == a);
                    }
                    if next.contains(a) {
                        let j = choose|j: int| 0 <= j < next.len() && next[j] == a;
                        if j < k {
                            assert(done[j] == a);
                        }
                    }
                }
                assert forall|ty: EntityTypeId| #[trigger] mid.culling(ty) == before.culling(ty) by {
                    assert(sampled.culling(ty) == before.culling(ty));
                }
                assert forall|v: Val| #[trigger] mid.place(v) == before.place(v) by {
                    assert(sampled.place(v) == before.place(v));
                }
            }
            let tr = self.tracks[ti];
            if self.store.is_present(inst) {
                if let Some(c) = self.culling_of(inst.ty) {
                    if c.track_slot == tr.slot {
                        let v = self.store.read_render(inst, tr.out);
                        self.put(inst, &v);
                    }
                }
                still.push((inst, ti));
            }
            proof {
                assert(before.places((inst, ti)) ==> self.grid_at(inst) == before.place(
                    sampled.store.value(inst, tr.out),
                ));
                assert(!before.places((inst, ti)) ==> *self == mid);
                assert forall|i: InstanceId, x: usize| #[trigger]
                    next.contains((i, x)) && before.places((i, x)) implies self.grid_at(i)
                    == before.place(sampled.store.value(i, before.tracks@[x as int].out)) by {
                    if (i, x) != (inst, ti) {
                        assert(done.contains((i, x)));
                        if i == inst && before.places((inst, ti)) {
                            let j = choose|j: int| 0 <= j < done.len() && done[j] == (i, x);
                            assert(movement_ok(before.tracks@, list@[j]));
                            let a = before.tracks@[x as int];
                            let b = before.tracks@[ti as int];
                            assert(a.ty == b.ty);
                            assert(a.slot != b.slot);
                        }
                    }
                }
                assert forall|i: InstanceId|
                    (forall|x: usize| #[trigger]
                        next.contains((i, x)) ==> !before.places((i, x))) implies
                    #[trigger] self.grid_at(i) == before.grid_at(i) by {
                    assert forall|x: usize| #[trigger] done.contains((i, x)) implies !before.places(
                        (i, x),
                    ) by {
                        assert(next.contains((i, x)));
                    }
                    assert(mid.grid_at(i) == before.grid_at(i));
                    if i == inst {
                        assert(next.contains((inst, ti)));
                    }
                }
            }
            k = k + 1;
        }
        let ghost swept = *self;
        self.active = still;
        proof {
            assert(list@.take(list@.len() as int) =~= list@);
            lemma_active_kept(before, self.active@, p);
            lemma_setup_kept(*self, before);
            assert(forall|i: InstanceId| #[trigger] self.grid_at(i) == swept.grid_at(i));
            assert((Mirror { active: before.active, spatial: before.spatial, ..*self })
                == (Mirror { active: before.active, ..sampled }));
        }
    }
}

}
