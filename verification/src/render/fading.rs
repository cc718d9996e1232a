//! Deaths, and the fading of the dead.
use crate::entity::EntityTypeId;
use crate::entity::InstanceId;
use crate::float64::of_int;
use crate::float64::F64;
use crate::render::clock::clamp;
use crate::render::clock::clamped;
use crate::lists::first;
use crate::lists::kept;
use crate::lists::lemma_first;
use crate::lists::lemma_first_found;
use crate::lists::lemma_kept_all;
use crate::lists::lemma_kept_next;
use crate::lists::lemma_kept_same;
use crate::lists::lemma_kept_twice;
use crate::render::mirror::lemma_active_kept;
use crate::render::mirror::lemma_setup_kept;
use crate::render::mirror::Mirror;
use crate::render::store::RFieldId;
use crate::value::Val;
use crate::value::Value;
use vstd::prelude::*;

verus! {

/// The smaller of two numbers.
pub open spec fn lesser(a: F64, b: F64) -> F64 {
    if a.nan() || b.flt(a) {
        b
    } else {
        a
    }
}

/// The entry is that of the instance.
pub open spec fn entry_of(inst: InstanceId) -> spec_fn((InstanceId, F64)) -> bool {
    |d: (InstanceId, F64)| d.0 == inst
}

/// The place of an instance among those that fade.
pub open spec fn dying_at(dying: Seq<(InstanceId, F64)>, inst: InstanceId) -> int {
    first(dying, entry_of(inst))
}

/// One more fades; who fades already fades no longer than that.
pub open spec fn doomed(
    dying: Seq<(InstanceId, F64)>,
    inst: InstanceId,
    duration: F64,
) -> Seq<(InstanceId, F64)> {
    let k = dying_at(dying, inst);
    if k < dying.len() {
        dying.update(k, (inst, lesser(dying[k].1, duration)))
    } else {
        dying.push((inst, duration))
    }
}

impl Mirror {
    /// Who fades after the first `n` deaths.
    pub open spec fn dying_after(self, deaths: Seq<InstanceId>, n: int) -> Seq<(InstanceId, F64)>
        decreases n,
    {
        if n <= 0 {
            self.dying@
        } else {
            let s = self.dying_after(deaths, n - 1);
            match self.fading(deaths[n - 1].ty) {
                Some(f) => if self.store.present(deaths[n - 1]) {
                    doomed(s, deaths[n - 1], f.duration)
                } else {
                    s
                },
                None => s,
            }
        }
    }

    /// The instance is among the dead and does not fade.
    pub open spec fn gone(self, deaths: Seq<InstanceId>, i: InstanceId) -> bool {
        deaths.contains(i) && self.fading(i.ty) is None
    }

    /// `self` is `before` once `deaths` have come: who fades stays for a while, and the
    /// others are gone at once, from every list and from the grid.
    pub open spec fn after_deaths(self, before: Mirror, deaths: Seq<InstanceId>) -> bool {
        &&& self.same_setup(before)
        &&& self.same_view(before)
        &&& forall|i: InstanceId| #[trigger]
            self.store.present(i) <==> before.store.present(i) && !before.gone(deaths, i)
        &&& forall|i: InstanceId, f: RFieldId| #[trigger]
            self.store.value(i, f) == (if before.gone(deaths, i) {
                Val::Null
            } else {
                before.store.value(i, f)
            })
        &&& forall|i: InstanceId, t: int|
            self.store.present(i) && self.store.slot_known(i.ty, t) ==> #[trigger] self.store.pair(
                i,
                t,
            ) == before.store.pair(i, t)
        &&& self.dying@ == before.dying_after(deaths, deaths.len() as int)
        &&& self.active@ == kept(
            before.active@,
            |a: (InstanceId, usize)| !before.gone(deaths, a.0),
        )
        &&& forall|i: InstanceId| #[trigger]
            self.grid_at(i) == (if deaths.contains(i) && (before.fading(i.ty) is None
                || !before.store.present(i)) {
                None
            } else {
                before.grid_at(i)
            })
    }
}

/// Adds an instance to those that fade.
fn push_dying(dying: &mut Vec<(InstanceId, F64)>, inst: InstanceId, duration: F64)
    requires
        forall|i: int, j: int|
            0 <= i < j < old(dying)@.len() ==> (#[trigger] old(dying)@[i]).0 != (
            #[trigger] old(dying)@[j]).0,
    ensures
        final(dying)@ == doomed(old(dying)@, inst, duration),
        forall|i: int, j: int|
            0 <= i < j < final(dying)@.len() ==> (#[trigger] final(dying)@[i]).0 != (
            #[trigger] final(dying)@[j]).0,
{
    let ghost before = dying@;
    let mut k: usize = 0;
    while k < dying.len()
        invariant
            dying@ == before,
            k <= dying@.len(),
            forall|j: int| 0 <= j < k ==> (#[trigger] dying@[j]).0 != inst,
        ensures
            dying@ == before,
            k <= dying@.len(),
            forall|j: int| 0 <= j < k ==> (#[trigger] dying@[j]).0 != inst,
            k < dying@.len() ==> dying@[k as int].0 == inst,
        decreases dying@.len() - k,
    {
        if dying[k].0 == inst {
            break;
        }
        k = k + 1;
    }
    proof {
        lemma_first(before, entry_of(inst), k as int);
    }
    if k < dying.len() {
        let left = dying[k].1;
        let less = if left.is_nan() || duration.lt(left) {
            duration
        } else {
            left
        };
        dying.set(k, (inst, less));
        proof {
            assert forall|i: int, j: int| 0 <= i < j < dying@.len() implies (
            #[trigger] dying@[i]).0 != (#[trigger] dying@[j]).0 by {
                assert(before[i].0 != before[j].0);
            }
        }
    } else {
        dying.push((inst, duration));
        proof {
            assert forall|i: int, j: int| 0 <= i < j < dying@.len() implies (
            #[trigger] dying@[i]).0 != (#[trigger] dying@[j]).0 by {
                if j < before.len() {
                    assert(before[i].0 != before[j].0);
                }
            }
        }
    }
}

/// Keeps the movements of other instances.
fn active_but(active: &Vec<(InstanceId, usize)>, inst: InstanceId) -> (r: Vec<(InstanceId, usize)>)
    ensures
        r@ == kept(active@, |a: (InstanceId, usize)| a.0 != inst),
{
    let ghost p = |a: (InstanceId, usize)| a.0 != inst;
    let mut out: Vec<(InstanceId, usize)> = Vec::new();
    let mut i: usize = 0;
    assert(active@.take(0) =~= Seq::empty());
    while i < active.len()
        invariant
            p == (|a: (InstanceId, usize)| a.0 != inst),
            i <= active@.len(),
            out@ == kept(active@.take(i as int), p),
        decreases active@.len() - i,
    {
        proof {
            lemma_kept_next(active@, p, i as int);
        }
        if active[i].0 != inst {
            out.push(active[i]);
        }
        i = i + 1;
    }
    assert(active@.take(active@.len() as int) =~= active@);
    out
}

impl Mirror {
    /// An instance is gone at once.
    fn reclaim(&mut self, inst: InstanceId)
        requires
            old(self).wf(),
        ensures
            final(self).wf(),
            final(self).same_setup(*old(self)),
            final(self).same_view(*old(self)),
            final(self).dying == old(self).dying,
            forall|i: InstanceId| #[trigger]
                final(self).store.present(i) <==> old(self).store.present(i) && i != inst,
            forall|i: InstanceId, f: RFieldId| #[trigger]
                final(self).store.value(i, f) == (if i == inst {
                    Val::Null
                } else {
                    old(self).store.value(i, f)
                }),
            forall|i: InstanceId, t: int|
                final(self).store.present(i) && final(self).store.slot_known(i.ty, t)
                    ==> #[trigger] final(self).store.pair(i, t) == old(self).store.pair(i, t),
            final(self).active@ == kept(
                old(self).active@,
                |a: (InstanceId, usize)| a.0 != inst,
            ),
            forall|i: InstanceId| #[trigger]
                final(self).grid_at(i) == (if i == inst {
                    None
                } else {
                    old(self).grid_at(i)
                }),
    {
        let ghost before = *self;
        self.store.death(inst);
        proof {
            assert forall|i: InstanceId| #[trigger] self.store.present(i) <==> before.store.present(
                i,
            ) && i != inst by {
                if i.ty == inst.ty && i.id == inst.id && i != inst {
                    if before.store.present(inst) {
                        assert(!before.store.present(i));
                    }
                }
            }
            assert forall|i: InstanceId, f: RFieldId| #[trigger] self.store.value(i, f) == (if i
                == inst {
                Val::Null
            } else {
                before.store.value(i, f)
            }) by {
                assert(self.store.present(i) <==> before.store.present(i) && i != inst);
            }
        }
        self.active = active_but(&self.active, inst);
        proof {
            lemma_active_kept(before, self.active@, |a: (InstanceId, usize)| a.0 != inst);
            lemma_setup_kept(*self, before);
            assert(forall|i: InstanceId| #[trigger] self.grid_at(i) == before.grid_at(i));
        }
        self.drop_out(inst);
    }

    /// Instances die, in order.
    pub fn take_deaths(&mut self, deaths: &Vec<InstanceId>)
        requires
            old(self).wf(),
        ensures
            final(self).wf(),
            final(self).after_deaths(*old(self), deaths@),
    {
        let ghost before = *self;
        let mut k: usize = 0;
        proof {
            let none = deaths@.take(0);
            assert(none =~= Seq::empty());
            lemma_kept_all(before.active@, |a: (InstanceId, usize)| !before.gone(none, a.0));
        }
        while k < deaths.len()
            invariant
                k <= deaths@.len(),
                before.wf(),
                self.wf(),
                self.after_deaths(before, deaths@.take(k as int)),
            decreases deaths@.len() - k,
        {
            let ghost mid = *self;
            let inst = deaths[k];
            let ghost done = deaths@.take(k as int);
            let ghost next = deaths@.take(k + 1);
            proof {
                assert(next =~= done.push(inst));
                assert(next[k as int] == inst);
                assert forall|i: InstanceId| #[trigger] next.contains(i) <==> done.contains(i) || i
                    == inst by {
                    if done.contains(i) {
                        let j = choose|j: int| 0 <= j < done.len() && done[j] == i;
                        assert(next[j] == i);
                    }
                    if next.contains(i) {
                        let j = choose|j: int| 0 <= j < next.len() && next[j] == i;
                        if j < k {
                            assert(done[j] == i);
                        }
                    }
                }
                assert(forall|ty: EntityTypeId| #[trigger] mid.fading(ty) == before.fading(ty));
                assert(done =~= next.take(k as int));
                lemma_dying_after_prefix(before, done, next, k as int);
            }
            match self.fade_of(inst.ty) {
                Some(f) => {
                    proof {
                        assert(!before.gone(done, inst));
                        assert(mid.store.present(inst) <==> before.store.present(inst));
                        lemma_kept_same(
                            before.active@,
                            |a: (InstanceId, usize)| !before.gone(done, a.0),
                            |a: (InstanceId, usize)| !before.gone(next, a.0),
                        );
                    }
                    if self.store.is_present(inst) {
                        push_dying(&mut self.dying, inst, f.duration);
                        proof {
                            lemma_setup_kept(*self, mid);
                            assert(forall|i: InstanceId| #[trigger]
                                self.grid_at(i) == mid.grid_at(i));
                        }
                    } else {
                        self.drop_out(inst);
                    }
                },
                None => {
                    self.reclaim(inst);
                    proof {
                        assert forall|t: int| 0 <= t < self.store.types@.len() implies (
                        #[trigger] self.store.types@[t]).same_schema(before.store.types@[t]) by {
                            assert(mid.store.types@[t].same_schema(before.store.types@[t]));
                        }
                        assert forall|i: InstanceId, t: int|
                            self.store.present(i) && self.store.slot_known(
                                i.ty,
                                t,
                            ) implies #[trigger] self.store.pair(i, t) == before.store.pair(
                            i,
                            t,
                        ) by {
                            assert(self.store.types@[i.ty.0 as int].same_schema(
                                mid.store.types@[i.ty.0 as int],
                            ));
                            assert(mid.store.present(i));
                            assert(mid.store.slot_known(i.ty, t));
                            assert(self.store.pair(i, t) == mid.store.pair(i, t));
                            assert(mid.store.pair(i, t) == before.store.pair(i, t));
                        }
                        let p = |a: (InstanceId, usize)| !before.gone(done, a.0);
                        let q = |a: (InstanceId, usize)| a.0 != inst;
                        lemma_kept_twice(before.active@, p, q);
                        lemma_kept_same(
                            before.active@,
                            |a: (InstanceId, usize)| p(a) && q(a),
                            |a: (InstanceId, usize)| !before.gone(next, a.0),
                        );
                    }
                },
            }
            k = k + 1;
        }
        assert(deaths@.take(deaths@.len() as int) =~= deaths@);
    }
}

proof fn lemma_dying_after_prefix(m: Mirror, done: Seq<InstanceId>, next: Seq<InstanceId>, k: int)
    requires
        done.len() == k,
        next.len() == k + 1,
        done == next.take(k),
    ensures
        m.dying_after(next, k + 1) == (match m.fading(next[k].ty) {
            Some(f) => if m.store.present(next[k]) {
                doomed(m.dying_after(done, k), next[k], f.duration)
            } else {
                m.dying_after(done, k)
            },
            None => m.dying_after(done, k),
        }),
{
    lemma_dying_after_agree(m, done, next, k);
}

proof fn lemma_dying_after_agree(m: Mirror, a: Seq<InstanceId>, b: Seq<InstanceId>, n: int)
    requires
        n <= a.len(),
        n <= b.len(),
        forall|i: int| 0 <= i < n ==> a[i] == b[i],
    ensures
        m.dying_after(a, n) == m.dying_after(b, n),
    decreases n,
{
    if n > 0 {
        lemma_dying_after_agree(m, a, b, n - 1);
    }
}

impl Mirror {
    /// How many seconds an instance that fades has left after `dt` more.
    pub open spec fn left(self, i: InstanceId, dt: F64) -> Option<F64> {
        let k = dying_at(self.dying@, i);
        if 0 <= k < self.dying@.len() && self.store.present(i) {
            Some(self.dying@[k].1.sub_spec(dt))
        } else {
            None
        }
    }

    /// The instance has faded away.
    pub open spec fn expired(self, i: InstanceId, dt: F64) -> bool {
        self.left(i, dt) is Some && !of_int(0).flt(self.left(i, dt)->0)
    }

    /// Who still fades among the first `n`.
    pub open spec fn still_dying(self, dt: F64, n: int) -> Seq<(InstanceId, F64)>
        decreases n,
    {
        if n <= 0 {
            Seq::empty()
        } else {
            let s = self.still_dying(dt, n - 1);
            let (i, remaining) = self.dying@[n - 1];
            if self.store.present(i) && of_int(0).flt(remaining.sub_spec(dt)) {
                s.push((i, remaining.sub_spec(dt)))
            } else {
                s
            }
        }
    }

    /// The value of a field after `dt` more seconds of fading.
    pub open spec fn faded(self, i: InstanceId, f: RFieldId, dt: F64) -> Val {
        match self.left(i, dt) {
            Some(r) => if !of_int(0).flt(r) {
                Val::Null
            } else {
                match self.fading(i.ty) {
                    Some(fade) => if fade.field == f {
                        Val::Float(clamped(r.div_spec(fade.duration)))
                    } else {
                        self.store.value(i, f)
                    },
                    None => self.store.value(i, f),
                }
            },
            None => self.store.value(i, f),
        }
    }

    /// `self` is `before` after `dt` more seconds: the fading field of who fades falls in
    /// proportion to the time left, and who has faded away is gone.
    pub open spec fn after_fading(self, before: Mirror, dt: F64) -> bool {
        &&& self.same_setup(before)
        &&& self.same_view(before)
        &&& forall|i: InstanceId| #[trigger]
            self.store.present(i) <==> before.store.present(i) && !before.expired(i, dt)
        &&& forall|i: InstanceId, f: RFieldId| #[trigger]
            self.store.value(i, f) == before.faded(i, f, dt)
        &&& forall|i: InstanceId, t: int|
            self.store.present(i) && self.store.slot_known(i.ty, t) ==> #[trigger] self.store.pair(
                i,
                t,
            ) == before.store.pair(i, t)
        &&& self.dying@ == before.still_dying(dt, before.dying@.len() as int)
        &&& self.active@ == kept(
            before.active@,
            |a: (InstanceId, usize)| !before.expired(a.0, dt),
        )
        &&& forall|i: InstanceId| #[trigger]
            self.grid_at(i) == (if before.expired(i, dt) {
                None
            } else {
                before.grid_at(i)
            })
    }

    /// The same with the first `n` of those that fade alone.
    spec fn fading_upto(self, before: Mirror, dt: F64, n: int) -> bool {
        let due = |i: InstanceId| dying_at(before.dying@, i) < n;
        &&& self.same_setup(before)
        &&& self.same_view(before)
        &&& forall|i: InstanceId| #[trigger]
            self.store.present(i) <==> before.store.present(i) && !(due(i) && before.expired(i, dt))
        &&& forall|i: InstanceId, f: RFieldId| #[trigger]
            self.store.value(i, f) == (if due(i) {
                before.faded(i, f, dt)
            } else {
                before.store.value(i, f)
            })
        &&& forall|i: InstanceId, t: int|
            self.store.present(i) && self.store.slot_known(i.ty, t) ==> #[trigger] self.store.pair(
                i,
                t,
            ) == before.store.pair(i, t)
        &&& self.active@ == kept(
            before.active@,
            |a: (InstanceId, usize)| !(due(a.0) && before.expired(a.0, dt)),
        )
        &&& forall|i: InstanceId| #[trigger]
            self.grid_at(i) == (if due(i) && before.expired(i, dt) {
                None
            } else {
                before.grid_at(i)
            })
    }

    /// Lets the dead fade for `dt` more seconds.
    pub fn advance_dying(&mut self, dt: F64)
        requires
            old(self).wf(),
        ensures
            final(self).wf(),
            final(self).after_fading(*old(self), dt),
    {
        let ghost before = *self;
        let zero = F64::from_i64(0);
        let mut dying: Vec<(InstanceId, F64)> = Vec::new();
        core::mem::swap(&mut dying, &mut self.dying);
        let mut still: Vec<(InstanceId, F64)> = Vec::new();
        let mut k: usize = 0;
        proof {
            lemma_setup_kept(*self, before);
            assert forall|i: InstanceId| dying_at(before.dying@, i) >= 0 by {
                lemma_first_found(before.dying@, entry_of(i));
            }
            lemma_kept_all(
                before.active@,
                |a: (InstanceId, usize)|
                    !(dying_at(before.dying@, a.0) < 0 && before.expired(a.0, dt)),
            );
            lemma_kept_same(
                before.active@,
                |a: (InstanceId, usize)|
                    !(dying_at(before.dying@, a.0) < 0 && before.expired(a.0, dt)),
                |a: (InstanceId, usize)|
                    !((|i: InstanceId| dying_at(before.dying@, i) < 0)(a.0) && before.expired(
                        a.0,
                        dt,
                    )),
            );
            assert(forall|i: InstanceId| #[trigger] self.grid_at(i) == before.grid_at(i));
        }
        while k < dying.len()
            invariant
                k <= dying@.len(),
                zero == of_int(0),
                before.wf(),
                self.wf(),
                dying@ == before.dying@,
                self.dying@.len() == 0,
                self.fading_upto(before, dt, k as int),
                still@ == before.still_dying(dt, k as int),
                forall|i: int, j: int|
                    0 <= i < j < still@.len() ==> (#[trigger] still@[i]).0 != (
                    #[trigger] still@[j]).0,
                forall|j: int|
                    0 <= j < still@.len() ==> 0 <= dying_at(
                        before.dying@,
                        (#[trigger] still@[j]).0,
                    ) < k,
            decreases dying@.len() - k,
        {
            let ghost mid = *self;
            let (inst, remaining) = dying[k];
            let left = remaining.sub(dt);
            proof {
                assert forall|j: int| 0 <= j < k implies (#[trigger] before.dying@[j]).0 != inst by {
                    assert(before.dying@[j].0 != before.dying@[k as int].0);
                }
                lemma_first(before.dying@, entry_of(inst), k as int);
                assert(dying_at(before.dying@, inst) == k);
                assert forall|i: InstanceId|
                    #![trigger dying_at(before.dying@, i)]
                    dying_at(before.dying@, i) < k + 1 && !(dying_at(before.dying@, i) < k) implies i
                    == inst by {
                    lemma_first_found(before.dying@, entry_of(i));
                }
                assert(mid.store.present(inst) <==> before.store.present(inst));
                assert(forall|ty: EntityTypeId| #[trigger] mid.fading(ty) == before.fading(ty));
            }
            if self.store.is_present(inst) {
                proof {
                    assert(before.left(inst, dt) == Some(left));
                }
                if let Some(fade) = self.fade_of(inst.ty) {
                    proof {
                        let x = choose|x: int| 0 <= x < self.fades@.len() && self.fades@[x] == fade;
                        assert(self.store.field_known(self.fades@[x].ty, self.fades@[x].field));
                    }
                    let w = clamp(left.div(fade.duration));
                    self.store.write_render(inst, fade.field, Value::Float(w));
                    proof {
                        lemma_setup_kept(*self, mid);
                    }
                }
                let ghost dimmed = *self;
                assert(forall|i: InstanceId| #[trigger] dimmed.grid_at(i) == mid.grid_at(i));
                if zero.lt(left) {
                    still.push((inst, left));
                    proof {
                        lemma_kept_due(before, dt, k as int, inst);
                    }
                } else {
                    self.reclaim(inst);
                    proof {
                        lemma_kept_due(before, dt, k as int, inst);
                    }
                }
                proof {
                    assert forall|t: int| 0 <= t < self.store.types@.len() implies (
                    #[trigger] self.store.types@[t]).same_schema(before.store.types@[t]) by {
                        assert(dimmed.store.types@[t].same_schema(mid.store.types@[t]));
                        assert(mid.store.types@[t].same_schema(before.store.types@[t]));
                    }
                    assert forall|i: InstanceId, t: int|
                        self.store.present(i) && self.store.slot_known(
                            i.ty,
                            t,
                        ) implies #[trigger] self.store.pair(i, t) == before.store.pair(i, t) by {
                        assert(self.store.types@[i.ty.0 as int].same_schema(
                            before.store.types@[i.ty.0 as int],
                        ));
                        assert(mid.store.types@[i.ty.0 as int].same_schema(
                            before.store.types@[i.ty.0 as int],
                        ));
                        assert(dimmed.store.types@[i.ty.0 as int].same_schema(
                            mid.store.types@[i.ty.0 as int],
                        ));
                        assert(dimmed.store.present(i));
                        assert(mid.store.present(i));
                        assert(dimmed.store.slot_known(i.ty, t));
                        assert(mid.store.slot_known(i.ty, t));
                        assert(self.store.pair(i, t) == dimmed.store.pair(i, t));
                        assert(dimmed.store.pair(i, t) == mid.store.pair(i, t));
                        assert(mid.store.pair(i, t) == before.store.pair(i, t));
                    }
                    assert forall|i: InstanceId, f: RFieldId| #[trigger] self.store.value(i, f) == (
                    if dying_at(before.dying@, i) < k + 1 {
                        before.faded(i, f, dt)
                    } else {
                        before.store.value(i, f)
                    }) by {
                        assert(mid.store.value(i, f) == (if dying_at(before.dying@, i) < k {
                            before.faded(i, f, dt)
                        } else {
                            before.store.value(i, f)
                        }));
                        if i == inst {
                            assert(mid.store.value(i, f) == before.store.value(i, f));
                        } else {
                            assert(self.store.value(i, f) == mid.store.value(i, f));
                        }
                    }
                }
            } else {
                proof {
                    assert(before.left(inst, dt) is None);
                    lemma_kept_due(before, dt, k as int, inst);
                }
            }
            k = k + 1;
        }
        let ghost done = *self;
        self.dying = still;
        proof {
            lemma_setup_kept(*self, done);
            assert(forall|i: InstanceId| #[trigger] self.grid_at(i) == done.grid_at(i));
            assert forall|i: InstanceId| #[trigger] before.expired(i, dt) implies dying_at(
                before.dying@,
                i,
            ) < before.dying@.len() by {}
            lemma_kept_same(
                before.active@,
                |a: (InstanceId, usize)|
                    !((|i: InstanceId| dying_at(before.dying@, i) < before.dying@.len() as int)(a.0)
                        && before.expired(a.0, dt)),
                |a: (InstanceId, usize)| !before.expired(a.0, dt),
            );
            assert forall|i: InstanceId, f: RFieldId| #[trigger] self.store.value(i, f)
                == before.faded(i, f, dt) by {
                assert(done.store.value(i, f) == (if dying_at(before.dying@, i)
                    < before.dying@.len() {
                    before.faded(i, f, dt)
                } else {
                    before.store.value(i, f)
                }));
            }
        }
    }
}

/// One more of those that fade.
proof fn lemma_kept_due(before: Mirror, dt: F64, k: int, inst: InstanceId)
    requires
        before.dying_ok(),
        0 <= k < before.dying@.len(),
        before.dying@[k].0 == inst,
        dying_at(before.dying@, inst) == k,
    ensures
        before.expired(inst, dt) ==> kept(
            kept(
                before.active@,
                |a: (InstanceId, usize)|
                    !((|i: InstanceId| dying_at(before.dying@, i) < k)(a.0) && before.expired(
                        a.0,
                        dt,
                    )),
            ),
            |a: (InstanceId, usize)| a.0 != inst,
        ) == kept(
            before.active@,
            |a: (InstanceId, usize)|
                !((|i: InstanceId| dying_at(before.dying@, i) < k + 1)(a.0) && before.expired(
                    a.0,
                    dt,
                )),
        ),
        !before.expired(inst, dt) ==> kept(
            before.active@,
            |a: (InstanceId, usize)|
                !((|i: InstanceId| dying_at(before.dying@, i) < k)(a.0) && before.expired(
                    a.0,
                    dt,
                )),
        ) == kept(
            before.active@,
            |a: (InstanceId, usize)|
                !((|i: InstanceId| dying_at(before.dying@, i) < k + 1)(a.0) && before.expired(
                    a.0,
                    dt,
                )),
        ),
{
    let p = |a: (InstanceId, usize)|
        !((|i: InstanceId| dying_at(before.dying@, i) < k)(a.0) && before.expired(a.0, dt));
    let q = |a: (InstanceId, usize)| a.0 != inst;
    let r = |a: (InstanceId, usize)|
        !((|i: InstanceId| dying_at(before.dying@, i) < k + 1)(a.0) && before.expired(a.0, dt));
    assert forall|i: InstanceId|
        #![trigger dying_at(before.dying@, i)]
        dying_at(before.dying@, i) < k + 1 && !(dying_at(before.dying@, i) < k) implies i == inst by {
        lemma_first_found(before.dying@, entry_of(i));
    }
    if before.expired(inst, dt) {
        lemma_kept_twice(before.active@, p, q);
        lemma_kept_same(before.active@, |a: (InstanceId, usize)| p(a) && q(a), r);
    } else {
        lemma_kept_same(before.active@, p, r);
    }
}

}
