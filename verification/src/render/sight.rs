//! What is in view in a render frame.
use crate::entity::EntityTypeId;
use crate::entity::InstanceId;
use crate::float64::F64;
use crate::render::culling::CulledType;
use crate::render::culling::Spatial;
use crate::render::interp::Elementary;
use crate::render::mirror::lemma_only_values_step;
use crate::render::mirror::lemma_setup_kept;
use crate::render::mirror::Mirror;
use crate::render::store::RFieldId;
use crate::render::store::RenderStore;
use crate::render::submission::Bucket;
use crate::render::writes::only_values;
use crate::spatial_query::ascending;
use crate::value::Value;
use vstd::prelude::*;

verus! {

/// The bucket holds, in order, the instances of a type that are there and in `hits`.
pub open spec fn bucket_of(
    b: Bucket,
    ty: EntityTypeId,
    store: RenderStore,
    hits: spec_fn(InstanceId) -> bool,
) -> bool {
    &&& b.ty == ty
    &&& ascending(b.insts@)
    &&& forall|i: InstanceId| #[trigger]
        b.insts@.contains(i) <==> i.ty == ty && store.present(i) && hits(i)
}

impl Spatial {
    /// The camera's point on the plane, if it is there and has one.
    pub open spec fn eye(self, store: RenderStore) -> Option<(F64, F64)> {
        if store.present(self.camera) {
            self.axes.project_spec(store.value(self.camera, self.cam_pos))
        } else {
            None
        }
    }

    /// Who the camera's shape covers.
    pub open spec fn covers(self, eye: (F64, F64)) -> spec_fn(InstanceId) -> bool {
        |i: InstanceId| self.shape.sees(self.grid, eye.0, eye.1, i)
    }
}

impl Mirror {
    /// The instance is in view and gets its distance in the field.
    pub open spec fn measured(self, eye: (F64, F64), i: InstanceId, f: RFieldId) -> bool {
        &&& self.store.present(i)
        &&& self.spatial->0.covers(eye)(i)
        &&& match self.culling(i.ty) {
            Some(c) => c.dist_field == Some(f),
            None => false,
        }
    }

    /// `self` is `before` once the view was computed. Without a camera, nothing is culled.
    /// With one, the buckets hold what its shape covers, whoever is no longer there has left
    /// the grid, and the distances of what is in view are noted.
    pub open spec fn after_view<S, A, H>(self, before: Mirror, math: Elementary<S, A, H>) -> bool where
        S: Fn(F64) -> F64,
        A: Fn(F64) -> F64,
        H: Fn(F64, F64) -> F64,
     {
        &&& self.same_setup(before)
        &&& self.active == before.active
        &&& self.dying == before.dying
        &&& only_values(self.store, before.store)
        &&& match before.spatial {
            None => self.spatial is None && forall|i: InstanceId, f: RFieldId| #[trigger]
                self.store.value(i, f) == before.store.value(i, f),
            Some(sp) => match sp.eye(before.store) {
                None => {
                    &&& !self.spatial->0.active
                    &&& forall|k: int|
                        0 <= k < self.spatial->0.visible@.len() ==> (
                        #[trigger] self.spatial->0.visible@[k]).insts@.len() == 0
                    &&& forall|i: InstanceId| #[trigger] self.grid_at(i) == before.grid_at(i)
                    &&& forall|i: InstanceId, f: RFieldId| #[trigger]
                        self.store.value(i, f) == before.store.value(i, f)
                },
                Some(eye) => {
                    &&& self.spatial->0.active
                    &&& forall|k: int|
                        0 <= k < self.spatial->0.visible@.len() ==> bucket_of(
                            #[trigger] self.spatial->0.visible@[k],
                            sp.culled@[k].ty,
                            before.store,
                            sp.covers(eye),
                        )
                    &&& forall|i: InstanceId| #[trigger]
                        self.grid_at(i) == (if sp.covers(eye)(i) && !before.store.present(i) {
                            None
                        } else {
                            before.grid_at(i)
                        })
                    &&& forall|i: InstanceId, f: RFieldId|
                        before.measured(eye, i, f) ==> {
                            let (x, y) = before.grid_at(i)->0;
                            &&& (#[trigger] self.store.value(i, f)) is Float
                            &&& math.hypot.ensures(
                                (x.sub_spec(eye.0), y.sub_spec(eye.1)),
                                self.store.value(i, f)->Float_0,
                            )
                        }
                    &&& forall|i: InstanceId, f: RFieldId|
                        !before.measured(eye, i, f) ==> #[trigger] self.store.value(i, f)
                            == before.store.value(i, f)
                },
            },
        }
    }
}

/// The instances of a type that are there, of some.
fn of_type(store: &RenderStore, hits: &Vec<InstanceId>, ty: EntityTypeId) -> (r: Vec<InstanceId>)
    requires
        ascending(hits@),
    ensures
        ascending(r@),
        forall|i: InstanceId| #[trigger]
            r@.contains(i) <==> i.ty == ty && store.present(i) && hits@.contains(i),
{
    let mut out: Vec<InstanceId> = Vec::new();
    let mut k: usize = 0;
    while k < hits.len()
        invariant
            ascending(hits@),
            k <= hits@.len(),
            ascending(out@),
            forall|a: int|
                0 <= a < out@.len() ==> exists|b: int|
                    0 <= b < k && hits@[b] == #[trigger] out@[a],
            forall|i: InstanceId| #[trigger]
                out@.contains(i) <==> i.ty == ty && store.present(i) && hits@.take(
                    k as int,
                ).contains(i),
        decreases hits@.len() - k,
    {
        let inst = hits[k];
        let ghost before = out@;
        let ghost done = hits@.take(k as int);
        let ghost next = hits@.take(k + 1);
        proof {
            assert(next =~= done.push(inst));
            assert(next[k as int] == inst);
            assert forall|i: InstanceId| #[trigger] next.contains(i) <==> done.contains(i) || i
                == inst by {
                if done.contains(i) {
                    let j = choose|j: int| 0 <= j < done.len() && done[j] == i;
                    assert(next[j] == i);
                }
                if next.contains(i) {
                    let j = choose|j: int| 0 <= j < next.len() && next[j] == i;
                    if j < k {
                        assert(done[j] == i);
                    }
                }
            }
        }
        if inst.ty == ty && store.is_present(inst) {
            out.push(inst);
            proof {
                assert forall|a: int| 0 <= a < out@.len() implies exists|b: int|
                    0 <= b < k + 1 && hits@[b] == #[trigger] out@[a] by {
                    if a < before.len() {
                        let b = choose|b: int| 0 <= b < k && hits@[b] == before[a];
                        assert(hits@[b] == out@[a]);
                    } else {
                        assert(hits@[k as int] == out@[a]);
                    }
                }
                assert forall|i: InstanceId| #[trigger] out@.contains(i) <==> before.contains(i) || i
                    == inst by {
                    if before.contains(i) {
                        let j = choose|j: int| 0 <= j < before.len() && before[j] == i;
                        assert(out@[j] == i);
                    }
                    assert(out@[before.len() as int] == inst);
                    if out@.contains(i) {
                        let j = choose|j: int| 0 <= j < out@.len() && out@[j] == i;
                        if j < before.len() {
                            assert(before[j] == i);
                        }
                    }
                }
            }
        }
        k = k + 1;
    }
    assert(hits@.take(hits@.len() as int) =~= hits@);
    out
}

/// A bucket for each culled type.
fn buckets(store: &RenderStore, hits: &Vec<InstanceId>, culled: &Vec<CulledType>) -> (r: Vec<
    Bucket,
>)
    requires
        ascending(hits@),
    ensures
        r@.len() == culled@.len(),
        forall|k: int|
            0 <= k < r@.len() ==> bucket_of(
                #[trigger] r@[k],
                culled@[k].ty,
                *store,
                |i: InstanceId| hits@.contains(i),
            ),
{
    let mut out: Vec<Bucket> = Vec::new();
    let mut k: usize = 0;
    while k < culled.len()
        invariant
            ascending(hits@),
            k <= culled@.len(),
            out@.len() == k,
            forall|j: int|
                0 <= j < k ==> bucket_of(
                    #[trigger] out@[j],
                    culled@[j].ty,
                    *store,
                    |i: InstanceId| hits@.contains(i),
                ),
        decreases culled@.len() - k,
    {
        let ty = culled[k].ty;
        let insts = of_type(store, hits, ty);
        out.push(Bucket { ty, insts });
        k = k + 1;
    }
    out
}

impl Mirror {
    /// Computes what is in view.
    pub fn compute_visible<S, A, H>(&mut self, math: &Elementary<S, A, H>) where
        S: Fn(F64) -> F64,
        A: Fn(F64) -> F64,
        H: Fn(F64, F64) -> F64,

        requires
            old(self).wf(),
            math.total(),
        ensures
            final(self).wf(),
            final(self).after_view(*old(self), *math),
    {
        let ghost before = *self;
        let mut spatial: Option<Spatial> = None;
        core::mem::swap(&mut spatial, &mut self.spatial);
        let mut sp = match spatial {
            Some(sp) => sp,
            None => {
                return;
            },
        };
        let ghost sp0 = sp;
        let none: Vec<InstanceId> = Vec::new();
        let empty = buckets(&self.store, &none, &sp.culled);
        proof {
            assert forall|k: int| 0 <= k < empty@.len() implies (#[trigger] empty@[k]).insts@.len()
                == 0 by {
                assert(bucket_of(
                    empty@[k],
                    sp.culled@[k].ty,
                    self.store,
                    |i: InstanceId| none@.contains(i),
                ));
                if empty@[k].insts@.len() > 0 {
                    assert(empty@[k].insts@.contains(empty@[k].insts@[0]));
                }
            }
        }
        let eye = if self.store.is_present(sp.camera) {
            let at = self.store.read_render(sp.camera, sp.cam_pos);
            sp.axes.project(&at)
        } else {
            None
        };
        let (cx, cy) = match eye {
            Some(p) => p,
            None => {
                sp.visible = empty;
                sp.active = false;
                self.spatial = Some(sp);
                proof {
                    lemma_setup_kept(*self, before);
                }
                return;
            },
        };
        let hits = sp.shape.query(&sp.grid, cx, cy);
        let ghost cover = sp0.covers((cx, cy));
        let visible = buckets(&self.store, &hits, &sp.culled);
        proof {
            assert forall|k: int| 0 <= k < visible@.len() implies bucket_of(
                #[trigger] visible@[k],
                sp0.culled@[k].ty,
                before.store,
                cover,
            ) by {
                assert forall|i: InstanceId| #[trigger] visible@[k].insts@.contains(i) <==> i.ty
                    == sp0.culled@[k].ty && before.store.present(i) && cover(i) by {
                    assert(hits@.contains(i) <==> sp0.shape.sees(sp0.grid, cx, cy, i));
                }
            }
        }
        let ghost culled0 = sp.culled;
        let mut k: usize = 0;
        while k < hits.len()
            invariant
                k <= hits@.len(),
                sp.wf(),
                sp.same_view(sp0),
                forall|i: InstanceId| #[trigger]
                    sp.grid.at(i) == (if hits@.take(k as int).contains(i) && !self.store.present(
                        i,
                    ) {
                        None
                    } else {
                        sp0.grid.at(i)
                    }),
            decreases hits@.len() - k,
        {
            let inst = hits[k];
            let ghost mid = sp;
            let ghost done = hits@.take(k as int);
            let ghost next = hits@.take(k + 1);
            proof {
                assert(next =~= done.push(inst));
                assert(next[k as int] == inst);
                assert forall|i: InstanceId| #[trigger] next.contains(i) <==> done.contains(i) || i
                    == inst by {
                    if done.contains(i) {
                        let j = choose|j: int| 0 <= j < done.len() && done[j] == i;
                        assert(next[j] == i);
                    }
                    if next.contains(i) {
                        let j = choose|j: int| 0 <= j < next.len() && next[j] == i;
                        if j < k {
                            assert(done[j] == i);
                        }
                    }
                }
            }
            if !self.store.is_present(inst) {
                sp.drop_out(inst);
            }
            k = k + 1;
        }
        proof {
            assert(hits@.take(hits@.len() as int) =~= hits@);
            assert forall|i: InstanceId| #[trigger] sp.grid.at(i) == (if cover(i)
                && !before.store.present(i) {
                None
            } else {
                sp0.grid.at(i)
            }) by {
                assert(hits@.contains(i) <==> sp0.shape.sees(sp0.grid, cx, cy, i));
            }
        }
        sp.visible = visible;
        sp.active = true;
        let ghost bare = *self;
        let mut b: usize = 0;
        while b < sp.visible.len()
            invariant
                b <= sp.visible@.len(),
                math.total(),
                before.wf(),
                before.spatial == Some(sp0),
                sp.wf(),
                sp.culled == sp0.culled,
                cover == sp0.covers((cx, cy)),
                forall|i: InstanceId| #[trigger]
                    sp.grid.at(i) == (if cover(i) && !before.store.present(i) {
                        None
                    } else {
                        sp0.grid.at(i)
                    }),
                forall|k: int|
                    0 <= k < sp.visible@.len() ==> bucket_of(
                        #[trigger] sp.visible@[k],
                        sp0.culled@[k].ty,
                        before.store,
                        cover,
                    ),
                *self == (Mirror { store: self.store, ..bare }),
                bare.store == before.store,
                self.store.wf(),
                only_values(self.store, before.store),
                forall|i: InstanceId, f: RFieldId| #[trigger]
                    self.noted(before, sp0, (cx, cy), *math, i, f, b as int, Seq::empty()),
            decreases sp.visible@.len() - b,
        {
            let c = sp.culled[b];
            let ghost seen = sp.visible@[b as int].insts@;
            proof {
                assert(bucket_of(sp.visible@[b as int], c.ty, before.store, cover));
                assert(before.culled_tracked(sp0.culled@[b as int]));
            }
            if let Some(df) = c.dist_field {
                let mut j: usize = 0;
                assert(seen.take(0) =~= Seq::empty());
                while j < sp.visible[b].insts.len()
                    invariant
                        b < sp.visible@.len(),
                        seen == sp.visible@[b as int].insts@,
                        c == sp0.culled@[b as int],
                        c.dist_field == Some(df),
                        before.store.field_known(c.ty, df),
                        j <= seen.len(),
                        math.total(),
                        before.wf(),
                        before.spatial == Some(sp0),
                        sp.wf(),
                        sp.culled == sp0.culled,
                        cover == sp0.covers((cx, cy)),
                        forall|i: InstanceId| #[trigger]
                            sp.grid.at(i) == (if cover(i) && !before.store.present(i) {
                                None
                            } else {
                                sp0.grid.at(i)
                            }),
                        bucket_of(sp.visible@[b as int], c.ty, before.store, cover),
                        *self == (Mirror { store: self.store, ..bare }),
                        bare.store == before.store,
                        self.store.wf(),
                        only_values(self.store, before.store),
                        forall|i: InstanceId, f: RFieldId| #[trigger]
                            self.noted(
                                before,
                                sp0,
                                (cx, cy),
                                *math,
                                i,
                                f,
                                b as int,
                                seen.take(j as int),
                            ),
                    decreases seen.len() - j,
                {
                    let inst = sp.visible[b].insts[j];
                    let ghost mid = *self;
                    let ghost done = seen.take(j as int);
                    let ghost next = seen.take(j + 1);
                    proof {
                        assert(seen.contains(inst));
                        assert(cover(inst));
                        assert(sp0.grid.has(inst));
                        assert(next =~= done.push(inst));
                        assert(next[j as int] == inst);
                        assert forall|i: InstanceId| #[trigger] next.contains(i)
                            <==> done.contains(i) || i == inst by {
                            if done.contains(i) {
                                let x = choose|x: int| 0 <= x < done.len() && done[x] == i;
                                assert(next[x] == i);
                            }
                            if next.contains(i) {
                                let x = choose|x: int| 0 <= x < next.len() && next[x] == i;
                                if x < j {
                                    assert(done[x] == i);
                                }
                            }
                        }
                        assert(sp.grid.at(inst) == sp0.grid.at(inst));
                    }
                    if let Some((ex, ey)) = sp.grid.position(inst) {
                        let dist = (math.hypot)(ex.sub(cx), ey.sub(cy));
                        self.store.write_render(inst, df, Value::Float(dist));
                        proof {
                            lemma_only_values_step(self.store, mid.store, before.store);
                            lemma_culled_first(sp0, b as int);
                            assert(mid.store.present(inst));
                            assert(mid.store.types@[c.ty.0 as int].same_schema(
                                before.store.types@[c.ty.0 as int],
                            ));
                            assert forall|i: InstanceId, f: RFieldId| #[trigger]
                                self.noted(
                                    before,
                                    sp0,
                                    (cx, cy),
                                    *math,
                                    i,
                                    f,
                                    b as int,
                                    next,
                                ) by {
                                assert(mid.noted(
                                    before,
                                    sp0,
                                    (cx, cy),
                                    *math,
                                    i,
                                    f,
                                    b as int,
                                    done,
                                ));
                            }
                        }
                    }
                    j = j + 1;
                }
                assert(seen.take(seen.len() as int) =~= seen);
            }
            proof {
                lemma_culled_first(sp0, b as int);
                assert forall|i: InstanceId, f: RFieldId| #[trigger]
                    self.noted(before, sp0, (cx, cy), *math, i, f, b + 1, Seq::empty()) by {
                    lemma_culled_first_all(sp0, i.ty);
                    if c.dist_field is Some {
                        assert(self.noted(
                            before,
                            sp0,
                            (cx, cy),
                            *math,
                            i,
                            f,
                            b as int,
                            seen,
                        ));
                        assert(seen.contains(i) <==> i.ty == c.ty && before.store.present(i)
                            && cover(i));
                    } else {
                        assert(self.noted(before, sp0, (cx, cy), *math, i, f, b as int, Seq::empty()));
                    }
                }
            }
            b = b + 1;
        }
        let ghost marked = *self;
        self.spatial = Some(sp);
        proof {
            lemma_setup_kept(*self, before);
            assert forall|i: InstanceId, f: RFieldId| before.measured((cx, cy), i, f) implies ({
                let (x, y) = before.grid_at(i)->0;
                &&& (#[trigger] self.store.value(i, f)) is Float
                &&& math.hypot.ensures(
                    (x.sub_spec(cx), y.sub_spec(cy)),
                    self.store.value(i, f)->Float_0,
                )
            }) by {
                lemma_culled_first_all(sp0, i.ty);
                assert(marked.noted(
                    before,
                    sp0,
                    (cx, cy),
                    *math,
                    i,
                    f,
                    sp0.culled@.len() as int,
                    Seq::empty(),
                ));
                lemma_noted_frame(marked, before, sp0, (cx, cy), *math, i, f, sp0.culled@.len() as int);
            }
            assert forall|i: InstanceId, f: RFieldId| !before.measured((cx, cy), i, f) implies
                #[trigger] self.store.value(i, f) == before.store.value(i, f) by {
                assert(marked.noted(
                    before,
                    sp0,
                    (cx, cy),
                    *math,
                    i,
                    f,
                    sp0.culled@.len() as int,
                    Seq::empty(),
                ));
                lemma_noted_frame(marked, before, sp0, (cx, cy), *math, i, f, sp0.culled@.len() as int);
            }
        }
    }

    /// The cell holds its distance if its type is among the first `b` culled ones, or is the
    /// next and the instance is in `part`; and otherwise its old value.
    spec fn noted<S, A, H>(
        self,
        before: Mirror,
        sp: Spatial,
        eye: (F64, F64),
        math: Elementary<S, A, H>,
        i: InstanceId,
        f: RFieldId,
        b: int,
        part: Seq<InstanceId>,
    ) -> bool where S: Fn(F64) -> F64, A: Fn(F64) -> F64, H: Fn(F64, F64) -> F64 {
        let k = crate::render::culling::culled_at(sp.culled@, i.ty);
        if before.measured(eye, i, f) && (k < b || k == b && part.contains(i)) {
            let (x, y) = before.grid_at(i)->0;
            &&& self.store.value(i, f) is Float
            &&& math.hypot.ensures(
                (x.sub_spec(eye.0), y.sub_spec(eye.1)),
                self.store.value(i, f)->Float_0,
            )
        } else {
            self.store.value(i, f) == before.store.value(i, f)
        }
    }
}

proof fn lemma_noted_frame<S, A, H>(
    m: Mirror,
    before: Mirror,
    sp: Spatial,
    eye: (F64, F64),
    math: Elementary<S, A, H>,
    i: InstanceId,
    f: RFieldId,
    n: int,
) where S: Fn(F64) -> F64, A: Fn(F64) -> F64, H: Fn(F64, F64) -> F64
    requires
        m.noted(before, sp, eye, math, i, f, n, Seq::empty()),
        n == sp.culled@.len(),
        before.spatial == Some(sp),
    ensures
        before.measured(eye, i, f) ==> {
            let (x, y) = before.grid_at(i)->0;
            &&& m.store.value(i, f) is Float
            &&& math.hypot.ensures(
                (x.sub_spec(eye.0), y.sub_spec(eye.1)),
                m.store.value(i, f)->Float_0,
            )
        },
        !before.measured(eye, i, f) ==> m.store.value(i, f) == before.store.value(i, f),
{
}

proof fn lemma_culled_first(sp: Spatial, b: int)
    requires
        sp.wf(),
        0 <= b < sp.culled@.len(),
    ensures
        crate::render::culling::culled_at(sp.culled@, sp.culled@[b].ty) == b,
{
    let ty = sp.culled@[b].ty;
    crate::lists::lemma_first(sp.culled@, |c: CulledType| c.ty == ty, b);
}

proof fn lemma_culled_first_all(sp: Spatial, ty: EntityTypeId)
    ensures
        ({
            let k = crate::render::culling::culled_at(sp.culled@, ty);
            &&& 0 <= k <= sp.culled@.len()
            &&& k < sp.culled@.len() ==> sp.culled@[k].ty == ty
        }),
{
    crate::lists::lemma_first_found(sp.culled@, |c: CulledType| c.ty == ty);
}

}
