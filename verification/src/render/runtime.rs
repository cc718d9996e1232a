//! The render runtime: what is registered with it.
use crate::calculation::Ctx;
use crate::calculation::Input;
use crate::entity::EntityTypeId;
use crate::entity::FieldId;
use crate::predicate::Cond;
use crate::predicate::Proj;
use crate::render::clock::RenderClock;
use crate::render::continuous::Continuous;
use crate::render::continuous::LocalContinuous;
use crate::render::ctx::RenderCtx;
use crate::render::ctx::RenderInput;
use crate::render::ctx::RenderLocalCtx;
use crate::render::interp::Track;
use crate::render::local::LocalStore;
use crate::render::mirror::Fade;
use crate::render::mirror::Mirror;
use crate::render::owners::Claim;
use crate::render::owners::ClaimError;
use crate::render::owners::Owners;
use crate::render::reaction::proj_ok;
use crate::render::reaction::Reaction;
use crate::render::store::RFieldId;
use crate::render::store::RenderStore;
use crate::render::local::RenderLocalTypeId;
use crate::render::submission::RenderBinding;
use crate::render::visible::positive;
use crate::render::writes::Owner;
use crate::runtime::engine::Runtime;
use crate::runtime::eval::independent;
use crate::runtime::Detect;
use crate::value::vals_of;
use crate::value::Value;
use vstd::prelude::*;

verus! {

/// Why something cannot be registered.
#[derive(Clone, Copy, Debug, PartialEq, Eq, Structural)]
pub enum RenderError {
    NoSuchType(EntityTypeId),
    NoSuchField(EntityTypeId, RFieldId),
    Claim(ClaimError),
    /// A reaction's condition reads more than the written values.
    Cond,
    /// A reaction's projection reads more than the written values.
    Proj,
    /// The type has a binding.
    AlreadyRenderable(EntityTypeId),
    /// A part of a binding, by its place, names a field that is not there.
    BindingField(usize, RFieldId),
    /// Two parts of a binding name one field.
    BindingTwice(RFieldId),
    /// A duration must be finite and positive.
    BadDuration,
    /// The dead of the type fade already.
    AlreadyFading(EntityTypeId),
    /// Culling is on.
    AlreadyCulling,
    /// The size of a cell must be finite and positive.
    BadCellSize,
    /// The sizes of a shape must be finite and positive.
    BadShape,
    /// Culling is off.
    NotCulling,
    /// The field is not tracked.
    NotTracked(EntityTypeId, FieldId),
    /// The type is culled already.
    AlreadyCulled(EntityTypeId),
}

/// The render runtime.
pub struct RenderRuntime<R, C, L> {
    pub mirror: Mirror,
    pub reactions: Vec<Reaction>,
    pub reaction_bodies: Vec<R>,
    pub continuous: Vec<Continuous>,
    pub continuous_bodies: Vec<C>,
    /// The one writer of each render field.
    pub owners: Owners,
    pub detect: Detect,
    pub clock: RenderClock,
    /// The last simulation frame that was taken in.
    pub last_ingested: u64,
    pub renderables: Vec<(EntityTypeId, RenderBinding)>,
    pub local: LocalStore,
    pub local_continuous: Vec<LocalContinuous>,
    pub local_bodies: Vec<L>,
    pub local_renderables: Vec<(RenderLocalTypeId, RenderBinding)>,
}

/// Every declared write belongs to the calculation.
pub open spec fn reactions_own(owners: Owners, rs: Seq<Reaction>) -> bool {
    forall|k: int, w: int|
        #![trigger rs[k].writes@[w]]
        0 <= k < rs.len() && 0 <= w < rs[k].writes@.len() ==> owners.owns(
            rs[k].ty,
            rs[k].writes@[w],
            Owner::Reaction(k as u32),
        )
}

pub open spec fn continuous_own(owners: Owners, cs: Seq<Continuous>) -> bool {
    forall|k: int, w: int|
        #![trigger cs[k].writes@[w]]
        0 <= k < cs.len() && 0 <= w < cs[k].writes@.len() ==> owners.owns(
            cs[k].ty,
            cs[k].writes@[w],
            Owner::Continuous(k as u32),
        )
}

/// What the runtime itself writes belongs to it: the outputs of tracks, the fields of the
/// fading, and the distances.
pub open spec fn mirror_owns(owners: Owners, m: Mirror) -> bool {
    &&& forall|k: int|
        0 <= k < m.tracks@.len() ==> owners.owns(
            (#[trigger] m.tracks@[k]).ty,
            m.tracks@[k].out,
            Owner::Track(k as u32),
        )
    &&& forall|k: int|
        0 <= k < m.fades@.len() ==> owners.owns(
            (#[trigger] m.fades@[k]).ty,
            m.fades@[k].field,
            Owner::Fade,
        )
    &&& m.spatial is Some ==> forall|k: int|
        0 <= k < m.spatial->0.culled@.len() && (
        #[trigger] m.spatial->0.culled@[k]).dist_field is Some ==> owners.owns(
            m.spatial->0.culled@[k].ty,
            m.spatial->0.culled@[k].dist_field->0,
            Owner::Distance,
        )
}

/// Every claimed field is there.
pub open spec fn claims_known(owners: Owners, store: RenderStore) -> bool {
    forall|k: int|
        0 <= k < owners.claims@.len() ==> store.field_known(
            (#[trigger] owners.claims@[k]).ty,
            owners.claims@[k].field,
        )
}

/// The parts of a binding that may stand: the first `n` name fields that are there, and no
/// field twice. Otherwise, what is wrong first.
pub open spec fn binding_error(
    store: RenderStore,
    ty: EntityTypeId,
    parts: Seq<Option<RFieldId>>,
    n: int,
) -> Option<RenderError>
    decreases n,
{
    if n <= 0 {
        None
    } else {
        match binding_error(store, ty, parts, n - 1) {
            Some(e) => Some(e),
            None => match parts[n - 1] {
                None => None,
                Some(f) => if !store.field_known(ty, f) {
                    Some(RenderError::BindingField((n - 1) as usize, f))
                } else if parts.take(n - 1).contains(Some(f)) {
                    Some(RenderError::BindingTwice(f))
                } else {
                    None
                },
            },
        }
    }
}

/// The first part of a type's binding, if it has one.
pub open spec fn bound(rs: Seq<(EntityTypeId, RenderBinding)>, ty: EntityTypeId) -> bool {
    exists|i: int| 0 <= i < rs.len() && (#[trigger] rs[i]).0 == ty
}

impl<R, C, L> RenderRuntime<R, C, L> where
    R: for<'a, 'b, 'c> Fn(&'a mut RenderCtx<'b>, &'c RenderInput),
    C: for<'a, 'b> Fn(&'a mut RenderCtx<'b>),
    L: for<'a, 'b> Fn(&'a mut RenderLocalCtx<'b>),
 {
    pub open spec fn wf(self) -> bool {
        &&& self.mirror.wf()
        &&& self.mirror.tracks@.len() <= u32::MAX
        &&& self.owners.wf()
        &&& self.reactions@.len() == self.reaction_bodies@.len() <= u32::MAX
        &&& self.continuous@.len() == self.continuous_bodies@.len() <= u32::MAX
        &&& self.local_continuous@.len() == self.local_bodies@.len()
        &&& self.local.wf()
        &&& reactions_own(self.owners, self.reactions@)
        &&& continuous_own(self.owners, self.continuous@)
        &&& mirror_owns(self.owners, self.mirror)
        &&& claims_known(self.owners, self.mirror.store)
        &&& forall|k: int|
            0 <= k < self.reactions@.len() ==> independent((#[trigger] self.reactions@[k]).cond)
        &&& forall|k: int, p: int|
            #![trigger self.reactions@[k].projs@[p]]
            0 <= k < self.reactions@.len() && 0 <= p < self.reactions@[k].projs@.len()
                ==> proj_ok(self.reactions@[k].projs@[p])
        &&& forall|k: int|
            0 <= k < self.continuous@.len() ==> self.mirror.store.known(
                (#[trigger] self.continuous@[k]).ty,
            )
        &&& forall|k: int|
            0 <= k < self.renderables@.len() ==> self.mirror.store.known(
                (#[trigger] self.renderables@[k]).0,
            )
    }

    /// Nothing but the mirror and the writers differs.
    pub open spec fn same_but_mirror(self, other: RenderRuntime<R, C, L>) -> bool {
        self == (RenderRuntime { mirror: self.mirror, owners: self.owners, ..other })
    }

    /// A render runtime for a simulation: it has a mirror for each of its types, and knows
    /// the defaults of their fields.
    pub fn new<F: for<'a, 'b, 'c> Fn(&'a mut Ctx<'b>, &'c Input)>(
        sim: &Runtime<F>,
        detect: Detect,
    ) -> (r: RenderRuntime<R, C, L>)
        requires
            sim.wf(),
        ensures
            r.wf(),
            r.detect == detect,
            r.last_ingested == 0,
            r.clock.frame == 0,
            r.mirror.store.types@.len() == sim.store.types@.len(),
            forall|ty: EntityTypeId|
                sim.store.known(ty) ==> (#[trigger] r.mirror.store.at(ty)).rows() == 0
                    && r.mirror.store.at(ty).render_cols@.len() == 0,
            forall|ty: EntityTypeId, f: FieldId|
                sim.store.field_known(ty, f) ==> #[trigger] r.mirror.default_of(ty, f)
                    == sim.store.at(ty).default_of(f.0 as int),
            r.mirror.tracks@.len() == 0,
            r.mirror.active@.len() == 0,
            r.mirror.dying@.len() == 0,
            r.mirror.fades@.len() == 0,
            r.mirror.spatial is None,
            r.reactions@.len() == 0,
            r.continuous@.len() == 0,
            r.owners.claims@.len() == 0,
            r.renderables@.len() == 0,
            r.local.types@.len() == 0,
            r.local_continuous@.len() == 0,
            r.local_renderables@.len() == 0,
    {
        let n = sim.type_count();
        let mut defaults: Vec<Vec<Value>> = Vec::new();
        let mut t: usize = 0;
        while t < n
            invariant
                sim.wf(),
                n == sim.store.types@.len() <= u32::MAX,
                t <= n,
                defaults@.len() == t,
                forall|k: int|
                    0 <= k < t ==> vals_of((#[trigger] defaults@[k])@) == Seq::new(
                        sim.store.types@[k].fields@.len(),
                        |i: int| sim.store.types@[k].default_of(i),
                    ),
            decreases n - t,
        {
            let ty = EntityTypeId(t as u32);
            let d = sim.field_defaults(ty);
            defaults.push(d);
            t = t + 1;
        }
        let store = RenderStore::new(n);
        let mirror = Mirror {
            store,
            defaults,
            tracks: Vec::new(),
            active: Vec::new(),
            dying: Vec::new(),
            fades: Vec::new(),
            spatial: None,
        };
        proof {
            assert forall|ty: EntityTypeId, f: FieldId|
                sim.store.field_known(ty, f) implies #[trigger] mirror.default_of(ty, f)
                == sim.store.at(ty).default_of(f.0 as int) by {
                let vs = mirror.defaults@[ty.0 as int]@;
                assert(vals_of(vs).len() == sim.store.at(ty).fields@.len());
                assert(vals_of(vs)[f.0 as int] == vs[f.0 as int]@);
            }
            assert forall|ty: EntityTypeId, t: int| !#[trigger] mirror.store.slot_known(ty, t) by {}
            assert(mirror.wf());
        }
        RenderRuntime {
            mirror,
            reactions: Vec::new(),
            reaction_bodies: Vec::new(),
            continuous: Vec::new(),
            continuous_bodies: Vec::new(),
            owners: Owners::new(),
            detect,
            clock: RenderClock::new(),
            last_ingested: 0,
            renderables: Vec::new(),
            local: LocalStore::new(),
            local_continuous: Vec::new(),
            local_bodies: Vec::new(),
            local_renderables: Vec::new(),
        }
    }

    /// What happens when a calculation breaks its declarations.
    pub fn set_detect(&mut self, d: Detect)
        ensures
            *final(self) == (RenderRuntime { detect: d, ..*old(self) }),
    {
        self.detect = d;
    }

    /// Adds a field of the render side.
    pub fn add_render_field(&mut self, ty: EntityTypeId, default: Value) -> (r: RFieldId)
        requires
            old(self).wf(),
            old(self).mirror.store.known(ty),
            old(self).mirror.store.at(ty).render_cols@.len() < u32::MAX,
        ensures
            final(self).wf(),
            *final(self) == (RenderRuntime {
                mirror: Mirror { store: final(self).mirror.store, ..old(self).mirror },
                ..*old(self)
            }),
            final(self).mirror.store.extended(old(self).mirror.store, ty),
            r.0 == old(self).mirror.store.at(ty).render_cols@.len(),
            final(self).mirror.store.at(ty).render_defaults@ == old(self).mirror.store.at(
                ty,
            ).render_defaults@.push(default),
            final(self).mirror.store.at(ty).tracks == old(self).mirror.store.at(ty).tracks,
            final(self).mirror.store.at(ty).render_cols@.drop_last() == old(self).mirror.store.at(
                ty,
            ).render_cols@,
            final(self).mirror.store.at(ty).render_cols@.last()@ == Seq::new(
                old(self).mirror.store.at(ty).rows(),
                |i: int| default@,
            ),
    {
        let ghost before = self.mirror;
        let r = self.mirror.store.add_render_field(ty, default);
        proof {
            lemma_field_added(self.mirror, before, ty);
            assert(forall|k: int|
                0 <= k < self.owners.claims@.len() ==> before.store.field_known(
                    (#[trigger] self.owners.claims@[k]).ty,
                    self.owners.claims@[k].field,
                ));
        }
        r
    }
}

/// A field more changes nothing that is registered.
pub proof fn lemma_field_added(after: Mirror, before: Mirror, ty: EntityTypeId)
    requires
        before.wf(),
        before.store.known(ty),
        after == (Mirror { store: after.store, ..before }),
        after.store.wf(),
        after.store.extended(before.store, ty),
        after.store.at(ty).tracks == before.store.at(ty).tracks,
        after.store.at(ty).render_defaults@.len() == before.store.at(ty).render_defaults@.len() + 1,
        forall|f: int|
            0 <= f < before.store.at(ty).render_defaults@.len() ==> after.store.at(
                ty,
            ).render_defaults@[f] == before.store.at(ty).render_defaults@[f],
    ensures
        after.wf(),
        forall|t: EntityTypeId| #[trigger] after.store.known(t) <==> before.store.known(t),
        forall|t: EntityTypeId, f: RFieldId|
            before.store.field_known(t, f) ==> #[trigger] after.store.field_known(t, f),
{
    assert forall|t: EntityTypeId, f: RFieldId|
        before.store.field_known(t, f) implies #[trigger] after.store.field_known(t, f) by {
        assert(before.store.types@[t.0 as int].wf());
        assert(after.store.types@[t.0 as int].wf());
        if t != ty {
            assert(after.store.types@[t.0 as int] == before.store.types@[t.0 as int]);
        }
    }
    assert forall|i: int| 0 <= i < after.tracks@.len() implies after.track_ok(
        #[trigger] after.tracks@[i],
    ) by {
        let tr = after.tracks@[i];
        assert(before.track_ok(before.tracks@[i]));
        assert(before.store.types@[tr.ty.0 as int].wf());
        assert(after.store.field_known(tr.ty, tr.out));
        if tr.ty != ty {
            assert(after.store.types@[tr.ty.0 as int] == before.store.types@[tr.ty.0 as int]);
        }
    }
    assert forall|t: EntityTypeId, k: int| #[trigger] after.store.slot_known(t, k) implies exists|
        ti: int,
    |
        0 <= ti < after.tracks@.len() && (#[trigger] after.tracks@[ti]).ty == t
            && after.tracks@[ti].slot == k by {
        if t != ty {
            assert(after.store.types@[t.0 as int] == before.store.types@[t.0 as int]);
        }
        assert(before.store.slot_known(t, k));
    }
    assert forall|i: int| 0 <= i < after.fades@.len() implies after.store.field_known(
        (#[trigger] after.fades@[i]).ty,
        after.fades@[i].field,
    ) && positive(after.fades@[i].duration) by {
        assert(before.store.field_known(before.fades@[i].ty, before.fades@[i].field));
    }
    if after.spatial is Some {
        assert forall|k: int| 0 <= k < after.spatial->0.culled@.len() implies after.culled_tracked(
            #[trigger] after.spatial->0.culled@[k],
        ) by {
            assert(before.culled_tracked(before.spatial->0.culled@[k]));
            let c = before.spatial->0.culled@[k];
            let ti = choose|ti: int|
                0 <= ti < before.tracks@.len() && (#[trigger] before.tracks@[ti]).ty == c.ty
                    && before.tracks@[ti].sim_field == c.translation_field
                    && before.tracks@[ti].slot == c.track_slot;
            assert(after.tracks@[ti].ty == c.ty);
        }
    }
}

}
