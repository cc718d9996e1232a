//! Registration with the render runtime: tracks, reactions, continuous calculations, what is
//! drawn, who fades, and who is culled.
use crate::entity::EntityTypeId;
use crate::entity::FieldId;
use crate::entity::InstanceId;
use crate::float64::of_int;
use crate::float64::F64;
use crate::predicate::Cond;
use crate::predicate::Proj;
use crate::render::continuous::Continuous;
use crate::render::ctx::RenderCtx;
use crate::render::ctx::RenderInput;
use crate::render::ctx::RenderLocalCtx;
use crate::render::culling::culled_at;
use crate::render::culling::CulledType;
use crate::render::culling::Spatial;
use crate::render::interp::Interp;
use crate::render::interp::Track;
use crate::lists::first;
use crate::lists::lemma_first;
use crate::render::mirror::Fade;
use crate::render::mirror::Mirror;
use crate::render::owners::lemma_owns_more;
use crate::render::owners::Claim;
use crate::render::owners::Owners;
use crate::render::reaction::proj_ok;
use crate::render::reaction::validate_reaction_cond;
use crate::render::reaction::validate_reaction_projs;
use crate::render::reaction::Reaction;
use crate::render::runtime::binding_error;
use crate::render::runtime::bound;
use crate::render::runtime::claims_known;
use crate::render::runtime::continuous_own;
use crate::render::runtime::lemma_field_added;
use crate::render::runtime::mirror_owns;
use crate::render::runtime::reactions_own;
use crate::render::runtime::RenderError;
use crate::render::runtime::RenderRuntime;
use crate::render::store::law_live_instances_are_present;
use crate::render::store::RFieldId;
use crate::render::store::RenderStore;
use crate::render::submission::render_binding_fields;
use crate::render::submission::Bucket;
use crate::render::submission::RenderBinding;
use crate::render::visible::is_positive;
use crate::render::visible::positive;
use crate::render::visible::Axes;
use crate::render::visible::CullShape;
use crate::render::writes::Owner;
use crate::runtime::eval::independent;
use crate::spatial::SpatialGrid;
use crate::value::Val;
use vstd::prelude::*;

verus! {

/// Claims more take nothing from the calculations.
proof fn lemma_claims_added(a: Owners, b: Owners, more: Seq<Claim>, rs: Seq<Reaction>, cs: Seq<
    Continuous,
>, m: Mirror)
    requires
        b.claims@ == a.claims@ + more,
        reactions_own(a, rs),
        continuous_own(a, cs),
        mirror_owns(a, m),
    ensures
        reactions_own(b, rs),
        continuous_own(b, cs),
        mirror_owns(b, m),
{
    lemma_owns_more(a, b, more);
}

/// The fields of new claims are there if those of the others and the claimed ones are.
proof fn lemma_claims_known(
    a: Owners,
    b: Owners,
    store: RenderStore,
    ty: EntityTypeId,
    writes: Seq<RFieldId>,
    owner: Owner,
)
    requires
        claims_known(a, store),
        a.grants(store, ty, writes),
        b.claims@ == a.claims@ + Owners::claims_of(ty, writes, owner),
    ensures
        claims_known(b, store),
{
    assert forall|k: int| 0 <= k < b.claims@.len() implies store.field_known(
        (#[trigger] b.claims@[k]).ty,
        b.claims@[k].field,
    ) by {
        if k < a.claims@.len() {
            assert(b.claims@[k] == a.claims@[k]);
        } else {
            assert(a.free(store, ty, writes, k - a.claims@.len()));
        }
    }
}

impl<R, C, L> RenderRuntime<R, C, L> where
    R: for<'a, 'b, 'c> Fn(&'a mut RenderCtx<'b>, &'c RenderInput),
    C: for<'a, 'b> Fn(&'a mut RenderCtx<'b>),
    L: for<'a, 'b> Fn(&'a mut RenderLocalCtx<'b>),
 {
    /// Tracks a field of the simulation: its interpolated value is kept in a new render
    /// field. A field may be tracked more than once.
    pub fn track(&mut self, ty: EntityTypeId, sim_field: FieldId, kind: Interp) -> (r: Result<
        RFieldId,
        RenderError,
    >)
        requires
            old(self).wf(),
            old(self).mirror.store.known(ty),
            old(self).mirror.store.at(ty).render_cols@.len() < u32::MAX,
            old(self).mirror.tracks@.len() < u32::MAX,
        ensures
            final(self).wf(),
            r is Ok,
            final(self).same_but_mirror(*old(self)),
            final(self).mirror == (Mirror {
                store: final(self).mirror.store,
                tracks: final(self).mirror.tracks,
                ..old(self).mirror
            }),
            final(self).mirror.store.extended(old(self).mirror.store, ty),
            r->Ok_0.0 == old(self).mirror.store.at(ty).render_cols@.len(),
            final(self).mirror.store.field_known(ty, r->Ok_0),
            final(self).mirror.tracks@ == old(self).mirror.tracks@.push(
                Track {
                    ty,
                    sim_field,
                    out: r->Ok_0,
                    slot: old(self).mirror.store.at(ty).tracks@.len() as usize,
                    kind,
                },
            ),
            final(self).mirror.store.at(ty).tracks@.len() == old(self).mirror.store.at(
                ty,
            ).tracks@.len() + 1,
            final(self).mirror.store.at(ty).tracks@.drop_last() == old(self).mirror.store.at(
                ty,
            ).tracks@,
            final(self).mirror.store.at(ty).tracks@.last().sim_field == sim_field,
            final(self).mirror.store.at(ty).tracks@.last().default@ == old(self).mirror.default_of(
                ty,
                sim_field,
            ),
            final(self).mirror.store.at(ty).render_cols@.len() == old(self).mirror.store.at(
                ty,
            ).render_cols@.len() + 1,
            final(self).mirror.store.at(ty).render_cols@.drop_last() == old(self).mirror.store.at(
                ty,
            ).render_cols@,
            final(self).mirror.store.at(ty).render_defaults@.len() == old(self).mirror.store.at(
                ty,
            ).render_defaults@.len() + 1,
            final(self).mirror.store.at(ty).render_defaults@.drop_last() == old(
                self).mirror.store.at(ty).render_defaults@,
            final(self).mirror.store.at(ty).render_defaults@.last()@ == kind.out_default_spec(
                old(self).mirror.default_of(ty, sim_field),
            ),
            final(self).owners.claims@ == old(self).owners.claims@ + Owners::claims_of(
                ty,
                seq![r->Ok_0],
                Owner::Track(old(self).mirror.tracks@.len() as u32),
            ),
            final(self).owners.owns(
                ty,
                r->Ok_0,
                Owner::Track(old(self).mirror.tracks@.len() as u32),
            ),
            forall|i: InstanceId|
                old(self).mirror.store.present(i) && i.ty == ty
                    ==> #[trigger] final(self).mirror.store.value(i, r->Ok_0)
                    == kind.out_default_spec(old(self).mirror.default_of(ty, sim_field)),
    {
        let ghost before = *self;
        let idx = self.mirror.tracks.len();
        let default = self.mirror.default_val(ty, sim_field);
        let out_default = kind.out_default(&default);
        let ghost ov = out_default@;
        let out = self.mirror.store.add_render_field(ty, out_default);
        let ghost m1 = self.mirror;
        proof {
            lemma_field_added(m1, before.mirror, ty);
            assert(forall|k: int|
                0 <= k < self.owners.claims@.len() ==> before.mirror.store.field_known(
                    (#[trigger] self.owners.claims@[k]).ty,
                    self.owners.claims@[k].field,
                ));
            assert(!before.mirror.store.field_known(ty, out)) by {
                assert(before.mirror.store.types@[ty.0 as int].wf());
            }
        }
        let mut writes: Vec<RFieldId> = Vec::new();
        writes.push(out);
        let claimed = self.owners.claim(
            &self.mirror.store,
            ty,
            &writes,
            Owner::Track(idx as u32),
        );
        proof {
            assert(before.owners.grants(self.mirror.store, ty, writes@)) by {
                assert forall|i: int| 0 <= i < writes@.len() implies #[trigger] before.owners.free(
                    self.mirror.store,
                    ty,
                    writes@,
                    i,
                ) by {
                    if before.owners.taken(ty, out) {
                        let o = choose|o: Owner| #[trigger] before.owners.owns(ty, out, o);
                        let k = choose|k: int|
                            0 <= k < before.owners.claims@.len()
                                && #[trigger] before.owners.claims@[k] == (Claim {
                                ty,
                                field: out,
                                owner: o,
                            });
                        assert(before.mirror.store.field_known(
                            before.owners.claims@[k].ty,
                            before.owners.claims@[k].field,
                        ));
                    }
                }
            }
            let more = Owners::claims_of(ty, writes@, Owner::Track(idx as u32));
            assert(more[0] == (Claim { ty, field: out, owner: Owner::Track(idx as u32) }));
            assert(more.contains((Claim { ty, field: out, owner: Owner::Track(idx as u32) })));
            lemma_owns_more(before.owners, self.owners, more);
            lemma_claims_added(
                before.owners,
                self.owners,
                more,
                self.reactions@,
                self.continuous@,
                before.mirror,
            );
            lemma_claims_known(
                before.owners,
                self.owners,
                self.mirror.store,
                ty,
                writes@,
                Owner::Track(idx as u32),
            );
        }
        let slot = self.mirror.store.add_track(ty, sim_field, default);
        self.mirror.tracks.push(Track { ty, sim_field, out, slot, kind });
        proof {
            lemma_track_added(self.mirror, m1, ty, sim_field, out, slot, kind);
            assert(writes@ =~= seq![out]);
            assert(self.mirror.store.at(ty).render_defaults@.drop_last()
                =~= before.mirror.store.at(ty).render_defaults@);
            assert(mirror_owns(self.owners, self.mirror)) by {
                assert forall|k: int| 0 <= k < self.mirror.tracks@.len() implies self.owners.owns(
                    (#[trigger] self.mirror.tracks@[k]).ty,
                    self.mirror.tracks@[k].out,
                    Owner::Track(k as u32),
                ) by {
                    if k < idx {
                        assert(self.mirror.tracks@[k] == before.mirror.tracks@[k]);
                    }
                }
            }
            assert forall|k: int| 0 <= k < self.owners.claims@.len() implies self.mirror.store.field_known(
                (#[trigger] self.owners.claims@[k]).ty,
                self.owners.claims@[k].field,
            ) by {
                assert(m1.store.field_known(
                    self.owners.claims@[k].ty,
                    self.owners.claims@[k].field,
                ));
            }
            assert forall|k: int| 0 <= k < self.continuous@.len() implies self.mirror.store.known(
                (#[trigger] self.continuous@[k]).ty,
            ) by {
                assert(before.mirror.store.known(before.continuous@[k].ty));
            }
            assert forall|k: int| 0 <= k < self.renderables@.len() implies self.mirror.store.known(
                (#[trigger] self.renderables@[k]).0,
            ) by {
                assert(before.mirror.store.known(before.renderables@[k].0));
            }
            assert forall|i: InstanceId| before.mirror.store.present(i) && i.ty == ty implies
                #[trigger] self.mirror.store.value(i, out) == ov by {
                assert(self.mirror.store.present(i));
                let cols = m1.store.at(ty).render_cols@;
                assert(cols[out.0 as int] == cols.last());
            }
            assert forall|t: int|
                0 <= t < self.mirror.store.types@.len() && t != ty.0 implies #[trigger] self.mirror.store.types@[t]
                == before.mirror.store.types@[t] by {
                assert(m1.store.types@[t] == before.mirror.store.types@[t]);
            }
        }
        match claimed {
            Ok(_) => Ok(out),
            Err(e) => Err(RenderError::Claim(e)),
        }
    }

    /// Registers a reaction. Its condition and projections may read the written values alone.
    pub fn reaction(
        &mut self,
        name: &str,
        ty: EntityTypeId,
        sim_field: FieldId,
        cond: Cond,
        projs: Vec<Proj>,
        batched: bool,
        writes: Vec<RFieldId>,
        f: R,
    ) -> (r: Result<(), RenderError>)
        requires
            old(self).wf(),
            old(self).reactions@.len() < u32::MAX,
        ensures
            final(self).wf(),
            r is Ok <==> independent(cond) && (forall|i: int|
                0 <= i < projs@.len() ==> proj_ok(#[trigger] projs@[i])) && old(self).owners.grants(
                old(self).mirror.store,
                ty,
                writes@,
            ),
            r is Err ==> *final(self) == *old(self),
            r is Err ==> match r->Err_0 {
                RenderError::Cond => !independent(cond),
                RenderError::Proj => independent(cond) && exists|i: int|
                    0 <= i < projs@.len() && !proj_ok(#[trigger] projs@[i]),
                RenderError::Claim(e) => independent(cond) && (forall|i: int|
                    0 <= i < projs@.len() ==> proj_ok(#[trigger] projs@[i])) && old(
                    self).owners.denied(old(self).mirror.store, ty, writes@, e),
                _ => false,
            },
            r is Ok ==> {
                &&& *final(self) == (RenderRuntime {
                    reactions: final(self).reactions,
                    reaction_bodies: final(self).reaction_bodies,
                    owners: final(self).owners,
                    ..*old(self)
                })
                &&& final(self).reaction_bodies@ == old(self).reaction_bodies@.push(f)
                &&& final(self).reactions@.len() == old(self).reactions@.len() + 1
                &&& final(self).reactions@.drop_last() == old(self).reactions@
                &&& final(self).reactions@.last().name@ == name@
                &&& final(self).reactions@.last() == (Reaction {
                    name: final(self).reactions@.last().name,
                    ty,
                    sim_field,
                    cond,
                    projs,
                    batched,
                    writes,
                })
                &&& final(self).owners.claims@ == old(self).owners.claims@ + Owners::claims_of(
                    ty,
                    writes@,
                    Owner::Reaction(old(self).reactions@.len() as u32),
                )
            },
    {
        let ghost before = *self;
        if !validate_reaction_cond(&cond) {
            return Err(RenderError::Cond);
        }
        if !validate_reaction_projs(&projs) {
            return Err(RenderError::Proj);
        }
        let owner = Owner::Reaction(self.reactions.len() as u32);
        match self.owners.claim(&self.mirror.store, ty, &writes, owner) {
            Ok(_) => {},
            Err(e) => {
                return Err(RenderError::Claim(e));
            },
        }
        let ghost more = Owners::claims_of(ty, writes@, owner);
        self.reactions.push(
            Reaction { name: name.to_string(), ty, sim_field, cond, projs, batched, writes },
        );
        self.reaction_bodies.push(f);
        proof {
            lemma_owns_more(before.owners, self.owners, more);
            lemma_claims_added(
                before.owners,
                self.owners,
                more,
                before.reactions@,
                self.continuous@,
                self.mirror,
            );
            lemma_claims_known(
                before.owners,
                self.owners,
                self.mirror.store,
                ty,
                writes@,
                owner,
            );
            let n = before.reactions@.len() as int;
            assert(self.reactions@.drop_last() =~= before.reactions@);
            assert forall|k: int, w: int|
                #![trigger self.reactions@[k].writes@[w]]
                0 <= k < self.reactions@.len() && 0 <= w
                    < self.reactions@[k].writes@.len() implies self.owners.owns(
                self.reactions@[k].ty,
                self.reactions@[k].writes@[w],
                Owner::Reaction(k as u32),
            ) by {
                if k < n {
                    assert(self.reactions@[k] == before.reactions@[k]);
                    assert(before.owners.owns(
                        before.reactions@[k].ty,
                        before.reactions@[k].writes@[w],
                        Owner::Reaction(k as u32),
                    ));
                } else {
                    assert(more[w] == (Claim { ty, field: writes@[w], owner }));
                    assert(more.contains(more[w]));
                }
            }
            assert forall|k: int, p: int|
                #![trigger self.reactions@[k].projs@[p]]
                0 <= k < self.reactions@.len() && 0 <= p
                    < self.reactions@[k].projs@.len() implies proj_ok(
                self.reactions@[k].projs@[p],
            ) by {
                if k < n {
                    assert(self.reactions@[k] == before.reactions@[k]);
                    assert(proj_ok(before.reactions@[k].projs@[p]));
                }
            }
            assert forall|k: int| 0 <= k < self.reactions@.len() implies independent(
                (#[trigger] self.reactions@[k]).cond,
            ) by {
                if k < n {
                    assert(self.reactions@[k] == before.reactions@[k]);
                }
            }
        }
        Ok(())
    }

    /// Registers a continuous calculation: it runs in every render frame for every instance
    /// of the type that is there, or in view where the type is culled.
    pub fn continuous(
        &mut self,
        name: &str,
        ty: EntityTypeId,
        writes: Vec<RFieldId>,
        f: C,
    ) -> (r: Result<(), RenderError>)
        requires
            old(self).wf(),
            old(self).mirror.store.known(ty),
            old(self).continuous@.len() < u32::MAX,
        ensures
            final(self).wf(),
            r is Ok <==> old(self).owners.grants(old(self).mirror.store, ty, writes@),
            r is Err ==> *final(self) == *old(self),
            r is Err ==> match r->Err_0 {
                RenderError::Claim(e) => old(self).owners.denied(
                    old(self).mirror.store,
                    ty,
                    writes@,
                    e,
                ),
                _ => false,
            },
            r is Ok ==> {
                &&& *final(self) == (RenderRuntime {
                    continuous: final(self).continuous,
                    continuous_bodies: final(self).continuous_bodies,
                    owners: final(self).owners,
                    ..*old(self)
                })
                &&& final(self).continuous_bodies@ == old(self).continuous_bodies@.push(f)
                &&& final(self).continuous@.len() == old(self).continuous@.len() + 1
                &&& final(self).continuous@.drop_last() == old(self).continuous@
                &&& final(self).continuous@.last().name@ == name@
                &&& final(self).continuous@.last().ty == ty
                &&& final(self).continuous@.last().writes == writes
                &&& final(self).owners.claims@ == old(self).owners.claims@ + Owners::claims_of(
                    ty,
                    writes@,
                    Owner::Continuous(old(self).continuous@.len() as u32),
                )
            },
    {
        let ghost before = *self;
        let owner = Owner::Continuous(self.continuous.len() as u32);
        match self.owners.claim(&self.mirror.store, ty, &writes, owner) {
            Ok(_) => {},
            Err(e) => {
                return Err(RenderError::Claim(e));
            },
        }
        let ghost more = Owners::claims_of(ty, writes@, owner);
        self.continuous.push(Continuous { name: name.to_string(), ty, writes });
        self.continuous_bodies.push(f);
        proof {
            lemma_owns_more(before.owners, self.owners, more);
            lemma_claims_added(
                before.owners,
                self.owners,
                more,
                self.reactions@,
                before.continuous@,
                self.mirror,
            );
            lemma_claims_known(
                before.owners,
                self.owners,
                self.mirror.store,
                ty,
                writes@,
                owner,
            );
            let n = before.continuous@.len() as int;
            assert(self.continuous@.drop_last() =~= before.continuous@);
            assert forall|k: int, w: int|
                #![trigger self.continuous@[k].writes@[w]]
                0 <= k < self.continuous@.len() && 0 <= w
                    < self.continuous@[k].writes@.len() implies self.owners.owns(
                self.continuous@[k].ty,
                self.continuous@[k].writes@[w],
                Owner::Continuous(k as u32),
            ) by {
                if k < n {
                    assert(self.continuous@[k] == before.continuous@[k]);
                    assert(before.owners.owns(
                        before.continuous@[k].ty,
                        before.continuous@[k].writes@[w],
                        Owner::Continuous(k as u32),
                    ));
                } else {
                    assert(more[w] == (Claim { ty, field: writes@[w], owner }));
                    assert(more.contains(more[w]));
                }
            }
            assert forall|k: int| 0 <= k < self.continuous@.len() implies self.mirror.store.known(
                (#[trigger] self.continuous@[k]).ty,
            ) by {
                if k < n {
                    assert(self.continuous@[k] == before.continuous@[k]);
                }
            }
        }
        Ok(())
    }

    fn validate_render_binding(&self, ty: EntityTypeId, binding: &RenderBinding) -> (r: Option<
        RenderError,
    >)
        ensures
            r == (if !self.mirror.store.known(ty) {
                Some(RenderError::NoSuchType(ty))
            } else {
                binding_error(self.mirror.store, ty, binding.fields(), 9)
            }),
    {
        if !self.mirror.store.has_type(ty) {
            return Some(RenderError::NoSuchType(ty));
        }
        let parts = render_binding_fields(binding);
        let ghost fs = binding.fields();
        let mut found: Option<RenderError> = None;
        let mut i: usize = 0;
        while i < 9
            invariant
                i <= 9,
                self.mirror.store.known(ty),
                fs == binding.fields(),
                fs.len() == 9,
                forall|k: int| 0 <= k < 9 ==> (#[trigger] parts@[k]).1 == fs[k],
                found == binding_error(self.mirror.store, ty, fs, i as int),
            decreases 9 - i,
        {
            assert(parts@[i as int].1 == fs[i as int]);
            if found.is_none() {
                if let Some(f) = parts[i].1 {
                    if !self.mirror.store.has_render_field(ty, f) {
                        found = Some(RenderError::BindingField(i, f));
                    } else {
                        let mut twice = false;
                        let mut k: usize = 0;
                        while k < i
                            invariant
                                k <= i < 9,
                                fs.len() == 9,
                                forall|x: int| 0 <= x < 9 ==> (#[trigger] parts@[x]).1 == fs[x],
                                twice <==> fs.take(k as int).contains(Some(f)),
                            decreases i - k,
                        {
                            let ghost done = fs.take(k as int);
                            let ghost next = fs.take(k + 1);
                            assert(parts@[k as int].1 == fs[k as int]);
                            proof {
                                assert(next[k as int] == fs[k as int]);
                                if done.contains(Some(f)) {
                                    let x = choose|x: int| 0 <= x < done.len() && done[x] == Some(f);
                                    assert(next[x] == Some(f));
                                }
                                if next.contains(Some(f)) {
                                    let x = choose|x: int| 0 <= x < next.len() && next[x] == Some(f);
                                    if x < k {
                                        assert(done[x] == Some(f));
                                    }
                                }
                            }
                            if let Some(g) = parts[k].1 {
                                if g == f {
                                    twice = true;
                                }
                            }
                            k = k + 1;
                        }
                        if twice {
                            found = Some(RenderError::BindingTwice(f));
                        }
                    }
                }
            }
            i = i + 1;
        }
        found
    }

    /// Declares that a type is drawn, and from which fields.
    pub fn renderable(&mut self, ty: EntityTypeId, binding: RenderBinding) -> (r: Result<
        (),
        RenderError,
    >)
        requires
            old(self).wf(),
        ensures
            final(self).wf(),
            r is Ok <==> !bound(old(self).renderables@, ty) && old(self).mirror.store.known(ty)
                && binding_error(old(self).mirror.store, ty, binding.fields(), 9) is None,
            r is Ok ==> *final(self) == (RenderRuntime {
                renderables: final(self).renderables,
                ..*old(self)
            }) && final(self).renderables@ == old(self).renderables@.push((ty, binding)),
            r is Err ==> *final(self) == *old(self) && Some(r->Err_0) == (if bound(
                old(self).renderables@,
                ty,
            ) {
                Some(RenderError::AlreadyRenderable(ty))
            } else if !old(self).mirror.store.known(ty) {
                Some(RenderError::NoSuchType(ty))
            } else {
                binding_error(old(self).mirror.store, ty, binding.fields(), 9)
            }),
    {
        let ghost before = *self;
        let mut i: usize = 0;
        while i < self.renderables.len()
            invariant
                *self == before,
                before.wf(),
                i <= self.renderables@.len(),
                forall|j: int| 0 <= j < i ==> (#[trigger] self.renderables@[j]).0 != ty,
            decreases self.renderables@.len() - i,
        {
            if self.renderables[i].0 == ty {
                assert(before.renderables@[i as int].0 == ty);
                return Err(RenderError::AlreadyRenderable(ty));
            }
            i = i + 1;
        }
        if let Some(e) = self.validate_render_binding(ty, &binding) {
            return Err(e);
        }
        self.renderables.push((ty, binding));
        proof {
            assert forall|k: int| 0 <= k < self.renderables@.len() implies self.mirror.store.known(
                (#[trigger] self.renderables@[k]).0,
            ) by {
                if k < before.renderables@.len() {
                    assert(self.renderables@[k] == before.renderables@[k]);
                }
            }
        }
        Ok(())
    }

    /// Lets the dead of a type fade: for `duration` seconds they stay on the render side,
    /// while the field falls from one to zero.
    pub fn set_death_fade(&mut self, ty: EntityTypeId, fade_field: RFieldId, duration: F64) -> (r:
        Result<(), RenderError>)
        requires
            old(self).wf(),
        ensures
            final(self).wf(),
            r is Ok <==> positive(duration) && old(self).mirror.fading(ty) is None && old(
                self).owners.grants(old(self).mirror.store, ty, seq![fade_field]),
            r is Err ==> *final(self) == *old(self) && match r->Err_0 {
                RenderError::BadDuration => !positive(duration),
                RenderError::AlreadyFading(t) => t == ty && positive(duration) && old(
                    self).mirror.fading(ty) is Some,
                RenderError::NoSuchField(t, f) => t == ty && f == fade_field && positive(duration)
                    && old(self).mirror.fading(ty) is None && !old(self).mirror.store.field_known(
                    ty,
                    fade_field,
                ),
                RenderError::Claim(e) => positive(duration) && old(self).mirror.fading(ty) is None
                    && old(self).mirror.store.field_known(ty, fade_field) && old(
                    self).owners.denied(old(self).mirror.store, ty, seq![fade_field], e),
                _ => false,
            },
            r is Ok ==> final(self).same_but_mirror(*old(self)) && final(self).mirror == (Mirror {
                fades: final(self).mirror.fades,
                ..old(self).mirror
            }) && final(self).mirror.fades@ == old(self).mirror.fades@.push(
                Fade { ty, field: fade_field, duration },
            ) && final(self).owners.claims@ == old(self).owners.claims@ + Owners::claims_of(
                ty,
                seq![fade_field],
                Owner::Fade,
            ) && final(self).owners.owns(ty, fade_field, Owner::Fade),
    {
        let ghost before = *self;
        if !is_positive(duration) {
            return Err(RenderError::BadDuration);
        }
        if self.mirror.fade_of(ty).is_some() {
            return Err(RenderError::AlreadyFading(ty));
        }
        let mut writes: Vec<RFieldId> = Vec::new();
        writes.push(fade_field);
        assert(writes@ =~= seq![fade_field]);
        if !self.mirror.store.has_render_field(ty, fade_field) {
            proof {
                assert(!self.owners.free(self.mirror.store, ty, writes@, 0));
            }
            return Err(RenderError::NoSuchField(ty, fade_field));
        }
        match self.owners.claim(&self.mirror.store, ty, &writes, Owner::Fade) {
            Ok(_) => {},
            Err(e) => {
                return Err(RenderError::Claim(e));
            },
        }
        let ghost more = Owners::claims_of(ty, writes@, Owner::Fade);
        self.mirror.fades.push(Fade { ty, field: fade_field, duration });
        proof {
            assert(more[0] == (Claim { ty, field: fade_field, owner: Owner::Fade }));
            assert(more.contains(more[0]));
            lemma_owns_more(before.owners, self.owners, more);
            lemma_claims_added(
                before.owners,
                self.owners,
                more,
                self.reactions@,
                self.continuous@,
                before.mirror,
            );
            lemma_claims_known(
                before.owners,
                self.owners,
                self.mirror.store,
                ty,
                writes@,
                Owner::Fade,
            );
            assert forall|i: int| 0 <= i < self.mirror.fades@.len() implies self.mirror.store.field_known(
                (#[trigger] self.mirror.fades@[i]).ty,
                self.mirror.fades@[i].field,
            ) && positive(self.mirror.fades@[i].duration) by {
                if i < before.mirror.fades@.len() {
                    assert(self.mirror.fades@[i] == before.mirror.fades@[i]);
                }
            }
            assert forall|k: int| 0 <= k < self.mirror.fades@.len() implies self.owners.owns(
                (#[trigger] self.mirror.fades@[k]).ty,
                self.mirror.fades@[k].field,
                Owner::Fade,
            ) by {
                if k < before.mirror.fades@.len() {
                    assert(self.mirror.fades@[k] == before.mirror.fades@[k]);
                }
            }
            lemma_mirror_listed(self.mirror, before.mirror);
        }
        Ok(())
    }

    /// Turns culling on: the grid, its plane, the camera, and the region in view.
    pub fn enable_culling(
        &mut self,
        cell_size: F64,
        axes: Axes,
        camera: InstanceId,
        cam_pos: RFieldId,
        shape: CullShape,
    ) -> (r: Result<(), RenderError>)
        requires
            old(self).wf(),
        ensures
            final(self).wf(),
            r is Err ==> *final(self) == *old(self),
            r == (if old(self).mirror.spatial is Some {
                Err(RenderError::AlreadyCulling)
            } else if !positive(cell_size) {
                Err(RenderError::BadCellSize)
            } else if !shape.valid() {
                Err(RenderError::BadShape)
            } else if !old(self).mirror.store.field_known(camera.ty, cam_pos) {
                Err(RenderError::NoSuchField(camera.ty, cam_pos))
            } else {
                Ok(())
            }),
            r is Ok ==> {
                &&& *final(self) == (RenderRuntime {
                    mirror: Mirror { spatial: final(self).mirror.spatial, ..old(self).mirror },
                    ..*old(self)
                })
                &&& final(self).mirror.spatial is Some
                &&& ({
                    let sp = final(self).mirror.spatial->0;
                    &&& sp.axes == axes
                    &&& sp.camera == camera
                    &&& sp.cam_pos == cam_pos
                    &&& sp.shape == shape
                    &&& sp.culled@.len() == 0
                    &&& !sp.active
                    &&& sp.grid.cell_size == cell_size
                    &&& sp.grid.inv_cell == of_int(1).div_spec(cell_size)
                    &&& sp.grid.ids@.len() == 0
                    &&& sp.visible@.len() == 0
                    &&& forall|i: InstanceId| #[trigger] sp.grid.at(i) is None
                })
            },
    {
        if self.mirror.spatial.is_some() {
            return Err(RenderError::AlreadyCulling);
        }
        if !is_positive(cell_size) {
            return Err(RenderError::BadCellSize);
        }
        if !shape.is_valid() {
            return Err(RenderError::BadShape);
        }
        if !self.mirror.store.has_render_field(camera.ty, cam_pos) {
            return Err(RenderError::NoSuchField(camera.ty, cam_pos));
        }
        let ghost before = *self;
        let grid = SpatialGrid::new(cell_size);
        self.mirror.spatial = Some(
            Spatial {
                grid,
                axes,
                camera,
                cam_pos,
                shape,
                culled: Vec::new(),
                visible: Vec::new(),
                active: false,
            },
        );
        proof {
            assert(forall|i: InstanceId| !(#[trigger] grid.has(i)));
            lemma_mirror_listed(self.mirror, before.mirror);
        }
        Ok(())
    }

    /// The first track of a field.
    pub open spec fn first_track(self, ty: EntityTypeId, f: FieldId) -> int {
        first(self.mirror.tracks@, track_of(ty, f))
    }

    /// Puts the instances of a type where the mirror of a field has them. One that has no
    /// place stays where it is.
    fn fill_grid(&mut self, ty: EntityTypeId, slot: usize)
        requires
            old(self).wf(),
            old(self).mirror.store.slot_known(ty, slot as int),
            old(self).mirror.spatial is Some,
        ensures
            final(self).mirror.wf(),
            *final(self) == (RenderRuntime {
                mirror: Mirror { spatial: final(self).mirror.spatial, ..old(self).mirror },
                ..*old(self)
            }),
            final(self).mirror.same_view(old(self).mirror),
            forall|i: InstanceId| #[trigger]
                final(self).mirror.grid_at(i) == (if i.ty == ty && old(self).mirror.store.present(i)
                    && old(self).mirror.place(
                    old(self).mirror.store.pair(i, slot as int).1,
                ) is Some {
                    old(self).mirror.place(old(self).mirror.store.pair(i, slot as int).1)
                } else {
                    old(self).mirror.grid_at(i)
                }),
    {
        let ghost before = *self;
        let insts = self.mirror.store.live_instances(ty);
        proof {
            law_live_instances_are_present(self.mirror.store, ty);
        }
        let mut k: usize = 0;
        while k < insts.len()
            invariant
                k <= insts@.len(),
                before.mirror.wf(),
                before.mirror.spatial is Some,
                before.mirror.store.slot_known(ty, slot as int),
                insts@ == before.mirror.store.live(ty),
                forall|x: int|
                    0 <= x < insts@.len() ==> before.mirror.store.present(#[trigger] insts@[x]),
                self.mirror.wf(),
                *self == (RenderRuntime {
                    mirror: Mirror { spatial: self.mirror.spatial, ..before.mirror },
                    ..before
                }),
                self.mirror.same_view(before.mirror),
                forall|i: InstanceId| #[trigger]
                    self.mirror.grid_at(i) == (if insts@.take(k as int).contains(i)
                        && before.mirror.place(
                        before.mirror.store.pair(i, slot as int).1,
                    ) is Some {
                        before.mirror.place(before.mirror.store.pair(i, slot as int).1)
                    } else {
                        before.mirror.grid_at(i)
                    }),
            decreases insts@.len() - k,
        {
            let ghost mid = self.mirror;
            let inst = insts[k];
            let ghost done = insts@.take(k as int);
            let ghost next = insts@.take(k + 1);
            proof {
                assert(before.mirror.store.present(insts@[k as int]));
                assert(inst.ty == ty) by {
                    assert(before.mirror.store.live(ty)[k as int].ty == ty);
                }
                assert(next =~= done.push(inst));
                assert(next[k as int] == inst);
                assert forall|i: InstanceId| #[trigger] next.contains(i) <==> done.contains(i) || i
                    == inst by {
                    if done.contains(i) {
                        let x = choose|x: int| 0 <= x < done.len() && done[x] == i;
                        assert(next[x] == i);
                    }
                    if next.contains(i) {
                        let x = choose|x: int| 0 <= x < next.len() && next[x] == i;
                        if x < k {
                            assert(done[x] == i);
                        }
                    }
                }
                assert(forall|v: Val| #[trigger] mid.place(v) == before.mirror.place(v));
            }
            if let Some((_, cur)) = self.mirror.store.track_pair(inst, slot) {
                let fits = match &self.mirror.spatial {
                    Some(sp) => match sp.axes.project(&cur) {
                        Some((x, y)) => sp.grid.can_hold(x, y),
                        None => false,
                    },
                    None => false,
                };
                assert(fits <==> before.mirror.place(cur@) is Some);
                if fits {
                    self.mirror.put(inst, &cur);
                }
            }
            k = k + 1;
        }
        proof {
            assert(insts@.take(insts@.len() as int) =~= insts@);
            law_live_instances_are_present(before.mirror.store, ty);
        }
    }

    /// Lets the instances of a type be culled by a tracked field that holds their position.
    /// The distance of those in view is kept in a render field, if one is given.
    pub fn cull_type(
        &mut self,
        ty: EntityTypeId,
        translation_sim_field: FieldId,
        dist_field: Option<RFieldId>,
    ) -> (r: Result<(), RenderError>)
        requires
            old(self).wf(),
        ensures
            final(self).wf(),
            r is Ok <==> old(self).mirror.spatial is Some && old(self).first_track(
                ty,
                translation_sim_field,
            ) < old(self).mirror.tracks@.len() && old(self).mirror.culling(ty) is None && (
            dist_field is Some ==> old(self).owners.grants(
                old(self).mirror.store,
                ty,
                seq![dist_field->0],
            )),
            r is Err ==> *final(self) == *old(self) && match r->Err_0 {
                RenderError::NotCulling => old(self).mirror.spatial is None,
                RenderError::NotTracked(t, f) => t == ty && f == translation_sim_field && old(
                    self).mirror.spatial is Some && old(self).first_track(
                    ty,
                    translation_sim_field,
                ) == old(self).mirror.tracks@.len(),
                RenderError::AlreadyCulled(t) => t == ty && old(self).mirror.spatial is Some && old(
                    self).first_track(ty, translation_sim_field) < old(self).mirror.tracks@.len()
                    && old(self).mirror.culling(ty) is Some,
                RenderError::Claim(e) => old(self).mirror.spatial is Some && old(self).first_track(
                    ty,
                    translation_sim_field,
                ) < old(self).mirror.tracks@.len() && old(self).mirror.culling(ty) is None
                    && dist_field is Some && old(self).owners.denied(old(self).mirror.store, ty, seq![dist_field->0], e),
                _ => false,
            },
            r is Ok ==> {
                let slot = old(self).mirror.tracks@[old(self).first_track(
                    ty,
                    translation_sim_field,
                )].slot;
                let sp = final(self).mirror.spatial->0;
                &&& final(self).same_but_mirror(*old(self))
                &&& final(self).mirror == (Mirror {
                    spatial: final(self).mirror.spatial,
                    ..old(self).mirror
                })
                &&& final(self).mirror.spatial is Some
                &&& sp.culled@ == old(self).mirror.spatial->0.culled@.push(
                    CulledType {
                        ty,
                        translation_field: translation_sim_field,
                        track_slot: slot,
                        dist_field,
                    },
                )
                &&& sp.visible@.len() == old(self).mirror.spatial->0.visible@.len() + 1
                &&& sp.visible@.drop_last() == old(self).mirror.spatial->0.visible@
                &&& sp.visible@.last().ty == ty
                &&& sp.visible@.last().insts@.len() == 0
                &&& sp.active == old(self).mirror.spatial->0.active
                &&& sp.axes == old(self).mirror.spatial->0.axes
                &&& sp.camera == old(self).mirror.spatial->0.camera
                &&& sp.cam_pos == old(self).mirror.spatial->0.cam_pos
                &&& sp.shape == old(self).mirror.spatial->0.shape
                &&& sp.grid.cell_size == old(self).mirror.spatial->0.grid.cell_size
                &&& sp.grid.inv_cell == old(self).mirror.spatial->0.grid.inv_cell
                &&& dist_field is None ==> final(self).owners == old(self).owners
                &&& dist_field is Some ==> final(self).owners.claims@ == old(self).owners.claims@
                    + Owners::claims_of(ty, seq![dist_field->0], Owner::Distance)
                &&& dist_field is Some ==> final(self).owners.owns(
                    ty,
                    dist_field->0,
                    Owner::Distance,
                )
                &&& forall|i: InstanceId| #[trigger]
                    final(self).mirror.grid_at(i) == (if i.ty == ty && old(
                        self).mirror.store.present(i) && old(self).mirror.place(
                        old(self).mirror.store.pair(i, slot as int).1,
                    ) is Some {
                        old(self).mirror.place(old(self).mirror.store.pair(i, slot as int).1)
                    } else {
                        old(self).mirror.grid_at(i)
                    })
            },
    {
        let ghost before = *self;
        if self.mirror.spatial.is_none() {
            return Err(RenderError::NotCulling);
        }
        let mut ti: usize = 0;
        while ti < self.mirror.tracks.len()
            invariant
                *self == before,
                ti <= self.mirror.tracks@.len(),
                forall|j: int|
                    0 <= j < ti ==> !track_of(ty, translation_sim_field)(
                        #[trigger] self.mirror.tracks@[j],
                    ),
            ensures
                *self == before,
                ti <= self.mirror.tracks@.len(),
                forall|j: int|
                    0 <= j < ti ==> !track_of(ty, translation_sim_field)(
                        #[trigger] self.mirror.tracks@[j],
                    ),
                ti < self.mirror.tracks@.len() ==> track_of(ty, translation_sim_field)(
                    self.mirror.tracks@[ti as int],
                ),
            decreases self.mirror.tracks@.len() - ti,
        {
            if self.mirror.tracks[ti].ty == ty && self.mirror.tracks[ti].sim_field
                == translation_sim_field {
                break;
            }
            ti = ti + 1;
        }
        proof {
            lemma_first(self.mirror.tracks@, track_of(ty, translation_sim_field), ti as int);
        }
        if ti >= self.mirror.tracks.len() {
            return Err(RenderError::NotTracked(ty, translation_sim_field));
        }
        if self.mirror.culling_of(ty).is_some() {
            return Err(RenderError::AlreadyCulled(ty));
        }
        let ghost mut more: Seq<Claim> = Seq::empty();
        if let Some(df) = dist_field {
            let mut writes: Vec<RFieldId> = Vec::new();
            writes.push(df);
            assert(writes@ =~= seq![df]);
            match self.owners.claim(&self.mirror.store, ty, &writes, Owner::Distance) {
                Ok(_) => {},
                Err(e) => {
                    return Err(RenderError::Claim(e));
                },
            }
            proof {
                more = Owners::claims_of(ty, writes@, Owner::Distance);
                assert(more[0] == (Claim { ty, field: df, owner: Owner::Distance }));
                assert(more.contains(more[0]));
                assert(before.owners.free(before.mirror.store, ty, writes@, 0));
                lemma_claims_known(
                    before.owners,
                    self.owners,
                    self.mirror.store,
                    ty,
                    writes@,
                    Owner::Distance,
                );
            }
        }
        proof {
            assert(self.owners.claims@ =~= before.owners.claims@ + more);
            lemma_owns_more(before.owners, self.owners, more);
            lemma_claims_added(
                before.owners,
                self.owners,
                more,
                self.reactions@,
                self.continuous@,
                self.mirror,
            );
            assert(self.mirror.track_ok(self.mirror.tracks@[ti as int]));
        }
        let slot = self.mirror.tracks[ti].slot;
        let ghost claimed = *self;
        self.fill_grid(ty, slot);
        let ghost filled = *self;
        if let Some(sp) = &mut self.mirror.spatial {
            sp.culled.push(
                CulledType {
                    ty,
                    translation_field: translation_sim_field,
                    track_slot: slot,
                    dist_field,
                },
            );
            sp.visible.push(Bucket { ty, insts: Vec::new() });
        }
        proof {
            let sp = self.mirror.spatial->0;
            let sp0 = before.mirror.spatial->0;
            let n = sp0.culled@.len() as int;
            crate::lists::lemma_first_found(sp0.culled@, |c: CulledType| c.ty == ty);
            assert(sp.visible@.drop_last() =~= sp0.visible@);
            assert forall|k: int| 0 <= k < sp.culled@.len() implies (#[trigger] sp.visible@[k]).ty
                == sp.culled@[k].ty by {
                if k < n {
                    assert(sp.visible@[k] == filled.mirror.spatial->0.visible@[k]);
                    assert(sp0.visible@[k].ty == sp0.culled@[k].ty);
                }
            }
            assert forall|i: int, j: int| 0 <= i < j < sp.culled@.len() implies (
            #[trigger] sp.culled@[i]).ty != (#[trigger] sp.culled@[j]).ty by {
                assert(sp.culled@[i] == sp0.culled@[i]);
                if j < n {
                    assert(sp.culled@[j] == sp0.culled@[j]);
                } else {
                    let p = |c: CulledType| c.ty == ty;
                    assert(culled_at(sp0.culled@, ty) == n);
                    assert(!p(sp0.culled@[i]));
                }
            }
            assert forall|k: int| 0 <= k < sp.culled@.len() implies self.mirror.culled_tracked(
                #[trigger] sp.culled@[k],
            ) by {
                if k < n {
                    assert(before.mirror.culled_tracked(sp0.culled@[k]));
                    assert(sp.culled@[k] == sp0.culled@[k]);
                    let c = sp0.culled@[k];
                    let x = choose|x: int|
                        0 <= x < before.mirror.tracks@.len() && (
                        #[trigger] before.mirror.tracks@[x]).ty == c.ty
                            && before.mirror.tracks@[x].sim_field == c.translation_field
                            && before.mirror.tracks@[x].slot == c.track_slot;
                    assert(self.mirror.tracks@[x].ty == c.ty);
                } else {
                    assert(self.mirror.tracks@[ti as int].ty == ty);
                }
            }
            lemma_mirror_listed(self.mirror, before.mirror);
            assert forall|k: int|
                0 <= k < sp.culled@.len() && (
                #[trigger] sp.culled@[k]).dist_field is Some implies self.owners.owns(
                sp.culled@[k].ty,
                sp.culled@[k].dist_field->0,
                Owner::Distance,
            ) by {
                if k < n {
                    assert(sp.culled@[k] == sp0.culled@[k]);
                }
            }
            assert forall|i: InstanceId| #[trigger] self.mirror.grid_at(i)
                == filled.mirror.grid_at(i) by {}
        }
        Ok(())
    }

    /// The tracked fields, for the simulation to publish.
    pub fn tracked_fields(&self) -> (r: Vec<(EntityTypeId, FieldId)>)
        ensures
            r@ == Seq::new(
                self.mirror.tracks@.len(),
                |i: int| (self.mirror.tracks@[i].ty, self.mirror.tracks@[i].sim_field),
            ),
    {
        let mut out: Vec<(EntityTypeId, FieldId)> = Vec::new();
        let mut i: usize = 0;
        while i < self.mirror.tracks.len()
            invariant
                i <= self.mirror.tracks@.len(),
                out@ =~= Seq::new(
                    i as nat,
                    |k: int| (self.mirror.tracks@[k].ty, self.mirror.tracks@[k].sim_field),
                ),
            decreases self.mirror.tracks@.len() - i,
        {
            out.push((self.mirror.tracks[i].ty, self.mirror.tracks[i].sim_field));
            i = i + 1;
        }
        out
    }
}

/// The track follows the field.
pub open spec fn track_of(ty: EntityTypeId, f: FieldId) -> spec_fn(Track) -> bool {
    |tr: Track| tr.ty == ty && tr.sim_field == f
}

/// A mirror that differs in who fades or in what is culled keeps its tracks.
proof fn lemma_mirror_listed(after: Mirror, before: Mirror)
    requires
        before.wf(),
        after.store == before.store,
        after.defaults == before.defaults,
        after.tracks == before.tracks,
        after.active == before.active,
        after.dying == before.dying,
        after.fades_ok(),
        after.spatial is Some ==> after.spatial->0.wf() && after.culled_ok(after.spatial->0),
    ensures
        after.wf(),
{
    assert forall|i: int| 0 <= i < after.tracks@.len() implies after.track_ok(
        #[trigger] after.tracks@[i],
    ) by {
        assert(before.track_ok(before.tracks@[i]));
    }
    assert forall|ty: EntityTypeId, t: int| #[trigger] after.store.slot_known(ty, t) implies exists|
        ti: int,
    |
        0 <= ti < after.tracks@.len() && (#[trigger] after.tracks@[ti]).ty == ty
            && after.tracks@[ti].slot == t by {
        assert(before.store.slot_known(ty, t));
    }
}

/// A track more, with its mirror and its output.
proof fn lemma_track_added(
    after: Mirror,
    before: Mirror,
    ty: EntityTypeId,
    sim_field: FieldId,
    out: RFieldId,
    slot: usize,
    kind: Interp,
)
    requires
        before.wf(),
        before.store.known(ty),
        after == (Mirror { store: after.store, tracks: after.tracks, ..before }),
        after.store.wf(),
        after.store.extended(before.store, ty),
        after.store.at(ty).render_defaults == before.store.at(ty).render_defaults,
        after.store.at(ty).render_cols == before.store.at(ty).render_cols,
        slot == before.store.at(ty).tracks@.len(),
        after.store.at(ty).tracks@.len() == slot + 1,
        after.store.at(ty).tracks@.drop_last() == before.store.at(ty).tracks@,
        after.store.at(ty).tracks@.last().sim_field == sim_field,
        after.store.at(ty).tracks@.last().default@ == before.default_of(ty, sim_field),
        before.store.field_known(ty, out),
        before.store.at(ty).render_defaults@[out.0 as int]@ == kind.out_default_spec(
            before.default_of(ty, sim_field),
        ),
        forall|k: int|
            0 <= k < before.tracks@.len() && (#[trigger] before.tracks@[k]).ty == ty
                ==> before.tracks@[k].out != out,
        after.tracks@ == before.tracks@.push(Track { ty, sim_field, out, slot, kind }),
    ensures
        after.wf(),
        forall|t: EntityTypeId| #[trigger] after.store.known(t) <==> before.store.known(t),
        forall|t: EntityTypeId, f: RFieldId|
            before.store.field_known(t, f) ==> #[trigger] after.store.field_known(t, f),
{
    let n = before.tracks@.len() as int;
    assert forall|t: EntityTypeId, f: RFieldId|
        before.store.field_known(t, f) implies #[trigger] after.store.field_known(t, f) by {
        if t != ty {
            assert(after.store.types@[t.0 as int] == before.store.types@[t.0 as int]);
        }
    }
    assert forall|t: EntityTypeId, k: int|
        before.store.slot_known(t, k) implies #[trigger] after.store.at(t).tracks@[k]
        == before.store.at(t).tracks@[k] by {
        if t != ty {
            assert(after.store.types@[t.0 as int] == before.store.types@[t.0 as int]);
        } else {
            assert(after.store.at(ty).tracks@.drop_last()[k] == after.store.at(ty).tracks@[k]);
        }
    }
    assert forall|i: int| 0 <= i < after.tracks@.len() implies after.track_ok(
        #[trigger] after.tracks@[i],
    ) by {
        let tr = after.tracks@[i];
        if i < n {
            assert(tr == before.tracks@[i]);
            assert(before.track_ok(before.tracks@[i]));
            assert(after.store.at(tr.ty).tracks@[tr.slot as int] == before.store.at(
                tr.ty,
            ).tracks@[tr.slot as int]);
            if tr.ty != ty {
                assert(after.store.types@[tr.ty.0 as int] == before.store.types@[tr.ty.0 as int]);
            }
        } else {
            assert(after.store.at(ty).tracks@.last() == after.store.at(ty).tracks@[slot as int]);
        }
    }
    assert forall|i: int, j: int|
        0 <= i < j < after.tracks@.len() && (#[trigger] after.tracks@[i]).ty == (
        #[trigger] after.tracks@[j]).ty implies after.tracks@[i].slot != after.tracks@[j].slot
        && after.tracks@[i].out != after.tracks@[j].out by {
        assert(after.tracks@[i] == before.tracks@[i]);
        if j < n {
            assert(after.tracks@[j] == before.tracks@[j]);
        } else {
            assert(before.track_ok(before.tracks@[i]));
        }
    }
    assert forall|t: EntityTypeId, k: int| #[trigger] after.store.slot_known(t, k) implies exists|
        ti: int,
    |
        0 <= ti < after.tracks@.len() && (#[trigger] after.tracks@[ti]).ty == t
            && after.tracks@[ti].slot == k by {
        if t == ty && k == slot {
            assert(after.tracks@[n].ty == t);
        } else {
            if t != ty {
                assert(after.store.types@[t.0 as int] == before.store.types@[t.0 as int]);
            }
            assert(before.store.slot_known(t, k));
            let ti = choose|ti: int|
                0 <= ti < before.tracks@.len() && (#[trigger] before.tracks@[ti]).ty == t
                    && before.tracks@[ti].slot == k;
            assert(after.tracks@[ti] == before.tracks@[ti]);
        }
    }
    assert forall|k: int| 0 <= k < after.active@.len() implies (#[trigger] after.active@[k]).1
        < after.tracks@.len() && after.tracks@[after.active@[k].1 as int].ty
        == after.active@[k].0.ty by {
        let ti = before.active@[k].1 as int;
        assert(after.tracks@[ti] == before.tracks@[ti]);
    }
    assert forall|i: int| 0 <= i < after.fades@.len() implies after.store.field_known(
        (#[trigger] after.fades@[i]).ty,
        after.fades@[i].field,
    ) && positive(after.fades@[i].duration) by {
        assert(before.store.field_known(before.fades@[i].ty, before.fades@[i].field));
    }
    if after.spatial is Some {
        assert forall|k: int| 0 <= k < after.spatial->0.culled@.len() implies after.culled_tracked(
            #[trigger] after.spatial->0.culled@[k],
        ) by {
            assert(before.culled_tracked(before.spatial->0.culled@[k]));
            let c = before.spatial->0.culled@[k];
            let ti = choose|ti: int|
                0 <= ti < before.tracks@.len() && (#[trigger] before.tracks@[ti]).ty == c.ty
                    && before.tracks@[ti].sim_field == c.translation_field
                    && before.tracks@[ti].slot == c.track_slot;
            assert(after.tracks@[ti] == before.tracks@[ti]);
        }
    }
}

}
