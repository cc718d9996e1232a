//! Local entities of the render runtime: their types, calculations and bindings.
use crate::render::continuous::LocalContinuous;
use crate::render::ctx::RenderCtx;
use crate::render::ctx::RenderInput;
use crate::render::ctx::RenderLocalCtx;
use crate::render::local::LocalError;
use crate::render::local::LocalStore;
use crate::render::local::RenderLocalFieldDef;
use crate::render::local::RenderLocalId;
use crate::render::local::RenderLocalTypeId;
use crate::render::local_run::made;
use crate::render::runtime::RenderRuntime;
use crate::render::store::RFieldId;
use crate::render::submission::all_local_packets;
use crate::render::submission::assemble_local;
use crate::render::submission::local_packets_of;
use crate::render::submission::render_binding_fields;
use crate::render::submission::LocalSubmissionView;
use crate::render::submission::RenderBinding;
use crate::value::Value;
use vstd::prelude::*;

verus! {

/// Some calculation of the type writes the field.
pub open spec fn local_taken(
    cs: Seq<LocalContinuous>,
    ty: RenderLocalTypeId,
    f: RFieldId,
) -> bool {
    exists|c: int| 0 <= c < cs.len() && (#[trigger] cs[c]).ty == ty && cs[c].writes@.contains(f)
}

/// Why the `i`-th of some fields cannot be claimed.
pub open spec fn local_claim(
    store: LocalStore,
    cs: Seq<LocalContinuous>,
    ty: RenderLocalTypeId,
    writes: Seq<RFieldId>,
    i: int,
) -> Option<LocalError> {
    if !store.field_known(ty, writes[i]) {
        Some(LocalError::NoSuchField(ty, writes[i]))
    } else if local_taken(cs, ty, writes[i]) {
        Some(LocalError::Owned(ty, writes[i]))
    } else if writes.take(i).contains(writes[i]) {
        Some(LocalError::Twice(ty, writes[i]))
    } else {
        None
    }
}

/// Why the first of the first `n` fields that cannot be claimed cannot.
pub open spec fn local_claims(
    store: LocalStore,
    cs: Seq<LocalContinuous>,
    ty: RenderLocalTypeId,
    writes: Seq<RFieldId>,
    n: int,
) -> Option<LocalError>
    decreases n,
{
    if n <= 0 {
        None
    } else {
        match local_claims(store, cs, ty, writes, n - 1) {
            Some(e) => Some(e),
            None => local_claim(store, cs, ty, writes, n - 1),
        }
    }
}

/// What is wrong first with the first `n` parts of a binding.
pub open spec fn local_binding_error(
    store: LocalStore,
    ty: RenderLocalTypeId,
    parts: Seq<Option<RFieldId>>,
    n: int,
) -> Option<LocalError>
    decreases n,
{
    if n <= 0 {
        None
    } else {
        match local_binding_error(store, ty, parts, n - 1) {
            Some(e) => Some(e),
            None => match parts[n - 1] {
                None => None,
                Some(f) => if !store.field_known(ty, f) {
                    Some(LocalError::NoSuchField(ty, f))
                } else if parts.take(n - 1).contains(Some(f)) {
                    Some(LocalError::Twice(ty, f))
                } else {
                    None
                },
            },
        }
    }
}

/// The type has a binding.
pub open spec fn local_bound(
    rs: Seq<(RenderLocalTypeId, RenderBinding)>,
    ty: RenderLocalTypeId,
) -> bool {
    exists|i: int| 0 <= i < rs.len() && (#[trigger] rs[i]).0 == ty
}

fn is_taken(cs: &Vec<LocalContinuous>, ty: RenderLocalTypeId, f: RFieldId) -> (r: bool)
    ensures
        r == local_taken(cs@, ty, f),
{
    let mut c: usize = 0;
    while c < cs.len()
        invariant
            c <= cs@.len(),
            forall|x: int|
                0 <= x < c ==> !((#[trigger] cs@[x]).ty == ty && cs@[x].writes@.contains(f)),
        decreases cs@.len() - c,
    {
        if cs[c].ty == ty {
            let mut w: usize = 0;
            while w < cs[c].writes.len()
                invariant
                    c < cs@.len(),
                    cs@[c as int].ty == ty,
                    w <= cs@[c as int].writes@.len(),
                    forall|x: int| 0 <= x < w ==> cs@[c as int].writes@[x] != f,
                decreases cs@[c as int].writes@.len() - w,
            {
                if cs[c].writes[w] == f {
                    assert(cs@[c as int].writes@.contains(f));
                    return true;
                }
                w = w + 1;
            }
        }
        c = c + 1;
    }
    false
}

fn occurs(fs: &Vec<RFieldId>, n: usize, f: RFieldId) -> (r: bool)
    requires
        n <= fs@.len(),
    ensures
        r == fs@.take(n as int).contains(f),
{
    let mut k: usize = 0;
    while k < n
        invariant
            k <= n <= fs@.len(),
            forall|x: int| 0 <= x < k ==> fs@[x] != f,
        decreases n - k,
    {
        if fs[k] == f {
            assert(fs@.take(n as int)[k as int] == f);
            return true;
        }
        k = k + 1;
    }
    false
}

impl<R, C, L> RenderRuntime<R, C, L> where
    R: for<'a, 'b, 'c> Fn(&'a mut RenderCtx<'b>, &'c RenderInput),
    C: for<'a, 'b> Fn(&'a mut RenderCtx<'b>),
    L: for<'a, 'b> Fn(&'a mut RenderLocalCtx<'b>),
 {
    /// Adds a type of local entities.
    pub fn register_local_type(&mut self, name: &str, fields: Vec<RenderLocalFieldDef>) -> (r:
        RenderLocalTypeId)
        requires
            old(self).wf(),
            old(self).local.types@.len() < u32::MAX,
            fields@.len() <= u32::MAX,
        ensures
            final(self).wf(),
            *final(self) == (RenderRuntime { local: final(self).local, ..*old(self) }),
            r.0 == old(self).local.types@.len(),
            final(self).local.types@.drop_last() == old(self).local.types@,
            final(self).local.types@.len() == old(self).local.types@.len() + 1,
            final(self).local.at(r).name@ == name@,
            final(self).local.at(r).fields == fields,
            final(self).local.at(r).rows() == 0,
    {
        self.local.add_type(name, fields)
    }

    /// The first field of this name of a local type.
    pub fn local_field(&self, ty: RenderLocalTypeId, name: &str) -> (r: Result<
        RFieldId,
        LocalError,
    >)
        requires
            self.wf(),
        ensures
            match r {
                Ok(f) => self.local.field_known(ty, f) && self.local.at(
                    ty,
                ).fields@[f.0 as int].name@ == name@ && forall|i: int|
                    0 <= i < f.0 ==> (#[trigger] self.local.at(ty).fields@[i]).name@ != name@,
                Err(LocalError::NoSuchType(t)) => t == ty && !self.local.known(ty),
                Err(LocalError::NoSuchName(t)) => t == ty && self.local.known(ty) && forall|i: int|
                    0 <= i < self.local.at(ty).fields@.len() ==> (
                    #[trigger] self.local.at(ty).fields@[i]).name@ != name@,
                Err(_) => false,
            },
    {
        self.local.field(ty, name)
    }

    /// Why a calculation of local entities cannot be registered.
    pub open spec fn local_refusal(self, ty: RenderLocalTypeId, writes: Seq<RFieldId>) -> Option<
        LocalError,
    > {
        if !self.local.known(ty) {
            Some(LocalError::NoSuchType(ty))
        } else {
            local_claims(
                self.local,
                self.local_continuous@,
                ty,
                writes,
                writes.len() as int,
            )
        }
    }

    /// Registers a calculation that runs in every render frame for every local entity of a
    /// type. A field has one writer here too.
    pub fn local_continuous(
        &mut self,
        name: &str,
        ty: RenderLocalTypeId,
        writes: Vec<RFieldId>,
        f: L,
    ) -> (r: Result<(), LocalError>)
        requires
            old(self).wf(),
        ensures
            final(self).wf(),
            match old(self).local_refusal(ty, writes@) {
                Some(e) => r == Err::<(), LocalError>(e) && *final(self) == *old(self),
                None => {
                    &&& r is Ok
                    &&& *final(self) == (RenderRuntime {
                        local_continuous: final(self).local_continuous,
                        local_bodies: final(self).local_bodies,
                        ..*old(self)
                    })
                    &&& final(self).local_bodies@ == old(self).local_bodies@.push(f)
                    &&& final(self).local_continuous@.len() == old(self).local_continuous@.len() + 1
                    &&& final(self).local_continuous@.drop_last() == old(self).local_continuous@
                    &&& final(self).local_continuous@.last().name@ == name@
                    &&& final(self).local_continuous@.last().ty == ty
                    &&& final(self).local_continuous@.last().writes == writes
                },
            },
    {
        let ghost before = *self;
        if !self.local.has_type(ty) {
            return Err(LocalError::NoSuchType(ty));
        }
        let mut found: Option<LocalError> = None;
        let mut i: usize = 0;
        while i < writes.len()
            invariant
                *self == before,
                before.local.known(ty),
                i <= writes@.len(),
                found == local_claims(
                    before.local,
                    before.local_continuous@,
                    ty,
                    writes@,
                    i as int,
                ),
            decreases writes@.len() - i,
        {
            if found.is_none() {
                let w = writes[i];
                if !self.local.has_field(ty, w) {
                    found = Some(LocalError::NoSuchField(ty, w));
                } else if is_taken(&self.local_continuous, ty, w) {
                    found = Some(LocalError::Owned(ty, w));
                } else if occurs(&writes, i, w) {
                    found = Some(LocalError::Twice(ty, w));
                }
            }
            i = i + 1;
        }
        if let Some(e) = found {
            return Err(e);
        }
        self.local_continuous.push(LocalContinuous { name: name.to_string(), ty, writes });
        self.local_bodies.push(f);
        assert(self.local_continuous@.drop_last() =~= before.local_continuous@);
        Ok(())
    }

    /// Why a binding of a local type cannot stand.
    pub open spec fn local_binding_refusal(
        self,
        ty: RenderLocalTypeId,
        binding: RenderBinding,
    ) -> Option<LocalError> {
        if local_bound(self.local_renderables@, ty) {
            Some(LocalError::AlreadyRenderable(ty))
        } else if !self.local.known(ty) {
            Some(LocalError::NoSuchType(ty))
        } else {
            local_binding_error(self.local, ty, binding.fields(), 9)
        }
    }

    /// Declares that a local type is drawn, and from which fields.
    pub fn local_renderable(&mut self, ty: RenderLocalTypeId, binding: RenderBinding) -> (r: Result<
        (),
        LocalError,
    >)
        requires
            old(self).wf(),
        ensures
            final(self).wf(),
            match old(self).local_binding_refusal(ty, binding) {
                Some(e) => r == Err::<(), LocalError>(e) && *final(self) == *old(self),
                None => r is Ok && *final(self) == (RenderRuntime {
                    local_renderables: final(self).local_renderables,
                    ..*old(self)
                }) && final(self).local_renderables@ == old(self).local_renderables@.push(
                    (ty, binding),
                ),
            },
    {
        let ghost before = *self;
        let mut i: usize = 0;
        while i < self.local_renderables.len()
            invariant
                *self == before,
                before.wf(),
                i <= self.local_renderables@.len(),
                forall|j: int| 0 <= j < i ==> (#[trigger] self.local_renderables@[j]).0 != ty,
            decreases self.local_renderables@.len() - i,
        {
            if self.local_renderables[i].0 == ty {
                assert(before.local_renderables@[i as int].0 == ty);
                return Err(LocalError::AlreadyRenderable(ty));
            }
            i = i + 1;
        }
        if !self.local.has_type(ty) {
            return Err(LocalError::NoSuchType(ty));
        }
        let parts = render_binding_fields(&binding);
        let ghost fs = binding.fields();
        let mut found: Option<LocalError> = None;
        let mut seen: Vec<Option<RFieldId>> = Vec::new();
        let mut n: usize = 0;
        while n < 9
            invariant
                n <= 9,
                *self == before,
                before.local.known(ty),
                fs == binding.fields(),
                fs.len() == 9,
                forall|k: int| 0 <= k < 9 ==> (#[trigger] parts@[k]).1 == fs[k],
                seen@ =~= fs.take(n as int),
                found == local_binding_error(before.local, ty, fs, n as int),
            decreases 9 - n,
        {
            assert(parts@[n as int].1 == fs[n as int]);
            if found.is_none() {
                if let Some(f) = parts[n].1 {
                    if !self.local.has_field(ty, f) {
                        found = Some(LocalError::NoSuchField(ty, f));
                    } else if has_part(&seen, f) {
                        found = Some(LocalError::Twice(ty, f));
                    }
                }
            }
            seen.push(parts[n].1);
            n = n + 1;
        }
        if let Some(e) = found {
            return Err(e);
        }
        self.local_renderables.push((ty, binding));
        Ok(())
    }

    /// Makes a local entity.
    pub fn spawn_local(&mut self, ty: RenderLocalTypeId, init: Vec<(RFieldId, Value)>) -> (r:
        Result<RenderLocalId, LocalError>)
        requires
            old(self).wf(),
        ensures
            final(self).wf(),
            *final(self) == (RenderRuntime { local: final(self).local, ..*old(self) }),
            final(self).local.same_schema(old(self).local),
            final(self).local.spent_kept(old(self).local),
            match old(self).local.refusal(ty, init@) {
                Some(e) => r == Err::<RenderLocalId, LocalError>(e) && final(self).local == old(
                    self).local,
                None => r is Ok && r->Ok_0.ty == ty && made(
                    final(self).local,
                    old(self).local,
                    r->Ok_0,
                    init@,
                ),
            },
    {
        self.local.spawn(ty, init)
    }

    /// The local entity is there.
    pub fn is_local_present(&self, id: RenderLocalId) -> (r: bool)
        ensures
            r == self.local.present(id),
    {
        self.local.is_present(id)
    }

    /// A field of a local entity.
    pub fn read_local(&self, id: RenderLocalId, f: RFieldId) -> (r: Value)
        requires
            self.wf(),
        ensures
            r@ == self.local.value(id, f),
    {
        self.local.read(id, f)
    }

    /// The number of local entities of a type.
    pub fn local_count(&self, ty: RenderLocalTypeId) -> (r: usize)
        requires
            self.wf(),
        ensures
            r == self.local.live(ty).len(),
    {
        self.local.live_count(ty)
    }

    /// What the frame hands over of the local entities.
    pub fn submit_local(&self) -> (r: LocalSubmissionView)
        requires
            self.wf(),
        ensures
            local_packets_of(r.packets@) == all_local_packets(
                self.local,
                self.local_renderables@,
                self.local_renderables@.len() as int,
            ),
    {
        assemble_local(&self.local, &self.local_renderables)
    }
}

fn has_part(parts: &Vec<Option<RFieldId>>, f: RFieldId) -> (r: bool)
    ensures
        r == parts@.contains(Some(f)),
{
    let mut k: usize = 0;
    while k < parts.len()
        invariant
            k <= parts@.len(),
            forall|x: int| 0 <= x < k ==> parts@[x] != Some(f),
        decreases parts@.len() - k,
    {
        if let Some(g) = parts[k] {
            if g == f {
                assert(parts@[k as int] == Some(f));
                return true;
            }
        }
        k = k + 1;
    }
    false
}

}
