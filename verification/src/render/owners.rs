//! The one writer of each render field.
use crate::entity::EntityTypeId;
use crate::render::store::RFieldId;
use crate::render::store::RenderStore;
use crate::render::writes::Owner;
use vstd::prelude::*;

verus! {

/// A field and its writer.
#[derive(Clone, Copy, Debug)]
pub struct Claim {
    pub ty: EntityTypeId,
    pub field: RFieldId,
    pub owner: Owner,
}

/// Why fields cannot be claimed.
#[derive(Clone, Copy, Debug, PartialEq, Eq, Structural)]
pub enum ClaimError {
    NoSuchField(EntityTypeId, RFieldId),
    /// The field has a writer.
    Owned(EntityTypeId, RFieldId, Owner),
    /// The field is claimed twice at once.
    Twice(EntityTypeId, RFieldId),
}

/// The writers of all fields that have one.
pub struct Owners {
    pub claims: Vec<Claim>,
}

impl Owners {
    /// No field has two writers.
    pub open spec fn wf(self) -> bool {
        forall|i: int, j: int|
            0 <= i < j < self.claims@.len() ==> !((#[trigger] self.claims@[i]).ty == (
            #[trigger] self.claims@[j]).ty && self.claims@[i].field == self.claims@[j].field)
    }

    /// The field belongs to this writer.
    pub open spec fn owns(self, ty: EntityTypeId, f: RFieldId, owner: Owner) -> bool {
        exists|i: int|
            0 <= i < self.claims@.len() && #[trigger] self.claims@[i] == (Claim {
                ty,
                field: f,
                owner,
            })
    }

    /// The field has a writer.
    pub open spec fn taken(self, ty: EntityTypeId, f: RFieldId) -> bool {
        exists|owner: Owner| #[trigger] self.owns(ty, f, owner)
    }

    /// Why the `i`-th of some fields cannot be claimed.
    pub open spec fn refuses(
        self,
        store: RenderStore,
        ty: EntityTypeId,
        writes: Seq<RFieldId>,
        i: int,
        e: ClaimError,
    ) -> bool {
        let w = writes[i];
        if !store.field_known(ty, w) {
            e == ClaimError::NoSuchField(ty, w)
        } else if self.taken(ty, w) {
            exists|owner: Owner| #[trigger]
                self.owns(ty, w, owner) && e == ClaimError::Owned(ty, w, owner)
        } else if writes.take(i).contains(w) {
            e == ClaimError::Twice(ty, w)
        } else {
            false
        }
    }

    /// The `i`-th of some fields can be claimed.
    pub open spec fn free(
        self,
        store: RenderStore,
        ty: EntityTypeId,
        writes: Seq<RFieldId>,
        i: int,
    ) -> bool {
        store.field_known(ty, writes[i]) && !self.taken(ty, writes[i]) && !writes.take(i).contains(
            writes[i],
        )
    }

    /// The fields can be claimed: they are there, have no writer, and differ.
    pub open spec fn grants(
        self,
        store: RenderStore,
        ty: EntityTypeId,
        writes: Seq<RFieldId>,
    ) -> bool {
        forall|i: int| 0 <= i < writes.len() ==> #[trigger] self.free(store, ty, writes, i)
    }

    /// `e` says why the first field that cannot be claimed cannot.
    pub open spec fn denied(
        self,
        store: RenderStore,
        ty: EntityTypeId,
        writes: Seq<RFieldId>,
        e: ClaimError,
    ) -> bool {
        exists|i: int|
            0 <= i < writes.len() && #[trigger] self.refuses(store, ty, writes, i, e) && forall|
                j: int,
            |
                0 <= j < i ==> #[trigger] self.free(store, ty, writes, j)
    }

    pub fn new() -> (r: Owners)
        ensures
            r.wf(),
            r.claims@.len() == 0,
    {
        Owners { claims: Vec::new() }
    }

    fn owner_of(&self, ty: EntityTypeId, f: RFieldId) -> (r: Option<Owner>)
        ensures
            r is Some <==> self.taken(ty, f),
            r is Some ==> self.owns(ty, f, r->0),
    {
        let mut i: usize = 0;
        while i < self.claims.len()
            invariant
                i <= self.claims@.len(),
                forall|j: int|
                    0 <= j < i ==> !((#[trigger] self.claims@[j]).ty == ty && self.claims@[j].field
                        == f),
            decreases self.claims@.len() - i,
        {
            if self.claims[i].ty == ty && self.claims[i].field == f {
                let owner = self.claims[i].owner;
                assert(self.claims@[i as int] == (Claim { ty, field: f, owner }));
                assert(self.owns(ty, f, owner));
                return Some(owner);
            }
            i = i + 1;
        }
        None
    }

    /// The claims of fields by one writer.
    pub open spec fn claims_of(ty: EntityTypeId, writes: Seq<RFieldId>, owner: Owner) -> Seq<
        Claim,
    > {
        Seq::new(writes.len(), |i: int| Claim { ty, field: writes[i], owner })
    }

    /// Claims fields for a writer: all of them or none.
    pub fn claim(
        &mut self,
        store: &RenderStore,
        ty: EntityTypeId,
        writes: &Vec<RFieldId>,
        owner: Owner,
    ) -> (r: Result<(), ClaimError>)
        requires
            old(self).wf(),
        ensures
            final(self).wf(),
            r is Ok <==> old(self).grants(*store, ty, writes@),
            r is Ok ==> final(self).claims@ == old(self).claims@ + Owners::claims_of(
                ty,
                writes@,
                owner,
            ),
            r is Err ==> *final(self) == *old(self) && old(self).denied(
                *store,
                ty,
                writes@,
                r->Err_0,
            ),
    {
        let ghost before = *self;
        let mut i: usize = 0;
        while i < writes.len()
            invariant
                *self == before,
                before.wf(),
                i <= writes@.len(),
                forall|j: int| 0 <= j < i ==> #[trigger] self.free(*store, ty, writes@, j),
            decreases writes@.len() - i,
        {
            let w = writes[i];
            if !store.has_render_field(ty, w) {
                let e = ClaimError::NoSuchField(ty, w);
                assert(self.refuses(*store, ty, writes@, i as int, e));
                assert(!self.free(*store, ty, writes@, i as int));
                return Err(e);
            }
            if let Some(o) = self.owner_of(ty, w) {
                let e = ClaimError::Owned(ty, w, o);
                assert(self.refuses(*store, ty, writes@, i as int, e));
                assert(!self.free(*store, ty, writes@, i as int));
                return Err(e);
            }
            let mut k: usize = 0;
            while k < i
                invariant
                    *self == before,
                before.wf(),
                    i < writes@.len(),
                    w == writes@[i as int],
                    k <= i,
                    store.field_known(ty, w),
                    !self.taken(ty, w),
                    forall|j: int| 0 <= j < i ==> #[trigger] self.free(*store, ty, writes@, j),
                    forall|j: int| 0 <= j < k ==> writes@[j] != w,
                decreases i - k,
            {
                if writes[k] == w {
                    let e = ClaimError::Twice(ty, w);
                    assert(writes@.take(i as int)[k as int] == w);
                    assert(self.refuses(*store, ty, writes@, i as int, e));
                    assert(!self.free(*store, ty, writes@, i as int));
                    return Err(e);
                }
                k = k + 1;
            }
            proof {
                if writes@.take(i as int).contains(w) {
                    let j = choose|j: int| 0 <= j < i && writes@.take(i as int)[j] == w;
                    assert(writes@[j] == w);
                }
                assert(self.free(*store, ty, writes@, i as int));
            }
            i = i + 1;
        }
        let ghost mine = Owners::claims_of(ty, writes@, owner);
        let mut n: usize = 0;
        while n < writes.len()
            invariant
                n <= writes@.len(),
                mine == Owners::claims_of(ty, writes@, owner),
                self.claims@ =~= before.claims@ + mine.take(n as int),
            decreases writes@.len() - n,
        {
            self.claims.push(Claim { ty, field: writes[n], owner });
            n = n + 1;
        }
        proof {
            assert(mine.take(mine.len() as int) =~= mine);
            let all = self.claims@;
            assert forall|a: int, b: int| 0 <= a < b < all.len() implies !((#[trigger] all[a]).ty == (
            #[trigger] all[b]).ty && all[a].field == all[b].field) by {
                let m = before.claims@.len() as int;
                if b >= m {
                    let w = writes@[b - m];
                    assert(before.free(*store, ty, writes@, b - m));
                    if a < m {
                        if all[a].ty == ty && all[a].field == w {
                            assert(before.claims@[a] == (Claim {
                                ty,
                                field: w,
                                owner: all[a].owner,
                            }));
                            assert(before.owns(ty, w, all[a].owner));
                        }
                    } else if writes@[a - m] == w {
                        assert(writes@.take(b - m)[a - m] == w);
                    }
                } else {
                    assert(before.claims@[a] == all[a] && before.claims@[b] == all[b]);
                }
            }
        }
        Ok(())
    }
}

/// A render field has one writer at most.
pub proof fn law_one_writer(owners: Owners, ty: EntityTypeId, f: RFieldId, a: Owner, b: Owner)
    requires
        owners.wf(),
        owners.owns(ty, f, a),
        owners.owns(ty, f, b),
    ensures
        a == b,
{
    let i = choose|i: int|
        0 <= i < owners.claims@.len() && #[trigger] owners.claims@[i] == (Claim {
            ty,
            field: f,
            owner: a,
        });
    let j = choose|j: int|
        0 <= j < owners.claims@.len() && #[trigger] owners.claims@[j] == (Claim {
            ty,
            field: f,
            owner: b,
        });
    if i < j {
        assert(!(owners.claims@[i].ty == owners.claims@[j].ty && owners.claims@[i].field
            == owners.claims@[j].field));
    } else if j < i {
        assert(!(owners.claims@[j].ty == owners.claims@[i].ty && owners.claims@[j].field
            == owners.claims@[i].field));
    }
}

/// More claims take none away.
pub proof fn lemma_owns_more(a: Owners, b: Owners, more: Seq<Claim>)
    requires
        b.claims@ == a.claims@ + more,
    ensures
        forall|ty: EntityTypeId, f: RFieldId, o: Owner| #[trigger]
            b.owns(ty, f, o) <==> a.owns(ty, f, o) || more.contains(
                (Claim { ty, field: f, owner: o }),
            ),
{
    assert forall|ty: EntityTypeId, f: RFieldId, o: Owner| #[trigger] b.owns(ty, f, o) <==> a.owns(
        ty,
        f,
        o,
    ) || more.contains((Claim { ty, field: f, owner: o })) by {
        let c = Claim { ty, field: f, owner: o };
        if b.owns(ty, f, o) {
            let i = choose|i: int| 0 <= i < b.claims@.len() && #[trigger] b.claims@[i] == c;
            if i < a.claims@.len() {
                assert(a.claims@[i] == c);
            } else {
                assert(more[i - a.claims@.len()] == c);
            }
        }
        if a.owns(ty, f, o) {
            let i = choose|i: int| 0 <= i < a.claims@.len() && #[trigger] a.claims@[i] == c;
            assert(b.claims@[i] == c);
        }
        if more.contains(c) {
            let i = choose|i: int| 0 <= i < more.len() && more[i] == c;
            assert(b.claims@[a.claims@.len() + i] == c);
        }
    }
}

}
