//! Which claims and bindings stand.
use crate::entity::EntityTypeId;
use crate::render::continuous::LocalContinuous;
use crate::render::local::LocalError;
use crate::render::local::LocalStore;
use crate::render::local::RenderLocalTypeId;
use crate::render::local_api::local_binding_error;
use crate::render::local_api::local_claim;
use crate::render::local_api::local_claims;
use crate::render::owners::Owners;
use crate::render::runtime::binding_error;
use crate::render::runtime::RenderError;
use crate::render::store::RFieldId;
use crate::render::store::RenderStore;
use crate::render::writes::Owner;
use vstd::prelude::*;

verus! {

/// No field is bound to two of the first `n` parts.
pub open spec fn bound_once(parts: Seq<Option<RFieldId>>, n: int) -> bool {
    forall|i: int, j: int|
        0 <= i < j < n && (#[trigger] parts[i]) is Some && (#[trigger] parts[j]) is Some
            ==> parts[i] != parts[j]
}

/// One more part is bound once where it is none of those before it.
proof fn lemma_bound_once(parts: Seq<Option<RFieldId>>, n: int)
    requires
        0 < n <= parts.len(),
    ensures
        bound_once(parts, n) <==> bound_once(parts, n - 1) && (parts[n - 1] is Some ==> !parts.take(
            n - 1,
        ).contains(parts[n - 1])),
{
    let t = parts.take(n - 1);
    if bound_once(parts, n) && parts[n - 1] is Some && t.contains(parts[n - 1]) {
        let i = choose|i: int| 0 <= i < t.len() && t[i] == parts[n - 1];
        assert(parts[i] == parts[n - 1]);
    }
    if bound_once(parts, n - 1) && (parts[n - 1] is Some ==> !t.contains(parts[n - 1])) {
        assert forall|i: int, j: int|
            0 <= i < j < n && (#[trigger] parts[i]) is Some && (
            #[trigger] parts[j]) is Some implies parts[i] != parts[j] by {
            if j == n - 1 {
                assert(t[i] == parts[i]);
            }
        }
    }
}

/// A binding stands where every part that is bound is bound to a field of the type, and none
/// to a field that another part is bound to. What is wrong is told of.
pub proof fn law_which_bindings_stand(
    store: RenderStore,
    ty: EntityTypeId,
    parts: Seq<Option<RFieldId>>,
    n: int,
)
    requires
        0 <= n <= parts.len(),
        n <= usize::MAX,
    ensures
        binding_error(store, ty, parts, n) is None <==> bound_once(parts, n) && forall|i: int|
            0 <= i < n && (#[trigger] parts[i]) is Some ==> store.field_known(ty, parts[i]->0),
        match binding_error(store, ty, parts, n) {
            Some(RenderError::BindingField(i, f)) => i < n && parts[i as int] == Some(f)
                && !store.field_known(ty, f),
            Some(RenderError::BindingTwice(f)) => exists|i: int, j: int|
                0 <= i < j < n && #[trigger] parts[i] == Some(f) && #[trigger] parts[j] == Some(f),
            Some(_) => false,
            None => true,
        },
    decreases n,
{
    if n > 0 {
        law_which_bindings_stand(store, ty, parts, n - 1);
        lemma_bound_once(parts, n);
        let t = parts.take(n - 1);
        if parts[n - 1] is Some && t.contains(parts[n - 1]) {
            let i = choose|i: int| 0 <= i < t.len() && t[i] == parts[n - 1];
            assert(parts[i] == parts[n - 1]);
        }
    }
}

/// A binding of a local type stands where every part that is bound is bound to a field of the
/// type, and none to a field that another part is bound to.
pub proof fn law_which_local_bindings_stand(
    store: LocalStore,
    ty: RenderLocalTypeId,
    parts: Seq<Option<RFieldId>>,
    n: int,
)
    requires
        0 <= n <= parts.len(),
    ensures
        local_binding_error(store, ty, parts, n) is None <==> bound_once(parts, n) && forall|i: int|
            0 <= i < n && (#[trigger] parts[i]) is Some ==> store.field_known(ty, parts[i]->0),
        match local_binding_error(store, ty, parts, n) {
            Some(LocalError::NoSuchField(t, f)) => t == ty && !store.field_known(ty, f) && exists|
                i: int,
            |
                0 <= i < n && #[trigger] parts[i] == Some(f),
            Some(LocalError::Twice(t, f)) => t == ty && exists|i: int, j: int|
                0 <= i < j < n && #[trigger] parts[i] == Some(f) && #[trigger] parts[j] == Some(f),
            Some(_) => false,
            None => true,
        },
    decreases n,
{
    if n > 0 {
        law_which_local_bindings_stand(store, ty, parts, n - 1);
        lemma_bound_once(parts, n);
        let t = parts.take(n - 1);
        if parts[n - 1] is Some && t.contains(parts[n - 1]) {
            let i = choose|i: int| 0 <= i < t.len() && t[i] == parts[n - 1];
            assert(parts[i] == parts[n - 1]);
        }
    }
}

/// No field occurs twice among the first `n`.
pub open spec fn all_differ(writes: Seq<RFieldId>, n: int) -> bool {
    forall|i: int, j: int|
        0 <= i < j < n ==> (#[trigger] writes[i]) != (#[trigger] writes[j])
}

proof fn lemma_all_differ(writes: Seq<RFieldId>, n: int)
    requires
        0 < n <= writes.len(),
    ensures
        all_differ(writes, n) <==> all_differ(writes, n - 1) && !writes.take(n - 1).contains(
            writes[n - 1],
        ),
{
    let t = writes.take(n - 1);
    if all_differ(writes, n) && t.contains(writes[n - 1]) {
        let i = choose|i: int| 0 <= i < t.len() && t[i] == writes[n - 1];
        assert(writes[i] == writes[n - 1]);
    }
    if all_differ(writes, n - 1) && !t.contains(writes[n - 1]) {
        assert forall|i: int, j: int| 0 <= i < j < n implies (#[trigger] writes[i]) != (
        #[trigger] writes[j]) by {
            if j == n - 1 {
                assert(t[i] == writes[i]);
            }
        }
    }
}

/// A calculation of local entities may write fields that are there, that no other calculation
/// of the type writes, and none twice.
pub proof fn law_which_local_claims_stand(
    store: LocalStore,
    cs: Seq<LocalContinuous>,
    ty: RenderLocalTypeId,
    writes: Seq<RFieldId>,
    n: int,
)
    requires
        0 <= n <= writes.len(),
    ensures
        local_claims(store, cs, ty, writes, n) is None <==> all_differ(writes, n) && forall|i: int|
            0 <= i < n ==> store.field_known(ty, #[trigger] writes[i]) && forall|c: int|
                0 <= c < cs.len() && (#[trigger] cs[c]).ty == ty ==> !cs[c].writes@.contains(
                    writes[i],
                ),
    decreases n,
{
    if n > 0 {
        law_which_local_claims_stand(store, cs, ty, writes, n - 1);
        lemma_all_differ(writes, n);
        let w = writes[n - 1];
        if local_claim(store, cs, ty, writes, n - 1) is None {
            assert forall|c: int| 0 <= c < cs.len() && (#[trigger] cs[c]).ty
                == ty implies !cs[c].writes@.contains(w) by {}
        }
    }
}

/// Fields are granted where they are there, nobody writes them, and none is claimed twice.
pub proof fn law_which_claims_are_granted(
    owners: Owners,
    store: RenderStore,
    ty: EntityTypeId,
    writes: Seq<RFieldId>,
)
    ensures
        owners.grants(store, ty, writes) <==> all_differ(writes, writes.len() as int) && forall|
            i: int,
        |
            0 <= i < writes.len() ==> store.field_known(ty, #[trigger] writes[i]) && forall|
                owner: Owner,
            |
                !(#[trigger] owners.owns(ty, writes[i], owner)),
{
    let n = writes.len() as int;
    if owners.grants(store, ty, writes) {
        assert forall|i: int, j: int| 0 <= i < j < n implies (#[trigger] writes[i]) != (
        #[trigger] writes[j]) by {
            assert(owners.free(store, ty, writes, j));
            assert(writes.take(j)[i] == writes[i]);
        }
        assert forall|i: int| 0 <= i < n implies store.field_known(ty, #[trigger] writes[i])
            && forall|owner: Owner| !(#[trigger] owners.owns(ty, writes[i], owner)) by {
            assert(owners.free(store, ty, writes, i));
        }
    }
    if all_differ(writes, n) && forall|i: int|
        0 <= i < n ==> store.field_known(ty, #[trigger] writes[i]) && forall|owner: Owner|
            !(#[trigger] owners.owns(ty, writes[i], owner)) {
        assert forall|i: int| 0 <= i < n implies #[trigger] owners.free(store, ty, writes, i) by {
            assert(store.field_known(ty, writes[i]));
            if writes.take(i).contains(writes[i]) {
                let j = choose|j: int| 0 <= j < i && writes.take(i)[j] == writes[i];
                assert(writes[j] == writes[i]);
            }
        }
    }
}

}
