//! How local entities are made and found, and which frames are taken in.
use crate::genslots::law_live_slots_are_the_occupied_ones;
use crate::genslots::live_upto;
use crate::genslots::slot_matches;
use crate::render::api::newest;
use crate::render::handoff::SimFrame;
use crate::render::local::initial;
use crate::render::local::LocalError;
use crate::render::local::LocalStore;
use crate::render::local::Places;
use crate::render::local::RenderLocalId;
use crate::render::local::RenderLocalTypeId;
use crate::render::store::RFieldId;
use crate::value::Val;
use crate::value::Value;
use vstd::prelude::*;

verus! {

/// A field of a new local entity holds the last of its initial values, or its default.
pub proof fn law_local_entities_start_as_asked(
    init: Seq<(RFieldId, Value)>,
    f: RFieldId,
    default: Val,
    k: int,
)
    ensures
        0 <= k < init.len() && init[k].0 == f && (forall|j: int|
            k < j < init.len() ==> (#[trigger] init[j]).0 != f) ==> initial(init, f, default)
            == init[k].1@,
        (forall|j: int| 0 <= j < init.len() ==> (#[trigger] init[j]).0 != f) ==> initial(
            init,
            f,
            default,
        ) == default,
    decreases init.len(),
{
    if init.len() > 0 {
        let t = init.drop_last();
        law_local_entities_start_as_asked(t, f, default, k);
        assert(init[init.len() - 1] == init.last());
        if 0 <= k < t.len() && (forall|j: int|
            k < j < init.len() ==> (#[trigger] init[j]).0 != f) {
            assert forall|j: int| k < j < t.len() implies (#[trigger] t[j]).0 != f by {
                assert(init[j].0 != f);
            }
        }
        if forall|j: int| 0 <= j < init.len() ==> (#[trigger] init[j]).0 != f {
            assert forall|j: int| 0 <= j < t.len() implies (#[trigger] t[j]).0 != f by {
                assert(init[j].0 != f);
            }
        }
    }
}

/// Who comes next gets the id that became free last, under a generation that its holders did
/// not have, and otherwise an id that nobody had; and is found under that handle.
pub proof fn law_local_ids_come_back(p: Places, id: u32)
    requires
        p.slots.len() < u32::MAX,
        p.generations.len() == p.slots.len(),
        id < p.slots.len(),
        p.free_ids.len() > 0 ==> p.free_ids.last() < p.slots.len(),
    ensures
        p.generations[id as int] < u64::MAX ==> p.without(id).next_id() == id && p.without(
            id,
        ).next_generation() == p.generations[id as int] + 1,
        !slot_matches(p.without(id).slots, id as int, p.generations[id as int]),
        p.free_ids.len() == 0 ==> p.next_id() == p.slots.len() && p.next_generation() == 0,
        slot_matches(p.with_new().slots, p.next_id() as int, p.next_generation()),
        id != p.next_id() ==> p.with_new().slots[id as int] == p.slots[id as int],
{
}

/// A local entity is made where its type is there and has room, and every initial value is
/// for a field of the type.
pub proof fn law_which_local_entities_are_made(
    store: LocalStore,
    ty: RenderLocalTypeId,
    init: Seq<(RFieldId, Value)>,
)
    ensures
        store.refusal(ty, init) is None <==> {
            &&& store.known(ty)
            &&& forall|k: int|
                0 <= k < init.len() ==> store.field_known(ty, (#[trigger] init[k]).0)
            &&& store.at(ty).free_ids@.len() > 0 || store.at(ty).rows() != u32::MAX
        },
        match store.refusal(ty, init) {
            Some(LocalError::NoSuchType(t)) => t == ty && !store.known(ty),
            Some(LocalError::NoSuchField(t, f)) => t == ty && store.known(ty)
                && !store.field_known(ty, f) && exists|k: int|
                0 <= k < init.len() && (#[trigger] init[k]).0 == f,
            Some(LocalError::Full(t)) => t == ty && store.known(ty)
                && store.at(ty).free_ids@.len() == 0,
            _ => store.refusal(ty, init) is None,
        },
{
    lemma_bad_init(store, ty, init);
}

proof fn lemma_bad_init(store: LocalStore, ty: RenderLocalTypeId, init: Seq<(RFieldId, Value)>)
    ensures
        ({
            let n = store.bad_init(ty, init);
            &&& 0 <= n <= init.len()
            &&& forall|k: int| 0 <= k < n ==> store.field_known(ty, (#[trigger] init[k]).0)
            &&& n < init.len() ==> !store.field_known(ty, init[n].0)
        }),
    decreases init.len(),
{
    if init.len() > 0 {
        let t = init.drop_last();
        lemma_bad_init(store, ty, t);
        let m = store.bad_init(ty, t);
        assert forall|k: int| 0 <= k < m implies store.field_known(ty, (#[trigger] init[k]).0) by {
            assert(t[k] == init[k]);
        }
        if m < t.len() {
            assert(t[m] == init[m]);
        }
    }
}

/// The entities of a local type are those that are there, each once and in the order of their
/// ids.
pub proof fn law_local_entities_are_listed(
    store: LocalStore,
    ty: RenderLocalTypeId,
    id: RenderLocalId,
)
    requires
        store.wf(),
        store.known(ty),
    ensures
        store.live(ty).contains(id) <==> id.ty == ty && store.present(id),
        forall|i: int, j: int|
            0 <= i < j < store.live(ty).len() ==> (#[trigger] store.live(ty)[i]).id < (
            #[trigger] store.live(ty)[j]).id,
{
    let slots = store.at(ty).slots@;
    let n = store.at(ty).rows() as int;
    assert(store.at(ty).wf());
    law_live_slots_are_the_occupied_ones(slots, n);
    let l = live_upto(slots, n);
    let v = store.live(ty);
    if v.contains(id) {
        let i = choose|i: int| 0 <= i < v.len() && v[i] == id;
        assert(l[i].0 < n);
    }
    if id.ty == ty && store.present(id) {
        assert(slots[id.id as int].live);
        assert(l.contains((id.id as usize, id.generation)));
        let i = choose|i: int| 0 <= i < l.len() && l[i] == (id.id as usize, id.generation);
        assert(v[i] == id);
    }
    assert forall|i: int, j: int| 0 <= i < j < v.len() implies (#[trigger] v[i]).id < (
    #[trigger] v[j]).id by {
        assert(l[i].0 < l[j].0);
        assert(l[i].0 < n && l[j].0 < n);
    }
}

/// The newest of some frames is not older than any of them, nor than the last one before, and
/// is one of these.
pub proof fn law_the_newest_frame(last: u64, frames: Seq<SimFrame>, n: int)
    requires
        0 <= n <= frames.len(),
    ensures
        newest(last, frames, n) >= last,
        forall|k: int| 0 <= k < n ==> newest(last, frames, n) >= (#[trigger] frames[k]).sim_frame,
        newest(last, frames, n) == last || exists|k: int|
            0 <= k < n && newest(last, frames, n) == (#[trigger] frames[k]).sim_frame,
    decreases n,
{
    if n > 0 {
        law_the_newest_frame(last, frames, n - 1);
        assert(frames[n - 1].sim_frame == frames[n - 1].sim_frame);
    }
}

}
