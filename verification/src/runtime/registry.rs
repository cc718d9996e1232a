//! Registration: what a calculation must satisfy, and how its scope enters the indexes.
use crate::calculation::CalcId;
use crate::entity::EntityTypeId;
use crate::entity::FieldId;
use crate::entity::FIELD_ALIVE;
use crate::predicate::Cond;
use crate::predicate::Predicate;
use crate::runtime::clock::Clock;
use crate::runtime::index::Hit;
use crate::runtime::indexes::cell_key;
use crate::runtime::indexes::lemma_cell_key;
use crate::runtime::indexes::Indexes;
use crate::runtime::once::at_most_once;
use crate::runtime::once::lemma_first_hit;
use crate::runtime::once::never;
use crate::runtime::refs::is_ref;
use crate::runtime::scope::distinct;
use crate::runtime::scope::flattened;
use crate::runtime::scope::groups_of;
use crate::runtime::scope::Atom;
use crate::runtime::store::Store;
use crate::value::Val;
use std::collections::HashMap;
use vstd::prelude::*;

verus! {

broadcast use vstd::std_specs::hash::group_hash_axioms;

/// Why a calculation is refused.
#[derive(Clone, Copy, Debug, PartialEq, Eq, Structural)]
pub enum RegisterError {
    /// A disjunction of conjunctions: make the intermediate quantity an entity.
    ScopeNesting,
    /// A conjunction delivers each hit on its own only.
    ConjunctionDelivery,
    NoSuchType(EntityTypeId),
    NoSuchField(EntityTypeId, FieldId),
    /// The cells of the clock belong to the runtime.
    ClockCells,
    /// The field belongs to another calculation: every cell has one writer.
    Owned { field: FieldId, owner: CalcId },
    /// The scope follows a field that is no reference.
    NotARef(FieldId),
    /// There is no number left for another calculation, or for a group.
    TooMany,
}

/// Why a field cannot be named, or nothing.
pub open spec fn field_error(store: Store, ty: EntityTypeId, field: FieldId) -> Option<
    RegisterError,
> {
    if !store.known(ty) {
        Some(RegisterError::NoSuchType(ty))
    } else if !store.field_known(ty, field) {
        Some(RegisterError::NoSuchField(ty, field))
    } else {
        None
    }
}

pub fn check_field(store: &Store, ty: EntityTypeId, field: FieldId) -> (r: Option<RegisterError>)
    ensures
        r == field_error(*store, ty, field),
{
    if ty.0 as usize >= store.types.len() {
        Some(RegisterError::NoSuchType(ty))
    } else if field.0 as usize >= store.fields(ty).len() {
        Some(RegisterError::NoSuchField(ty, field))
    } else {
        None
    }
}

/// Why a field cannot be declared as written, or nothing. `_alive` has no owner.
pub open spec fn write_error(
    store: Store,
    owners: Map<u64, CalcId>,
    clock: Clock,
    ty: EntityTypeId,
    field: FieldId,
) -> Option<RegisterError> {
    match field_error(store, ty, field) {
        Some(e) => Some(e),
        None => if ty == clock.ty {
            Some(RegisterError::ClockCells)
        } else if field.0 == FIELD_ALIVE {
            None
        } else if owners.contains_key(cell_key(ty, field)) {
            Some(RegisterError::Owned { field, owner: owners[cell_key(ty, field)] })
        } else {
            None
        },
    }
}

/// The first error among the first `n` declared writes.
pub open spec fn writes_error(
    store: Store,
    owners: Map<u64, CalcId>,
    clock: Clock,
    ty: EntityTypeId,
    writes: Seq<FieldId>,
    n: int,
) -> Option<RegisterError>
    decreases n,
{
    if n <= 0 {
        None
    } else {
        match writes_error(store, owners, clock, ty, writes, n - 1) {
            Some(e) => Some(e),
            None => write_error(store, owners, clock, ty, writes[n - 1]),
        }
    }
}

/// Why an atom cannot be watched, or nothing.
pub open spec fn atom_error(store: Store, ty: EntityTypeId, a: Atom) -> Option<RegisterError> {
    match a {
        Atom::Own(f) => field_error(store, ty, f),
        Atom::Inst { ref_field, field } => match field_error(store, ty, ref_field) {
            Some(e) => Some(e),
            None => if is_ref(store, ty, ref_field) {
                None
            } else {
                Some(RegisterError::NotARef(ref_field))
            },
        },
        Atom::Type(t, f) => field_error(store, t, f),
    }
}

/// The first error among the first `n` atoms of a group.
pub open spec fn group_error(store: Store, ty: EntityTypeId, g: Seq<Atom>, n: int) -> Option<
    RegisterError,
>
    decreases n,
{
    if n <= 0 {
        None
    } else {
        match group_error(store, ty, g, n - 1) {
            Some(e) => Some(e),
            None => atom_error(store, ty, g[n - 1]),
        }
    }
}

/// The first error among the first `n` groups.
pub open spec fn groups_error(
    store: Store,
    ty: EntityTypeId,
    gs: Seq<Seq<Atom>>,
    n: int,
) -> Option<RegisterError>
    decreases n,
{
    if n <= 0 {
        None
    } else {
        match groups_error(store, ty, gs, n - 1) {
            Some(e) => Some(e),
            None => group_error(store, ty, gs[n - 1], gs[n - 1].len() as int),
        }
    }
}

/// The groups of a scope, each without repetitions.
pub open spec fn distinct_groups(gs: Seq<Seq<Atom>>) -> Seq<Seq<Atom>> {
    Seq::new(gs.len(), |i: int| distinct(gs[i]))
}

/// The calculation runs for every instance in every frame: it watches the frame number,
/// unconditionally, hit by hit.
pub open spec fn is_every_frame(clock: Clock, gs: Seq<Seq<Atom>>, pred: Predicate) -> bool {
    &&& gs.len() == 1
    &&& gs[0] == seq![Atom::Type(clock.ty, clock.f_frame)]
    &&& pred.cond is True
    &&& pred.delivery is Each
}

/// Why a calculation is refused, or nothing. Its type is looked at only where one of its
/// fields is declared as written or watched.
pub open spec fn register_error(
    store: Store,
    owners: Map<u64, CalcId>,
    clock: Clock,
    n_calcs: nat,
    ty: EntityTypeId,
    pred: Predicate,
    writes: Seq<FieldId>,
) -> Option<RegisterError> {
    match flattened(pred.scope) {
        None => Some(RegisterError::ScopeNesting),
        Some(gs) => {
            let groups = distinct_groups(gs);
            if groups.len() > 1 && !(pred.delivery is Each) {
                Some(RegisterError::ConjunctionDelivery)
            } else {
                match writes_error(store, owners, clock, ty, writes, writes.len() as int) {
                    Some(e) => Some(e),
                    None => {
                        let e = if is_every_frame(clock, groups, pred) {
                            None
                        } else {
                            groups_error(store, ty, groups, groups.len() as int)
                        };
                        if e is Some {
                            e
                        } else if n_calcs >= u32::MAX || groups.len() > u32::MAX {
                            Some(RegisterError::TooMany)
                        } else {
                            None
                        }
                    },
                }
            }
        },
    }
}

proof fn lemma_writes_error(
    store: Store,
    owners: Map<u64, CalcId>,
    clock: Clock,
    ty: EntityTypeId,
    writes: Seq<FieldId>,
    n: int,
    m: int,
)
    requires
        0 <= n <= m <= writes.len(),
        writes_error(store, owners, clock, ty, writes, n) is Some,
    ensures
        writes_error(store, owners, clock, ty, writes, m) == writes_error(
            store,
            owners,
            clock,
            ty,
            writes,
            n,
        ),
    decreases m - n,
{
    if n < m {
        lemma_writes_error(store, owners, clock, ty, writes, n, m - 1);
    }
}

/// No error among the declared writes means none at each of them.
pub proof fn lemma_writes_fine(
    store: Store,
    owners: Map<u64, CalcId>,
    clock: Clock,
    ty: EntityTypeId,
    writes: Seq<FieldId>,
    n: int,
)
    requires
        0 <= n <= writes.len(),
        writes_error(store, owners, clock, ty, writes, n) is None,
    ensures
        forall|i: int|
            0 <= i < n ==> write_error(store, owners, clock, ty, #[trigger] writes[i]) is None,
    decreases n,
{
    if n > 0 {
        lemma_writes_fine(store, owners, clock, ty, writes, n - 1);
    }
}

/// Checks the declared writes.
pub fn check_writes(
    store: &Store,
    owners: &HashMap<u64, CalcId>,
    clock: &Clock,
    ty: EntityTypeId,
    writes: &Vec<FieldId>,
) -> (r: Option<RegisterError>)
    ensures
        r == writes_error(*store, owners@, *clock, ty, writes@, writes@.len() as int),
{
    let mut i: usize = 0;
    while i < writes.len()
        invariant
            i <= writes@.len(),
            writes_error(*store, owners@, *clock, ty, writes@, i as int) is None,
        decreases writes@.len() - i,
    {
        let w = writes[i];
        let e: Option<RegisterError> = match check_field(store, ty, w) {
            Some(e) => Some(e),
            None => if ty == clock.ty {
                Some(RegisterError::ClockCells)
            } else if w.0 == FIELD_ALIVE {
                None
            } else {
                match owners.get(&crate::runtime::indexes::cell_key_of(ty, w)) {
                    Some(c) => Some(RegisterError::Owned { field: w, owner: *c }),
                    None => None,
                }
            },
        };
        assert(e == write_error(*store, owners@, *clock, ty, w));
        if e.is_some() {
            proof {
                lemma_writes_error(
                    *store,
                    owners@,
                    *clock,
                    ty,
                    writes@,
                    i + 1,
                    writes@.len() as int,
                );
            }
            return e;
        }
        i = i + 1;
    }
    None
}

proof fn lemma_group_error(store: Store, ty: EntityTypeId, g: Seq<Atom>, n: int, m: int)
    requires
        0 <= n <= m <= g.len(),
        group_error(store, ty, g, n) is Some,
    ensures
        group_error(store, ty, g, m) == group_error(store, ty, g, n),
    decreases m - n,
{
    if n < m {
        lemma_group_error(store, ty, g, n, m - 1);
    }
}

proof fn lemma_groups_error(store: Store, ty: EntityTypeId, gs: Seq<Seq<Atom>>, n: int, m: int)
    requires
        0 <= n <= m <= gs.len(),
        groups_error(store, ty, gs, n) is Some,
    ensures
        groups_error(store, ty, gs, m) == groups_error(store, ty, gs, n),
    decreases m - n,
{
    if n < m {
        lemma_groups_error(store, ty, gs, n, m - 1);
    }
}

fn check_atom(store: &Store, ty: EntityTypeId, a: Atom) -> (r: Option<RegisterError>)
    ensures
        r == atom_error(*store, ty, a),
{
    match a {
        Atom::Own(f) => check_field(store, ty, f),
        Atom::Inst { ref_field, field: _ } => match check_field(store, ty, ref_field) {
            Some(e) => Some(e),
            None => if store.is_ref_field(ty, ref_field) {
                None
            } else {
                Some(RegisterError::NotARef(ref_field))
            },
        },
        Atom::Type(t, f) => check_field(store, t, f),
    }
}

/// Checks the groups of a scope.
pub fn check_groups(store: &Store, ty: EntityTypeId, gs: &Vec<Vec<Atom>>) -> (r: Option<
    RegisterError,
>)
    ensures
        r == groups_error(*store, ty, groups_of(gs@), gs@.len() as int),
{
    let ghost m = groups_of(gs@);
    let mut i: usize = 0;
    while i < gs.len()
        invariant
            m == groups_of(gs@),
            i <= gs@.len(),
            groups_error(*store, ty, m, i as int) is None,
        decreases gs@.len() - i,
    {
        let g = &gs[i];
        let mut k: usize = 0;
        while k < g.len()
            invariant
                m == groups_of(gs@),
                i < gs@.len(),
                *g == gs@[i as int],
                m[i as int] == g@,
                groups_error(*store, ty, m, i as int) is None,
                k <= g@.len(),
                group_error(*store, ty, g@, k as int) is None,
            decreases g@.len() - k,
        {
            let e = check_atom(store, ty, g[k]);
            if e.is_some() {
                proof {
                    lemma_group_error(*store, ty, g@, k + 1, g@.len() as int);
                    lemma_groups_error(*store, ty, m, i + 1, m.len() as int);
                }
                return e;
            }
            k = k + 1;
        }
        i = i + 1;
    }
    None
}

/// The subscriptions of a new calculation to an atom: one for each of the first `n` groups
/// that has it.
pub open spec fn added(gs: Seq<Seq<Atom>>, id: CalcId, a: Atom, n: int) -> Seq<(CalcId, u32)>
    decreases n,
{
    if n <= 0 {
        Seq::empty()
    } else if gs[n - 1].contains(a) {
        added(gs, id, a, n - 1).push((id, (n - 1) as u32))
    } else {
        added(gs, id, a, n - 1)
    }
}

/// The hits of the type-wide index of a field.
pub open spec fn hits_at(
    idx: Indexes,
    k: u64,
    new: Val,
    old: Val,
    tys: Seq<EntityTypeId>,
    h: Hit,
) -> bool {
    idx.type_@.contains_key(k) && idx.type_@[k].hits(new, old, tys).contains(h)
}

/// A group watches the field with this key in all instances of its type.
pub open spec fn watched_at(g: Seq<Atom>, k: u64) -> bool {
    exists|t: EntityTypeId, f: FieldId| #[trigger]
        g.contains(Atom::Type(t, f)) && k == cell_key(t, f)
}

/// The type-wide indexes lost no hit, and gained hits of `id` in the first `n` groups only,
/// each where its group watches.
pub open spec fn grown(
    after: Indexes,
    before: Indexes,
    gs: Seq<Seq<Atom>>,
    id: CalcId,
    n: int,
) -> bool {
    forall|k: u64, new: Val, old: Val, tys: Seq<EntityTypeId>, h: Hit|
        #![trigger hits_at(after, k, new, old, tys, h)]
        #![trigger hits_at(before, k, new, old, tys, h)]
        {
            &&& hits_at(before, k, new, old, tys, h) ==> hits_at(after, k, new, old, tys, h)
            &&& hits_at(after, k, new, old, tys, h) ==> hits_at(before, k, new, old, tys, h) || (
            h.calc == id && h.group < n && watched_at(gs[h.group as int], k))
        }
}

/// The subscriptions to own fields and through references grew by those of `id`.
pub open spec fn subs_grown(
    after: Indexes,
    before: Indexes,
    ty: EntityTypeId,
    gs: Seq<Seq<Atom>>,
    id: CalcId,
    n: int,
) -> bool {
    &&& forall|t: EntityTypeId, f: FieldId| #[trigger]
        after.own_subs(t, f) == (if t == ty {
            before.own_subs(t, f) + added(gs, id, Atom::Own(f), n)
        } else {
            before.own_subs(t, f)
        })
    &&& forall|t: EntityTypeId, r: FieldId, f: FieldId| #[trigger]
        after.inst_subs(t, r, f) == (if t == ty {
            before.inst_subs(t, r, f) + added(gs, id, Atom::Inst { ref_field: r, field: f }, n)
        } else {
            before.inst_subs(t, r, f)
        })
}

/// The type-wide indexes miss no write of the first `n` groups.
pub open spec fn types_covered(
    idx: Indexes,
    gs: Seq<Seq<Atom>>,
    cond: Cond,
    id: CalcId,
    n: int,
) -> bool {
    forall|g: int, i: int|
        #![trigger gs[g][i]]
        0 <= g < n && 0 <= i < gs[g].len() && gs[g][i] is Type ==> {
            let k = cell_key(gs[g][i]->Type_0, gs[g][i]->Type_1);
            idx.type_@.contains_key(k) && idx.type_@[k].covers(cond, id, g as u32)
        }
}

/// The type-wide indexes have no hit of the calculation.
pub open spec fn not_entered(idx: Indexes, id: CalcId) -> bool {
    forall|k: u64, new: Val, old: Val, tys: Seq<EntityTypeId>, g: u32| #[trigger]
        never(idx.hits_in(k, new, old, tys), id, g)
}

/// Every hit of another calculation is there as often as before, and each group of `id` is hit
/// once at most.
pub open spec fn entered_once(after: Indexes, before: Indexes, id: CalcId) -> bool {
    &&& forall|k: u64, new: Val, old: Val, tys: Seq<EntityTypeId>, h: Hit|
        h.calc != id ==> #[trigger] after.hits_in(k, new, old, tys).count(h) == before.hits_in(
            k,
            new,
            old,
            tys,
        ).count(h)
    &&& forall|k: u64, new: Val, old: Val, tys: Seq<EntityTypeId>, g: u32| #[trigger]
        at_most_once(after.hits_in(k, new, old, tys), id, g)
}

/// As far as the groups before `g`, and the atoms `part` of that group, are entered.
spec fn entered(after: Indexes, before: Indexes, id: CalcId, g: int, part: Seq<Atom>) -> bool {
    &&& entered_once(after, before, id)
    &&& forall|k: u64, new: Val, old: Val, tys: Seq<EntityTypeId>, x: u32|
        x > g || (x == g && !watched_at(part, k)) ==> #[trigger] never(
            after.hits_in(k, new, old, tys),
            id,
            x,
        )
}

proof fn lemma_watched_push(part: Seq<Atom>, a: Atom, k: u64)
    ensures
        watched_at(part, k) ==> watched_at(part.push(a), k),
        a is Type && cell_key(a->Type_0, a->Type_1) == k ==> watched_at(part.push(a), k),
        a is Type && watched_at(part, cell_key(a->Type_0, a->Type_1)) ==> part.contains(a),
{
    if watched_at(part, k) {
        let (t, f) = choose|t: EntityTypeId, f: FieldId| #[trigger]
            part.contains(Atom::Type(t, f)) && k == cell_key(t, f);
        lemma_atom_push(part, a, Atom::Type(t, f));
        assert(part.push(a).contains(Atom::Type(t, f)));
    }
    lemma_atom_push(part, a, a);
    if a is Type {
        assert(part.push(a).contains(Atom::Type(a->Type_0, a->Type_1)));
        let key = cell_key(a->Type_0, a->Type_1);
        if watched_at(part, key) {
            let (t, f) = choose|t: EntityTypeId, f: FieldId| #[trigger]
                part.contains(Atom::Type(t, f)) && key == cell_key(t, f);
            lemma_cell_key(t, f, a->Type_0, a->Type_1);
        }
    }
}

/// An atom more that leaves the type-wide indexes alone.
proof fn lemma_entered_same(
    after: Indexes,
    before: Indexes,
    start: Indexes,
    id: CalcId,
    g: int,
    part: Seq<Atom>,
    a: Atom,
)
    requires
        after.type_@ == before.type_@,
        entered(before, start, id, g, part),
    ensures
        entered(after, start, id, g, part.push(a)),
{
    assert forall|k: u64, new: Val, old: Val, tys: Seq<EntityTypeId>| #[trigger]
        after.hits_in(k, new, old, tys) == before.hits_in(k, new, old, tys) by {}
    assert forall|k: u64, new: Val, old: Val, tys: Seq<EntityTypeId>, g: u32| #[trigger]
        at_most_once(after.hits_in(k, new, old, tys), id, g) by {
        assert(at_most_once(before.hits_in(k, new, old, tys), id, g));
    }
    assert forall|k: u64, new: Val, old: Val, tys: Seq<EntityTypeId>, x: u32|
        x > g || (x == g && !watched_at(part.push(a), k)) implies #[trigger] never(
        after.hits_in(k, new, old, tys),
        id,
        x,
    ) by {
        lemma_watched_push(part, a, k);
        assert(never(before.hits_in(k, new, old, tys), id, x));
    }
}

/// A type-wide atom more.
proof fn lemma_entered_type(
    after: Indexes,
    before: Indexes,
    start: Indexes,
    id: CalcId,
    g: u32,
    part: Seq<Atom>,
    t: EntityTypeId,
    f: FieldId,
)
    requires
        entered(before, start, id, g as int, part),
        !part.contains(Atom::Type(t, f)),
        after.takes_in(before, cell_key(t, f), id, g),
        forall|k: u64|
            k != cell_key(t, f) ==> (#[trigger] after.type_@.contains_key(k)
                <==> before.type_@.contains_key(k)),
        forall|k: u64|
            k != cell_key(t, f) && before.type_@.contains_key(k) ==> #[trigger] after.type_@[k]
                == before.type_@[k],
    ensures
        entered(after, start, id, g as int, part.push(Atom::Type(t, f))),
{
    let key = cell_key(t, f);
    let a = Atom::Type(t, f);
    lemma_watched_push(part, a, key);
    assert forall|k: u64, new: Val, old: Val, tys: Seq<EntityTypeId>| k != key implies
        #[trigger] after.hits_in(k, new, old, tys) == before.hits_in(k, new, old, tys) by {
        assert(after.type_@.contains_key(k) <==> before.type_@.contains_key(k));
    }
    assert forall|k: u64, new: Val, old: Val, tys: Seq<EntityTypeId>, h: Hit|
        h.calc != id implies #[trigger] after.hits_in(k, new, old, tys).count(h) == start.hits_in(
        k,
        new,
        old,
        tys,
    ).count(h) by {
        assert(before.hits_in(k, new, old, tys).count(h) == start.hits_in(
            k,
            new,
            old,
            tys,
        ).count(h));
        if k == key {
            lemma_first_hit(
                after.hits_in(k, new, old, tys),
                before.hits_in(k, new, old, tys),
                id,
                g,
            );
        }
    }
    assert forall|k: u64, new: Val, old: Val, tys: Seq<EntityTypeId>, x: u32| #[trigger]
        at_most_once(after.hits_in(k, new, old, tys), id, x) by {
        assert(at_most_once(before.hits_in(k, new, old, tys), id, x));
        if k == key {
            assert(never(before.hits_in(k, new, old, tys), id, g));
            lemma_first_hit(
                after.hits_in(k, new, old, tys),
                before.hits_in(k, new, old, tys),
                id,
                g,
            );
        }
    }
    assert forall|k: u64, new: Val, old: Val, tys: Seq<EntityTypeId>, x: u32|
        x > g || (x == g && !watched_at(part.push(a), k)) implies #[trigger] never(
        after.hits_in(k, new, old, tys),
        id,
        x,
    ) by {
        lemma_watched_push(part, a, k);
        assert(never(before.hits_in(k, new, old, tys), id, x));
        if k == key {
            lemma_first_hit(
                after.hits_in(k, new, old, tys),
                before.hits_in(k, new, old, tys),
                id,
                g,
            );
        }
    }
}

/// Enters the scope of a calculation into the indexes, each atom of each group once.
pub fn attach(
    idx: &mut Indexes,
    ty: EntityTypeId,
    cond: &Cond,
    id: CalcId,
    groups: &Vec<Vec<Atom>>,
)
    requires
        old(idx).wf(),
        groups@.len() <= u32::MAX,
        forall|g: int| 0 <= g < groups@.len() ==> (#[trigger] groups@[g])@.no_duplicates(),
        not_entered(*old(idx), id),
    ensures
        final(idx).wf(),
        subs_grown(
            *final(idx),
            *old(idx),
            ty,
            groups_of(groups@),
            id,
            groups@.len() as int,
        ),
        grown(*final(idx), *old(idx), groups_of(groups@), id, groups@.len() as int),
        types_covered(*final(idx), groups_of(groups@), *cond, id, groups@.len() as int),
        entered_once(*final(idx), *old(idx), id),
{
    let ghost start = *idx;
    let ghost gs = groups_of(groups@);
    let mut g: usize = 0;
    proof {
        assert forall|t: EntityTypeId, f: FieldId| #[trigger] idx.own_subs(t, f) == (if t == ty {
            start.own_subs(t, f) + added(gs, id, Atom::Own(f), 0)
        } else {
            start.own_subs(t, f)
        }) by {
            assert(start.own_subs(t, f) + added(gs, id, Atom::Own(f), 0) =~= start.own_subs(t, f));
        }
        assert forall|t: EntityTypeId, r: FieldId, f: FieldId| #[trigger] idx.inst_subs(t, r, f)
            == (if t == ty {
            start.inst_subs(t, r, f) + added(gs, id, Atom::Inst { ref_field: r, field: f }, 0)
        } else {
            start.inst_subs(t, r, f)
        }) by {
            assert(start.inst_subs(t, r, f) + added(
                gs,
                id,
                Atom::Inst { ref_field: r, field: f },
                0,
            ) =~= start.inst_subs(t, r, f));
        }
    }
    proof {
        assert forall|k: u64, new: Val, old: Val, tys: Seq<EntityTypeId>, x: u32| #[trigger]
            at_most_once(idx.hits_in(k, new, old, tys), id, x) by {
            assert(never(start.hits_in(k, new, old, tys), id, x));
        }
    }
    while g < groups.len()
        invariant
            idx.wf(),
            gs == groups_of(groups@),
            groups@.len() <= u32::MAX,
            forall|x: int| 0 <= x < groups@.len() ==> (#[trigger] groups@[x])@.no_duplicates(),
            g <= groups@.len(),
            subs_grown(*idx, start, ty, gs, id, g as int),
            grown(*idx, start, gs, id, g as int),
            types_covered(*idx, gs, *cond, id, g as int),
            entered(*idx, start, id, g as int, Seq::empty()),
        decreases groups@.len() - g,
    {
        let atoms = &groups[g];
        let ghost mid = *idx;
        let mut i: usize = 0;
        assert(atoms@.take(0) =~= Seq::empty());
        while i < atoms.len()
            invariant
                idx.wf(),
                gs == groups_of(groups@),
                groups@.len() <= u32::MAX,
                g < groups@.len(),
                *atoms == groups@[g as int],
                atoms@.no_duplicates(),
                i <= atoms@.len(),
                forall|t: EntityTypeId, f: FieldId| #[trigger]
                    idx.own_subs(t, f) == (if t == ty && atoms@.take(i as int).contains(
                        Atom::Own(f),
                    ) {
                        mid.own_subs(t, f).push((id, g as u32))
                    } else {
                        mid.own_subs(t, f)
                    }),
                forall|t: EntityTypeId, r: FieldId, f: FieldId| #[trigger]
                    idx.inst_subs(t, r, f) == (if t == ty && atoms@.take(i as int).contains(
                        Atom::Inst { ref_field: r, field: f },
                    ) {
                        mid.inst_subs(t, r, f).push((id, g as u32))
                    } else {
                        mid.inst_subs(t, r, f)
                    }),
                grown(*idx, start, gs, id, g + 1),
                types_covered(*idx, gs, *cond, id, g as int),
                entered(*idx, start, id, g as int, atoms@.take(i as int)),
                forall|x: int|
                    #![trigger atoms@[x]]
                    0 <= x < i && atoms@[x] is Type ==> {
                        let k = cell_key(atoms@[x]->Type_0, atoms@[x]->Type_1);
                        idx.type_@.contains_key(k) && idx.type_@[k].covers(*cond, id, g as u32)
                    },
            decreases atoms@.len() - i,
        {
            let a = atoms[i];
            let ghost before = *idx;
            let ghost part = atoms@.take(i as int);
            proof {
                assert(atoms@.take(i + 1) =~= part.push(a));
                assert(!part.contains(a)) by {
                    if part.contains(a) {
                        let x = choose|x: int| 0 <= x < part.len() && part[x] == a;
                        assert(atoms@[x] == atoms@[i as int]);
                    }
                }
                assert forall|b: Atom| #[trigger] atoms@.take(i + 1).contains(b) <==> part.contains(
                    b,
                ) || b == a by {
                    lemma_atom_push(part, a, b);
                }
            }
            match a {
                Atom::Own(field) => {
                    idx.add_own(ty, field, id, g as u32);
                    proof {
                        lemma_same_types(*idx, before, start, gs, *cond, id, g as int);
                        lemma_entered_same(*idx, before, start, id, g as int, part, a);
                        assert forall|t: EntityTypeId, r: FieldId, f: FieldId| #[trigger]
                            idx.inst_subs(t, r, f) == before.inst_subs(t, r, f) by {}
                        assert forall|t: EntityTypeId, f: FieldId| #[trigger] idx.own_subs(t, f)
                            == (if t == ty && atoms@.take(i + 1).contains(Atom::Own(f)) {
                            mid.own_subs(t, f).push((id, g as u32))
                        } else {
                            mid.own_subs(t, f)
                        }) by {
                            if t == ty && f == field {
                                assert(before.own_subs(t, f) == mid.own_subs(t, f));
                            } else {
                                assert(idx.own_subs(t, f) == before.own_subs(t, f));
                            }
                        }
                    }
                },
                Atom::Inst { ref_field, field } => {
                    idx.add_inst(ty, ref_field, field, id, g as u32);
                    proof {
                        lemma_same_types(*idx, before, start, gs, *cond, id, g as int);
                        lemma_entered_same(*idx, before, start, id, g as int, part, a);
                        assert forall|t: EntityTypeId, f: FieldId| #[trigger] idx.own_subs(t, f)
                            == before.own_subs(t, f) by {}
                        assert forall|t: EntityTypeId, r: FieldId, f: FieldId| #[trigger]
                            idx.inst_subs(t, r, f) == (if t == ty && atoms@.take(i + 1).contains(
                                Atom::Inst { ref_field: r, field: f },
                            ) {
                                mid.inst_subs(t, r, f).push((id, g as u32))
                            } else {
                                mid.inst_subs(t, r, f)
                            }) by {
                            if t == ty && r == ref_field && f == field {
                                assert(before.inst_subs(t, r, f) == mid.inst_subs(t, r, f));
                            } else {
                                assert(idx.inst_subs(t, r, f) == before.inst_subs(t, r, f));
                            }
                        }
                    }
                },
                Atom::Type(t, f) => {
                    idx.add_type(t, f, cond, id, g as u32);
                    proof {
                        assert forall|t: EntityTypeId, f: FieldId| #[trigger] idx.own_subs(t, f)
                            == before.own_subs(t, f) by {}
                        assert forall|t: EntityTypeId, r: FieldId, f: FieldId| #[trigger]
                            idx.inst_subs(t, r, f) == before.inst_subs(t, r, f) by {}
                        assert(gs[g as int] == atoms@);
                        assert(atoms@[i as int] == a);
                        lemma_type_added(*idx, before, start, gs, *cond, id, g as int, t, f);
                        lemma_entered_type(*idx, before, start, id, g as u32, part, t, f);
                        assert forall|x: int|
                            #![trigger atoms@[x]]
                            0 <= x < i + 1 && atoms@[x] is Type implies {
                            let k = cell_key(atoms@[x]->Type_0, atoms@[x]->Type_1);
                            idx.type_@.contains_key(k) && idx.type_@[k].covers(*cond, id, g as u32)
                        } by {
                            let k = cell_key(atoms@[x]->Type_0, atoms@[x]->Type_1);
                            if k != cell_key(t, f) {
                                assert(x < i);
                                assert(before.type_@.contains_key(k));
                            }
                        }
                    }
                },
            }
            i = i + 1;
        }
        proof {
            assert(atoms@.take(i as int) =~= atoms@);
            assert(gs[g as int] == atoms@);
            assert forall|t: EntityTypeId, f: FieldId| #[trigger] idx.own_subs(t, f) == (if t
                == ty {
                start.own_subs(t, f) + added(gs, id, Atom::Own(f), g + 1)
            } else {
                start.own_subs(t, f)
            }) by {
                assert(mid.own_subs(t, f) == (if t == ty {
                    start.own_subs(t, f) + added(gs, id, Atom::Own(f), g as int)
                } else {
                    start.own_subs(t, f)
                }));
                if t == ty {
                    assert(idx.own_subs(t, f) =~= start.own_subs(t, f) + added(
                        gs,
                        id,
                        Atom::Own(f),
                        g + 1,
                    ));
                }
            }
            assert forall|t: EntityTypeId, r: FieldId, f: FieldId| #[trigger] idx.inst_subs(t, r, f)
                == (if t == ty {
                start.inst_subs(t, r, f) + added(
                    gs,
                    id,
                    Atom::Inst { ref_field: r, field: f },
                    g + 1,
                )
            } else {
                start.inst_subs(t, r, f)
            }) by {
                assert(mid.inst_subs(t, r, f) == (if t == ty {
                    start.inst_subs(t, r, f) + added(
                        gs,
                        id,
                        Atom::Inst { ref_field: r, field: f },
                        g as int,
                    )
                } else {
                    start.inst_subs(t, r, f)
                }));
                if t == ty {
                    assert(idx.inst_subs(t, r, f) =~= start.inst_subs(t, r, f) + added(
                        gs,
                        id,
                        Atom::Inst { ref_field: r, field: f },
                        g + 1,
                    ));
                }
            }
            assert(entered(*idx, start, id, g + 1, Seq::empty())) by {
                assert forall|k: u64, new: Val, old: Val, tys: Seq<EntityTypeId>, x: u32|
                    x > g + 1 || (x == g + 1 && !watched_at(
                        Seq::empty(),
                        k,
                    )) implies #[trigger] never(idx.hits_in(k, new, old, tys), id, x) by {
                    assert(x > g);
                }
            }
            assert(types_covered(*idx, gs, *cond, id, g + 1)) by {
                assert forall|x: int, y: int|
                    #![trigger gs[x][y]]
                    0 <= x < g + 1 && 0 <= y < gs[x].len() && gs[x][y] is Type implies {
                    let k = cell_key(gs[x][y]->Type_0, gs[x][y]->Type_1);
                    idx.type_@.contains_key(k) && idx.type_@[k].covers(*cond, id, x as u32)
                } by {
                    if x == g {
                        assert(gs[x][y] == atoms@[y]);
                    }
                }
            }
        }
        g = g + 1;
    }
}

proof fn lemma_atom_push(s: Seq<Atom>, a: Atom, b: Atom)
    ensures
        s.push(a).contains(b) <==> s.contains(b) || b == a,
{
    let p = s.push(a);
    if s.contains(b) {
        let k = choose|k: int| 0 <= k < s.len() && s[k] == b;
        assert(p[k] == b);
    }
    assert(p[s.len() as int] == a);
}

/// Where the type-wide indexes did not change, what was true of them stays true.
proof fn lemma_same_types(
    after: Indexes,
    before: Indexes,
    start: Indexes,
    gs: Seq<Seq<Atom>>,
    cond: Cond,
    id: CalcId,
    g: int,
)
    requires
        after.type_@ == before.type_@,
        grown(before, start, gs, id, g + 1),
        types_covered(before, gs, cond, id, g),
    ensures
        grown(after, start, gs, id, g + 1),
        types_covered(after, gs, cond, id, g),
{
    assert forall|k: u64, new: Val, old: Val, tys: Seq<EntityTypeId>, h: Hit|
        #![trigger hits_at(after, k, new, old, tys, h)]
        #![trigger hits_at(start, k, new, old, tys, h)]
        {
            &&& hits_at(start, k, new, old, tys, h) ==> hits_at(after, k, new, old, tys, h)
            &&& hits_at(after, k, new, old, tys, h) ==> hits_at(start, k, new, old, tys, h) || (
            h.calc == id && h.group < g + 1 && watched_at(gs[h.group as int], k))
        } by {
        assert(hits_at(after, k, new, old, tys, h) == hits_at(before, k, new, old, tys, h));
    }
}

/// One subscription more in a type-wide index.
proof fn lemma_type_added(
    after: Indexes,
    before: Indexes,
    start: Indexes,
    gs: Seq<Seq<Atom>>,
    cond: Cond,
    id: CalcId,
    g: int,
    t: EntityTypeId,
    f: FieldId,
)
    requires
        0 <= g <= u32::MAX,
        gs[g].contains(Atom::Type(t, f)),
        grown(before, start, gs, id, g + 1),
        types_covered(before, gs, cond, id, g),
        after.type_@.contains_key(cell_key(t, f)),
        after.type_@[cell_key(t, f)].covers(cond, id, g as u32),
        before.type_@.contains_key(cell_key(t, f)) ==> after.type_@[cell_key(t, f)].extends(
            before.type_@[cell_key(t, f)],
            id,
            g as u32,
        ),
        !before.type_@.contains_key(cell_key(t, f)) ==> forall|
            new: Val,
            old: Val,
            tys: Seq<EntityTypeId>,
            h: Hit,
        |
            (#[trigger] after.type_@[cell_key(t, f)].hits(new, old, tys).contains(h)) ==> h.calc
                == id && h.group == g as u32,
        forall|k: u64|
            k != cell_key(t, f) ==> (#[trigger] after.type_@.contains_key(k)
                <==> before.type_@.contains_key(k)),
        forall|k: u64|
            k != cell_key(t, f) && before.type_@.contains_key(k) ==> #[trigger] after.type_@[k]
                == before.type_@[k],
    ensures
        grown(after, start, gs, id, g + 1),
        types_covered(after, gs, cond, id, g),
{
    let key = cell_key(t, f);
    assert forall|k: u64, new: Val, old: Val, tys: Seq<EntityTypeId>, h: Hit|
        #![trigger hits_at(after, k, new, old, tys, h)]
        #![trigger hits_at(start, k, new, old, tys, h)]
        {
            &&& hits_at(start, k, new, old, tys, h) ==> hits_at(after, k, new, old, tys, h)
            &&& hits_at(after, k, new, old, tys, h) ==> hits_at(start, k, new, old, tys, h) || (
            h.calc == id && h.group < g + 1 && watched_at(gs[h.group as int], k))
        } by {
        assert(hits_at(before, k, new, old, tys, h) || !hits_at(before, k, new, old, tys, h));
        if k == key {
            assert(watched_at(gs[g], k));
            if before.type_@.contains_key(key) {
                assert(before.type_@[key].hits(new, old, tys).contains(h)
                    ==> after.type_@[key].hits(new, old, tys).contains(h));
            }
        } else {
            assert(after.type_@.contains_key(k) <==> before.type_@.contains_key(k));
        }
    }
    assert forall|x: int, y: int|
        #![trigger gs[x][y]]
        0 <= x < g && 0 <= y < gs[x].len() && gs[x][y] is Type implies {
        let k = cell_key(gs[x][y]->Type_0, gs[x][y]->Type_1);
        after.type_@.contains_key(k) && after.type_@[k].covers(cond, id, x as u32)
    } by {
        let k = cell_key(gs[x][y]->Type_0, gs[x][y]->Type_1);
        if k == key {
            crate::runtime::index::law_coverage_is_kept(
                before.type_@[key],
                after.type_@[key],
                cond,
                id,
                x as u32,
                id,
                g as u32,
            );
        } else {
            assert(after.type_@.contains_key(k) <==> before.type_@.contains_key(k));
        }
    }
}

}
