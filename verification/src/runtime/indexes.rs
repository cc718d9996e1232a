//! From a write to the subscriptions it may concern.
use crate::calculation::CalcId;
use crate::entity::EntityTypeId;
use crate::entity::FieldId;
use crate::entity::InstanceId;
use crate::predicate::Cond;
use crate::runtime::index::Hit;
use crate::runtime::index::TypeIndex;
use crate::runtime::lifecycle::WriteModel;
use crate::runtime::lifecycle::WriteRec;
use crate::runtime::once::one_more;
use crate::runtime::refs::RefTable;
use crate::value::Val;
use std::collections::HashMap;
use vstd::multiset::Multiset;
use vstd::prelude::*;

verus! {

broadcast use vstd::std_specs::hash::group_hash_axioms;

/// A field of a type as one number.
pub open spec fn cell_key(ty: EntityTypeId, field: FieldId) -> u64 {
    (ty.0 * 0x1_0000_0000 + field.0) as u64
}

/// A reference field and a field behind it as one number.
pub open spec fn triple_key(ty: EntityTypeId, ref_field: FieldId, field: FieldId) -> u128 {
    (ty.0 * 0x1_0000_0000_0000_0000 + ref_field.0 * 0x1_0000_0000 + field.0) as u128
}

pub(crate) fn cell_key_of(ty: EntityTypeId, field: FieldId) -> (r: u64)
    ensures
        r == cell_key(ty, field),
{
    ty.0 as u64 * 0x1_0000_0000 + field.0 as u64
}

fn triple_key_of(ty: EntityTypeId, ref_field: FieldId, field: FieldId) -> (r: u128)
    ensures
        r == triple_key(ty, ref_field, field),
{
    ty.0 as u128 * 0x1_0000_0000_0000_0000 + ref_field.0 as u128 * 0x1_0000_0000 + field.0 as u128
}

pub proof fn lemma_cell_key(a: EntityTypeId, f: FieldId, b: EntityTypeId, g: FieldId)
    ensures
        cell_key(a, f) == cell_key(b, g) <==> a == b && f == g,
{
}

pub proof fn lemma_triple_key(
    a: EntityTypeId,
    r: FieldId,
    f: FieldId,
    b: EntityTypeId,
    s: FieldId,
    g: FieldId,
)
    ensures
        triple_key(a, r, f) == triple_key(b, s, g) <==> a == b && r == s && f == g,
{
}

/// The subscriptions, by what they watch.
pub struct Indexes {
    /// Subscriptions of instances to their own fields.
    pub own: HashMap<u64, Vec<(CalcId, u32)>>,
    /// Subscriptions to a field of all instances of a type.
    pub type_: HashMap<u64, TypeIndex>,
    /// Subscriptions through a reference field.
    pub inst: HashMap<u128, Vec<(CalcId, u32)>>,
}

impl Indexes {
    pub open spec fn wf(self) -> bool {
        forall|k: u64| #[trigger] self.type_@.contains_key(k) ==> self.type_@[k].wf()
    }

    pub open spec fn own_subs(self, ty: EntityTypeId, field: FieldId) -> Seq<(CalcId, u32)> {
        let k = cell_key(ty, field);
        if self.own@.contains_key(k) {
            self.own@[k]@
        } else {
            Seq::empty()
        }
    }

    pub open spec fn inst_subs(
        self,
        ty: EntityTypeId,
        ref_field: FieldId,
        field: FieldId,
    ) -> Seq<(CalcId, u32)> {
        let k = triple_key(ty, ref_field, field);
        if self.inst@.contains_key(k) {
            self.inst@[k]@
        } else {
            Seq::empty()
        }
    }

    /// The hits of the type-wide subscriptions.
    pub open spec fn type_hits(
        self,
        ty: EntityTypeId,
        field: FieldId,
        new: Val,
        old: Val,
        tys: Seq<EntityTypeId>,
    ) -> Seq<Hit> {
        let k = cell_key(ty, field);
        if self.type_@.contains_key(k) {
            self.type_@[k].hits(new, old, tys)
        } else {
            Seq::empty()
        }
    }

    /// The hits of the type-wide subscriptions to the field with this key, each as often as
    /// it is there.
    pub open spec fn hits_in(
        self,
        k: u64,
        new: Val,
        old: Val,
        tys: Seq<EntityTypeId>,
    ) -> Multiset<Hit> {
        if self.type_@.contains_key(k) {
            self.type_@[k].hits(new, old, tys).to_multiset()
        } else {
            Multiset::empty()
        }
    }

    /// Every write to the field with this key gives the hits that it gives in `other`, and
    /// at most one more, which belongs to `calc` and `group`.
    pub open spec fn takes_in(self, other: Indexes, k: u64, calc: CalcId, group: u32) -> bool {
        forall|new: Val, old: Val, tys: Seq<EntityTypeId>|
            #![trigger self.hits_in(k, new, old, tys)]
            #![trigger other.hits_in(k, new, old, tys)]
            one_more(
                self.hits_in(k, new, old, tys),
                other.hits_in(k, new, old, tys),
                calc,
                group,
            )
    }

    pub fn new() -> (r: Indexes)
        ensures
            r.wf(),
            r.own@.dom() == Set::<u64>::empty(),
            r.type_@.dom() == Set::<u64>::empty(),
            r.inst@.dom() == Set::<u128>::empty(),
    {
        Indexes { own: HashMap::new(), type_: HashMap::new(), inst: HashMap::new() }
    }

    pub fn add_own(&mut self, ty: EntityTypeId, field: FieldId, calc: CalcId, group: u32)
        requires
            old(self).wf(),
        ensures
            final(self).wf(),
            final(self).type_@ == old(self).type_@,
            final(self).inst@ == old(self).inst@,
            final(self).own_subs(ty, field) == old(self).own_subs(ty, field).push((calc, group)),
            forall|t: EntityTypeId, f: FieldId|
                t != ty || f != field ==> #[trigger] final(self).own_subs(t, f) == old(
                    self,
                ).own_subs(t, f),
    {
        let ghost before = *self;
        let k = cell_key_of(ty, field);
        let mut v: Vec<(CalcId, u32)> = match self.own.remove(&k) {
            Some(v) => v,
            None => Vec::new(),
        };
        v.push((calc, group));
        self.own.insert(k, v);
        proof {
            assert(self.own_subs(ty, field) =~= before.own_subs(ty, field).push((calc, group)));
            assert forall|t: EntityTypeId, f: FieldId|
                t != ty || f != field implies #[trigger] self.own_subs(t, f) == before.own_subs(
                t,
                f,
            ) by {
                lemma_cell_key(t, f, ty, field);
            }
        }
    }

    pub fn add_inst(
        &mut self,
        ty: EntityTypeId,
        ref_field: FieldId,
        field: FieldId,
        calc: CalcId,
        group: u32,
    )
        requires
            old(self).wf(),
        ensures
            final(self).wf(),
            final(self).type_@ == old(self).type_@,
            final(self).own@ == old(self).own@,
            final(self).inst_subs(ty, ref_field, field) == old(self).inst_subs(
                ty,
                ref_field,
                field,
            ).push((calc, group)),
            forall|t: EntityTypeId, r: FieldId, f: FieldId|
                t != ty || r != ref_field || f != field ==> #[trigger] final(self).inst_subs(
                    t,
                    r,
                    f,
                ) == old(self).inst_subs(t, r, f),
    {
        let ghost before = *self;
        let k = triple_key_of(ty, ref_field, field);
        let mut v: Vec<(CalcId, u32)> = match self.inst.remove(&k) {
            Some(v) => v,
            None => Vec::new(),
        };
        v.push((calc, group));
        self.inst.insert(k, v);
        proof {
            assert(self.inst_subs(ty, ref_field, field) =~= before.inst_subs(
                ty,
                ref_field,
                field,
            ).push((calc, group)));
            assert forall|t: EntityTypeId, r: FieldId, f: FieldId|
                t != ty || r != ref_field || f != field implies #[trigger] self.inst_subs(t, r, f)
                == before.inst_subs(t, r, f) by {
                lemma_triple_key(t, r, f, ty, ref_field, field);
            }
        }
    }

    pub fn add_type(
        &mut self,
        ty: EntityTypeId,
        field: FieldId,
        cond: &Cond,
        calc: CalcId,
        group: u32,
    )
        requires
            old(self).wf(),
        ensures
            final(self).wf(),
            final(self).own@ == old(self).own@,
            final(self).inst@ == old(self).inst@,
            final(self).type_@.contains_key(cell_key(ty, field)),
            final(self).type_@[cell_key(ty, field)].covers(*cond, calc, group),
            old(self).type_@.contains_key(cell_key(ty, field)) ==> final(self).type_@[cell_key(
                ty,
                field,
            )].extends(old(self).type_@[cell_key(ty, field)], calc, group),
            !old(self).type_@.contains_key(cell_key(ty, field)) ==> forall|
                new: Val,
                old: Val,
                tys: Seq<EntityTypeId>,
                h: Hit,
            |
                (#[trigger] final(self).type_@[cell_key(ty, field)].hits(new, old, tys).contains(h))
                    ==> h.calc == calc && h.group == group,
            final(self).takes_in(*old(self), cell_key(ty, field), calc, group),
            forall|k: u64|
                k != cell_key(ty, field) ==> (#[trigger] final(self).type_@.contains_key(k)
                    <==> old(self).type_@.contains_key(k)),
            forall|k: u64|
                k != cell_key(ty, field) && old(self).type_@.contains_key(k)
                    ==> #[trigger] final(self).type_@[k] == old(self).type_@[k],
    {
        let ghost before = *self;
        let k = cell_key_of(ty, field);
        let mut t: TypeIndex = match self.type_.remove(&k) {
            Some(t) => t,
            None => TypeIndex::new(),
        };
        let ghost t0 = t;
        t.insert(cond, calc, group);
        let ghost t1 = t;
        self.type_.insert(k, t);
        proof {
            if !before.type_@.contains_key(k) {
                assert forall|new: Val, old: Val, tys: Seq<EntityTypeId>, h: Hit|
                    (#[trigger] self.type_@[k].hits(new, old, tys).contains(h)) implies h.calc
                    == calc && h.group == group by {
                    assert(t0.hits(new, old, tys).len() == 0);
                    assert(!t0.hits(new, old, tys).contains(h));
                }
            }
            assert forall|new: Val, old: Val, tys: Seq<EntityTypeId>|
                #![trigger self.hits_in(k, new, old, tys)]
                #![trigger before.hits_in(k, new, old, tys)]
                one_more(
                    self.hits_in(k, new, old, tys),
                    before.hits_in(k, new, old, tys),
                    calc,
                    group,
                ) by {
                let none = t0.hits(new, old, tys);
                assert(one_more(
                    t1.hits(new, old, tys).to_multiset(),
                    none.to_multiset(),
                    calc,
                    group,
                ));
                if !before.type_@.contains_key(k) {
                    assert(none.len() == 0);
                    vstd::seq_lib::to_multiset_len(none);
                    assert(none.to_multiset() =~= Multiset::empty()) by {
                        assert forall|h: Hit| none.to_multiset().count(h) == 0 by {
                            vstd::seq_lib::to_multiset_contains(none, h);
                        }
                    }
                }
            }
        }
    }

    /// The subscriptions that a write may concern: those of the writer to itself, the
    /// type-wide ones, and those of everyone who refers to the writer.
    pub open spec fn hits_of(
        self,
        refs: RefTable,
        w: WriteModel,
        tys: Seq<EntityTypeId>,
    ) -> Seq<Hit> {
        with_sub(self.own_subs(w.inst.ty, w.field), w.inst) + self.type_hits(
            w.inst.ty,
            w.field,
            w.new,
            w.old,
            tys,
        ) + self.inst_hits(
            refs.holders_of(w.inst),
            w.field,
            refs.holders_of(w.inst).len() as int,
        )
    }

    /// The hits for the first `n` holders of references to the writer.
    pub open spec fn inst_hits(
        self,
        holders: Seq<(InstanceId, FieldId)>,
        field: FieldId,
        n: int,
    ) -> Seq<Hit>
        decreases n,
    {
        if n <= 0 {
            Seq::empty()
        } else {
            let h = holders[n - 1];
            self.inst_hits(holders, field, n - 1) + with_sub(
                self.inst_subs(h.0.ty, h.1, field),
                h.0,
            )
        }
    }

    /// Lists the subscriptions that a write may concern.
    pub fn hits(&self, refs: &RefTable, w: &WriteRec, tys: &Vec<EntityTypeId>) -> (r: Vec<Hit>)
        requires
            self.wf(),
        ensures
            r@ == self.hits_of(*refs, w@, tys@),
    {
        let mut out: Vec<Hit> = Vec::new();
        let key = cell_key_of(w.inst.ty, w.field);
        if let Some(subs) = self.own.get(&key) {
            push_subs(subs, w.inst, &mut out);
        }
        assert(out@ =~= with_sub(self.own_subs(w.inst.ty, w.field), w.inst));
        let ghost part = out@;
        if let Some(t) = self.type_.get(&key) {
            let mut more = t.probe(&w.new, &w.old, tys);
            out.append(&mut more);
        }
        assert(out@ =~= part + self.type_hits(w.inst.ty, w.field, w@.new, w@.old, tys@));
        let ghost base = out@;
        let holders = refs.holders(w.inst);
        let mut i: usize = 0;
        assert(out@ =~= base + self.inst_hits(holders@, w.field, 0));
        while i < holders.len()
            invariant
                i <= holders@.len(),
                out@ == base + self.inst_hits(holders@, w.field, i as int),
            decreases holders@.len() - i,
        {
            let (holder, rf) = holders[i];
            let ghost before = out@;
            if let Some(subs) = self.inst.get(&triple_key_of(holder.ty, rf, w.field)) {
                push_subs(subs, holder, &mut out);
            }
            assert(out@ =~= before + with_sub(
                self.inst_subs(holder.ty, rf, w.field),
                holder,
            ));
            assert(out@ =~= base + self.inst_hits(holders@, w.field, i + 1));
            i = i + 1;
        }
        out
    }
}

/// Subscriptions as hits for one subscriber.
pub open spec fn with_sub(subs: Seq<(CalcId, u32)>, sub: InstanceId) -> Seq<Hit> {
    Seq::new(
        subs.len(),
        |i: int| Hit { calc: subs[i].0, group: subs[i].1, sub: Some(sub) },
    )
}

fn push_subs(subs: &Vec<(CalcId, u32)>, sub: InstanceId, out: &mut Vec<Hit>)
    ensures
        final(out)@ == old(out)@ + with_sub(subs@, sub),
{
    let ghost before = out@;
    let mut i: usize = 0;
    assert(out@ =~= before + with_sub(subs@.take(0), sub));
    while i < subs.len()
        invariant
            i <= subs@.len(),
            out@ =~= before + with_sub(subs@.take(i as int), sub),
        decreases subs@.len() - i,
    {
        out.push(Hit { calc: subs[i].0, group: subs[i].1, sub: Some(sub) });
        i = i + 1;
    }
    assert(subs@.take(i as int) =~= subs@);
}

}
