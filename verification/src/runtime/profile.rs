//! What the runtime counts anyway, and the plan of a frame.
use crate::calculation::CalcId;
use crate::column::copied;
use crate::entity::EntityTypeId;
use crate::entity::FieldId;
use crate::kernel::reads_of;
use crate::runtime::indexes::cell_key;
use crate::runtime::indexes::cell_key_of;
use crate::runtime::indexes::lemma_cell_key;
use crate::runtime::Residency;
use crate::runtime::Tier;
use std::collections::HashMap;
use vstd::prelude::*;

verus! {

broadcast use vstd::std_specs::hash::group_hash_axioms;

/// The number of writes to a field of a type.
pub type CellCount = ((EntityTypeId, FieldId), u64);

/// Counters. They stop at their maximum.
pub struct Profile {
    pub frames: u64,
    /// The number of writes that were routed in the last frame.
    pub last_writes: usize,
    /// The number of triggers of the last frame.
    pub last_triggers: usize,
    pub write_counts: Vec<CellCount>,
    /// Where the count of a field stands, by the number of the field.
    pub places: HashMap<u64, usize>,
    pub trigger_counts: Vec<u64>,
}

/// One more, up to the maximum.
pub open spec fn bumped(n: u64) -> u64 {
    if n < u64::MAX {
        (n + 1) as u64
    } else {
        n
    }
}

/// No field is counted in two places.
pub open spec fn counts_distinct(s: Seq<CellCount>) -> bool {
    forall|i: int, j: int|
        0 <= i < j < s.len() ==> !((#[trigger] s[i]).0.0 == (#[trigger] s[j]).0.0 && s[i].0.1
            == s[j].0.1)
}

impl Profile {
    pub open spec fn wf(self) -> bool {
        &&& counts_distinct(self.write_counts@)
        &&& forall|i: int|
            0 <= i < self.write_counts@.len() ==> self.placed(
                (#[trigger] self.write_counts@[i]).0.0,
                self.write_counts@[i].0.1,
                i,
            )
        &&& forall|ty: EntityTypeId, f: FieldId|
            #![trigger cell_key(ty, f)]
            self.places@.contains_key(cell_key(ty, f)) ==> {
                let i = self.places@[cell_key(ty, f)] as int;
                &&& 0 <= i < self.write_counts@.len()
                &&& self.write_counts@[i].0.0 == ty
                &&& self.write_counts@[i].0.1 == f
            }
    }

    /// The field has its count at this place.
    pub open spec fn placed(self, ty: EntityTypeId, f: FieldId, i: int) -> bool {
        self.places@.contains_key(cell_key(ty, f)) && self.places@[cell_key(ty, f)] == i
    }

    /// The number of writes to a field of a type so far.
    pub open spec fn writes_to(self, ty: EntityTypeId, field: FieldId) -> u64 {
        if exists|i: int|
            0 <= i < self.write_counts@.len() && (#[trigger] self.write_counts@[i]).0.0 == ty
                && self.write_counts@[i].0.1 == field {
            let i = choose|i: int|
                0 <= i < self.write_counts@.len() && (#[trigger] self.write_counts@[i]).0.0 == ty
                    && self.write_counts@[i].0.1 == field;
            self.write_counts@[i].1
        } else {
            0
        }
    }

    pub open spec fn triggers_of(self, calc: CalcId) -> u64 {
        if calc.0 < self.trigger_counts@.len() {
            self.trigger_counts@[calc.0 as int]
        } else {
            0
        }
    }

    pub fn new() -> (r: Profile)
        ensures
            r.wf(),
            r.frames == 0,
            r.last_writes == 0,
            r.last_triggers == 0,
            r.write_counts@.len() == 0,
            r.trigger_counts@.len() == 0,
    {
        Profile {
            frames: 0,
            last_writes: 0,
            last_triggers: 0,
            write_counts: Vec::new(),
            places: HashMap::new(),
            trigger_counts: Vec::new(),
        }
    }

    fn find(&self, ty: EntityTypeId, field: FieldId) -> (r: usize)
        requires
            self.wf(),
        ensures
            r <= self.write_counts@.len(),
            r < self.write_counts@.len() ==> self.write_counts@[r as int].0.0 == ty
                && self.write_counts@[r as int].0.1 == field && self.write_counts@[r as int].1
                == self.writes_to(ty, field),
            r == self.write_counts@.len() ==> self.writes_to(ty, field) == 0 && forall|i: int|
                0 <= i < self.write_counts@.len() ==> !((#[trigger] self.write_counts@[i]).0.0 == ty
                    && self.write_counts@[i].0.1 == field),
    {
        match self.places.get(&cell_key_of(ty, field)) {
            Some(i) => {
                proof {
                    lemma_count(*self, *i as int);
                }
                *i
            },
            None => {
                assert forall|i: int| 0 <= i < self.write_counts@.len() implies !((
                #[trigger] self.write_counts@[i]).0.0 == ty && self.write_counts@[i].0.1
                    == field) by {
                    assert(self.placed(
                        self.write_counts@[i].0.0,
                        self.write_counts@[i].0.1,
                        i,
                    ));
                }
                self.write_counts.len()
            },
        }
    }

    /// The number of writes to a field of a type so far.
    pub fn writes(&self, ty: EntityTypeId, field: FieldId) -> (r: u64)
        requires
            self.wf(),
        ensures
            r == self.writes_to(ty, field),
    {
        let i = self.find(ty, field);
        if i < self.write_counts.len() {
            self.write_counts[i].1
        } else {
            0
        }
    }

    /// The number of times a calculation was triggered so far.
    pub fn triggers(&self, calc: CalcId) -> (r: u64)
        ensures
            r == self.triggers_of(calc),
    {
        let i = calc.0 as usize;
        if i < self.trigger_counts.len() {
            self.trigger_counts[i]
        } else {
            0
        }
    }

    /// Counts a write.
    pub fn count_write(&mut self, ty: EntityTypeId, field: FieldId)
        requires
            old(self).wf(),
        ensures
            final(self).wf(),
            final(self).frames == old(self).frames,
            final(self).last_writes == old(self).last_writes,
            final(self).last_triggers == old(self).last_triggers,
            final(self).trigger_counts == old(self).trigger_counts,
            forall|t: EntityTypeId, f: FieldId| #[trigger]
                final(self).writes_to(t, f) == (if t == ty && f == field {
                    bumped(old(self).writes_to(t, f))
                } else {
                    old(self).writes_to(t, f)
                }),
    {
        let ghost before = *self;
        let i = self.find(ty, field);
        if i < self.write_counts.len() {
            let c = self.write_counts[i].1;
            let count: u64 = if c < u64::MAX {
                c + 1
            } else {
                c
            };
            self.write_counts.set(i, ((ty, field), count));
        } else {
            self.write_counts.push(((ty, field), 1));
            self.places.insert(cell_key_of(ty, field), i);
        }
        proof {
            assert(self.wf()) by {
                assert forall|a: int| 0 <= a < self.write_counts@.len() implies self.placed(
                    (#[trigger] self.write_counts@[a]).0.0,
                    self.write_counts@[a].0.1,
                    a,
                ) by {
                    lemma_cell_key(
                        self.write_counts@[a].0.0,
                        self.write_counts@[a].0.1,
                        ty,
                        field,
                    );
                    if a < before.write_counts@.len() {
                        assert(before.placed(
                            before.write_counts@[a].0.0,
                            before.write_counts@[a].0.1,
                            a,
                        ));
                    }
                }
                assert forall|t: EntityTypeId, f: FieldId|
                    #![trigger cell_key(t, f)]
                    self.places@.contains_key(cell_key(t, f)) implies {
                    let a = self.places@[cell_key(t, f)] as int;
                    &&& 0 <= a < self.write_counts@.len()
                    &&& self.write_counts@[a].0.0 == t
                    &&& self.write_counts@[a].0.1 == f
                } by {
                    lemma_cell_key(t, f, ty, field);
                }
                assert forall|a: int, b: int| 0 <= a < b < self.write_counts@.len() implies !((
                #[trigger] self.write_counts@[a]).0.0 == (#[trigger] self.write_counts@[b]).0.0
                    && self.write_counts@[a].0.1 == self.write_counts@[b].0.1) by {
                    if b < before.write_counts@.len() {
                        assert(!(before.write_counts@[a].0.0 == before.write_counts@[b].0.0
                            && before.write_counts@[a].0.1 == before.write_counts@[b].0.1));
                    }
                }
            }
            assert forall|t: EntityTypeId, f: FieldId| #[trigger] self.writes_to(t, f) == (if t
                == ty && f == field {
                bumped(before.writes_to(t, f))
            } else {
                before.writes_to(t, f)
            }) by {
                if t == ty && f == field {
                    assert(self.write_counts@[i as int].0.0 == t);
                    lemma_count(*self, i as int);
                } else if exists|k: int|
                    0 <= k < before.write_counts@.len() && (#[trigger] before.write_counts@[k]).0.0
                        == t && before.write_counts@[k].0.1 == f {
                    let k = choose|k: int|
                        0 <= k < before.write_counts@.len() && (
                        #[trigger] before.write_counts@[k]).0.0 == t && before.write_counts@[k].0.1
                            == f;
                    assert(self.write_counts@[k] == before.write_counts@[k]);
                    lemma_count(*self, k);
                    lemma_count(before, k);
                } else {
                    if exists|k: int|
                        0 <= k < self.write_counts@.len() && (#[trigger] self.write_counts@[k]).0.0
                            == t && self.write_counts@[k].0.1 == f {
                        let k = choose|k: int|
                            0 <= k < self.write_counts@.len() && (
                            #[trigger] self.write_counts@[k]).0.0 == t && self.write_counts@[k].0.1
                                == f;
                        assert(before.write_counts@[k] == self.write_counts@[k]);
                    }
                }
            }
        }
    }

    /// Counts a trigger.
    pub fn count_trigger(&mut self, calc: CalcId)
        requires
            old(self).wf(),
            calc.0 < old(self).trigger_counts@.len(),
        ensures
            final(self).wf(),
            final(self).frames == old(self).frames,
            final(self).last_writes == old(self).last_writes,
            final(self).last_triggers == old(self).last_triggers,
            final(self).write_counts == old(self).write_counts,
            final(self).trigger_counts@ == old(self).trigger_counts@.update(
                calc.0 as int,
                bumped(old(self).trigger_counts@[calc.0 as int]),
            ),
    {
        let i = calc.0 as usize;
        let c = self.trigger_counts[i];
        let n: u64 = if c < u64::MAX {
            c + 1
        } else {
            c
        };
        self.trigger_counts.set(i, n);
    }
}

/// With one place per field, that place has the count.
proof fn lemma_count(p: Profile, i: int)
    requires
        p.wf(),
        0 <= i < p.write_counts@.len(),
    ensures
        p.writes_to(p.write_counts@[i].0.0, p.write_counts@[i].0.1) == p.write_counts@[i].1,
{
    let ty = p.write_counts@[i].0.0;
    let field = p.write_counts@[i].0.1;
    assert(exists|k: int|
        0 <= k < p.write_counts@.len() && (#[trigger] p.write_counts@[k]).0.0 == ty
            && p.write_counts@[k].0.1 == field);
    let k = choose|k: int|
        0 <= k < p.write_counts@.len() && (#[trigger] p.write_counts@[k]).0.0 == ty
            && p.write_counts@[k].0.1 == field;
    if k < i {
        assert(!(p.write_counts@[k].0.0 == p.write_counts@[i].0.0 && p.write_counts@[k].0.1
            == p.write_counts@[i].0.1));
    } else if i < k {
        assert(!(p.write_counts@[i].0.0 == p.write_counts@[k].0.0 && p.write_counts@[i].0.1
            == p.write_counts@[k].0.1));
    }
}

/// `a` comes before `b` in the list of hot fields, or is `b`: more writes first, then by
/// type and field.
pub open spec fn hot_le(a: CellCount, b: CellCount) -> bool {
    if a.1 != b.1 {
        a.1 > b.1
    } else if a.0.0.0 != b.0.0.0 {
        a.0.0.0 < b.0.0.0
    } else {
        a.0.1.0 <= b.0.1.0
    }
}

fn hot_not_after(a: CellCount, b: CellCount) -> (r: bool)
    ensures
        r == hot_le(a, b),
{
    if a.1 != b.1 {
        a.1 > b.1
    } else if a.0.0.0 != b.0.0.0 {
        a.0.0.0 < b.0.0.0
    } else {
        a.0.1.0 <= b.0.1.0
    }
}

pub open spec fn hot_sorted(s: Seq<CellCount>) -> bool {
    forall|i: int, j: int| 0 <= i <= j < s.len() ==> hot_le(#[trigger] s[i], #[trigger] s[j])
}

impl Profile {
    /// The written fields, the most written first.
    pub fn hot_cells(&self) -> (r: Vec<CellCount>)
        ensures
            hot_sorted(r@),
            r@.to_multiset() == self.write_counts@.to_multiset(),
    {
        let mut out: Vec<CellCount> = Vec::new();
        let mut i: usize = 0;
        proof {
            assert(self.write_counts@.take(0) =~= out@);
        }
        while i < self.write_counts.len()
            invariant
                i <= self.write_counts@.len(),
                hot_sorted(out@),
                out@.to_multiset() == self.write_counts@.take(i as int).to_multiset(),
            decreases self.write_counts@.len() - i,
        {
            let x = self.write_counts[i];
            let mut k: usize = out.len();
            while k > 0 && !hot_not_after(out[k - 1], x)
                invariant
                    k <= out@.len(),
                    hot_sorted(out@),
                    forall|j: int| k <= j < out@.len() ==> !hot_le(#[trigger] out@[j], x),
                ensures
                    k <= out@.len(),
                    forall|j: int| k <= j < out@.len() ==> !hot_le(#[trigger] out@[j], x),
                    k > 0 ==> hot_le(out@[k - 1], x),
                decreases k,
            {
                k = k - 1;
            }
            let ghost before = out@;
            out.insert(k, x);
            proof {
                assert forall|a: int, b: int| 0 <= a <= b < out@.len() implies hot_le(
                    #[trigger] out@[a],
                    #[trigger] out@[b],
                ) by {
                    let p = if a < k {
                        a
                    } else {
                        a - 1
                    };
                    let q = if b < k {
                        b
                    } else {
                        b - 1
                    };
                    if a != k && b != k {
                        assert(out@[a] == before[p] && out@[b] == before[q]);
                    } else if a == k && b > k {
                        assert(out@[b] == before[q]);
                    } else if b == k && a < k {
                        assert(out@[a] == before[p]);
                        assert(hot_le(before[p], before[k - 1]));
                    }
                }
                vstd::seq_lib::to_multiset_insert(before, k as int, x);
                assert(self.write_counts@.take(i + 1) =~= self.write_counts@.take(i as int).push(
                    x,
                ));
                vstd::seq_lib::to_multiset_build(self.write_counts@.take(i as int), x);
            }
            i = i + 1;
        }
        assert(self.write_counts@.take(i as int) =~= self.write_counts@);
        out
    }
}

/// The triggers of one calculation in a frame.
pub struct ScheduleGroup {
    pub calc: CalcId,
    pub count: usize,
    pub tier: Tier,
    /// Where to run: never `Auto`.
    pub residency: Residency,
    /// The declared reads.
    pub reads: Option<Vec<FieldId>>,
}

/// What a `ScheduleGroup` holds.
pub ghost struct GroupModel {
    pub calc: CalcId,
    pub count: nat,
    pub tier: Tier,
    pub residency: Residency,
    pub reads: Option<Seq<FieldId>>,
}

impl View for ScheduleGroup {
    type V = GroupModel;

    open spec fn view(&self) -> GroupModel {
        GroupModel {
            calc: self.calc,
            count: self.count as nat,
            tier: self.tier,
            residency: self.residency,
            reads: reads_of(self.reads),
        }
    }
}

/// The plan of a frame: its triggers by calculation.
pub struct Schedule {
    pub groups: Vec<ScheduleGroup>,
}

impl View for Schedule {
    type V = Seq<GroupModel>;

    open spec fn view(&self) -> Seq<GroupModel> {
        Seq::new(self.groups@.len(), |i: int| self.groups@[i]@)
    }
}

/// The calculations that run on the GPU, or those that do not.
pub open spec fn resident(s: Seq<GroupModel>, gpu: bool) -> Seq<CalcId>
    decreases s.len(),
{
    if s.len() == 0 {
        Seq::empty()
    } else {
        let r = resident(s.drop_last(), gpu);
        if (s.last().residency == Residency::Gpu) == gpu {
            r.push(s.last().calc)
        } else {
            r
        }
    }
}

/// A copy of optional reads.
pub fn copy_reads(r: &Option<Vec<FieldId>>) -> (c: Option<Vec<FieldId>>)
    ensures
        reads_of(c) == reads_of(*r),
{
    match r {
        Some(v) => Some(copied(v)),
        None => None,
    }
}

impl Schedule {
    pub fn new() -> (r: Schedule)
        ensures
            r@ == Seq::<GroupModel>::empty(),
    {
        let r = Schedule { groups: Vec::new() };
        assert(r@ =~= Seq::<GroupModel>::empty());
        r
    }

    /// The calculations that run on the CPU, and those that run on the GPU.
    pub fn residency_partition(&self) -> (r: (Vec<CalcId>, Vec<CalcId>))
        ensures
            r.0@ == resident(self@, false),
            r.1@ == resident(self@, true),
    {
        let mut cpu: Vec<CalcId> = Vec::new();
        let mut gpu: Vec<CalcId> = Vec::new();
        let mut i: usize = 0;
        assert(self@.take(0) =~= Seq::empty());
        while i < self.groups.len()
            invariant
                i <= self.groups@.len(),
                cpu@ == resident(self@.take(i as int), false),
                gpu@ == resident(self@.take(i as int), true),
            decreases self.groups@.len() - i,
        {
            let g = &self.groups[i];
            proof {
                assert(self@.take(i + 1).drop_last() =~= self@.take(i as int));
            }
            match g.residency {
                Residency::Gpu => gpu.push(g.calc),
                _ => cpu.push(g.calc),
            }
            i = i + 1;
        }
        assert(self@.take(i as int) =~= self@);
        (cpu, gpu)
    }
}

impl Clone for Schedule {
    fn clone(&self) -> (r: Schedule)
        ensures
            r@ == self@,
    {
        let mut groups: Vec<ScheduleGroup> = Vec::new();
        let mut i: usize = 0;
        while i < self.groups.len()
            invariant
                i <= self.groups@.len(),
                groups@.len() == i,
                forall|j: int| 0 <= j < i ==> (#[trigger] groups@[j])@ == self.groups@[j]@,
            decreases self.groups@.len() - i,
        {
            let g = &self.groups[i];
            groups.push(
                ScheduleGroup {
                    calc: g.calc,
                    count: g.count,
                    tier: g.tier,
                    residency: g.residency,
                    reads: copy_reads(&g.reads),
                },
            );
            i = i + 1;
        }
        let r = Schedule { groups };
        assert(r@ =~= self@);
        r
    }
}

}
