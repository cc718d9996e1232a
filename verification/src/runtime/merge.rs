//! The merging of what the runs of a frame asked for: one write per cell.
use crate::calculation::CalcId;
use crate::calculation::SpawnReq;
use crate::calculation::Violation;
use crate::entity::FieldId;
use crate::entity::InstanceId;
use crate::entity::FIELD_ALIVE;
use crate::kernel::has_field;
use crate::runtime::exec::RunResult;
use crate::runtime::lifecycle::log_of;
use crate::runtime::lifecycle::push_log;
use crate::runtime::lifecycle::WriteModel;
use crate::runtime::lifecycle::WriteRec;
use crate::runtime::places::Places;
use crate::runtime::places::Who;
use crate::runtime::route::trigs_ok;
use crate::runtime::route::trigs_of;
use crate::runtime::route::Trigger;
use crate::runtime::store::Store;
use crate::runtime::CalcInfo;
use crate::value::Val;
use crate::value::Value;
use vstd::prelude::*;

verus! {

/// What went against the declarations of a calculation.
#[derive(Clone, Copy, Debug, PartialEq, Eq, Structural)]
pub enum NoteKind {
    /// Several writes of a frame to one cell had different values. The last one stands.
    Conflict(FieldId),
    /// A field was written that the calculation does not declare. The write is dropped.
    UndeclaredWrite(FieldId),
    /// The run itself broke a declaration.
    Broke(Violation),
}

/// A note on a run.
#[derive(Clone, Copy, Debug, PartialEq, Eq, Structural)]
pub struct Note {
    pub calc: CalcId,
    pub inst: InstanceId,
    pub kind: NoteKind,
}

/// A calculation may make the write: to a field that it declares, or to end its instance.
pub open spec fn allowed(declared: Seq<FieldId>, field: FieldId, v: Val) -> bool {
    if field.0 == FIELD_ALIVE {
        v == Val::Bool(false)
    } else {
        declared.contains(field)
    }
}

/// The first write to the cell, or the length.
pub open spec fn cell_at(s: Seq<WriteModel>, inst: InstanceId, field: FieldId) -> int
    decreases s.len(),
{
    if s.len() == 0 {
        0
    } else if s[0].inst == inst && s[0].field == field {
        0
    } else {
        1 + cell_at(s.drop_first(), inst, field)
    }
}

proof fn lemma_cell_at(s: Seq<WriteModel>, inst: InstanceId, field: FieldId, n: int)
    requires
        0 <= n <= s.len(),
        forall|i: int| 0 <= i < n ==> !((#[trigger] s[i]).inst == inst && s[i].field == field),
        n < s.len() ==> s[n].inst == inst && s[n].field == field,
    ensures
        cell_at(s, inst, field) == n,
    decreases n,
{
    if n > 0 {
        let t = s.drop_first();
        assert forall|i: int| 0 <= i < n - 1 implies !((#[trigger] t[i]).inst == inst && t[i].field
            == field) by {
            assert(t[i] == s[i + 1]);
        }
        if n < s.len() {
            assert(t[n - 1] == s[n]);
        }
        lemma_cell_at(t, inst, field, n - 1);
    }
}

pub proof fn lemma_cell_found(s: Seq<WriteModel>, inst: InstanceId, field: FieldId)
    ensures
        0 <= cell_at(s, inst, field) <= s.len(),
        forall|i: int|
            0 <= i < cell_at(s, inst, field) ==> !((#[trigger] s[i]).inst == inst && s[i].field
                == field),
        cell_at(s, inst, field) < s.len() ==> s[cell_at(s, inst, field)].inst == inst && s[cell_at(
            s,
            inst,
            field,
        )].field == field,
    decreases s.len(),
{
    if s.len() > 0 && !(s[0].inst == inst && s[0].field == field) {
        let t = s.drop_first();
        lemma_cell_found(t, inst, field);
        assert forall|i: int| 0 <= i < cell_at(s, inst, field) implies !((#[trigger] s[i]).inst
            == inst && s[i].field == field) by {
            if i > 0 {
                assert(t[i - 1] == s[i]);
            }
        }
    }
}

/// What is merged so far.
pub ghost struct Merged {
    pub log: Seq<WriteModel>,
    pub notes: Seq<Note>,
}

/// One write more: the first to a cell opens its record with the committed value as the old
/// one, a later one replaces the new value.
pub open spec fn merge_write(
    store: Store,
    calc: CalcId,
    declared: Seq<FieldId>,
    inst: InstanceId,
    m: Merged,
    field: FieldId,
    v: Val,
) -> Merged {
    if !allowed(declared, field, v) {
        Merged {
            notes: m.notes.push(Note { calc, inst, kind: NoteKind::UndeclaredWrite(field) }),
            ..m
        }
    } else {
        let i = cell_at(m.log, inst, field);
        if i < m.log.len() {
            Merged {
                log: m.log.update(i, WriteModel { new: v, ..m.log[i] }),
                notes: if m.log[i].new.same(v) {
                    m.notes
                } else {
                    m.notes.push(Note { calc, inst, kind: NoteKind::Conflict(field) })
                },
            }
        } else {
            Merged {
                log: m.log.push(
                    WriteModel { inst, field, old: store.value(inst, field), new: v },
                ),
                ..m
            }
        }
    }
}

/// The first `n` writes of a run more.
pub open spec fn merge_run(
    store: Store,
    calc: CalcId,
    declared: Seq<FieldId>,
    inst: InstanceId,
    m: Merged,
    writes: Seq<(FieldId, Value)>,
    n: int,
) -> Merged
    decreases n,
{
    if n <= 0 {
        m
    } else {
        merge_write(
            store,
            calc,
            declared,
            inst,
            merge_run(store, calc, declared, inst, m, writes, n - 1),
            writes[n - 1].0,
            writes[n - 1].1@,
        )
    }
}

/// The notes on what a run itself broke.
pub open spec fn broken(calc: CalcId, inst: InstanceId, vs: Seq<Violation>) -> Seq<Note> {
    Seq::new(vs.len(), |i: int| Note { calc, inst, kind: NoteKind::Broke(vs[i]) })
}

/// The first `n` runs merged, in the order of their triggers.
pub open spec fn merge_all(
    store: Store,
    infos: Seq<CalcInfo>,
    triggers: Seq<Trigger>,
    results: Seq<RunResult>,
    n: int,
) -> Merged
    decreases n,
{
    if n <= 0 {
        Merged { log: Seq::empty(), notes: Seq::empty() }
    } else {
        let m = merge_all(store, infos, triggers, results, n - 1);
        let t = triggers[n - 1];
        let r = results[n - 1];
        merge_run(
            store,
            t.calc,
            infos[t.calc.0 as int].declared_writes@,
            t.subscriber,
            Merged { notes: m.notes + broken(t.calc, t.subscriber, r.violations@), ..m },
            r.writes@,
            r.writes@.len() as int,
        )
    }
}

/// The requests of the first `n` runs, in the order of their triggers.
pub open spec fn spawns_upto(results: Seq<RunResult>, n: int) -> Seq<SpawnReq>
    decreases n,
{
    if n <= 0 {
        Seq::empty()
    } else {
        spawns_upto(results, n - 1) + results[n - 1].spawns@
    }
}

/// The merged writes touch each cell once, start from what is committed, and stay within
/// what the triggered calculations may write.
pub open spec fn merged_ok(
    store: Store,
    infos: Seq<CalcInfo>,
    triggers: Seq<Trigger>,
    log: Seq<WriteModel>,
) -> bool {
    &&& forall|i: int, j: int|
        0 <= i < j < log.len() ==> !((#[trigger] log[i]).inst == (#[trigger] log[j]).inst
            && log[i].field == log[j].field)
    &&& forall|i: int|
        0 <= i < log.len() ==> {
            &&& (#[trigger] log[i]).old == store.value(log[i].inst, log[i].field)
            &&& exists|t: int|
                0 <= t < triggers.len() && (#[trigger] triggers[t]).subscriber == log[i].inst
                    && allowed(
                    infos[triggers[t].calc.0 as int].declared_writes@,
                    log[i].field,
                    log[i].new,
                ) && store.is_alive(log[i].inst)
        }
}

/// What the runs of a frame come to.
pub struct Outcome {
    pub log: Vec<WriteRec>,
    pub spawns: Vec<SpawnReq>,
    pub notes: Vec<Note>,
}

/// The cells of a log.
pub open spec fn cell_keys(log: Seq<WriteModel>) -> Seq<Who> {
    Seq::new(log.len(), |i: int| (log[i].field.0, log[i].inst))
}

/// What is merged so far, each cell found by its number.
struct Merging {
    out: Outcome,
    cells: Places,
}

impl Merging {
    spec fn wf(self) -> bool {
        self.cells.indexes(cell_keys(log_of(self.out.log@)))
    }

    fn find_cell(&self, inst: InstanceId, field: FieldId) -> (r: usize)
        requires
            self.wf(),
        ensures
            r == cell_at(log_of(self.out.log@), inst, field),
            r <= self.out.log@.len(),
            r == self.out.log@.len() ==> self.cells.place((field.0, inst)) is None,
    {
        proof {
            let m = log_of(self.out.log@);
            let keys = cell_keys(m);
            let p = self.cells.place((field.0, inst));
            let n = if p is Some {
                p->0 as int
            } else {
                m.len() as int
            };
            assert forall|j: int| 0 <= j < n implies !((#[trigger] m[j]).inst == inst && m[j].field
                == field) by {
                assert(self.cells.place(keys[j]) == Some(j as usize));
            }
            if p is Some {
                assert(keys[n] == (field.0, inst));
            }
            lemma_cell_at(m, inst, field, n);
        }
        match self.cells.get((field.0, inst)) {
            Some(i) => i,
            None => self.out.log.len(),
        }
    }
}

fn is_allowed(declared: &Vec<FieldId>, field: FieldId, v: &Value) -> (r: bool)
    ensures
        r == allowed(declared@, field, v@),
{
    if field.0 == FIELD_ALIVE {
        matches!(v, Value::Bool(false))
    } else {
        has_field(declared, field)
    }
}

impl Outcome {
    pub open spec fn model(self) -> Merged {
        Merged { log: log_of(self.log@), notes: self.notes@ }
    }
}

impl Merging {
    fn take_write(
        &mut self,
        store: &Store,
        calc: CalcId,
        declared: &Vec<FieldId>,
        inst: InstanceId,
        field: FieldId,
        v: &Value,
    )
        requires
            store.wf(),
            old(self).wf(),
        ensures
            final(self).wf(),
            final(self).out.spawns == old(self).out.spawns,
            final(self).out.model() == merge_write(
                *store,
                calc,
                declared@,
                inst,
                old(self).out.model(),
                field,
                v@,
            ),
    {
        let ghost m = self.out.model();
        if !is_allowed(declared, field, v) {
            self.out.notes.push(Note { calc, inst, kind: NoteKind::UndeclaredWrite(field) });
            return;
        }
        let i = self.find_cell(inst, field);
        if i < self.out.log.len() {
            if self.out.log[i].new != *v {
                self.out.notes.push(Note { calc, inst, kind: NoteKind::Conflict(field) });
            }
            self.out.log[i].new = v.clone();
            proof {
                assert(log_of(self.out.log@) =~= m.log.update(
                    i as int,
                    WriteModel { new: v@, ..m.log[i as int] },
                ));
                assert(cell_keys(log_of(self.out.log@)) =~= cell_keys(m.log));
            }
        } else {
            let before = store.read(inst, field);
            self.cells.put((field.0, inst), i, Ghost(cell_keys(m.log)));
            push_log(&mut self.out.log, WriteRec { inst, field, old: before, new: v.clone() });
            assert(cell_keys(log_of(self.out.log@)) =~= cell_keys(m.log).push((field.0, inst)));
        }
    }
}

/// Merges what the runs of a frame asked for.
pub fn merge_results(
    store: &Store,
    infos: &Vec<CalcInfo>,
    triggers: &Vec<Trigger>,
    results: Vec<RunResult>,
) -> (r: Outcome)
    requires
        store.wf(),
        results@.len() == triggers@.len(),
        trigs_ok(trigs_of(triggers@), infos@),
        forall|i: int|
            0 <= i < results@.len() && !store.is_alive(triggers@[i].subscriber) ==> (
            #[trigger] results@[i]).writes@.len() == 0,
    ensures
        r.model() == merge_all(
            *store,
            infos@,
            triggers@,
            results@,
            triggers@.len() as int,
        ),
        r.spawns@ == spawns_upto(results@, triggers@.len() as int),
        merged_ok(*store, infos@, triggers@, log_of(r.log@)),
{
    let mut st = Merging {
        out: Outcome { log: Vec::new(), spawns: Vec::new(), notes: Vec::new() },
        cells: Places::new(),
    };
    let mut rs = results;
    let mut i: usize = 0;
    proof {
        assert(log_of(st.out.log@) =~= Seq::empty());
        assert(cell_keys(log_of(st.out.log@)) =~= Seq::empty());
    }
    while i < triggers.len()
        invariant
            store.wf(),
            st.wf(),
            results@.len() == triggers@.len(),
            rs@.len() == results@.len(),
            trigs_ok(trigs_of(triggers@), infos@),
            i <= triggers@.len(),
            forall|k: int| i <= k < rs@.len() ==> #[trigger] rs@[k] == results@[k],
            st.out.model() == merge_all(*store, infos@, triggers@, results@, i as int),
            st.out.spawns@ == spawns_upto(results@, i as int),
        decreases triggers@.len() - i,
    {
        let t = &triggers[i];
        let ghost m0 = st.out.model();
        assert(trigs_of(triggers@)[i as int] == t@);
        assert(rs@[i as int] == results@[i as int]);
        let declared = &infos[t.calc.0 as usize].declared_writes;
        let n = rs[i].violations.len();
        let mut k: usize = 0;
        while k < n
            invariant
                st.wf(),
                i < rs@.len(),
                rs@[i as int] == results@[i as int],
                n == results@[i as int].violations@.len(),
                k <= n,
                st.out.spawns@ == spawns_upto(results@, i as int),
                log_of(st.out.log@) == m0.log,
                st.out.notes@ =~= m0.notes + broken(
                    t.calc,
                    t.subscriber,
                    results@[i as int].violations@.take(k as int),
                ),
            decreases n - k,
        {
            st.out.notes.push(
                Note {
                    calc: t.calc,
                    inst: t.subscriber,
                    kind: NoteKind::Broke(rs[i].violations[k]),
                },
            );
            k = k + 1;
        }
        let ghost m1 = st.out.model();
        proof {
            let vs = results@[i as int].violations@;
            assert(vs.take(n as int) =~= vs);
            assert(m1 == (Merged { notes: m0.notes + broken(t.calc, t.subscriber, vs), ..m0 }));
        }
        let nw = rs[i].writes.len();
        let mut j: usize = 0;
        while j < nw
            invariant
                store.wf(),
                st.wf(),
                i < rs@.len(),
                rs@[i as int] == results@[i as int],
                nw == results@[i as int].writes@.len(),
                j <= nw,
                st.out.spawns@ == spawns_upto(results@, i as int),
                st.out.model() == merge_run(
                    *store,
                    t.calc,
                    declared@,
                    t.subscriber,
                    m1,
                    results@[i as int].writes@,
                    j as int,
                ),
            decreases nw - j,
        {
            st.take_write(
                store,
                t.calc,
                declared,
                t.subscriber,
                rs[i].writes[j].0,
                &rs[i].writes[j].1,
            );
            j = j + 1;
        }
        st.out.spawns.append(&mut rs[i].spawns);
        i = i + 1;
    }
    proof {
        lemma_merged_ok(*store, infos@, triggers@, results@, triggers@.len() as int);
    }
    st.out
}

proof fn lemma_merge_write_ok(
    store: Store,
    infos: Seq<CalcInfo>,
    triggers: Seq<Trigger>,
    t: int,
    m: Merged,
    field: FieldId,
    v: Val,
)
    requires
        0 <= t < triggers.len(),
        store.is_alive(triggers[t].subscriber),
        merged_ok(store, infos, triggers, m.log),
    ensures
        merged_ok(
            store,
            infos,
            triggers,
            merge_write(
                store,
                triggers[t].calc,
                infos[triggers[t].calc.0 as int].declared_writes@,
                triggers[t].subscriber,
                m,
                field,
                v,
            ).log,
        ),
{
    let inst = triggers[t].subscriber;
    let declared = infos[triggers[t].calc.0 as int].declared_writes@;
    let after = merge_write(store, triggers[t].calc, declared, inst, m, field, v).log;
    if allowed(declared, field, v) {
        lemma_cell_found(m.log, inst, field);
        let c = cell_at(m.log, inst, field);
        assert forall|i: int, j: int| 0 <= i < j < after.len() implies !((#[trigger] after[i]).inst
            == (#[trigger] after[j]).inst && after[i].field == after[j].field) by {
            if j < m.log.len() {
                assert(!(m.log[i].inst == m.log[j].inst && m.log[i].field == m.log[j].field));
            } else {
                assert(!(m.log[i].inst == inst && m.log[i].field == field));
            }
        }
        assert forall|i: int| 0 <= i < after.len() implies {
            &&& (#[trigger] after[i]).old == store.value(after[i].inst, after[i].field)
            &&& exists|x: int|
                0 <= x < triggers.len() && (#[trigger] triggers[x]).subscriber == after[i].inst
                    && allowed(
                    infos[triggers[x].calc.0 as int].declared_writes@,
                    after[i].field,
                    after[i].new,
                ) && store.is_alive(after[i].inst)
        } by {
            if i == c {
                assert(triggers[t].subscriber == after[i].inst);
                if c < m.log.len() {
                    assert(m.log[i].old == store.value(m.log[i].inst, m.log[i].field));
                }
            } else {
                assert(after[i] == m.log[i]);
                let x = choose|x: int|
                    0 <= x < triggers.len() && (#[trigger] triggers[x]).subscriber == m.log[i].inst
                        && allowed(
                        infos[triggers[x].calc.0 as int].declared_writes@,
                        m.log[i].field,
                        m.log[i].new,
                    ) && store.is_alive(m.log[i].inst);
                assert(triggers[x].subscriber == after[i].inst);
            }
        }
    }
}

proof fn lemma_merge_run_ok(
    store: Store,
    infos: Seq<CalcInfo>,
    triggers: Seq<Trigger>,
    t: int,
    m: Merged,
    writes: Seq<(FieldId, Value)>,
    n: int,
)
    requires
        0 <= t < triggers.len(),
        store.is_alive(triggers[t].subscriber) || writes.len() == 0,
        0 <= n <= writes.len(),
        merged_ok(store, infos, triggers, m.log),
    ensures
        merged_ok(
            store,
            infos,
            triggers,
            merge_run(
                store,
                triggers[t].calc,
                infos[triggers[t].calc.0 as int].declared_writes@,
                triggers[t].subscriber,
                m,
                writes,
                n,
            ).log,
        ),
    decreases n,
{
    if n > 0 {
        lemma_merge_run_ok(store, infos, triggers, t, m, writes, n - 1);
        let r = merge_run(
            store,
            triggers[t].calc,
            infos[triggers[t].calc.0 as int].declared_writes@,
            triggers[t].subscriber,
            m,
            writes,
            n - 1,
        );
        lemma_merge_write_ok(store, infos, triggers, t, r, writes[n - 1].0, writes[n - 1].1@);
    }
}

proof fn lemma_merged_ok(
    store: Store,
    infos: Seq<CalcInfo>,
    triggers: Seq<Trigger>,
    results: Seq<RunResult>,
    n: int,
)
    requires
        0 <= n <= triggers.len(),
        results.len() == triggers.len(),
        forall|i: int|
            0 <= i < results.len() && !store.is_alive(triggers[i].subscriber) ==> (
            #[trigger] results[i]).writes@.len() == 0,
    ensures
        merged_ok(store, infos, triggers, merge_all(store, infos, triggers, results, n).log),
    decreases n,
{
    if n > 0 {
        lemma_merged_ok(store, infos, triggers, results, n - 1);
        let m = merge_all(store, infos, triggers, results, n - 1);
        let t = triggers[n - 1];
        let r = results[n - 1];
        assert(store.is_alive(t.subscriber) || results[n - 1].writes@.len() == 0);
        lemma_merge_run_ok(
            store,
            infos,
            triggers,
            n - 1,
            Merged { notes: m.notes + broken(t.calc, t.subscriber, r.violations@), ..m },
            r.writes@,
            r.writes@.len() as int,
        );
    }
}

}
