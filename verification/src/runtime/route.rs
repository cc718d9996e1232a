//! Routing: from the writes of the last frame to the triggers of this one.
use crate::calculation::CalcId;
use crate::calculation::Input;
use crate::calculation::InputModel;
use crate::entity::CellAddr;
use crate::entity::InstanceId;
use crate::predicate::Delivery;
use crate::predicate::FoldOp;
use crate::runtime::eval::env_of;
use crate::runtime::eval::project;
use crate::runtime::eval::projection;
use crate::runtime::eval::EvalCtx;
use crate::runtime::fold::acc_fits;
use crate::runtime::fold::apply_fold;
use crate::runtime::fold::fold_init;
use crate::runtime::fold::fold_start;
use crate::runtime::fold::fold_step;
use crate::runtime::fold::FoldAcc;
use crate::runtime::fold::FoldModel;
use crate::runtime::lifecycle::WriteModel;
use crate::runtime::lifecycle::WriteRec;
use crate::runtime::places::Places;
use crate::runtime::places::Who;
use crate::runtime::store::Store;
use crate::runtime::CalcInfo;
use crate::value::vals_of;
use crate::value::Val;
use crate::value::Value;
use vstd::prelude::*;

verus! {

/// A calculation that is to run for a subscriber.
pub struct Trigger {
    pub calc: CalcId,
    pub subscriber: InstanceId,
    pub input: Input,
}

/// What a `Trigger` holds.
pub ghost struct Trig {
    pub calc: CalcId,
    pub sub: InstanceId,
    pub input: InputModel,
}

impl View for Trigger {
    type V = Trig;

    open spec fn view(&self) -> Trig {
        Trig { calc: self.calc, sub: self.subscriber, input: self.input@ }
    }
}

pub open spec fn trigs_of(ts: Seq<Trigger>) -> Seq<Trig> {
    Seq::new(ts.len(), |i: int| ts[i]@)
}

/// The place of a batch row in the canonical order: the writer, then the field.
#[derive(Clone, Copy, Debug, PartialEq, Eq, Structural)]
pub struct BatchKey {
    pub ty: u32,
    pub id: u32,
    pub generation: u64,
    pub field: u32,
}

pub open spec fn batch_key(w: WriteModel) -> BatchKey {
    BatchKey {
        ty: w.inst.ty.0,
        id: w.inst.id,
        generation: w.inst.generation,
        field: w.field.0,
    }
}

/// `a` comes before `b` in the canonical order, or shares its place.
pub open spec fn key_le(a: BatchKey, b: BatchKey) -> bool {
    if a.ty != b.ty {
        a.ty < b.ty
    } else if a.id != b.id {
        a.id < b.id
    } else if a.generation != b.generation {
        a.generation < b.generation
    } else {
        a.field <= b.field
    }
}

pub(crate) fn key_not_above(a: BatchKey, b: BatchKey) -> (r: bool)
    ensures
        r == key_le(a, b),
{
    if a.ty != b.ty {
        a.ty < b.ty
    } else if a.id != b.id {
        a.id < b.id
    } else if a.generation != b.generation {
        a.generation < b.generation
    } else {
        a.field <= b.field
    }
}

/// A row of a batch with its place.
pub struct BatchRow {
    pub key: BatchKey,
    pub row: Vec<Value>,
}

/// What a `BatchRow` holds.
pub ghost struct RowModel {
    pub key: BatchKey,
    pub row: Seq<Val>,
}

impl View for BatchRow {
    type V = RowModel;

    open spec fn view(&self) -> RowModel {
        RowModel { key: self.key, row: vals_of(self.row@) }
    }
}

pub open spec fn rows_model(rs: Seq<BatchRow>) -> Seq<RowModel> {
    Seq::new(rs.len(), |i: int| rs[i]@)
}

/// The hits of a frame for one subscriber of a batch.
pub struct BatchBuf {
    pub calc: CalcId,
    pub sub: InstanceId,
    pub rows: Vec<BatchRow>,
}

pub ghost struct BatchModel {
    pub calc: CalcId,
    pub sub: InstanceId,
    pub rows: Seq<RowModel>,
}

impl View for BatchBuf {
    type V = BatchModel;

    open spec fn view(&self) -> BatchModel {
        BatchModel { calc: self.calc, sub: self.sub, rows: rows_model(self.rows@) }
    }
}

/// Which groups of a conjunction were written to in this frame, for one subscriber.
pub struct Latch {
    pub calc: CalcId,
    pub sub: InstanceId,
    pub seen: Vec<bool>,
    pub fired: bool,
}

pub ghost struct LatchModel {
    pub calc: CalcId,
    pub sub: InstanceId,
    pub seen: Seq<bool>,
    pub fired: bool,
}

impl View for Latch {
    type V = LatchModel;

    open spec fn view(&self) -> LatchModel {
        LatchModel { calc: self.calc, sub: self.sub, seen: self.seen@, fired: self.fired }
    }
}

/// The aggregate of one subscriber.
pub struct FoldEntry {
    pub calc: CalcId,
    pub sub: InstanceId,
    pub acc: FoldAcc,
}

pub ghost struct FoldEntryModel {
    pub calc: CalcId,
    pub sub: InstanceId,
    pub acc: FoldModel,
}

impl View for FoldEntry {
    type V = FoldEntryModel;

    open spec fn view(&self) -> FoldEntryModel {
        FoldEntryModel { calc: self.calc, sub: self.sub, acc: self.acc@ }
    }
}

impl Clone for FoldEntry {
    fn clone(&self) -> (r: FoldEntry)
        ensures
            r@ == self@,
    {
        FoldEntry { calc: self.calc, sub: self.sub, acc: self.acc.clone() }
    }
}

/// The aggregates, each found by its subscriber.
pub struct FoldTable {
    pub entries: Vec<FoldEntry>,
    pub places: Places,
}

impl View for FoldTable {
    type V = Seq<FoldEntry>;

    open spec fn view(&self) -> Seq<FoldEntry> {
        self.entries@
    }
}

/// Whom the aggregates belong to.
pub open spec fn fold_keys(fs: Seq<FoldEntryModel>) -> Seq<Who> {
    Seq::new(fs.len(), |i: int| (fs[i].calc.0, fs[i].sub))
}

pub open spec fn hit_keys(hs: Seq<(CalcId, InstanceId)>) -> Seq<Who> {
    Seq::new(hs.len(), |i: int| (hs[i].0.0, hs[i].1))
}

pub open spec fn batch_keys(bs: Seq<BatchModel>) -> Seq<Who> {
    Seq::new(bs.len(), |i: int| (bs[i].calc.0, bs[i].sub))
}

pub open spec fn latch_keys(ls: Seq<LatchModel>) -> Seq<Who> {
    Seq::new(ls.len(), |i: int| (ls[i].calc.0, ls[i].sub))
}

impl FoldTable {
    pub open spec fn wf(self) -> bool {
        self.places.indexes(fold_keys(folds_of(self@)))
    }

    pub fn new() -> (r: FoldTable)
        ensures
            r.wf(),
            r@.len() == 0,
    {
        let r = FoldTable { entries: Vec::new(), places: Places::new() };
        assert(fold_keys(folds_of(r@)) =~= Seq::empty());
        r
    }

    pub fn len(&self) -> (r: usize)
        ensures
            r == self@.len(),
    {
        self.entries.len()
    }

    /// The place of the aggregate of a subscriber, or the length.
    pub fn find(&self, calc: CalcId, sub: InstanceId) -> (r: usize)
        requires
            self.wf(),
        ensures
            r == fold_at(folds_of(self@), calc, sub),
            r <= self@.len(),
            r < self@.len() ==> self@[r as int].calc == calc && self@[r as int].sub == sub,
    {
        proof {
            let fs = folds_of(self@);
            let keys = fold_keys(fs);
            let p = self.places.place((calc.0, sub));
            let n = if p is Some {
                p->0 as int
            } else {
                fs.len() as int
            };
            assert forall|j: int| 0 <= j < n implies !((#[trigger] fs[j]).calc == calc && fs[j].sub
                == sub) by {
                assert(self.places.place(keys[j]) == Some(j as usize));
            }
            if p is Some {
                assert(keys[n] == (calc.0, sub));
            }
            lemma_fold_at(fs, calc, sub, n);
        }
        match self.places.get((calc.0, sub)) {
            Some(i) => i,
            None => self.entries.len(),
        }
    }

    /// A new aggregate.
    pub fn push(&mut self, e: FoldEntry)
        requires
            old(self).wf(),
            fold_at(folds_of(old(self)@), e.calc, e.sub) == old(self)@.len(),
        ensures
            final(self).wf(),
            final(self)@ == old(self)@.push(e),
    {
        let ghost fs = folds_of(self@);
        let ghost who = (e.calc.0, e.sub);
        let n = self.entries.len();
        proof {
            lemma_fold_found(fs, e.calc, e.sub);
            if self.places.place(who) is Some {
                let i = self.places.place(who)->0 as int;
                assert(fold_keys(fs)[i] == who);
                assert(!(fs[i].calc == e.calc && fs[i].sub == e.sub));
            }
        }
        self.places.put((e.calc.0, e.sub), n, Ghost(fold_keys(fs)));
        self.entries.push(e);
        assert(fold_keys(folds_of(self@)) =~= fold_keys(fs).push(who));
    }
}

impl Clone for FoldTable {
    fn clone(&self) -> (r: FoldTable)
        ensures
            folds_of(r@) == folds_of(self@),
            self.wf() ==> r.wf(),
    {
        let mut out: Vec<FoldEntry> = Vec::new();
        let mut i: usize = 0;
        while i < self.entries.len()
            invariant
                i <= self.entries@.len(),
                out@.len() == i,
                forall|j: int| 0 <= j < i ==> (#[trigger] out@[j])@ == self.entries@[j]@,
            decreases self.entries@.len() - i,
        {
            out.push(self.entries[i].clone());
            i = i + 1;
        }
        assert(folds_of(out@) =~= folds_of(self@));
        FoldTable { entries: out, places: self.places.clone() }
    }
}

/// What routing collects. Batches, conjunctions and aggregates are found by their subscribers.
pub struct Routed {
    pub triggers: Vec<Trigger>,
    pub batches: Vec<BatchBuf>,
    pub batch_places: Places,
    pub latches: Vec<Latch>,
    pub latch_places: Places,
    pub folds: FoldTable,
    /// The aggregates that are to be delivered.
    pub fold_hits: Vec<(CalcId, InstanceId)>,
    pub hit_places: Places,
}

/// What a `Routed` holds.
pub ghost struct Frame {
    pub triggers: Seq<Trig>,
    pub batches: Seq<BatchModel>,
    pub latches: Seq<LatchModel>,
    pub folds: Seq<FoldEntryModel>,
    pub fold_hits: Seq<(CalcId, InstanceId)>,
}

pub open spec fn batches_of(s: Seq<BatchBuf>) -> Seq<BatchModel> {
    Seq::new(s.len(), |i: int| s[i]@)
}

pub open spec fn latches_of(s: Seq<Latch>) -> Seq<LatchModel> {
    Seq::new(s.len(), |i: int| s[i]@)
}

pub open spec fn folds_of(s: Seq<FoldEntry>) -> Seq<FoldEntryModel> {
    Seq::new(s.len(), |i: int| s[i]@)
}

impl View for Routed {
    type V = Frame;

    open spec fn view(&self) -> Frame {
        Frame {
            triggers: trigs_of(self.triggers@),
            batches: batches_of(self.batches@),
            latches: latches_of(self.latches@),
            folds: folds_of(self.folds@),
            fold_hits: self.fold_hits@,
        }
    }
}

/// The first batch of the subscriber, or the length.
pub open spec fn batch_at(s: Seq<BatchModel>, calc: CalcId, sub: InstanceId) -> int
    decreases s.len(),
{
    if s.len() == 0 {
        0
    } else if s[0].calc == calc && s[0].sub == sub {
        0
    } else {
        1 + batch_at(s.drop_first(), calc, sub)
    }
}

pub proof fn lemma_batch_at(s: Seq<BatchModel>, calc: CalcId, sub: InstanceId, n: int)
    requires
        0 <= n <= s.len(),
        forall|i: int| 0 <= i < n ==> !((#[trigger] s[i]).calc == calc && s[i].sub == sub),
        n < s.len() ==> s[n].calc == calc && s[n].sub == sub,
    ensures
        batch_at(s, calc, sub) == n,
    decreases n,
{
    if n > 0 {
        let t = s.drop_first();
        assert forall|i: int| 0 <= i < n - 1 implies !((#[trigger] t[i]).calc == calc && t[i].sub
            == sub) by {
            assert(t[i] == s[i + 1]);
        }
        if n < s.len() {
            assert(t[n - 1] == s[n]);
        }
        lemma_batch_at(t, calc, sub, n - 1);
    }
}

/// The first latch of the subscriber, or the length.
pub open spec fn latch_at(s: Seq<LatchModel>, calc: CalcId, sub: InstanceId) -> int
    decreases s.len(),
{
    if s.len() == 0 {
        0
    } else if s[0].calc == calc && s[0].sub == sub {
        0
    } else {
        1 + latch_at(s.drop_first(), calc, sub)
    }
}

pub proof fn lemma_latch_at(s: Seq<LatchModel>, calc: CalcId, sub: InstanceId, n: int)
    requires
        0 <= n <= s.len(),
        forall|i: int| 0 <= i < n ==> !((#[trigger] s[i]).calc == calc && s[i].sub == sub),
        n < s.len() ==> s[n].calc == calc && s[n].sub == sub,
    ensures
        latch_at(s, calc, sub) == n,
    decreases n,
{
    if n > 0 {
        let t = s.drop_first();
        assert forall|i: int| 0 <= i < n - 1 implies !((#[trigger] t[i]).calc == calc && t[i].sub
            == sub) by {
            assert(t[i] == s[i + 1]);
        }
        if n < s.len() {
            assert(t[n - 1] == s[n]);
        }
        lemma_latch_at(t, calc, sub, n - 1);
    }
}

/// The first aggregate of the subscriber, or the length.
pub open spec fn fold_at(s: Seq<FoldEntryModel>, calc: CalcId, sub: InstanceId) -> int
    decreases s.len(),
{
    if s.len() == 0 {
        0
    } else if s[0].calc == calc && s[0].sub == sub {
        0
    } else {
        1 + fold_at(s.drop_first(), calc, sub)
    }
}

pub proof fn lemma_fold_at(s: Seq<FoldEntryModel>, calc: CalcId, sub: InstanceId, n: int)
    requires
        0 <= n <= s.len(),
        forall|i: int| 0 <= i < n ==> !((#[trigger] s[i]).calc == calc && s[i].sub == sub),
        n < s.len() ==> s[n].calc == calc && s[n].sub == sub,
    ensures
        fold_at(s, calc, sub) == n,
    decreases n,
{
    if n > 0 {
        let t = s.drop_first();
        assert forall|i: int| 0 <= i < n - 1 implies !((#[trigger] t[i]).calc == calc && t[i].sub
            == sub) by {
            assert(t[i] == s[i + 1]);
        }
        if n < s.len() {
            assert(t[n - 1] == s[n]);
        }
        lemma_fold_at(t, calc, sub, n - 1);
    }
}

/// All groups were written to.
pub open spec fn all_seen(seen: Seq<bool>) -> bool {
    forall|i: int| 0 <= i < seen.len() ==> seen[i]
}

/// The latches after a hit in `group`, and whether it completed the conjunction for the
/// first time in the frame.
pub open spec fn latch_step(
    s: Seq<LatchModel>,
    calc: CalcId,
    sub: InstanceId,
    n_groups: u32,
    group: u32,
) -> (Seq<LatchModel>, bool) {
    let i = latch_at(s, calc, sub);
    let before = if i < s.len() {
        s[i]
    } else {
        LatchModel { calc, sub, seen: Seq::new(n_groups as nat, |k: int| false), fired: false }
    };
    let seen = before.seen.update(group as int, true);
    let full = all_seen(seen);
    let after = LatchModel { calc, sub, seen, fired: before.fired || full };
    (
        if i < s.len() {
            s.update(i, after)
        } else {
            s.push(after)
        },
        full && !before.fired,
    )
}

/// The frame after a delivery that is not held back.
pub open spec fn deliver_now(
    f: Frame,
    info: CalcInfo,
    calc: CalcId,
    sub: InstanceId,
    w: WriteModel,
    store: Store,
) -> Frame {
    let env = env_of(store, sub, w.new, w.old);
    match info.pred.delivery {
        Delivery::Each(projs) => Frame {
            triggers: f.triggers.push(
                Trig {
                    calc,
                    sub,
                    input: InputModel::Each(projection(projs@, w.inst, env)),
                },
            ),
            ..f
        },
        Delivery::Batch(projs) => {
            let row = RowModel { key: batch_key(w), row: projection(projs@, w.inst, env) };
            let i = batch_at(f.batches, calc, sub);
            Frame {
                batches: if i < f.batches.len() {
                    f.batches.update(
                        i,
                        BatchModel { calc, sub, rows: f.batches[i].rows.push(row) },
                    )
                } else {
                    f.batches.push(BatchModel { calc, sub, rows: seq![row] })
                },
                ..f
            }
        },
        Delivery::Fold(op) => {
            let i = fold_at(f.folds, calc, sub);
            let cell = CellAddr { inst: w.inst, field: w.field };
            let before = if i < f.folds.len() {
                f.folds[i].acc
            } else {
                fold_start(op)
            };
            let after = FoldEntryModel {
                calc,
                sub,
                acc: fold_step(op, before, cell, w.old, w.new),
            };
            Frame {
                folds: if i < f.folds.len() {
                    f.folds.update(i, after)
                } else {
                    f.folds.push(after)
                },
                fold_hits: if f.fold_hits.contains((calc, sub)) {
                    f.fold_hits
                } else {
                    f.fold_hits.push((calc, sub))
                },
                ..f
            }
        },
    }
}

/// The frame after a hit whose condition holds. Where several groups must be written to,
/// the hit that completes them delivers, once per frame.
pub open spec fn deliver_step(
    f: Frame,
    info: CalcInfo,
    calc: CalcId,
    group: u32,
    sub: InstanceId,
    w: WriteModel,
    store: Store,
) -> Frame {
    if info.n_groups > 1 {
        let (latches, fire) = latch_step(f.latches, calc, sub, info.n_groups, group);
        let g = Frame { latches, ..f };
        if fire {
            deliver_now(g, info, calc, sub, w, store)
        } else {
            g
        }
    } else {
        deliver_now(f, info, calc, sub, w, store)
    }
}

/// The aggregate belongs to a calculation that folds, and is of its kind.
pub open spec fn fold_entry_ok(e: FoldEntryModel, infos: Seq<CalcInfo>) -> bool {
    &&& e.calc.0 < infos.len()
    &&& e.sub.ty == infos[e.calc.0 as int].ty
    &&& infos[e.calc.0 as int].pred.delivery is Fold
    &&& acc_fits(infos[e.calc.0 as int].pred.delivery->Fold_0, e.acc)
}

pub open spec fn folds_ok(folds: Seq<FoldEntryModel>, infos: Seq<CalcInfo>) -> bool {
    forall|i: int| 0 <= i < folds.len() ==> fold_entry_ok(#[trigger] folds[i], infos)
}

/// The trigger names a registered calculation and an instance of its type.
pub open spec fn trig_ok(t: Trig, infos: Seq<CalcInfo>) -> bool {
    t.calc.0 < infos.len() && t.sub.ty == infos[t.calc.0 as int].ty
}

pub open spec fn trigs_ok(ts: Seq<Trig>, infos: Seq<CalcInfo>) -> bool {
    forall|i: int| 0 <= i < ts.len() ==> trig_ok(#[trigger] ts[i], infos)
}

pub open spec fn frame_ok(f: Frame, infos: Seq<CalcInfo>) -> bool {
    &&& folds_ok(f.folds, infos)
    &&& trigs_ok(f.triggers, infos)
    &&& forall|i: int|
        0 <= i < f.batches.len() ==> (#[trigger] f.batches[i]).calc.0 < infos.len()
            && f.batches[i].sub.ty == infos[f.batches[i].calc.0 as int].ty
    &&& forall|i: int|
        0 <= i < f.latches.len() ==> (#[trigger] f.latches[i]).calc.0 < infos.len()
            && f.latches[i].seen.len() == infos[f.latches[i].calc.0 as int].n_groups
    &&& forall|i: int|
        0 <= i < f.fold_hits.len() ==> (#[trigger] f.fold_hits[i]).0.0 < infos.len()
            && infos[f.fold_hits[i].0.0 as int].pred.delivery is Fold && fold_at(
            f.folds,
            f.fold_hits[i].0,
            f.fold_hits[i].1,
        ) < f.folds.len()
}

impl Routed {
    fn find_batch(&self, calc: CalcId, sub: InstanceId) -> (r: usize)
        requires
            self.batch_places.indexes(batch_keys(self@.batches)),
        ensures
            r == batch_at(self@.batches, calc, sub),
            r <= self.batches@.len(),
            r == self.batches@.len() ==> self.batch_places.place((calc.0, sub)) is None,
    {
        proof {
            let bs = self@.batches;
            let keys = batch_keys(bs);
            let p = self.batch_places.place((calc.0, sub));
            let n = if p is Some {
                p->0 as int
            } else {
                bs.len() as int
            };
            assert forall|j: int| 0 <= j < n implies !((#[trigger] bs[j]).calc == calc && bs[j].sub
                == sub) by {
                assert(self.batch_places.place(keys[j]) == Some(j as usize));
            }
            if p is Some {
                assert(keys[n] == (calc.0, sub));
            }
            lemma_batch_at(bs, calc, sub, n);
        }
        match self.batch_places.get((calc.0, sub)) {
            Some(i) => i,
            None => self.batches.len(),
        }
    }

    fn find_latch(&self, calc: CalcId, sub: InstanceId) -> (r: usize)
        requires
            self.latch_places.indexes(latch_keys(self@.latches)),
        ensures
            r == latch_at(self@.latches, calc, sub),
            r <= self.latches@.len(),
            r < self.latches@.len() ==> self.latches@[r as int].calc == calc
                && self.latches@[r as int].sub == sub,
            r == self.latches@.len() ==> self.latch_places.place((calc.0, sub)) is None,
    {
        proof {
            let ls = self@.latches;
            let keys = latch_keys(ls);
            let p = self.latch_places.place((calc.0, sub));
            let n = if p is Some {
                p->0 as int
            } else {
                ls.len() as int
            };
            assert forall|j: int| 0 <= j < n implies !((#[trigger] ls[j]).calc == calc && ls[j].sub
                == sub) by {
                assert(self.latch_places.place(keys[j]) == Some(j as usize));
            }
            if p is Some {
                assert(keys[n] == (calc.0, sub));
            }
            lemma_latch_at(ls, calc, sub, n);
        }
        match self.latch_places.get((calc.0, sub)) {
            Some(i) => i,
            None => self.latches.len(),
        }
    }
}

/// Whether all groups were written to.
fn is_all_seen(seen: &Vec<bool>) -> (r: bool)
    ensures
        r == all_seen(seen@),
{
    let mut i: usize = 0;
    while i < seen.len()
        invariant
            i <= seen@.len(),
            forall|j: int| 0 <= j < i ==> seen@[j],
        decreases seen@.len() - i,
    {
        if !seen[i] {
            return false;
        }
        i = i + 1;
    }
    true
}

impl Routed {
    pub open spec fn ok(self, infos: Seq<CalcInfo>) -> bool {
        &&& frame_ok(self@, infos)
        &&& self.batch_places.indexes(batch_keys(self@.batches))
        &&& self.latch_places.indexes(latch_keys(self@.latches))
        &&& self.folds.wf()
        &&& self.hit_places.indexes(hit_keys(self.fold_hits@))
    }

    /// Records a hit in a group, and says whether it completed the conjunction.
    fn latch_hit(
        &mut self,
        calc: CalcId,
        sub: InstanceId,
        n_groups: u32,
        group: u32,
        infos: Ghost<Seq<CalcInfo>>,
    ) -> (r: bool)
        requires
            old(self).ok(infos@),
            calc.0 < infos@.len(),
            infos@[calc.0 as int].n_groups == n_groups,
            group < n_groups,
        ensures
            final(self).ok(infos@),
            final(self)@ == (Frame {
                latches: latch_step(old(self)@.latches, calc, sub, n_groups, group).0,
                ..old(self)@
            }),
            r == latch_step(old(self)@.latches, calc, sub, n_groups, group).1,
    {
        let ghost before = self@;
        let i = self.find_latch(calc, sub);
        if i == self.latches.len() {
            let mut seen = crate::column::filled(false, n_groups as usize);
            seen.set(group as usize, true);
            let full = is_all_seen(&seen);
            proof {
                assert(seen@ =~= Seq::new(n_groups as nat, |k: int| false).update(
                    group as int,
                    true,
                ));
            }
            self.latch_places.put((calc.0, sub), i, Ghost(latch_keys(before.latches)));
            self.latches.push(Latch { calc, sub, seen, fired: full });
            proof {
                assert(latch_keys(self@.latches) =~= latch_keys(before.latches).push((calc.0, sub)));
                let want = latch_step(before.latches, calc, sub, n_groups, group).0;
                assert(self@.latches =~= want);
                assert forall|k: int| 0 <= k < self@.latches.len() implies (
                #[trigger] self@.latches[k]).calc.0 < infos@.len() && self@.latches[k].seen.len()
                    == infos@[self@.latches[k].calc.0 as int].n_groups by {
                    if k < before.latches.len() {
                        assert(self@.latches[k] == before.latches[k]);
                    }
                }
            }
            full
        } else {
            proof {
                assert(before.latches[i as int].seen.len() == n_groups);
            }
            let fired = self.latches[i].fired;
            self.latches[i].seen.set(group as usize, true);
            let full = is_all_seen(&self.latches[i].seen);
            self.latches[i].fired = fired || full;
            proof {
                assert(latch_keys(self@.latches) =~= latch_keys(before.latches));
                let want = latch_step(before.latches, calc, sub, n_groups, group).0;
                assert(self@.latches =~= want);
                assert forall|k: int| 0 <= k < self@.latches.len() implies (
                #[trigger] self@.latches[k]).calc.0 < infos@.len() && self@.latches[k].seen.len()
                    == infos@[self@.latches[k].calc.0 as int].n_groups by {
                    assert(before.latches[k].calc.0 < infos@.len());
                }
            }
            full && !fired
        }
    }

    fn deliver_each(
        &mut self,
        calc: CalcId,
        sub: InstanceId,
        row: Vec<Value>,
        infos: Ghost<Seq<CalcInfo>>,
    )
        requires
            old(self).ok(infos@),
            calc.0 < infos@.len(),
            sub.ty == infos@[calc.0 as int].ty,
        ensures
            final(self).ok(infos@),
            final(self)@ == (Frame {
                triggers: old(self)@.triggers.push(
                    Trig { calc, sub, input: InputModel::Each(vals_of(row@)) },
                ),
                ..old(self)@
            }),
    {
        let ghost before = self@;
        let ghost t = Trig { calc, sub, input: InputModel::Each(vals_of(row@)) };
        self.triggers.push(Trigger { calc, subscriber: sub, input: Input::Each(row) });
        assert(self@.triggers =~= before.triggers.push(t));
        assert(trig_ok(t, infos@));
    }

    fn deliver_batch(
        &mut self,
        calc: CalcId,
        sub: InstanceId,
        key: BatchKey,
        row: Vec<Value>,
        infos: Ghost<Seq<CalcInfo>>,
    )
        requires
            old(self).ok(infos@),
            calc.0 < infos@.len(),
            sub.ty == infos@[calc.0 as int].ty,
        ensures
            final(self).ok(infos@),
            final(self)@ == ({
                let f = old(self)@;
                let m = RowModel { key, row: vals_of(row@) };
                let i = batch_at(f.batches, calc, sub);
                Frame {
                    batches: if i < f.batches.len() {
                        f.batches.update(
                            i,
                            BatchModel { calc, sub, rows: f.batches[i].rows.push(m) },
                        )
                    } else {
                        f.batches.push(BatchModel { calc, sub, rows: seq![m] })
                    },
                    ..f
                }
            }),
    {
        let ghost f = self@;
        let ghost m = RowModel { key, row: vals_of(row@) };
        let i = self.find_batch(calc, sub);
        if i < self.batches.len() {
            let ghost rows0 = self.batches@[i as int].rows@;
            self.batches[i].rows.push(BatchRow { key, row });
            proof {
                lemma_batch_found(f.batches, calc, sub);
                assert(rows_model(self.batches@[i as int].rows@) =~= rows_model(rows0).push(m));
                assert(self@.batches =~= f.batches.update(
                    i as int,
                    BatchModel { calc, sub, rows: f.batches[i as int].rows.push(m) },
                ));
                assert(batch_keys(self@.batches) =~= batch_keys(f.batches));
            }
        } else {
            let mut rows: Vec<BatchRow> = Vec::new();
            rows.push(BatchRow { key, row });
            proof {
                assert(rows_model(rows@) =~= seq![m]);
            }
            self.batch_places.put((calc.0, sub), i, Ghost(batch_keys(f.batches)));
            self.batches.push(BatchBuf { calc, sub, rows });
            proof {
                assert(batch_keys(self@.batches) =~= batch_keys(f.batches).push((calc.0, sub)));
                assert(self@.batches =~= f.batches.push(
                    BatchModel { calc, sub, rows: seq![m] },
                ));
            }
        }
        proof {
            assert forall|k: int| 0 <= k < self@.batches.len() implies (
            #[trigger] self@.batches[k]).calc.0 < infos@.len() && self@.batches[k].sub.ty
                == infos@[self@.batches[k].calc.0 as int].ty by {
                if k < f.batches.len() && k != i {
                    assert(self@.batches[k] == f.batches[k]);
                }
            }
        }
    }

    fn has_fold_hit(&self, calc: CalcId, sub: InstanceId) -> (r: bool)
        requires
            self.hit_places.indexes(hit_keys(self.fold_hits@)),
        ensures
            r == self@.fold_hits.contains((calc, sub)),
            !r ==> self.hit_places.place((calc.0, sub)) is None,
    {
        let p = self.hit_places.get((calc.0, sub));
        proof {
            let hs = self.fold_hits@;
            let keys = hit_keys(hs);
            if p is Some {
                assert(keys[p->0 as int] == (calc.0, sub));
                assert(hs[p->0 as int] == (calc, sub));
            } else if hs.contains((calc, sub)) {
                let k = choose|k: int| 0 <= k < hs.len() && hs[k] == (calc, sub);
                assert(self.hit_places.place(keys[k]) == Some(k as usize));
            }
        }
        p.is_some()
    }

    fn deliver_fold(
        &mut self,
        op: FoldOp,
        calc: CalcId,
        sub: InstanceId,
        w: &WriteRec,
        infos: Ghost<Seq<CalcInfo>>,
    )
        requires
            old(self).ok(infos@),
            calc.0 < infos@.len(),
            sub.ty == infos@[calc.0 as int].ty,
            infos@[calc.0 as int].pred.delivery == Delivery::Fold(op),
        ensures
            final(self).ok(infos@),
            final(self)@ == ({
                let f = old(self)@;
                let i = fold_at(f.folds, calc, sub);
                let cell = CellAddr { inst: w.inst, field: w.field };
                let before = if i < f.folds.len() {
                    f.folds[i].acc
                } else {
                    fold_start(op)
                };
                let after = FoldEntryModel {
                    calc,
                    sub,
                    acc: fold_step(op, before, cell, w@.old, w@.new),
                };
                Frame {
                    folds: if i < f.folds.len() {
                        f.folds.update(i, after)
                    } else {
                        f.folds.push(after)
                    },
                    fold_hits: if f.fold_hits.contains((calc, sub)) {
                        f.fold_hits
                    } else {
                        f.fold_hits.push((calc, sub))
                    },
                    ..f
                }
            }),
    {
        let ghost f = self@;
        let cell = CellAddr { inst: w.inst, field: w.field };
        let i = self.folds.find(calc, sub);
        if i == self.folds.len() {
            let mut acc = fold_init(op);
            apply_fold(op, &mut acc, cell, &w.old, &w.new);
            self.folds.push(FoldEntry { calc, sub, acc });
            proof {
                assert(self@.folds =~= f.folds.push(self.folds@[i as int]@));
            }
        } else {
            proof {
                assert(fold_entry_ok(f.folds[i as int], infos@));
            }
            apply_fold(op, &mut self.folds.entries[i].acc, cell, &w.old, &w.new);
            proof {
                assert(self@.folds =~= f.folds.update(i as int, self.folds@[i as int]@));
                assert(fold_keys(self@.folds) =~= fold_keys(f.folds));
            }
        }
        let ghost mid = self@.folds;
        proof {
            assert forall|k: int| 0 <= k < mid.len() implies fold_entry_ok(
                #[trigger] mid[k],
                infos@,
            ) by {
                if k != i {
                    assert(mid[k] == f.folds[k]);
                }
            }
        }
        if !self.has_fold_hit(calc, sub) {
            let n = self.fold_hits.len();
            let ghost hs = self.fold_hits@;
            self.hit_places.put((calc.0, sub), n, Ghost(hit_keys(hs)));
            self.fold_hits.push((calc, sub));
            assert(hit_keys(self.fold_hits@) =~= hit_keys(hs).push((calc.0, sub)));
        }
        proof {
            lemma_fold_keys(f.folds, mid, calc, sub);
            assert forall|k: int| 0 <= k < self@.fold_hits.len() implies (
            #[trigger] self@.fold_hits[k]).0.0 < infos@.len()
                && infos@[self@.fold_hits[k].0.0 as int].pred.delivery is Fold && fold_at(
                self@.folds,
                self@.fold_hits[k].0,
                self@.fold_hits[k].1,
            ) < self@.folds.len() by {
                if k < f.fold_hits.len() {
                    assert(self@.fold_hits[k] == f.fold_hits[k]);
                }
            }
        }
    }

    /// Takes in a hit whose condition holds.
    pub fn deliver(
        &mut self,
        infos: &Vec<CalcInfo>,
        calc: CalcId,
        group: u32,
        sub: InstanceId,
        w: &WriteRec,
        store: &Store,
    )
        requires
            old(self).ok(infos@),
            store.wf(),
            calc.0 < infos@.len(),
            group < infos@[calc.0 as int].n_groups,
            sub.ty == infos@[calc.0 as int].ty,
        ensures
            final(self).ok(infos@),
            final(self)@ == deliver_step(
                old(self)@,
                infos@[calc.0 as int],
                calc,
                group,
                sub,
                w@,
                *store,
            ),
    {
        let info = &infos[calc.0 as usize];
        if info.n_groups > 1 {
            if !self.latch_hit(calc, sub, info.n_groups, group, Ghost(infos@)) {
                return;
            }
        }
        let ctx = EvalCtx { store, sub, new: &w.new, old: &w.old };
        match &info.pred.delivery {
            Delivery::Each(projs) => {
                let row = project(projs, w.inst, &ctx);
                self.deliver_each(calc, sub, row, Ghost(infos@));
            },
            Delivery::Batch(projs) => {
                let row = project(projs, w.inst, &ctx);
                let key = BatchKey {
                    ty: w.inst.ty.0,
                    id: w.inst.id,
                    generation: w.inst.generation,
                    field: w.field.0,
                };
                self.deliver_batch(calc, sub, key, row, Ghost(infos@));
            },
            Delivery::Fold(op) => {
                self.deliver_fold(*op, calc, sub, w, Ghost(infos@));
            },
        }
    }
}

pub proof fn lemma_batch_found(s: Seq<BatchModel>, calc: CalcId, sub: InstanceId)
    ensures
        0 <= batch_at(s, calc, sub) <= s.len(),
        batch_at(s, calc, sub) < s.len() ==> s[batch_at(s, calc, sub)].calc == calc && s[batch_at(
            s,
            calc,
            sub,
        )].sub == sub,
    decreases s.len(),
{
    if s.len() > 0 && !(s[0].calc == calc && s[0].sub == sub) {
        lemma_batch_found(s.drop_first(), calc, sub);
    }
}

pub proof fn lemma_fold_found(s: Seq<FoldEntryModel>, calc: CalcId, sub: InstanceId)
    ensures
        0 <= fold_at(s, calc, sub) <= s.len(),
        fold_at(s, calc, sub) < s.len() ==> s[fold_at(s, calc, sub)].calc == calc && s[fold_at(
            s,
            calc,
            sub,
        )].sub == sub,
        forall|i: int|
            0 <= i < fold_at(s, calc, sub) ==> !((#[trigger] s[i]).calc == calc && s[i].sub == sub),
    decreases s.len(),
{
    if s.len() > 0 && !(s[0].calc == calc && s[0].sub == sub) {
        let t = s.drop_first();
        lemma_fold_found(t, calc, sub);
        assert forall|i: int| 0 <= i < fold_at(s, calc, sub) implies !((#[trigger] s[i]).calc
            == calc && s[i].sub == sub) by {
            if i > 0 {
                assert(t[i - 1] == s[i]);
            }
        }
    }
}

/// An update of an aggregate, or a new one, loses no aggregate.
proof fn lemma_fold_keys(
    a: Seq<FoldEntryModel>,
    b: Seq<FoldEntryModel>,
    calc: CalcId,
    sub: InstanceId,
)
    requires
        ({
            let i = fold_at(a, calc, sub);
            if i < a.len() {
                b.len() == a.len() && b == a.update(i, b[i]) && b[i].calc == calc && b[i].sub == sub
            } else {
                b.len() == a.len() + 1 && b == a.push(b[i]) && b[i].calc == calc && b[i].sub == sub
            }
        }),
    ensures
        fold_at(b, calc, sub) < b.len(),
        forall|c: CalcId, s: InstanceId|
            fold_at(a, c, s) < a.len() ==> #[trigger] fold_at(b, c, s) < b.len(),
{
    lemma_fold_found(a, calc, sub);
    let i = fold_at(a, calc, sub);
    assert forall|c: CalcId, s: InstanceId|
        (fold_at(a, c, s) < a.len() || c == calc && s == sub) implies #[trigger] fold_at(b, c, s)
        < b.len() by {
        lemma_fold_found(a, c, s);
        lemma_fold_found(b, c, s);
        let k = if fold_at(a, c, s) < a.len() {
            fold_at(a, c, s)
        } else {
            i
        };
        assert(b[k].calc == c && b[k].sub == s);
    }
    assert(fold_at(b, calc, sub) < b.len());
}

}
