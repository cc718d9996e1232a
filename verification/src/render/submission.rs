//! What a render frame hands to a renderer: one packet per visible instance, in a stable
//! order, and the same as rows of fixed shape.
use crate::entity::EntityTypeId;
use crate::entity::InstanceId;
use crate::float64::of_int;
use crate::float64::F64;
use crate::render::clock::to_unit;
use crate::render::clock::unit;
use crate::render::instance_row::bytes_of;
use crate::render::instance_row::row_from_semantic;
use crate::render::instance_row::RowModel;
use crate::render::instance_row::Semantics;
use crate::render::instance_row::SubmissionInstanceKey;
use crate::render::instance_row::SubmissionInstanceRow;
use crate::render::instance_row::BYTE_LEN;
use crate::render::local::LocalStore;
use crate::render::local::RenderLocalId;
use crate::render::local::RenderLocalTypeId;
use crate::render::store::RFieldId;
use crate::render::store::RenderStore;
use crate::value::Val;
use crate::value::Value;
use core::ops::Range;
use vstd::prelude::*;

verus! {

/// The render fields that fill the parts of a packet. A part without a field is empty: no
/// transform, no handle, phase zero, not faded, and visible.
#[derive(Clone, Copy, Debug)]
pub struct RenderBinding {
    pub translation: Option<RFieldId>,
    pub rotation: Option<RFieldId>,
    pub scale: Option<RFieldId>,
    pub mesh: Option<RFieldId>,
    pub material: Option<RFieldId>,
    /// Hidden where the field is `false`.
    pub visibility: Option<RFieldId>,
    pub anim_state: Option<RFieldId>,
    pub anim_phase: Option<RFieldId>,
    /// Drawn where the field is above zero.
    pub fade: Option<RFieldId>,
}

impl Default for RenderBinding {
    fn default() -> (r: RenderBinding)
        ensures
            r.fields() == Seq::new(9, |i: int| None::<RFieldId>),
    {
        let r = RenderBinding {
            translation: None,
            rotation: None,
            scale: None,
            mesh: None,
            material: None,
            visibility: None,
            anim_state: None,
            anim_phase: None,
            fade: None,
        };
        assert(r.fields() =~= Seq::new(9, |i: int| None::<RFieldId>));
        r
    }
}

impl RenderBinding {
    /// The fields in the order of the parts.
    pub open spec fn fields(self) -> Seq<Option<RFieldId>> {
        seq![
            self.translation,
            self.rotation,
            self.scale,
            self.mesh,
            self.material,
            self.visibility,
            self.anim_state,
            self.anim_phase,
            self.fade,
        ]
    }

    /// How much is left of what fades.
    pub open spec fn fade_of(self, read: spec_fn(RFieldId) -> Val) -> F64 {
        match self.fade {
            None => of_int(1),
            Some(f) => match read(f).num() {
                Some(x) => unit(x),
                None => of_int(0),
            },
        }
    }

    /// Hidden, or faded away.
    pub open spec fn hides(self, read: spec_fn(RFieldId) -> Val) -> bool {
        ||| self.visibility is Some && read(self.visibility->0) == Val::Bool(false)
        ||| !of_int(0).flt(self.fade_of(read))
    }

    /// What a packet shows.
    pub open spec fn shows(self, read: spec_fn(RFieldId) -> Val) -> Semantics {
        Semantics {
            translation: part(self.translation, read),
            rotation: part(self.rotation, read),
            scale: part(self.scale, read),
            mesh: part(self.mesh, read),
            material: part(self.material, read),
            anim_state: part(self.anim_state, read),
            anim_phase: match part(self.anim_phase, read).num() {
                Some(x) => x,
                None => of_int(0),
            },
            fade: self.fade_of(read),
        }
    }
}

/// The value of a part.
pub open spec fn part(f: Option<RFieldId>, read: spec_fn(RFieldId) -> Val) -> Val {
    match f {
        Some(f) => read(f),
        None => Val::Null,
    }
}

/// The fields of a binding, with the names of their parts.
pub fn render_binding_fields(binding: &RenderBinding) -> (r: [(&'static str, Option<RFieldId>); 9])
    ensures
        forall|i: int| 0 <= i < 9 ==> (#[trigger] r@[i]).1 == binding.fields()[i],
        r@[0].0@ == "translation"@,
        r@[1].0@ == "rotation"@,
        r@[2].0@ == "scale"@,
        r@[3].0@ == "mesh"@,
        r@[4].0@ == "material"@,
        r@[5].0@ == "visibility"@,
        r@[6].0@ == "anim_state"@,
        r@[7].0@ == "anim_phase"@,
        r@[8].0@ == "fade"@,
{
    [
        ("translation", binding.translation),
        ("rotation", binding.rotation),
        ("scale", binding.scale),
        ("mesh", binding.mesh),
        ("material", binding.material),
        ("visibility", binding.visibility),
        ("anim_state", binding.anim_state),
        ("anim_phase", binding.anim_phase),
        ("fade", binding.fade),
    ]
}

/// Something with render fields.
pub trait Fields: Sized {
    spec fn ready(&self) -> bool;

    spec fn val(&self, f: RFieldId) -> Val;

    fn field(&self, f: RFieldId) -> (r: Value)
        requires
            self.ready(),
        ensures
            r@ == self.val(f),
    ;
}

/// An instance of the simulation.
pub struct OfInstance<'a> {
    pub store: &'a RenderStore,
    pub inst: InstanceId,
}

impl<'a> Fields for OfInstance<'a> {
    open spec fn ready(&self) -> bool {
        self.store.wf()
    }

    open spec fn val(&self, f: RFieldId) -> Val {
        self.store.value(self.inst, f)
    }

    fn field(&self, f: RFieldId) -> (r: Value) {
        self.store.read_render(self.inst, f)
    }
}

/// A local entity.
pub struct OfLocal<'a> {
    pub store: &'a LocalStore,
    pub local: RenderLocalId,
}

impl<'a> Fields for OfLocal<'a> {
    open spec fn ready(&self) -> bool {
        self.store.wf()
    }

    open spec fn val(&self, f: RFieldId) -> Val {
        self.store.value(self.local, f)
    }

    fn field(&self, f: RFieldId) -> (r: Value) {
        self.store.read(self.local, f)
    }
}

/// The fields of something, as a function.
pub open spec fn reader<T: Fields>(x: T) -> spec_fn(RFieldId) -> Val {
    |f: RFieldId| x.val(f)
}

fn read_opt<T: Fields>(x: &T, f: Option<RFieldId>) -> (r: Value)
    requires
        x.ready(),
    ensures
        r@ == part(f, reader(*x)),
{
    match f {
        Some(f) => x.field(f),
        None => Value::Null,
    }
}

/// What is left of something that fades, or nothing where it is not drawn.
fn drawn<T: Fields>(b: &RenderBinding, x: &T) -> (r: Option<F64>)
    requires
        x.ready(),
    ensures
        r is None <==> b.hides(reader(*x)),
        r is Some ==> r->0 == b.fade_of(reader(*x)),
{
    if let Some(vf) = b.visibility {
        if let Value::Bool(false) = x.field(vf) {
            return None;
        }
    }
    let zero = F64::from_i64(0);
    let fade = match b.fade {
        None => F64::from_i64(1),
        Some(f) => match x.field(f).as_f64() {
            Some(v) => to_unit(v),
            None => zero,
        },
    };
    if zero.lt(fade) {
        Some(fade)
    } else {
        None
    }
}

/// The phase of the animation.
fn phase_of<T: Fields>(b: &RenderBinding, x: &T) -> (r: F64)
    requires
        x.ready(),
    ensures
        r == b.shows(reader(*x)).anim_phase,
{
    match read_opt(x, b.anim_phase).as_f64() {
        Some(p) => p,
        None => F64::from_i64(0),
    }
}

/// What is drawn of an instance.
#[derive(Debug)]
pub struct RenderPacket {
    pub inst: InstanceId,
    pub translation: Value,
    pub rotation: Value,
    pub scale: Value,
    pub mesh: Value,
    pub material: Value,
    pub anim_state: Value,
    pub anim_phase: F64,
    pub fade: F64,
}

impl View for RenderPacket {
    type V = (InstanceId, Semantics);

    open spec fn view(&self) -> (InstanceId, Semantics) {
        (
            self.inst,
            Semantics {
                translation: self.translation@,
                rotation: self.rotation@,
                scale: self.scale@,
                mesh: self.mesh@,
                material: self.material@,
                anim_state: self.anim_state@,
                anim_phase: self.anim_phase,
                fade: self.fade,
            },
        )
    }
}

pub open spec fn packets_of(ps: Seq<RenderPacket>) -> Seq<(InstanceId, Semantics)> {
    Seq::new(ps.len(), |i: int| ps[i]@)
}

/// What is drawn of a local entity.
#[derive(Debug)]
pub struct RenderLocalPacket {
    pub local: RenderLocalId,
    pub translation: Value,
    pub rotation: Value,
    pub scale: Value,
    pub mesh: Value,
    pub material: Value,
    pub anim_state: Value,
    pub anim_phase: F64,
    pub fade: F64,
}

impl View for RenderLocalPacket {
    type V = (RenderLocalId, Semantics);

    open spec fn view(&self) -> (RenderLocalId, Semantics) {
        (
            self.local,
            Semantics {
                translation: self.translation@,
                rotation: self.rotation@,
                scale: self.scale@,
                mesh: self.mesh@,
                material: self.material@,
                anim_state: self.anim_state@,
                anim_phase: self.anim_phase,
                fade: self.fade,
            },
        )
    }
}

pub open spec fn local_packets_of(ps: Seq<RenderLocalPacket>) -> Seq<(RenderLocalId, Semantics)> {
    Seq::new(ps.len(), |i: int| ps[i]@)
}

impl SubmissionInstanceRow {
    /// The row of a packet.
    pub fn from_packet(packet: &RenderPacket, packet_index: u32) -> (r: SubmissionInstanceRow)
        ensures
            r@ == packet@.1.row(packet_index),
    {
        row_from_semantic(
            &packet.translation,
            &packet.rotation,
            &packet.scale,
            &packet.mesh,
            &packet.material,
            &packet.anim_state,
            packet.anim_phase,
            packet.fade,
            packet_index,
        )
    }

    /// The row of a local packet.
    pub fn from_local_packet(packet: &RenderLocalPacket, packet_index: u32) -> (r:
        SubmissionInstanceRow)
        ensures
            r@ == packet@.1.row(packet_index),
    {
        row_from_semantic(
            &packet.translation,
            &packet.rotation,
            &packet.scale,
            &packet.mesh,
            &packet.material,
            &packet.anim_state,
            packet.anim_phase,
            packet.fade,
            packet_index,
        )
    }
}

/// The instances of a type that are in view.
pub struct Bucket {
    pub ty: EntityTypeId,
    pub insts: Vec<InstanceId>,
}

/// The bucket of a type, or the number of buckets.
pub open spec fn bucket_at(bs: Seq<Bucket>, ty: EntityTypeId) -> int
    decreases bs.len(),
{
    if bs.len() == 0 || bs[0].ty == ty {
        0
    } else {
        1 + bucket_at(bs.drop_first(), ty)
    }
}

pub proof fn lemma_bucket_at(bs: Seq<Bucket>, ty: EntityTypeId, n: int)
    requires
        0 <= n <= bs.len(),
        forall|i: int| 0 <= i < n ==> (#[trigger] bs[i]).ty != ty,
        n < bs.len() ==> bs[n].ty == ty,
    ensures
        bucket_at(bs, ty) == n,
    decreases n,
{
    if n > 0 {
        let t = bs.drop_first();
        assert forall|i: int| 0 <= i < n - 1 implies (#[trigger] t[i]).ty != ty by {
            assert(t[i] == bs[i + 1]);
        }
        if n < bs.len() {
            assert(t[n - 1] == bs[n]);
        }
        lemma_bucket_at(t, ty, n - 1);
    }
}

pub fn find_bucket(bs: &Vec<Bucket>, ty: EntityTypeId) -> (r: usize)
    ensures
        r == bucket_at(bs@, ty),
        r <= bs@.len(),
        forall|i: int| 0 <= i < r ==> (#[trigger] bs@[i]).ty != ty,
        r < bs@.len() ==> bs@[r as int].ty == ty,
{
    let mut i: usize = 0;
    while i < bs.len()
        invariant
            i <= bs@.len(),
            forall|j: int| 0 <= j < i ==> (#[trigger] bs@[j]).ty != ty,
        ensures
            i <= bs@.len(),
            forall|j: int| 0 <= j < i ==> (#[trigger] bs@[j]).ty != ty,
            i < bs@.len() ==> bs@[i as int].ty == ty,
        decreases bs@.len() - i,
    {
        if bs[i].ty == ty {
            break;
        }
        i = i + 1;
    }
    proof {
        lemma_bucket_at(bs@, ty, i as int);
    }
    i
}

/// The instances of a type that may be drawn: those in view where the type is culled, and
/// otherwise all that are there.
pub open spec fn candidates(
    store: RenderStore,
    visible: Option<Seq<Bucket>>,
    ty: EntityTypeId,
) -> Seq<InstanceId> {
    match visible {
        Some(bs) if bucket_at(bs, ty) < bs.len() => bs[bucket_at(bs, ty)].insts@,
        _ => store.live(ty),
    }
}

/// The fields of an instance, as a function.
pub open spec fn fields_of(store: RenderStore, inst: InstanceId) -> spec_fn(RFieldId) -> Val {
    |f: RFieldId| store.value(inst, f)
}

/// The packets of the first `n` of some instances.
pub open spec fn type_packets(
    store: RenderStore,
    b: RenderBinding,
    insts: Seq<InstanceId>,
    n: int,
) -> Seq<(InstanceId, Semantics)>
    decreases n,
{
    if n <= 0 {
        Seq::empty()
    } else {
        let before = type_packets(store, b, insts, n - 1);
        let inst = insts[n - 1];
        let read = fields_of(store, inst);
        if !store.present(inst) || b.hides(read) {
            before
        } else {
            before.push((inst, b.shows(read)))
        }
    }
}

/// The packets of the first `n` types that are drawn.
pub open spec fn all_packets(
    store: RenderStore,
    renderables: Seq<(EntityTypeId, RenderBinding)>,
    visible: Option<Seq<Bucket>>,
    n: int,
) -> Seq<(InstanceId, Semantics)>
    decreases n,
{
    if n <= 0 {
        Seq::empty()
    } else {
        let (ty, b) = renderables[n - 1];
        let insts = candidates(store, visible, ty);
        all_packets(store, renderables, visible, n - 1) + type_packets(
            store,
            b,
            insts,
            insts.len() as int,
        )
    }
}

pub open spec fn seen(visible: Option<&Vec<Bucket>>) -> Option<Seq<Bucket>> {
    match visible {
        Some(bs) => Some(bs@),
        None => None,
    }
}

/// Assembles the packets of a frame: the types in the order of their registration, the
/// instances of a type in the order of their rows.
pub fn assemble(
    store: &RenderStore,
    renderables: &Vec<(EntityTypeId, RenderBinding)>,
    visible: Option<&Vec<Bucket>>,
) -> (r: SubmissionView)
    requires
        store.wf(),
        forall|i: int| 0 <= i < renderables@.len() ==> store.known((#[trigger] renderables@[i]).0),
    ensures
        packets_of(r.packets@) == all_packets(
            *store,
            renderables@,
            seen(visible),
            renderables@.len() as int,
        ),
{
    let mut packets: Vec<RenderPacket> = Vec::new();
    let mut i: usize = 0;
    assert(packets_of(packets@) =~= Seq::empty());
    while i < renderables.len()
        invariant
            store.wf(),
            forall|k: int|
                0 <= k < renderables@.len() ==> store.known((#[trigger] renderables@[k]).0),
            i <= renderables@.len(),
            packets_of(packets@) == all_packets(*store, renderables@, seen(visible), i as int),
        decreases renderables@.len() - i,
    {
        let ty = renderables[i].0;
        let b = renderables[i].1;
        let ghost before = packets_of(packets@);
        assert(store.known(renderables@[i as int].0));
        let insts: Vec<InstanceId> = match visible {
            Some(bs) => {
                let k = find_bucket(bs, ty);
                if k < bs.len() {
                    crate::column::copied(&bs[k].insts)
                } else {
                    store.live_instances(ty)
                }
            },
            None => store.live_instances(ty),
        };
        assert(insts@ == candidates(*store, seen(visible), ty));
        let mut j: usize = 0;
        assert(packets_of(packets@) =~= before + type_packets(*store, b, insts@, 0));
        while j < insts.len()
            invariant
                store.wf(),
                j <= insts@.len(),
                packets_of(packets@) == before + type_packets(*store, b, insts@, j as int),
            decreases insts@.len() - j,
        {
            let inst = insts[j];
            let x = OfInstance { store, inst };
            let ghost read = reader(x);
            let ghost p0 = packets_of(packets@);
            assert(read =~= fields_of(*store, inst));
            if store.is_present(inst) {
                if let Some(fade) = drawn(&b, &x) {
                    packets.push(
                        RenderPacket {
                            inst,
                            translation: read_opt(&x, b.translation),
                            rotation: read_opt(&x, b.rotation),
                            scale: read_opt(&x, b.scale),
                            mesh: read_opt(&x, b.mesh),
                            material: read_opt(&x, b.material),
                            anim_state: read_opt(&x, b.anim_state),
                            anim_phase: phase_of(&b, &x),
                            fade,
                        },
                    );
                    proof {
                        assert(packets_of(packets@) =~= p0.push((inst, b.shows(read))));
                        assert(packets_of(packets@) =~= before + type_packets(
                            *store,
                            b,
                            insts@,
                            j + 1,
                        ));
                    }
                }
            }
            j = j + 1;
        }
        i = i + 1;
    }
    SubmissionView { packets }
}

/// The fields of a local entity, as a function.
pub open spec fn local_fields_of(store: LocalStore, id: RenderLocalId) -> spec_fn(
    RFieldId,
) -> Val {
    |f: RFieldId| store.value(id, f)
}

/// The packets of the first `n` of some local entities.
pub open spec fn local_type_packets(
    store: LocalStore,
    b: RenderBinding,
    ids: Seq<RenderLocalId>,
    n: int,
) -> Seq<(RenderLocalId, Semantics)>
    decreases n,
{
    if n <= 0 {
        Seq::empty()
    } else {
        let before = local_type_packets(store, b, ids, n - 1);
        let read = local_fields_of(store, ids[n - 1]);
        if !store.present(ids[n - 1]) || b.hides(read) {
            before
        } else {
            before.push((ids[n - 1], b.shows(read)))
        }
    }
}

/// The packets of the first `n` local types that are drawn.
pub open spec fn all_local_packets(
    store: LocalStore,
    renderables: Seq<(RenderLocalTypeId, RenderBinding)>,
    n: int,
) -> Seq<(RenderLocalId, Semantics)>
    decreases n,
{
    if n <= 0 {
        Seq::empty()
    } else {
        let (ty, b) = renderables[n - 1];
        all_local_packets(store, renderables, n - 1) + local_type_packets(
            store,
            b,
            store.live(ty),
            store.live(ty).len() as int,
        )
    }
}

/// Assembles the packets of the local entities.
pub fn assemble_local(
    store: &LocalStore,
    renderables: &Vec<(RenderLocalTypeId, RenderBinding)>,
) -> (r: LocalSubmissionView)
    requires
        store.wf(),
    ensures
        local_packets_of(r.packets@) == all_local_packets(
            *store,
            renderables@,
            renderables@.len() as int,
        ),
{
    let mut packets: Vec<RenderLocalPacket> = Vec::new();
    let mut i: usize = 0;
    assert(local_packets_of(packets@) =~= Seq::empty());
    while i < renderables.len()
        invariant
            store.wf(),
            i <= renderables@.len(),
            local_packets_of(packets@) == all_local_packets(*store, renderables@, i as int),
        decreases renderables@.len() - i,
    {
        let ty = renderables[i].0;
        let b = renderables[i].1;
        let ghost before = local_packets_of(packets@);
        let ids = store.live_entities(ty);
        let mut j: usize = 0;
        assert(local_packets_of(packets@) =~= before + local_type_packets(*store, b, ids@, 0));
        while j < ids.len()
            invariant
                store.wf(),
                j <= ids@.len(),
                local_packets_of(packets@) == before + local_type_packets(
                    *store,
                    b,
                    ids@,
                    j as int,
                ),
            decreases ids@.len() - j,
        {
            let local = ids[j];
            let x = OfLocal { store, local };
            let ghost read = reader(x);
            let ghost p0 = local_packets_of(packets@);
            assert(read =~= local_fields_of(*store, local));
            if store.is_present(local) {
                if let Some(fade) = drawn(&b, &x) {
                    packets.push(
                        RenderLocalPacket {
                            local,
                            translation: read_opt(&x, b.translation),
                            rotation: read_opt(&x, b.rotation),
                            scale: read_opt(&x, b.scale),
                            mesh: read_opt(&x, b.mesh),
                            material: read_opt(&x, b.material),
                            anim_state: read_opt(&x, b.anim_state),
                            anim_phase: phase_of(&b, &x),
                            fade,
                        },
                    );
                    proof {
                        assert(local_packets_of(packets@) =~= p0.push((local, b.shows(read))));
                        assert(local_packets_of(packets@) =~= before + local_type_packets(
                            *store,
                            b,
                            ids@,
                            j + 1,
                        ));
                    }
                }
            }
            j = j + 1;
        }
        i = i + 1;
    }
    LocalSubmissionView { packets }
}

/// Rows that follow one another and have the same key.
#[derive(Clone, Copy, Debug, PartialEq, Eq, Structural)]
pub struct SubmissionInstanceSpan {
    pub mesh: u32,
    pub material: u32,
    pub anim_state: u32,
    pub first: u32,
    pub count: u32,
}

impl SubmissionInstanceSpan {
    pub open spec fn key_spec(self) -> SubmissionInstanceKey {
        SubmissionInstanceKey {
            mesh: self.mesh,
            material: self.material,
            anim_state: self.anim_state,
        }
    }

    pub fn key(&self) -> (r: SubmissionInstanceKey)
        ensures
            r == self.key_spec(),
    {
        SubmissionInstanceKey {
            mesh: self.mesh,
            material: self.material,
            anim_state: self.anim_state,
        }
    }

    /// The rows of the span.
    pub fn range(&self) -> (r: Range<usize>)
        ensures
            r.start == self.first,
            r.end == crate::render::instance_row::capped(self.first + self.count),
    {
        let first = self.first as usize;
        Range { start: first, end: first.saturating_add(self.count as usize) }
    }

    /// The bytes of the rows of the span.
    pub fn byte_range(&self) -> (r: Range<usize>)
        requires
            (self.first + self.count) * 64 <= usize::MAX,
        ensures
            r.start == self.first * 64,
            r.end == (self.first + self.count) * 64,
    {
        let rows = self.range();
        Range { start: rows.start * BYTE_LEN, end: rows.end * BYTE_LEN }
    }
}

/// A number as a word, or the greatest word.
pub open spec fn word(x: int) -> u32 {
    if x > u32::MAX {
        u32::MAX
    } else {
        x as u32
    }
}

fn to_word(x: usize) -> (r: u32)
    ensures
        r == word(x as int),
{
    if x > u32::MAX as usize {
        u32::MAX
    } else {
        x as u32
    }
}

pub open spec fn models_of(rows: Seq<SubmissionInstanceRow>) -> Seq<RowModel> {
    Seq::new(rows.len(), |i: int| rows[i]@)
}

/// The end of the run of one key that holds row `i`: the first row from `i` on with another
/// key than row `at`.
pub open spec fn run_end(rows: Seq<RowModel>, at: int, i: int) -> int
    decreases rows.len() - i,
{
    if i >= rows.len() || rows[i].key != rows[at].key {
        i
    } else {
        run_end(rows, at, i + 1)
    }
}

proof fn lemma_run_end(rows: Seq<RowModel>, at: int, i: int)
    requires
        0 <= at < rows.len(),
        at <= i <= rows.len(),
        forall|k: int| at <= k < i ==> (#[trigger] rows[k]).key == rows[at].key,
    ensures
        i <= run_end(rows, at, i) <= rows.len(),
        run_end(rows, at, i) > at || i == at && rows[i].key != rows[at].key,
        forall|k: int|
            at <= k < run_end(rows, at, i) ==> (#[trigger] rows[k]).key == rows[at].key,
        run_end(rows, at, i) < rows.len() ==> rows[run_end(rows, at, i)].key != rows[at].key,
    decreases rows.len() - i,
{
    if !(i >= rows.len() || rows[i].key != rows[at].key) {
        lemma_run_end(rows, at, i + 1);
    }
}

/// The span of the rows from `at` to `end`.
pub open spec fn span_of(rows: Seq<RowModel>, at: int, end: int) -> SubmissionInstanceSpan {
    SubmissionInstanceSpan {
        mesh: rows[at].key.mesh,
        material: rows[at].key.material,
        anim_state: rows[at].key.anim_state,
        first: word(at),
        count: word(end - at),
    }
}

/// The spans from row `at` on: one for each run of one key.
pub open spec fn spans_from(rows: Seq<RowModel>, at: int) -> Seq<SubmissionInstanceSpan>
    decreases rows.len() - at,
{
    if !(0 <= at < rows.len()) {
        Seq::empty()
    } else {
        let end = run_end(rows, at, at + 1);
        if !(at < end <= rows.len()) {
            Seq::empty()
        } else {
            seq![span_of(rows, at, end)] + spans_from(rows, end)
        }
    }
}

/// The spans of rows.
fn rebuild_spans(rows: &Vec<SubmissionInstanceRow>, out: &mut Vec<SubmissionInstanceSpan>)
    ensures
        final(out)@ == spans_from(models_of(rows@), 0),
{
    out.clear();
    let ghost m = models_of(rows@);
    let mut start: usize = 0;
    while start < rows.len()
        invariant
            m == models_of(rows@),
            start <= rows@.len(),
            out@ + spans_from(m, start as int) == spans_from(m, 0),
        decreases rows@.len() - start,
    {
        let key = rows[start].key();
        assert(m[start as int] == rows@[start as int]@);
        let mut i: usize = start + 1;
        while i < rows.len()
            invariant
                m == models_of(rows@),
                start < i <= rows@.len(),
                key == m[start as int].key,
                run_end(m, start as int, start + 1) == run_end(m, start as int, i as int),
            ensures
                start < i <= rows@.len(),
                i == run_end(m, start as int, start + 1),
            decreases rows@.len() - i,
        {
            assert(m[i as int] == rows@[i as int]@);
            if rows[i].key() != key {
                break;
            }
            i = i + 1;
        }
        let ghost before = out@;
        out.push(
            SubmissionInstanceSpan {
                mesh: key.mesh,
                material: key.material,
                anim_state: key.anim_state,
                first: to_word(start),
                count: to_word(i - start),
            },
        );
        proof {
            assert(spans_from(m, start as int) == seq![span_of(m, start as int, i as int)]
                + spans_from(m, i as int));
            assert(out@ + spans_from(m, i as int) =~= before + (seq![
                span_of(m, start as int, i as int),
            ] + spans_from(m, i as int)));
        }
        start = i;
    }
    assert(out@ + Seq::<SubmissionInstanceSpan>::empty() =~= out@);
}

/// The rows of packets: row `i` is that of packet `i`.
pub open spec fn rows_of_packets(ps: Seq<Semantics>) -> Seq<RowModel> {
    Seq::new(ps.len(), |i: int| ps[i].row(word(i)))
}

pub open spec fn looks<T>(ps: Seq<(T, Semantics)>) -> Seq<Semantics> {
    Seq::new(ps.len(), |i: int| ps[i].1)
}

/// Rows ready to be copied, and the spans of equal keys among them.
pub struct SubmissionInstanceStream {
    pub rows: Vec<SubmissionInstanceRow>,
    pub spans: Vec<SubmissionInstanceSpan>,
}

/// The bytes of rows, one after the other.
pub open spec fn stream_bytes(rows: Seq<RowModel>) -> Seq<u8>
    decreases rows.len(),
{
    if rows.len() == 0 {
        Seq::empty()
    } else {
        stream_bytes(rows.drop_last()) + bytes_of(rows.last().words())
    }
}

impl Default for SubmissionInstanceStream {
    fn default() -> (r: SubmissionInstanceStream)
        ensures
            r.rows@.len() == 0,
            r.spans@.len() == 0,
    {
        SubmissionInstanceStream { rows: Vec::new(), spans: Vec::new() }
    }
}

impl SubmissionInstanceStream {
    /// The rows are those of the packets, and the spans those of the rows.
    pub open spec fn made_of(self, ps: Seq<Semantics>) -> bool {
        &&& models_of(self.rows@) == rows_of_packets(ps)
        &&& self.spans@ == spans_from(rows_of_packets(ps), 0)
    }

    pub fn len(&self) -> (r: usize)
        ensures
            r == self.rows@.len(),
    {
        self.rows.len()
    }

    pub fn is_empty(&self) -> (r: bool)
        ensures
            r == (self.rows@.len() == 0),
    {
        self.rows.len() == 0
    }

    pub fn clear(&mut self)
        ensures
            final(self).rows@.len() == 0,
            final(self).spans@.len() == 0,
    {
        self.rows.clear();
        self.spans.clear();
    }

    /// The number of bytes of the rows.
    pub fn byte_len(&self) -> (r: usize)
        requires
            self.rows@.len() * 64 <= usize::MAX,
        ensures
            r == self.rows@.len() * 64,
    {
        self.rows.len() * BYTE_LEN
    }

    /// The bytes of the rows.
    pub fn instance_bytes(&self) -> (r: Vec<u8>)
        ensures
            r@ == stream_bytes(models_of(self.rows@)),
    {
        let mut bytes: Vec<u8> = Vec::new();
        self.fill_instance_bytes(&mut bytes);
        bytes
    }

    /// Puts the bytes of the rows in place of what `out` holds.
    pub fn fill_instance_bytes(&self, out: &mut Vec<u8>)
        ensures
            final(out)@ == stream_bytes(models_of(self.rows@)),
    {
        out.clear();
        let ghost m = models_of(self.rows@);
        let mut i: usize = 0;
        assert(m.take(0) =~= Seq::empty());
        while i < self.rows.len()
            invariant
                m == models_of(self.rows@),
                i <= self.rows@.len(),
                out@ == stream_bytes(m.take(i as int)),
            decreases self.rows@.len() - i,
        {
            self.rows[i].append_le_bytes(out);
            proof {
                assert(m.take(i + 1).drop_last() =~= m.take(i as int));
                assert(m.take(i + 1).last() == m[i as int]);
            }
            i = i + 1;
        }
        assert(m.take(m.len() as int) =~= m);
    }
}

/// What a render frame hands over.
pub struct SubmissionView {
    pub packets: Vec<RenderPacket>,
}

impl SubmissionView {
    pub fn len(&self) -> (r: usize)
        ensures
            r == self.packets@.len(),
    {
        self.packets.len()
    }

    pub fn is_empty(&self) -> (r: bool)
        ensures
            r == (self.packets@.len() == 0),
    {
        self.packets.len() == 0
    }

    /// The packets, one after the other.
    pub fn iter(&self) -> (r: core::slice::Iter<'_, RenderPacket>)
        ensures
            vstd::std_specs::iter::IteratorSpec::remaining(&r) == self.packets@.as_ref(),
    {
        self.packets.as_slice().iter()
    }

    /// The rows of the packets, in their order.
    pub fn instance_rows(&self) -> (r: Vec<SubmissionInstanceRow>)
        ensures
            models_of(r@) == rows_of_packets(looks(packets_of(self.packets@))),
    {
        let mut rows: Vec<SubmissionInstanceRow> = Vec::new();
        self.fill_instance_rows(&mut rows);
        rows
    }

    /// Puts the rows of the packets in place of what `out` holds.
    pub fn fill_instance_rows(&self, out: &mut Vec<SubmissionInstanceRow>)
        ensures
            models_of(final(out)@) == rows_of_packets(looks(packets_of(self.packets@))),
    {
        out.clear();
        let ghost m = rows_of_packets(looks(packets_of(self.packets@)));
        let mut i: usize = 0;
        while i < self.packets.len()
            invariant
                m == rows_of_packets(looks(packets_of(self.packets@))),
                i <= self.packets@.len(),
                models_of(out@) =~= m.take(i as int),
            decreases self.packets@.len() - i,
        {
            let ghost before = models_of(out@);
            let row = SubmissionInstanceRow::from_packet(&self.packets[i], to_word(i));
            out.push(row);
            proof {
                assert(looks(packets_of(self.packets@))[i as int] == self.packets@[i as int]@.1);
                assert(models_of(out@) =~= before.push(row@));
            }
            i = i + 1;
        }
        assert(models_of(out@) =~= m);
    }

    /// The rows of the packets and their spans.
    pub fn instance_stream(&self) -> (r: SubmissionInstanceStream)
        ensures
            r.made_of(looks(packets_of(self.packets@))),
    {
        let mut stream: SubmissionInstanceStream = SubmissionInstanceStream::default();
        self.fill_instance_stream(&mut stream);
        stream
    }

    /// Puts the rows of the packets and their spans in place of what `out` holds.
    pub fn fill_instance_stream(&self, out: &mut SubmissionInstanceStream)
        ensures
            final(out).made_of(looks(packets_of(self.packets@))),
    {
        out.clear();
        self.fill_instance_rows(&mut out.rows);
        rebuild_spans(&out.rows, &mut out.spans);
    }
}

/// What a render frame hands over of the local entities.
pub struct LocalSubmissionView {
    pub packets: Vec<RenderLocalPacket>,
}

impl LocalSubmissionView {
    pub fn len(&self) -> (r: usize)
        ensures
            r == self.packets@.len(),
    {
        self.packets.len()
    }

    pub fn is_empty(&self) -> (r: bool)
        ensures
            r == (self.packets@.len() == 0),
    {
        self.packets.len() == 0
    }

    /// The packets, one after the other.
    pub fn iter(&self) -> (r: core::slice::Iter<'_, RenderLocalPacket>)
        ensures
            vstd::std_specs::iter::IteratorSpec::remaining(&r) == self.packets@.as_ref(),
    {
        self.packets.as_slice().iter()
    }

    /// The rows of the packets, in their order.
    pub fn instance_rows(&self) -> (r: Vec<SubmissionInstanceRow>)
        ensures
            models_of(r@) == rows_of_packets(looks(local_packets_of(self.packets@))),
    {
        let mut rows: Vec<SubmissionInstanceRow> = Vec::new();
        self.fill_instance_rows(&mut rows);
        rows
    }

    /// Puts the rows of the packets in place of what `out` holds.
    pub fn fill_instance_rows(&self, out: &mut Vec<SubmissionInstanceRow>)
        ensures
            models_of(final(out)@) == rows_of_packets(looks(local_packets_of(self.packets@))),
    {
        out.clear();
        let ghost m = rows_of_packets(looks(local_packets_of(self.packets@)));
        let mut i: usize = 0;
        while i < self.packets.len()
            invariant
                m == rows_of_packets(looks(local_packets_of(self.packets@))),
                i <= self.packets@.len(),
                models_of(out@) =~= m.take(i as int),
            decreases self.packets@.len() - i,
        {
            let ghost before = models_of(out@);
            let row = SubmissionInstanceRow::from_local_packet(&self.packets[i], to_word(i));
            out.push(row);
            proof {
                assert(looks(local_packets_of(self.packets@))[i as int]
                    == self.packets@[i as int]@.1);
                assert(models_of(out@) =~= before.push(row@));
            }
            i = i + 1;
        }
        assert(models_of(out@) =~= m);
    }

    /// The rows of the packets and their spans.
    pub fn instance_stream(&self) -> (r: SubmissionInstanceStream)
        ensures
            r.made_of(looks(local_packets_of(self.packets@))),
    {
        let mut stream: SubmissionInstanceStream = SubmissionInstanceStream::default();
        self.fill_instance_stream(&mut stream);
        stream
    }

    /// Puts the rows of the packets and their spans in place of what `out` holds.
    pub fn fill_instance_stream(&self, out: &mut SubmissionInstanceStream)
        ensures
            final(out).made_of(looks(local_packets_of(self.packets@))),
    {
        out.clear();
        self.fill_instance_rows(&mut out.rows);
        rebuild_spans(&out.rows, &mut out.spans);
    }
}

/// Every packet is of an instance that is there, and neither hidden nor faded away.
pub proof fn law_packets_are_drawn(
    store: RenderStore,
    renderables: Seq<(EntityTypeId, RenderBinding)>,
    visible: Option<Seq<Bucket>>,
    n: int,
    k: int,
)
    requires
        0 <= n <= renderables.len(),
        0 <= k < all_packets(store, renderables, visible, n).len(),
    ensures
        ({
            let (inst, look) = all_packets(store, renderables, visible, n)[k];
            &&& store.present(inst)
            &&& of_int(0).flt(look.fade)
            &&& !of_int(1).flt(look.fade)
        }),
    decreases n,
{
    if n > 0 {
        let (ty, b) = renderables[n - 1];
        let insts = candidates(store, visible, ty);
        let before = all_packets(store, renderables, visible, n - 1);
        if k < before.len() {
            law_packets_are_drawn(store, renderables, visible, n - 1, k);
        } else {
            lemma_type_packets_drawn(
                store,
                b,
                insts,
                insts.len() as int,
                k - before.len() as int,
            );
        }
    }
}

proof fn lemma_type_packets_drawn(
    store: RenderStore,
    b: RenderBinding,
    insts: Seq<InstanceId>,
    n: int,
    k: int,
)
    requires
        0 <= n <= insts.len(),
        0 <= k < type_packets(store, b, insts, n).len(),
    ensures
        ({
            let (inst, look) = type_packets(store, b, insts, n)[k];
            &&& store.present(inst)
            &&& of_int(0).flt(look.fade)
            &&& !of_int(1).flt(look.fade)
        }),
    decreases n,
{
    if n > 0 {
        let before = type_packets(store, b, insts, n - 1);
        if k < before.len() {
            lemma_type_packets_drawn(store, b, insts, n - 1, k);
        }
    }
}

/// The rows from one row to another, which the spans cover without gap or overlap.
pub open spec fn tiles(
    rows: Seq<RowModel>,
    spans: Seq<SubmissionInstanceSpan>,
    from: int,
) -> bool
    decreases spans.len(),
{
    if spans.len() == 0 {
        from == rows.len()
    } else {
        let s = spans[0];
        &&& s.first == from
        &&& s.count > 0
        &&& from + s.count <= rows.len()
        &&& forall|i: int| from <= i < from + s.count ==> (#[trigger] rows[i]).key == s.key_spec()
        &&& from + s.count < rows.len() ==> rows[from + s.count as int].key != s.key_spec()
        &&& tiles(rows, spans.drop_first(), from + s.count)
    }
}

/// The spans cover the rows in their order, without gap or overlap; the rows of a span have
/// its key, and the row after it has another.
pub proof fn law_spans_tile_the_rows(rows: Seq<RowModel>, at: int)
    requires
        0 <= at <= rows.len(),
        rows.len() <= u32::MAX,
    ensures
        tiles(rows, spans_from(rows, at), at),
    decreases rows.len() - at,
{
    if at < rows.len() {
        let end = run_end(rows, at, at + 1);
        lemma_run_end(rows, at, at + 1);
        law_spans_tile_the_rows(rows, end);
        let spans = spans_from(rows, at);
        assert(spans.drop_first() =~= spans_from(rows, end));
        assert(spans[0] == span_of(rows, at, end));
    }
}

}
