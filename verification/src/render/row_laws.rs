//! What the rows of instances hold and say.
use crate::float32::one32;
use crate::float32::pack32;
use crate::float32::F32;
use crate::float32_laws::is_whole32;
use crate::float32_laws::law_held_to_the_unit;
use crate::float32_laws::law_narrowing_is_nearest;
use crate::float32_laws::lemma_constants32;
use crate::float32_laws::lemma_whole_difference32;
use crate::float32_laws::lemma_whole_product32;
use crate::float32_laws::lemma_whole_sum32;
use crate::float64::one;
use crate::float64::F64;
use crate::float_laws::apart;
use crate::render::instance_row::bytes_of;
use crate::render::instance_row::RowModel;
use crate::render::instance_row::Semantics;
use crate::render::instance_row::SubmissionInstanceLayout;
use crate::render::instance_row::SubmissionInstanceSlot;
use vstd::prelude::*;

verus! {

/// The four bytes of a word stand together, the lowest first.
pub proof fn law_bytes_are_little_endian(words: Seq<u32>, i: int)
    requires
        0 <= i < words.len(),
    ensures
        bytes_of(words).len() == 4 * words.len(),
        words[i] == bytes_of(words)[4 * i] + 0x100 * bytes_of(words)[4 * i + 1] + 0x1_0000
            * bytes_of(words)[4 * i + 2] + 0x100_0000 * bytes_of(words)[4 * i + 3],
{
    let v = words[i];
    let b = bytes_of(words);
    assert((4 * i) / 4 == i && (4 * i + 1) / 4 == i);
    assert((4 * i + 2) / 4 == i && (4 * i + 3) / 4 == i);
    assert((4 * i) % 4 == 0 && (4 * i + 1) % 4 == 1 && (4 * i + 2) % 4 == 2 && (4 * i + 3) % 4
        == 3);
    assert(v == v % 256 + 256 * (v / 256 % 256) + 65536 * (v / 65536 % 256) + 16777216 * (v
        / 16777216));
}

/// The parts of a row stand where the layout says, each in four words.
pub proof fn law_rows_keep_to_the_layout(row: RowModel)
    ensures
        ({
            let at = |slot: SubmissionInstanceSlot, k: int|
                row.words()[SubmissionInstanceLayout::standard().offset_of(slot) as int / 4 + k];
            &&& row.words().len() * 4 == SubmissionInstanceLayout::standard().stride
            &&& at(SubmissionInstanceSlot::TranslationFade, 0) == row.translation.0.bits
            &&& at(SubmissionInstanceSlot::TranslationFade, 1) == row.translation.1.bits
            &&& at(SubmissionInstanceSlot::TranslationFade, 2) == row.translation.2.bits
            &&& at(SubmissionInstanceSlot::TranslationFade, 3) == row.fade.bits
            &&& at(SubmissionInstanceSlot::Rotation, 0) == row.rotation.0.bits
            &&& at(SubmissionInstanceSlot::Rotation, 1) == row.rotation.1.bits
            &&& at(SubmissionInstanceSlot::Rotation, 2) == row.rotation.2.bits
            &&& at(SubmissionInstanceSlot::Rotation, 3) == row.rotation.3.bits
            &&& at(SubmissionInstanceSlot::ScalePhase, 0) == row.scale.0.bits
            &&& at(SubmissionInstanceSlot::ScalePhase, 1) == row.scale.1.bits
            &&& at(SubmissionInstanceSlot::ScalePhase, 2) == row.scale.2.bits
            &&& at(SubmissionInstanceSlot::ScalePhase, 3) == row.phase.bits
            &&& at(SubmissionInstanceSlot::Ids, 0) == row.key.mesh
            &&& at(SubmissionInstanceSlot::Ids, 1) == row.key.material
            &&& at(SubmissionInstanceSlot::Ids, 2) == row.key.anim_state
            &&& at(SubmissionInstanceSlot::Ids, 3) == row.packet
        }),
{
}

/// The vectors of a row follow one another without a gap and fill it.
pub proof fn law_slots_tile_the_row()
    ensures
        ({
            let l = SubmissionInstanceLayout::standard();
            &&& l.offset_of(SubmissionInstanceSlot::TranslationFade) == 0
            &&& l.offset_of(SubmissionInstanceSlot::Rotation) == l.offset_of(
                SubmissionInstanceSlot::TranslationFade,
            ) + l.vec4_byte_len
            &&& l.offset_of(SubmissionInstanceSlot::ScalePhase) == l.offset_of(
                SubmissionInstanceSlot::Rotation,
            ) + l.vec4_byte_len
            &&& l.offset_of(SubmissionInstanceSlot::Ids) == l.offset_of(
                SubmissionInstanceSlot::ScalePhase,
            ) + l.vec4_byte_len
            &&& l.stride == l.offset_of(SubmissionInstanceSlot::Ids) + l.vec4_byte_len
            &&& l.vec4_byte_len == 16
        }),
{
}

/// The last column of a transform is the translation, and the words of a transform are its
/// entries row by row.
pub proof fn law_transforms_move(row: RowModel)
    ensures
        row.affine(0, 3) == row.translation.0,
        row.affine(1, 3) == row.translation.1,
        row.affine(2, 3) == row.translation.2,
        row.affine_words().len() == 12,
        forall|i: int, j: int|
            0 <= i < 3 && 0 <= j < 4 ==> row.affine_words()[4 * i + j] == (#[trigger] row.affine(
                i,
                j,
            )).bits,
{
}

/// On whole numbers a transform is exact: it turns by the rotation `w + xi + yj + zk` after it
/// scales, so that its columns are the turned axes, each as long as its scale.
pub proof fn law_transforms_on_whole_numbers(
    row: RowModel,
    x: int,
    y: int,
    z: int,
    w: int,
    s: (int, int, int),
)
    requires
        is_whole32(row.rotation.0, x) && -32 <= x <= 32,
        is_whole32(row.rotation.1, y) && -32 <= y <= 32,
        is_whole32(row.rotation.2, z) && -32 <= z <= 32,
        is_whole32(row.rotation.3, w) && -32 <= w <= 32,
        is_whole32(row.scale.0, s.0) && -1024 <= s.0 <= 1024,
        is_whole32(row.scale.1, s.1) && -1024 <= s.1 <= 1024,
        is_whole32(row.scale.2, s.2) && -1024 <= s.2 <= 1024,
    ensures
        is_whole32(row.affine(0, 0), (1 - 2 * (y * y + z * z)) * s.0),
        is_whole32(row.affine(1, 0), (2 * (x * y + w * z)) * s.0),
        is_whole32(row.affine(2, 0), (2 * (x * z - w * y)) * s.0),
        is_whole32(row.affine(0, 1), (2 * (x * y - w * z)) * s.1),
        is_whole32(row.affine(1, 1), (1 - 2 * (x * x + z * z)) * s.1),
        is_whole32(row.affine(2, 1), (2 * (y * z + w * x)) * s.1),
        is_whole32(row.affine(0, 2), (2 * (x * z + w * y)) * s.2),
        is_whole32(row.affine(1, 2), (2 * (y * z - w * x)) * s.2),
        is_whole32(row.affine(2, 2), (1 - 2 * (x * x + y * y)) * s.2),
{
    let (a, b, c, d) = row.rotation;
    let (sx, sy, sz) = row.scale;
    lemma_diagonal(b, c, sx, y, z, s.0);
    lemma_diagonal(a, c, sy, x, z, s.1);
    lemma_diagonal(a, b, sz, x, y, s.2);
    assert(z * w == w * z && y * w == w * y && x * w == w * x) by (nonlinear_arith);
    lemma_side(a, b, c, d, sx, x, y, z, w, s.0);
    lemma_side(a, c, b, d, sx, x, z, y, w, s.0);
    lemma_side(a, b, c, d, sy, x, y, z, w, s.1);
    lemma_side(b, c, a, d, sy, y, z, x, w, s.1);
    lemma_side(a, c, b, d, sz, x, z, y, w, s.2);
    lemma_side(b, c, a, d, sz, y, z, x, w, s.2);
}

proof fn lemma_bound(i: int, j: int, m: int, n: int)
    requires
        -m <= i <= m,
        -n <= j <= n,
    ensures
        -(m * n) <= i * j <= m * n,
{
    assert(-(m * n) <= i * j <= m * n) by (nonlinear_arith)
        requires
            -m <= i <= m,
            -n <= j <= n,
    ;
}

proof fn lemma_diagonal(a: F32, b: F32, s: F32, i: int, j: int, k: int)
    requires
        is_whole32(a, i) && -32 <= i <= 32,
        is_whole32(b, j) && -32 <= j <= 32,
        is_whole32(s, k) && -1024 <= k <= 1024,
    ensures
        ({
            let u = pack32(false, 0x3F80_0000);
            let t = pack32(false, 0x4000_0000);
            is_whole32(
                u.sub_spec(t.mul_spec(a.mul_spec(a).add_spec(b.mul_spec(b)))).mul_spec(s),
                (1 - 2 * (i * i + j * j)) * k,
            )
        }),
{
    let u = pack32(false, 0x3F80_0000);
    let t = pack32(false, 0x4000_0000);
    lemma_constants32();
    lemma_bound(i, i, 32, 32);
    lemma_bound(j, j, 32, 32);
    lemma_whole_product32(a, a, i, i);
    lemma_whole_product32(b, b, j, j);
    let p = a.mul_spec(a);
    let q = b.mul_spec(b);
    lemma_whole_sum32(p, q, i * i, j * j);
    lemma_whole_product32(t, p.add_spec(q), 2, i * i + j * j);
    let n = 2 * (i * i + j * j);
    lemma_whole_difference32(u, t.mul_spec(p.add_spec(q)), 1, n);
    lemma_bound(1 - n, k, 4097, 1024);
    lemma_whole_product32(u.sub_spec(t.mul_spec(p.add_spec(q))), s, 1 - n, k);
}

proof fn lemma_side(
    a: F32,
    b: F32,
    c: F32,
    d: F32,
    s: F32,
    i: int,
    j: int,
    m: int,
    n: int,
    k: int,
)
    requires
        is_whole32(a, i) && -32 <= i <= 32,
        is_whole32(b, j) && -32 <= j <= 32,
        is_whole32(c, m) && -32 <= m <= 32,
        is_whole32(d, n) && -32 <= n <= 32,
        is_whole32(s, k) && -1024 <= k <= 1024,
    ensures
        ({
            let t = pack32(false, 0x4000_0000);
            let p = a.mul_spec(b);
            let q = c.mul_spec(d);
            &&& is_whole32(t.mul_spec(p.add_spec(q)).mul_spec(s), (2 * (i * j + m * n)) * k)
            &&& is_whole32(t.mul_spec(p.sub_spec(q)).mul_spec(s), (2 * (i * j - m * n)) * k)
        }),
{
    let t = pack32(false, 0x4000_0000);
    lemma_constants32();
    lemma_bound(i, j, 32, 32);
    lemma_bound(m, n, 32, 32);
    lemma_whole_product32(a, b, i, j);
    lemma_whole_product32(c, d, m, n);
    let p = a.mul_spec(b);
    let q = c.mul_spec(d);
    lemma_whole_sum32(p, q, i * j, m * n);
    lemma_whole_difference32(p, q, i * j, m * n);
    lemma_whole_product32(t, p.add_spec(q), 2, i * j + m * n);
    lemma_whole_product32(t, p.sub_spec(q), 2, i * j - m * n);
    lemma_bound(2 * (i * j + m * n), k, 4096, 1024);
    lemma_bound(2 * (i * j - m * n), k, 4096, 1024);
    lemma_whole_product32(t.mul_spec(p.add_spec(q)), s, 2 * (i * j + m * n), k);
    lemma_whole_product32(t.mul_spec(p.sub_spec(q)), s, 2 * (i * j - m * n), k);
}

/// The number is the nearest to a binary64 one.
pub open spec fn narrowed(r: F32, x: F64) -> bool {
    r.finite() ==> forall|z: F32|
        z.finite() ==> apart(x.scaled() * one32(), r.scaled() * one()) <= apart(
            x.scaled() * one32(),
            #[trigger] z.scaled() * one(),
        )
}

proof fn lemma_narrowed(x: F64)
    requires
        x.finite(),
    ensures
        narrowed(F32::of_f64(x), x),
{
    assert forall|z: F32| z.finite() && F32::of_f64(x).finite() implies apart(
        x.scaled() * one32(),
        F32::of_f64(x).scaled() * one(),
    ) <= apart(x.scaled() * one32(), #[trigger] z.scaled() * one()) by {
        law_narrowing_is_nearest(x, z);
    }
}

/// The row of a packet holds what the packet says, in the place of each: translation and
/// scale as the nearest numbers, component by component, the handles as they are, and the
/// number of the packet.
pub proof fn law_rows_say_what_packets_say(m: Semantics, packet: u32)
    ensures
        m.row(packet).packet == packet,
        m.translation is Vec3 && m.translation->Vec3_0.finite() && m.translation->Vec3_1.finite()
            && m.translation->Vec3_2.finite() ==> {
            &&& narrowed(m.row(packet).translation.0, m.translation->Vec3_0)
            &&& narrowed(m.row(packet).translation.1, m.translation->Vec3_1)
            &&& narrowed(m.row(packet).translation.2, m.translation->Vec3_2)
        },
        m.scale is Vec3 && m.scale->Vec3_0.finite() && m.scale->Vec3_1.finite()
            && m.scale->Vec3_2.finite() ==> {
            &&& narrowed(m.row(packet).scale.0, m.scale->Vec3_0)
            &&& narrowed(m.row(packet).scale.1, m.scale->Vec3_1)
            &&& narrowed(m.row(packet).scale.2, m.scale->Vec3_2)
        },
        m.anim_phase.finite() ==> narrowed(m.row(packet).phase, m.anim_phase),
        m.mesh is Int && 0 <= m.mesh->Int_0 <= u32::MAX ==> m.row(packet).key.mesh
            == m.mesh->Int_0,
        m.material is Int && 0 <= m.material->Int_0 <= u32::MAX ==> m.row(packet).key.material
            == m.material->Int_0,
        m.anim_state is Int && 0 <= m.anim_state->Int_0 <= u32::MAX ==> m.row(
            packet,
        ).key.anim_state == m.anim_state->Int_0,
        !(m.mesh is Int && 0 <= m.mesh->Int_0 <= u32::MAX) ==> m.row(packet).key.mesh == 0,
        !(m.material is Int && 0 <= m.material->Int_0 <= u32::MAX) ==> m.row(packet).key.material
            == 0,
        !(m.anim_state is Int && 0 <= m.anim_state->Int_0 <= u32::MAX) ==> m.row(
            packet,
        ).key.anim_state == 0,
{
    if m.translation is Vec3 && m.translation->Vec3_0.finite() && m.translation->Vec3_1.finite()
        && m.translation->Vec3_2.finite() {
        lemma_narrowed(m.translation->Vec3_0);
        lemma_narrowed(m.translation->Vec3_1);
        lemma_narrowed(m.translation->Vec3_2);
    }
    if m.scale is Vec3 && m.scale->Vec3_0.finite() && m.scale->Vec3_1.finite()
        && m.scale->Vec3_2.finite() {
        lemma_narrowed(m.scale->Vec3_0);
        lemma_narrowed(m.scale->Vec3_1);
        lemma_narrowed(m.scale->Vec3_2);
    }
    if m.anim_phase.finite() {
        lemma_narrowed(m.anim_phase);
    }
}

/// The fading of a row lies between nothing and the whole, and what the packet leaves open
/// neither moves nor turns nor scales.
pub proof fn law_rows_are_neutral_where_nothing_is_said(m: Semantics, packet: u32)
    ensures
        m.fade.finite() && F32::of_f64(m.fade).finite() ==> m.row(packet).fade.finite() && 0
            <= m.row(packet).fade.scaled() <= one32(),
        m.fade.finite() && F32::of_f64(m.fade).finite() && 0 <= F32::of_f64(m.fade).scaled()
            <= one32() ==> narrowed(m.row(packet).fade, m.fade),
        !m.fade.finite() ==> is_whole32(m.row(packet).fade, 1),
        !m.anim_phase.finite() ==> is_whole32(m.row(packet).phase, 0),
        !(m.translation is Vec3) ==> {
            &&& is_whole32(m.row(packet).translation.0, 0)
            &&& is_whole32(m.row(packet).translation.1, 0)
            &&& is_whole32(m.row(packet).translation.2, 0)
        },
        !(m.scale is Vec3) ==> {
            &&& is_whole32(m.row(packet).scale.0, 1)
            &&& is_whole32(m.row(packet).scale.1, 1)
            &&& is_whole32(m.row(packet).scale.2, 1)
        },
        !(m.rotation is Quat) ==> {
            &&& is_whole32(m.row(packet).rotation.0, 0)
            &&& is_whole32(m.row(packet).rotation.1, 0)
            &&& is_whole32(m.row(packet).rotation.2, 0)
            &&& is_whole32(m.row(packet).rotation.3, 1)
        },
{
    lemma_constants32();
    assert(0 * one32() == 0 && 1 * one32() == one32());
    if m.fade.finite() && F32::of_f64(m.fade).finite() {
        law_held_to_the_unit(F32::of_f64(m.fade));
        lemma_narrowed(m.fade);
    }
}

/// The rotation of a row is the direction of the packet's rotation, number by number.
pub proof fn law_rows_turn_as_packets_do(m: Semantics, packet: u32)
    requires
        m.rotation is Quat,
        m.rotation->Quat_0.finite() && m.rotation->Quat_1.finite() && m.rotation->Quat_2.finite()
            && m.rotation->Quat_3.finite(),
        ({
            let q = crate::render::interp::Quat {
                x: m.rotation->Quat_0,
                y: m.rotation->Quat_1,
                z: m.rotation->Quat_2,
                w: m.rotation->Quat_3,
            };
            q.dot_spec(q).finite() && q.dot_spec(q).scaled() == one()
        }),
    ensures
        narrowed(m.row(packet).rotation.0, m.rotation->Quat_0),
        narrowed(m.row(packet).rotation.1, m.rotation->Quat_1),
        narrowed(m.row(packet).rotation.2, m.rotation->Quat_2),
        narrowed(m.row(packet).rotation.3, m.rotation->Quat_3),
{
    let q = crate::render::interp::Quat {
        x: m.rotation->Quat_0,
        y: m.rotation->Quat_1,
        z: m.rotation->Quat_2,
        w: m.rotation->Quat_3,
    };
    crate::render::interp_laws::law_directions(q);
    let n = q.normalized()->0;
    lemma_narrowed(n.x);
    lemma_narrowed(n.y);
    lemma_narrowed(n.z);
    lemma_narrowed(n.w);
}

}
