//! Instances in the fixed shape that a renderer takes: four vectors of four words, and their
//! little-endian bytes.
use crate::float32::pack32;
use crate::float32::F32;
use crate::float64::F64;
use crate::render::interp::Quat;
use crate::value::Val;
use crate::value::Value;
use core::ops::Range;
use vstd::prelude::*;

verus! {

/// The bytes of a row.
pub const BYTE_LEN: usize = 64;

/// The bytes of a transform.
pub const AFFINE3X4_BYTE_LEN: usize = 48;

/// The bytes of a vector of four words.
pub const VEC4_BYTE_LEN: usize = 16;

/// The bits of one.
pub const ONE32: u32 = 0x3F80_0000;

/// The bits of two.
pub const TWO32: u32 = 0x4000_0000;

/// A product that stops at the greatest value.
pub open spec fn capped(x: int) -> int {
    if x > usize::MAX {
        usize::MAX as int
    } else {
        x
    }
}

fn times(a: usize, b: usize) -> (r: usize)
    ensures
        r == capped(a * b),
{
    match a.checked_mul(b) {
        Some(x) => x,
        None => usize::MAX,
    }
}

/// A vector of a row.
#[derive(Clone, Copy, Debug, PartialEq, Eq, Structural, Hash)]
pub enum SubmissionInstanceSlot {
    TranslationFade,
    Rotation,
    ScalePhase,
    Ids,
}

/// Where the parts of a row stand among its bytes.
#[derive(Clone, Copy, Debug, PartialEq, Eq, Structural)]
pub struct SubmissionInstanceLayout {
    pub stride: usize,
    pub vec4_byte_len: usize,
    pub translation_fade_offset: usize,
    pub rotation_offset: usize,
    pub scale_phase_offset: usize,
    pub ids_offset: usize,
}

impl SubmissionInstanceLayout {
    pub open spec fn standard() -> SubmissionInstanceLayout {
        SubmissionInstanceLayout {
            stride: 64,
            vec4_byte_len: 16,
            translation_fade_offset: 0,
            rotation_offset: 16,
            scale_phase_offset: 32,
            ids_offset: 48,
        }
    }

    pub open spec fn offset_of(self, slot: SubmissionInstanceSlot) -> usize {
        match slot {
            SubmissionInstanceSlot::TranslationFade => self.translation_fade_offset,
            SubmissionInstanceSlot::Rotation => self.rotation_offset,
            SubmissionInstanceSlot::ScalePhase => self.scale_phase_offset,
            SubmissionInstanceSlot::Ids => self.ids_offset,
        }
    }

    /// The layout of the encoded rows.
    pub fn canonical() -> (r: SubmissionInstanceLayout)
        ensures
            r == SubmissionInstanceLayout::standard(),
    {
        SubmissionInstanceLayout {
            stride: BYTE_LEN,
            vec4_byte_len: VEC4_BYTE_LEN,
            translation_fade_offset: 0,
            rotation_offset: VEC4_BYTE_LEN,
            scale_phase_offset: VEC4_BYTE_LEN * 2,
            ids_offset: VEC4_BYTE_LEN * 3,
        }
    }

    /// The bytes of a row.
    pub fn row_range(&self, row: usize) -> (r: Range<usize>)
        ensures
            r.start == capped(row * self.stride),
            r.end == capped(capped(row + 1) * self.stride),
    {
        Range { start: times(row, self.stride), end: times(row.saturating_add(1), self.stride) }
    }

    /// The bytes of a vector within its row.
    pub fn slot_range(&self, slot: SubmissionInstanceSlot) -> (r: Range<usize>)
        ensures
            r.start == self.offset_of(slot),
            r.end == capped(self.offset_of(slot) + self.vec4_byte_len),
    {
        let offset = match slot {
            SubmissionInstanceSlot::TranslationFade => self.translation_fade_offset,
            SubmissionInstanceSlot::Rotation => self.rotation_offset,
            SubmissionInstanceSlot::ScalePhase => self.scale_phase_offset,
            SubmissionInstanceSlot::Ids => self.ids_offset,
        };
        Range { start: offset, end: offset.saturating_add(self.vec4_byte_len) }
    }
}

impl Default for SubmissionInstanceLayout {
    fn default() -> (r: SubmissionInstanceLayout)
        ensures
            r == SubmissionInstanceLayout::standard(),
    {
        SubmissionInstanceLayout::canonical()
    }
}

/// What rows are grouped by.
#[derive(Clone, Copy, Debug, PartialEq, Eq, Structural, Hash)]
pub struct SubmissionInstanceKey {
    pub mesh: u32,
    pub material: u32,
    pub anim_state: u32,
}

/// A byte of a word, the lowest first.
pub open spec fn byte_of(v: u32, k: int) -> u8 {
    if k == 0 {
        (v % 256) as u8
    } else if k == 1 {
        (v / 256 % 256) as u8
    } else if k == 2 {
        (v / 65536 % 256) as u8
    } else {
        (v / 16777216) as u8
    }
}

/// The word at byte `at`.
pub open spec fn word_at(bytes: Seq<u8>, at: int) -> u32 {
    (bytes[at] + bytes[at + 1] * 256 + bytes[at + 2] * 65536 + bytes[at + 3] * 16777216) as u32
}

/// The bytes of words.
pub open spec fn bytes_of(words: Seq<u32>) -> Seq<u8> {
    Seq::new(4 * words.len(), |i: int| byte_of(words[i / 4], i % 4))
}

/// Reading gives back the words that were written.
pub proof fn law_words_survive_their_bytes(words: Seq<u32>, rest: Seq<u8>, i: int)
    requires
        0 <= i < words.len(),
    ensures
        word_at(bytes_of(words) + rest, 4 * i) == words[i],
{
    let b = bytes_of(words) + rest;
    let v = words[i];
    assert((4 * i) / 4 == i && (4 * i + 1) / 4 == i && (4 * i + 2) / 4 == i && (4 * i + 3) / 4 == i);
    assert((4 * i) % 4 == 0 && (4 * i + 1) % 4 == 1 && (4 * i + 2) % 4 == 2 && (4 * i + 3) % 4
        == 3);
    assert(b[4 * i] == byte_of(v, 0));
    assert(b[4 * i + 1] == byte_of(v, 1));
    assert(b[4 * i + 2] == byte_of(v, 2));
    assert(b[4 * i + 3] == byte_of(v, 3));
    assert(v == v % 256 + 256 * (v / 256 % 256) + 65536 * (v / 65536 % 256) + 16777216 * (v
        / 16777216));
}

/// Writes a word at `offset` and moves on.
pub fn write_u32<const N: usize>(v: u32, out: &mut [u8; N], offset: &mut usize)
    requires
        *old(offset) + 4 <= N,
    ensures
        *final(offset) == *old(offset) + 4,
        forall|i: int|
            0 <= i < N ==> #[trigger] final(out)@[i] == (if *old(offset) <= i < *old(offset) + 4 {
                byte_of(v, i - *old(offset))
            } else {
                old(out)@[i]
            }),
{
    let at = *offset;
    out[at] = (v % 256) as u8;
    out[at + 1] = (v / 256 % 256) as u8;
    out[at + 2] = (v / 65536 % 256) as u8;
    out[at + 3] = (v / 16777216) as u8;
    *offset = at + 4;
}

fn read_u32(bytes: &[u8], at: usize) -> (r: u32)
    requires
        at + 4 <= bytes@.len(),
    ensures
        r == word_at(bytes@, at as int),
{
    bytes[at] as u32 + bytes[at + 1] as u32 * 256 + bytes[at + 2] as u32 * 65536 + bytes[at
        + 3] as u32 * 16777216
}

fn read_f32x4(bytes: &[u8], at: usize) -> (r: [F32; 4])
    requires
        at <= 32,
        at + 16 <= bytes@.len(),
    ensures
        forall|k: int|
            0 <= k < 4 ==> (#[trigger] r@[k]).bits == word_at(bytes@, at + 4 * k),
{
    [
        F32 { bits: read_u32(bytes, at) },
        F32 { bits: read_u32(bytes, at + 4) },
        F32 { bits: read_u32(bytes, at + 8) },
        F32 { bits: read_u32(bytes, at + 12) },
    ]
}

/// The row of an instance.
#[derive(Clone, Copy, Debug)]
pub struct SubmissionInstanceRow {
    /// Translation and fade.
    pub translation_fade: [F32; 4],
    pub rotation: [F32; 4],
    /// Scale and the phase of the animation.
    pub scale_phase: [F32; 4],
    /// Mesh, material, state of the animation, and the number of the packet.
    pub ids: [u32; 4],
}

/// What a row holds.
pub ghost struct RowModel {
    pub translation: (F32, F32, F32),
    pub fade: F32,
    pub rotation: (F32, F32, F32, F32),
    pub scale: (F32, F32, F32),
    pub phase: F32,
    pub key: SubmissionInstanceKey,
    pub packet: u32,
}

impl View for SubmissionInstanceRow {
    type V = RowModel;

    open spec fn view(&self) -> RowModel {
        RowModel {
            translation: (
                self.translation_fade@[0],
                self.translation_fade@[1],
                self.translation_fade@[2],
            ),
            fade: self.translation_fade@[3],
            rotation: (
                self.rotation@[0],
                self.rotation@[1],
                self.rotation@[2],
                self.rotation@[3],
            ),
            scale: (self.scale_phase@[0], self.scale_phase@[1], self.scale_phase@[2]),
            phase: self.scale_phase@[3],
            key: SubmissionInstanceKey {
                mesh: self.ids@[0],
                material: self.ids@[1],
                anim_state: self.ids@[2],
            },
            packet: self.ids@[3],
        }
    }
}

impl RowModel {
    /// The words of a row, in the order of their bytes.
    pub open spec fn words(self) -> Seq<u32> {
        seq![
            self.translation.0.bits,
            self.translation.1.bits,
            self.translation.2.bits,
            self.fade.bits,
            self.rotation.0.bits,
            self.rotation.1.bits,
            self.rotation.2.bits,
            self.rotation.3.bits,
            self.scale.0.bits,
            self.scale.1.bits,
            self.scale.2.bits,
            self.phase.bits,
            self.key.mesh,
            self.key.material,
            self.key.anim_state,
            self.packet,
        ]
    }

    /// The row that stands at the start of some bytes.
    pub open spec fn read_from(bytes: Seq<u8>) -> RowModel {
        let w = |k: int| word_at(bytes, 4 * k);
        let f = |k: int| F32 { bits: word_at(bytes, 4 * k) };
        RowModel {
            translation: (f(0), f(1), f(2)),
            fade: f(3),
            rotation: (f(4), f(5), f(6), f(7)),
            scale: (f(8), f(9), f(10)),
            phase: f(11),
            key: SubmissionInstanceKey { mesh: w(12), material: w(13), anim_state: w(14) },
            packet: w(15),
        }
    }

    /// An entry of the transform: rotation after scale, and the translation in the last
    /// column. `d` is on the diagonal, `s` off it.
    pub open spec fn affine(self, i: int, j: int) -> F32 {
        let (x, y, z, w) = self.rotation;
        let one = pack32(false, ONE32 as int);
        let two = pack32(false, TWO32 as int);
        let d = |a: F32, b: F32, s: F32|
            one.sub_spec(two.mul_spec(a.mul_spec(a).add_spec(b.mul_spec(b)))).mul_spec(s);
        let sum = |a: F32, b: F32, c: F32, s: F32|
            two.mul_spec(a.mul_spec(b).add_spec(c.mul_spec(w))).mul_spec(s);
        let diff = |a: F32, b: F32, c: F32, s: F32|
            two.mul_spec(a.mul_spec(b).sub_spec(c.mul_spec(w))).mul_spec(s);
        let (sx, sy, sz) = self.scale;
        if i == 0 {
            if j == 0 {
                d(y, z, sx)
            } else if j == 1 {
                diff(x, y, z, sy)
            } else if j == 2 {
                sum(x, z, y, sz)
            } else {
                self.translation.0
            }
        } else if i == 1 {
            if j == 0 {
                sum(x, y, z, sx)
            } else if j == 1 {
                d(x, z, sy)
            } else if j == 2 {
                diff(y, z, x, sz)
            } else {
                self.translation.1
            }
        } else {
            if j == 0 {
                diff(x, z, y, sx)
            } else if j == 1 {
                sum(y, z, x, sy)
            } else if j == 2 {
                d(x, y, sz)
            } else {
                self.translation.2
            }
        }
    }

    /// The words of the transform, row by row.
    pub open spec fn affine_words(self) -> Seq<u32> {
        Seq::new(12, |k: int| self.affine(k / 4, k % 4).bits)
    }

    /// No translation, no rotation, scale one, no fading, and no packet.
    pub open spec fn neutral() -> RowModel {
        let zero = pack32(false, 0);
        let one = pack32(false, ONE32 as int);
        RowModel {
            translation: (zero, zero, zero),
            fade: one,
            rotation: (zero, zero, zero, one),
            scale: (one, one, one),
            phase: zero,
            key: SubmissionInstanceKey { mesh: 0, material: 0, anim_state: 0 },
            packet: u32::MAX,
        }
    }
}

/// A row survives its bytes: what is read from the bytes of a row is the row.
pub proof fn law_rows_survive_their_bytes(row: RowModel, rest: Seq<u8>)
    ensures
        RowModel::read_from(bytes_of(row.words()) + rest) == row,
{
    let b = bytes_of(row.words()) + rest;
    assert forall|k: int| 0 <= k < 16 implies #[trigger] word_at(b, 4 * k) == row.words()[k] by {
        law_words_survive_their_bytes(row.words(), rest, k);
    }
    assert(RowModel::read_from(b).translation == row.translation);
    assert(RowModel::read_from(b).rotation == row.rotation);
    assert(RowModel::read_from(b).scale == row.scale);
    assert(RowModel::read_from(b).key == row.key);
}

impl Default for SubmissionInstanceRow {
    fn default() -> (r: SubmissionInstanceRow)
        ensures
            r@ == RowModel::neutral(),
    {
        let zero = F32 { bits: 0 };
        let one = F32 { bits: ONE32 };
        SubmissionInstanceRow {
            translation_fade: [zero, zero, zero, one],
            rotation: [zero, zero, zero, one],
            scale_phase: [one, one, one, zero],
            ids: [0, 0, 0, u32::MAX],
        }
    }
}

impl SubmissionInstanceRow {
    /// The number of the packet, if the row has one.
    pub fn packet_index(&self) -> (r: Option<usize>)
        ensures
            r == (if self@.packet != u32::MAX {
                Some(self@.packet as usize)
            } else {
                None::<usize>
            }),
    {
        if self.ids[3] != u32::MAX {
            Some(self.ids[3] as usize)
        } else {
            None
        }
    }

    pub fn translation(&self) -> (r: [F32; 3])
        ensures
            (r@[0], r@[1], r@[2]) == self@.translation,
    {
        [self.translation_fade[0], self.translation_fade[1], self.translation_fade[2]]
    }

    pub fn fade(&self) -> (r: F32)
        ensures
            r == self@.fade,
    {
        self.translation_fade[3]
    }

    pub fn scale(&self) -> (r: [F32; 3])
        ensures
            (r@[0], r@[1], r@[2]) == self@.scale,
    {
        [self.scale_phase[0], self.scale_phase[1], self.scale_phase[2]]
    }

    pub fn anim_phase(&self) -> (r: F32)
        ensures
            r == self@.phase,
    {
        self.scale_phase[3]
    }

    pub fn mesh_handle(&self) -> (r: u32)
        ensures
            r == self@.key.mesh,
    {
        self.ids[0]
    }

    pub fn material_handle(&self) -> (r: u32)
        ensures
            r == self@.key.material,
    {
        self.ids[1]
    }

    pub fn anim_state(&self) -> (r: u32)
        ensures
            r == self@.key.anim_state,
    {
        self.ids[2]
    }

    pub fn key(&self) -> (r: SubmissionInstanceKey)
        ensures
            r == self@.key,
    {
        SubmissionInstanceKey {
            mesh: self.mesh_handle(),
            material: self.material_handle(),
            anim_state: self.anim_state(),
        }
    }

    pub fn span_key(&self) -> (r: (u32, u32, u32))
        ensures
            r == (self@.key.mesh, self@.key.material, self@.key.anim_state),
    {
        let key = self.key();
        (key.mesh, key.material, key.anim_state)
    }

    fn words(&self) -> (r: [u32; 16])
        ensures
            r@ == self@.words(),
    {
        let t = &self.translation_fade;
        let q = &self.rotation;
        let s = &self.scale_phase;
        let r = [
            t[0].bits,
            t[1].bits,
            t[2].bits,
            t[3].bits,
            q[0].bits,
            q[1].bits,
            q[2].bits,
            q[3].bits,
            s[0].bits,
            s[1].bits,
            s[2].bits,
            s[3].bits,
            self.ids[0],
            self.ids[1],
            self.ids[2],
            self.ids[3],
        ];
        assert(r@ =~= self@.words());
        r
    }

    /// The bytes of the row: translation and fade, rotation, scale and phase, ids.
    pub fn to_le_bytes(&self) -> (r: [u8; 64])
        ensures
            r@ == bytes_of(self@.words()),
    {
        let words = self.words();
        let mut bytes: [u8; 64] = [0u8; 64];
        let mut offset: usize = 0;
        let mut k: usize = 0;
        while k < 16
            invariant
                k <= 16,
                offset == 4 * k,
                words@.len() == 16,
                forall|i: int|
                    0 <= i < 4 * k ==> #[trigger] bytes@[i] == byte_of(words@[i / 4], i % 4),
            decreases 16 - k,
        {
            let ghost before = bytes@;
            write_u32(words[k], &mut bytes, &mut offset);
            proof {
                assert forall|i: int| 0 <= i < 4 * (k + 1) implies #[trigger] bytes@[i] == byte_of(
                    words@[i / 4],
                    i % 4,
                ) by {
                    if i < 4 * k {
                        assert(bytes@[i] == before[i]);
                    } else {
                        assert(i / 4 == k && i % 4 == i - 4 * k);
                    }
                }
            }
            k = k + 1;
        }
        assert(bytes@ =~= bytes_of(words@));
        bytes
    }

    /// Reads a row from the start of some bytes.
    pub fn from_le_bytes(bytes: &[u8]) -> (r: Option<SubmissionInstanceRow>)
        ensures
            r is None <==> bytes@.len() < 64,
            r is Some ==> r->0@ == RowModel::read_from(bytes@),
    {
        if bytes.len() < BYTE_LEN {
            return None;
        }
        let r = SubmissionInstanceRow {
            translation_fade: read_f32x4(bytes, 0),
            rotation: read_f32x4(bytes, 16),
            scale_phase: read_f32x4(bytes, 32),
            ids: [
                read_u32(bytes, 48),
                read_u32(bytes, 52),
                read_u32(bytes, 56),
                read_u32(bytes, 60),
            ],
        };
        proof {
            let m = RowModel::read_from(bytes@);
            assert(r@.translation == m.translation);
            assert(r@.rotation == m.rotation);
            assert(r@.scale == m.scale);
            assert(r@.key == m.key);
        }
        Some(r)
    }

    /// Appends the bytes of the row.
    pub fn append_le_bytes(&self, out: &mut Vec<u8>)
        ensures
            final(out)@ == old(out)@ + bytes_of(self@.words()),
    {
        let bytes = self.to_le_bytes();
        let ghost before = out@;
        let mut i: usize = 0;
        while i < 64
            invariant
                i <= 64,
                out@ =~= before + bytes@.take(i as int),
            decreases 64 - i,
        {
            out.push(bytes[i]);
            i = i + 1;
        }
        assert(bytes@.take(64) =~= bytes@);
    }

    /// Puts the bytes of the row at the start of `out`, if it is long enough.
    pub fn copy_le_bytes_to(&self, out: &mut [u8]) -> (r: bool)
        ensures
            r == (old(out)@.len() >= 64),
            !r ==> final(out)@ == old(out)@,
            r ==> final(out)@ == bytes_of(self@.words()) + old(out)@.skip(64),
    {
        let ghost before = out@;
        if out.len() < BYTE_LEN {
            return false;
        }
        let bytes = self.to_le_bytes();
        let mut i: usize = 0;
        while i < 64
            invariant
                i <= 64,
                out@.len() == before.len() >= 64,
                forall|k: int| 0 <= k < i ==> #[trigger] out@[k] == bytes@[k],
                forall|k: int| i <= k < out@.len() ==> #[trigger] out@[k] == before[k],
            decreases 64 - i,
        {
            out[i] = bytes[i];
            i = i + 1;
        }
        assert(out@ =~= bytes@ + before.skip(64));
        true
    }

    /// The transform: rotation after scale, with the translation in the last column.
    pub fn affine3x4(&self) -> (r: [[F32; 4]; 3])
        ensures
            forall|i: int, j: int|
                0 <= i < 3 && 0 <= j < 4 ==> #[trigger] r@[i]@[j] == self@.affine(i, j),
    {
        let x = self.rotation[0];
        let y = self.rotation[1];
        let z = self.rotation[2];
        let w = self.rotation[3];
        let sx = self.scale_phase[0];
        let sy = self.scale_phase[1];
        let sz = self.scale_phase[2];
        let one = F32 { bits: ONE32 };
        let two = F32 { bits: TWO32 };
        let xx = x.mul(x);
        let yy = y.mul(y);
        let zz = z.mul(z);
        let xy = x.mul(y);
        let xz = x.mul(z);
        let yz = y.mul(z);
        let xw = x.mul(w);
        let yw = y.mul(w);
        let zw = z.mul(w);
        let top = [
            one.sub(two.mul(yy.add(zz))).mul(sx),
            two.mul(xy.sub(zw)).mul(sy),
            two.mul(xz.add(yw)).mul(sz),
            self.translation_fade[0],
        ];
        let middle = [
            two.mul(xy.add(zw)).mul(sx),
            one.sub(two.mul(xx.add(zz))).mul(sy),
            two.mul(yz.sub(xw)).mul(sz),
            self.translation_fade[1],
        ];
        let bottom = [
            two.mul(xz.sub(yw)).mul(sx),
            two.mul(yz.add(xw)).mul(sy),
            one.sub(two.mul(xx.add(yy))).mul(sz),
            self.translation_fade[2],
        ];
        [top, middle, bottom]
    }

    /// The bytes of the transform, row by row.
    pub fn affine3x4_le_bytes(&self) -> (r: [u8; 48])
        ensures
            r@ == bytes_of(self@.affine_words()),
    {
        let m = self.affine3x4();
        let ghost words = self@.affine_words();
        let mut bytes: [u8; 48] = [0u8; 48];
        let mut offset: usize = 0;
        let mut k: usize = 0;
        while k < 12
            invariant
                k <= 12,
                offset == 4 * k,
                words == self@.affine_words(),
                forall|i: int, j: int|
                    0 <= i < 3 && 0 <= j < 4 ==> #[trigger] m@[i]@[j] == self@.affine(i, j),
                forall|i: int|
                    0 <= i < 4 * k ==> #[trigger] bytes@[i] == byte_of(words[i / 4], i % 4),
            decreases 12 - k,
        {
            let ghost before = bytes@;
            let v = m[k / 4][k % 4];
            write_u32(v.bits, &mut bytes, &mut offset);
            proof {
                assert(m@[k as int / 4]@[k as int % 4] == self@.affine(k as int / 4, k as int % 4));
                assert(words[k as int] == v.bits);
                assert forall|i: int| 0 <= i < 4 * (k + 1) implies #[trigger] bytes@[i] == byte_of(
                    words[i / 4],
                    i % 4,
                ) by {
                    if i < 4 * k {
                        assert(bytes@[i] == before[i]);
                    } else {
                        assert(i / 4 == k && i % 4 == i - 4 * k);
                    }
                }
            }
            k = k + 1;
        }
        assert(bytes@ =~= bytes_of(words));
        bytes
    }

    /// Reads a transform from the start of some bytes.
    pub fn affine3x4_from_le_bytes(bytes: &[u8]) -> (r: Option<[[F32; 4]; 3]>)
        ensures
            r is None <==> bytes@.len() < 48,
            r is Some ==> forall|i: int, j: int|
                0 <= i < 3 && 0 <= j < 4 ==> (#[trigger] r->0@[i]@[j]).bits == word_at(
                    bytes@,
                    16 * i + 4 * j,
                ),
    {
        if bytes.len() < AFFINE3X4_BYTE_LEN {
            return None;
        }
        Some([read_f32x4(bytes, 0), read_f32x4(bytes, 16), read_f32x4(bytes, 32)])
    }

    /// Puts the bytes of the transform at the start of `out`, if it is long enough.
    pub fn copy_affine3x4_le_bytes_to(&self, out: &mut [u8]) -> (r: bool)
        ensures
            r == (old(out)@.len() >= 48),
            !r ==> final(out)@ == old(out)@,
            r ==> final(out)@ == bytes_of(self@.affine_words()) + old(out)@.skip(48),
    {
        let ghost before = out@;
        if out.len() < AFFINE3X4_BYTE_LEN {
            return false;
        }
        let bytes = self.affine3x4_le_bytes();
        let mut i: usize = 0;
        while i < 48
            invariant
                i <= 48,
                out@.len() == before.len() >= 48,
                forall|k: int| 0 <= k < i ==> #[trigger] out@[k] == bytes@[k],
                forall|k: int| i <= k < out@.len() ==> #[trigger] out@[k] == before[k],
            decreases 48 - i,
        {
            out[i] = bytes[i];
            i = i + 1;
        }
        assert(out@ =~= bytes@ + before.skip(48));
        true
    }
}

/// What a packet says of its instance, as semantic values.
pub ghost struct Semantics {
    pub translation: Val,
    pub rotation: Val,
    pub scale: Val,
    pub mesh: Val,
    pub material: Val,
    pub anim_state: Val,
    pub anim_phase: F64,
    pub fade: F64,
}

/// A handle as a number: zero where the value is no integer of 32 bits.
pub open spec fn handle_of(v: Val) -> u32 {
    match v {
        Val::Int(i) => if 0 <= i <= u32::MAX {
            i as u32
        } else {
            0
        },
        _ => 0,
    }
}

pub fn numeric_handle(v: &Value) -> (r: u32)
    ensures
        r == handle_of(v@),
{
    match v {
        Value::Int(i) => if *i >= 0 && *i <= u32::MAX as i64 {
            *i as u32
        } else {
            0
        },
        _ => 0,
    }
}

/// A vector of finite numbers, rounded.
pub open spec fn vec3_of(v: Val) -> Option<(F32, F32, F32)> {
    match v {
        Val::Vec3(x, y, z) => if x.finite() && y.finite() && z.finite() {
            Some((F32::of_f64(x), F32::of_f64(y), F32::of_f64(z)))
        } else {
            None
        },
        _ => None,
    }
}

fn vec3_f32(v: &Value) -> (r: Option<(F32, F32, F32)>)
    ensures
        r == vec3_of(v@),
{
    match v.as_vec3() {
        Some(a) => if a[0].is_finite() && a[1].is_finite() && a[2].is_finite() {
            Some((F32::from_f64(a[0]), F32::from_f64(a[1]), F32::from_f64(a[2])))
        } else {
            None
        },
        None => None,
    }
}

/// A rotation, normalized and rounded.
pub open spec fn quat_of(v: Val) -> Option<(F32, F32, F32, F32)> {
    if v is Quat {
        match Quat::of(v).normalized() {
            Some(q) => Some((F32::of_f64(q.x), F32::of_f64(q.y), F32::of_f64(q.z), F32::of_f64(q.w))),
            None => None,
        }
    } else {
        None
    }
}

fn quat_f32(v: &Value) -> (r: Option<(F32, F32, F32, F32)>)
    ensures
        r == quat_of(v@),
{
    match v.as_quat() {
        Some(a) => {
            let q = Quat { x: a[0], y: a[1], z: a[2], w: a[3] };
            assert(q == Quat::of(v@));
            match q.normalize() {
                Some(n) => Some(
                    (F32::from_f64(n.x), F32::from_f64(n.y), F32::from_f64(n.z), F32::from_f64(n.w)),
                ),
                None => None,
            }
        },
        None => None,
    }
}

/// A finite number, rounded, or else the default.
pub open spec fn finite_or(v: F64, default: F32) -> F32 {
    if v.finite() {
        F32::of_f64(v)
    } else {
        default
    }
}

fn finite_f32(v: F64, default: F32) -> (r: F32)
    ensures
        r == finite_or(v, default),
{
    if v.is_finite() {
        F32::from_f64(v)
    } else {
        default
    }
}

/// A finite number, rounded and held between zero and one, or else the default.
pub open spec fn finite_unit_or(v: F64, default: F32) -> F32 {
    if v.finite() {
        F32::of_f64(v).unit_spec()
    } else {
        default
    }
}

fn finite_clamped_f32(v: F64, default: F32) -> (r: F32)
    ensures
        r == finite_unit_or(v, default),
{
    if v.is_finite() {
        F32::from_f64(v).clamp_unit()
    } else {
        default
    }
}

impl Semantics {
    /// The row of a packet: what is missing or not usable is neutral.
    pub open spec fn row(self, packet: u32) -> RowModel {
        let n = RowModel::neutral();
        RowModel {
            translation: match vec3_of(self.translation) {
                Some(t) => t,
                None => n.translation,
            },
            fade: finite_unit_or(self.fade, n.fade),
            rotation: match quat_of(self.rotation) {
                Some(q) => q,
                None => n.rotation,
            },
            scale: match vec3_of(self.scale) {
                Some(s) => s,
                None => n.scale,
            },
            phase: finite_or(self.anim_phase, n.phase),
            key: SubmissionInstanceKey {
                mesh: handle_of(self.mesh),
                material: handle_of(self.material),
                anim_state: handle_of(self.anim_state),
            },
            packet,
        }
    }
}

/// The row of what is drawn of an instance.
pub fn row_from_semantic(
    translation: &Value,
    rotation: &Value,
    scale: &Value,
    mesh: &Value,
    material: &Value,
    anim_state: &Value,
    anim_phase: F64,
    fade: F64,
    packet_index: u32,
) -> (r: SubmissionInstanceRow)
    ensures
        r@ == (Semantics {
            translation: translation@,
            rotation: rotation@,
            scale: scale@,
            mesh: mesh@,
            material: material@,
            anim_state: anim_state@,
            anim_phase,
            fade,
        }).row(packet_index),
{
    let default: SubmissionInstanceRow = SubmissionInstanceRow::default();
    let t = match vec3_f32(translation) {
        Some(t) => t,
        None => (
            default.translation_fade[0],
            default.translation_fade[1],
            default.translation_fade[2],
        ),
    };
    let s = match vec3_f32(scale) {
        Some(s) => s,
        None => (default.scale_phase[0], default.scale_phase[1], default.scale_phase[2]),
    };
    let q = match quat_f32(rotation) {
        Some(q) => q,
        None => (default.rotation[0], default.rotation[1], default.rotation[2], default.rotation[3]),
    };
    SubmissionInstanceRow {
        translation_fade: [
            t.0,
            t.1,
            t.2,
            finite_clamped_f32(fade, default.translation_fade[3]),
        ],
        rotation: [q.0, q.1, q.2, q.3],
        scale_phase: [s.0, s.1, s.2, finite_f32(anim_phase, default.scale_phase[3])],
        ids: [
            numeric_handle(mesh),
            numeric_handle(material),
            numeric_handle(anim_state),
            packet_index,
        ],
    }
}

}
