use pce::entity::{EntityTypeId, InstanceId};
use pce::float32::F32;
use pce::float64::F64;
use pce::render::instance_row::{write_u32, BYTE_LEN};
use pce::render::submission::{RenderPacket, SubmissionView};
use pce::render::{
    SubmissionInstanceLayout, SubmissionInstanceRow, SubmissionInstanceSlot,
};
use pce::value::Value;

fn n(x: f64) -> F64 {
    F64 { bits: x.to_bits() }
}

fn s(x: F32) -> f32 {
    f32::from_bits(x.bits)
}

fn packet(mesh: i64, material: i64) -> RenderPacket {
    RenderPacket {
        inst: InstanceId { ty: EntityTypeId(1), id: 0, generation: 0 },
        translation: Value::vec3(n(1.0), n(2.0), n(3.0)),
        rotation: Value::quat(n(0.0), n(0.0), n(2.0), n(0.0)),
        scale: Value::Null,
        mesh: Value::Int(mesh),
        material: Value::Int(material),
        anim_state: Value::str("run"),
        anim_phase: n(0.25),
        fade: n(0.5),
    }
}

#[test]
fn a_row_is_the_packet_in_fixed_shape() {
    let row = SubmissionInstanceRow::from_packet(&packet(7, -3), 4);
    let t = row.translation();
    assert_eq!((s(t[0]), s(t[1]), s(t[2])), (1.0, 2.0, 3.0));
    assert_eq!(s(row.fade()), 0.5);
    assert_eq!(s(row.rotation[2]), 1.0);
    let k = row.scale();
    assert_eq!((s(k[0]), s(k[1]), s(k[2])), (1.0, 1.0, 1.0));
    assert_eq!(s(row.anim_phase()), 0.25);
    assert_eq!(row.mesh_handle(), 7);
    assert_eq!(row.material_handle(), 0);
    assert_eq!(row.anim_state(), 0);
    assert_eq!(row.packet_index(), Some(4));
    assert_eq!(row.span_key(), (7, 0, 0));
    assert_eq!(SubmissionInstanceRow::default().packet_index(), None);
}

#[test]
fn a_row_survives_its_bytes() {
    let row = SubmissionInstanceRow::from_packet(&packet(0x01020304, 9), 11);
    let bytes = row.to_le_bytes();
    assert_eq!(&bytes[0..4], &1.0f32.to_le_bytes());
    assert_eq!(&bytes[48..52], &[4, 3, 2, 1]);
    let back = SubmissionInstanceRow::from_le_bytes(&bytes).unwrap();
    assert_eq!(back.to_le_bytes(), bytes);
    assert!(SubmissionInstanceRow::from_le_bytes(&bytes[..63]).is_none());
    let mut out = [9u8; 70];
    assert!(row.copy_le_bytes_to(&mut out));
    assert_eq!(&out[..64], &bytes[..]);
    assert_eq!(out[64], 9);
    let mut short = [0u8; 10];
    assert!(!row.copy_le_bytes_to(&mut short));
}

#[test]
fn words_are_written_lowest_byte_first() {
    let mut out = [0u8; 6];
    let mut at: usize = 1;
    write_u32(0xA1B2C3D4, &mut out, &mut at);
    assert_eq!(out, [0, 0xD4, 0xC3, 0xB2, 0xA1, 0]);
    assert_eq!(at, 5);
}

#[test]
fn the_transform_is_rotation_after_scale() {
    let mut row = SubmissionInstanceRow::from_packet(&packet(1, 1), 0);
    let h = 0.5f32.sqrt();
    row.rotation = [
        F32 { bits: 0 },
        F32 { bits: 0 },
        F32 { bits: h.to_bits() },
        F32 { bits: h.to_bits() },
    ];
    row.scale_phase[0] = F32 { bits: 2.0f32.to_bits() };
    let m = row.affine3x4();
    let (z, w) = (h, h);
    assert_eq!(s(m[0][0]), (1.0 - 2.0 * (0.0 + z * z)) * 2.0);
    assert_eq!(s(m[1][0]), (2.0 * (0.0 + z * w)) * 2.0);
    assert_eq!(s(m[0][1]), (2.0 * (0.0 - z * w)) * 1.0);
    assert_eq!(s(m[2][2]), 1.0);
    assert_eq!((s(m[0][3]), s(m[1][3]), s(m[2][3])), (1.0, 2.0, 3.0));
    let bytes = row.affine3x4_le_bytes();
    let back = SubmissionInstanceRow::affine3x4_from_le_bytes(&bytes).unwrap();
    for i in 0..3 {
        for j in 0..4 {
            assert_eq!(back[i][j].bits, m[i][j].bits);
        }
    }
    assert!(SubmissionInstanceRow::affine3x4_from_le_bytes(&bytes[..47]).is_none());
    let mut out = [0u8; 48];
    assert!(row.copy_affine3x4_le_bytes_to(&mut out));
    assert_eq!(out, bytes);
}

#[test]
fn spans_tile_the_rows() {
    let view = SubmissionView {
        packets: vec![packet(1, 1), packet(1, 1), packet(2, 1), packet(1, 1)],
    };
    let stream = view.instance_stream();
    assert_eq!(stream.len(), 4);
    let spans: Vec<(u32, u32, u32)> =
        stream.spans.iter().map(|x| (x.mesh, x.first, x.count)).collect();
    assert_eq!(spans, vec![(1, 0, 2), (2, 2, 1), (1, 3, 1)]);
    assert_eq!(stream.spans[0].range(), 0..2);
    assert_eq!(stream.spans[1].byte_range(), 128..192);
    assert_eq!(stream.instance_bytes().len(), 4 * BYTE_LEN);
    assert_eq!(stream.byte_len(), 256);
    assert_eq!(stream.rows[3].packet_index(), Some(3));
    assert_eq!(view.iter().count(), 4);
}

#[test]
fn the_layout_says_where_the_parts_stand() {
    let l = SubmissionInstanceLayout::canonical();
    assert_eq!(l.row_range(2), 128..192);
    assert_eq!(l.slot_range(SubmissionInstanceSlot::Ids), 48..64);
    assert_eq!(l.slot_range(SubmissionInstanceSlot::Rotation), 16..32);
    assert_eq!(l.row_range(usize::MAX), usize::MAX..usize::MAX);
    assert!(l == SubmissionInstanceLayout::default());
}
