use cova::bbox::{Bbox, Frame};
use cova::codec::{length_prefixed, read_bbox, DecodeError};

fn b(left: f32, top: f32, width: f32, height: f32) -> Bbox {
    Bbox::new(left.to_bits(), top.to_bits(), width.to_bits(), height.to_bits(), (width * height).to_bits())
}

#[test]
fn test_serde_vec() {
    let a = vec![b(0., 0., 2., 2.)];
    let serialized = Bbox::serialize_vec(&a);
    let c = Bbox::deserialize_vec(&serialized[..]).unwrap();
    assert_eq!(a, c);
}

#[test]
fn test_serde() {
    let a = Frame { range_start: 0, oldest: 0, bboxes: vec![b(0., 0., 2., 2.)] };
    let serialized = a.ser();
    let c = Frame::de(&serialized[..]).unwrap();
    assert_eq!(a, c);
}

#[test]
fn frame_round_trip_with_optional_fields() {
    let mut x = b(1.5, 2.5, 3.0, 4.0);
    x.track_id = Some(7);
    x.timestamp = Some(33_333_333);
    x.class_id = Some(3);
    x.confidence = Some(0.75f32.to_bits());
    let a = Frame { range_start: 1_000, oldest: u64::MAX, bboxes: vec![x, b(0., 0., 1., 1.)] };
    let bytes = a.ser();
    assert_eq!(Frame::de(&bytes).unwrap(), a);
}

#[test]
fn bbox_wire_layout() {
    let mut x = b(0., 0., 2., 2.);
    x.track_id = Some(1);
    let bytes = Bbox::serialize_vec(&vec![x]);
    // count, five floats, then tags: track id present, three absent
    assert_eq!(bytes.len(), 8 + 20 + 9 + 1 + 1 + 1);
    assert_eq!(&bytes[0..8], &1u64.to_le_bytes());
    assert_eq!(&bytes[16..20], &2f32.to_le_bytes());
    assert_eq!(bytes[28], 1);
    assert_eq!(&bytes[29..37], &1u64.to_le_bytes());
    assert_eq!(&bytes[37..40], &[0, 0, 0]);
    let (y, next) = read_bbox(&bytes, 8).unwrap();
    assert_eq!(y, x);
    assert_eq!(next, bytes.len());
}

#[test]
fn decode_ignores_trailing_bytes() {
    let a = Frame { range_start: 5, oldest: 6, bboxes: vec![] };
    let mut bytes = a.ser();
    bytes.push(42);
    assert_eq!(Frame::de(&bytes).unwrap(), a);
}

#[test]
fn decode_rejects_truncated_frame() {
    let a = Frame { range_start: 5, oldest: 6, bboxes: vec![b(0., 0., 2., 2.)] };
    let bytes = a.ser();
    assert_eq!(Frame::de(&bytes[..bytes.len() - 1]), Err(DecodeError::Malformed));
    assert_eq!(Frame::de(&[]), Err(DecodeError::Malformed));
}

#[test]
fn decode_rejects_bad_tag() {
    let mut bytes = Bbox::serialize_vec(&vec![b(0., 0., 2., 2.)]);
    bytes[28] = 2;
    assert_eq!(Bbox::deserialize_vec(&bytes), Err(DecodeError::Malformed));
}

#[test]
fn length_prefix_is_big_endian() {
    let payload: Vec<u8> = (0..300u32).map(|i| i as u8).collect();
    let rec = length_prefixed(&payload);
    assert_eq!(&rec[0..4], &[0, 0, 1, 44]);
    assert_eq!(&rec[4..], &payload[..]);
}

#[test]
fn track_ids_are_offset_by_shard() {
    let mut x = b(0., 0., 1., 1.);
    x.track_id = Some(3);
    let mut f = Frame { range_start: 1_000, oldest: 0, bboxes: vec![x] };
    assert!(f.offset_track_ids());
    assert_eq!(f.bboxes[0].track_id, Some(1_003));
    let mut g = Frame { range_start: 1, oldest: 0, bboxes: vec![b(0., 0., 1., 1.)] };
    assert!(!g.offset_track_ids());
    assert_eq!(g.bboxes[0].track_id, None);
}
