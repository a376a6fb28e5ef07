use gamenet::codec::encode;
use gamenet::codec::encode_frame;
use gamenet::codec::decode;
use gamenet::message::NetworkMessage;
use gamenet::message::Vec3Bits;

fn sample_position() -> NetworkMessage {
    NetworkMessage::SetPosition {
        uid: 3,
        position: Vec3Bits { x: 1.5f32.to_bits(), y: (-2.25f32).to_bits(), z: 0.0f32.to_bits() },
        rotation: Vec3Bits { x: 0.5f32.to_bits(), y: 3.25f32.to_bits(), z: (-1.0f32).to_bits() },
    }
}

#[test]
fn round_trip_every_variant() {
    let msgs = vec![
        NetworkMessage::Noop,
        NetworkMessage::Ping,
        NetworkMessage::PingResult(42),
        NetworkMessage::PingResult(0),
        NetworkMessage::Identify(7),
        NetworkMessage::Identify(u32::MAX),
        NetworkMessage::RemoveEntity { uid: 9 },
        sample_position(),
    ];
    for m in msgs {
        let bytes = encode(&m);
        assert_eq!(decode(&bytes), Ok(m));
    }
}

#[test]
fn exact_payload_bytes() {
    assert_eq!(encode(&NetworkMessage::Noop), vec![0]);
    assert_eq!(encode(&NetworkMessage::Ping), vec![1]);
    assert_eq!(encode(&NetworkMessage::PingResult(258)), vec![2, 0, 0, 1, 2]);
    assert_eq!(encode(&NetworkMessage::Identify(0x01020304)), vec![3, 1, 2, 3, 4]);
    assert_eq!(encode(&NetworkMessage::RemoveEntity { uid: 0xffff_ffff }), vec![4, 255, 255, 255, 255]);
    let p = encode(&sample_position());
    assert_eq!(p.len(), 29);
    assert_eq!(p[0], 5);
    assert_eq!(&p[1..5], &[0, 0, 0, 3]);
    assert_eq!(&p[5..9], &1.5f32.to_bits().to_be_bytes());
}

#[test]
fn frame_prefixes_payload_length() {
    assert_eq!(encode_frame(&NetworkMessage::Ping), vec![0, 0, 0, 1, 1]);
    let f = encode_frame(&NetworkMessage::Identify(5));
    assert_eq!(f, vec![0, 0, 0, 5, 3, 0, 0, 0, 5]);
    let f2 = encode_frame(&sample_position());
    assert_eq!(&f2[0..4], &[0, 0, 0, 29]);
    assert_eq!(&f2[4..], &encode(&sample_position())[..]);
}

#[test]
fn decode_rejects_empty_and_unknown_tag() {
    assert!(decode(&[]).is_err());
    assert!(decode(&[6]).is_err());
    assert!(decode(&[99, 0, 0, 0, 0]).is_err());
}

#[test]
fn decode_rejects_truncated_fields() {
    assert!(decode(&[2]).is_err());
    assert!(decode(&[2, 0, 0, 1]).is_err());
    assert!(decode(&[3, 0]).is_err());
    assert!(decode(&[5, 0, 0, 0, 3]).is_err());
}

#[test]
fn decode_rejects_trailing_bytes() {
    assert!(decode(&[0, 0]).is_err());
    assert!(decode(&[1, 1]).is_err());
    assert!(decode(&[2, 0, 0, 1, 2, 9]).is_err());
}

#[test]
fn discriminants_compare_types_not_contents() {
    let a = NetworkMessage::PingResult(1);
    let b = NetworkMessage::PingResult(999);
    assert!(a.is_same_type_as(&b));
    assert!(!a.is_same_type_as(&NetworkMessage::Ping));
    assert_eq!(sample_position().discriminant(), 5);
    assert!(sample_position().is_same_type_as(&NetworkMessage::SetPosition {
        uid: 0,
        position: Vec3Bits { x: 0, y: 0, z: 0 },
        rotation: Vec3Bits { x: 0, y: 0, z: 0 },
    }));
}
