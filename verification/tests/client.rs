use gamenet::client::ConnectPoll;
use gamenet::client::Network;
use gamenet::codec::encode_frame;
use gamenet::message::NetworkMessage;
use gamenet::message::Vec3Bits;
use gamenet::transport::SocketEvent;

fn connect(n: &mut Network, now: u64) {
    let r = n.update(now, ConnectPoll::Pending, SocketEvent::NoData);
    assert!(r.start_connect);
    let r2 = n.update(now + 1, ConnectPoll::Finished(true), SocketEvent::NoData);
    assert!(!r2.start_connect);
    assert!(n.is_connected());
}

fn set_position() -> NetworkMessage {
    NetworkMessage::SetPosition {
        uid: 0,
        position: Vec3Bits { x: 1.0f32.to_bits(), y: 0, z: 0 },
        rotation: Vec3Bits { x: 0, y: 0, z: 0 },
    }
}

#[test]
fn reconnect_is_single_flight() {
    let mut n = Network::new();
    assert!(!n.is_connected());
    let first = n.update(5000, ConnectPoll::Pending, SocketEvent::NoData);
    assert!(first.start_connect);
    assert!(first.messages.is_empty());
    // The attempt is still outstanding: no second attempt is spawned.
    let second = n.update(5001, ConnectPoll::Pending, SocketEvent::NoData);
    assert!(!second.start_connect);
    let third = n.update(6500, ConnectPoll::Pending, SocketEvent::NoData);
    assert!(!third.start_connect);
}

#[test]
fn failed_attempt_retries_only_after_backoff() {
    let mut n = Network::new();
    let r = n.update(1000, ConnectPoll::Pending, SocketEvent::NoData);
    assert!(r.start_connect);
    let r = n.update(2000, ConnectPoll::Finished(false), SocketEvent::NoData);
    assert!(!r.start_connect);
    assert!(!n.is_connected());
    // Within the backoff window nothing is spawned.
    let r = n.update(2999, ConnectPoll::Pending, SocketEvent::NoData);
    assert!(!r.start_connect);
    // Once the backoff has elapsed a single new attempt starts.
    let r = n.update(3000, ConnectPoll::Pending, SocketEvent::NoData);
    assert!(r.start_connect);
}

#[test]
fn update_surfaces_decoded_messages_in_order() {
    let mut n = Network::new();
    connect(&mut n, 100);
    let m1 = NetworkMessage::Identify(4);
    let m2 = NetworkMessage::Ping;
    let mut bytes = encode_frame(&m1);
    bytes.extend_from_slice(&encode_frame(&m2));
    let r = n.update(200, ConnectPoll::Pending, SocketEvent::Data(bytes));
    assert_eq!(r.messages, vec![m1, m2]);
    assert!(n.is_connected());
}

#[test]
fn closed_read_disconnects_and_restarts_backoff() {
    let mut n = Network::new();
    connect(&mut n, 100);
    let r = n.update(500, ConnectPoll::Pending, SocketEvent::Closed);
    assert!(r.messages.is_empty());
    assert!(!n.is_connected());
    // The backoff restarts from the disconnect time.
    let r = n.update(1400, ConnectPoll::Pending, SocketEvent::NoData);
    assert!(!r.start_connect);
    let r = n.update(1500, ConnectPoll::Pending, SocketEvent::NoData);
    assert!(r.start_connect);
}

#[test]
fn undecodable_frame_disconnects_and_discards_batch() {
    let mut n = Network::new();
    connect(&mut n, 100);
    let mut bytes = encode_frame(&NetworkMessage::Ping);
    bytes.extend_from_slice(&[0, 0, 0, 1, 99]);
    let r = n.update(200, ConnectPoll::Pending, SocketEvent::Data(bytes));
    assert!(r.messages.is_empty());
    assert!(!n.is_connected());
}

#[test]
fn send_encodes_only_while_connected() {
    let mut n = Network::new();
    assert_eq!(n.send(&NetworkMessage::Ping), None);
    connect(&mut n, 100);
    assert_eq!(n.send(&NetworkMessage::Ping), Some(encode_frame(&NetworkMessage::Ping)));
}

#[test]
fn throttle_suppresses_within_the_window() {
    let mut n = Network::new();
    connect(&mut n, 100);
    let m = set_position();
    // First call writes.
    assert!(n.send_throttled(m, 100, 1000).is_some());
    // A second call within 100ms is a no-op.
    assert!(n.send_throttled(m, 100, 1050).is_none());
    // A third call once 100ms have elapsed writes again.
    assert!(n.send_throttled(m, 100, 1100).is_some());
}

#[test]
fn throttle_tracks_types_independently() {
    let mut n = Network::new();
    connect(&mut n, 100);
    assert!(n.send_throttled(set_position(), 100, 1000).is_some());
    // A different message type is not affected by the SetPosition entry.
    assert!(n.send_throttled(NetworkMessage::Ping, 100, 1000).is_some());
    // Field values do not matter, only the type.
    let other = NetworkMessage::SetPosition {
        uid: 9,
        position: Vec3Bits { x: 7, y: 8, z: 9 },
        rotation: Vec3Bits { x: 1, y: 2, z: 3 },
    };
    assert!(n.send_throttled(other, 100, 1010).is_none());
}

#[test]
fn client_echoes_liveness_probes() {
    assert_eq!(gamenet::client::ping_reply(&NetworkMessage::Ping), Some(NetworkMessage::Ping));
    assert_eq!(gamenet::client::ping_reply(&NetworkMessage::Identify(1)), None);
    assert_eq!(gamenet::client::ping_reply(&NetworkMessage::PingResult(3)), None);
}

#[test]
fn throttle_records_even_while_disconnected() {
    let mut n = Network::new();
    // Disconnected: nothing to write, but the timestamp is recorded.
    assert!(n.send_throttled(set_position(), 100, 1000).is_none());
    assert!(n.send_throttled(set_position(), 100, 1050).is_none());
}
