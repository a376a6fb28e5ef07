use gamenet::codec::encode_frame;
use gamenet::message::NetworkMessage;
use gamenet::server::ServerSocket;
use gamenet::transport::SocketEvent;

/// A manager with three freshly accepted peers, ids 1, 2 and 3.
fn three_peers() -> ServerSocket {
    let mut s = ServerSocket::create("localhost", 8080);
    let r = s.listen(0, true, vec![SocketEvent::NoData]);
    assert_eq!(r.accepted_id, Some(1));
    let r = s.listen(0, true, vec![SocketEvent::NoData, SocketEvent::NoData]);
    assert_eq!(r.accepted_id, Some(2));
    let r = s.listen(
        0,
        true,
        vec![SocketEvent::NoData, SocketEvent::NoData, SocketEvent::NoData],
    );
    assert_eq!(r.accepted_id, Some(3));
    assert_eq!(s.client_ids(), vec![1, 2, 3]);
    s
}

#[test]
fn accept_assigns_monotonic_unique_ids() {
    let s = three_peers();
    assert_eq!(s.client_ids(), vec![1, 2, 3]);
}

#[test]
fn broadcast_addresses_every_live_peer() {
    let s = three_peers();
    let m = NetworkMessage::RemoveEntity { uid: 12 };
    let frames = s.broadcast(&m);
    assert_eq!(frames.len(), 3);
    for (k, (id, bytes)) in frames.iter().enumerate() {
        assert_eq!(*id, (k + 1) as u32);
        assert_eq!(*bytes, encode_frame(&m));
    }
}

#[test]
fn broadcast_fault_isolation() {
    let mut s = three_peers();
    // Peer 2's socket failed on write: it is only marked, and a broadcast
    // still attempts delivery to peers 1 and 3 (and 2, until the next pump).
    s.write_failed(2);
    let frames = s.broadcast(&NetworkMessage::Ping);
    assert_eq!(frames.len(), 3);
    // The next pump removes peer 2 and fires its disconnect exactly once.
    let r = s.listen(
        10,
        false,
        vec![SocketEvent::NoData, SocketEvent::NoData, SocketEvent::NoData],
    );
    assert_eq!(r.removed, vec![2]);
    assert_eq!(s.client_ids(), vec![1, 3]);
    let frames = s.broadcast(&NetworkMessage::Ping);
    assert_eq!(frames.len(), 2);
    assert_eq!(frames[0].0, 1);
    assert_eq!(frames[1].0, 3);
}

#[test]
fn disconnect_callback_fires_exactly_once() {
    let mut s = three_peers();
    let r = s.listen(
        10,
        false,
        vec![SocketEvent::NoData, SocketEvent::Closed, SocketEvent::NoData],
    );
    assert_eq!(r.removed, vec![2]);
    assert_eq!(s.client_ids(), vec![1, 3]);
    // The removed peer does not surface again on a later pass.
    let r = s.listen(20, false, vec![SocketEvent::NoData, SocketEvent::NoData]);
    assert!(r.removed.is_empty());
    assert_eq!(s.client_ids(), vec![1, 3]);
}

#[test]
fn removals_happen_in_descending_index_order() {
    let mut s = three_peers();
    let r = s.listen(
        10,
        false,
        vec![SocketEvent::Closed, SocketEvent::NoData, SocketEvent::Failed],
    );
    assert_eq!(r.removed, vec![3, 1]);
    assert_eq!(s.client_ids(), vec![2]);
}

#[test]
fn pump_surfaces_messages_with_peer_ids() {
    let mut s = three_peers();
    let m1 = NetworkMessage::Identify(9);
    let m2 = NetworkMessage::RemoveEntity { uid: 5 };
    let mut batch = encode_frame(&m1);
    batch.extend_from_slice(&encode_frame(&m2));
    let r = s.listen(
        10,
        false,
        vec![
            SocketEvent::Data(batch),
            SocketEvent::NoData,
            SocketEvent::Data(encode_frame(&NetworkMessage::Ping)),
        ],
    );
    assert_eq!(r.messages, vec![(1, m1), (1, m2), (3, NetworkMessage::Ping)]);
    assert!(r.removed.is_empty());
}

#[test]
fn undecodable_frame_removes_only_that_peer() {
    let mut s = three_peers();
    let r = s.listen(
        10,
        false,
        vec![
            SocketEvent::NoData,
            SocketEvent::Data(vec![0, 0, 0, 1, 99]),
            SocketEvent::NoData,
        ],
    );
    assert_eq!(r.removed, vec![2]);
    assert_eq!(s.client_ids(), vec![1, 3]);
}

#[test]
fn ping_sweep_and_latency_reply() {
    let mut s = three_peers();
    // Too early for a sweep right after start-up time zero... the first
    // sweep becomes due once the interval has elapsed.
    assert_eq!(s.maybe_ping(999), None);
    let f = s.maybe_ping(1000);
    assert_eq!(f, Some(encode_frame(&NetworkMessage::Ping)));
    assert_eq!(s.maybe_ping(1500), None);
    // Peer 1 echoes the ping 250ms after the sweep: the manager owes it
    // a PingResult carrying the elapsed time.
    let r = s.listen(
        1250,
        false,
        vec![
            SocketEvent::Data(encode_frame(&NetworkMessage::Ping)),
            SocketEvent::NoData,
            SocketEvent::NoData,
        ],
    );
    assert_eq!(r.messages, vec![(1, NetworkMessage::Ping)]);
    assert_eq!(r.replies, vec![(1, NetworkMessage::PingResult(250))]);
}

#[test]
fn accept_and_pump_in_one_pass() {
    let mut s = ServerSocket::create("localhost", 8080);
    let r = s.listen(0, true, vec![SocketEvent::NoData]);
    assert_eq!(r.accepted_id, Some(1));
    // The freshly accepted peer is already scanned in the same pass.
    let r = s.listen(
        5,
        true,
        vec![
            SocketEvent::NoData,
            SocketEvent::Data(encode_frame(&NetworkMessage::Identify(1))),
        ],
    );
    assert_eq!(r.accepted_id, Some(2));
    assert_eq!(r.messages, vec![(2, NetworkMessage::Identify(1))]);
}
