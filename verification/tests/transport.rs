use gamenet::codec::encode_frame;
use gamenet::message::NetworkMessage;
use gamenet::transport::ClientError;
use gamenet::transport::ClientSocket;
use gamenet::transport::SocketEvent;

#[test]
fn byte_at_a_time_yields_message_on_final_byte_only() {
    let m = NetworkMessage::Identify(77);
    let f = encode_frame(&m);
    let mut s = ClientSocket::accepted(1);
    for i in 0..f.len() {
        let r = s.get_message(SocketEvent::Data(vec![f[i]]));
        if i + 1 < f.len() {
            assert_eq!(r, Ok(None));
        } else {
            assert_eq!(r, Ok(Some(m)));
        }
    }
    assert_eq!(s.get_message(SocketEvent::NoData), Ok(None));
}

#[test]
fn arbitrary_chunks_yield_message_on_final_chunk_only() {
    let m = NetworkMessage::PingResult(123);
    let f = encode_frame(&m);
    assert_eq!(f.len(), 9);
    let mut s = ClientSocket::accepted(1);
    assert_eq!(s.get_message(SocketEvent::Data(f[0..3].to_vec())), Ok(None));
    assert_eq!(s.get_message(SocketEvent::Data(f[3..8].to_vec())), Ok(None));
    assert_eq!(s.get_message(SocketEvent::Data(f[8..9].to_vec())), Ok(Some(m)));
    assert_eq!(s.get_message(SocketEvent::NoData), Ok(None));
}

#[test]
fn back_to_back_frames_in_one_read() {
    let m1 = NetworkMessage::PingResult(10);
    let m2 = NetworkMessage::RemoveEntity { uid: 4 };
    let mut bytes = encode_frame(&m1);
    bytes.extend_from_slice(&encode_frame(&m2));
    let mut s = ClientSocket::accepted(1);
    assert_eq!(s.get_message(SocketEvent::Data(bytes)), Ok(Some(m1)));
    assert_eq!(s.get_message(SocketEvent::NoData), Ok(Some(m2)));
    assert_eq!(s.get_message(SocketEvent::NoData), Ok(None));
}

#[test]
fn drain_frames_collects_whole_batch() {
    let m1 = NetworkMessage::Ping;
    let m2 = NetworkMessage::Identify(2);
    let mut bytes = encode_frame(&m1);
    bytes.extend_from_slice(&encode_frame(&m2));
    let mut s = ClientSocket::accepted(1);
    let (msgs, clean) = s.drain_frames(SocketEvent::Data(bytes));
    assert!(clean);
    assert_eq!(msgs, vec![m1, m2]);
}

#[test]
fn closed_and_failed_reads_disconnect() {
    let mut s = ClientSocket::accepted(1);
    assert_eq!(s.get_message(SocketEvent::Closed), Err(ClientError::Disconnected));
    let mut s2 = ClientSocket::accepted(2);
    assert_eq!(s2.get_message(SocketEvent::Failed), Err(ClientError::Disconnected));
}

#[test]
fn reading_without_a_socket_is_an_error() {
    let mut s = ClientSocket::create("localhost", 8080);
    assert!(!s.is_connected());
    assert_eq!(s.get_message(SocketEvent::NoData), Err(ClientError::Disconnected));
}

#[test]
fn undecodable_frame_is_fatal() {
    let mut s = ClientSocket::accepted(1);
    // A complete frame whose one-byte payload is an unknown tag.
    let r = s.get_message(SocketEvent::Data(vec![0, 0, 0, 1, 99]));
    assert_eq!(r, Err(ClientError::Disconnected));
}

#[test]
fn send_frames_or_reports_disconnected() {
    let s = ClientSocket::accepted(3);
    assert_eq!(s.send(&NetworkMessage::Ping), Ok(encode_frame(&NetworkMessage::Ping)));
    let d = ClientSocket::create("localhost", 8080);
    assert_eq!(d.send(&NetworkMessage::Ping), Err(ClientError::Disconnected));
}

#[test]
fn disconnect_detaches_the_socket() {
    let mut s = ClientSocket::accepted(5);
    assert!(s.is_connected());
    s.disconnect();
    assert!(!s.is_connected());
}
