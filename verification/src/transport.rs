//! The transport: one peer's connection state plus the byte accumulation
//! buffer that turns partial reads into complete frames.
//!
//! The transport itself performs no I/O. The embedding loop reads from the
//! socket and hands the outcome in as a [`SocketEvent`]; outgoing messages
//! come back as encoded frames for the embedding loop to write. Everything
//! in between — buffering, frame extraction, decoding — is verified here.

use vstd::prelude::*;

use crate::codec::frame;
use crate::codec::be32_val;
use crate::codec::decode;
use crate::codec::encode_frame;
use crate::codec::parse_payload;
use crate::codec::read_be32;
use crate::message::NetworkMessage;

verus! {

/// Transport-level failures as the embedding application sees them.
#[derive(Clone, Copy, Debug, PartialEq, Eq, Structural)]
pub enum ClientError {
    CouldNotConnect,
    Disconnected,
}

/// The outcome of one attempt to read from a socket, reported by the
/// embedding loop. `Data` carries every byte currently available;
/// `NoData` is the platform's "nothing right now" condition, which is
/// not an error; `Closed` is a clean peer shutdown (a zero-length read);
/// `Failed` is any other read error.
pub enum SocketEvent {
    Data(Vec<u8>),
    NoData,
    Closed,
    Failed,
}

/// The mathematical state of one transport.
#[verifier::ext_equal]
pub ghost struct ClientView {
    pub connected: bool,
    pub buf: Seq<u8>,
    pub host: Seq<char>,
    pub port: u16,
    pub id: u32,
    pub last_ping_time: u64,
}

/// One peer's transport: whether a socket is currently attached, and the
/// bytes received so far that do not yet form a complete frame.
pub struct ClientSocket {
    live: bool,
    buffer: Vec<u8>,
    host: String,
    port: u16,
    pub id: u32,
    pub last_ping_time: u64,
}

impl View for ClientSocket {
    type V = ClientView;

    closed spec fn view(&self) -> ClientView {
        ClientView {
            connected: self.live,
            buf: self.buffer@,
            host: self.host@,
            port: self.port,
            id: self.id,
            last_ping_time: self.last_ping_time,
        }
    }
}

/// The buffer after a read outcome has been folded in: a successful read
/// appends its bytes, anything else leaves the buffer alone.
pub open spec fn feed(b: Seq<u8>, e: SocketEvent) -> Seq<u8> {
    match e {
        SocketEvent::Data(d) => b + d@,
        _ => b,
    }
}

/// The payload length announced by the frame header at the front of `b`.
pub open spec fn frame_len(b: Seq<u8>) -> int
    recommends
        b.len() >= 4,
{
    be32_val(b.subrange(0, 4)) as int
}

/// Whether `b` starts with one complete frame: the 4-byte header is there
/// and the payload it announces is there in full.
pub open spec fn frame_ready(b: Seq<u8>) -> bool {
    b.len() >= 4 && b.len() >= 4 + frame_len(b)
}

/// The payload of the complete frame at the front of `b`.
pub open spec fn frame_payload(b: Seq<u8>) -> Seq<u8>
    recommends
        frame_ready(b),
{
    b.subrange(4, 4 + frame_len(b))
}

/// What remains of `b` once the frame at the front is drained.
pub open spec fn frame_rest(b: Seq<u8>) -> Seq<u8>
    recommends
        frame_ready(b),
{
    b.subrange(4 + frame_len(b), b.len() as int)
}

/// Draining a buffer to exhaustion: the messages of every complete frame
/// at the front, in order; the bytes left over; and whether every drained
/// frame decoded (`false` means the stream is desynchronized and the
/// connection must be torn down).
pub open spec fn drain(b: Seq<u8>) -> (Seq<NetworkMessage>, Seq<u8>, bool)
    decreases b.len(),
{
    if !frame_ready(b) {
        (Seq::<NetworkMessage>::empty(), b, true)
    } else if parse_payload(frame_payload(b)) is Some {
        let m = parse_payload(frame_payload(b))->Some_0;
        let tail = drain(frame_rest(b));
        (seq![m] + tail.0, tail.1, tail.2)
    } else {
        (Seq::<NetworkMessage>::empty(), frame_rest(b), false)
    }
}

/// The state and result of one `get_message` call on a transport in state
/// `c` after read outcome `e`.
pub open spec fn get_message_spec(c: ClientView, e: SocketEvent) -> (
    ClientView,
    Result<Option<NetworkMessage>, ClientError>,
) {
    if !c.connected {
        (c, Result::Err(ClientError::Disconnected))
    } else {
        match e {
            SocketEvent::Closed => (c, Result::Err(ClientError::Disconnected)),
            SocketEvent::Failed => (c, Result::Err(ClientError::Disconnected)),
            _ => {
                let b = feed(c.buf, e);
                if !frame_ready(b) {
                    (ClientView { buf: b, ..c }, Result::Ok(Option::None))
                } else if parse_payload(frame_payload(b)) is Some {
                    (
                        ClientView { buf: frame_rest(b), ..c },
                        Result::Ok(Option::Some(parse_payload(frame_payload(b))->Some_0)),
                    )
                } else {
                    (
                        ClientView { buf: frame_rest(b), ..c },
                        Result::Err(ClientError::Disconnected),
                    )
                }
            },
        }
    }
}

/// Appends all of `src` to `dst`.
pub(crate) fn append_bytes(dst: &mut Vec<u8>, src: &[u8])
    ensures
        final(dst)@ == old(dst)@ + src@,
{
    let mut i: usize = 0;
    while i < src.len()
        invariant
            i <= src@.len(),
            dst@ == old(dst)@ + src@.subrange(0, i as int),
        decreases src@.len() - i,
    {
        dst.push(src[i]);
        proof {
            assert(dst@ =~= old(dst)@ + src@.subrange(0, i + 1));
        }
        i = i + 1;
    }
    proof {
        assert(old(dst)@ + src@.subrange(0, src@.len() as int) =~= old(dst)@ + src@);
    }
}

impl ClientSocket {
    /// A transport for an outbound connection that has not been made yet.
    pub fn create(host: &str, port: u16) -> (r: ClientSocket)
        ensures
            r@ == (ClientView {
                connected: false,
                buf: Seq::<u8>::empty(),
                host: host@,
                port: port,
                id: 0,
                last_ping_time: 0,
            }),
    {
        ClientSocket {
            live: false,
            buffer: Vec::new(),
            host: host.to_owned(),
            port: port,
            id: 0,
            last_ping_time: 0,
        }
    }

    /// A transport for a connection the listener just accepted, tagged
    /// with the id the connection manager assigned.
    pub fn accepted(id: u32) -> (r: ClientSocket)
        ensures
            r@ == (ClientView {
                connected: true,
                buf: Seq::<u8>::empty(),
                host: Seq::<char>::empty(),
                port: 0,
                id: id,
                last_ping_time: 0,
            }),
    {
        ClientSocket {
            live: true,
            buffer: Vec::new(),
            host: String::new(),
            port: 0,
            id: id,
            last_ping_time: 0,
        }
    }

    pub fn is_connected(&self) -> (r: bool)
        ensures
            r == self@.connected,
    {
        self.live
    }

    /// Attaches a freshly connected socket: the transport starts clean,
    /// with no bytes carried over from a previous connection.
    pub fn mark_connected(&mut self)
        ensures
            final(self)@ == (ClientView {
                connected: true,
                buf: Seq::<u8>::empty(),
                ..old(self)@
            }),
    {
        self.live = true;
        self.buffer = Vec::new();
    }

    /// Detaches the socket. The buffer is kept as it stands; a later
    /// reconnect starts from a clean buffer regardless.
    pub fn disconnect(&mut self)
        ensures
            final(self)@ == (ClientView { connected: false, ..old(self)@ }),
    {
        self.live = false;
    }

    /// Folds one read outcome into the buffer and extracts at most one
    /// complete frame. Returns `Ok(None)` when no complete frame is
    /// buffered yet; the caller keeps calling (with `NoData`) until it
    /// sees `Ok(None)`, so that every buffered frame is drained each tick.
    /// A complete frame that does not decode is fatal for the connection:
    /// the byte stream can no longer be trusted.
    pub fn get_message(&mut self, event: SocketEvent) -> (r: Result<
        Option<NetworkMessage>,
        ClientError,
    >)
        ensures
            final(self)@ == get_message_spec(old(self)@, event).0,
            r == get_message_spec(old(self)@, event).1,
    {
        if !self.live {
            return Err(ClientError::Disconnected);
        }
        match event {
            SocketEvent::Closed => {
                return Err(ClientError::Disconnected);
            },
            SocketEvent::Failed => {
                return Err(ClientError::Disconnected);
            },
            SocketEvent::Data(d) => {
                append_bytes(&mut self.buffer, d.as_slice());
            },
            SocketEvent::NoData => {},
        }
        let ghost b = self.buffer@;
        if self.buffer.len() < 4 {
            return Ok(None);
        }
        let announced = read_be32(self.buffer.as_slice(), 0);
        if (self.buffer.len() as u64) < 4u64 + (announced as u64) {
            return Ok(None);
        }
        let end: usize = 4 + (announced as usize);
        let decoded = {
            let s = self.buffer.as_slice();
            decode(&s[4..end])
        };
        let tail = self.buffer.split_off(end);
        self.buffer = tail;
        proof {
            assert(frame_ready(b));
            assert(b.subrange(4, 4 + frame_len(b)) == frame_payload(b));
            assert(self.buffer@ == frame_rest(b));
        }
        match decoded {
            Ok(m) => Ok(Some(m)),
            Err(_) => Err(ClientError::Disconnected),
        }
    }

    /// The id tag on this transport, as the view sees it.
    pub fn peer_id(&self) -> (r: u32)
        ensures
            r == self@.id,
    {
        self.id
    }

    /// The timestamp of the last ping sent to this peer, as the view sees it.
    pub fn ping_time(&self) -> (r: u64)
        ensures
            r == self@.last_ping_time,
    {
        self.last_ping_time
    }

    /// Records when a ping was last sent to this peer.
    pub fn set_ping_time(&mut self, t: u64)
        ensures
            final(self)@ == (ClientView { last_ping_time: t, ..old(self)@ }),
    {
        self.last_ping_time = t;
    }

    /// Folds one read outcome in and drains every complete frame that is
    /// then buffered, in order. Returns the decoded messages and whether
    /// the drain stayed clean: `false` means some complete frame failed
    /// to decode, the messages drained before it are returned, and the
    /// connection must be torn down by the caller.
    pub fn drain_frames(&mut self, event: SocketEvent) -> (r: (Vec<NetworkMessage>, bool))
        requires
            old(self)@.connected,
            !(event is Closed),
            !(event is Failed),
        ensures
            final(self)@ == (ClientView {
                buf: drain(feed(old(self)@.buf, event)).1,
                ..old(self)@
            }),
            r.0@ == drain(feed(old(self)@.buf, event)).0,
            r.1 == drain(feed(old(self)@.buf, event)).2,
    {
        let ghost b0 = feed(old(self)@.buf, event);
        let mut messages: Vec<NetworkMessage> = Vec::new();
        let first = self.get_message(event);
        match first {
            Err(_) => {
                proof {
                    assert(drain(b0).2 == false);
                }
                return (messages, false);
            },
            Ok(None) => {
                proof {
                    assert(messages@ + Seq::<NetworkMessage>::empty() =~= messages@);
                }
                return (messages, true);
            },
            Ok(Some(m)) => {
                messages.push(m);
                proof {
                    assert(messages@ =~= seq![m]);
                }
            },
        }
        loop
            invariant
                old(self)@.connected,
                b0 == feed(old(self)@.buf, event),
                self@.connected,
                self@.host == old(self)@.host,
                self@.port == old(self)@.port,
                self@.id == old(self)@.id,
                self@.last_ping_time == old(self)@.last_ping_time,
                drain(b0).0 == messages@ + drain(self@.buf).0,
                drain(b0).1 == drain(self@.buf).1,
                drain(b0).2 == drain(self@.buf).2,
            decreases self@.buf.len(),
        {
            let ghost cur = self@.buf;
            let next = self.get_message(SocketEvent::NoData);
            match next {
                Err(_) => {
                    proof {
                        assert(messages@ + Seq::<NetworkMessage>::empty() =~= messages@);
                    }
                    return (messages, false);
                },
                Ok(None) => {
                    proof {
                        assert(messages@ + Seq::<NetworkMessage>::empty() =~= messages@);
                    }
                    return (messages, true);
                },
                Ok(Some(m)) => {
                    let ghost before = messages@;
                    messages.push(m);
                    proof {
                        assert(drain(cur).0 == seq![m] + drain(self@.buf).0);
                        assert(before + (seq![m] + drain(self@.buf).0) =~= messages@ + drain(
                            self@.buf,
                        ).0);
                        assert(self@.buf.len() < cur.len());
                    }
                },
            }
        }
    }

    /// Encodes a message into the frame the embedding loop must write to
    /// this peer's socket. Fails if no socket is attached; the message is
    /// then simply dropped, as the wire cannot carry it.
    pub fn send(&self, message: &NetworkMessage) -> (r: Result<Vec<u8>, ClientError>)
        ensures
            self@.connected ==> r is Ok && r->Ok_0@ == frame(*message),
            !self@.connected ==> r == Result::<Vec<u8>, ClientError>::Err(
                ClientError::Disconnected,
            ),
    {
        if !self.live {
            return Err(ClientError::Disconnected);
        }
        Ok(encode_frame(message))
    }
}

/// No strict prefix of a frame is ready: a message surfaces only once the
/// final byte of its frame has arrived, and not before.
pub proof fn lemma_partial_frame_not_ready(m: NetworkMessage, n: int)
    requires
        0 <= n < frame(m).len(),
    ensures
        !frame_ready(frame(m).take(n)),
{
    let f = frame(m);
    let p = f.take(n);
    crate::codec::lemma_payload_len(m);
    crate::codec::lemma_be32_round_trip(crate::codec::payload(m).len() as u32);
    if n >= 4 {
        assert(p.subrange(0, 4) =~= f.subrange(0, 4));
        assert(f.subrange(0, 4) =~= crate::codec::be32(crate::codec::payload(m).len() as u32));
    }
}

/// Draining a buffer that starts with one complete, well-formed frame
/// yields that frame's message first and then whatever the remainder
/// yields.
pub proof fn lemma_drain_frame(m: NetworkMessage, rest: Seq<u8>)
    ensures
        drain(frame(m) + rest).0 == seq![m] + drain(rest).0,
        drain(frame(m) + rest).1 == drain(rest).1,
        drain(frame(m) + rest).2 == drain(rest).2,
{
    let b = frame(m) + rest;
    let pl = crate::codec::payload(m);
    crate::codec::lemma_payload_len(m);
    crate::codec::lemma_be32_round_trip(pl.len() as u32);
    assert(b.subrange(0, 4) =~= crate::codec::be32(pl.len() as u32));
    assert(frame_len(b) == pl.len());
    assert(frame_ready(b));
    assert(frame_payload(b) =~= pl);
    crate::codec::lemma_round_trip(m);
    assert(frame_rest(b) =~= rest);
}

/// Byte-at-a-time framing law: feed any prefix of `frame(m)` and nothing
/// surfaces; feed all of it and exactly `m` surfaces, leaving the buffer
/// empty.
pub proof fn lemma_frame_byte_at_a_time(m: NetworkMessage, n: int)
    requires
        0 <= n <= frame(m).len(),
    ensures
        n < frame(m).len() ==> drain(frame(m).take(n)) == (
            Seq::<NetworkMessage>::empty(),
            frame(m).take(n),
            true,
        ),
        n == frame(m).len() ==> drain(frame(m).take(n)) == (
            seq![m],
            Seq::<u8>::empty(),
            true,
        ),
{
    if n < frame(m).len() {
        lemma_partial_frame_not_ready(m, n);
    } else {
        assert(frame(m).take(n) =~= frame(m));
        assert(frame(m) + Seq::<u8>::empty() =~= frame(m));
        lemma_drain_frame(m, Seq::<u8>::empty());
        assert(!frame_ready(Seq::<u8>::empty()));
        assert(seq![m] + Seq::<NetworkMessage>::empty() =~= seq![m]);
    }
}

/// Back-to-back framing law: two frames received in a single read yield
/// both messages, strictly in order, with an empty buffer afterward.
pub proof fn lemma_back_to_back_frames(m1: NetworkMessage, m2: NetworkMessage)
    ensures
        drain(frame(m1) + frame(m2)).0 == seq![m1, m2],
        drain(frame(m1) + frame(m2)).1 == Seq::<u8>::empty(),
        drain(frame(m1) + frame(m2)).2 == true,
{
    lemma_drain_frame(m1, frame(m2));
    assert(frame(m2) + Seq::<u8>::empty() =~= frame(m2));
    lemma_drain_frame(m2, Seq::<u8>::empty());
    assert(!frame_ready(Seq::<u8>::empty()));
    assert(seq![m1] + (seq![m2] + Seq::<NetworkMessage>::empty()) =~= seq![m1, m2]);
}

} // verus!
