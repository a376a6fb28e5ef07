//! The client-side connection: a state machine over `Disconnected`,
//! `Connecting` and `Connected`, with background-reconnect bookkeeping and
//! outgoing-message throttling.
//!
//! The embedding loop owns the actual socket and the background connect
//! thread. Each tick it reports what happened — whether the outstanding
//! connect attempt finished, and what a read returned — and this module
//! decides everything: when to start an attempt, when to tear the
//! connection down, which messages surface, and which frames to write.

use vstd::prelude::*;

use crate::codec::frame;
use crate::message::NetworkMessage;
use crate::message::tag;
use crate::transport::ClientSocket;
use crate::transport::ClientView;
use crate::transport::SocketEvent;
use crate::transport::drain;
use crate::transport::feed;

verus! {

/// Minimum time between the completion of one connect attempt and the
/// start of the next.
pub const BACKOFF_MS: u64 = 1000;

/// What the embedding loop saw of the outstanding background connect
/// attempt this tick: still running, or finished with the given success.
#[derive(Clone, Copy, Debug, PartialEq, Eq, Structural)]
pub enum ConnectPoll {
    Pending,
    Finished(bool),
}

/// The mathematical state of the client connection.
#[verifier::ext_equal]
pub ghost struct NetworkView {
    pub sock: ClientView,
    pub last_connect_time: Option<u64>,
    pub connecting: bool,
    pub throttle: Seq<(NetworkMessage, u64)>,
}

/// The client connection: one transport, the reconnect bookkeeping, and
/// the per-message-type throttle table.
pub struct Network {
    socket: ClientSocket,
    last_connect_time: Option<u64>,
    is_connecting: bool,
    last_send_messages: Vec<(NetworkMessage, u64)>,
}

impl View for Network {
    type V = NetworkView;

    closed spec fn view(&self) -> NetworkView {
        NetworkView {
            sock: self.socket@,
            last_connect_time: self.last_connect_time,
            connecting: self.is_connecting,
            throttle: self.last_send_messages@,
        }
    }
}

/// Whether the retry backoff permits starting a connect attempt at `now`.
pub open spec fn start_due(last: Option<u64>, now: u64) -> bool {
    match last {
        Option::None => true,
        Option::Some(t) => now >= t + BACKOFF_MS,
    }
}

/// One step of the reconnect state machine while no connection is up:
/// the new state, and whether the embedding loop must spawn exactly one
/// background connect attempt.
pub open spec fn reconnect_step(v: NetworkView, now: u64, poll: ConnectPoll) -> (
    NetworkView,
    bool,
) {
    if v.connecting {
        match poll {
            ConnectPoll::Finished(ok) => (
                NetworkView {
                    sock: if ok {
                        ClientView { connected: true, buf: Seq::<u8>::empty(), ..v.sock }
                    } else {
                        v.sock
                    },
                    connecting: false,
                    last_connect_time: Option::Some(now),
                    ..v
                },
                false,
            ),
            ConnectPoll::Pending => (v, false),
        }
    } else if start_due(v.last_connect_time, now) {
        (NetworkView { connecting: true, ..v }, true)
    } else {
        (v, false)
    }
}

/// The state after the connection is torn down at `now`: the socket is
/// detached, no attempt is in flight, and the backoff restarts.
pub open spec fn torn_down(v: NetworkView, buf: Seq<u8>, now: u64) -> NetworkView {
    NetworkView {
        sock: ClientView { connected: false, buf: buf, ..v.sock },
        connecting: false,
        last_connect_time: Option::Some(now),
        ..v
    }
}

/// One whole `update` tick: the new state, the messages surfaced to the
/// caller, and whether to spawn a connect attempt.
pub open spec fn update_spec(v: NetworkView, now: u64, poll: ConnectPoll, e: SocketEvent) -> (
    NetworkView,
    Seq<NetworkMessage>,
    bool,
) {
    if !v.sock.connected {
        let s = reconnect_step(v, now, poll);
        (s.0, Seq::<NetworkMessage>::empty(), s.1)
    } else {
        match e {
            SocketEvent::Closed => (torn_down(v, v.sock.buf, now), Seq::<NetworkMessage>::empty(), false),
            SocketEvent::Failed => (torn_down(v, v.sock.buf, now), Seq::<NetworkMessage>::empty(), false),
            _ => {
                let d = drain(feed(v.sock.buf, e));
                if d.2 {
                    (NetworkView { sock: ClientView { buf: d.1, ..v.sock }, ..v }, d.0, false)
                } else {
                    (torn_down(v, d.1, now), Seq::<NetworkMessage>::empty(), false)
                }
            },
        }
    }
}

/// First index in the throttle table holding a message of tag `t`, or the
/// table's length if none does.
pub open spec fn find_tag(table: Seq<(NetworkMessage, u64)>, t: int) -> int
    decreases table.len(),
{
    if table.len() == 0 {
        0
    } else if tag(table[0].0) == t {
        0
    } else {
        1 + find_tag(table.drop_first(), t)
    }
}

pub proof fn lemma_find_tag(table: Seq<(NetworkMessage, u64)>, t: int)
    ensures
        0 <= find_tag(table, t) <= table.len(),
        find_tag(table, t) < table.len() ==> tag(table[find_tag(table, t)].0) == t,
        forall|j: int| 0 <= j < find_tag(table, t) ==> tag(table[j].0) != t,
    decreases table.len(),
{
    if table.len() == 0 {
    } else if tag(table[0].0) == t {
    } else {
        lemma_find_tag(table.drop_first(), t);
        let f = find_tag(table, t);
        if f < table.len() {
            assert(table.drop_first()[f - 1] == table[f]);
        }
        assert forall|j: int| 0 <= j < f implies tag(table[j].0) != t by {
            if j > 0 {
                assert(table.drop_first()[j - 1] == table[j]);
            }
        }
    }
}

/// One `send_throttled` decision: the new throttle table, and whether the
/// message goes out. A message of a type sent within the last `delay_ms`
/// milliseconds is suppressed; otherwise its table entry is replaced (one
/// timestamp per type, never appended) and the message is sent.
pub open spec fn throttle_step(
    table: Seq<(NetworkMessage, u64)>,
    m: NetworkMessage,
    delay_ms: u64,
    now: u64,
) -> (Seq<(NetworkMessage, u64)>, bool) {
    let i = find_tag(table, tag(m));
    if i < table.len() {
        if table[i].1 + delay_ms > now {
            (table, false)
        } else {
            (table.remove(i).push((m, now)), true)
        }
    } else {
        (table.push((m, now)), true)
    }
}

/// A well-formed throttle table holds at most one entry per message type.
pub open spec fn throttle_wf(table: Seq<(NetworkMessage, u64)>) -> bool {
    forall|i: int, j: int|
        #![trigger table[i], table[j]]
        0 <= i < j < table.len() ==> tag(table[i].0) != tag(table[j].0)
}

impl Network {
    /// A client connection for the default server endpoint, initially
    /// disconnected, with nothing throttled and no attempt made yet.
    pub fn new() -> (r: Network)
        ensures
            !r@.sock.connected,
            r@.sock.buf == Seq::<u8>::empty(),
            r@.sock.host == "localhost"@,
            r@.sock.port == 8080,
            !r@.connecting,
            r@.last_connect_time is None,
            r@.throttle == Seq::<(NetworkMessage, u64)>::empty(),
    {
        Network {
            socket: ClientSocket::create("localhost", 8080),
            last_connect_time: None,
            is_connecting: false,
            last_send_messages: Vec::new(),
        }
    }

    pub fn is_connected(&self) -> (r: bool)
        ensures
            r == self@.sock.connected,
    {
        self.socket.is_connected()
    }

    /// Tears the connection down at `now`: called internally on transport
    /// errors, and by the embedding loop when a write it performed failed.
    pub fn disconnect(&mut self, now: u64)
        ensures
            final(self)@ == torn_down(old(self)@, old(self)@.sock.buf, now),
    {
        self.socket.disconnect();
        self.is_connecting = false;
        self.last_connect_time = Some(now);
    }

    /// Progresses the reconnect state machine; only called while no
    /// connection is up. Returns whether the embedding loop must spawn a
    /// background connect attempt — at most one is ever in flight.
    fn attempt_connect(&mut self, now: u64, poll: ConnectPoll) -> (start: bool)
        ensures
            final(self)@ == reconnect_step(old(self)@, now, poll).0,
            start == reconnect_step(old(self)@, now, poll).1,
    {
        if self.is_connecting {
            match poll {
                ConnectPoll::Finished(ok) => {
                    self.is_connecting = false;
                    if ok {
                        self.socket.mark_connected();
                    }
                    self.last_connect_time = Some(now);
                },
                ConnectPoll::Pending => {},
            }
            false
        } else {
            let due = match self.last_connect_time {
                None => true,
                Some(t) => now >= t && now - t >= BACKOFF_MS,
            };
            if due {
                self.is_connecting = true;
                true
            } else {
                false
            }
        }
    }

    /// One tick. Disconnected: progress the reconnect machine and do no
    /// I/O work. Connected: fold the read outcome in and drain every
    /// complete frame, surfacing the decoded messages in order; any
    /// transport or decode error tears the connection down immediately,
    /// discarding the partially processed batch.
    pub fn update(&mut self, now: u64, poll: ConnectPoll, event: SocketEvent) -> (r: UpdateResult)
        ensures
            final(self)@ == update_spec(old(self)@, now, poll, event).0,
            r.messages@ == update_spec(old(self)@, now, poll, event).1,
            r.start_connect == update_spec(old(self)@, now, poll, event).2,
    {
        if !self.socket.is_connected() {
            let start = self.attempt_connect(now, poll);
            return UpdateResult { messages: Vec::new(), start_connect: start };
        }
        match &event {
            SocketEvent::Closed => {
                self.disconnect(now);
                return UpdateResult { messages: Vec::new(), start_connect: false };
            },
            SocketEvent::Failed => {
                self.disconnect(now);
                return UpdateResult { messages: Vec::new(), start_connect: false };
            },
            _ => {},
        }
        let (messages, clean) = self.socket.drain_frames(event);
        if clean {
            UpdateResult { messages, start_connect: false }
        } else {
            self.disconnect(now);
            UpdateResult { messages: Vec::new(), start_connect: false }
        }
    }

    /// Encodes `message` into the frame the embedding loop must write, or
    /// returns nothing when no connection is up — the message is then
    /// silently dropped, to be superseded by a fresher one later.
    pub fn send(&self, message: &NetworkMessage) -> (r: Option<Vec<u8>>)
        ensures
            self@.sock.connected ==> r is Some && r->Some_0@ == frame(*message),
            !self@.sock.connected ==> r is None,
    {
        match self.socket.send(message) {
            Ok(bytes) => Some(bytes),
            Err(_) => None,
        }
    }

    /// Sends unless a message of the same type went out within the last
    /// `delay_in_ms` milliseconds. A suppressed call changes nothing; an
    /// allowed call replaces the type's timestamp with `now` and then
    /// behaves like `send`.
    pub fn send_throttled(&mut self, message: NetworkMessage, delay_in_ms: u64, now: u64) -> (r:
        Option<Vec<u8>>)
        ensures
            final(self)@.throttle == throttle_step(old(self)@.throttle, message, delay_in_ms, now).0,
            final(self)@.sock == old(self)@.sock,
            final(self)@.connecting == old(self)@.connecting,
            final(self)@.last_connect_time == old(self)@.last_connect_time,
            throttle_step(old(self)@.throttle, message, delay_in_ms, now).1
                && old(self)@.sock.connected ==> r is Some && r->Some_0@ == frame(message),
            !(throttle_step(old(self)@.throttle, message, delay_in_ms, now).1
                && old(self)@.sock.connected) ==> r is None,
    {
        let ghost table = self.last_send_messages@;
        let t = message.discriminant();
        let n = self.last_send_messages.len();
        let mut i: usize = 0;
        while i < n
            invariant
                n == table.len(),
                table == self.last_send_messages@,
                i <= n,
                forall|j: int| 0 <= j < i ==> tag(table[j].0) != tag(message),
                t == tag(message),
            ensures
                n == table.len(),
                table == self.last_send_messages@,
                t == tag(message),
                i <= n,
                forall|j: int| 0 <= j < i ==> tag(table[j].0) != tag(message),
                i < n ==> tag(table[i as int].0) == tag(message),
            decreases n - i,
        {
            let same = self.last_send_messages[i].0.discriminant() == t;
            if same {
                break ;
            }
            i = i + 1;
        }
        proof {
            lemma_find_tag(table, tag(message));
            assert(find_tag(table, tag(message)) == i);
        }
        if i < n {
            let ts = self.last_send_messages[i].1;
            if (ts as u128) + (delay_in_ms as u128) > (now as u128) {
                return None;
            }
            self.last_send_messages.remove(i);
        }
        self.last_send_messages.push((message, now));
        match self.socket.send(&message) {
            Ok(bytes) => Some(bytes),
            Err(_) => None,
        }
    }
}

/// What one `update` tick hands back to the embedding loop.
pub struct UpdateResult {
    pub messages: Vec<NetworkMessage>,
    pub start_connect: bool,
}

/// The client's reply to a received message, if the protocol owes one:
/// the server's liveness probe is echoed straight back, everything else
/// is for the embedding application alone.
pub fn ping_reply(message: &NetworkMessage) -> (r: Option<NetworkMessage>)
    ensures
        *message is Ping ==> r == Option::Some(NetworkMessage::Ping),
        !(*message is Ping) ==> r is None,
{
    match message {
        NetworkMessage::Ping => Some(NetworkMessage::Ping),
        _ => None,
    }
}

/// Reconnect single-flight law: from `Disconnected` with no attempt in
/// flight and the backoff elapsed, one tick starts exactly one connect
/// attempt; a further tick while that attempt is still outstanding starts
/// none and changes nothing.
pub proof fn lemma_reconnect_single_flight(
    v: NetworkView,
    now1: u64,
    now2: u64,
    e1: SocketEvent,
    e2: SocketEvent,
)
    requires
        !v.sock.connected,
        !v.connecting,
        start_due(v.last_connect_time, now1),
    ensures
        update_spec(v, now1, ConnectPoll::Pending, e1).2 == true,
        update_spec(
            update_spec(v, now1, ConnectPoll::Pending, e1).0,
            now2,
            ConnectPoll::Pending,
            e2,
        ).2 == false,
        update_spec(
            update_spec(v, now1, ConnectPoll::Pending, e1).0,
            now2,
            ConnectPoll::Pending,
            e2,
        ).0 == update_spec(v, now1, ConnectPoll::Pending, e1).0,
{
}

/// Throttle tables stay well-formed: a step never introduces a second
/// entry for the same message type.
pub proof fn lemma_throttle_step_wf(
    table: Seq<(NetworkMessage, u64)>,
    m: NetworkMessage,
    delay_ms: u64,
    now: u64,
)
    requires
        throttle_wf(table),
    ensures
        throttle_wf(throttle_step(table, m, delay_ms, now).0),
{
    lemma_find_tag(table, tag(m));
    let i = find_tag(table, tag(m));
    if i < table.len() {
        if table[i].1 + delay_ms > now {
        } else {
            let shrunk = table.remove(i);
            assert forall|a: int, b: int|
                0 <= a < b < shrunk.push((m, now)).len() implies tag(
                shrunk.push((m, now))[a].0,
            ) != tag(shrunk.push((m, now))[b].0) by {
                if b < shrunk.len() {
                    let a0 = if a < i {
                        a
                    } else {
                        a + 1
                    };
                    let b0 = if b < i {
                        b
                    } else {
                        b + 1
                    };
                    assert(shrunk[a] == table[a0] && shrunk[b] == table[b0]);
                } else {
                    let a0 = if a < i {
                        a
                    } else {
                        a + 1
                    };
                    assert(shrunk[a] == table[a0]);
                    if a0 != i {
                        assert(tag(table[a0].0) != tag(m));
                    }
                }
            }
        }
    } else {
        assert forall|a: int, b: int|
            0 <= a < b < table.push((m, now)).len() implies tag(table.push((m, now))[a].0) != tag(
            table.push((m, now))[b].0,
        ) by {
            if b == table.len() {
                assert(tag(table[a].0) != tag(m));
            }
        }
    }
}

/// Throttle suppression law: once a message of some type goes out at
/// `t1`, a same-type call before `t1 + delay` is suppressed and changes
/// nothing, and a same-type call at or after `t1 + delay` goes out.
pub proof fn lemma_throttle_suppression(
    table: Seq<(NetworkMessage, u64)>,
    m1: NetworkMessage,
    m2: NetworkMessage,
    m3: NetworkMessage,
    delay_ms: u64,
    t1: u64,
    t2: u64,
    t3: u64,
)
    requires
        throttle_wf(table),
        tag(m2) == tag(m1),
        tag(m3) == tag(m1),
        throttle_step(table, m1, delay_ms, t1).1,
        t2 < t1 + delay_ms,
        t3 >= t1 + delay_ms,
    ensures
        ({
            let tb1 = throttle_step(table, m1, delay_ms, t1).0;
            &&& !throttle_step(tb1, m2, delay_ms, t2).1
            &&& throttle_step(tb1, m2, delay_ms, t2).0 == tb1
            &&& throttle_step(tb1, m3, delay_ms, t3).1
        }),
{
    let t = tag(m1);
    lemma_find_tag(table, t);
    let i = find_tag(table, t);
    let tb1 = throttle_step(table, m1, delay_ms, t1).0;
    lemma_throttle_step_wf(table, m1, delay_ms, t1);
    let last = tb1.len() - 1;
    assert(tb1[last] == (m1, t1));
    assert(tag(tb1[last].0) == t);
    lemma_find_tag(tb1, t);
    let f = find_tag(tb1, t);
    if f > last {
        assert(tag(tb1[last].0) != t);
        assert(false);
    }
    if f < last {
        assert(tag(tb1[f].0) == t && tag(tb1[last].0) == t);
        assert(tag(tb1[f].0) != tag(tb1[last].0));
        assert(false);
    }
    assert(f == last);
    assert(tb1[f].1 == t1);
}

} // verus!
