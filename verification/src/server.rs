//! The server-side connection manager: accepting peers, pumping their
//! messages, broadcasting, and tracking liveness.
//!
//! The embedding loop owns the listening socket and the per-peer sockets.
//! Each tick it reports what the OS did — whether an accept succeeded and
//! what each peer's read returned — and this module decides everything
//! else: id assignment, frame draining, which peers to drop, ping
//! bookkeeping, and the frames the loop must write back.

use vstd::prelude::*;

use crate::codec::frame;
use crate::message::NetworkMessage;
use crate::transport::ClientError;
use crate::transport::ClientSocket;
use crate::transport::ClientView;
use crate::transport::SocketEvent;
use crate::transport::drain;
use crate::transport::feed;

verus! {

/// Interval between liveness ping sweeps over the connected peers.
pub const PING_INTERVAL_MS: u64 = 1000;

/// Failures at the connection-manager level.
#[derive(Clone, Copy, Debug, PartialEq, Eq, Structural)]
pub enum ServerError {
    CouldNotAcceptSocket,
    ClientError(ClientError),
    ThreadError,
}

impl From<ClientError> for ServerError {
    fn from(err: ClientError) -> (r: ServerError) {
        ServerError::ClientError(err)
    }
}

impl vstd::std_specs::convert::FromSpecImpl<ClientError> for ServerError {
    open spec fn obeys_from_spec() -> bool {
        true
    }

    open spec fn from_spec(err: ClientError) -> ServerError {
        ServerError::ClientError(err)
    }
}

/// The mathematical state of the connection manager.
#[verifier::ext_equal]
pub ghost struct ServerView {
    pub host: Seq<char>,
    pub port: i32,
    pub clients: Seq<ClientView>,
    pub next_id: u32,
    pub marked: Seq<u32>,
    pub last_ping_sweep: u64,
}

/// The connection manager: the live peers in accept order, the id counter
/// (ids are unique for the process lifetime), the peers marked for removal
/// after a failed write, and the time of the last ping sweep.
pub struct ServerSocket {
    host: String,
    port: i32,
    clients: Vec<ClientSocket>,
    next_id: u32,
    marked: Vec<u32>,
    last_ping_sweep: u64,
}

impl View for ServerSocket {
    type V = ServerView;

    closed spec fn view(&self) -> ServerView {
        ServerView {
            host: self.host@,
            port: self.port,
            clients: self.clients@.map_values(|c: ClientSocket| c@),
            next_id: self.next_id,
            marked: self.marked@,
            last_ping_sweep: self.last_ping_sweep,
        }
    }
}

/// The transport state a freshly accepted peer starts in.
pub open spec fn accepted_view(id: u32) -> ClientView {
    ClientView {
        connected: true,
        buf: Seq::<u8>::empty(),
        host: Seq::<char>::empty(),
        port: 0,
        id: id,
        last_ping_time: 0,
    }
}

/// Well-formedness of the manager: every live peer has a socket attached,
/// ids are pairwise distinct, and every id was issued by the counter.
pub open spec fn server_wf(v: ServerView) -> bool {
    &&& forall|i: int|
        0 <= i < v.clients.len() ==> (#[trigger] v.clients[i]).connected && v.clients[i].id
            < v.next_id
    &&& forall|i: int, j: int|
        #![trigger v.clients[i], v.clients[j]]
        0 <= i < j < v.clients.len() ==> v.clients[i].id != v.clients[j].id
}

/// Whether `v` holds `id`.
pub(crate) fn contains_id(v: &Vec<u32>, id: u32) -> (r: bool)
    ensures
        r == v@.contains(id),
{
    let n = v.len();
    let mut i: usize = 0;
    while i < n
        invariant
            i <= n,
            n == v@.len(),
            forall|j: int| 0 <= j < i ==> v@[j] != id,
        decreases n - i,
    {
        if v[i] == id {
            return true;
        }
        i = i + 1;
    }
    false
}

impl ServerSocket {
    /// A manager for the given endpoint, with no peers yet. Ids start at
    /// 1 and only ever grow.
    pub fn create(host: &str, port: i32) -> (r: ServerSocket)
        ensures
            r@ == (ServerView {
                host: host@,
                port: port,
                clients: Seq::<ClientView>::empty(),
                next_id: 1,
                marked: Seq::<u32>::empty(),
                last_ping_sweep: 0,
            }),
            server_wf(r@),
    {
        let r = ServerSocket {
            host: host.to_owned(),
            port: port,
            clients: Vec::new(),
            next_id: 1,
            marked: Vec::new(),
            last_ping_sweep: 0,
        };
        proof {
            assert(r@.clients =~= Seq::<ClientView>::empty());
        }
        r
    }

    /// The next id the manager will issue; ids never repeat within a
    /// process, so a caller can tell when the id space is exhausted.
    pub fn upcoming_id(&self) -> (r: u32)
        ensures
            r == self@.next_id,
    {
        self.next_id
    }

    /// The ids of the live peers, in accept order.
    pub fn client_ids(&self) -> (r: Vec<u32>)
        ensures
            r@.len() == self@.clients.len(),
            forall|i: int| 0 <= i < r@.len() ==> r@[i] == self@.clients[i].id,
    {
        let n = self.clients.len();
        let mut r: Vec<u32> = Vec::new();
        let mut i: usize = 0;
        while i < n
            invariant
                i <= n,
                n == self@.clients.len(),
                r@.len() == i,
                forall|j: int| 0 <= j < i ==> r@[j] == self@.clients[j].id,
            decreases n - i,
        {
            let id = self.clients[i].peer_id();
            proof {
                assert(self.clients@[i as int]@ == self@.clients[i as int]);
            }
            r.push(id);
            i = i + 1;
        }
        r
    }

    /// Registers a connection the listener just accepted: assigns it the
    /// next id — globally unique and monotonically increasing — and adds
    /// it to the live set. The caller typically sends `Identify(id)` to
    /// the new peer right away.
    pub fn accept_new(&mut self) -> (id: u32)
        requires
            old(self)@.next_id < u32::MAX,
            server_wf(old(self)@),
        ensures
            id == old(self)@.next_id,
            final(self)@ == (ServerView {
                clients: old(self)@.clients.push(accepted_view(id)),
                next_id: (old(self)@.next_id + 1) as u32,
                ..old(self)@
            }),
            server_wf(final(self)@),
    {
        let id = self.next_id;
        self.next_id = self.next_id + 1;
        self.clients.push(ClientSocket::accepted(id));
        proof {
            assert(self@.clients =~= old(self)@.clients.push(accepted_view(id)));
        }
        id
    }

    /// The frame to write to each live peer, one entry per peer in accept
    /// order — every peer gets its own delivery attempt, so one bad peer
    /// cannot stall the others. The embedding loop reports any write
    /// failure through `write_failed`.
    pub fn broadcast(&self, message: &NetworkMessage) -> (r: Vec<(u32, Vec<u8>)>)
        ensures
            r@.len() == self@.clients.len(),
            forall|i: int|
                0 <= i < r@.len() ==> (#[trigger] r@[i]).0 == self@.clients[i].id && r@[i].1@
                    == frame(*message),
    {
        let n = self.clients.len();
        let mut r: Vec<(u32, Vec<u8>)> = Vec::new();
        let mut i: usize = 0;
        while i < n
            invariant
                i <= n,
                n == self@.clients.len(),
                r@.len() == i,
                forall|j: int|
                    0 <= j < i ==> (#[trigger] r@[j]).0 == self@.clients[j].id && r@[j].1@ == frame(
                        *message,
                    ),
            decreases n - i,
        {
            let id = self.clients[i].peer_id();
            proof {
                assert(self.clients@[i as int]@ == self@.clients[i as int]);
            }
            r.push((id, crate::codec::encode_frame(message)));
            i = i + 1;
        }
        r
    }

    /// Records that writing to the peer with this id failed; the peer is
    /// removed, with its disconnect callback, on the next `listen` pass.
    pub fn write_failed(&mut self, id: u32)
        ensures
            final(self)@ == (ServerView { marked: old(self)@.marked.push(id), ..old(self)@ }),
    {
        self.marked.push(id);
    }

    /// Once per `PING_INTERVAL_MS`, hands back the `Ping` frame to write
    /// to every live peer and records the send time on each of them; in
    /// between, does nothing.
    pub fn maybe_ping(&mut self, now: u64) -> (r: Option<Vec<u8>>)
        ensures
            now >= old(self)@.last_ping_sweep + PING_INTERVAL_MS ==> r is Some
                && r->Some_0@ == frame(NetworkMessage::Ping) && final(self)@ == (ServerView {
                clients: pinged(old(self)@.clients, now),
                last_ping_sweep: now,
                ..old(self)@
            }),
            !(now >= old(self)@.last_ping_sweep + PING_INTERVAL_MS) ==> r is None && final(self)@
                == old(self)@,
    {
        if !(now >= self.last_ping_sweep && now - self.last_ping_sweep >= PING_INTERVAL_MS) {
            return None;
        }
        self.last_ping_sweep = now;
        let ghost cs0 = self@.clients;
        let n = self.clients.len();
        let mut i: usize = 0;
        while i < n
            invariant
                i <= n,
                n == cs0.len(),
                self@.clients.len() == cs0.len(),
                forall|j: int|
                    i <= j < n ==> #[trigger] self@.clients[j] == cs0[j],
                forall|j: int|
                    0 <= j < i ==> #[trigger] self@.clients[j] == (ClientView {
                        last_ping_time: now,
                        ..cs0[j]
                    }),
                self@.host == old(self)@.host,
                self@.port == old(self)@.port,
                self@.next_id == old(self)@.next_id,
                self@.marked == old(self)@.marked,
                self@.last_ping_sweep == now,
            decreases n - i,
        {
            let ghost prev = self@.clients;
            proof {
                assert(prev[i as int] == cs0[i as int]);
            }
            let c = vstd::std_specs::vec::vec_index_mut(&mut self.clients, i);
            c.set_ping_time(now);
            proof {
                assert(self.clients@[i as int]@ == (ClientView {
                    last_ping_time: now,
                    ..cs0[i as int]
                }));
                assert(self@.clients =~= prev.update(
                    i as int,
                    ClientView { last_ping_time: now, ..cs0[i as int] },
                ));
            }
            i = i + 1;
        }
        proof {
            assert(self@.clients =~= pinged(cs0, now));
        }
        Some(crate::codec::encode_frame(&NetworkMessage::Ping))
    }

    /// One per-tick pass: register an accept the listener made (if any),
    /// pump every peer — draining all complete frames, collecting the
    /// messages and the ping replies owed — and finally remove, in
    /// descending index order, every peer whose read failed, whose stream
    /// desynchronized, or to whom an earlier write failed. The caller
    /// fires its disconnect callback once per entry of `removed`, in
    /// order, and its message callback per entry of `messages`.
    #[verifier::rlimit(60)]
    pub fn listen(&mut self, now: u64, accepted: bool, reads: Vec<SocketEvent>) -> (r:
        ListenResult)
        requires
            server_wf(old(self)@),
            reads@.len() == old(self)@.clients.len() + (if accepted {
                1int
            } else {
                0int
            }),
            accepted ==> old(self)@.next_id < u32::MAX,
        ensures
            final(self)@ == listen_spec(old(self)@, now, accepted, reads@).0,
            r.accepted_id == listen_spec(old(self)@, now, accepted, reads@).1,
            r.messages@ == listen_spec(old(self)@, now, accepted, reads@).2,
            r.replies@ == listen_spec(old(self)@, now, accepted, reads@).3,
            r.removed@ == listen_spec(old(self)@, now, accepted, reads@).4,
            server_wf(final(self)@),
    {
        let accepted_id: Option<u32> = if accepted {
            Some(self.accept_new())
        } else {
            None
        };
        let ghost cs0 = self@.clients;
        let ghost es0 = reads@;
        let ghost marked0 = old(self)@.marked;
        let ghost nid = self@.next_id;
        proof {
            assert(server_wf(self@));
        }
        let mut reads = reads;
        let n = self.clients.len();
        let mut messages: Vec<(u32, NetworkMessage)> = Vec::new();
        let mut replies: Vec<(u32, NetworkMessage)> = Vec::new();
        let mut doomed: Vec<bool> = Vec::new();
        let mut i: usize = 0;
        proof {
            assert(cs0.take(0) =~= Seq::<ClientView>::empty());
            assert(es0.take(0) =~= Seq::<SocketEvent>::empty());
            assert(es0.skip(0) =~= es0);
        }
        while i < n
            invariant
                i <= n,
                n == cs0.len(),
                es0.len() == n,
                reads@ == es0.skip(i as int),
                forall|j: int| 0 <= j < n ==> (#[trigger] cs0[j]).connected,
                self@.clients.len() == n,
                forall|j: int| i <= j < n ==> #[trigger] self@.clients[j] == cs0[j],
                forall|j: int|
                    0 <= j < i ==> #[trigger] self@.clients[j] == peer_after(cs0[j], es0[j]),
                doomed@.len() == i,
                doomed@ == scan_doomed(cs0.take(i as int), es0.take(i as int), marked0),
                messages@ == scan_msgs(cs0.take(i as int), es0.take(i as int)),
                replies@ == scan_replies(cs0.take(i as int), es0.take(i as int), now),
                self@.host == old(self)@.host,
                self@.port == old(self)@.port,
                self@.next_id == nid,
                self@.marked == marked0,
                self@.last_ping_sweep == old(self)@.last_ping_sweep,
            decreases n - i,
        {
            let ghost prev = self@.clients;
            let ev = reads.remove(0);
            proof {
                assert(es0.skip(i as int)[0] == es0[i as int]);
                assert(ev == es0[i as int]);
                assert(reads@ =~= es0.skip(i + 1));
                assert(cs0.take(i + 1).drop_last() =~= cs0.take(i as int));
                assert(es0.take(i + 1).drop_last() =~= es0.take(i as int));
                assert(cs0.take(i + 1).last() == cs0[i as int]);
                assert(es0.take(i + 1).last() == es0[i as int]);
            }
            let dead_event = match &ev {
                SocketEvent::Closed => true,
                SocketEvent::Failed => true,
                _ => false,
            };
            if dead_event {
                doomed.push(true);
                proof {
                    assert(peer_doomed(cs0[i as int], es0[i as int], marked0));
                    assert(doomed@ =~= scan_doomed(cs0.take(i + 1), es0.take(i + 1), marked0));
                    assert(peer_msgs(cs0[i as int], es0[i as int])
                        =~= Seq::<NetworkMessage>::empty());
                    assert(with_id(cs0[i as int].id, peer_msgs(cs0[i as int], es0[i as int]))
                        =~= Seq::<(u32, NetworkMessage)>::empty());
                    assert(messages@ =~= scan_msgs(cs0.take(i + 1), es0.take(i + 1)));
                    assert(replies@ =~= scan_replies(cs0.take(i + 1), es0.take(i + 1), now));
                    assert(peer_after(cs0[i as int], es0[i as int]) == cs0[i as int]);
                }
            } else {
                proof {
                    assert(self@.clients[i as int] == cs0[i as int]);
                    assert(cs0[i as int].connected);
                }
                let c = vstd::std_specs::vec::vec_index_mut(&mut self.clients, i);
                let dr = c.drain_frames(ev);
                let msgs = dr.0;
                let ok = dr.1;
                let id = c.peer_id();
                let pt = c.ping_time();
                proof {
                    assert(c@ == peer_after(cs0[i as int], es0[i as int]));
                    assert(id == cs0[i as int].id);
                    assert(pt == cs0[i as int].last_ping_time);
                }
                let mk = contains_id(&self.marked, id);
                let elapsed: u32 = if now >= pt {
                    let d64 = now - pt;
                    if d64 > 0xffff_ffffu64 {
                        0xffff_ffffu32
                    } else {
                        d64 as u32
                    }
                } else {
                    0
                };
                proof {
                    assert(elapsed == ping_elapsed(now, cs0[i as int].last_ping_time));
                    assert(self@.clients =~= prev.update(
                        i as int,
                        peer_after(cs0[i as int], es0[i as int]),
                    ));
                    assert(msgs@ == peer_msgs(cs0[i as int], es0[i as int]));
                }
                let ghost msgs_base = messages@;
                let ghost reps_base = replies@;
                let mlen = msgs.len();
                let mut k: usize = 0;
                proof {
                    assert(msgs@.take(0) =~= Seq::<NetworkMessage>::empty());
                    assert(with_id(id, msgs@.take(0)) =~= Seq::<(u32, NetworkMessage)>::empty());
                    assert(messages@ =~= msgs_base + with_id(id, msgs@.take(0)));
                    assert(replies@ =~= reps_base + replies_for(msgs@.take(0), id, elapsed));
                }
                while k < mlen
                    invariant
                        k <= mlen,
                        mlen == msgs@.len(),
                        messages@ == msgs_base + with_id(id, msgs@.take(k as int)),
                        replies@ == reps_base + replies_for(msgs@.take(k as int), id, elapsed),
                    decreases mlen - k,
                {
                    let m = msgs[k];
                    messages.push((id, m));
                    let is_ping = match m {
                        NetworkMessage::Ping => true,
                        _ => false,
                    };
                    if is_ping {
                        replies.push((id, NetworkMessage::PingResult(elapsed)));
                    }
                    proof {
                        assert(msgs@.take(k + 1).drop_last() =~= msgs@.take(k as int));
                        assert(msgs@.take(k + 1).last() == msgs@[k as int]);
                        assert(with_id(id, msgs@.take(k + 1)) =~= with_id(
                            id,
                            msgs@.take(k as int),
                        ).push((id, m)));
                        assert(messages@ =~= msgs_base + with_id(id, msgs@.take(k + 1)));
                        assert(replies@ =~= reps_base + replies_for(msgs@.take(k + 1), id, elapsed));
                    }
                    k = k + 1;
                }
                doomed.push(!ok || mk);
                proof {
                    assert(msgs@.take(mlen as int) =~= msgs@);
                    assert((!ok || mk) == peer_doomed(cs0[i as int], es0[i as int], marked0));
                    assert(doomed@ =~= scan_doomed(cs0.take(i + 1), es0.take(i + 1), marked0));
                    assert(messages@ =~= scan_msgs(cs0.take(i + 1), es0.take(i + 1)));
                    assert(replies@ =~= scan_replies(cs0.take(i + 1), es0.take(i + 1), now));
                }
            }
            i = i + 1;
        }
        let ghost cs1 = self@.clients;
        let ghost dm = doomed@;
        proof {
            assert(cs0.take(n as int) =~= cs0);
            assert(es0.take(n as int) =~= es0);
            lemma_scan_clients_pointwise(cs0, es0);
            assert(cs1 =~= scan_clients(cs0, es0));
            assert(cs1.skip(n as int) =~= Seq::<ClientView>::empty());
            assert(dm.skip(n as int) =~= Seq::<bool>::empty());
            assert(cs1.take(n as int) =~= cs1);
            assert(filter_keep(cs1.skip(n as int), dm.skip(n as int))
                =~= Seq::<ClientView>::empty());
            assert(self@.clients =~= cs1.take(n as int) + filter_keep(
                cs1.skip(n as int),
                dm.skip(n as int),
            ));
            assert(removed_desc(cs1.skip(n as int), dm.skip(n as int)) =~= Seq::<u32>::empty());
        }
        let mut removed: Vec<u32> = Vec::new();
        let mut i2: usize = n;
        while i2 > 0
            invariant
                i2 <= n,
                cs1.len() == n,
                dm.len() == n,
                doomed@ == dm,
                self@.clients == cs1.take(i2 as int) + filter_keep(
                    cs1.skip(i2 as int),
                    dm.skip(i2 as int),
                ),
                removed@ == removed_desc(cs1.skip(i2 as int), dm.skip(i2 as int)),
                self@.host == old(self)@.host,
                self@.port == old(self)@.port,
                self@.next_id == nid,
                self@.marked == marked0,
                self@.last_ping_sweep == old(self)@.last_ping_sweep,
            decreases i2,
        {
            let idx = i2 - 1;
            let ghost s_old = cs1.skip(i2 as int);
            let ghost d_old = dm.skip(i2 as int);
            proof {
                assert(cs1.skip(idx as int) =~= seq![cs1[idx as int]] + s_old);
                assert(dm.skip(idx as int) =~= seq![dm[idx as int]] + d_old);
                lemma_filter_keep_cons(s_old, d_old, cs1[idx as int], dm[idx as int]);
                lemma_removed_desc_cons(s_old, d_old, cs1[idx as int], dm[idx as int]);
            }
            if doomed[idx] {
                let ghost prev = self@.clients;
                proof {
                    assert(self.clients@.len() == self@.clients.len());
                    assert(self@.clients.len() == i2 + filter_keep(s_old, d_old).len());
                    assert(idx < self.clients@.len());
                    assert(self@.clients[idx as int] == cs1.take(i2 as int)[idx as int]);
                    assert(cs1.take(i2 as int)[idx as int] == cs1[idx as int]);
                    assert(self.clients@[idx as int]@ == self@.clients[idx as int]);
                }
                let c = self.clients.remove(idx);
                removed.push(c.peer_id());
                proof {
                    assert(c@ == cs1[idx as int]);
                    assert(self@.clients =~= prev.remove(idx as int));
                    assert(self@.clients =~= cs1.take(idx as int) + filter_keep(
                        cs1.skip(idx as int),
                        dm.skip(idx as int),
                    ));
                    assert(removed@ =~= removed_desc(cs1.skip(idx as int), dm.skip(idx as int)));
                }
            } else {
                proof {
                    assert(self@.clients =~= cs1.take(idx as int) + filter_keep(
                        cs1.skip(idx as int),
                        dm.skip(idx as int),
                    ));
                    assert(removed@ =~= removed_desc(cs1.skip(idx as int), dm.skip(idx as int)));
                }
            }
            i2 = idx;
        }
        self.marked = Vec::new();
        proof {
            assert(cs1.take(0) =~= Seq::<ClientView>::empty());
            assert(cs1.skip(0) =~= cs1);
            assert(dm.skip(0) =~= dm);
            assert(self@.clients =~= filter_keep(cs1, dm));
            assert(self@.marked =~= Seq::<u32>::empty());
            assert(final(self)@ =~= listen_spec(old(self)@, now, accepted, es0).0);
            assert forall|j: int| 0 <= j < cs1.len() implies (#[trigger] cs1[j]).connected
                && cs1[j].id < nid by {
                assert(cs1[j] == peer_after(cs0[j], es0[j]));
            }
            assert forall|a: int, b: int| 0 <= a < b < cs1.len() implies (#[trigger] cs1[a]).id
                != (#[trigger] cs1[b]).id by {
                assert(cs1[a] == peer_after(cs0[a], es0[a]));
                assert(cs1[b] == peer_after(cs0[b], es0[b]));
                assert(cs0[a].id != cs0[b].id);
            }
            lemma_filter_keep_preserves(cs1, dm, nid);
        }
        ListenResult { accepted_id, messages, replies, removed }
    }
}

/// The peers after a ping sweep at `now`: each carries `now` as the time
/// a ping was last sent to it.
pub open spec fn pinged(cs: Seq<ClientView>, now: u64) -> Seq<ClientView> {
    cs.map_values(|c: ClientView| ClientView { last_ping_time: now, ..c })
}

/// One peer's transport after its read outcome is pumped.
pub open spec fn peer_after(c: ClientView, e: SocketEvent) -> ClientView {
    match e {
        SocketEvent::Closed => c,
        SocketEvent::Failed => c,
        _ => ClientView { buf: drain(feed(c.buf, e)).1, ..c },
    }
}

/// The messages one peer's read outcome yields, in stream order. Messages
/// drained before a decode failure are still delivered; the failure shows
/// up in `peer_doomed`.
pub open spec fn peer_msgs(c: ClientView, e: SocketEvent) -> Seq<NetworkMessage> {
    match e {
        SocketEvent::Closed => Seq::<NetworkMessage>::empty(),
        SocketEvent::Failed => Seq::<NetworkMessage>::empty(),
        _ => drain(feed(c.buf, e)).0,
    }
}

/// Whether this pass removes the peer: its read reported a closed or
/// failed connection, a drained frame failed to decode, or an earlier
/// broadcast write to it failed (`marked`).
pub open spec fn peer_doomed(c: ClientView, e: SocketEvent, marked: Seq<u32>) -> bool {
    match e {
        SocketEvent::Closed => true,
        SocketEvent::Failed => true,
        _ => !drain(feed(c.buf, e)).2 || marked.contains(c.id),
    }
}

/// Milliseconds from the last ping sent to a peer until `now`, saturated
/// into 32 bits; zero if the clock ran backwards.
pub open spec fn ping_elapsed(now: u64, last: u64) -> u32 {
    if now >= last {
        if now - last > u32::MAX {
            u32::MAX
        } else {
            (now - last) as u32
        }
    } else {
        0
    }
}

/// Tags every message with the peer id it came from.
pub open spec fn with_id(id: u32, ms: Seq<NetworkMessage>) -> Seq<(u32, NetworkMessage)> {
    ms.map(|k: int, m: NetworkMessage| (id, m))
}

/// The `PingResult` replies owed for one peer's batch: one per `Ping`
/// received, carrying the elapsed time since the manager last pinged it.
pub open spec fn replies_for(ms: Seq<NetworkMessage>, id: u32, elapsed: u32) -> Seq<
    (u32, NetworkMessage),
>
    decreases ms.len(),
{
    if ms.len() == 0 {
        Seq::<(u32, NetworkMessage)>::empty()
    } else {
        let rest = replies_for(ms.drop_last(), id, elapsed);
        if ms.last() is Ping {
            rest.push((id, NetworkMessage::PingResult(elapsed)))
        } else {
            rest
        }
    }
}

/// All peers after the scan phase, in order.
pub open spec fn scan_clients(cs: Seq<ClientView>, es: Seq<SocketEvent>) -> Seq<ClientView>
    recommends
        cs.len() == es.len(),
    decreases cs.len(),
{
    if cs.len() == 0 {
        Seq::<ClientView>::empty()
    } else {
        scan_clients(cs.drop_last(), es.drop_last()).push(peer_after(cs.last(), es.last()))
    }
}

/// Which peers the scan schedules for removal, in order.
pub open spec fn scan_doomed(cs: Seq<ClientView>, es: Seq<SocketEvent>, marked: Seq<u32>) -> Seq<
    bool,
>
    recommends
        cs.len() == es.len(),
    decreases cs.len(),
{
    if cs.len() == 0 {
        Seq::<bool>::empty()
    } else {
        scan_doomed(cs.drop_last(), es.drop_last(), marked).push(
            peer_doomed(cs.last(), es.last(), marked),
        )
    }
}

/// Every message the scan surfaces, tagged with its peer, peers in accept
/// order and each peer's messages in stream order.
pub open spec fn scan_msgs(cs: Seq<ClientView>, es: Seq<SocketEvent>) -> Seq<
    (u32, NetworkMessage),
>
    recommends
        cs.len() == es.len(),
    decreases cs.len(),
{
    if cs.len() == 0 {
        Seq::<(u32, NetworkMessage)>::empty()
    } else {
        scan_msgs(cs.drop_last(), es.drop_last()) + with_id(
            cs.last().id,
            peer_msgs(cs.last(), es.last()),
        )
    }
}

/// Every ping reply the scan owes, in the same order.
pub open spec fn scan_replies(cs: Seq<ClientView>, es: Seq<SocketEvent>, now: u64) -> Seq<
    (u32, NetworkMessage),
>
    recommends
        cs.len() == es.len(),
    decreases cs.len(),
{
    if cs.len() == 0 {
        Seq::<(u32, NetworkMessage)>::empty()
    } else {
        scan_replies(cs.drop_last(), es.drop_last(), now) + replies_for(
            peer_msgs(cs.last(), es.last()),
            cs.last().id,
            ping_elapsed(now, cs.last().last_ping_time),
        )
    }
}

/// The peers that survive removal, order preserved.
pub open spec fn filter_keep(cs: Seq<ClientView>, d: Seq<bool>) -> Seq<ClientView>
    recommends
        cs.len() == d.len(),
    decreases cs.len(),
{
    if cs.len() == 0 {
        Seq::<ClientView>::empty()
    } else if d.last() {
        filter_keep(cs.drop_last(), d.drop_last())
    } else {
        filter_keep(cs.drop_last(), d.drop_last()).push(cs.last())
    }
}

/// The ids removed, in the order the removals happen: descending index
/// order, so that indices stay stable while the scan's findings are
/// applied.
pub open spec fn removed_desc(cs: Seq<ClientView>, d: Seq<bool>) -> Seq<u32>
    recommends
        cs.len() == d.len(),
    decreases cs.len(),
{
    if cs.len() == 0 {
        Seq::<u32>::empty()
    } else if d.last() {
        seq![cs.last().id] + removed_desc(cs.drop_last(), d.drop_last())
    } else {
        removed_desc(cs.drop_last(), d.drop_last())
    }
}

pub proof fn lemma_filter_keep_cons(cs: Seq<ClientView>, d: Seq<bool>, x: ClientView, dx: bool)
    requires
        cs.len() == d.len(),
    ensures
        filter_keep(seq![x] + cs, seq![dx] + d) == (if dx {
            Seq::<ClientView>::empty()
        } else {
            seq![x]
        }) + filter_keep(cs, d),
    decreases cs.len(),
{
    let cs1 = seq![x] + cs;
    let d1 = seq![dx] + d;
    if cs.len() == 0 {
        assert(cs1.drop_last() =~= Seq::<ClientView>::empty());
        assert(d1.drop_last() =~= Seq::<bool>::empty());
        assert(cs1.last() == x && d1.last() == dx);
        assert(filter_keep(Seq::<ClientView>::empty(), Seq::<bool>::empty())
            == Seq::<ClientView>::empty());
        assert(cs =~= Seq::<ClientView>::empty());
        assert(d =~= Seq::<bool>::empty());
        if dx {
            assert(filter_keep(cs1, d1) =~= (Seq::<ClientView>::empty()) + filter_keep(cs, d));
        } else {
            assert(filter_keep(cs1, d1) =~= seq![x] + filter_keep(cs, d));
        }
    } else {
        lemma_filter_keep_cons(cs.drop_last(), d.drop_last(), x, dx);
        assert(cs1.drop_last() =~= seq![x] + cs.drop_last());
        assert(d1.drop_last() =~= seq![dx] + d.drop_last());
        assert(cs1.last() == cs.last() && d1.last() == d.last());
        if dx {
            assert(filter_keep(cs1, d1) =~= (Seq::<ClientView>::empty()) + filter_keep(cs, d));
        } else {
            assert(filter_keep(cs1, d1) =~= seq![x] + filter_keep(cs, d));
        }
    }
}

pub proof fn lemma_removed_desc_cons(cs: Seq<ClientView>, d: Seq<bool>, x: ClientView, dx: bool)
    requires
        cs.len() == d.len(),
    ensures
        removed_desc(seq![x] + cs, seq![dx] + d) == removed_desc(cs, d) + (if dx {
            seq![x.id]
        } else {
            Seq::<u32>::empty()
        }),
    decreases cs.len(),
{
    let cs1 = seq![x] + cs;
    let d1 = seq![dx] + d;
    if cs.len() == 0 {
        assert(cs1.drop_last() =~= Seq::<ClientView>::empty());
        assert(d1.drop_last() =~= Seq::<bool>::empty());
        assert(cs1.last() == x && d1.last() == dx);
        assert(removed_desc(Seq::<ClientView>::empty(), Seq::<bool>::empty())
            == Seq::<u32>::empty());
        assert(cs =~= Seq::<ClientView>::empty());
        assert(d =~= Seq::<bool>::empty());
        if dx {
            assert(removed_desc(cs1, d1) =~= removed_desc(cs, d) + seq![x.id]);
        } else {
            assert(removed_desc(cs1, d1) =~= removed_desc(cs, d) + Seq::<u32>::empty());
        }
    } else {
        lemma_removed_desc_cons(cs.drop_last(), d.drop_last(), x, dx);
        assert(cs1.drop_last() =~= seq![x] + cs.drop_last());
        assert(d1.drop_last() =~= seq![dx] + d.drop_last());
        assert(cs1.last() == cs.last() && d1.last() == d.last());
        if d.last() {
            assert(removed_desc(cs1, d1) =~= removed_desc(cs, d) + (if dx {
                seq![x.id]
            } else {
                Seq::<u32>::empty()
            }));
        } else {
            assert(removed_desc(cs1, d1) =~= removed_desc(cs, d) + (if dx {
                seq![x.id]
            } else {
                Seq::<u32>::empty()
            }));
        }
    }
}

/// What one whole `listen` pass does, assembled: accept, scan every peer,
/// then remove the doomed ones in descending index order, clearing the
/// write-failure marks.
pub open spec fn listen_spec(v: ServerView, now: u64, accepted: bool, es: Seq<SocketEvent>) -> (
    ServerView,
    Option<u32>,
    Seq<(u32, NetworkMessage)>,
    Seq<(u32, NetworkMessage)>,
    Seq<u32>,
) {
    let cs0 = if accepted {
        v.clients.push(accepted_view(v.next_id))
    } else {
        v.clients
    };
    let cs1 = scan_clients(cs0, es);
    let dm = scan_doomed(cs0, es, v.marked);
    (
        ServerView {
            clients: filter_keep(cs1, dm),
            next_id: if accepted {
                (v.next_id + 1) as u32
            } else {
                v.next_id
            },
            marked: Seq::<u32>::empty(),
            ..v
        },
        if accepted {
            Option::Some(v.next_id)
        } else {
            Option::None
        },
        scan_msgs(cs0, es),
        scan_replies(cs0, es, now),
        removed_desc(cs1, dm),
    )
}

/// What one `listen` pass hands back to the embedding loop: the id of a
/// peer accepted this tick, every surfaced message tagged with its peer,
/// the ping replies owed (to be framed and written), and the removed
/// peers' ids — the disconnect callback fires once for each, in order.
pub struct ListenResult {
    pub accepted_id: Option<u32>,
    pub messages: Vec<(u32, NetworkMessage)>,
    pub replies: Vec<(u32, NetworkMessage)>,
    pub removed: Vec<u32>,
}

pub proof fn lemma_scan_doomed_pointwise(cs: Seq<ClientView>, es: Seq<SocketEvent>, marked: Seq<u32>)
    requires
        cs.len() == es.len(),
    ensures
        scan_doomed(cs, es, marked).len() == cs.len(),
        forall|j: int|
            0 <= j < cs.len() ==> #[trigger] scan_doomed(cs, es, marked)[j] == peer_doomed(
                cs[j],
                es[j],
                marked,
            ),
    decreases cs.len(),
{
    if cs.len() > 0 {
        lemma_scan_doomed_pointwise(cs.drop_last(), es.drop_last(), marked);
        assert forall|j: int| 0 <= j < cs.len() implies #[trigger] scan_doomed(cs, es, marked)[j]
            == peer_doomed(cs[j], es[j], marked) by {
            if j < cs.len() - 1 {
                assert(scan_doomed(cs, es, marked)[j] == scan_doomed(
                    cs.drop_last(),
                    es.drop_last(),
                    marked,
                )[j]);
                assert(cs.drop_last()[j] == cs[j] && es.drop_last()[j] == es[j]);
            }
        }
    }
}

/// Every peer the pass does not doom survives it.
pub proof fn lemma_filter_keep_complete(cs: Seq<ClientView>, d: Seq<bool>)
    requires
        cs.len() == d.len(),
    ensures
        forall|k: int|
            0 <= k < cs.len() && !d[k] ==> filter_keep(cs, d).contains(#[trigger] cs[k]),
    decreases cs.len(),
{
    if cs.len() > 0 {
        let cs_ = cs.drop_last();
        let d_ = d.drop_last();
        lemma_filter_keep_complete(cs_, d_);
        let fk = filter_keep(cs, d);
        let fk_ = filter_keep(cs_, d_);
        assert forall|k: int| 0 <= k < cs.len() && !d[k] implies fk.contains(#[trigger] cs[k]) by {
            if k < cs.len() - 1 {
                assert(cs_[k] == cs[k] && d_[k] == d[k]);
                assert(fk_.contains(cs[k]));
                let m = choose|m: int| 0 <= m < fk_.len() && fk_[m] == cs[k];
                assert(fk[m] == cs[k]);
            } else {
                assert(fk[fk.len() - 1] == cs[k]);
            }
        }
    }
}

/// Disconnect exactly-once law, read off one whole `listen` pass: the
/// pass reports each removed peer exactly once, and a reported peer is
/// gone — no surviving peer carries its id, so it is absent from every
/// later broadcast.
pub proof fn lemma_listen_removes_once(
    v: ServerView,
    now: u64,
    accepted: bool,
    es: Seq<SocketEvent>,
)
    requires
        server_wf(v),
        es.len() == v.clients.len() + (if accepted {
            1int
        } else {
            0int
        }),
        accepted ==> v.next_id < u32::MAX,
    ensures
        ({
            let after = listen_spec(v, now, accepted, es).0;
            let removed = listen_spec(v, now, accepted, es).4;
            &&& forall|a: int, b: int|
                #![trigger removed[a], removed[b]]
                0 <= a < b < removed.len() ==> removed[a] != removed[b]
            &&& forall|a: int, k: int|
                #![trigger removed[a], after.clients[k]]
                0 <= a < removed.len() && 0 <= k < after.clients.len() ==> after.clients[k].id
                    != removed[a]
        }),
{
    let cs0 = if accepted {
        v.clients.push(accepted_view(v.next_id))
    } else {
        v.clients
    };
    assert forall|i: int, j: int| 0 <= i < j < cs0.len() implies (#[trigger] cs0[i]).id != (
    #[trigger] cs0[j]).id by {
        if j < v.clients.len() {
            assert(cs0[i] == v.clients[i] && cs0[j] == v.clients[j]);
        } else if accepted && j == v.clients.len() {
            assert(cs0[i] == v.clients[i]);
            assert(v.clients[i].id < v.next_id);
            assert(cs0[j].id == v.next_id);
        }
    }
    let cs1 = scan_clients(cs0, es);
    let dm = scan_doomed(cs0, es, v.marked);
    lemma_scan_clients_pointwise(cs0, es);
    lemma_scan_doomed_pointwise(cs0, es, v.marked);
    assert forall|i: int, j: int| 0 <= i < j < cs1.len() implies (#[trigger] cs1[i]).id != (
    #[trigger] cs1[j]).id by {
        assert(cs1[i] == peer_after(cs0[i], es[i]));
        assert(cs1[j] == peer_after(cs0[j], es[j]));
        assert(cs0[i].id != cs0[j].id);
    }
    lemma_removed_once(cs1, dm);
}

/// Fault isolation law, read off one whole `listen` pass: dooming one
/// peer — by a failed write recorded against it, a closed or failed
/// read, or a desynchronized stream — never removes another. Every peer
/// the scan left healthy survives the pass. Together with `broadcast`,
/// which addresses every live peer unconditionally, one bad peer cannot
/// stop the others from being served.
pub proof fn lemma_listen_fault_isolation(
    v: ServerView,
    now: u64,
    accepted: bool,
    es: Seq<SocketEvent>,
    k: int,
)
    requires
        es.len() == v.clients.len() + (if accepted {
            1int
        } else {
            0int
        }),
        ({
            let cs0 = if accepted {
                v.clients.push(accepted_view(v.next_id))
            } else {
                v.clients
            };
            0 <= k < cs0.len() && !peer_doomed(cs0[k], es[k], v.marked)
        }),
    ensures
        ({
            let cs0 = if accepted {
                v.clients.push(accepted_view(v.next_id))
            } else {
                v.clients
            };
            listen_spec(v, now, accepted, es).0.clients.contains(peer_after(cs0[k], es[k]))
        }),
{
    let cs0 = if accepted {
        v.clients.push(accepted_view(v.next_id))
    } else {
        v.clients
    };
    let cs1 = scan_clients(cs0, es);
    let dm = scan_doomed(cs0, es, v.marked);
    lemma_scan_clients_pointwise(cs0, es);
    lemma_scan_doomed_pointwise(cs0, es, v.marked);
    lemma_filter_keep_complete(cs1, dm);
    assert(cs1[k] == peer_after(cs0[k], es[k]));
    assert(!dm[k]);
    assert(filter_keep(cs1, dm).contains(cs1[k]));
}

/// The scan changes only each peer's buffer, element by element.
pub proof fn lemma_scan_clients_pointwise(cs: Seq<ClientView>, es: Seq<SocketEvent>)
    requires
        cs.len() == es.len(),
    ensures
        scan_clients(cs, es).len() == cs.len(),
        forall|j: int|
            0 <= j < cs.len() ==> #[trigger] scan_clients(cs, es)[j] == peer_after(cs[j], es[j]),
    decreases cs.len(),
{
    if cs.len() > 0 {
        lemma_scan_clients_pointwise(cs.drop_last(), es.drop_last());
        assert forall|j: int| 0 <= j < cs.len() implies #[trigger] scan_clients(cs, es)[j]
            == peer_after(cs[j], es[j]) by {
            if j < cs.len() - 1 {
                assert(scan_clients(cs, es)[j] == scan_clients(cs.drop_last(), es.drop_last())[j]);
                assert(cs.drop_last()[j] == cs[j] && es.drop_last()[j] == es[j]);
            }
        }
    }
}

/// Every surviving peer is one of the scanned peers.
pub proof fn lemma_filter_keep_contains(cs: Seq<ClientView>, d: Seq<bool>)
    requires
        cs.len() == d.len(),
    ensures
        filter_keep(cs, d).len() <= cs.len(),
        forall|k: int|
            #![trigger filter_keep(cs, d)[k]]
            0 <= k < filter_keep(cs, d).len() ==> exists|m: int|
                0 <= m < cs.len() && filter_keep(cs, d)[k] == (#[trigger] cs[m]),
    decreases cs.len(),
{
    if cs.len() > 0 {
        let cs_ = cs.drop_last();
        let d_ = d.drop_last();
        lemma_filter_keep_contains(cs_, d_);
        let fk = filter_keep(cs, d);
        let fk_ = filter_keep(cs_, d_);
        assert forall|k: int| #![trigger fk[k]] 0 <= k < fk.len() implies exists|m: int|
            0 <= m < cs.len() && fk[k] == (#[trigger] cs[m]) by {
            if d.last() || k < fk_.len() {
                assert(fk[k] == fk_[k]);
                let m = choose|m: int| 0 <= m < cs_.len() && fk_[k] == cs_[m];
                assert(fk[k] == cs[m]);
            } else {
                assert(fk[k] == cs[cs.len() - 1]);
            }
        }
    }
}

/// Every removed id names one of the scanned peers.
pub proof fn lemma_removed_src(cs: Seq<ClientView>, d: Seq<bool>)
    requires
        cs.len() == d.len(),
    ensures
        removed_desc(cs, d).len() <= cs.len(),
        forall|a: int|
            #![trigger removed_desc(cs, d)[a]]
            0 <= a < removed_desc(cs, d).len() ==> exists|m: int|
                0 <= m < cs.len() && removed_desc(cs, d)[a] == (#[trigger] cs[m]).id,
    decreases cs.len(),
{
    if cs.len() > 0 {
        let cs_ = cs.drop_last();
        let d_ = d.drop_last();
        lemma_removed_src(cs_, d_);
        let r = removed_desc(cs, d);
        let r_ = removed_desc(cs_, d_);
        assert forall|a: int| #![trigger r[a]] 0 <= a < r.len() implies exists|m: int|
            0 <= m < cs.len() && r[a] == (#[trigger] cs[m]).id by {
            if d.last() {
                if a == 0 {
                    assert(r[a] == (cs[cs.len() - 1]).id);
                } else {
                    assert(r[a] == r_[a - 1]);
                    let m = choose|m: int| 0 <= m < cs_.len() && r_[a - 1] == cs_[m].id;
                    assert(r[a] == cs[m].id);
                }
            } else {
                assert(r[a] == r_[a]);
                let m = choose|m: int| 0 <= m < cs_.len() && r_[a] == cs_[m].id;
                assert(r[a] == cs[m].id);
            }
        }
    }
}

/// Disconnect exactly-once law: with pairwise-distinct peer ids, the
/// removal pass reports each dropped peer's id exactly once, and no
/// reported id is carried by any surviving peer — a removed peer is
/// absent from every later broadcast.
pub proof fn lemma_removed_once(cs: Seq<ClientView>, d: Seq<bool>)
    requires
        cs.len() == d.len(),
        forall|i: int, j: int|
            #![trigger cs[i], cs[j]]
            0 <= i < j < cs.len() ==> cs[i].id != cs[j].id,
    ensures
        forall|a: int, b: int|
            #![trigger removed_desc(cs, d)[a], removed_desc(cs, d)[b]]
            0 <= a < b < removed_desc(cs, d).len() ==> removed_desc(cs, d)[a] != removed_desc(
                cs,
                d,
            )[b],
        forall|a: int, k: int|
            #![trigger removed_desc(cs, d)[a], filter_keep(cs, d)[k]]
            0 <= a < removed_desc(cs, d).len() && 0 <= k < filter_keep(cs, d).len() ==> filter_keep(
                cs,
                d,
            )[k].id != removed_desc(cs, d)[a],
    decreases cs.len(),
{
    if cs.len() > 0 {
        let cs_ = cs.drop_last();
        let d_ = d.drop_last();
        assert forall|i: int, j: int| 0 <= i < j < cs_.len() implies (#[trigger] cs_[i]).id != (
        #[trigger] cs_[j]).id by {
            assert(cs_[i] == cs[i] && cs_[j] == cs[j]);
        }
        lemma_removed_once(cs_, d_);
        lemma_removed_src(cs_, d_);
        lemma_filter_keep_contains(cs_, d_);
        let r = removed_desc(cs, d);
        let r_ = removed_desc(cs_, d_);
        let fk = filter_keep(cs, d);
        let fk_ = filter_keep(cs_, d_);
        if d.last() {
            assert forall|a: int, b: int| 0 <= a < b < r.len() implies (#[trigger] r[a]) != (
            #[trigger] r[b]) by {
                if a == 0 {
                    assert(r[0] == cs[cs.len() - 1].id);
                    assert(r[b] == r_[b - 1]);
                    let m = choose|m: int| 0 <= m < cs_.len() && r_[b - 1] == cs_[m].id;
                    assert(cs[m].id != cs[cs.len() - 1].id);
                } else {
                    assert(r[a] == r_[a - 1] && r[b] == r_[b - 1]);
                }
            }
            assert forall|a: int, k: int|
                0 <= a < r.len() && 0 <= k < fk.len() implies (#[trigger] fk[k]).id != (
            #[trigger] r[a]) by {
                assert(fk[k] == fk_[k]);
                if a == 0 {
                    assert(r[0] == cs[cs.len() - 1].id);
                    let m = choose|m: int| 0 <= m < cs_.len() && fk_[k] == cs_[m];
                    assert(fk[k] == cs[m]);
                    assert(cs[m].id != cs[cs.len() - 1].id);
                } else {
                    assert(r[a] == r_[a - 1]);
                }
            }
        } else {
            assert forall|a: int, b: int| 0 <= a < b < r.len() implies (#[trigger] r[a]) != (
            #[trigger] r[b]) by {
                assert(r[a] == r_[a] && r[b] == r_[b]);
            }
            assert forall|a: int, k: int|
                0 <= a < r.len() && 0 <= k < fk.len() implies (#[trigger] fk[k]).id != (
            #[trigger] r[a]) by {
                assert(r[a] == r_[a]);
                let m = choose|m: int| 0 <= m < cs_.len() && r_[a] == cs_[m].id;
                if k < fk_.len() {
                    assert(fk[k] == fk_[k]);
                } else {
                    assert(fk[k] == cs[cs.len() - 1]);
                    assert(cs[m].id != cs[cs.len() - 1].id);
                    assert(r[a] == cs[m].id);
                }
            }
        }
    }
}

/// Removal keeps the surviving peers well-formed: still connected, ids
/// still below the counter and still pairwise distinct.
pub proof fn lemma_filter_keep_preserves(cs: Seq<ClientView>, d: Seq<bool>, bound: u32)
    requires
        cs.len() == d.len(),
        forall|i: int| 0 <= i < cs.len() ==> (#[trigger] cs[i]).connected && cs[i].id < bound,
        forall|i: int, j: int|
            #![trigger cs[i], cs[j]]
            0 <= i < j < cs.len() ==> cs[i].id != cs[j].id,
    ensures
        filter_keep(cs, d).len() <= cs.len(),
        forall|k: int|
            0 <= k < filter_keep(cs, d).len() ==> cs.contains(#[trigger] filter_keep(cs, d)[k]),
        forall|k: int|
            0 <= k < filter_keep(cs, d).len() ==> (#[trigger] filter_keep(cs, d)[k]).connected
                && filter_keep(cs, d)[k].id < bound,
        forall|a: int, b: int|
            #![trigger filter_keep(cs, d)[a], filter_keep(cs, d)[b]]
            0 <= a < b < filter_keep(cs, d).len() ==> filter_keep(cs, d)[a].id != filter_keep(
                cs,
                d,
            )[b].id,
    decreases cs.len(),
{
    if cs.len() == 0 {
    } else {
        let cs_ = cs.drop_last();
        let d_ = d.drop_last();
        assert forall|i: int| 0 <= i < cs_.len() implies (#[trigger] cs_[i]).connected && cs_[i].id
            < bound by {
            assert(cs_[i] == cs[i]);
        }
        assert forall|i: int, j: int| 0 <= i < j < cs_.len() implies (#[trigger] cs_[i]).id != (
        #[trigger] cs_[j]).id by {
            assert(cs_[i] == cs[i] && cs_[j] == cs[j]);
        }
        lemma_filter_keep_preserves(cs_, d_, bound);
        let fk = filter_keep(cs, d);
        let fk_ = filter_keep(cs_, d_);
        assert forall|k: int| 0 <= k < fk.len() implies cs.contains(#[trigger] fk[k]) by {
            if d.last() || k < fk_.len() {
                assert(fk[k] == fk_[k]);
                assert(cs_.contains(fk_[k]));
                let m = choose|m: int| 0 <= m < cs_.len() && cs_[m] == fk_[k];
                assert(cs[m] == fk[k]);
            } else {
                assert(fk[k] == cs.last());
                assert(cs[cs.len() - 1] == fk[k]);
            }
        }
        assert forall|k: int| 0 <= k < fk.len() implies (#[trigger] fk[k]).connected && fk[k].id
            < bound by {
            let m = choose|m: int| 0 <= m < cs.len() && cs[m] == fk[k];
            assert(cs[m].connected && cs[m].id < bound);
        }
        assert forall|a: int, b: int| 0 <= a < b < fk.len() implies (#[trigger] fk[a]).id != (
        #[trigger] fk[b]).id by {
            if d.last() || b < fk_.len() {
                assert(fk[a] == fk_[a] && fk[b] == fk_[b]);
            } else {
                assert(fk[a] == fk_[a]);
                assert(fk[b] == cs.last());
                assert(cs_.contains(fk_[a]));
                let m = choose|m: int| 0 <= m < cs_.len() && cs_[m] == fk_[a];
                assert(cs[m] == fk[a]);
                assert(cs[m].id != cs[cs.len() - 1].id);
            }
        }
    }
}

} // verus!
