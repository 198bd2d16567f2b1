//! The server: owns the session table, keyed by client address, and
//! drives one scheduling tick per invocation. The host performs the
//! actual socket work and hands this module plain values: accepted
//! addresses, received bytes, and the records to transmit. A transport
//! failure is local to one session; the host reports it by disconnecting
//! that session, never by tearing the table down.

use vstd::prelude::*;
use crate::codec::{
    DrainStop, drain_model, encode_server_message, enc_record, enc_server_payload,
    drain_client_messages, server_msg_encodable,
};
use crate::input::{coalesce_model, option_input_model};
use crate::messages::{ServerMsgModel, ServerToClientMessage, server_msg_model};
use crate::session::{
    DEFAULT_MIN_UPDATE_INTERVAL, Session, UiEngine, deltas_of, session_due,
    session_frame_evolution, session_identity_unchanged,
};
use crate::messages::project_model;
use crate::geometry::ClippedPrimitiveModel;

verus! {

/// A client's network address: the IP as a 128-bit value (IPv4 addresses
/// occupy the low 32 bits) and the port. Sessions are keyed by this.
#[derive(Clone, Copy, Debug, PartialEq, Eq, Hash, Structural)]
pub struct Addr {
    pub ip: u128,
    pub port: u16,
}

/// A stable numeric session identifier, unique for the server's lifetime.
#[derive(Clone, Copy, Debug, PartialEq, Eq, Hash, Structural)]
pub struct ClientId(pub u64);

/// One length-prefixed record to transmit, and to whom.
pub struct Outgoing {
    pub addr: Addr,
    pub bytes: Vec<u8>,
}

/// Whether some session in the table has this address.
pub open spec fn has_addr<E>(ss: Seq<Session<E>>, addr: Addr) -> bool {
    exists|i: int| 0 <= i < ss.len() && (#[trigger] ss[i]).addr == addr
}

/// The index of the session with this address (unique in a well-formed
/// table).
pub open spec fn addr_index<E>(ss: Seq<Session<E>>, addr: Addr) -> int {
    choose|i: int| 0 <= i < ss.len() && (#[trigger] ss[i]).addr == addr
}

/// How a reconnect from a known address changes its session: only the
/// connection handle and its read buffer are fresh. The engine instance,
/// the frame counter, pending input and every timer are retained — this
/// is what lets a client resume with its prior state.
pub open spec fn session_reconnected<E>(s0: Session<E>, s1: Session<E>) -> bool {
    &&& session_identity_unchanged(s0, s1)
    &&& s1.connected
    &&& s1.recv_buf.model() == Seq::<u8>::empty()
    &&& s1.frame_index == s0.frame_index
    &&& s1.engine == s0.engine
    &&& s1.new_input == s0.new_input
    &&& s1.last_client_time == s0.last_client_time
    &&& s1.ever_updated == s0.ever_updated
    &&& s1.last_update == s0.last_update
}

/// A session as it is created for a first connection from a new address:
/// it carries exactly the identifier the server hands out.
pub open spec fn session_fresh_for<E>(s: Session<E>, id: ClientId, addr: Addr, engine: E, now: u64) -> bool {
    &&& s.client_id == id
    &&& s.addr == addr
    &&& s.connected
    &&& s.recv_buf.model() == Seq::<u8>::empty()
    &&& s.start_time == now
    &&& s.frame_index == 0
    &&& s.engine == engine
    &&& s.new_input is None
    &&& s.last_client_time is None
    &&& !s.ever_updated
    &&& s.last_update == now
    &&& s.max_update_interval == crate::session::DEFAULT_MAX_UPDATE_INTERVAL
}

/// How feeding `bytes` to a connected session changes it: the complete
/// records are drained (at most `max`), input batches are coalesced in
/// arrival order, the capture time of the newest batch is remembered,
/// and a goodbye or malformed record abandons the connection — nothing
/// else moves.
pub open spec fn session_received<E>(s0: Session<E>, s1: Session<E>, bytes: Seq<u8>, max: nat) -> bool {
    let dm = drain_model(s0.recv_buf.model() + bytes, max);
    let dropped = dm.stop == DrainStop::SawGoodbye || dm.stop == DrainStop::Malformed;
    &&& option_input_model(s1.new_input) == coalesce_model(
        option_input_model(s0.new_input),
        deltas_of(dm.inputs),
    )
    &&& s1.last_client_time == if dm.inputs.len() > 0 {
        Option::Some(dm.inputs.last().1)
    } else {
        s0.last_client_time
    }
    &&& s1.connected == !dropped
    &&& s1.recv_buf.model() == if dropped { Seq::<u8>::empty() } else { dm.rest }
    &&& session_identity_unchanged(s0, s1)
    &&& s1.frame_index == s0.frame_index
    &&& s1.engine == s0.engine
    &&& s1.ever_updated == s0.ever_updated
    &&& s1.last_update == s0.last_update
}

/// As [`session_frame_evolution`], except that transmitting the frame
/// failed, so the connection was abandoned along with it.
pub open spec fn session_frame_evolution_dropped<E>(s0: Session<E>, s1: Session<E>, now: u64) -> bool {
    &&& session_identity_unchanged(s0, s1)
    &&& !s1.connected
    &&& s1.recv_buf.model() == Seq::<u8>::empty()
    &&& s1.frame_index == s0.frame_index + 1
    &&& s1.new_input is None
    &&& s1.last_client_time is None
    &&& s1.ever_updated
    &&& s1.last_update == now
}

/// One transmitted record carries one frame of session `s0`: its frame
/// index and time echo are the session's, its meshes are the projection
/// of some draw list, and the bytes are exactly that frame's encoding.
pub open spec fn frame_record_ok<E>(s0: Session<E>, o: Outgoing) -> bool {
    &&& o.addr == s0.addr
    &&& exists|m: ServerMsgModel| {
        &&& #[trigger] server_msg_encodable(m)
        &&& m matches ServerMsgModel::Frame {
            frame_index, platform_output, clipped_net_mesh, textures_delta, client_time,
        } && frame_index == s0.frame_index
            && client_time == s0.last_client_time
            && (exists|prims: Seq<ClippedPrimitiveModel>| clipped_net_mesh == project_model(prims))
        &&& o.bytes@ == enc_record(enc_server_payload(m))
    }
}

pub struct Server<E> {
    /// The identifier the next new session will receive.
    pub next_client_id: u64,
    /// The address-keyed session table. Entries are never removed; a
    /// disconnected entry waits for its address to reconnect.
    pub sessions: Vec<Session<E>>,
    /// The heartbeat interval: a frame is forced for every connected
    /// session after this many nanoseconds without one.
    pub minimum_update_interval: u64,
}

impl<E> Server<E> {
    /// Well-formedness of the table: addresses are distinct, identifiers
    /// strictly increase along the table, and none has reached the next
    /// identifier to be handed out.
    pub closed spec fn wf(&self) -> bool {
        &&& forall|i: int, j: int| 0 <= i < j < self.sessions@.len()
            ==> (#[trigger] self.sessions@[i]).addr != (#[trigger] self.sessions@[j]).addr
        &&& forall|i: int, j: int| 0 <= i < j < self.sessions@.len()
            ==> (#[trigger] self.sessions@[i]).client_id.0
                < (#[trigger] self.sessions@[j]).client_id.0
        &&& forall|i: int| 0 <= i < self.sessions@.len()
            ==> (#[trigger] self.sessions@[i]).client_id.0 < self.next_client_id
    }

    /// A server with no sessions yet. The host binds and listens itself;
    /// this side only keeps the table and the scheduling rule.
    pub fn new() -> (s: Server<E>)
        ensures
            s.wf(),
            s.sessions@.len() == 0,
            s.next_client_id == 0,
            s.minimum_update_interval == DEFAULT_MIN_UPDATE_INTERVAL,
    {
        Server {
            next_client_id: 0,
            sessions: Vec::new(),
            minimum_update_interval: DEFAULT_MIN_UPDATE_INTERVAL,
        }
    }

    /// Send a new frame to each client at least this often (nanoseconds).
    pub fn set_minimum_update_interval(&mut self, minimum_update_interval: u64)
        ensures
            final(self).minimum_update_interval == minimum_update_interval,
            final(self).sessions@ == old(self).sessions@,
            final(self).wf() == old(self).wf(),
    {
        self.minimum_update_interval = minimum_update_interval;
    }

    /// Find the session table index for an address.
    fn find_session(&self, addr: Addr) -> (r: Option<usize>)
        requires
            self.wf(),
        ensures
            match r {
                Option::Some(i) => has_addr(self.sessions@, addr)
                    && i == addr_index(self.sessions@, addr)
                    && i < self.sessions@.len()
                    && self.sessions@[i as int].addr == addr,
                Option::None => !has_addr(self.sessions@, addr),
            },
    {
        let n = self.sessions.len();
        let mut i: usize = 0;
        while i < n
            invariant
                self.wf(),
                n == self.sessions@.len(),
                i <= n,
                forall|j: int| 0 <= j < i ==> (#[trigger] self.sessions@[j]).addr != addr,
            decreases n - i,
        {
            let s = &self.sessions[i];
            if s.addr.ip == addr.ip && s.addr.port == addr.port {
                proof {
                    assert(self.sessions@[i as int].addr == addr);
                    let k = addr_index(self.sessions@, addr);
                    if k != i {
                        assert(0 <= k < self.sessions@.len()
                            && self.sessions@[k].addr == addr);
                        assert(false);
                    }
                }
                return Some(i);
            }
            i += 1;
        }
        None
    }

    /// A connection was accepted from `addr` at server time `now`. A new
    /// address gets a fresh session (with the supplied engine instance
    /// and a fresh, never-reused identifier); a known address re-attaches
    /// to its existing session, which keeps its engine, counters and
    /// pending input — only the connection handle and read buffer are
    /// new. The supplied engine is dropped in that case.
    pub fn connect(&mut self, addr: Addr, engine: E, now: u64)
        requires
            old(self).wf(),
            has_addr(old(self).sessions@, addr) || old(self).next_client_id < u64::MAX,
        ensures
            final(self).wf(),
            final(self).minimum_update_interval == old(self).minimum_update_interval,
            if has_addr(old(self).sessions@, addr) {
                let i = addr_index(old(self).sessions@, addr);
                &&& final(self).sessions@.len() == old(self).sessions@.len()
                &&& forall|j: int| 0 <= j < old(self).sessions@.len() && j != i
                    ==> final(self).sessions@[j] == old(self).sessions@[j]
                &&& session_reconnected(old(self).sessions@[i], final(self).sessions@[i])
                &&& final(self).next_client_id == old(self).next_client_id
            } else {
                let n = old(self).sessions@.len() as int;
                &&& final(self).sessions@.len() == n + 1
                &&& forall|j: int| 0 <= j < n
                    ==> final(self).sessions@[j] == old(self).sessions@[j]
                &&& session_fresh_for(final(self).sessions@[n],
                    ClientId(old(self).next_client_id), addr, engine, now)
                &&& forall|j: int| 0 <= j < n
                    ==> final(self).sessions@[n].client_id
                        != (#[trigger] old(self).sessions@[j]).client_id
                &&& final(self).next_client_id == old(self).next_client_id + 1
            },
    {
        let found = self.find_session(addr);
        match found {
            Some(i) => {
                let mut s = self.sessions.remove(i);
                s.connected = true;
                s.recv_buf.clear();
                self.sessions.insert(i, s);
                proof {
                    assert(self.sessions@
                        =~= old(self).sessions@.update(i as int, self.sessions@[i as int]));
                }
            },
            None => {
                let id = ClientId(self.next_client_id);
                self.next_client_id = self.next_client_id + 1;
                let s = Session::new(id, addr, engine, now);
                self.sessions.push(s);
                proof {
                    let n = old(self).sessions@.len() as int;
                    assert(self.sessions@[n].client_id.0 == old(self).next_client_id);
                    assert forall|j: int| 0 <= j < n
                        implies self.sessions@[n].client_id
                            != (#[trigger] old(self).sessions@[j]).client_id by {
                        assert(old(self).sessions@[j].client_id.0 < old(self).next_client_id);
                    }
                }
            },
        }
    }

    /// Bytes arrived from `addr`'s connection. They are buffered, the
    /// complete records (at most `max`) are drained, and the session
    /// changes as [`session_received`] says. A malformed record or a
    /// goodbye abandons only that session's connection: every other
    /// session is untouched, and an unknown or disconnected sender
    /// changes nothing at all.
    pub fn receive(&mut self, addr: Addr, bytes: &Vec<u8>, max: usize)
        requires
            old(self).wf(),
        ensures
            final(self).wf(),
            final(self).next_client_id == old(self).next_client_id,
            final(self).minimum_update_interval == old(self).minimum_update_interval,
            final(self).sessions@.len() == old(self).sessions@.len(),
            if has_addr(old(self).sessions@, addr) {
                let i = addr_index(old(self).sessions@, addr);
                &&& forall|j: int| 0 <= j < old(self).sessions@.len() && j != i
                    ==> final(self).sessions@[j] == old(self).sessions@[j]
                &&& if old(self).sessions@[i].connected {
                    session_received(old(self).sessions@[i], final(self).sessions@[i], bytes@,
                        max as nat)
                } else {
                    final(self).sessions@[i] == old(self).sessions@[i]
                }
            } else {
                final(self).sessions@ == old(self).sessions@
            },
    {
        let found = self.find_session(addr);
        match found {
            Some(i) => {
                if self.sessions[i].connected {
                    let mut s = self.sessions.remove(i);
                    s.recv_buf.feed(bytes);
                    let (inputs, stop) = drain_client_messages(&mut s.recv_buf, max);
                    s.apply_drained(inputs, stop);
                    self.sessions.insert(i, s);
                    proof {
                        assert(self.sessions@
                            =~= old(self).sessions@.update(i as int, self.sessions@[i as int]));
                        assert(session_received(
                            old(self).sessions@[i as int],
                            self.sessions@[i as int],
                            bytes@,
                            max as nat,
                        ));
                    }
                } else {
                    proof {
                        assert(self.sessions@ =~= old(self).sessions@);
                    }
                }
            },
            None => {
                proof {
                    assert(self.sessions@ =~= old(self).sessions@);
                }
            },
        }
    }

    /// The host saw `addr`'s connection fail while sending (or wants it
    /// gone): its connection handle and buffered bytes are dropped; the
    /// session itself, and every other session, is retained unchanged.
    pub fn disconnect(&mut self, addr: Addr)
        requires
            old(self).wf(),
        ensures
            final(self).wf(),
            final(self).next_client_id == old(self).next_client_id,
            final(self).minimum_update_interval == old(self).minimum_update_interval,
            final(self).sessions@.len() == old(self).sessions@.len(),
            if has_addr(old(self).sessions@, addr) {
                let i = addr_index(old(self).sessions@, addr);
                &&& forall|j: int| 0 <= j < old(self).sessions@.len() && j != i
                    ==> final(self).sessions@[j] == old(self).sessions@[j]
                &&& ({
                    let s0 = old(self).sessions@[i];
                    let s1 = final(self).sessions@[i];
                    &&& session_identity_unchanged(s0, s1)
                    &&& !s1.connected
                    &&& s1.recv_buf.model() == Seq::<u8>::empty()
                    &&& s1.frame_index == s0.frame_index
                    &&& s1.engine == s0.engine
                    &&& s1.new_input == s0.new_input
                    &&& s1.last_client_time == s0.last_client_time
                    &&& s1.ever_updated == s0.ever_updated
                    &&& s1.last_update == s0.last_update
                })
            } else {
                final(self).sessions@ == old(self).sessions@
            },
    {
        let found = self.find_session(addr);
        match found {
            Some(i) => {
                let mut s = self.sessions.remove(i);
                s.disconnect();
                self.sessions.insert(i, s);
                proof {
                    assert(self.sessions@
                        =~= old(self).sessions@.update(i as int, self.sessions@[i as int]));
                }
            },
            None => {
                proof {
                    assert(self.sessions@ =~= old(self).sessions@);
                }
            },
        }
    }
}

impl<E> Server<E> {
    /// How many sessions the table holds, connected or not.
    pub fn session_count(&self) -> (n: usize)
        ensures
            n == self.sessions@.len(),
    {
        self.sessions.len()
    }

    /// The frame counter of the session for `addr`, if one exists.
    pub fn frame_index_of(&self, addr: Addr) -> (r: Option<u64>)
        requires
            self.wf(),
        ensures
            match r {
                Option::Some(fi) => has_addr(self.sessions@, addr)
                    && fi == self.sessions@[addr_index(self.sessions@, addr)].frame_index,
                Option::None => !has_addr(self.sessions@, addr),
            },
    {
        let found = self.find_session(addr);
        match found {
            Some(i) => Some(self.sessions[i].frame_index),
            None => None,
        }
    }

    /// Whether the session for `addr` currently has a connection handle.
    pub fn is_connected(&self, addr: Addr) -> (r: Option<bool>)
        requires
            self.wf(),
        ensures
            match r {
                Option::Some(c) => has_addr(self.sessions@, addr)
                    && c == self.sessions@[addr_index(self.sessions@, addr)].connected,
                Option::None => !has_addr(self.sessions@, addr),
            },
    {
        let found = self.find_session(addr);
        match found {
            Some(i) => Some(self.sessions[i].connected),
            None => None,
        }
    }

    /// The stable identifier of the session for `addr`, if one exists.
    pub fn client_id_of(&self, addr: Addr) -> (r: Option<ClientId>)
        requires
            self.wf(),
        ensures
            match r {
                Option::Some(id) => has_addr(self.sessions@, addr)
                    && id == self.sessions@[addr_index(self.sessions@, addr)].client_id,
                Option::None => !has_addr(self.sessions@, addr),
            },
    {
        let found = self.find_session(addr);
        match found {
            Some(i) => Some(self.sessions[i].client_id),
            None => None,
        }
    }
}

/// Some transmitted record carries session `s0`'s frame.
pub open spec fn sent_for<E>(s0: Session<E>, out: Seq<Outgoing>) -> bool {
    exists|k: int| 0 <= k < out.len() && frame_record_ok(s0, #[trigger] out[k])
}

/// A transmitted record belongs to some session that was due.
pub open spec fn record_from_due<E>(ss: Seq<Session<E>>, now: u64, heartbeat: u64, o: Outgoing) -> bool {
    exists|i: int| 0 <= i < ss.len() && session_due(ss[i], now, heartbeat)
        && #[trigger] frame_record_ok(ss[i], o)
}

impl<E: UiEngine> Server<E> {
    /// One scheduling tick at server time `now`, to be called once per
    /// host iteration: every due session produces and encodes one frame
    /// (its state evolving as [`session_frame_evolution`] says), every
    /// other session is left exactly alone, and the returned records are
    /// precisely those frames, for the host to transmit. A frame too
    /// large to encode abandons that session's connection, as a failed
    /// transmit would. Never blocks: no session due, nothing to send.
    #[verifier::loop_isolation(false)]
    #[verifier::rlimit(100)]
    pub fn show(&mut self, now: u64) -> (out: Vec<Outgoing>)
        requires
            old(self).wf(),
            forall|i: int| 0 <= i < old(self).sessions@.len() ==> {
                let s = #[trigger] old(self).sessions@[i];
                &&& s.connected ==> s.last_update <= now
                &&& session_due(s, now, old(self).minimum_update_interval)
                    ==> s.start_time <= now && s.frame_index < u64::MAX
            },
        ensures
            final(self).wf(),
            final(self).next_client_id == old(self).next_client_id,
            final(self).minimum_update_interval == old(self).minimum_update_interval,
            final(self).sessions@.len() == old(self).sessions@.len(),
            forall|i: int| 0 <= i < old(self).sessions@.len() ==> {
                let s0 = #[trigger] old(self).sessions@[i];
                let s1 = final(self).sessions@[i];
                if session_due(s0, now, old(self).minimum_update_interval) {
                    session_frame_evolution(s0, s1, now)
                        || session_frame_evolution_dropped(s0, s1, now)
                } else {
                    s1 == s0
                }
            },
            forall|k: int| 0 <= k < out@.len() ==> record_from_due(
                old(self).sessions@,
                now,
                old(self).minimum_update_interval,
                #[trigger] out@[k],
            ),
            forall|i: int| 0 <= i < old(self).sessions@.len() ==> {
                let s0 = #[trigger] old(self).sessions@[i];
                session_due(s0, now, old(self).minimum_update_interval)
                    && final(self).sessions@[i].connected ==> sent_for(s0, out@)
            },
            forall|k1: int, k2: int| 0 <= k1 < k2 < out@.len()
                ==> (#[trigger] out@[k1]).addr != (#[trigger] out@[k2]).addr,
            (forall|i: int| 0 <= i < old(self).sessions@.len()
                ==> !session_due(#[trigger] old(self).sessions@[i], now,
                    old(self).minimum_update_interval)) ==> out@.len() == 0,
    {
        let ghost hb = self.minimum_update_interval;
        let ghost orig = self.sessions@;
        let mut out: Vec<Outgoing> = Vec::new();
        let n = self.sessions.len();
        let mut i: usize = 0;
        while i < n
            invariant
                i <= n,
                self.sessions@.len() == n,
                self.next_client_id == old(self).next_client_id,
                self.minimum_update_interval == hb,
                forall|j: int| i <= j < n ==> self.sessions@[j] == orig[j],
                forall|j: int| 0 <= j < i ==> {
                    let s0 = #[trigger] orig[j];
                    let s1 = self.sessions@[j];
                    if session_due(s0, now, hb) {
                        session_frame_evolution(s0, s1, now)
                            || session_frame_evolution_dropped(s0, s1, now)
                    } else {
                        s1 == s0
                    }
                },
                forall|k: int| 0 <= k < out@.len()
                    ==> record_from_due(orig, now, hb, #[trigger] out@[k]),
                forall|k: int| 0 <= k < out@.len()
                    ==> has_addr(orig.subrange(0, i as int), (#[trigger] out@[k]).addr),
                forall|k1: int, k2: int| 0 <= k1 < k2 < out@.len()
                    ==> (#[trigger] out@[k1]).addr != (#[trigger] out@[k2]).addr,
                forall|j: int| 0 <= j < i ==> {
                    let s0 = #[trigger] orig[j];
                    session_due(s0, now, hb) && self.sessions@[j].connected
                        ==> sent_for(s0, out@)
                },
            decreases n - i,
        {
            let ghost s0 = orig[i as int];
            let due = self.sessions[i].should_update(now, self.minimum_update_interval);
            if due {
                let ghost out_before = out@;
                let ghost snap = self.sessions@;
                let mut s = self.sessions.remove(i);
                let msg = s.create_frame(now);
                let encoded = encode_server_message(&msg);
                match encoded {
                    Ok(bytes) => {
                        proof {
                            let m = server_msg_model(msg);
                            assert(m matches ServerMsgModel::Frame { frame_index, client_time, .. }
                                && frame_index == s0.frame_index
                                && client_time == s0.last_client_time);
                            assert(msg matches ServerToClientMessage::Frame {
                                clipped_net_mesh: ms, ..
                            } && (exists|prims: Seq<ClippedPrimitiveModel>|
                                crate::messages::clipped_net_meshes_model(ms@)
                                    == project_model(prims)));
                        }
                        let entry = Outgoing { addr: s.addr, bytes };
                        proof {
                            assert(frame_record_ok(s0, entry));
                            assert(entry.addr == orig[i as int].addr);
                        }
                        out.push(entry);
                        proof {
                            let prefix1 = orig.subrange(0, i + 1);
                            assert(prefix1[i as int].addr == entry.addr);
                            assert forall|k: int| 0 <= k < out@.len()
                                implies has_addr(prefix1, (#[trigger] out@[k]).addr) by {
                                if k < out@.len() - 1 {
                                    assert(out@[k] == out_before[k]);
                                    let j = choose|j: int| 0 <= j
                                        < orig.subrange(0, i as int).len()
                                        && (#[trigger] orig.subrange(0, i as int)[j]).addr
                                            == out_before[k].addr;
                                    assert(prefix1[j].addr == out@[k].addr);
                                } else {
                                    assert(out@[k] == entry);
                                }
                            }
                            assert forall|k1: int, k2: int| 0 <= k1 < k2 < out@.len()
                                implies (#[trigger] out@[k1]).addr
                                    != (#[trigger] out@[k2]).addr by {
                                if k2 == out@.len() - 1 {
                                    assert(out@[k1] == out_before[k1]);
                                    let j = choose|j: int| 0 <= j
                                        < orig.subrange(0, i as int).len()
                                        && (#[trigger] orig.subrange(0, i as int)[j]).addr
                                            == out_before[k1].addr;
                                    assert(orig[j].addr == out@[k1].addr);
                                    assert(orig[j].addr != orig[i as int].addr);
                                } else {
                                    assert(out@[k1] == out_before[k1]
                                        && out@[k2] == out_before[k2]);
                                }
                            }
                        }
                    },
                    Err(_) => {
                        s.disconnect();
                    },
                }
                self.sessions.insert(i, s);
                proof {
                    assert(self.sessions@ =~= snap.update(i as int, self.sessions@[i as int]));
                    assert forall|j: int| 0 <= j < i + 1 implies {
                        let sj = #[trigger] orig[j];
                        session_due(sj, now, hb) && self.sessions@[j].connected
                            ==> sent_for(sj, out@)
                    } by {
                        if session_due(orig[j], now, hb) && self.sessions@[j].connected {
                            if j < i {
                                assert(sent_for(orig[j], out_before));
                                let k = choose|k: int| 0 <= k < out_before.len()
                                    && frame_record_ok(orig[j], out_before[k]);
                                assert(out@[k] == out_before[k]);
                                assert(sent_for(orig[j], out@));
                            } else {
                                assert(frame_record_ok(s0, out@[out@.len() - 1]));
                                assert(sent_for(orig[j], out@));
                            }
                        }
                    }
                }
            }
            i += 1;
            proof {
                assert forall|k: int| 0 <= k < out@.len()
                    && has_addr(orig.subrange(0, i - 1), (#[trigger] out@[k]).addr)
                    implies has_addr(orig.subrange(0, i as int), out@[k].addr) by {
                    let j = choose|j: int| 0 <= j < orig.subrange(0, i - 1).len()
                        && (#[trigger] orig.subrange(0, i - 1)[j]).addr == out@[k].addr;
                    assert(orig.subrange(0, i as int)[j].addr == out@[k].addr);
                }
            }
        }
        proof {
            assert forall|i2: int, j2: int| 0 <= i2 < j2 < self.sessions@.len()
                implies (#[trigger] self.sessions@[i2]).addr
                    != (#[trigger] self.sessions@[j2]).addr by {
                assert(self.sessions@[i2].addr == orig[i2].addr);
                assert(self.sessions@[j2].addr == orig[j2].addr);
            }
            assert forall|i2: int, j2: int| 0 <= i2 < j2 < self.sessions@.len()
                implies (#[trigger] self.sessions@[i2]).client_id.0
                    < (#[trigger] self.sessions@[j2]).client_id.0 by {
                assert(self.sessions@[i2].client_id == orig[i2].client_id);
                assert(self.sessions@[j2].client_id == orig[j2].client_id);
            }
            assert forall|i2: int| 0 <= i2 < self.sessions@.len()
                implies (#[trigger] self.sessions@[i2]).client_id.0 < self.next_client_id by {
                assert(self.sessions@[i2].client_id == orig[i2].client_id);
            }
            if out@.len() > 0 {
                assert(record_from_due(orig, now, hb, out@[0]));
            }
        }
        out
    }
}

} // verus!
