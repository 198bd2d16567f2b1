//! Per-client session state and the adaptive update scheduler: when to
//! re-render and transmit, how pending input is taken, and how the frame
//! counter and timers evolve. Times are nanoseconds on the server's
//! monotonic clock.

use vstd::prelude::*;
use crate::codec::{DrainStop, ReadBuffer, drain_model, inputs_model};
use crate::geometry::ClippedPrimitive;
use crate::input::{
    InputDelta, InputModel, coalesce_model, input_model, merge, merge_model, option_input_model,
};
use crate::geometry::ClippedPrimitiveModel;
use crate::messages::{
    ClippedNetMeshModel, ServerToClientMessage, clipped_net_meshes_model,
    clipped_primitives_model, into_clipped_net_meshes, project_model,
};
use crate::server::{Addr, ClientId};

verus! {

/// Respond to user input with at most sixty frames per second: once input
/// is pending, a frame is forced after this many nanoseconds.
pub const DEFAULT_MAX_UPDATE_INTERVAL: u64 = 1_000_000_000 / 60;

/// Send at least one frame per second even with no input at all.
pub const DEFAULT_MIN_UPDATE_INTERVAL: u64 = 1_000_000_000;

/// What the UI engine hands back for one frame: client-side platform
/// effects and the texture-atlas delta as opaque pass-through bytes, and
/// the tessellated draw primitives.
pub struct EngineOutput {
    pub platform_output: Vec<u8>,
    pub primitives: Vec<ClippedPrimitive>,
    pub textures_delta: Vec<u8>,
}

/// The per-session UI engine: an injected dependency with one method. It
/// owns accumulated UI state (window layout and the like), which is what
/// survives reconnects, and turns one coalesced input batch into draw
/// output. `server_time_nanos` is the session's monotonic clock.
pub trait UiEngine {
    fn run(&mut self, input: InputDelta, server_time_nanos: u64, session: ClientId)
        -> EngineOutput;
}

/// One session per distinct client address. The session object survives
/// disconnects; only `connected` and the reassembly buffer belong to the
/// current connection.
pub struct Session<E> {
    pub client_id: ClientId,
    pub addr: Addr,
    /// Whether a live connection handle exists. The handle itself (a
    /// socket) lives with the host; a session with `connected == false`
    /// never sends or receives.
    pub connected: bool,
    /// Reassembles partial reads of the current connection.
    pub recv_buf: ReadBuffer,
    /// Server clock at session creation; the engine sees time relative
    /// to this.
    pub start_time: u64,
    /// Strictly increasing, sent in every frame.
    pub frame_index: u64,
    /// The UI engine instance; survives reconnects.
    pub engine: E,
    /// Coalesced input waiting for the next frame.
    pub new_input: Option<InputDelta>,
    /// The client's reported capture time (64-bit float bits) of the most
    /// recent input, echoed in the next frame.
    pub last_client_time: Option<u64>,
    /// False until the first frame is produced; the first tick after a
    /// session is created is always due.
    pub ever_updated: bool,
    /// Server clock when the last frame was produced.
    pub last_update: u64,
    /// The response interval: with input pending, a frame is forced once
    /// this much time has passed since the last frame.
    pub max_update_interval: u64,
}

/// The input batches of a drained message sequence, without their times.
pub open spec fn deltas_of(s: Seq<(InputModel, u64)>) -> Seq<InputModel> {
    s.map_values(|p: (InputModel, u64)| p.0)
}

/// The scheduling rule, evaluated once per server tick per session: a
/// connected session is due when it has never sent a frame, when the
/// heartbeat interval has passed, or when input is pending and the
/// response interval has passed. A disconnected session is never due.
pub open spec fn session_due<E>(s: Session<E>, now: u64, heartbeat: u64) -> bool {
    &&& s.connected
    &&& (!s.ever_updated
        || now - s.last_update >= heartbeat
        || (s.new_input is Some && now - s.last_update >= s.max_update_interval))
}

/// Fields a frame never touches.
pub open spec fn session_identity_unchanged<E>(s0: Session<E>, s1: Session<E>) -> bool {
    &&& s1.client_id == s0.client_id
    &&& s1.addr == s0.addr
    &&& s1.start_time == s0.start_time
    &&& s1.max_update_interval == s0.max_update_interval
}

/// How producing a frame at `now` changes a session: the counter
/// advances, pending input and the time echo are taken, the frame clock
/// resets; identity, connection and buffered bytes stay.
pub open spec fn session_frame_evolution<E>(s0: Session<E>, s1: Session<E>, now: u64) -> bool {
    &&& session_identity_unchanged(s0, s1)
    &&& s1.connected == s0.connected
    &&& s1.recv_buf.model() == s0.recv_buf.model()
    &&& s1.frame_index == s0.frame_index + 1
    &&& s1.new_input is None
    &&& s1.last_client_time is None
    &&& s1.ever_updated
    &&& s1.last_update == now
}

impl<E> Session<E> {
    /// A fresh session for a first connection from a new address.
    pub fn new(client_id: ClientId, addr: Addr, engine: E, now: u64) -> (s: Session<E>)
        ensures
            s.client_id == client_id,
            s.addr == addr,
            s.connected,
            s.recv_buf.model() == Seq::<u8>::empty(),
            s.start_time == now,
            s.frame_index == 0,
            s.engine == engine,
            s.new_input is None,
            s.last_client_time is None,
            !s.ever_updated,
            s.last_update == now,
            s.max_update_interval == DEFAULT_MAX_UPDATE_INTERVAL,
    {
        Session {
            client_id,
            addr,
            connected: true,
            recv_buf: ReadBuffer::new(),
            start_time: now,
            frame_index: 0,
            engine,
            new_input: None,
            last_client_time: None,
            ever_updated: false,
            last_update: now,
            max_update_interval: DEFAULT_MAX_UPDATE_INTERVAL,
        }
    }

    /// Evaluate the scheduling rule.
    pub fn should_update(&self, now: u64, heartbeat: u64) -> (b: bool)
        requires
            self.connected ==> now >= self.last_update,
        ensures
            b == session_due(*self, now, heartbeat),
    {
        if !self.connected {
            return false;
        }
        let since = now - self.last_update;
        let heartbeat_due = !self.ever_updated || since >= heartbeat;
        let response_due = self.new_input.is_some() && since >= self.max_update_interval;
        heartbeat_due || response_due
    }

    /// Coalesce one arriving input batch into the pending input; nothing
    /// else changes.
    pub fn append_input(&mut self, incoming: InputDelta)
        ensures
            option_input_model(final(self).new_input) == Option::Some(merge_model(
                option_input_model(old(self).new_input),
                input_model(incoming),
            )),
            session_identity_unchanged(*old(self), *final(self)),
            final(self).connected == old(self).connected,
            final(self).recv_buf.model() == old(self).recv_buf.model(),
            final(self).frame_index == old(self).frame_index,
            final(self).engine == old(self).engine,
            final(self).last_client_time == old(self).last_client_time,
            final(self).ever_updated == old(self).ever_updated,
            final(self).last_update == old(self).last_update,
    {
        let pending = self.new_input.take();
        let merged = merge(pending, incoming);
        self.new_input = Some(merged);
    }

    /// Apply the result of one drain of this session's connection: each
    /// input batch is coalesced in arrival order and the client's capture
    /// time is remembered; a goodbye or a malformed record abandons the
    /// connection (and only the connection).
    pub fn apply_drained(&mut self, inputs: Vec<(InputDelta, u64)>, stop: DrainStop)
        ensures
            option_input_model(final(self).new_input) == coalesce_model(
                option_input_model(old(self).new_input),
                deltas_of(inputs_model(inputs@)),
            ),
            final(self).last_client_time == if inputs@.len() > 0 {
                Option::Some(inputs_model(inputs@).last().1)
            } else {
                old(self).last_client_time
            },
            final(self).connected == (old(self).connected && !(stop == DrainStop::SawGoodbye
                || stop == DrainStop::Malformed)),
            (stop == DrainStop::SawGoodbye || stop == DrainStop::Malformed)
                ==> final(self).recv_buf.model() == Seq::<u8>::empty(),
            !(stop == DrainStop::SawGoodbye || stop == DrainStop::Malformed)
                ==> final(self).recv_buf.model() == old(self).recv_buf.model(),
            session_identity_unchanged(*old(self), *final(self)),
            final(self).frame_index == old(self).frame_index,
            final(self).engine == old(self).engine,
            final(self).ever_updated == old(self).ever_updated,
            final(self).last_update == old(self).last_update,
    {
        let ghost all = inputs_model(inputs@);
        let ghost pending0 = option_input_model(self.new_input);
        let ghost lct0 = self.last_client_time;
        proof {
            assert(all.skip(0) =~= all);
        }
        let n = inputs.len();
        let mut rest = inputs;
        let mut i: usize = 0;
        while i < n
            invariant
                n == all.len(),
                i <= n,
                inputs_model(rest@) =~= all.skip(i as int),
                coalesce_model(option_input_model(self.new_input), deltas_of(all.skip(i as int)))
                    == coalesce_model(pending0, deltas_of(all)),
                self.last_client_time == if i > 0 {
                    Option::Some(all[i - 1].1)
                } else {
                    lct0
                },
                session_identity_unchanged(*old(self), *self),
                self.connected == old(self).connected,
                self.recv_buf.model() == old(self).recv_buf.model(),
                self.frame_index == old(self).frame_index,
                self.engine == old(self).engine,
                self.ever_updated == old(self).ever_updated,
                self.last_update == old(self).last_update,
            decreases n - i,
        {
            let ghost pend_before = option_input_model(self.new_input);
            let ghost restv = rest@;
            let (delta, client_time) = rest.remove(0);
            proof {
                assert(inputs_model(restv).first() == (input_model(delta), client_time));
                assert(all.skip(i as int).first() == (input_model(delta), client_time));
                assert(inputs_model(rest@) =~= inputs_model(restv).drop_first());
            }
            self.append_input(delta);
            self.last_client_time = Some(client_time);
            i += 1;
            proof {
                assert(inputs_model(rest@) =~= all.skip(i as int));
                let rem_before = deltas_of(all.skip(i - 1));
                assert(rem_before.first() == input_model(delta));
                assert(rem_before.drop_first() =~= deltas_of(all.skip(i as int)));
                assert(coalesce_model(pend_before, rem_before)
                    == coalesce_model(
                        Option::Some(merge_model(pend_before, input_model(delta))),
                        deltas_of(all.skip(i as int)),
                    ));
            }
        }
        proof {
            assert(all.skip(n as int) =~= Seq::<(InputModel, u64)>::empty());
            assert(deltas_of(all.skip(n as int)) =~= Seq::<InputModel>::empty());
        }
        match stop {
            DrainStop::SawGoodbye => self.disconnect(),
            DrainStop::Malformed => self.disconnect(),
            DrainStop::NoMore => {},
            DrainStop::Limit => {},
        }
    }

    /// Abandon the current connection: the handle is considered gone and
    /// its half-read bytes are dropped. Everything else — engine state,
    /// frame counter, pending input — is retained.
    pub fn disconnect(&mut self)
        ensures
            session_identity_unchanged(*old(self), *final(self)),
            !final(self).connected,
            final(self).recv_buf.model() == Seq::<u8>::empty(),
            final(self).frame_index == old(self).frame_index,
            final(self).engine == old(self).engine,
            final(self).new_input == old(self).new_input,
            final(self).last_client_time == old(self).last_client_time,
            final(self).ever_updated == old(self).ever_updated,
            final(self).last_update == old(self).last_update,
    {
        self.connected = false;
        self.recv_buf.clear();
    }
}

impl<E: UiEngine> Session<E> {
    /// Produce one frame at `now`: take the pending input (defaulting to
    /// the empty delta so the application still gets a tick), run the
    /// engine against the session's clock, project its draw output, and
    /// advance the frame counter. The message's frame index is the
    /// pre-advance counter and it echoes the client's last capture time.
    pub fn create_frame(&mut self, now: u64) -> (msg: ServerToClientMessage)
        requires
            old(self).frame_index < u64::MAX,
            now >= old(self).start_time,
        ensures
            session_frame_evolution(*old(self), *final(self), now),
            msg matches ServerToClientMessage::Frame {
                frame_index, platform_output, clipped_net_mesh, textures_delta, client_time,
            } && frame_index == old(self).frame_index
                && client_time == old(self).last_client_time
                && (exists|prims: Seq<ClippedPrimitiveModel>|
                    clipped_net_meshes_model(clipped_net_mesh@) == project_model(prims)),
    {
        self.last_update = now;
        self.ever_updated = true;
        let taken = self.new_input.take();
        let input = match taken {
            Some(i) => i,
            None => InputDelta::default(),
        };
        let server_time = now - self.start_time;
        let out = self.engine.run(input, server_time, self.client_id);
        let ghost prims = clipped_primitives_model(out.primitives@);
        let clipped_net_mesh = into_clipped_net_meshes(out.primitives);
        let frame_index = self.frame_index;
        self.frame_index = self.frame_index + 1;
        let client_time = self.last_client_time.take();
        let msg = ServerToClientMessage::Frame {
            frame_index,
            platform_output: out.platform_output,
            clipped_net_mesh,
            textures_delta: out.textures_delta,
            client_time,
        };
        proof {
            assert(msg matches ServerToClientMessage::Frame { clipped_net_mesh: ms, .. }
                && clipped_net_meshes_model(ms@) == project_model(prims));
        }
        msg
    }
}

/// With no input pending, a frame is due exactly when the heartbeat
/// interval has passed since the last frame — so an idle session sends
/// one frame per heartbeat interval and never faster.
pub proof fn lemma_heartbeat_schedule<E>(s: Session<E>, now: u64, heartbeat: u64)
    requires
        s.connected,
        s.ever_updated,
        s.new_input is None,
        now >= s.last_update,
    ensures
        session_due(s, now, heartbeat) <==> now - s.last_update >= heartbeat,
{
}

/// With input pending and a response interval no longer than the
/// heartbeat interval, a frame is due exactly when the response interval
/// has passed since the last frame: at the first such tick, not before.
pub proof fn lemma_response_schedule<E>(s: Session<E>, now: u64, heartbeat: u64)
    requires
        s.connected,
        s.ever_updated,
        s.new_input is Some,
        now >= s.last_update,
        s.max_update_interval <= heartbeat,
    ensures
        session_due(s, now, heartbeat) <==> now - s.last_update >= s.max_update_interval,
{
}

/// An idle session that just produced a frame at `t0` is not due again at
/// any tick before `t0 + heartbeat`: frames of an input-free session are
/// at least a heartbeat interval apart.
pub proof fn lemma_heartbeat_spacing<E>(
    s0: Session<E>,
    s1: Session<E>,
    t0: u64,
    t1: u64,
    heartbeat: u64,
)
    requires
        session_frame_evolution(s0, s1, t0),
        s1.new_input is None,
        t0 <= t1,
        t1 - t0 < heartbeat,
    ensures
        !session_due(s1, t1, heartbeat),
{
}

} // verus!
