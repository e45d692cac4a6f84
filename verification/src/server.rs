//! Server orchestrator: the decision core of the lockstep server.
//!
//! The orchestrator owns the session registry, the input aggregator, the
//! world transfer and the catch-up replay, and dispatches decoded packets
//! and clock time between them.  It performs no I/O: the surrounding event
//! loop decodes transport messages into the packet types here, calls one
//! handler per event, and performs the sends and closes the handlers call
//! for.

use vstd::prelude::*;

use crate::ClientId;
use crate::EndpointToken;
use crate::Frame;
use crate::authent::Authent;
use crate::authent::AuthentResponse;
use crate::authent::ClientGameState;
use crate::authent::ClientSession;
use crate::authent::RejectReason;
use crate::authent::bound_to;
use crate::authent::both_bound_same;
use crate::catchup::CatchUp;
use crate::clock::FrameClock;
use crate::playout::MergedFrame;
use crate::playout::PlayoutModel;
use crate::playout::ServerPlayoutBuffer;
use crate::playout::can_serve;
use crate::playout::copy_row;
use crate::playout::lag_of;
use crate::playout::lemma_disconnect_preserves_absence;
use crate::playout::merged_for;
use crate::playout::model_consume;
use crate::playout::model_disconnect;
use crate::playout::model_insert;
use crate::playout::row_view;
use crate::worldsend::WORLD_CHUNK;
use crate::worldsend::WORLD_MAX_INFLIGHT;
use crate::worldsend::WorldSend;

verus! {

/// Startup parameters of a server: the frame the simulation starts at, the
/// frame period, and the base port the caller should listen on (reliable on
/// the port itself, unreliable on the next one).
pub struct ServerConfiguration {
    pub start_frame: Frame,
    pub period_micros: u64,
    pub port: Option<u16>,
}

/// Control packets a client sends over its reliable channel.
pub enum ClientReliablePacket {
    Connect { name: String },
    BeginCatchUp,
    CatchUpAck,
    WorldAck,
    ReadyToPlayAck,
}

/// Packets a client sends over its unreliable channel.
pub enum ClientUnreliablePacket {
    Input { input: Vec<(Frame, Vec<u8>)>, ack_frame: Frame },
    Connection { id: ClientId },
}

/// What the caller must do after a reliable packet was dispatched.
#[derive(Clone, Copy, PartialEq, Eq, Structural, Debug)]
pub enum ReliableOutcome {
    /// The endpoint has no session, or the packet made no sense in the
    /// session's state; nothing to do.
    Ignored,
    /// `Connect` accepted: send the acceptance, then encode a world
    /// snapshot and hand it to `begin_world_send`.
    Accepted { id: ClientId },
    /// `Connect` rejected: send the rejection, then close the connection.
    Rejected { reason: RejectReason },
    /// An acknowledgment advanced a transfer; deliveries continue through
    /// `poll_transfers`.
    Advanced,
    /// The whole world snapshot is acknowledged; the client will ask to
    /// catch up.
    WorldComplete,
    /// Replay reached the head of history: send the ready-to-play signal
    /// over the reliable channel.
    CaughtUp,
}

/// Everything one clock tick decides: the frame that was merged, its
/// contents, the clients evicted for lag (close their reliable endpoints),
/// and the per-client unreliable broadcasts.
pub struct TickOutput {
    pub frame: Frame,
    pub merged: Vec<(ClientId, Vec<u8>)>,
    pub evicted: Vec<(ClientId, EndpointToken)>,
    pub broadcasts: Vec<(EndpointToken, Vec<MergedFrame>)>,
}

/// Recording a whole input packet: the items folded into the aggregator in
/// order, oldest first.
pub open spec fn model_insert_all(
    m: PlayoutModel,
    c: ClientId,
    items: Seq<(Frame, Seq<u8>)>,
) -> PlayoutModel
    decreases items.len(),
{
    if items.len() == 0 {
        m
    } else {
        model_insert_all(model_insert(m, c, items[0].0, items[0].1), c, items.drop_first())
    }
}

/// Purging several clients, in order.
pub open spec fn model_disconnect_all(m: PlayoutModel, ids: Seq<ClientId>) -> PlayoutModel
    decreases ids.len(),
{
    if ids.len() == 0 {
        m
    } else {
        model_disconnect_all(model_disconnect(m, ids[0]), ids.drop_first())
    }
}

/// A `Playing` session whose acknowledgment left the retained window: the
/// one disconnect the aggregator itself forces.
pub open spec fn evicted_by_lag(m: PlayoutModel, c: ClientSession) -> bool {
    c.state == ClientGameState::Playing && lag_of(m, c.ack) is None
}

/// The sessions a tick keeps, as a predicate on sessions.
pub open spec fn keeps_session(m: PlayoutModel) -> spec_fn(ClientSession) -> bool {
    |c: ClientSession| !evicted_by_lag(m, c)
}

/// The sessions a tick evicts, as a predicate on sessions.
pub open spec fn evicts_session(m: PlayoutModel) -> spec_fn(ClientSession) -> bool {
    |c: ClientSession| evicted_by_lag(m, c)
}

/// The sessions a tick broadcasts to: playing, with a bound unreliable
/// endpoint.
pub open spec fn broadcast_target() -> spec_fn(ClientSession) -> bool {
    |c: ClientSession| c.state == ClientGameState::Playing && c.unreliable is Some
}

/// The ids of a run of sessions, in order.
pub open spec fn session_ids(s: Seq<ClientSession>) -> Seq<ClientId> {
    s.map_values(|c: ClientSession| c.id)
}

/// The lockstep server core.  All state lives here; every transition is one
/// of the handler methods.
pub struct ServerCore {
    pub authent: Authent,
    pub buffer: ServerPlayoutBuffer,
    pub catchup: CatchUp,
    pub worldsend: WorldSend,
    pub clock: FrameClock,
    pub port: Option<u16>,
}

impl ServerCore {
    pub open spec fn wf(&self) -> bool {
        &&& self.authent.wf()
        &&& self.buffer.wf()
        &&& self.catchup.wf()
        &&& self.worldsend.wf()
        &&& self.clock.wf()
        &&& self.catchup.head_frame() == self.buffer.consumed_frame
        &&& forall|i: int| 0 <= i < self.catchup.clients@.len()
            ==> self.authent.has_id((#[trigger] self.catchup.clients@[i]).id)
        &&& forall|i: int| 0 <= i < self.worldsend.transfers@.len()
            ==> self.authent.has_id((#[trigger] self.worldsend.transfers@[i]).id)
    }

    pub open spec fn any_playing(&self) -> bool {
        exists|i: int| 0 <= i < self.authent.clients@.len()
            && (#[trigger] self.authent.clients@[i]).state == ClientGameState::Playing
    }

    /// No component retains state keyed by `id`.
    pub open spec fn no_state_for(&self, id: ClientId) -> bool {
        &&& !self.authent.has_id(id)
        &&& !self.catchup.has_client(id)
        &&& !self.worldsend.has_transfer(id)
        &&& forall|i: int, j: int|
            0 <= i < self.buffer.model().pending.len()
                && 0 <= j < self.buffer.model().pending[i].len()
                ==> (#[trigger] self.buffer.model().pending[i][j]).0 != id
    }

    pub fn new(conf: ServerConfiguration) -> (r: ServerCore)
        requires
            conf.period_micros > 0,
            conf.start_frame < u64::MAX,
        ensures
            r.wf(),
            r.buffer.consumed_frame == conf.start_frame,
            r.authent.clients@.len() == 0,
            r.catchup.clients@.len() == 0,
            r.worldsend.transfers@.len() == 0,
            r.clock.period_micros == conf.period_micros,
            r.clock.acc_micros == 0,
            r.port == conf.port,
    {
        ServerCore {
            authent: Authent::new(),
            buffer: ServerPlayoutBuffer::new(conf.start_frame),
            catchup: CatchUp::new(conf.start_frame),
            worldsend: WorldSend::new(),
            clock: FrameClock::new(conf.period_micros),
            port: conf.port,
        }
    }

    /// Dispatch one decoded reliable packet from endpoint `e`.
    ///
    /// `Connect` authenticates and, on acceptance, makes the catch-up
    /// component remember history from the current frame on (the snapshot
    /// the caller will hand to `begin_world_send` is taken at that frame).
    /// The acknowledgment packets advance the matching transfer; the state
    /// packets move the session one lifecycle step forward.
    #[verifier::rlimit(100)]
    pub fn message_reliable(&mut self, e: EndpointToken, packet: ClientReliablePacket) -> (r:
        ReliableOutcome)
        requires
            old(self).wf(),
        ensures
            final(self).wf(),
            final(self).buffer.consumed_frame == old(self).buffer.consumed_frame,
            match packet {
                ClientReliablePacket::Connect { name } => {
                    &&& old(self).authent.has_name(name@) ==> r == (ReliableOutcome::Rejected {
                        reason: RejectReason::NameInUse,
                    }) && *final(self) == *old(self)
                    &&& !old(self).authent.has_name(name@) && old(self).authent.has_reliable(e)
                        ==> r == (ReliableOutcome::Rejected {
                        reason: RejectReason::EndpointInUse,
                    }) && *final(self) == *old(self)
                    &&& !old(self).authent.has_name(name@) && !old(self).authent.has_reliable(e)
                        && old(self).authent.is_full() ==> r == (ReliableOutcome::Rejected {
                        reason: RejectReason::Full,
                    }) && *final(self) == *old(self)
                    &&& !old(self).authent.has_name(name@) && !old(self).authent.has_reliable(e)
                        && !old(self).authent.is_full() ==> {
                        let id = old(self).authent.next_id;
                        &&& r == (ReliableOutcome::Accepted { id })
                        &&& final(self).authent.clients@.len() == old(self).authent.clients@.len() + 1
                        &&& final(self).authent.clients@.last().id == id
                        &&& final(self).authent.clients@.last().name@ == name@
                        &&& final(self).authent.clients@.last().reliable == e
                        &&& final(self).authent.clients@.last().state
                            == ClientGameState::Connected
                        &&& final(self).authent.clients@.last().ack == old(self).buffer.consumed_frame
                        &&& final(self).catchup.has_client(id)
                        &&& final(self).catchup.clients@.last().start == old(self).buffer.consumed_frame
                        &&& final(self).buffer == old(self).buffer
                        &&& final(self).worldsend == old(self).worldsend
                    }
                },
                ClientReliablePacket::BeginCatchUp => {
                    &&& final(self).buffer == old(self).buffer
                    &&& final(self).worldsend == old(self).worldsend
                    &&& !old(self).authent.has_reliable(e) ==> r == ReliableOutcome::Ignored
                        && *final(self) == *old(self)
                    &&& old(self).authent.has_reliable(e) ==> ({
                        let i = old(self).authent.idx_of_reliable(e);
                        let id = old(self).authent.clients@[i].id;
                        let before = old(self).authent.clients@[i].state;
                        &&& before != ClientGameState::Downloading ==> r
                            == ReliableOutcome::Ignored && *final(self) == *old(self)
                        &&& before == ClientGameState::Downloading ==> final(self).authent.clients@[i].state == ClientGameState::CatchingUp
                            && catchup_ack_outcome(&old(self).catchup, id, r)
                    })
                },
                ClientReliablePacket::CatchUpAck => {
                    &&& final(self).buffer == old(self).buffer
                    &&& final(self).worldsend == old(self).worldsend
                    &&& final(self).authent == old(self).authent
                    &&& !old(self).authent.has_reliable(e) ==> r == ReliableOutcome::Ignored
                        && *final(self) == *old(self)
                    &&& old(self).authent.has_reliable(e) ==> catchup_ack_outcome(
                        &old(self).catchup,
                        old(self).authent.clients@[old(self).authent.idx_of_reliable(e)].id,
                        r,
                    )
                },
                ClientReliablePacket::WorldAck => {
                    &&& final(self).buffer == old(self).buffer
                    &&& final(self).catchup == old(self).catchup
                    &&& final(self).authent == old(self).authent
                    &&& !old(self).authent.has_reliable(e) ==> r == ReliableOutcome::Ignored
                        && *final(self) == *old(self)
                    &&& old(self).authent.has_reliable(e) ==> ({
                        let id = old(self).authent.clients@[old(self).authent.idx_of_reliable(e)].id;
                        &&& !old(self).worldsend.has_transfer(id) ==> r
                            == ReliableOutcome::Ignored && *final(self) == *old(self)
                        &&& old(self).worldsend.has_transfer(id) ==> ({
                            let t = old(self).worldsend.transfers@[old(self).worldsend.idx_of(id)];
                            (t.in_flight == 0 && t.acked == t.data@.len()) || (t.in_flight > 0
                                && t.acked < t.sent) ==> (r == ReliableOutcome::WorldComplete)
                                == (final(self).worldsend.transfers@[old(self).worldsend.idx_of(id)].acked == t.data@.len())
                        })
                    })
                },
                ClientReliablePacket::ReadyToPlayAck => {
                    &&& final(self).buffer == old(self).buffer
                    &&& final(self).worldsend == old(self).worldsend
                    &&& final(self).catchup == old(self).catchup
                    &&& !old(self).authent.has_reliable(e) ==> r == ReliableOutcome::Ignored
                        && *final(self) == *old(self)
                    &&& old(self).authent.has_reliable(e) ==> ({
                        let i = old(self).authent.idx_of_reliable(e);
                        let before = old(self).authent.clients@[i].state;
                        &&& before == ClientGameState::CatchingUp ==> r
                            == ReliableOutcome::Advanced && final(self).authent.clients@[i].state
                            == ClientGameState::Playing
                        &&& before != ClientGameState::CatchingUp ==> r
                            == ReliableOutcome::Ignored && *final(self) == *old(self)
                    })
                },
            },
    {
        match packet {
            ClientReliablePacket::Connect { name } => {
                let current = self.buffer.consumed_frame;
                let resp = self.authent.authenticate(e, name, current);
                match resp {
                    AuthentResponse::Rejected { reason } => {
                        proof {
                            assert(*self =~= *old(self));
                        }
                        ReliableOutcome::Rejected { reason }
                    }
                    AuthentResponse::Accepted { id } => {
                        proof {
                            assert(!self.catchup.has_client(id)) by {
                                if self.catchup.has_client(id) {
                                    let t = choose|t: int|
                                        0 <= t < self.catchup.clients@.len()
                                            && (#[trigger] self.catchup.clients@[t]).id == id;
                                    assert(old(self).authent.has_id(id));
                                    let w = choose|w: int|
                                        0 <= w < old(self).authent.clients@.len()
                                            && (#[trigger] old(self).authent.clients@[w]).id
                                                == id;
                                }
                            }
                            assert(self.catchup.base <= current <= self.catchup.head_frame());
                        }
                        self.catchup.begin_remembering(current, id);
                        proof {
                            assert forall|i: int| 0 <= i < self.catchup.clients@.len()
                                implies self.authent.has_id(
                                (#[trigger] self.catchup.clients@[i]).id,
                            ) by {
                                if i < self.catchup.clients@.len() - 1 {
                                    assert(old(self).authent.has_id(self.catchup.clients@[i].id));
                                    let w = choose|w: int|
                                        0 <= w < old(self).authent.clients@.len()
                                            && (#[trigger] old(self).authent.clients@[w]).id
                                                == self.catchup.clients@[i].id;
                                    assert(self.authent.clients@[w].id
                                        == self.catchup.clients@[i].id);
                                } else {
                                    assert(self.authent.clients@.last().id == id);
                                }
                            }
                            assert forall|i: int| 0 <= i < self.worldsend.transfers@.len()
                                implies self.authent.has_id(
                                (#[trigger] self.worldsend.transfers@[i]).id,
                            ) by {
                                assert(old(self).authent.has_id(self.worldsend.transfers@[i].id));
                                let w = choose|w: int|
                                    0 <= w < old(self).authent.clients@.len()
                                        && (#[trigger] old(self).authent.clients@[w]).id
                                            == self.worldsend.transfers@[i].id;
                                assert(self.authent.clients@[w].id
                                    == self.worldsend.transfers@[i].id);
                            }
                        }
                        ReliableOutcome::Accepted { id }
                    }
                }
            }
            ClientReliablePacket::BeginCatchUp => {
                match self.authent.find_reliable(e) {
                    Option::None => ReliableOutcome::Ignored,
                    Option::Some(i) => {
                        proof {
                            lemma_reliable_idx(&old(self).authent, e, i as int);
                        }
                        let id = self.authent.clients[i].id;
                        let moved = self.authent.set_state(id, ClientGameState::CatchingUp);
                        proof {
                            assert(old(self).authent.idx_of_id(id) == i as int) by {
                                lemma_id_idx(&old(self).authent, id, i as int);
                            }
                            lemma_same_ids(&old(self).authent, &self.authent);
                        }
                        if !moved {
                            proof {
                                assert(*self =~= *old(self));
                            }
                            return ReliableOutcome::Ignored;
                        }
                        let caught = self.catchup.ack(id);
                        match caught {
                            Option::None => ReliableOutcome::Ignored,
                            Option::Some(true) => ReliableOutcome::CaughtUp,
                            Option::Some(false) => ReliableOutcome::Advanced,
                        }
                    }
                }
            }
            ClientReliablePacket::CatchUpAck => {
                match self.authent.find_reliable(e) {
                    Option::None => ReliableOutcome::Ignored,
                    Option::Some(i) => {
                        proof {
                            lemma_reliable_idx(&old(self).authent, e, i as int);
                        }
                        let id = self.authent.clients[i].id;
                        match self.catchup.ack(id) {
                            Option::None => {
                                proof {
                                    assert(*self =~= *old(self));
                                }
                                ReliableOutcome::Ignored
                            }
                            Option::Some(true) => ReliableOutcome::CaughtUp,
                            Option::Some(false) => ReliableOutcome::Advanced,
                        }
                    }
                }
            }
            ClientReliablePacket::WorldAck => {
                match self.authent.find_reliable(e) {
                    Option::None => ReliableOutcome::Ignored,
                    Option::Some(i) => {
                        proof {
                            lemma_reliable_idx(&old(self).authent, e, i as int);
                        }
                        let id = self.authent.clients[i].id;
                        match self.worldsend.ack(id) {
                            Option::None => {
                                proof {
                                    assert(*self =~= *old(self));
                                }
                                ReliableOutcome::Ignored
                            }
                            Option::Some(true) => ReliableOutcome::WorldComplete,
                            Option::Some(false) => ReliableOutcome::Advanced,
                        }
                    }
                }
            }
            ClientReliablePacket::ReadyToPlayAck => {
                match self.authent.find_reliable(e) {
                    Option::None => ReliableOutcome::Ignored,
                    Option::Some(i) => {
                        proof {
                            lemma_reliable_idx(&old(self).authent, e, i as int);
                        }
                        let id = self.authent.clients[i].id;
                        let moved = self.authent.set_state(id, ClientGameState::Playing);
                        proof {
                            assert(old(self).authent.idx_of_id(id) == i as int) by {
                                lemma_id_idx(&old(self).authent, id, i as int);
                            }
                            lemma_same_ids(&old(self).authent, &self.authent);
                        }
                        if moved {
                            ReliableOutcome::Advanced
                        } else {
                            proof {
                                assert(*self =~= *old(self));
                            }
                            ReliableOutcome::Ignored
                        }
                    }
                }
            }
        }
    }

    /// Store the snapshot for a client just accepted (state `Connected`) and
    /// move it to `Downloading`.  Refused when the id is unknown, the
    /// session is past `Connected`, or a transfer already exists.
    pub fn begin_world_send(&mut self, id: ClientId, snapshot: Vec<u8>) -> (r: bool)
        requires
            old(self).wf(),
            snapshot@.len() <= usize::MAX - WORLD_CHUNK,
        ensures
            final(self).wf(),
            final(self).buffer == old(self).buffer,
            final(self).catchup == old(self).catchup,
            r == (old(self).authent.has_id(id) && !old(self).worldsend.has_transfer(id) && old(self).authent.clients@[old(self).authent.idx_of_id(id)].state
                == ClientGameState::Connected),
            r ==> final(self).worldsend.has_transfer(id)
                && final(self).worldsend.transfers@.last().id == id
                && final(self).worldsend.transfers@.last().data == snapshot
                && final(self).worldsend.transfers@.last().sent == 0
                && final(self).worldsend.transfers@.last().acked == 0
                && final(self).authent.clients@[old(self).authent.idx_of_id(id)].state
                == ClientGameState::Downloading,
            !r ==> *final(self) == *old(self),
    {
        if self.worldsend.contains(id) {
            proof {
                assert(*self =~= *old(self));
            }
            return false;
        }
        match self.authent.find_id(id) {
            Option::None => {
                proof {
                    assert(*self =~= *old(self));
                }
                false
            }
            Option::Some(i) => {
                proof {
                    lemma_id_idx(&old(self).authent, id, i as int);
                }
                let moved = self.authent.set_state(id, ClientGameState::Downloading);
                proof {
                    lemma_same_ids(&old(self).authent, &self.authent);
                }
                if !moved {
                    proof {
                        assert(*self =~= *old(self));
                    }
                    return false;
                }
                self.worldsend.begin_send(id, snapshot);
                proof {
                    assert forall|t: int| 0 <= t < self.worldsend.transfers@.len()
                        implies self.authent.has_id(
                        (#[trigger] self.worldsend.transfers@[t]).id,
                    ) by {
                        if t < self.worldsend.transfers@.len() - 1 {
                            assert(old(self).worldsend.transfers@[t]
                                == self.worldsend.transfers@[t]);
                            assert(old(self).authent.has_id(self.worldsend.transfers@[t].id));
                        } else {
                            assert(self.worldsend.transfers@[t].id == id);
                            assert(old(self).authent.has_id(id));
                        }
                    }
                }
                true
            }
        }
    }

    /// Dispatch one decoded unreliable packet from endpoint `e`: either a
    /// batch of inputs together with the client's newest acknowledgment, or
    /// the one-time datagram that binds the endpoint to a client id
    /// (unreliable transports have no handshake).
    pub fn message_unreliable(&mut self, e: EndpointToken, packet: ClientUnreliablePacket) -> (r:
        bool)
        requires
            old(self).wf(),
        ensures
            final(self).wf(),
            final(self).buffer.consumed_frame == old(self).buffer.consumed_frame,
            match packet {
                ClientUnreliablePacket::Input { input, ack_frame } => {
                    &&& !old(self).authent.has_unreliable(e) ==> !r && *final(self) == *old(self)
                    &&& old(self).authent.has_unreliable(e) ==> r && ({
                        let i = choose|i: int|
                            0 <= i < old(self).authent.clients@.len() && bound_to(
                                (#[trigger] old(self).authent.clients@[i]).unreliable,
                                e,
                            );
                        let id = old(self).authent.clients@[i].id;
                        &&& final(self).buffer.model() == model_insert_all(
                            old(self).buffer.model(),
                            id,
                            row_view(input),
                        )
                        &&& final(self).authent.clients@.len() == old(self).authent.clients@.len()
                        &&& final(self).authent.clients@[i].ack == ack_frame
                        &&& final(self).authent.clients@[i].id == id
                        &&& final(self).authent.clients@[i].state == old(self).authent.clients@[i].state
                        &&& forall|t: int| 0 <= t < old(self).authent.clients@.len() && t != i
                            ==> final(self).authent.clients@[t] == old(self).authent.clients@[t]
                        &&& final(self).catchup == old(self).catchup
                        &&& final(self).worldsend == old(self).worldsend
                    })
                },
                ClientUnreliablePacket::Connection { id } => {
                    &&& final(self).buffer == old(self).buffer
                    &&& final(self).catchup == old(self).catchup
                    &&& final(self).worldsend == old(self).worldsend
                    &&& r == (old(self).authent.has_id(id) && !old(self).authent.has_unreliable(
                        e,
                    ))
                    &&& r ==> bound_to(
                        final(self).authent.clients@[old(self).authent.idx_of_id(id)].unreliable,
                        e,
                    )
                    &&& !r ==> *final(self) == *old(self)
                },
            },
    {
        match packet {
            ClientUnreliablePacket::Input { input, ack_frame } => {
                let mut input = input;
                match self.authent.find_unreliable(e) {
                    Option::None => false,
                    Option::Some(i) => {
                        proof {
                            let w = choose|w: int|
                                0 <= w < old(self).authent.clients@.len() && bound_to(
                                    (#[trigger] old(self).authent.clients@[w]).unreliable,
                                    e,
                                );
                            if w < i as int {
                                assert(!both_bound_same(
                                    old(self).authent.clients@[w].unreliable,
                                    old(self).authent.clients@[i as int].unreliable,
                                ));
                            } else if w > i as int {
                                assert(!both_bound_same(
                                    old(self).authent.clients@[i as int].unreliable,
                                    old(self).authent.clients@[w].unreliable,
                                ));
                            }
                            assert(w == i as int);
                        }
                        let id = self.authent.clients[i].id;
                        self.authent.set_ack(i, ack_frame);
                        proof {
                            lemma_same_ids(&old(self).authent, &self.authent);
                        }
                        let ghost m0 = self.buffer.model();
                        let ghost items0 = row_view(input);
                        let ghost auth1 = self.authent;
                        while input.len() > 0
                            invariant
                                self.buffer.wf(),
                                self.authent == auth1,
                                self.catchup == old(self).catchup,
                                self.worldsend == old(self).worldsend,
                                self.clock == old(self).clock,
                                self.port == old(self).port,
                                self.buffer.consumed_frame == old(self).buffer.consumed_frame,
                                model_insert_all(self.buffer.model(), id, row_view(input))
                                    == model_insert_all(m0, id, items0),
                            decreases input@.len(),
                        {
                            let ghost before = row_view(input);
                            let (frame, data) = input.remove(0);
                            proof {
                                assert(row_view(input) =~= before.drop_first());
                                assert(before[0].0 == frame && before[0].1 == data@);
                            }
                            self.buffer.insert_input(id, frame, data);
                        }
                        proof {
                            assert(row_view(input).len() == 0);
                            assert(model_insert_all(self.buffer.model(), id, row_view(input))
                                == self.buffer.model());
                        }
                        true
                    }
                }
            }
            ClientUnreliablePacket::Connection { id } => {
                let r = self.authent.bind_unreliable(id, e);
                proof {
                    if r {
                        lemma_same_ids(&old(self).authent, &self.authent);
                    }
                }
                r
            }
        }
    }

    /// Handle a transport-level disconnect of endpoint `e`.  Only the
    /// reliable channel carries authoritative disconnects: a report against
    /// an unreliable endpoint is an anomaly and ignored.  On the reliable
    /// channel the session is removed and every component purges the
    /// client's state; repeating the call is a no-op.  (This, together with
    /// `no_state_for`, is the cleanup-completeness guarantee.)
    pub fn disconnect(&mut self, e: EndpointToken, reliable: bool) -> (r: Option<ClientId>)
        requires
            old(self).wf(),
        ensures
            final(self).wf(),
            final(self).buffer.consumed_frame == old(self).buffer.consumed_frame,
            !reliable ==> r is None && *final(self) == *old(self),
            reliable && !old(self).authent.has_reliable(e) ==> r is None && *final(self) == *old(self),
            reliable && old(self).authent.has_reliable(e) ==> match r {
                Option::Some(id) => final(self).no_state_for(id)
                    && final(self).buffer.model() == model_disconnect(
                    old(self).buffer.model(),
                    id,
                ) && exists|i: int|
                    0 <= i < old(self).authent.clients@.len()
                        && (#[trigger] old(self).authent.clients@[i]).reliable == e
                        && old(self).authent.clients@[i].id == id
                        && final(self).authent.clients@ == old(self).authent.clients@.remove(i),
                Option::None => false,
            },
    {
        if !reliable {
            return Option::None;
        }
        let removed = self.authent.disconnect(e);
        match removed {
            Option::None => {
                proof {
                    assert(*self =~= *old(self));
                }
                Option::None
            }
            Option::Some(c) => {
                let id = c.id;
                proof {
                    assert forall|t: int| 0 <= t < self.catchup.clients@.len()
                        implies (#[trigger] self.catchup.clients@[t]).id == id
                            || self.authent.has_id(self.catchup.clients@[t].id) by {
                        assert(old(self).authent.has_id(self.catchup.clients@[t].id));
                    }
                    assert forall|t: int| 0 <= t < self.worldsend.transfers@.len()
                        implies (#[trigger] self.worldsend.transfers@[t]).id == id
                            || self.authent.has_id(self.worldsend.transfers@[t].id) by {
                        assert(old(self).authent.has_id(self.worldsend.transfers@[t].id));
                    }
                }
                self.cleanup_components(id);
                Option::Some(id)
            }
        }
    }

    /// Purge a removed client's id from the aggregator, the catch-up replay
    /// and the world transfer.  The session must already be gone.
    fn cleanup_components(&mut self, id: ClientId)
        requires
            old(self).authent.wf(),
            old(self).buffer.wf(),
            old(self).catchup.wf(),
            old(self).worldsend.wf(),
            old(self).clock.wf(),
            old(self).catchup.head_frame() == old(self).buffer.consumed_frame,
            !old(self).authent.has_id(id),
            forall|i: int| 0 <= i < old(self).catchup.clients@.len()
                ==> (#[trigger] old(self).catchup.clients@[i]).id == id || old(self).authent.has_id(old(self).catchup.clients@[i].id),
            forall|i: int| 0 <= i < old(self).worldsend.transfers@.len()
                ==> (#[trigger] old(self).worldsend.transfers@[i]).id == id || old(self).authent.has_id(old(self).worldsend.transfers@[i].id),
        ensures
            final(self).wf(),
            final(self).no_state_for(id),
            final(self).authent == old(self).authent,
            final(self).clock == old(self).clock,
            final(self).port == old(self).port,
            final(self).buffer.model() == model_disconnect(old(self).buffer.model(), id),
            final(self).buffer.consumed_frame == old(self).buffer.consumed_frame,
            final(self).buffer.past == old(self).buffer.past,
            final(self).catchup.base == old(self).catchup.base,
            final(self).catchup.history@ == old(self).catchup.history@,
            forall|other: ClientId| other != id ==> (final(self).catchup.has_client(other) == old(self).catchup.has_client(other)) && (final(self).worldsend.has_transfer(other) == old(self).worldsend.has_transfer(other)),
    {
        self.buffer.disconnected(id);
        let ghost cu0 = self.catchup;
        self.catchup.disconnected(id);
        let ghost ws0 = self.worldsend;
        self.worldsend.disconnected(id);
        proof {
            assert forall|other: ClientId| other != id
                implies (self.catchup.has_client(other) == cu0.has_client(other)) && (
            self.worldsend.has_transfer(other) == ws0.has_transfer(other)) by {
                if cu0.has_client(other) {
                    let w = choose|w: int|
                        0 <= w < cu0.clients@.len() && (#[trigger] cu0.clients@[w]).id == other;
                    if cu0.has_client(id) {
                        let rm = cu0.idx_of(id);
                        assert(cu0.clients@[rm].id == id);
                        if w < rm {
                            assert(self.catchup.clients@[w].id == other);
                        } else {
                            assert(self.catchup.clients@[w - 1].id == other);
                        }
                    }
                }
                if ws0.has_transfer(other) {
                    let w = choose|w: int|
                        0 <= w < ws0.transfers@.len() && (#[trigger] ws0.transfers@[w]).id
                            == other;
                    if ws0.has_transfer(id) {
                        let rm = ws0.idx_of(id);
                        assert(ws0.transfers@[rm].id == id);
                        if w < rm {
                            assert(self.worldsend.transfers@[w].id == other);
                        } else {
                            assert(self.worldsend.transfers@[w - 1].id == other);
                        }
                    }
                }
            }
            assert forall|i: int| 0 <= i < self.catchup.clients@.len()
                implies self.authent.has_id((#[trigger] self.catchup.clients@[i]).id) by {
                assert(cu0.has_client(self.catchup.clients@[i].id));
            }
            assert forall|i: int| 0 <= i < self.worldsend.transfers@.len()
                implies self.authent.has_id((#[trigger] self.worldsend.transfers@[i]).id) by {
                assert(ws0.has_transfer(self.worldsend.transfers@[i].id));
            }
        }
    }

    /// Drive the long-running reliable transfers of one client: the next
    /// snapshot chunk while it is `Downloading`, the next replay batch while
    /// it is `CatchingUp`.  Returns what to send on the client's reliable
    /// channel.
    pub fn poll_transfers(&mut self, id: ClientId) -> (r: (Option<Vec<u8>>, Option<
        Vec<MergedFrame>,
    >))
        requires
            old(self).wf(),
        ensures
            final(self).wf(),
            final(self).authent == old(self).authent,
            final(self).buffer == old(self).buffer,
            final(self).catchup.base == old(self).catchup.base,
            final(self).catchup.history@ == old(self).catchup.history@,
            !old(self).authent.has_id(id) ==> r.0 is None && r.1 is None && *final(self) == *old(
                self,
            ),
            old(self).authent.has_id(id) ==> ({
                let st = old(self).authent.clients@[old(self).authent.idx_of_id(id)].state;
                &&& st != ClientGameState::Downloading ==> r.0 is None
                &&& st != ClientGameState::CatchingUp ==> r.1 is None
                &&& (st != ClientGameState::Downloading && st != ClientGameState::CatchingUp)
                    ==> *final(self) == *old(self)
                &&& (st == ClientGameState::Downloading && old(self).worldsend.has_transfer(id)
                    && ({
                    let t = old(self).worldsend.transfers@[old(self).worldsend.idx_of(id)];
                    t.sent < t.data@.len() && t.in_flight < WORLD_MAX_INFLIGHT
                })) ==> r.0 is Some
                &&& (st == ClientGameState::CatchingUp && old(self).catchup.has_client(id) && ({
                    let c = old(self).catchup.clients@[old(self).catchup.idx_of(id)];
                    c.in_flight == 0 && c.next <= old(self).catchup.head_frame()
                })) ==> r.1 is Some
            }),
            match r.0 {
                Option::Some(chunk) => old(self).worldsend.has_transfer(id) && ({
                    let t = old(self).worldsend.transfers@[old(self).worldsend.idx_of(id)];
                    chunk@ == t.data@.subrange(t.sent as int, t.sent + chunk@.len())
                        && chunk@.len() > 0
                }),
                Option::None => true,
            },
            match r.1 {
                Option::Some(batch) => old(self).catchup.has_client(id) && ({
                    let c = old(self).catchup.clients@[old(self).catchup.idx_of(id)];
                    &&& batch@.len() > 0
                    &&& forall|j: int| 0 <= j < batch@.len()
                        ==> (#[trigger] batch@[j]).frame == c.next + j && row_view(
                            batch@[j].inputs,
                        ) == row_view(
                            old(self).catchup.history@[c.next + j - old(self).catchup.base - 1],
                        )
                }),
                Option::None => true,
            },
    {
        let state = match self.authent.find_id(id) {
            Option::None => {
                return (Option::None, Option::None);
            }
            Option::Some(i) => {
                proof {
                    lemma_id_idx(&old(self).authent, id, i as int);
                }
                self.authent.clients[i].state
            }
        };
        match state {
            ClientGameState::Downloading => {
                let chunk = self.worldsend.update(id);
                (chunk, Option::None)
            }
            ClientGameState::CatchingUp => {
                let batch = self.catchup.update(id);
                (Option::None, batch)
            }
            _ => (Option::None, Option::None),
        }
    }

    /// Account for elapsed wall time.  The clock only runs while somebody is
    /// playing: an idle server does not accumulate frame debt.
    pub fn begin_poll(&mut self, elapsed_micros: u64)
        requires
            old(self).wf(),
        ensures
            final(self).wf(),
            final(self).authent == old(self).authent,
            final(self).buffer == old(self).buffer,
            final(self).catchup == old(self).catchup,
            final(self).worldsend == old(self).worldsend,
            !old(self).any_playing() ==> final(self).clock == old(self).clock,
            old(self).any_playing() ==> final(self).clock.period_micros == old(self).clock.period_micros && final(self).clock.acc_micros == if old(self).clock.acc_micros + elapsed_micros <= u64::MAX {
                old(self).clock.acc_micros + elapsed_micros
            } else {
                u64::MAX as int
            },
    {
        if self.authent.playing_count() > 0 {
            self.clock.advance(elapsed_micros);
        }
    }

    /// Run one due simulation frame, if any: evict `Playing` clients whose
    /// acknowledgment left the retained window, merge the oldest pending
    /// frame, remember it for catch-up, and assemble the unreliable
    /// broadcast for every playing client — every retained frame newer than
    /// its acknowledgment, so a lost datagram is repaired by the next one.
    pub fn next_tick(&mut self) -> (r: Option<TickOutput>)
        requires
            old(self).wf(),
        ensures
            final(self).wf(),
            !old(self).any_playing() ==> r is None && *final(self) == *old(self),
            old(self).any_playing() && old(self).buffer.consumed_frame >= u64::MAX - 1 ==> r
                is None && *final(self) == *old(self),
            old(self).any_playing() && old(self).buffer.consumed_frame < u64::MAX - 1 && old(
                self,
            ).clock.acc_micros < old(self).clock.period_micros ==> r is None && *final(self)
                == *old(self),
            old(self).any_playing() && old(self).buffer.consumed_frame < u64::MAX - 1 && old(
                self,
            ).clock.acc_micros >= old(self).clock.period_micros ==> match r {
                Option::Some(out) => {
                    let m0 = old(self).buffer.model();
                    let gone = old(self).authent.clients@.filter(evicts_session(m0));
                    let m1 = model_disconnect_all(m0, session_ids(gone));
                    let m2 = model_consume(m1).0;
                    &&& final(self).clock.acc_micros == old(self).clock.acc_micros - old(
                        self,
                    ).clock.period_micros
                    &&& final(self).clock.period_micros == old(self).clock.period_micros
                    &&& out.frame == old(self).buffer.consumed_frame + 1
                    &&& final(self).buffer.consumed_frame == out.frame
                    &&& final(self).authent.clients@ == old(self).authent.clients@.filter(
                        keeps_session(m0),
                    )
                    &&& final(self).authent.next_id == old(self).authent.next_id
                    &&& out.evicted@.len() == gone.len()
                    &&& forall|k: int| 0 <= k < gone.len()
                        ==> (#[trigger] out.evicted@[k]).0 == gone[k].id && out.evicted@[k].1
                            == gone[k].reliable
                    &&& forall|k: int| 0 <= k < out.evicted@.len()
                        ==> final(self).no_state_for((#[trigger] out.evicted@[k]).0)
                    &&& final(self).buffer.model() == m2
                    &&& row_view(out.merged) == model_consume(m1).1
                    &&& ({
                        let targets = final(self).authent.clients@.filter(broadcast_target());
                        &&& out.broadcasts@.len() == targets.len()
                        &&& forall|k: int| 0 <= k < targets.len() ==> bound_to(
                            (#[trigger] targets[k]).unreliable,
                            out.broadcasts@[k].0,
                        ) && out.broadcasts@[k].1@.len() == out.frame - targets[k].ack && (
                        forall|j: int| 0 <= j < out.broadcasts@[k].1@.len()
                            ==> (#[trigger] out.broadcasts@[k].1@[j]).frame == targets[k].ack + 1
                                + j && row_view(out.broadcasts@[k].1@[j].inputs) == merged_for(
                                m2,
                                (targets[k].ack + 1 + j) as Frame,
                            ))
                    })
                },
                Option::None => false,
            },
    {
        if self.authent.playing_count() == 0 {
            return Option::None;
        }
        if self.buffer.consumed_frame >= u64::MAX - 1 {
            return Option::None;
        }
        if !self.clock.try_tick() {
            proof {
                assert(*self =~= *old(self));
            }
            return Option::None;
        }
        let ghost m0 = self.buffer.model();
        let ghost old_clients = old(self).authent.clients@;

        let mut evicted: Vec<(ClientId, EndpointToken)> = Vec::new();
        let mut i: usize = 0;
        while i < self.authent.clients.len()
            invariant
                self.wf(),
                i + evicted@.len() <= old_clients.len(),
                i == old_clients.subrange(0, i + evicted@.len()).filter(
                    keeps_session(m0),
                ).len(),
                self.authent.clients@ == old_clients.subrange(0, i + evicted@.len()).filter(
                    keeps_session(m0),
                ) + old_clients.subrange(i + evicted@.len(), old_clients.len() as int),
                self.authent.next_id == old(self).authent.next_id,
                evicted@.len() == old_clients.subrange(0, i + evicted@.len()).filter(
                    evicts_session(m0),
                ).len(),
                forall|k: int| 0 <= k < evicted@.len()
                    ==> (#[trigger] evicted@[k]).0 == old_clients.subrange(
                        0,
                        i + evicted@.len(),
                    ).filter(evicts_session(m0))[k].id && evicted@[k].1
                        == old_clients.subrange(0, i + evicted@.len()).filter(
                        evicts_session(m0),
                    )[k].reliable,
                self.buffer.model() == model_disconnect_all(
                    m0,
                    session_ids(
                        old_clients.subrange(0, i + evicted@.len()).filter(evicts_session(m0)),
                    ),
                ),
                self.buffer.consumed_frame == m0.consumed,
                self.buffer.model().past == m0.past,
                forall|k: int| 0 <= k < evicted@.len()
                    ==> self.no_state_for((#[trigger] evicted@[k]).0),
                self.clock.period_micros == old(self).clock.period_micros,
                self.clock.acc_micros == old(self).clock.acc_micros - old(
                    self,
                ).clock.period_micros,
                self.catchup.base == old(self).catchup.base,
                self.catchup.history@ == old(self).catchup.history@,
                m0 == old(self).buffer.model(),
                m0.consumed < u64::MAX - 1,
            decreases self.authent.clients@.len() - i,
        {
            let ghost s0 = *self;
            let ghost p = i + evicted@.len();
            let ghost prefix = old_clients.subrange(0, p as int);
            proof {
                assert(self.authent.clients@[i as int] == old_clients[p as int]);
                assert(prefix.push(old_clients[p as int]) =~= old_clients.subrange(0, p + 1));
                lemma_filter_push_local(prefix, old_clients[p as int], keeps_session(m0));
                lemma_filter_push_local(prefix, old_clients[p as int], evicts_session(m0));
            }
            let c_state = self.authent.clients[i].state;
            let c_ack = self.authent.clients[i].ack;
            let c_id = self.authent.clients[i].id;
            let c_rel = self.authent.clients[i].reliable;
            let is_playing = matches!(c_state, ClientGameState::Playing);
            let lagging = is_playing && self.buffer.lag(c_ack).is_none();
            proof {
                assert(c_state == old_clients[p as int].state);
                assert(c_ack == old_clients[p as int].ack);
                assert(self.buffer.model().past.len() == m0.past.len());
                assert(lag_of(self.buffer.model(), c_ack) == lag_of(m0, c_ack));
                assert(lagging == evicts_session(m0)(old_clients[p as int]));
            }
            if lagging {
                let removed = self.authent.disconnect_id(c_id);
                proof {
                    assert(s0.authent.has_id(c_id));
                    assert(removed is Some);
                    let ii = choose|ii: int|
                        0 <= ii < s0.authent.clients@.len()
                            && (#[trigger] s0.authent.clients@[ii]).id == c_id
                            && self.authent.clients@ == s0.authent.clients@.remove(ii);
                    if ii != i as int {
                        assert(s0.authent.clients@[i as int].id == c_id);
                        assert(false);
                    }
                    assert(self.authent.clients@ =~= old_clients.subrange(0, p + 1).filter(
                        keeps_session(m0),
                    ) + old_clients.subrange(p + 1, old_clients.len() as int));
                    assert forall|t: int| 0 <= t < self.catchup.clients@.len()
                        implies (#[trigger] self.catchup.clients@[t]).id == c_id
                            || self.authent.has_id(self.catchup.clients@[t].id) by {
                        assert(s0.authent.has_id(self.catchup.clients@[t].id));
                    }
                    assert forall|t: int| 0 <= t < self.worldsend.transfers@.len()
                        implies (#[trigger] self.worldsend.transfers@[t]).id == c_id
                            || self.authent.has_id(self.worldsend.transfers@[t].id) by {
                        assert(s0.authent.has_id(self.worldsend.transfers@[t].id));
                    }
                }
                let ghost s1 = *self;
                self.cleanup_components(c_id);
                evicted.push((c_id, c_rel));
                proof {
                    let ghost old_ids = session_ids(prefix.filter(evicts_session(m0)));
                    assert(session_ids(
                        old_clients.subrange(0, p + 1).filter(evicts_session(m0)),
                    ) =~= old_ids.push(c_id));
                    lemma_disconnect_all_push(m0, old_ids, c_id);
                    assert forall|k: int| 0 <= k < evicted@.len()
                        implies self.no_state_for((#[trigger] evicted@[k]).0) by {
                        let x = evicted@[k].0;
                        if k < evicted@.len() - 1 {
                            assert(s0.no_state_for(x));
                            assert(x != c_id);
                            assert(!self.authent.has_id(x));
                            lemma_disconnect_preserves_absence(s1.buffer.model(), c_id, x);
                        } else {
                            assert(x == c_id);
                        }
                    }
                }
            } else {
                proof {
                    assert(self.authent.clients@ =~= old_clients.subrange(0, p + 1).filter(
                        keeps_session(m0),
                    ) + old_clients.subrange(p + 1, old_clients.len() as int));
                }
                i += 1;
            }
        }
        proof {
            assert(old_clients.subrange(0, i + evicted@.len()) =~= old_clients);
        }
        let ghost m1 = self.buffer.model();

        let merged = self.buffer.consume();
        let frame = self.buffer.consumed_frame;
        let merged_copy = copy_row(&merged);
        self.catchup.add_merged_inputs(frame, merged_copy);

        proof {
            assert forall|k: int| 0 <= k < evicted@.len()
                implies self.no_state_for((#[trigger] evicted@[k]).0) by {
                let x = evicted@[k].0;
                assert forall|a: int, b: int|
                    0 <= a < self.buffer.model().pending.len()
                        && 0 <= b < self.buffer.model().pending[a].len()
                    implies (#[trigger] self.buffer.model().pending[a][b]).0 != x by {
                    if m1.pending.len() > 0 {
                        assert(self.buffer.model().pending[a] == m1.pending[a + 1]);
                    }
                }
            }
            assert forall|k: int| 0 <= k < self.authent.clients@.len()
                && (#[trigger] self.authent.clients@[k]).state == ClientGameState::Playing
                implies can_serve(self.buffer.model(), self.authent.clients@[k].ack) by {
                old_clients.lemma_filter_pred(keeps_session(m0), k);
                let c = self.authent.clients@[k];
                assert(!evicted_by_lag(m0, c));
                assert(lag_of(m0, c.ack) is Some);
            }
        }

        let mut broadcasts: Vec<(EndpointToken, Vec<MergedFrame>)> = Vec::new();
        let ghost sessions = self.authent.clients@;
        let n = self.authent.clients.len();
        let mut t: usize = 0;
        while t < n
            invariant
                self.wf(),
                n == self.authent.clients@.len(),
                t <= n,
                sessions == self.authent.clients@,
                self.buffer.model() == model_consume(m1).0,
                self.buffer.consumed_frame == m1.consumed + 1,
                forall|k: int| 0 <= k < sessions.len() && (#[trigger] sessions[k]).state
                    == ClientGameState::Playing ==> can_serve(
                    self.buffer.model(),
                    sessions[k].ack,
                ),
                broadcasts@.len() == sessions.subrange(0, t as int).filter(
                    broadcast_target(),
                ).len(),
                forall|k: int| 0 <= k < broadcasts@.len() ==> bound_to(
                    (#[trigger] sessions.subrange(0, t as int).filter(
                        broadcast_target(),
                    )[k]).unreliable,
                    broadcasts@[k].0,
                ) && broadcasts@[k].1@.len() == self.buffer.consumed_frame - sessions.subrange(
                    0,
                    t as int,
                ).filter(broadcast_target())[k].ack && (forall|j: int|
                    0 <= j < broadcasts@[k].1@.len()
                        ==> (#[trigger] broadcasts@[k].1@[j]).frame == sessions.subrange(
                        0,
                        t as int,
                    ).filter(broadcast_target())[k].ack + 1 + j && row_view(
                        broadcasts@[k].1@[j].inputs,
                    ) == merged_for(
                        self.buffer.model(),
                        (sessions.subrange(0, t as int).filter(broadcast_target())[k].ack + 1
                            + j) as Frame,
                    )),
            decreases n - t,
        {
            let ghost bprefix = sessions.subrange(0, t as int);
            proof {
                assert(bprefix.push(sessions[t as int]) =~= sessions.subrange(0, t + 1));
                lemma_filter_push_local(bprefix, sessions[t as int], broadcast_target());
            }
            let st = self.authent.clients[t].state;
            let is_playing = matches!(st, ClientGameState::Playing);
            if is_playing {
                match self.authent.clients[t].unreliable {
                    Option::Some(u) => {
                        let ack = self.authent.clients[t].ack;
                        let packet = self.buffer.frames_since(ack);
                        broadcasts.push((u, packet));
                        proof {
                            assert(broadcast_target()(sessions[t as int]));
                            assert(sessions.subrange(0, t + 1).filter(broadcast_target())
                                =~= bprefix.filter(broadcast_target()).push(
                                sessions[t as int],
                            ));
                        }
                    }
                    Option::None => {
                        proof {
                            assert(!broadcast_target()(sessions[t as int]));
                            assert(sessions.subrange(0, t + 1).filter(broadcast_target())
                                =~= bprefix.filter(broadcast_target()));
                        }
                    }
                }
            } else {
                proof {
                    assert(!broadcast_target()(sessions[t as int]));
                    assert(sessions.subrange(0, t + 1).filter(broadcast_target())
                        =~= bprefix.filter(broadcast_target()));
                }
            }
            t += 1;
        }
        proof {
            assert(sessions.subrange(0, n as int) =~= sessions);
        }
        Some(TickOutput { frame, merged, evicted, broadcasts })
    }
}

/// How a catch-up acknowledgment maps to the caller's outcome.
pub open spec fn catchup_ack_outcome(cu: &CatchUp, id: ClientId, r: ReliableOutcome) -> bool {
    if !cu.has_client(id) {
        r == ReliableOutcome::Ignored
    } else {
        let c = cu.clients@[cu.idx_of(id)];
        r == if c.next + c.in_flight > cu.head_frame() {
            ReliableOutcome::CaughtUp
        } else {
            ReliableOutcome::Advanced
        }
    }
}

/// Two registries whose sessions carry the same ids in the same slots agree
/// on which ids exist.
proof fn lemma_same_ids(a: &Authent, b: &Authent)
    requires
        a.clients@.len() == b.clients@.len(),
        forall|i: int| 0 <= i < a.clients@.len()
            ==> (#[trigger] a.clients@[i]).id == b.clients@[i].id,
    ensures
        forall|x: ClientId| a.has_id(x) == b.has_id(x),
{
    assert forall|x: ClientId| a.has_id(x) == b.has_id(x) by {
        if a.has_id(x) {
            let i = choose|i: int|
                0 <= i < a.clients@.len() && (#[trigger] a.clients@[i]).id == x;
            assert(b.clients@[i].id == x);
        }
        if b.has_id(x) {
            let i = choose|i: int|
                0 <= i < b.clients@.len() && (#[trigger] b.clients@[i]).id == x;
            assert(a.clients@[i].id == x);
        }
    }
}

/// Under endpoint uniqueness, the index the scan found is the index the
/// specification names.
proof fn lemma_reliable_idx(a: &Authent, e: EndpointToken, i: int)
    requires
        a.wf(),
        0 <= i < a.clients@.len(),
        a.clients@[i].reliable == e,
    ensures
        a.idx_of_reliable(e) == i,
        a.has_reliable(e),
{
    let w = a.idx_of_reliable(e);
    assert(a.clients@[i].reliable == e);
    assert(0 <= w < a.clients@.len() && a.clients@[w].reliable == e);
    if w != i {
        if w < i {
            assert(a.clients@[w].reliable != a.clients@[i].reliable);
        } else {
            assert(a.clients@[i].reliable != a.clients@[w].reliable);
        }
    }
}

/// Under id uniqueness, the index the scan found is the index the
/// specification names.
proof fn lemma_id_idx(a: &Authent, id: ClientId, i: int)
    requires
        a.wf(),
        0 <= i < a.clients@.len(),
        a.clients@[i].id == id,
    ensures
        a.idx_of_id(id) == i,
        a.has_id(id),
{
    let w = a.idx_of_id(id);
    assert(0 <= w < a.clients@.len() && a.clients@[w].id == id);
    if w != i {
        if w < i {
            assert(a.clients@[w].id != a.clients@[i].id);
        } else {
            assert(a.clients@[i].id != a.clients@[w].id);
        }
    }
}

/// Filtering distributes over appending one element (the shape every
/// left-to-right scan needs).
proof fn lemma_filter_push_local<A>(s: Seq<A>, x: A, p: spec_fn(A) -> bool)
    ensures
        s.push(x).filter(p) == if p(x) {
            s.filter(p).push(x)
        } else {
            s.filter(p)
        },
{
    reveal(Seq::filter);
    assert(s.push(x).drop_last() =~= s);
    assert(s.push(x).last() == x);
}

/// Purging one more client commutes with the fold.
proof fn lemma_disconnect_all_push(m: PlayoutModel, ids: Seq<ClientId>, x: ClientId)
    ensures
        model_disconnect_all(m, ids.push(x)) == model_disconnect(
            model_disconnect_all(m, ids),
            x,
        ),
    decreases ids.len(),
{
    let s = ids.push(x);
    if ids.len() == 0 {
        assert(s.drop_first() =~= Seq::<ClientId>::empty());
        assert(s[0] == x);
        assert(model_disconnect_all(m, s) == model_disconnect_all(
            model_disconnect(m, x),
            s.drop_first(),
        ));
        assert(model_disconnect_all(model_disconnect(m, x), s.drop_first())
            == model_disconnect(m, x));
        assert(model_disconnect_all(m, ids) == m);
    } else {
        assert(s[0] == ids[0]);
        assert(s.drop_first() =~= ids.drop_first().push(x));
        assert(model_disconnect_all(m, s) == model_disconnect_all(
            model_disconnect(m, ids[0]),
            ids.drop_first().push(x),
        ));
        lemma_disconnect_all_push(model_disconnect(m, ids[0]), ids.drop_first(), x);
        assert(model_disconnect_all(m, ids) == model_disconnect_all(
            model_disconnect(m, ids[0]),
            ids.drop_first(),
        ));
    }
}

} // verus!
