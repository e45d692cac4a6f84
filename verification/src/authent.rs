//! Session registry: client identity, dual-channel endpoint binding and
//! lifecycle state.
//!
//! A client owns one reliable endpoint (control traffic) and, once its first
//! datagram arrives, one unreliable endpoint (high-frequency input and
//! merged-frame output).  Lifecycle moves one step at a time along
//! `Connected → Downloading → CatchingUp → Playing`; disconnection is
//! removal from the registry, possible from any state.

use vstd::prelude::*;

use crate::ClientId;
use crate::EndpointToken;
use crate::Frame;

verus! {

/// Most sessions the registry accepts at once.
pub const MAX_CLIENTS: usize = 32;

/// Lifecycle of a session.  The terminal `Disconnected` state is represented
/// by removal from the registry rather than by a variant.
#[derive(Clone, Copy, PartialEq, Eq, Structural, Debug)]
pub enum ClientGameState {
    Connected,
    Downloading,
    CatchingUp,
    Playing,
}

/// Position of a state along the lifecycle chain.
pub open spec fn state_rank(s: ClientGameState) -> int {
    match s {
        ClientGameState::Connected => 0,
        ClientGameState::Downloading => 1,
        ClientGameState::CatchingUp => 2,
        ClientGameState::Playing => 3,
    }
}

/// The only change the registry permits in place: staying put, or moving to
/// the immediate successor on the chain.
pub open spec fn lifecycle_step_ok(before: ClientGameState, after: ClientGameState) -> bool {
    after == before || state_rank(after) == state_rank(before) + 1
}

#[derive(Clone, Copy, PartialEq, Eq, Structural, Debug)]
pub enum RejectReason {
    /// Another session already uses the requested display name.
    NameInUse,
    /// The reliable endpoint already carries a session.
    EndpointInUse,
    /// The registry is at capacity.
    Full,
}

#[derive(Clone, Copy, PartialEq, Eq, Structural, Debug)]
pub enum AuthentResponse {
    Accepted { id: ClientId },
    Rejected { reason: RejectReason },
}

/// One connected player.
pub struct ClientSession {
    pub id: ClientId,
    pub name: String,
    pub reliable: EndpointToken,
    pub unreliable: Option<EndpointToken>,
    pub state: ClientGameState,
    pub ack: Frame,
}

/// True when `opt` is a bound endpoint equal to `e`.
pub open spec fn bound_to(opt: Option<EndpointToken>, e: EndpointToken) -> bool {
    match opt {
        Option::Some(x) => x == e,
        Option::None => false,
    }
}

/// True when both are bound and to the same endpoint.
pub open spec fn both_bound_same(a: Option<EndpointToken>, b: Option<EndpointToken>) -> bool {
    match (a, b) {
        (Option::Some(x), Option::Some(y)) => x == y,
        _ => false,
    }
}

pub struct Authent {
    pub clients: Vec<ClientSession>,
    pub next_id: ClientId,
}

impl Authent {
    pub open spec fn wf(&self) -> bool {
        &&& self.clients@.len() <= MAX_CLIENTS as int
        &&& forall|i: int| 0 <= i < self.clients@.len()
            ==> (#[trigger] self.clients@[i]).id < self.next_id
        &&& forall|i: int, j: int| 0 <= i < j < self.clients@.len()
            ==> (#[trigger] self.clients@[i]).id != (#[trigger] self.clients@[j]).id
        &&& forall|i: int, j: int| 0 <= i < j < self.clients@.len()
            ==> (#[trigger] self.clients@[i]).reliable != (#[trigger] self.clients@[j]).reliable
        &&& forall|i: int, j: int| 0 <= i < j < self.clients@.len()
            ==> (#[trigger] self.clients@[i]).name@ != (#[trigger] self.clients@[j]).name@
        &&& forall|i: int, j: int| 0 <= i < j < self.clients@.len()
            ==> !both_bound_same(
                (#[trigger] self.clients@[i]).unreliable,
                (#[trigger] self.clients@[j]).unreliable,
            )
    }

    pub open spec fn has_id(&self, id: ClientId) -> bool {
        exists|i: int| 0 <= i < self.clients@.len() && (#[trigger] self.clients@[i]).id == id
    }

    pub open spec fn has_name(&self, n: Seq<char>) -> bool {
        exists|i: int| 0 <= i < self.clients@.len() && (#[trigger] self.clients@[i]).name@ == n
    }

    pub open spec fn has_reliable(&self, e: EndpointToken) -> bool {
        exists|i: int| 0 <= i < self.clients@.len() && (#[trigger] self.clients@[i]).reliable == e
    }

    pub open spec fn has_unreliable(&self, e: EndpointToken) -> bool {
        exists|i: int| 0 <= i < self.clients@.len()
            && bound_to((#[trigger] self.clients@[i]).unreliable, e)
    }

    pub open spec fn is_full(&self) -> bool {
        self.clients@.len() >= MAX_CLIENTS as int || self.next_id == u64::MAX
    }

    /// The index of the session with `id`; meaningful under `has_id` and
    /// `wf`, where it is unique.
    pub open spec fn idx_of_id(&self, id: ClientId) -> int {
        choose|i: int| 0 <= i < self.clients@.len() && (#[trigger] self.clients@[i]).id == id
    }

    /// The index of the session bound to reliable endpoint `e`; meaningful
    /// under `has_reliable` and `wf`, where it is unique.
    pub open spec fn idx_of_reliable(&self, e: EndpointToken) -> int {
        choose|i: int| 0 <= i < self.clients@.len() && (#[trigger] self.clients@[i]).reliable == e
    }

    pub fn new() -> (r: Authent)
        ensures
            r.wf(),
            r.clients@.len() == 0,
            r.next_id == 0,
    {
        Authent { clients: Vec::new(), next_id: 0 }
    }

    /// Create a session for a new reliable connection, in state `Connected`
    /// and with its acknowledgment set to the current frame; reject —
    /// leaving the registry untouched — when the name or the endpoint is
    /// taken or the registry is full.
    pub fn authenticate(&mut self, reliable: EndpointToken, name: String, current_frame: Frame) -> (r: AuthentResponse)
        requires
            old(self).wf(),
        ensures
            final(self).wf(),
            final(self).next_id >= old(self).next_id,
            old(self).has_name(name@) ==> r == (AuthentResponse::Rejected {
                reason: RejectReason::NameInUse,
            }) && *final(self) == *old(self),
            !old(self).has_name(name@) && old(self).has_reliable(reliable) ==> r
                == (AuthentResponse::Rejected { reason: RejectReason::EndpointInUse })
                && *final(self) == *old(self),
            !old(self).has_name(name@) && !old(self).has_reliable(reliable)
                && old(self).is_full() ==> r == (AuthentResponse::Rejected {
                reason: RejectReason::Full,
            }) && *final(self) == *old(self),
            !old(self).has_name(name@) && !old(self).has_reliable(reliable)
                && !old(self).is_full() ==> {
                &&& r == (AuthentResponse::Accepted { id: old(self).next_id })
                &&& final(self).next_id == old(self).next_id + 1
                &&& final(self).clients@.len() == old(self).clients@.len() + 1
                &&& forall|i: int| 0 <= i < old(self).clients@.len()
                    ==> final(self).clients@[i] == old(self).clients@[i]
                &&& final(self).clients@.last().id == old(self).next_id
                &&& final(self).clients@.last().name@ == name@
                &&& final(self).clients@.last().reliable == reliable
                &&& final(self).clients@.last().unreliable is None
                &&& final(self).clients@.last().state == ClientGameState::Connected
                &&& final(self).clients@.last().ack == current_frame
            },
    {
        let n = self.clients.len();
        let mut i: usize = 0;
        let mut name_taken = false;
        let mut endpoint_taken = false;
        while i < n
            invariant
                n == self.clients@.len(),
                i <= n,
                name_taken == exists|t: int|
                    0 <= t < i && (#[trigger] self.clients@[t]).name@ == name@,
                endpoint_taken == exists|t: int|
                    0 <= t < i && (#[trigger] self.clients@[t]).reliable == reliable,
            decreases n - i,
        {
            if self.clients[i].name == name {
                name_taken = true;
            }
            if self.clients[i].reliable == reliable {
                endpoint_taken = true;
            }
            i += 1;
        }
        if name_taken {
            return AuthentResponse::Rejected { reason: RejectReason::NameInUse };
        }
        if endpoint_taken {
            return AuthentResponse::Rejected { reason: RejectReason::EndpointInUse };
        }
        if self.clients.len() >= MAX_CLIENTS || self.next_id == u64::MAX {
            return AuthentResponse::Rejected { reason: RejectReason::Full };
        }
        let id = self.next_id;
        self.next_id = self.next_id + 1;
        let session = ClientSession {
            id,
            name,
            reliable,
            unreliable: Option::None,
            state: ClientGameState::Connected,
            ack: current_frame,
        };
        self.clients.push(session);
        AuthentResponse::Accepted { id }
    }

    /// Index of the session bound to reliable endpoint `e`.
    pub fn find_reliable(&self, e: EndpointToken) -> (r: Option<usize>)
        ensures
            match r {
                Option::Some(i) => i < self.clients@.len() && self.clients@[i as int].reliable == e,
                Option::None => !self.has_reliable(e),
            },
    {
        let n = self.clients.len();
        let mut i: usize = 0;
        while i < n
            invariant
                n == self.clients@.len(),
                i <= n,
                forall|t: int| 0 <= t < i ==> (#[trigger] self.clients@[t]).reliable != e,
            decreases n - i,
        {
            if self.clients[i].reliable == e {
                return Option::Some(i);
            }
            i += 1;
        }
        Option::None
    }

    /// Index of the session whose unreliable endpoint is bound to `e`.
    pub fn find_unreliable(&self, e: EndpointToken) -> (r: Option<usize>)
        ensures
            match r {
                Option::Some(i) => i < self.clients@.len()
                    && bound_to(self.clients@[i as int].unreliable, e),
                Option::None => !self.has_unreliable(e),
            },
    {
        let n = self.clients.len();
        let mut i: usize = 0;
        while i < n
            invariant
                n == self.clients@.len(),
                i <= n,
                forall|t: int| 0 <= t < i ==> !bound_to((#[trigger] self.clients@[t]).unreliable, e),
            decreases n - i,
        {
            match self.clients[i].unreliable {
                Option::Some(u) => {
                    if u == e {
                        return Option::Some(i);
                    }
                }
                Option::None => {}
            }
            i += 1;
        }
        Option::None
    }

    /// Index of the session with client id `id`.
    pub fn find_id(&self, id: ClientId) -> (r: Option<usize>)
        ensures
            match r {
                Option::Some(i) => i < self.clients@.len() && self.clients@[i as int].id == id,
                Option::None => !self.has_id(id),
            },
    {
        let n = self.clients.len();
        let mut i: usize = 0;
        while i < n
            invariant
                n == self.clients@.len(),
                i <= n,
                forall|t: int| 0 <= t < i ==> (#[trigger] self.clients@[t]).id != id,
            decreases n - i,
        {
            if self.clients[i].id == id {
                return Option::Some(i);
            }
            i += 1;
        }
        Option::None
    }

    /// Whether a session with this id exists.
    pub fn contains_id(&self, id: ClientId) -> (r: bool)
        ensures
            r == self.has_id(id),
    {
        self.find_id(id).is_some()
    }

    /// Attach the unreliable endpoint of a client once its first datagram
    /// names it.  Refused — and the registry left unchanged — when the id is
    /// unknown or the endpoint is already bound to some session.
    pub fn bind_unreliable(&mut self, id: ClientId, e: EndpointToken) -> (r: bool)
        requires
            old(self).wf(),
        ensures
            final(self).wf(),
            !old(self).has_id(id) || old(self).has_unreliable(e) ==> !r && *final(self) == *old(self),
            old(self).has_id(id) && !old(self).has_unreliable(e) ==> r && ({
                let i = old(self).idx_of_id(id);
                &&& final(self).clients@.len() == old(self).clients@.len()
                &&& forall|t: int| 0 <= t < old(self).clients@.len() && t != i
                    ==> final(self).clients@[t] == old(self).clients@[t]
                &&& final(self).clients@[i].id == id
                &&& final(self).clients@[i].unreliable == Option::Some(e)
                &&& final(self).clients@[i].name@ == old(self).clients@[i].name@
                &&& final(self).clients@[i].reliable == old(self).clients@[i].reliable
                &&& final(self).clients@[i].state == old(self).clients@[i].state
                &&& final(self).clients@[i].ack == old(self).clients@[i].ack
            }),
            final(self).next_id == old(self).next_id,
    {
        if self.find_unreliable(e).is_some() {
            return false;
        }
        match self.find_id(id) {
            Option::None => false,
            Option::Some(i) => {
                let ghost idx = old(self).idx_of_id(id);
                proof {
                    assert(old(self).clients@[idx].id == id);
                    assert(idx == i as int);
                }
                let mut session = self.clients.remove(i);
                session.unreliable = Option::Some(e);
                self.clients.insert(i, session);
                proof {
                    assert(self.clients@ =~= old(self).clients@.update(
                        i as int,
                        self.clients@[i as int],
                    ));
                }
                true
            }
        }
    }

    /// Record a client's newest acknowledged frame.
    pub fn set_ack(&mut self, i: usize, ack: Frame)
        requires
            old(self).wf(),
            i < old(self).clients@.len(),
        ensures
            final(self).wf(),
            final(self).clients@.len() == old(self).clients@.len(),
            forall|t: int| 0 <= t < old(self).clients@.len() && t != i as int
                ==> final(self).clients@[t] == old(self).clients@[t],
            final(self).clients@[i as int].id == old(self).clients@[i as int].id,
            final(self).clients@[i as int].name@ == old(self).clients@[i as int].name@,
            final(self).clients@[i as int].reliable == old(self).clients@[i as int].reliable,
            final(self).clients@[i as int].unreliable == old(self).clients@[i as int].unreliable,
            final(self).clients@[i as int].state == old(self).clients@[i as int].state,
            final(self).clients@[i as int].ack == ack,
            final(self).next_id == old(self).next_id,
    {
        let mut session = self.clients.remove(i);
        session.ack = ack;
        self.clients.insert(i, session);
        proof {
            assert(self.clients@ =~= old(self).clients@.update(i as int, self.clients@[i as int]));
        }
    }

    /// Move a session one step forward along the lifecycle chain.  Any other
    /// request — unknown id, a backward move, or a skip — is refused and
    /// changes nothing.
    pub fn set_state(&mut self, id: ClientId, new_state: ClientGameState) -> (r: bool)
        requires
            old(self).wf(),
        ensures
            final(self).wf(),
            final(self).next_id == old(self).next_id,
            !old(self).has_id(id) ==> !r && *final(self) == *old(self),
            old(self).has_id(id) ==> ({
                let i = old(self).idx_of_id(id);
                let before = old(self).clients@[i].state;
                &&& final(self).clients@.len() == old(self).clients@.len()
                &&& forall|t: int| 0 <= t < old(self).clients@.len() && t != i
                    ==> final(self).clients@[t] == old(self).clients@[t]
                &&& lifecycle_step_ok(before, final(self).clients@[i].state)
                &&& (state_rank(new_state) == state_rank(before) + 1 ==> r
                    && final(self).clients@[i].state == new_state)
                &&& (state_rank(new_state) != state_rank(before) + 1 ==> !r
                    && *final(self) == *old(self))
                &&& final(self).clients@[i].id == old(self).clients@[i].id
                &&& final(self).clients@[i].name@ == old(self).clients@[i].name@
                &&& final(self).clients@[i].reliable == old(self).clients@[i].reliable
                &&& final(self).clients@[i].unreliable == old(self).clients@[i].unreliable
                &&& final(self).clients@[i].ack == old(self).clients@[i].ack
            }),
    {
        match self.find_id(id) {
            Option::None => false,
            Option::Some(i) => {
                let ghost idx = old(self).idx_of_id(id);
                proof {
                    assert(old(self).clients@[idx].id == id);
                    assert(idx == i as int);
                }
                let before = self.clients[i].state;
                if rank_of(new_state) == rank_of(before) + 1 {
                    let mut session = self.clients.remove(i);
                    session.state = new_state;
                    self.clients.insert(i, session);
                    proof {
                        assert(self.clients@ =~= old(self).clients@.update(
                            i as int,
                            self.clients@[i as int],
                        ));
                    }
                    true
                } else {
                    proof {
                        assert(*self =~= *old(self));
                    }
                    false
                }
            }
        }
    }

    /// Remove the session bound to reliable endpoint `e` and hand it back so
    /// dependent components can key their cleanup off it.  Removing an
    /// endpoint that has no session is a no-op.
    pub fn disconnect(&mut self, e: EndpointToken) -> (r: Option<ClientSession>)
        requires
            old(self).wf(),
        ensures
            final(self).wf(),
            final(self).next_id == old(self).next_id,
            !old(self).has_reliable(e) ==> r is None && *final(self) == *old(self),
            old(self).has_reliable(e) ==> match r {
                Option::Some(c) => exists|i: int|
                    0 <= i < old(self).clients@.len()
                        && old(self).clients@[i] == c
                        && c.reliable == e
                        && final(self).clients@ == old(self).clients@.remove(i),
                Option::None => false,
            },
            forall|id: ClientId| final(self).has_id(id) ==> old(self).has_id(id),
            forall|id: ClientId| old(self).has_id(id) && (match r {
                Option::Some(c) => id != c.id,
                Option::None => true,
            }) ==> final(self).has_id(id),
            old(self).has_reliable(e) ==> !final(self).has_reliable(e),
    {
        match self.find_reliable(e) {
            Option::None => Option::None,
            Option::Some(i) => {
                let c = self.clients.remove(i);
                proof {
                    assert forall|id: ClientId| final(self).has_id(id)
                        implies old(self).has_id(id) by {
                        let t = choose|t: int|
                            0 <= t < self.clients@.len() && (#[trigger] self.clients@[t]).id == id;
                        if t < i as int {
                            assert(old(self).clients@[t].id == id);
                        } else {
                            assert(old(self).clients@[t + 1].id == id);
                        }
                    }
                    assert forall|id: ClientId| old(self).has_id(id) && id != c.id
                        implies final(self).has_id(id) by {
                        let t = choose|t: int|
                            0 <= t < old(self).clients@.len()
                                && (#[trigger] old(self).clients@[t]).id == id;
                        if t < i as int {
                            assert(self.clients@[t].id == id);
                        } else {
                            assert(t != i as int);
                            assert(self.clients@[t - 1].id == id);
                        }
                    }
                    assert forall|t: int| 0 <= t < self.clients@.len()
                        implies (#[trigger] self.clients@[t]).reliable != e by {
                        if t < i as int {
                            assert(self.clients@[t] == old(self).clients@[t]);
                        } else {
                            assert(self.clients@[t] == old(self).clients@[t + 1]);
                        }
                    }
                }
                Option::Some(c)
            }
        }
    }

    /// Remove the session with client id `id` (the aggregator's lag eviction
    /// keys on ids, not endpoints).  Unknown ids are a no-op.
    pub fn disconnect_id(&mut self, id: ClientId) -> (r: Option<ClientSession>)
        requires
            old(self).wf(),
        ensures
            final(self).wf(),
            final(self).next_id == old(self).next_id,
            !old(self).has_id(id) ==> r is None && *final(self) == *old(self),
            old(self).has_id(id) ==> match r {
                Option::Some(c) => exists|i: int|
                    0 <= i < old(self).clients@.len()
                        && old(self).clients@[i] == c
                        && c.id == id
                        && final(self).clients@ == old(self).clients@.remove(i),
                Option::None => false,
            },
            !final(self).has_id(id),
            forall|other: ClientId| final(self).has_id(other) ==> old(self).has_id(other),
            forall|other: ClientId| old(self).has_id(other) && other != id ==> final(self).has_id(other),
    {
        match self.find_id(id) {
            Option::None => Option::None,
            Option::Some(i) => {
                let c = self.clients.remove(i);
                proof {
                    assert forall|other: ClientId| final(self).has_id(other)
                        implies old(self).has_id(other) by {
                        let t = choose|t: int|
                            0 <= t < self.clients@.len()
                                && (#[trigger] self.clients@[t]).id == other;
                        if t < i as int {
                            assert(old(self).clients@[t].id == other);
                        } else {
                            assert(old(self).clients@[t + 1].id == other);
                        }
                    }
                    assert forall|other: ClientId| old(self).has_id(other) && other != id
                        implies final(self).has_id(other) by {
                        let t = choose|t: int|
                            0 <= t < old(self).clients@.len()
                                && (#[trigger] old(self).clients@[t]).id == other;
                        if t < i as int {
                            assert(self.clients@[t].id == other);
                        } else {
                            assert(t != i as int);
                            assert(self.clients@[t - 1].id == other);
                        }
                    }
                    assert forall|t: int| 0 <= t < self.clients@.len()
                        implies (#[trigger] self.clients@[t]).id != id by {
                        if t < i as int {
                            assert(self.clients@[t] == old(self).clients@[t]);
                        } else {
                            assert(self.clients@[t] == old(self).clients@[t + 1]);
                        }
                    }
                }
                Option::Some(c)
            }
        }
    }

    /// How many sessions are `Playing` (the broadcast targets).
    pub fn playing_count(&self) -> (r: usize)
        ensures
            r <= self.clients@.len(),
            (r > 0) == exists|i: int|
                0 <= i < self.clients@.len()
                    && (#[trigger] self.clients@[i]).state == ClientGameState::Playing,
    {
        let n = self.clients.len();
        let mut i: usize = 0;
        let mut count: usize = 0;
        while i < n
            invariant
                n == self.clients@.len(),
                i <= n,
                count <= i,
                (count > 0) == exists|t: int|
                    0 <= t < i && (#[trigger] self.clients@[t]).state == ClientGameState::Playing,
            decreases n - i,
        {
            if matches!(self.clients[i].state, ClientGameState::Playing) {
                count += 1;
            }
            i += 1;
        }
        count
    }
}

/// Executable counterpart of `state_rank`.
pub fn rank_of(s: ClientGameState) -> (r: u8)
    ensures
        r == state_rank(s),
{
    match s {
        ClientGameState::Connected => 0,
        ClientGameState::Downloading => 1,
        ClientGameState::CatchingUp => 2,
        ClientGameState::Playing => 3,
    }
}

/// Monotone ranks along any stepwise-allowed state history.
proof fn lemma_rank_le(states: Seq<ClientGameState>, i: int, j: int)
    requires
        forall|t: int| 0 <= t < states.len() - 1
            ==> #[trigger] lifecycle_step_ok(states[t], states[t + 1]),
        0 <= i <= j < states.len(),
    ensures
        state_rank(states[i]) <= state_rank(states[j]),
    decreases j - i,
{
    if i < j {
        let t = j - 1;
        assert(lifecycle_step_ok(states[t], states[t + 1]));
        lemma_rank_le(states, i, j - 1);
    }
}

/// Law (lifecycle monotonicity): a state history in which each entry follows
/// from the previous by the registry's one allowed step never moves
/// backward and never skips a stage — read off the distinct states in
/// order and they are a prefix of
/// `Connected, Downloading, CatchingUp, Playing`.  Disconnection is removal
/// from the registry and so can happen from any point without appearing
/// here.
pub proof fn lemma_lifecycle_monotonic(states: Seq<ClientGameState>)
    requires
        forall|t: int| 0 <= t < states.len() - 1
            ==> #[trigger] lifecycle_step_ok(states[t], states[t + 1]),
    ensures
        forall|i: int, j: int| 0 <= i <= j < states.len()
            ==> state_rank(#[trigger] states[i]) <= state_rank(#[trigger] states[j]),
        forall|t: int| 0 <= t < states.len() - 1
            ==> state_rank(#[trigger] states[t + 1]) <= state_rank(states[t]) + 1,
{
    assert forall|i: int, j: int| 0 <= i <= j < states.len()
        implies state_rank(#[trigger] states[i]) <= state_rank(#[trigger] states[j]) by {
        lemma_rank_le(states, i, j);
    }
    assert forall|t: int| 0 <= t < states.len() - 1
        implies state_rank(#[trigger] states[t + 1]) <= state_rank(states[t]) + 1 by {
        assert(lifecycle_step_ok(states[t], states[t + 1]));
    }
}

} // verus!
