//! World transfer: chunked, acknowledgment-driven delivery of an encoded
//! world snapshot to a newly accepted client over its reliable channel.
//!
//! The snapshot is opaque bytes.  It is cut into chunks of at most
//! `WORLD_CHUNK` bytes, sent in order with at most `WORLD_MAX_INFLIGHT`
//! chunks unacknowledged, and — the channel being ordered and lossless —
//! reassembles on the client byte for byte without any sequence header.

use vstd::prelude::*;

use crate::ClientId;
use crate::playout::copy_bytes;

verus! {

/// Most bytes per snapshot chunk.
pub const WORLD_CHUNK: usize = 4096;

/// Most unacknowledged chunks per client, the flow-control cap.
pub const WORLD_MAX_INFLIGHT: usize = 4;

/// One client's snapshot transfer: the encoded bytes, a send cursor, an
/// acknowledgment cursor and the number of chunks between them.
pub struct WorldTransfer {
    pub id: ClientId,
    pub data: Vec<u8>,
    pub sent: usize,
    pub acked: usize,
    pub in_flight: usize,
    /// Everything handed to transport so far, in order.
    pub delivered: Ghost<Seq<u8>>,
}

pub open spec fn transfer_wf(t: WorldTransfer) -> bool {
    &&& t.acked <= t.sent <= t.data@.len()
    &&& t.in_flight <= WORLD_MAX_INFLIGHT
    &&& t.in_flight == 0 ==> t.sent == t.acked
    &&& t.sent < t.data@.len() ==> t.sent - t.acked == t.in_flight * (WORLD_CHUNK as int)
    &&& (t.sent == t.data@.len() && t.in_flight >= 1) ==> (t.in_flight - 1) * (
    WORLD_CHUNK as int) < t.sent - t.acked <= t.in_flight * (WORLD_CHUNK as int)
    &&& t.delivered@ == t.data@.subrange(0, t.sent as int)
}

pub struct WorldSend {
    pub transfers: Vec<WorldTransfer>,
}

impl WorldSend {
    pub open spec fn wf(&self) -> bool {
        &&& forall|i: int| 0 <= i < self.transfers@.len()
            ==> transfer_wf(#[trigger] self.transfers@[i])
        &&& forall|i: int, j: int| 0 <= i < j < self.transfers@.len()
            ==> (#[trigger] self.transfers@[i]).id != (#[trigger] self.transfers@[j]).id
    }

    pub open spec fn has_transfer(&self, id: ClientId) -> bool {
        exists|i: int| 0 <= i < self.transfers@.len() && (#[trigger] self.transfers@[i]).id == id
    }

    pub open spec fn idx_of(&self, id: ClientId) -> int {
        choose|i: int| 0 <= i < self.transfers@.len() && (#[trigger] self.transfers@[i]).id == id
    }

    pub fn new() -> (r: WorldSend)
        ensures
            r.wf(),
            r.transfers@.len() == 0,
    {
        WorldSend { transfers: Vec::new() }
    }

    pub fn contains(&self, id: ClientId) -> (r: bool)
        ensures
            r == self.has_transfer(id),
    {
        let n = self.transfers.len();
        let mut i: usize = 0;
        while i < n
            invariant
                n == self.transfers@.len(),
                i <= n,
                forall|t: int| 0 <= t < i ==> (#[trigger] self.transfers@[t]).id != id,
            decreases n - i,
        {
            if self.transfers[i].id == id {
                return true;
            }
            i += 1;
        }
        false
    }

    fn find(&self, id: ClientId) -> (r: Option<usize>)
        ensures
            match r {
                Option::Some(i) => i < self.transfers@.len() && self.transfers@[i as int].id == id,
                Option::None => !self.has_transfer(id),
            },
    {
        let n = self.transfers.len();
        let mut i: usize = 0;
        while i < n
            invariant
                n == self.transfers@.len(),
                i <= n,
                forall|t: int| 0 <= t < i ==> (#[trigger] self.transfers@[t]).id != id,
            decreases n - i,
        {
            if self.transfers[i].id == id {
                return Option::Some(i);
            }
            i += 1;
        }
        Option::None
    }

    /// Store the encoded snapshot for a freshly accepted client, cursors at
    /// zero.  The length bound keeps every cursor computation inside
    /// `usize`.
    pub fn begin_send(&mut self, id: ClientId, data: Vec<u8>)
        requires
            old(self).wf(),
            !old(self).has_transfer(id),
            data@.len() <= usize::MAX - WORLD_CHUNK,
        ensures
            final(self).wf(),
            final(self).transfers@.len() == old(self).transfers@.len() + 1,
            forall|i: int| 0 <= i < old(self).transfers@.len()
                ==> final(self).transfers@[i] == old(self).transfers@[i],
            final(self).transfers@.last().id == id,
            final(self).transfers@.last().data == data,
            final(self).transfers@.last().sent == 0,
            final(self).transfers@.last().acked == 0,
            final(self).transfers@.last().in_flight == 0,
            final(self).has_transfer(id),
    {
        let t = WorldTransfer {
            id,
            data,
            sent: 0,
            acked: 0,
            in_flight: 0,
            delivered: Ghost(Seq::empty()),
        };
        proof {
            assert(t.delivered@ =~= t.data@.subrange(0, 0));
        }
        self.transfers.push(t);
    }

    /// Send the next chunk for `id`, if one is due and the flow-control cap
    /// allows: exactly the snapshot bytes `[sent, sent + |chunk|)`, at most
    /// `WORLD_CHUNK` of them.  `None` when the client has no transfer, the
    /// window is full, or everything is sent.
    pub fn update(&mut self, id: ClientId) -> (r: Option<Vec<u8>>)
        requires
            old(self).wf(),
        ensures
            final(self).wf(),
            !old(self).has_transfer(id) ==> r is None && *final(self) == *old(self),
            old(self).has_transfer(id) ==> ({
                let i = old(self).idx_of(id);
                let t = old(self).transfers@[i];
                &&& (t.sent == t.data@.len() || t.in_flight >= WORLD_MAX_INFLIGHT) ==> r is None
                    && *final(self) == *old(self)
                &&& (t.sent < t.data@.len() && t.in_flight < WORLD_MAX_INFLIGHT) ==> match r {
                    Option::Some(chunk) => {
                        let size: int = if t.data@.len() - t.sent < WORLD_CHUNK as int {
                            t.data@.len() - t.sent
                        } else {
                            WORLD_CHUNK as int
                        };
                        &&& chunk@ == t.data@.subrange(t.sent as int, t.sent + size)
                        &&& chunk@.len() == size
                        &&& final(self).transfers@.len() == old(self).transfers@.len()
                        &&& forall|j: int| 0 <= j < old(self).transfers@.len() && j != i
                            ==> final(self).transfers@[j] == old(self).transfers@[j]
                        &&& final(self).transfers@[i].id == id
                        &&& final(self).transfers@[i].data == t.data
                        &&& final(self).transfers@[i].sent == t.sent + size
                        &&& final(self).transfers@[i].acked == t.acked
                        &&& final(self).transfers@[i].in_flight == t.in_flight + 1
                        &&& final(self).transfers@[i].delivered@ == t.delivered@ + chunk@
                    },
                    Option::None => false,
                }
            }),
    {
        match self.find(id) {
            Option::None => Option::None,
            Option::Some(i) => {
                let ghost idx = old(self).idx_of(id);
                proof {
                    assert(old(self).transfers@[idx].id == id);
                    assert(idx == i as int);
                }
                let len = self.transfers[i].data.len();
                let sent = self.transfers[i].sent;
                let in_flight = self.transfers[i].in_flight;
                if sent >= len || in_flight >= WORLD_MAX_INFLIGHT {
                    proof {
                        assert(*self =~= *old(self));
                    }
                    return Option::None;
                }
                let size: usize = if len - sent < WORLD_CHUNK {
                    len - sent
                } else {
                    WORLD_CHUNK
                };
                let mut chunk: Vec<u8> = Vec::new();
                let mut j: usize = 0;
                while j < size
                    invariant
                        i < self.transfers@.len(),
                        j <= size,
                        len == self.transfers@[i as int].data@.len(),
                        sent + size <= len,
                        chunk@ == self.transfers@[i as int].data@.subrange(
                            sent as int,
                            sent + j,
                        ),
                        *self == *old(self),
                    decreases size - j,
                {
                    chunk.push(self.transfers[i].data[sent + j]);
                    j += 1;
                    proof {
                        assert(chunk@ =~= self.transfers@[i as int].data@.subrange(
                            sent as int,
                            sent + j,
                        ));
                    }
                }
                let copy = copy_bytes(&chunk);
                let mut t = self.transfers.remove(i);
                t.sent = sent + size;
                t.in_flight = in_flight + 1;
                t.delivered = Ghost(t.delivered@ + chunk@);
                self.transfers.insert(i, t);
                proof {
                    assert(self.transfers@ =~= old(self).transfers@.update(
                        i as int,
                        self.transfers@[i as int],
                    ));
                    assert(self.transfers@[i as int].delivered@ =~= self.transfers@[
                        i as int].data@.subrange(0, (sent + size) as int));
                }
                Option::Some(copy)
            }
        }
    }

    /// Advance the acknowledgment cursor past the oldest in-flight chunk.
    /// Returns whether the whole snapshot is now acknowledged; `None` for an
    /// unknown client.  A spurious acknowledgment with nothing in flight
    /// changes nothing.
    pub fn ack(&mut self, id: ClientId) -> (r: Option<bool>)
        requires
            old(self).wf(),
        ensures
            final(self).wf(),
            !old(self).has_transfer(id) ==> r is None && *final(self) == *old(self),
            old(self).has_transfer(id) ==> ({
                let i = old(self).idx_of(id);
                let t = old(self).transfers@[i];
                &&& t.in_flight == 0 ==> *final(self) == *old(self) && r == Some(
                    t.acked == t.data@.len(),
                )
                &&& t.in_flight >= 1 ==> ({
                    let adv: int = if t.sent - t.acked > WORLD_CHUNK as int {
                        WORLD_CHUNK as int
                    } else {
                        t.sent - t.acked
                    };
                    &&& final(self).transfers@.len() == old(self).transfers@.len()
                    &&& forall|j: int| 0 <= j < old(self).transfers@.len() && j != i
                        ==> final(self).transfers@[j] == old(self).transfers@[j]
                    &&& final(self).transfers@[i].id == id
                    &&& final(self).transfers@[i].data == t.data
                    &&& final(self).transfers@[i].sent == t.sent
                    &&& final(self).transfers@[i].acked == t.acked + adv
                    &&& final(self).transfers@[i].in_flight == t.in_flight - 1
                    &&& final(self).transfers@[i].delivered@ == t.delivered@
                    &&& r == Some(t.acked + adv == t.data@.len())
                })
            }),
    {
        match self.find(id) {
            Option::None => Option::None,
            Option::Some(i) => {
                let ghost idx = old(self).idx_of(id);
                proof {
                    assert(old(self).transfers@[idx].id == id);
                    assert(idx == i as int);
                }
                let len = self.transfers[i].data.len();
                if self.transfers[i].in_flight == 0 {
                    let done = self.transfers[i].acked == len;
                    proof {
                        assert(*self =~= *old(self));
                    }
                    return Option::Some(done);
                }
                let mut t = self.transfers.remove(i);
                let diff = t.sent - t.acked;
                let adv = if diff > WORLD_CHUNK {
                    WORLD_CHUNK
                } else {
                    diff
                };
                t.acked = t.acked + adv;
                t.in_flight = t.in_flight - 1;
                let done = t.acked == len;
                self.transfers.insert(i, t);
                proof {
                    assert(self.transfers@ =~= old(self).transfers@.update(
                        i as int,
                        self.transfers@[i as int],
                    ));
                }
                Option::Some(done)
            }
        }
    }

    /// Free the stored snapshot and cursors of a disconnected client; a
    /// second call is a no-op.
    pub fn disconnected(&mut self, id: ClientId)
        requires
            old(self).wf(),
        ensures
            final(self).wf(),
            !final(self).has_transfer(id),
            !old(self).has_transfer(id) ==> *final(self) == *old(self),
            old(self).has_transfer(id) ==> final(self).transfers@ == old(self).transfers@.remove(
                old(self).idx_of(id),
            ),
            forall|other: ClientId| final(self).has_transfer(other)
                ==> old(self).has_transfer(other),
    {
        match self.find(id) {
            Option::None => {}
            Option::Some(i) => {
                let ghost idx = old(self).idx_of(id);
                proof {
                    assert(old(self).transfers@[idx].id == id);
                    assert(idx == i as int);
                }
                self.transfers.remove(i);
                proof {
                    assert forall|t: int| 0 <= t < self.transfers@.len()
                        implies (#[trigger] self.transfers@[t]).id != id by {
                        if t < i as int {
                            assert(self.transfers@[t] == old(self).transfers@[t]);
                        } else {
                            assert(self.transfers@[t] == old(self).transfers@[t + 1]);
                        }
                    }
                    assert forall|other: ClientId| final(self).has_transfer(other)
                        implies old(self).has_transfer(other) by {
                        let t = choose|t: int|
                            0 <= t < self.transfers@.len()
                                && (#[trigger] self.transfers@[t]).id == other;
                        if t < i as int {
                            assert(old(self).transfers@[t].id == other);
                        } else {
                            assert(old(self).transfers@[t + 1].id == other);
                        }
                    }
                }
            }
        }
    }
}

/// Law (byte-exact reassembly): the chunks of a transfer are consecutive
/// slices of the snapshot, so once everything is sent, what was handed to
/// the ordered, lossless channel — `delivered` — is the snapshot itself,
/// byte for byte; and a fully acknowledged transfer has been fully sent.
pub proof fn lemma_world_transfer_exact(t: WorldTransfer)
    requires
        transfer_wf(t),
    ensures
        t.sent == t.data@.len() ==> t.delivered@ == t.data@,
        t.acked == t.data@.len() ==> t.sent == t.data@.len() && t.delivered@ == t.data@,
{
    if t.sent == t.data@.len() {
        assert(t.delivered@ =~= t.data@);
    }
}

} // verus!
