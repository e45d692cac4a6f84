//! Catch-up replay: bridging the gap between "snapshot taken at frame F"
//! and "live broadcast at the current head" by replaying every merged frame
//! produced in between, reliably and in order.
//!
//! The component remembers merged-frame history from the oldest reference
//! frame still needed; each catching-up client has a cursor into it and a
//! flow-control window of one outstanding batch.  Frames are sent exactly
//! once: the cursor only advances on acknowledgment, and the channel is
//! ordered and lossless.

use vstd::prelude::*;

use crate::ClientId;
use crate::Frame;
use crate::playout::MergedFrame;
use crate::playout::copy_row;
use crate::playout::row_view;

verus! {

/// Most frames replayed per batch, the flow-control cap.
pub const CATCHUP_BATCH: usize = 8;

/// The consecutive frame numbers `lo, lo + 1, …, hi - 1`.
pub open spec fn frame_range(lo: int, hi: int) -> Seq<Frame> {
    Seq::new(if hi >= lo { (hi - lo) as nat } else { 0 }, |i: int| (lo + i) as Frame)
}

/// One catching-up client: where its replay started, the next frame to
/// send, how many frames of one batch are awaiting acknowledgment, and — as
/// a ghost ledger — every frame number handed to transport so far.
pub struct CatchUpClient {
    pub id: ClientId,
    pub start: Frame,
    pub next: Frame,
    pub in_flight: u64,
    pub sent: Ghost<Seq<Frame>>,
}

pub struct CatchUp {
    /// Frame the retained history starts after: `history[i]` is the merged
    /// frame `base + 1 + i`.
    pub base: Frame,
    pub history: Vec<Vec<(ClientId, Vec<u8>)>>,
    pub clients: Vec<CatchUpClient>,
}

/// A client's cursor stays inside the retained history, and its ledger is
/// exactly the consecutive frames from its reference point to the cursor
/// plus the outstanding batch.
pub open spec fn catchup_client_wf(c: CatchUpClient, base: int, head: int) -> bool {
    &&& base <= c.start
    &&& c.start < c.next
    &&& c.next + c.in_flight <= head + 1
    &&& c.sent@ == frame_range(c.start + 1, c.next + c.in_flight)
}

impl CatchUp {
    /// Newest frame the history holds.
    pub open spec fn head_frame(&self) -> int {
        self.base + self.history@.len()
    }

    pub open spec fn wf(&self) -> bool {
        &&& self.head_frame() < u64::MAX
        &&& forall|i: int| 0 <= i < self.clients@.len()
            ==> catchup_client_wf(
                #[trigger] self.clients@[i],
                self.base as int,
                self.head_frame(),
            )
        &&& forall|i: int, j: int| 0 <= i < j < self.clients@.len()
            ==> (#[trigger] self.clients@[i]).id != (#[trigger] self.clients@[j]).id
    }

    pub open spec fn has_client(&self, id: ClientId) -> bool {
        exists|i: int| 0 <= i < self.clients@.len() && (#[trigger] self.clients@[i]).id == id
    }

    pub open spec fn idx_of(&self, id: ClientId) -> int {
        choose|i: int| 0 <= i < self.clients@.len() && (#[trigger] self.clients@[i]).id == id
    }

    pub fn new(start_frame: Frame) -> (r: CatchUp)
        requires
            start_frame < u64::MAX,
        ensures
            r.wf(),
            r.base == start_frame,
            r.history@.len() == 0,
            r.clients@.len() == 0,
    {
        CatchUp { base: start_frame, history: Vec::new(), clients: Vec::new() }
    }

    pub fn contains(&self, id: ClientId) -> (r: bool)
        ensures
            r == self.has_client(id),
    {
        let n = self.clients.len();
        let mut i: usize = 0;
        while i < n
            invariant
                n == self.clients@.len(),
                i <= n,
                forall|t: int| 0 <= t < i ==> (#[trigger] self.clients@[t]).id != id,
            decreases n - i,
        {
            if self.clients[i].id == id {
                return true;
            }
            i += 1;
        }
        false
    }

    fn find(&self, id: ClientId) -> (r: Option<usize>)
        ensures
            match r {
                Option::Some(i) => i < self.clients@.len() && self.clients@[i as int].id == id,
                Option::None => !self.has_client(id),
            },
    {
        let n = self.clients.len();
        let mut i: usize = 0;
        while i < n
            invariant
                n == self.clients@.len(),
                i <= n,
                forall|t: int| 0 <= t < i ==> (#[trigger] self.clients@[t]).id != id,
            decreases n - i,
        {
            if self.clients[i].id == id {
                return Option::Some(i);
            }
            i += 1;
        }
        Option::None
    }

    /// Append the merged frame the aggregator just produced.  While nobody
    /// is remembering, the history need not be retained and restarts at the
    /// new frame.
    pub fn add_merged_inputs(&mut self, frame: Frame, merged: Vec<(ClientId, Vec<u8>)>)
        requires
            old(self).wf(),
            frame == old(self).head_frame() + 1,
            frame < u64::MAX,
        ensures
            final(self).wf(),
            final(self).clients@ == old(self).clients@,
            final(self).head_frame() == frame,
            old(self).clients@.len() == 0 ==> final(self).base == frame
                && final(self).history@.len() == 0,
            old(self).clients@.len() > 0 ==> final(self).base == old(self).base
                && final(self).history@ == old(self).history@.push(merged),
    {
        if self.clients.len() == 0 {
            self.base = frame;
            self.history.clear();
        } else {
            self.history.push(merged);
        }
    }

    /// Start remembering for a freshly accepted client whose snapshot was
    /// taken at `frame`: its replay will deliver every merged frame after
    /// `frame`.
    pub fn begin_remembering(&mut self, frame: Frame, id: ClientId)
        requires
            old(self).wf(),
            !old(self).has_client(id),
            old(self).base <= frame <= old(self).head_frame(),
        ensures
            final(self).wf(),
            final(self).base == old(self).base,
            final(self).history@ == old(self).history@,
            final(self).clients@.len() == old(self).clients@.len() + 1,
            forall|i: int| 0 <= i < old(self).clients@.len()
                ==> final(self).clients@[i] == old(self).clients@[i],
            final(self).clients@.last().id == id,
            final(self).clients@.last().start == frame,
            final(self).clients@.last().next == frame + 1,
            final(self).clients@.last().in_flight == 0,
            final(self).has_client(id),
    {
        let c = CatchUpClient {
            id,
            start: frame,
            next: frame + 1,
            in_flight: 0,
            sent: Ghost(frame_range(frame + 1, frame + 1)),
        };
        proof {
            assert(c.sent@ =~= frame_range(frame + 1 as int, frame + 1 as int));
        }
        self.clients.push(c);
    }

    /// Send the next batch of buffered frames to `id`, if its window is free
    /// and frames remain: up to `CATCHUP_BATCH` consecutive merged frames
    /// starting at its cursor, each exactly the one the aggregator produced.
    /// `None` when the client is unknown, a batch is outstanding, or it has
    /// nothing left to receive.
    pub fn update(&mut self, id: ClientId) -> (r: Option<Vec<MergedFrame>>)
        requires
            old(self).wf(),
        ensures
            final(self).wf(),
            final(self).base == old(self).base,
            final(self).history@ == old(self).history@,
            !old(self).has_client(id) ==> r is None && *final(self) == *old(self),
            old(self).has_client(id) ==> ({
                let i = old(self).idx_of(id);
                let c = old(self).clients@[i];
                &&& (c.in_flight > 0 || c.next > old(self).head_frame()) ==> r is None
                    && *final(self) == *old(self)
                &&& (c.in_flight == 0 && c.next <= old(self).head_frame()) ==> match r {
                    Option::Some(batch) => {
                        let count: int = if old(self).head_frame() - c.next + 1
                            < CATCHUP_BATCH as int {
                            old(self).head_frame() - c.next + 1
                        } else {
                            CATCHUP_BATCH as int
                        };
                        &&& batch@.len() == count
                        &&& forall|j: int| 0 <= j < count
                            ==> (#[trigger] batch@[j]).frame == c.next + j
                                && row_view(batch@[j].inputs) == row_view(
                                old(self).history@[c.next + j - old(self).base - 1],
                            )
                        &&& final(self).clients@.len() == old(self).clients@.len()
                        &&& forall|t: int| 0 <= t < old(self).clients@.len() && t != i
                            ==> final(self).clients@[t] == old(self).clients@[t]
                        &&& final(self).clients@[i].id == id
                        &&& final(self).clients@[i].start == c.start
                        &&& final(self).clients@[i].next == c.next
                        &&& final(self).clients@[i].in_flight == count
                        &&& final(self).clients@[i].sent@ == c.sent@ + frame_range(
                            c.next as int,
                            c.next + count,
                        )
                    },
                    Option::None => false,
                }
            }),
    {
        match self.find(id) {
            Option::None => Option::None,
            Option::Some(i) => {
                let ghost idx = old(self).idx_of(id);
                proof {
                    assert(old(self).clients@[idx].id == id);
                    assert(idx == i as int);
                }
                let head: u64 = self.base + self.history.len() as u64;
                let next = self.clients[i].next;
                if self.clients[i].in_flight > 0 || next > head {
                    proof {
                        assert(*self =~= *old(self));
                    }
                    return Option::None;
                }
                let remaining: u64 = head - next + 1;
                let count: u64 = if remaining < CATCHUP_BATCH as u64 {
                    remaining
                } else {
                    CATCHUP_BATCH as u64
                };
                let mut batch: Vec<MergedFrame> = Vec::new();
                let mut j: u64 = 0;
                while j < count
                    invariant
                        i < self.clients@.len(),
                        j <= count,
                        next == self.clients@[i as int].next,
                        count <= self.head_frame() - next + 1,
                        next > self.base,
                        self.head_frame() == self.base + self.history@.len(),
                        self.head_frame() < u64::MAX,
                        batch@.len() == j,
                        forall|t: int| 0 <= t < j
                            ==> (#[trigger] batch@[t]).frame == next + t
                                && row_view(batch@[t].inputs) == row_view(
                                self.history@[next + t - self.base - 1],
                            ),
                        *self == *old(self),
                    decreases count - j,
                {
                    let frame: u64 = next + j;
                    let hlen: usize = self.history.len();
                    proof {
                        assert(frame <= self.head_frame());
                        assert(frame - self.base - 1 < hlen);
                    }
                    let hidx: usize = ((frame - self.base) - 1) as usize;
                    let inputs = copy_row(&self.history[hidx]);
                    batch.push(MergedFrame { frame, inputs });
                    j += 1;
                    proof {
                        assert(hidx as int == next + (j - 1) - self.base - 1);
                        assert(row_view(batch@[j - 1].inputs) == row_view(
                            self.history@[next + (j - 1) - self.base - 1],
                        ));
                    }
                }
                let mut c = self.clients.remove(i);
                c.in_flight = count;
                c.sent = Ghost(c.sent@ + frame_range(c.next as int, c.next + count as int));
                self.clients.insert(i, c);
                proof {
                    assert(self.clients@ =~= old(self).clients@.update(
                        i as int,
                        self.clients@[i as int],
                    ));
                    assert(self.clients@[i as int].sent@ =~= frame_range(
                        self.clients@[i as int].start + 1,
                        self.clients@[i as int].next + self.clients@[i as int].in_flight,
                    ));
                }
                Option::Some(batch)
            }
        }
    }

    /// Acknowledge the outstanding batch of `id`: the cursor moves past it,
    /// and the result says whether the client has now caught up with the
    /// head of history (`None` for an unknown client).  The first call —
    /// with nothing outstanding — merely reports whether replay is already
    /// complete, which kicks off a fresh catch-up.
    pub fn ack(&mut self, id: ClientId) -> (r: Option<bool>)
        requires
            old(self).wf(),
        ensures
            final(self).wf(),
            final(self).base == old(self).base,
            final(self).history@ == old(self).history@,
            !old(self).has_client(id) ==> r is None && *final(self) == *old(self),
            old(self).has_client(id) ==> ({
                let i = old(self).idx_of(id);
                let c = old(self).clients@[i];
                &&& final(self).clients@.len() == old(self).clients@.len()
                &&& forall|t: int| 0 <= t < old(self).clients@.len() && t != i
                    ==> final(self).clients@[t] == old(self).clients@[t]
                &&& final(self).clients@[i].id == id
                &&& final(self).clients@[i].start == c.start
                &&& final(self).clients@[i].next == c.next + c.in_flight
                &&& final(self).clients@[i].in_flight == 0
                &&& final(self).clients@[i].sent@ == c.sent@
                &&& r == Some(c.next + c.in_flight > old(self).head_frame())
            }),
    {
        match self.find(id) {
            Option::None => Option::None,
            Option::Some(i) => {
                let ghost idx = old(self).idx_of(id);
                proof {
                    assert(old(self).clients@[idx].id == id);
                    assert(idx == i as int);
                }
                let head: u64 = self.base + self.history.len() as u64;
                let mut c = self.clients.remove(i);
                let new_next: u64 = c.next + c.in_flight;
                c.next = new_next;
                c.in_flight = 0;
                self.clients.insert(i, c);
                proof {
                    assert(self.clients@ =~= old(self).clients@.update(
                        i as int,
                        self.clients@[i as int],
                    ));
                }
                Option::Some(new_next > head)
            }
        }
    }

    /// Free the replay cursor of a disconnected client; a second call is a
    /// no-op.
    pub fn disconnected(&mut self, id: ClientId)
        requires
            old(self).wf(),
        ensures
            final(self).wf(),
            !final(self).has_client(id),
            final(self).base == old(self).base,
            final(self).history@ == old(self).history@,
            !old(self).has_client(id) ==> *final(self) == *old(self),
            old(self).has_client(id) ==> final(self).clients@ == old(self).clients@.remove(
                old(self).idx_of(id),
            ),
            forall|other: ClientId| final(self).has_client(other) ==> old(self).has_client(other),
    {
        match self.find(id) {
            Option::None => {}
            Option::Some(i) => {
                let ghost idx = old(self).idx_of(id);
                proof {
                    assert(old(self).clients@[idx].id == id);
                    assert(idx == i as int);
                }
                self.clients.remove(i);
                proof {
                    assert forall|t: int| 0 <= t < self.clients@.len()
                        implies (#[trigger] self.clients@[t]).id != id by {
                        if t < i as int {
                            assert(self.clients@[t] == old(self).clients@[t]);
                        } else {
                            assert(self.clients@[t] == old(self).clients@[t + 1]);
                        }
                    }
                    assert forall|other: ClientId| final(self).has_client(other)
                        implies old(self).has_client(other) by {
                        let t = choose|t: int|
                            0 <= t < self.clients@.len()
                                && (#[trigger] self.clients@[t]).id == other;
                        if t < i as int {
                            assert(old(self).clients@[t].id == other);
                        } else {
                            assert(old(self).clients@[t + 1].id == other);
                        }
                    }
                }
            }
        }
    }
}

/// Law (catch-up completeness): a client that has caught up — nothing
/// outstanding and its cursor past the head — was handed every frame after
/// its reference frame up to the then-current head, in ascending order,
/// each exactly once.
pub proof fn lemma_catchup_completeness(cu: &CatchUp, i: int)
    requires
        cu.wf(),
        0 <= i < cu.clients@.len(),
        cu.clients@[i].in_flight == 0,
        cu.clients@[i].next > cu.head_frame(),
    ensures
        cu.clients@[i].sent@ == frame_range(cu.clients@[i].start + 1, cu.head_frame() + 1),
        cu.clients@[i].sent@.len() == cu.head_frame() - cu.clients@[i].start,
        forall|j: int| 0 <= j < cu.clients@[i].sent@.len()
            ==> (#[trigger] cu.clients@[i].sent@[j]) == cu.clients@[i].start + 1 + j,
{
    let c = cu.clients@[i];
    assert(catchup_client_wf(c, cu.base as int, cu.head_frame()));
    assert(c.next == cu.head_frame() + 1);
    assert(c.sent@ =~= frame_range(c.start + 1, cu.head_frame() + 1));
}

} // verus!
