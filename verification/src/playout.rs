//! Input aggregation: turning independent per-client input streams into a
//! single deterministic, ordered merged stream.
//!
//! The buffer keeps, for every frame newer than `consumed_frame`, the inputs
//! received so far, each row sorted by client id.  Once per clock tick
//! `consume` merges the oldest unconsumed frame — clients that have not
//! contributed are simply absent — and retains the merged result in a bounded
//! playout window so that clients whose acknowledgment lags behind can be
//! re-sent what they missed.

use vstd::prelude::*;

use crate::ClientId;
use crate::Frame;

verus! {

/// Frames retained after merging, to tolerate client lag before eviction.
pub const PLAYOUT_WINDOW: usize = 64;

/// How far ahead of `consumed_frame` an input may arrive before it is
/// dropped; bounds the memory spent on not-yet-merged frames.
pub const INPUT_HORIZON: usize = 64;

/// One merged frame as handed to transport: the frame number and the
/// client-id-ordered contributions.
pub struct MergedFrame {
    pub frame: Frame,
    pub inputs: Vec<(ClientId, Vec<u8>)>,
}

/// The inputs of one frame, as a mathematical sequence of
/// (client, payload bytes) pairs.
pub open spec fn row_view(v: Vec<(ClientId, Vec<u8>)>) -> Seq<(ClientId, Seq<u8>)> {
    Seq::new(v@.len(), |i: int| (v@[i].0, v@[i].1@))
}

/// A stack of frames, each abstracted by `row_view`.
pub open spec fn rows_view(s: Seq<Vec<(ClientId, Vec<u8>)>>) -> Seq<Seq<(ClientId, Seq<u8>)>> {
    Seq::new(s.len(), |i: int| row_view(s[i]))
}

/// A row is strictly sorted by client id: deterministic order, one entry per
/// client.
pub open spec fn row_wf(row: Seq<(ClientId, Seq<u8>)>) -> bool {
    forall|i: int, j: int| 0 <= i < j < row.len() ==> (#[trigger] row[i]).0 < (#[trigger] row[j]).0
}

/// The abstract state of the aggregator: everything it does is a function of
/// this value.
pub struct PlayoutModel {
    /// Newest frame already merged; frames at or below it are immutable.
    pub consumed: Frame,
    /// `pending[i]` holds the inputs so far for frame `consumed + 1 + i`.
    pub pending: Seq<Seq<(ClientId, Seq<u8>)>>,
    /// `past[i]` is the merged frame `consumed - past.len() + 1 + i`.
    pub past: Seq<Seq<(ClientId, Seq<u8>)>>,
}

pub open spec fn model_wf(m: PlayoutModel) -> bool {
    &&& m.pending.len() <= INPUT_HORIZON as int
    &&& m.past.len() <= PLAYOUT_WINDOW as int
    &&& forall|i: int| 0 <= i < m.pending.len() ==> row_wf(#[trigger] m.pending[i])
    &&& forall|i: int| 0 <= i < m.past.len() ==> row_wf(#[trigger] m.past[i])
}

pub open spec fn empty_row() -> Seq<(ClientId, Seq<u8>)> {
    Seq::empty()
}

/// Insert or replace client `c`'s contribution in a sorted row, keeping the
/// sort order.  A later arrival for the same client replaces the earlier one.
pub open spec fn model_upsert(
    row: Seq<(ClientId, Seq<u8>)>,
    c: ClientId,
    d: Seq<u8>,
) -> Seq<(ClientId, Seq<u8>)>
    decreases row.len(),
{
    if row.len() == 0 {
        seq![(c, d)]
    } else if row[0].0 < c {
        seq![row[0]] + model_upsert(row.drop_first(), c, d)
    } else if row[0].0 == c {
        row.update(0, (c, d))
    } else {
        seq![(c, d)] + row
    }
}

/// Remove client `c`'s contribution (its first occurrence; under `row_wf`
/// there is at most one) from a row.
pub open spec fn model_remove_client(
    row: Seq<(ClientId, Seq<u8>)>,
    c: ClientId,
) -> Seq<(ClientId, Seq<u8>)>
    decreases row.len(),
{
    if row.len() == 0 {
        row
    } else if row[0].0 == c {
        row.drop_first()
    } else {
        seq![row[0]] + model_remove_client(row.drop_first(), c)
    }
}

/// What recording one input does to the aggregator: inputs for already-merged
/// frames and inputs beyond the horizon are dropped; otherwise the row of the
/// addressed frame is extended (padding the pending area with empty rows as
/// needed).
pub open spec fn model_insert(m: PlayoutModel, c: ClientId, frame: Frame, d: Seq<u8>) -> PlayoutModel {
    if frame <= m.consumed || frame - m.consumed > INPUT_HORIZON as int {
        m
    } else {
        let k = frame - m.consumed - 1;
        let padded = if k < m.pending.len() {
            m.pending
        } else {
            m.pending + Seq::new((k + 1 - m.pending.len()) as nat, |i: int| empty_row())
        };
        PlayoutModel {
            consumed: m.consumed,
            pending: padded.update(k, model_upsert(padded[k], c, d)),
            past: m.past,
        }
    }
}

/// What one clock tick does: the oldest pending row (empty if none) becomes
/// the merged frame `consumed + 1`, and the playout window slides.
pub open spec fn model_consume(m: PlayoutModel) -> (PlayoutModel, Seq<(ClientId, Seq<u8>)>) {
    let merged = if m.pending.len() > 0 {
        m.pending[0]
    } else {
        empty_row()
    };
    let rest = if m.pending.len() > 0 {
        m.pending.drop_first()
    } else {
        m.pending
    };
    let past1 = m.past.push(merged);
    let past2 = if past1.len() > PLAYOUT_WINDOW as int {
        past1.drop_first()
    } else {
        past1
    };
    (
        PlayoutModel { consumed: (m.consumed + 1) as Frame, pending: rest, past: past2 },
        merged,
    )
}

/// What a disconnect does: every not-yet-merged contribution of the client is
/// purged; merged frames are immutable and keep their history.
pub open spec fn model_disconnect(m: PlayoutModel, c: ClientId) -> PlayoutModel {
    PlayoutModel {
        consumed: m.consumed,
        pending: Seq::new(m.pending.len(), |i: int| model_remove_client(m.pending[i], c)),
        past: m.past,
    }
}

/// An acknowledgment that the retained window can still serve: every frame
/// after `ack` up to `consumed` is in the window.
pub open spec fn can_serve(m: PlayoutModel, ack: Frame) -> bool {
    ack <= m.consumed && m.consumed - ack <= m.past.len()
}

/// The lag policy: distance of an acknowledgment from the merge head, `None`
/// once the client can no longer be kept consistent (the eviction signal).
pub open spec fn lag_of(m: PlayoutModel, ack: Frame) -> Option<u64> {
    if can_serve(m, ack) && m.consumed - ack < PLAYOUT_WINDOW as int {
        Some((m.consumed - ack) as u64)
    } else {
        None
    }
}

/// The retained merged inputs of `frame`, defined when
/// `consumed - past.len() < frame <= consumed`.
pub open spec fn merged_for(m: PlayoutModel, frame: Frame) -> Seq<(ClientId, Seq<u8>)> {
    m.past[m.past.len() - (m.consumed - frame) - 1]
}

pub struct ServerPlayoutBuffer {
    pub consumed_frame: Frame,
    pub pending: Vec<Vec<(ClientId, Vec<u8>)>>,
    pub past: Vec<Vec<(ClientId, Vec<u8>)>>,
}

impl ServerPlayoutBuffer {
    pub open spec fn model(&self) -> PlayoutModel {
        PlayoutModel {
            consumed: self.consumed_frame,
            pending: rows_view(self.pending@),
            past: rows_view(self.past@),
        }
    }

    pub open spec fn wf(&self) -> bool {
        model_wf(self.model())
    }

    pub fn new(start_frame: Frame) -> (r: ServerPlayoutBuffer)
        ensures
            r.wf(),
            r.model() == (PlayoutModel {
                consumed: start_frame,
                pending: Seq::<Seq<(ClientId, Seq<u8>)>>::empty(),
                past: Seq::<Seq<(ClientId, Seq<u8>)>>::empty(),
            }),
    {
        let r = ServerPlayoutBuffer { consumed_frame: start_frame, pending: Vec::new(), past: Vec::new() };
        proof {
            assert(rows_view(r.pending@) =~= Seq::<Seq<(ClientId, Seq<u8>)>>::empty());
            assert(rows_view(r.past@) =~= Seq::<Seq<(ClientId, Seq<u8>)>>::empty());
        }
        r
    }

    /// Record one client's input for one frame.  Duplicates and out-of-order
    /// arrivals are tolerated; arrivals for already-merged frames are dropped
    /// silently.
    pub fn insert_input(&mut self, client: ClientId, frame: Frame, data: Vec<u8>)
        requires
            old(self).wf(),
        ensures
            final(self).wf(),
            final(self).model() == model_insert(old(self).model(), client, frame, data@),
            final(self).consumed_frame == old(self).consumed_frame,
            final(self).past == old(self).past,
    {
        if frame <= self.consumed_frame {
            return;
        }
        let ahead: u64 = frame - self.consumed_frame;
        if ahead > INPUT_HORIZON as u64 {
            return;
        }
        let k: usize = (ahead - 1) as usize;
        let ghost m0 = self.model();
        let ghost padded = if (k as int) < m0.pending.len() {
            m0.pending
        } else {
            m0.pending + Seq::new((k + 1 - m0.pending.len()) as nat, |i: int| empty_row())
        };
        while self.pending.len() <= k
            invariant
                m0.pending.len() == old(self).pending@.len(),
                self.consumed_frame == old(self).consumed_frame,
                self.past == old(self).past,
                m0.pending.len() <= k ==> self.pending@.len() <= k + 1,
                m0.pending.len() > k ==> self.pending@.len() == m0.pending.len(),
                m0.pending.len() <= self.pending@.len(),
                forall|i: int| 0 <= i < m0.pending.len()
                    ==> rows_view(self.pending@)[i] == m0.pending[i],
                forall|i: int| m0.pending.len() <= i < self.pending@.len()
                    ==> rows_view(self.pending@)[i] == empty_row(),
            decreases k + 1 - self.pending@.len(),
        {
            let ghost prev = self.pending@;
            self.pending.push(Vec::new());
            proof {
                assert forall|i: int| 0 <= i < m0.pending.len()
                    implies rows_view(self.pending@)[i] == m0.pending[i] by {
                    assert(self.pending@[i] == prev[i]);
                    assert(rows_view(prev)[i] == m0.pending[i]);
                }
                assert forall|i: int| m0.pending.len() <= i < self.pending@.len()
                    implies rows_view(self.pending@)[i] == empty_row() by {
                    if i < prev.len() {
                        assert(self.pending@[i] == prev[i]);
                        assert(rows_view(prev)[i] == empty_row());
                    } else {
                        assert(row_view(self.pending@[i]) =~= empty_row());
                    }
                }
            }
        }
        proof {
            assert(rows_view(self.pending@) =~= padded);
        }
        let ghost row0 = rows_view(self.pending@)[k as int];
        let mut pos: usize = 0;
        let row_len = self.pending[k].len();
        while pos < row_len && self.pending[k][pos].0 < client
            invariant
                row_len == self.pending@[k as int]@.len(),
                k < self.pending@.len(),
                pos <= row_len,
                forall|i: int| 0 <= i < pos ==> (#[trigger] row0[i]).0 < client,
                row0 == row_view(self.pending@[k as int]),
            decreases row_len - pos,
        {
            pos += 1;
        }
        let replace = pos < row_len && {
            let found = self.pending[k][pos].0 == client;
            found
        };
        proof {
            assert(row_wf(row0));
            lemma_upsert_at(row0, client, data@, pos as int);
        }
        let ghost pvec = self.pending@;
        if replace {
            let row = &mut self.pending[k];
            row.remove(pos);
            row.insert(pos, (client, data));
            proof {
                assert(row_view(self.pending@[k as int]) =~= row0.update(pos as int, (client, data@)));
            }
        } else {
            let row = &mut self.pending[k];
            row.insert(pos, (client, data));
            proof {
                assert(row_view(self.pending@[k as int]) =~= row0.insert(pos as int, (client, data@)));
            }
        }
        proof {
            assert forall|i: int| 0 <= i < self.pending@.len() && i != k as int
                implies rows_view(self.pending@)[i] == padded[i] by {
                assert(self.pending@[i] == pvec[i]);
                assert(rows_view(pvec)[i] == padded[i]);
            }
            assert(rows_view(self.pending@) =~= padded.update(
                k as int,
                model_upsert(padded[k as int], client, data@),
            ));
            let m2 = model_insert(m0, client, frame, data@);
            assert(self.model().pending =~= m2.pending);
            lemma_upsert_wf(row0, client, data@);
            assert forall|i: int| 0 <= i < self.model().pending.len()
                implies row_wf(#[trigger] self.model().pending[i]) by {
                if i != k as int {
                    if i < m0.pending.len() {
                        assert(self.model().pending[i] == m0.pending[i]);
                    } else {
                        assert(self.model().pending[i] == empty_row());
                    }
                }
            }
        }
    }

    /// Merge the oldest unconsumed frame and slide the playout window.  The
    /// merge never waits for a missing contribution: absent clients are
    /// simply not in the merged frame.
    pub fn consume(&mut self) -> (merged: Vec<(ClientId, Vec<u8>)>)
        requires
            old(self).wf(),
            old(self).consumed_frame < u64::MAX,
        ensures
            final(self).wf(),
            final(self).model() == model_consume(old(self).model()).0,
            row_view(merged) == model_consume(old(self).model()).1,
            final(self).consumed_frame == old(self).consumed_frame + 1,
    {
        let ghost m0 = self.model();
        let merged: Vec<(ClientId, Vec<u8>)> = if self.pending.len() > 0 {
            self.pending.remove(0)
        } else {
            Vec::new()
        };
        proof {
            if m0.pending.len() > 0 {
                assert(rows_view(self.pending@) =~= m0.pending.drop_first());
                assert(row_view(merged) == m0.pending[0]);
            } else {
                assert(rows_view(self.pending@) =~= m0.pending);
                assert(row_view(merged) =~= empty_row());
            }
        }
        let copy = copy_row(&merged);
        let ghost past_before = self.past@;
        self.past.push(copy);
        proof {
            assert(rows_view(self.past@) =~= rows_view(past_before).push(row_view(merged)));
        }
        if self.past.len() > PLAYOUT_WINDOW {
            let ghost grown = self.past@;
            self.past.remove(0);
            proof {
                assert(rows_view(self.past@) =~= rows_view(grown).drop_first());
            }
        }
        self.consumed_frame = self.consumed_frame + 1;
        merged
    }

    /// How far behind `consumed_frame` an acknowledgment is, or `None` once
    /// it left the retained window (the eviction signal).
    pub fn lag(&self, ack: Frame) -> (r: Option<u64>)
        ensures
            r == lag_of(self.model(), ack),
    {
        if ack <= self.consumed_frame {
            let dist: u64 = self.consumed_frame - ack;
            if dist <= self.past.len() as u64 && dist < PLAYOUT_WINDOW as u64 {
                Some(dist)
            } else {
                None
            }
        } else {
            None
        }
    }

    /// The retained merged frames newer than `ack`, oldest first: what a
    /// client with that acknowledgment still has to be sent.
    pub fn frames_since(&self, ack: Frame) -> (r: Vec<MergedFrame>)
        requires
            self.wf(),
            can_serve(self.model(), ack),
        ensures
            r@.len() == self.consumed_frame - ack,
            forall|j: int| 0 <= j < r@.len()
                ==> (#[trigger] r@[j]).frame == ack + 1 + j
                    && row_view(r@[j].inputs) == merged_for(self.model(), (ack + 1 + j) as Frame),
    {
        let count: u64 = self.consumed_frame - ack;
        let mut r: Vec<MergedFrame> = Vec::new();
        let mut j: u64 = 0;
        while j < count
            invariant
                self.wf(),
                can_serve(self.model(), ack),
                count == self.consumed_frame - ack,
                j <= count,
                r@.len() == j,
                forall|t: int| 0 <= t < r@.len()
                    ==> (#[trigger] r@[t]).frame == ack + 1 + t
                        && row_view(r@[t].inputs) == merged_for(self.model(), (ack + 1 + t) as Frame),
            decreases count - j,
        {
            let idx: usize = (self.past.len() as u64 - (count - j)) as usize;
            let inputs = copy_row(&self.past[idx]);
            r.push(MergedFrame { frame: ack + 1 + j, inputs });
            j += 1;
        }
        r
    }

    /// Whether any not-yet-merged frame still holds a contribution of
    /// `client`.
    pub fn has_pending_for(&self, client: ClientId) -> (r: bool)
        ensures
            r == exists|i: int, j: int|
                0 <= i < self.model().pending.len() && 0 <= j < self.model().pending[i].len()
                    && (#[trigger] self.model().pending[i][j]).0 == client,
    {
        let n = self.pending.len();
        let mut i: usize = 0;
        while i < n
            invariant
                n == self.pending@.len(),
                i <= n,
                forall|a: int, b: int|
                    0 <= a < i && 0 <= b < self.model().pending[a].len()
                        ==> (#[trigger] self.model().pending[a][b]).0 != client,
            decreases n - i,
        {
            let row_len = self.pending[i].len();
            let mut j: usize = 0;
            while j < row_len
                invariant
                    i < self.pending@.len(),
                    row_len == self.pending@[i as int]@.len(),
                    j <= row_len,
                    forall|b: int| 0 <= b < j
                        ==> (#[trigger] self.model().pending[i as int][b]).0 != client,
                decreases row_len - j,
            {
                if self.pending[i][j].0 == client {
                    proof {
                        assert(self.model().pending[i as int][j as int].0 == client);
                    }
                    return true;
                }
                j += 1;
            }
            i += 1;
        }
        false
    }

    /// Purge every unmerged contribution of a disconnected client; future
    /// merges simply see it absent.  Calling it again is a no-op.
    pub fn disconnected(&mut self, client: ClientId)
        requires
            old(self).wf(),
        ensures
            final(self).wf(),
            final(self).model() == model_disconnect(old(self).model(), client),
            final(self).consumed_frame == old(self).consumed_frame,
            final(self).past == old(self).past,
            forall|i: int, j: int|
                0 <= i < final(self).model().pending.len()
                    && 0 <= j < final(self).model().pending[i].len()
                    ==> (#[trigger] final(self).model().pending[i][j]).0 != client,
    {
        let ghost m0 = self.model();
        let n = self.pending.len();
        let mut i: usize = 0;
        while i < n
            invariant
                old(self).wf(),
                m0 == old(self).model(),
                self.consumed_frame == old(self).consumed_frame,
                self.past == old(self).past,
                n == self.pending@.len(),
                n == m0.pending.len(),
                i <= n,
                forall|t: int| 0 <= t < i
                    ==> rows_view(self.pending@)[t] == model_remove_client(m0.pending[t], client),
                forall|t: int| i <= t < n ==> rows_view(self.pending@)[t] == m0.pending[t],
            decreases n - i,
        {
            let ghost row0 = rows_view(self.pending@)[i as int];
            let mut pos: usize = 0;
            let row_len = self.pending[i].len();
            let mut found = false;
            while pos < row_len && !found
                invariant
                    row_len == self.pending@[i as int]@.len(),
                    i < self.pending@.len(),
                    pos <= row_len,
                    row0 == row_view(self.pending@[i as int]),
                    !found ==> forall|t: int| 0 <= t < pos ==> (#[trigger] row0[t]).0 != client,
                    found ==> pos < row_len && row0[pos as int].0 == client,
                decreases row_len - pos + (if found { 0int } else { 1int }),
            {
                if self.pending[i][pos].0 == client {
                    found = true;
                } else {
                    pos += 1;
                }
            }
            let ghost pvec = self.pending@;
            if found {
                let row = &mut self.pending[i];
                row.remove(pos);
                proof {
                    assert(row0 == m0.pending[i as int]);
                    assert(row_wf(row0));
                    lemma_remove_at(row0, client, pos as int);
                    assert(row_view(self.pending@[i as int]) =~= row0.remove(pos as int));
                    assert forall|t: int| 0 <= t < i + 1
                        implies rows_view(self.pending@)[t]
                            == model_remove_client(m0.pending[t], client) by {
                        if t < i {
                            assert(self.pending@[t] == pvec[t]);
                            assert(rows_view(pvec)[t] == model_remove_client(m0.pending[t], client));
                        }
                    }
                    assert forall|t: int| i + 1 <= t < n
                        implies rows_view(self.pending@)[t] == m0.pending[t] by {
                        assert(self.pending@[t] == pvec[t]);
                        assert(rows_view(pvec)[t] == m0.pending[t]);
                    }
                }
            } else {
                proof {
                    assert(pos == row_len);
                    lemma_remove_absent(row0, client);
                }
            }
            i += 1;
        }
        proof {
            assert(rows_view(self.pending@) =~= model_disconnect(m0, client).pending);
            assert forall|t: int| 0 <= t < self.model().pending.len()
                implies row_wf(#[trigger] self.model().pending[t]) by {
                lemma_remove_client_wf(m0.pending[t], client);
            }
            assert forall|t: int, j: int|
                0 <= t < self.model().pending.len() && 0 <= j < self.model().pending[t].len()
                implies (#[trigger] self.model().pending[t][j]).0 != client by {
                lemma_remove_client_wf(m0.pending[t], client);
            }
        }
    }
}

/// Byte-for-byte copy with an exact contract (a cloned nested vector says
/// less about its view than this does).
pub fn copy_bytes(src: &Vec<u8>) -> (r: Vec<u8>)
    ensures
        r@ == src@,
{
    let mut r: Vec<u8> = Vec::new();
    let mut i: usize = 0;
    while i < src.len()
        invariant
            i <= src@.len(),
            r@ == src@.subrange(0, i as int),
        decreases src@.len() - i,
    {
        r.push(src[i]);
        i += 1;
        proof {
            assert(r@ =~= src@.subrange(0, i as int));
        }
    }
    proof {
        assert(r@ =~= src@);
    }
    r
}

/// Copy a row of inputs, preserving its abstraction exactly.
pub fn copy_row(src: &Vec<(ClientId, Vec<u8>)>) -> (r: Vec<(ClientId, Vec<u8>)>)
    ensures
        row_view(r) == row_view(*src),
        r@.len() == src@.len(),
{
    let mut r: Vec<(ClientId, Vec<u8>)> = Vec::new();
    let mut i: usize = 0;
    while i < src.len()
        invariant
            i <= src@.len(),
            r@.len() == i,
            forall|t: int| 0 <= t < i
                ==> (#[trigger] r@[t]).0 == src@[t].0 && r@[t].1@ == src@[t].1@,
        decreases src@.len() - i,
    {
        let id = src[i].0;
        let data = copy_bytes(&src[i].1);
        r.push((id, data));
        i += 1;
    }
    proof {
        assert(row_view(r) =~= row_view(*src));
    }
    r
}

/// Where the scan of a sorted row stops is where `model_upsert` acts.
proof fn lemma_upsert_at(row: Seq<(ClientId, Seq<u8>)>, c: ClientId, d: Seq<u8>, pos: int)
    requires
        row_wf(row),
        0 <= pos <= row.len(),
        forall|i: int| 0 <= i < pos ==> (#[trigger] row[i]).0 < c,
        pos < row.len() ==> row[pos].0 >= c,
    ensures
        pos < row.len() && row[pos].0 == c
            ==> model_upsert(row, c, d) == row.update(pos, (c, d)),
        (pos == row.len() || row[pos].0 > c)
            ==> model_upsert(row, c, d) == row.insert(pos, (c, d)),
    decreases row.len(),
{
    if row.len() == 0 {
        assert(model_upsert(row, c, d) =~= row.insert(0, (c, d)));
    } else if pos == 0 {
        if row[0].0 == c {
        } else if row[0].0 > c {
            assert(model_upsert(row, c, d) =~= row.insert(0, (c, d)));
        }
    } else {
        assert(row[0].0 < c);
        let rest = row.drop_first();
        assert(row_wf(rest)) by {
            assert(forall|i: int, j: int| 0 <= i < j < rest.len()
                ==> (#[trigger] rest[i]).0 == row[i + 1].0 && (#[trigger] rest[j]).0 == row[j + 1].0);
        }
        lemma_upsert_at(rest, c, d, pos - 1);
        if pos < row.len() && row[pos].0 == c {
            assert(rest[pos - 1].0 == c);
            assert(model_upsert(row, c, d) =~= row.update(pos, (c, d)));
        } else {
            assert(model_upsert(row, c, d) =~= row.insert(pos, (c, d)));
        }
    }
}

/// Upserting keeps a row strictly sorted by client id.
proof fn lemma_upsert_wf(row: Seq<(ClientId, Seq<u8>)>, c: ClientId, d: Seq<u8>)
    requires
        row_wf(row),
    ensures
        row_wf(model_upsert(row, c, d)),
        model_upsert(row, c, d).len() >= row.len(),
        forall|i: int| 0 <= i < model_upsert(row, c, d).len()
            ==> (#[trigger] model_upsert(row, c, d)[i]).0 == c
                || exists|j: int| 0 <= j < row.len() && row[j] == model_upsert(row, c, d)[i],
    decreases row.len(),
{
    let out = model_upsert(row, c, d);
    if row.len() == 0 {
    } else if row[0].0 < c {
        let rest = row.drop_first();
        assert(row_wf(rest)) by {
            assert(forall|i: int, j: int| 0 <= i < j < rest.len()
                ==> (#[trigger] rest[i]).0 == row[i + 1].0 && (#[trigger] rest[j]).0 == row[j + 1].0);
        }
        lemma_upsert_wf(rest, c, d);
        let sub = model_upsert(rest, c, d);
        assert(out == seq![row[0]] + sub);
        assert forall|i: int, j: int| 0 <= i < j < out.len()
            implies (#[trigger] out[i]).0 < (#[trigger] out[j]).0 by {
            if i == 0 {
                assert(out[j] == sub[j - 1]);
                if sub[j - 1].0 == c {
                } else {
                    let w = choose|w: int| 0 <= w < rest.len() && rest[w] == sub[j - 1];
                    assert(rest[w].0 == row[w + 1].0);
                }
            } else {
                assert(out[i] == sub[i - 1] && out[j] == sub[j - 1]);
            }
        }
        assert forall|i: int| 0 <= i < out.len()
            implies (#[trigger] out[i]).0 == c
                || exists|j: int| 0 <= j < row.len() && row[j] == out[i] by {
            if i == 0 {
                assert(row[0] == out[i]);
            } else {
                assert(out[i] == sub[i - 1]);
                if sub[i - 1].0 != c {
                    let w = choose|w: int| 0 <= w < rest.len() && rest[w] == sub[i - 1];
                    assert(row[w + 1] == out[i]);
                }
            }
        }
    } else if row[0].0 == c {
        assert forall|i: int| 0 <= i < out.len()
            implies (#[trigger] out[i]).0 == c
                || exists|j: int| 0 <= j < row.len() && row[j] == out[i] by {
            if i != 0 {
                assert(row[i] == out[i]);
            }
        }
    } else {
        assert forall|i: int| 0 <= i < out.len()
            implies (#[trigger] out[i]).0 == c
                || exists|j: int| 0 <= j < row.len() && row[j] == out[i] by {
            if i != 0 {
                assert(row[i - 1] == out[i]);
            }
        }
    }
}

/// Where the scan for the (unique) occurrence of `c` stops is where
/// `model_remove_client` acts.
proof fn lemma_remove_at(row: Seq<(ClientId, Seq<u8>)>, c: ClientId, pos: int)
    requires
        row_wf(row),
        0 <= pos < row.len(),
        row[pos].0 == c,
    ensures
        model_remove_client(row, c) == row.remove(pos),
    decreases row.len(),
{
    if pos == 0 {
        assert(model_remove_client(row, c) =~= row.remove(0));
    } else {
        assert(row[0].0 < row[pos].0);
        let rest = row.drop_first();
        assert(row_wf(rest)) by {
            assert(forall|i: int, j: int| 0 <= i < j < rest.len()
                ==> (#[trigger] rest[i]).0 == row[i + 1].0 && (#[trigger] rest[j]).0 == row[j + 1].0);
        }
        assert(rest[pos - 1].0 == c);
        lemma_remove_at(rest, c, pos - 1);
        assert(model_remove_client(row, c) =~= row.remove(pos));
    }
}

/// Removing a client that never contributed changes nothing.
proof fn lemma_remove_absent(row: Seq<(ClientId, Seq<u8>)>, c: ClientId)
    requires
        forall|i: int| 0 <= i < row.len() ==> (#[trigger] row[i]).0 != c,
    ensures
        model_remove_client(row, c) == row,
    decreases row.len(),
{
    if row.len() == 0 {
    } else {
        assert(forall|i: int| 0 <= i < row.drop_first().len()
            ==> (#[trigger] row.drop_first()[i]).0 != c);
        lemma_remove_absent(row.drop_first(), c);
        assert(model_remove_client(row, c) =~= row);
    }
}

/// Removal keeps a row sorted and leaves no trace of the removed client.
proof fn lemma_remove_client_wf(row: Seq<(ClientId, Seq<u8>)>, c: ClientId)
    requires
        row_wf(row),
    ensures
        row_wf(model_remove_client(row, c)),
        forall|i: int| 0 <= i < model_remove_client(row, c).len()
            ==> (#[trigger] model_remove_client(row, c)[i]).0 != c,
    decreases row.len(),
{
    let out = model_remove_client(row, c);
    if row.len() == 0 {
    } else if row[0].0 == c {
        assert forall|i: int| 0 <= i < out.len()
            implies (#[trigger] out[i]).0 != c by {
            assert(out[i] == row[i + 1]);
            assert(row[0].0 < row[i + 1].0);
        }
        assert forall|i: int, j: int| 0 <= i < j < out.len()
            implies (#[trigger] out[i]).0 < (#[trigger] out[j]).0 by {
            assert(out[i] == row[i + 1] && out[j] == row[j + 1]);
        }
    } else {
        let rest = row.drop_first();
        assert(row_wf(rest)) by {
            assert(forall|i: int, j: int| 0 <= i < j < rest.len()
                ==> (#[trigger] rest[i]).0 == row[i + 1].0 && (#[trigger] rest[j]).0 == row[j + 1].0);
        }
        lemma_remove_client_wf(rest, c);
        let sub = model_remove_client(rest, c);
        assert(out == seq![row[0]] + sub);
        assert forall|i: int| 0 <= i < out.len()
            implies (#[trigger] out[i]).0 != c by {
            if i > 0 {
                assert(out[i] == sub[i - 1]);
            }
        }
        assert forall|i: int, j: int| 0 <= i < j < out.len()
            implies (#[trigger] out[i]).0 < (#[trigger] out[j]).0 by {
            if i > 0 {
                assert(out[i] == sub[i - 1] && out[j] == sub[j - 1]);
            } else {
                assert(out[j] == sub[j - 1]);
                lemma_remove_member(rest, c, j - 1);
                let w = choose|w: int| 0 <= w < rest.len() && rest[w] == sub[j - 1];
                assert(rest[w].0 == row[w + 1].0);
            }
        }
    }
}


/// A client absent from every pending row stays absent when another client
/// is purged (a purge only removes entries).
pub proof fn lemma_disconnect_preserves_absence(m: PlayoutModel, c: ClientId, x: ClientId)
    requires
        forall|i: int, j: int| 0 <= i < m.pending.len() && 0 <= j < m.pending[i].len()
            ==> (#[trigger] m.pending[i][j]).0 != x,
    ensures
        forall|i: int, j: int|
            0 <= i < model_disconnect(m, c).pending.len()
                && 0 <= j < model_disconnect(m, c).pending[i].len()
                ==> (#[trigger] model_disconnect(m, c).pending[i][j]).0 != x,
{
    let out = model_disconnect(m, c);
    assert forall|i: int, j: int|
        0 <= i < out.pending.len() && 0 <= j < out.pending[i].len()
        implies (#[trigger] out.pending[i][j]).0 != x by {
        lemma_remove_member(m.pending[i], c, j);
        let w = choose|w: int|
            0 <= w < m.pending[i].len() && m.pending[i][w] == model_remove_client(
                m.pending[i],
                c,
            )[j];
        assert(m.pending[i][w].0 != x);
    }
}

/// Every entry of a removal's result was an entry of the row.
proof fn lemma_remove_member(row: Seq<(ClientId, Seq<u8>)>, c: ClientId, i: int)
    requires
        0 <= i < model_remove_client(row, c).len(),
    ensures
        exists|j: int| 0 <= j < row.len()
            && row[j] == model_remove_client(row, c)[i],
    decreases row.len(),
{
    let out = model_remove_client(row, c);
    if row.len() == 0 {
    } else if row[0].0 == c {
        assert(row[i + 1] == out[i]);
    } else {
        if i == 0 {
            assert(row[0] == out[0]);
        } else {
            lemma_remove_member(row.drop_first(), c, i - 1);
            let j = choose|j: int| 0 <= j < row.drop_first().len()
                && row.drop_first()[j] == model_remove_client(row.drop_first(), c)[i - 1];
            assert(row[j + 1] == out[i]);
        }
    }
}


/// One aggregator operation, as the orchestrator feeds them.
pub enum PlayoutOp {
    Insert { client: ClientId, frame: Frame, data: Seq<u8> },
    Consume,
    Disconnect { client: ClientId },
}

/// One operation applied to the abstract state, together with the merged
/// frames (none, or exactly one) it emits.
pub open spec fn model_step(m: PlayoutModel, op: PlayoutOp) -> (PlayoutModel, Seq<Seq<(ClientId, Seq<u8>)>>) {
    match op {
        PlayoutOp::Insert { client, frame, data } => (model_insert(m, client, frame, data), Seq::empty()),
        PlayoutOp::Consume => (model_consume(m).0, seq![model_consume(m).1]),
        PlayoutOp::Disconnect { client } => (model_disconnect(m, client), Seq::empty()),
    }
}

/// A whole run: the final state and the concatenated merged stream.
pub open spec fn model_run(m: PlayoutModel, ops: Seq<PlayoutOp>) -> (PlayoutModel, Seq<Seq<(ClientId, Seq<u8>)>>)
    decreases ops.len(),
{
    if ops.len() == 0 {
        (m, Seq::empty())
    } else {
        let first = model_step(m, ops[0]);
        let rest = model_run(first.0, ops.drop_first());
        (rest.0, first.1 + rest.1)
    }
}

/// How many clock ticks a run contains.
pub open spec fn count_consumes(ops: Seq<PlayoutOp>) -> int
    decreases ops.len(),
{
    if ops.len() == 0 {
        0
    } else {
        (match ops[0] {
            PlayoutOp::Consume => 1int,
            _ => 0int,
        }) + count_consumes(ops.drop_first())
    }
}

pub proof fn lemma_count_consumes_bounds(ops: Seq<PlayoutOp>)
    ensures
        0 <= count_consumes(ops) <= ops.len(),
    decreases ops.len(),
{
    if ops.len() > 0 {
        lemma_count_consumes_bounds(ops.drop_first());
    }
}

/// Law (determinism): every aggregator operation is a function of the
/// abstract state, so two runs fed the identical operation sequence from the
/// identical state produce the identical merged stream, byte for byte.
pub proof fn lemma_playout_deterministic(
    m1: PlayoutModel,
    m2: PlayoutModel,
    ops1: Seq<PlayoutOp>,
    ops2: Seq<PlayoutOp>,
)
    requires
        m1 == m2,
        ops1 == ops2,
    ensures
        model_run(m1, ops1) == model_run(m2, ops2),
{
}

/// A single operation keeps the aggregator well formed, and anything it
/// emits is a client-id-sorted merged frame.
pub proof fn lemma_model_step_wf(m: PlayoutModel, op: PlayoutOp)
    requires
        model_wf(m),
    ensures
        model_wf(model_step(m, op).0),
        forall|i: int| 0 <= i < model_step(m, op).1.len()
            ==> row_wf(#[trigger] model_step(m, op).1[i]),
{
    match op {
        PlayoutOp::Insert { client, frame, data } => {
            lemma_model_insert_wf(m, client, frame, data);
        }
        PlayoutOp::Consume => {
            let (m2, merged) = model_consume(m);
            if m.pending.len() > 0 {
                assert(merged == m.pending[0]);
                assert(row_wf(m.pending[0]));
                assert forall|i: int| 0 <= i < m2.pending.len()
                    implies row_wf(#[trigger] m2.pending[i]) by {
                    assert(m2.pending[i] == m.pending[i + 1]);
                }
            }
            let past1 = m.past.push(merged);
            assert forall|i: int| 0 <= i < past1.len()
                implies row_wf(#[trigger] past1[i]) by {
                if i < m.past.len() {
                    assert(past1[i] == m.past[i]);
                }
            }
            assert forall|i: int| 0 <= i < m2.past.len()
                implies row_wf(#[trigger] m2.past[i]) by {
                if past1.len() > PLAYOUT_WINDOW as int {
                    assert(m2.past[i] == past1[i + 1]);
                }
            }
            assert(model_step(m, op).1 == seq![merged]);
            assert(forall|i: int| 0 <= i < model_step(m, op).1.len()
                ==> model_step(m, op).1[i] == merged);
        }
        PlayoutOp::Disconnect { client } => {
            let m2 = model_disconnect(m, client);
            assert forall|i: int| 0 <= i < m2.pending.len()
                implies row_wf(#[trigger] m2.pending[i]) by {
                lemma_remove_client_wf(m.pending[i], client);
            }
        }
    }
}

/// Recording an input keeps the aggregator well formed.
pub proof fn lemma_model_insert_wf(m: PlayoutModel, c: ClientId, frame: Frame, d: Seq<u8>)
    requires
        model_wf(m),
    ensures
        model_wf(model_insert(m, c, frame, d)),
{
    if frame <= m.consumed || frame - m.consumed > INPUT_HORIZON as int {
    } else {
        let k = frame - m.consumed - 1;
        let padded = if k < m.pending.len() {
            m.pending
        } else {
            m.pending + Seq::new((k + 1 - m.pending.len()) as nat, |i: int| empty_row())
        };
        assert forall|i: int| 0 <= i < padded.len() implies row_wf(#[trigger] padded[i]) by {
            if i < m.pending.len() {
                assert(padded[i] == m.pending[i]);
            } else {
                assert(padded[i] == empty_row());
            }
        }
        lemma_upsert_wf(padded[k], c, d);
        let out = model_insert(m, c, frame, d);
        assert forall|i: int| 0 <= i < out.pending.len()
            implies row_wf(#[trigger] out.pending[i]) by {
            if i != k {
                assert(out.pending[i] == padded[i]);
            }
        }
    }
}

/// Law (deterministic order within a frame): every merged frame a run
/// emits from a well-formed state lists its contributions in strictly
/// ascending client-id order, whatever order the inputs arrived in.
pub proof fn lemma_run_outputs_sorted(m: PlayoutModel, ops: Seq<PlayoutOp>)
    requires
        model_wf(m),
    ensures
        model_wf(model_run(m, ops).0),
        forall|i: int| 0 <= i < model_run(m, ops).1.len()
            ==> row_wf(#[trigger] model_run(m, ops).1[i]),
    decreases ops.len(),
{
    if ops.len() > 0 {
        let first = model_step(m, ops[0]);
        lemma_model_step_wf(m, ops[0]);
        lemma_run_outputs_sorted(first.0, ops.drop_first());
        let rest = model_run(first.0, ops.drop_first());
        assert forall|i: int| 0 <= i < model_run(m, ops).1.len()
            implies row_wf(#[trigger] model_run(m, ops).1[i]) by {
            if i < first.1.len() {
                assert(model_run(m, ops).1[i] == first.1[i]);
            } else {
                assert(model_run(m, ops).1[i] == rest.1[i - first.1.len()]);
            }
        }
    }
}

/// Law (no frame gaps): a run emits exactly one merged frame per clock tick
/// and the consumed counter advances by exactly that count, so the merged
/// stream covers every frame number from the first consumed to the last,
/// once each, with no skips.
pub proof fn lemma_no_frame_gaps(m: PlayoutModel, ops: Seq<PlayoutOp>)
    requires
        m.consumed + count_consumes(ops) <= u64::MAX,
    ensures
        model_run(m, ops).0.consumed == m.consumed + count_consumes(ops),
        model_run(m, ops).1.len() == count_consumes(ops),
    decreases ops.len(),
{
    lemma_count_consumes_bounds(ops);
    if ops.len() > 0 {
        lemma_count_consumes_bounds(ops.drop_first());
        let first = model_step(m, ops[0]);
        lemma_no_frame_gaps(first.0, ops.drop_first());
    }
}

/// Law (missing-input liveness): the tick merges the due frame even when a
/// playing client contributed nothing for it.  The contributions that are
/// there — here client `b`'s — are merged unchanged, the absent client `a`
/// is simply not represented, and the merge head still advances.
pub proof fn lemma_missing_input_liveness(
    m: PlayoutModel,
    a: ClientId,
    b: ClientId,
    d: Seq<u8>,
    j: int,
)
    requires
        model_wf(m),
        m.consumed < u64::MAX,
        m.pending.len() > 0,
        0 <= j < m.pending[0].len(),
        m.pending[0][j] == (b, d),
        forall|t: int| 0 <= t < m.pending[0].len() ==> (#[trigger] m.pending[0][t]).0 != a,
    ensures
        model_consume(m).0.consumed == m.consumed + 1,
        model_consume(m).1[j] == (b, d),
        forall|t: int| 0 <= t < model_consume(m).1.len()
            ==> (#[trigger] model_consume(m).1[t]).0 != a,
{
}

} // verus!
