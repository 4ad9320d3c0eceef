use vstd::prelude::*;
use vstd::assert_seqs_equal;

use crate::CHANNEL_LEN;

verus! {

/// Mathematical state of one inbound queue: the chunks still pending,
/// the whole history of chunks ever delivered to it, and how many of
/// those the consumer has already taken.
pub struct QueueModel {
    pub pending: Seq<Seq<u8>>,
    pub history: Seq<Seq<u8>>,
    pub taken: nat,
}

/// A payload cut down to the destination's capacity: the whole payload
/// when it fits, its first `cap` bytes otherwise.
pub open spec fn trunc(payload: Seq<u8>, cap: nat) -> Seq<u8> {
    if cap < payload.len() {
        payload.take(cap as int)
    } else {
        payload
    }
}

impl QueueModel {
    /// The queue holds exactly the delivered-but-unread suffix of its
    /// history, and never more than the channel bound.
    pub open spec fn wf(self) -> bool {
        &&& self.taken + self.pending.len() == self.history.len()
        &&& self.pending =~= self.history.skip(self.taken as int)
        &&& self.pending.len() <= CHANNEL_LEN
    }

    pub open spec fn empty() -> QueueModel {
        QueueModel { pending: Seq::empty(), history: Seq::empty(), taken: 0 }
    }

    pub open spec fn is_full(self) -> bool {
        self.pending.len() >= CHANNEL_LEN
    }
}

/// Delivering one chunk appends it both to the pending queue and to the
/// history; nothing already queued moves.
pub open spec fn push_tr(m: QueueModel, c: Seq<u8>) -> QueueModel {
    QueueModel { pending: m.pending.push(c), history: m.history.push(c), taken: m.taken }
}

/// Consuming one chunk removes the queue head and advances the taken
/// count; the history is never rewritten.
pub open spec fn pop_tr(m: QueueModel) -> QueueModel {
    QueueModel { pending: m.pending.skip(1), history: m.history, taken: (m.taken + 1) as nat }
}

pub proof fn lemma_push_wf(m: QueueModel, c: Seq<u8>)
    requires
        m.wf(),
        !m.is_full(),
    ensures
        push_tr(m, c).wf(),
{
    let m2 = push_tr(m, c);
    assert_seqs_equal!(m2.pending == m2.history.skip(m2.taken as int));
}

pub proof fn lemma_pop_wf(m: QueueModel)
    requires
        m.wf(),
        m.pending.len() > 0,
    ensures
        pop_tr(m).wf(),
{
    let m2 = pop_tr(m);
    assert_seqs_equal!(m2.pending == m2.history.skip(m2.taken as int));
}

/// Every chunk still queued is exactly the chunk that was delivered at
/// the matching point of the history: position `i` of the queue holds
/// delivery number `taken + i`.
pub proof fn lemma_pending_matches_history(m: QueueModel, i: int)
    requires
        m.wf(),
        0 <= i < m.pending.len(),
    ensures
        m.pending[i] == m.history[m.taken + i],
{
}

/// The bounded FIFO of byte chunks behind one virtual connection: one
/// chunk per received datagram, consumed in delivery order.
pub struct ChunkQueue {
    chunks: Vec<Vec<u8>>,
    hist: Ghost<Seq<Seq<u8>>>,
    taken: Ghost<nat>,
}

pub open spec fn seq_views(s: Seq<Vec<u8>>) -> Seq<Seq<u8>> {
    s.map_values(|v: Vec<u8>| v@)
}

impl View for ChunkQueue {
    type V = QueueModel;

    closed spec fn view(&self) -> QueueModel {
        QueueModel { pending: seq_views(self.chunks@), history: self.hist@, taken: self.taken@ }
    }
}

impl ChunkQueue {
    pub fn new() -> (q: ChunkQueue)
        ensures
            q@ == QueueModel::empty(),
            q@.wf(),
    {
        let q = ChunkQueue { chunks: Vec::new(), hist: Ghost(Seq::empty()), taken: Ghost(0) };
        proof {
            assert_seqs_equal!(q@.pending == Seq::<Seq<u8>>::empty());
            assert_seqs_equal!(q@.history.skip(0) == Seq::<Seq<u8>>::empty());
        }
        q
    }

    pub fn len(&self) -> (n: usize)
        ensures
            n == self@.pending.len(),
    {
        self.chunks.len()
    }

    /// The demultiplexer's delivery step: appends one datagram payload
    /// at the tail of the queue.
    pub fn push(&mut self, c: Vec<u8>)
        requires
            old(self)@.wf(),
            !old(self)@.is_full(),
        ensures
            final(self)@ == push_tr(old(self)@, c@),
            final(self)@.wf(),
    {
        let ghost c_view = c@;
        self.chunks.push(c);
        proof {
            self.hist@ = self.hist@.push(c_view);
            assert_seqs_equal!(seq_views(self.chunks@) == seq_views(old(self).chunks@).push(c_view));
            lemma_push_wf(old(self)@, c_view);
        }
    }

    /// The consumer's step: removes and returns the queue head, which is
    /// always the oldest undelivered chunk of the history.
    pub fn pop(&mut self) -> (c: Vec<u8>)
        requires
            old(self)@.wf(),
            old(self)@.pending.len() > 0,
        ensures
            c@ == old(self)@.pending[0],
            c@ == old(self)@.history[old(self)@.taken as int],
            final(self)@ == pop_tr(old(self)@),
            final(self)@.wf(),
    {
        let c = self.chunks.remove(0);
        proof {
            self.taken@ = self.taken@ + 1;
            assert_seqs_equal!(seq_views(self.chunks@) == seq_views(old(self).chunks@).skip(1));
            lemma_pop_wf(old(self)@);
        }
        c
    }

    /// One read of the virtual connection: takes the next chunk and hands
    /// back at most `dest_cap` of its bytes. Whatever did not fit is
    /// discarded with the chunk, never buffered for a later read.
    pub fn read_truncated(&mut self, dest_cap: usize) -> (out: Vec<u8>)
        requires
            old(self)@.wf(),
            old(self)@.pending.len() > 0,
        ensures
            out@ == trunc(old(self)@.pending[0], dest_cap as nat),
            final(self)@ == pop_tr(old(self)@),
            final(self)@.wf(),
    {
        let mut c = self.pop();
        c.truncate(dest_cap);
        c
    }
}

} // verus!
