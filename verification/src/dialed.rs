use vstd::prelude::*;

use crate::chunkq::{pop_tr, push_tr, trunc, ChunkQueue, QueueModel};
use crate::endpoint::Endpoint;
use crate::engine::ReadOutcome;

verus! {

/// Mathematical state of a dialed connection.
#[verifier::ext_equal]
pub struct DialedModel {
    pub local: Endpoint,
    pub peer: Endpoint,
    pub inbound: QueueModel,
    pub producer_alive: bool,
}

/// A dialed virtual connection: its own socket is filtered to one peer
/// at the OS level, and a private reader task feeds its inbound queue —
/// structurally the same consumption contract as an accepted
/// connection, but with no shared table and no cleanup channel.
pub struct DialedConn {
    local: Endpoint,
    peer: Endpoint,
    inbound: ChunkQueue,
    producer_alive: bool,
}

impl View for DialedConn {
    type V = DialedModel;

    closed spec fn view(&self) -> DialedModel {
        DialedModel {
            local: self.local,
            peer: self.peer,
            inbound: self.inbound@,
            producer_alive: self.producer_alive,
        }
    }
}

impl DialedConn {
    /// A freshly dialed connection: empty queue, reader task running.
    pub fn new(local: Endpoint, peer: Endpoint) -> (c: DialedConn)
        ensures
            c@ == (DialedModel {
                local,
                peer,
                inbound: QueueModel::empty(),
                producer_alive: true,
            }),
            c@.inbound.wf(),
    {
        DialedConn { local, peer, inbound: ChunkQueue::new(), producer_alive: true }
    }

    pub fn local_addr(&self) -> (r: Endpoint)
        ensures
            r == self@.local,
    {
        self.local
    }

    pub fn peer_addr(&self) -> (r: Endpoint)
        ensures
            r == self@.peer,
    {
        self.peer
    }

    /// The private reader task's step: one received datagram becomes one
    /// queued chunk. A full queue takes nothing and blocks only this
    /// connection's own intake — there is no shared path to stall.
    pub fn push_datagram(&mut self, payload: Vec<u8>) -> (ok: bool)
        requires
            old(self)@.inbound.wf(),
        ensures
            final(self)@.inbound.wf(),
            old(self)@.inbound.is_full() ==> !ok && final(self)@ == old(self)@,
            !old(self)@.inbound.is_full() ==> ok && final(self)@ == (DialedModel {
                inbound: push_tr(old(self)@.inbound, payload@),
                ..old(self)@
            }),
    {
        if self.inbound.len() >= crate::CHANNEL_LEN {
            false
        } else {
            self.inbound.push(payload);
            true
        }
    }

    /// The reader task exiting (socket error, or the connection being
    /// torn down): no further chunks will arrive.
    pub fn producer_gone(&mut self)
        ensures
            final(self)@ == (DialedModel { producer_alive: false, ..old(self)@ }),
    {
        self.producer_alive = false;
    }

    /// One read: identical semantics to the accepted flavor — the next
    /// chunk cut to the destination's capacity, pending while the reader
    /// task lives, broken pipe once it is gone.
    pub fn read(&mut self, dest_cap: usize) -> (r: ReadOutcome)
        requires
            old(self)@.inbound.wf(),
        ensures
            final(self)@.inbound.wf(),
            old(self)@.inbound.pending.len() > 0 ==> (r matches ReadOutcome::Data(out) && out@
                == trunc(old(self)@.inbound.pending[0], dest_cap as nat) && final(self)@
                == (DialedModel { inbound: pop_tr(old(self)@.inbound), ..old(self)@ })),
            old(self)@.inbound.pending.len() == 0 && old(self)@.producer_alive ==> r
                is WouldBlock && final(self)@ == old(self)@,
            old(self)@.inbound.pending.len() == 0 && !old(self)@.producer_alive ==> r is Closed
                && final(self)@ == old(self)@,
    {
        if self.inbound.len() > 0 {
            let out = self.inbound.read_truncated(dest_cap);
            ReadOutcome::Data(out)
        } else if self.producer_alive {
            ReadOutcome::WouldBlock
        } else {
            ReadOutcome::Closed
        }
    }
}

} // verus!
