use vstd::prelude::*;
use vstd::assert_seqs_equal;

use crate::chunkq::{lemma_push_wf, pop_tr, push_tr, trunc, ChunkQueue, QueueModel};
use crate::endpoint::Endpoint;
use crate::CHANNEL_LEN;

verus! {

/// What one routing step of the demultiplexing loop did with a datagram.
#[derive(PartialEq, Eq, Structural, Clone, Copy, Debug)]
pub enum DeliverOutcome {
    /// Pushed onto a known peer's inbound queue.
    Delivered,
    /// First contact: a fresh connection was registered and queued for accept.
    Accepted,
    /// The table entry was stale (consumer gone): entry removed, datagram dropped.
    StaleDropped,
    /// Unknown peer while the accept consumer is gone: datagram discarded,
    /// nothing registered.
    Refused,
    /// The target bounded queue is full: the whole intake blocks and the
    /// datagram stays unconsumed, stalling every peer behind it.
    Stalled,
}

/// What one read on a virtual connection yielded.
pub enum ReadOutcome {
    /// The next queued payload, cut down to the destination's capacity.
    Data(Vec<u8>),
    /// Nothing queued yet, but the producer side is still registered.
    WouldBlock,
    /// Nothing queued and the producer side is gone: broken pipe.
    Closed,
}

/// One row of the peer channel table: the sending half of the inbound
/// queue that serves this endpoint, named by connection index.
#[derive(PartialEq, Eq, Structural, Clone, Copy, Debug)]
pub struct TableEntry {
    pub endpoint: Endpoint,
    pub conn: usize,
}

/// One accepted virtual connection: its peer endpoint, its inbound
/// queue, and whether its consumer still holds the handle.
pub struct Conn {
    pub endpoint: Endpoint,
    pub inbound: ChunkQueue,
    pub reader_alive: bool,
}

/// Mathematical state of one connection.
#[verifier::ext_equal]
pub struct ConnModel {
    pub endpoint: Endpoint,
    pub inbound: QueueModel,
    pub reader_alive: bool,
}

impl View for Conn {
    type V = ConnModel;

    open spec fn view(&self) -> ConnModel {
        ConnModel {
            endpoint: self.endpoint,
            inbound: self.inbound@,
            reader_alive: self.reader_alive,
        }
    }
}

/// Mathematical state of the whole demultiplexing engine.
#[verifier::ext_equal]
pub struct EngineModel {
    /// Every connection ever created, in creation order.
    pub conns: Seq<ConnModel>,
    /// The peer channel table: one entry per endpoint the loop believes live.
    pub table: Seq<TableEntry>,
    /// Connections waiting to be handed out by accept, first contact first.
    pub accept_q: Seq<usize>,
    /// The best-effort cleanup channel: at most one pending notification.
    pub cleanup_pending: Option<Endpoint>,
    /// Whether the accept consumer still holds the accept queue's receiving half.
    pub accept_open: bool,
}

impl EngineModel {
    pub open spec fn empty() -> EngineModel {
        EngineModel {
            conns: Seq::empty(),
            table: Seq::empty(),
            accept_q: Seq::empty(),
            cleanup_pending: None,
            accept_open: true,
        }
    }

    /// The engine's invariant: table entries point at existing
    /// connections of the same endpoint, no endpoint and no connection
    /// is registered twice, the accept queue holds distinct existing
    /// connections within its bound, and every inbound queue is
    /// well-formed.
    pub open spec fn wf(self) -> bool {
        &&& forall|i: int|
            0 <= i < self.table.len() ==> (#[trigger] self.table[i]).conn < self.conns.len()
                && self.conns[self.table[i].conn as int].endpoint == self.table[i].endpoint
        &&& forall|i: int, j: int|
            #![trigger self.table[i], self.table[j]]
            0 <= i < j < self.table.len() ==> self.table[i].endpoint != self.table[j].endpoint
                && self.table[i].conn != self.table[j].conn
        &&& forall|i: int|
            0 <= i < self.accept_q.len() ==> (#[trigger] self.accept_q[i]) < self.conns.len()
        &&& forall|i: int, j: int|
            #![trigger self.accept_q[i], self.accept_q[j]]
            0 <= i < j < self.accept_q.len() ==> self.accept_q[i] != self.accept_q[j]
        &&& self.accept_q.len() <= CHANNEL_LEN
        &&& forall|i: int| 0 <= i < self.conns.len() ==> (#[trigger] self.conns[i]).inbound.wf()
    }

    /// Whether the routing table has an entry for this endpoint.
    pub open spec fn has_peer(self, ep: Endpoint) -> bool {
        exists|i: int| 0 <= i < self.table.len() && (#[trigger] self.table[i]).endpoint == ep
    }

    /// The table row serving this endpoint (unique under `wf`).
    pub open spec fn peer_slot(self, ep: Endpoint) -> int {
        choose|i: int| 0 <= i < self.table.len() && (#[trigger] self.table[i]).endpoint == ep
    }

    /// The connection this endpoint's datagrams are routed to.
    pub open spec fn peer_conn(self, ep: Endpoint) -> usize {
        self.table[self.peer_slot(ep)].conn
    }

    /// Whether a sending half for connection `id` is still in the table.
    pub open spec fn registered(self, id: usize) -> bool {
        exists|i: int| 0 <= i < self.table.len() && (#[trigger] self.table[i]).conn == id
    }
}

/// The table row found for an endpoint is the row every spec function
/// speaks of: under `wf` endpoints are registered at most once.
pub proof fn lemma_slot_unique(m: EngineModel, ep: Endpoint, i: int)
    requires
        m.wf(),
        0 <= i < m.table.len(),
        m.table[i].endpoint == ep,
    ensures
        m.has_peer(ep),
        m.peer_slot(ep) == i,
        m.peer_conn(ep) == m.table[i].conn,
{
    assert(m.has_peer(ep));
    let j = m.peer_slot(ep);
    assert(0 <= j < m.table.len() && m.table[j].endpoint == ep);
    if i < j {
        assert(m.table[i].endpoint != m.table[j].endpoint);
    } else if j < i {
        assert(m.table[j].endpoint != m.table[i].endpoint);
    }
}

/// Dropping a table row: the cleanup step and the stale-entry step both
/// remove exactly one entry and touch nothing else.
pub open spec fn remove_entry(m: EngineModel, slot: int) -> EngineModel {
    EngineModel { table: m.table.remove(slot), ..m }
}

pub proof fn lemma_remove_entry_wf(m: EngineModel, slot: int)
    requires
        m.wf(),
        0 <= slot < m.table.len(),
    ensures
        remove_entry(m, slot).wf(),
{
    let m2 = remove_entry(m, slot);
    assert forall|i: int| 0 <= i < m2.table.len() implies (#[trigger] m2.table[i]).conn
        < m2.conns.len() && m2.conns[m2.table[i].conn as int].endpoint == m2.table[i].endpoint by {
        if i < slot {
            assert(m2.table[i] == m.table[i]);
        } else {
            assert(m2.table[i] == m.table[i + 1]);
        }
    }
    assert forall|i: int, j: int|
        #![trigger m2.table[i], m2.table[j]]
        0 <= i < j < m2.table.len() implies m2.table[i].endpoint != m2.table[j].endpoint
        && m2.table[i].conn != m2.table[j].conn by {
        let i0 = if i < slot { i } else { i + 1 };
        let j0 = if j < slot { j } else { j + 1 };
        assert(m2.table[i] == m.table[i0]);
        assert(m2.table[j] == m.table[j0]);
        assert(m.table[i0].endpoint != m.table[j0].endpoint);
    }
}

/// After an endpoint's table row is removed, the table no longer routes
/// that endpoint anywhere: the next datagram from it is first contact.
pub proof fn lemma_removed_peer_absent(m: EngineModel, ep: Endpoint)
    requires
        m.wf(),
        m.has_peer(ep),
    ensures
        !remove_entry(m, m.peer_slot(ep)).has_peer(ep),
{
    let slot = m.peer_slot(ep);
    assert(0 <= slot < m.table.len() && m.table[slot].endpoint == ep);
    let m2 = remove_entry(m, slot);
    assert forall|i: int| 0 <= i < m2.table.len() implies (#[trigger] m2.table[i]).endpoint
        != ep by {
        if i < slot {
            assert(m2.table[i] == m.table[i]);
            assert(m.table[i].endpoint != m.table[slot].endpoint);
        } else {
            assert(m2.table[i] == m.table[i + 1]);
            assert(m.table[slot].endpoint != m.table[i + 1].endpoint);
        }
    }
}

/// One routing step of the demultiplexing loop, as a function of the
/// engine state and the received datagram (source endpoint, payload).
pub open spec fn deliver_tr(m: EngineModel, ep: Endpoint, p: Seq<u8>) -> (EngineModel,
    DeliverOutcome) {
    if m.has_peer(ep) {
        let id = m.peer_conn(ep);
        let c = m.conns[id as int];
        if !c.reader_alive {
            (remove_entry(m, m.peer_slot(ep)), DeliverOutcome::StaleDropped)
        } else if c.inbound.is_full() {
            (m, DeliverOutcome::Stalled)
        } else {
            (
                EngineModel {
                    conns: m.conns.update(
                        id as int,
                        ConnModel { inbound: push_tr(c.inbound, p), ..c },
                    ),
                    ..m
                },
                DeliverOutcome::Delivered,
            )
        }
    } else {
        if !m.accept_open {
            (m, DeliverOutcome::Refused)
        } else if m.accept_q.len() >= CHANNEL_LEN || m.conns.len() >= usize::MAX {
            (m, DeliverOutcome::Stalled)
        } else {
            let newc = ConnModel {
                endpoint: ep,
                inbound: push_tr(QueueModel::empty(), p),
                reader_alive: true,
            };
            (
                EngineModel {
                    conns: m.conns.push(newc),
                    table: m.table.push(TableEntry { endpoint: ep, conn: m.conns.len() as usize }),
                    accept_q: m.accept_q.push(m.conns.len() as usize),
                    ..m
                },
                DeliverOutcome::Accepted,
            )
        }
    }
}

/// Routing preserves the engine invariant, whatever the datagram.
pub proof fn lemma_deliver_wf(m: EngineModel, ep: Endpoint, p: Seq<u8>)
    requires
        m.wf(),
    ensures
        deliver_tr(m, ep, p).0.wf(),
{
    let (m2, o) = deliver_tr(m, ep, p);
    if m.has_peer(ep) {
        let slot = m.peer_slot(ep);
        assert(0 <= slot < m.table.len() && m.table[slot].endpoint == ep);
        let id = m.peer_conn(ep);
        let c = m.conns[id as int];
        if !c.reader_alive {
            lemma_remove_entry_wf(m, slot);
        } else if c.inbound.is_full() {
        } else {
            lemma_push_wf(c.inbound, p);
            assert forall|i: int| 0 <= i < m2.table.len() implies (#[trigger] m2.table[i]).conn
                < m2.conns.len() && m2.conns[m2.table[i].conn as int].endpoint
                == m2.table[i].endpoint by {
                assert(m.table[i].conn < m.conns.len());
            }
        }
    } else {
        if !m.accept_open || m.accept_q.len() >= CHANNEL_LEN || m.conns.len() >= usize::MAX {
        } else {
            let n = m.conns.len() as int;
            let newq = push_tr(QueueModel::empty(), p);
            assert_seqs_equal!(newq.pending == newq.history.skip(0));
            assert forall|i: int| 0 <= i < m2.table.len() implies (#[trigger] m2.table[i]).conn
                < m2.conns.len() && m2.conns[m2.table[i].conn as int].endpoint
                == m2.table[i].endpoint by {
                if i < n_table(m) {
                    assert(m2.table[i] == m.table[i]);
                    assert(m.table[i].conn < m.conns.len());
                }
            }
            assert forall|i: int, j: int|
                #![trigger m2.table[i], m2.table[j]]
                0 <= i < j < m2.table.len() implies m2.table[i].endpoint != m2.table[j].endpoint
                && m2.table[i].conn != m2.table[j].conn by {
                if j < n_table(m) {
                } else {
                    assert(m2.table[j].endpoint == ep && m2.table[j].conn == n);
                    assert(m2.table[i] == m.table[i]);
                    assert(!m.has_peer(ep) ==> m.table[i].endpoint != ep);
                    assert(m.table[i].conn < m.conns.len());
                }
            }
            assert forall|i: int, j: int|
                #![trigger m2.accept_q[i], m2.accept_q[j]]
                0 <= i < j < m2.accept_q.len() implies m2.accept_q[i] != m2.accept_q[j] by {
                if j < m.accept_q.len() {
                } else {
                    assert(m2.accept_q[j] == n as usize);
                    assert(m2.accept_q[i] == m.accept_q[i]);
                    assert(m.accept_q[i] < m.conns.len());
                }
            }
        }
    }
}

/// Length of the table, named so proofs can branch on old indices.
pub open spec fn n_table(m: EngineModel) -> int {
    m.table.len() as int
}

/// A best-effort cleanup notification: it lands only if the capacity-one
/// channel is free, and is otherwise lost.
pub open spec fn notify_tr(m: EngineModel, ep: Endpoint) -> EngineModel {
    if m.cleanup_pending is None {
        EngineModel { cleanup_pending: Some(ep), ..m }
    } else {
        m
    }
}

/// The consumer dropping its handle: the reader side of that connection
/// is gone, and a best-effort cleanup notification is attempted.
pub open spec fn drop_conn_tr(m: EngineModel, id: usize) -> EngineModel {
    notify_tr(
        EngineModel {
            conns: m.conns.update(id as int, ConnModel { reader_alive: false, ..m.conns[id as int] }),
            ..m
        },
        m.conns[id as int].endpoint,
    )
}

/// The loop consuming one cleanup notification: the named endpoint's
/// table row is removed; removing an absent endpoint is a no-op.
pub open spec fn process_cleanup_tr(m: EngineModel) -> EngineModel {
    match m.cleanup_pending {
        Some(ep) => {
            let m1 = EngineModel { cleanup_pending: None, ..m };
            if m1.has_peer(ep) {
                remove_entry(m1, m1.peer_slot(ep))
            } else {
                m1
            }
        },
        None => m,
    }
}

/// Marking a connection's reader as gone touches neither the table nor
/// any queue, so the engine invariant survives it.
pub proof fn lemma_drop_conn_wf(m: EngineModel, id: usize)
    requires
        m.wf(),
        id < m.conns.len(),
    ensures
        drop_conn_tr(m, id).wf(),
        drop_conn_tr(m, id).table == m.table,
        drop_conn_tr(m, id).accept_q == m.accept_q,
{
    let m2 = drop_conn_tr(m, id);
    assert forall|i: int| 0 <= i < m2.table.len() implies (#[trigger] m2.table[i]).conn
        < m2.conns.len() && m2.conns[m2.table[i].conn as int].endpoint == m2.table[i].endpoint by {
        assert(m.table[i].conn < m.conns.len());
    }
    assert forall|i: int| 0 <= i < m2.conns.len() implies (#[trigger] m2.conns[i]).inbound.wf() by {
        assert(m.conns[i].inbound.wf());
    }
}

/// Consuming a cleanup notification only ever removes one table row, so
/// the engine invariant survives it.
pub proof fn lemma_process_cleanup_wf(m: EngineModel)
    requires
        m.wf(),
    ensures
        process_cleanup_tr(m).wf(),
        process_cleanup_tr(m).conns == m.conns,
        process_cleanup_tr(m).accept_q == m.accept_q,
        process_cleanup_tr(m).cleanup_pending is None,
{
    match m.cleanup_pending {
        Some(ep) => {
            let m1 = EngineModel { cleanup_pending: None, ..m };
            assert(m1.wf());
            if m1.has_peer(ep) {
                let slot = m1.peer_slot(ep);
                assert(0 <= slot < m1.table.len() && m1.table[slot].endpoint == ep);
                lemma_remove_entry_wf(m1, slot);
            }
        },
        None => {},
    }
}

/// The single-owner demultiplexing engine: the peer channel table, the
/// accept queue and every accepted connection's inbound queue, mutated
/// only through the loop's own steps.
pub struct Engine {
    conns: Vec<Conn>,
    table: Vec<TableEntry>,
    accept_q: Vec<usize>,
    cleanup_pending: Option<Endpoint>,
    accept_open: bool,
}

pub open spec fn conns_view(s: Seq<Conn>) -> Seq<ConnModel> {
    s.map_values(|c: Conn| c@)
}

impl View for Engine {
    type V = EngineModel;

    closed spec fn view(&self) -> EngineModel {
        EngineModel {
            conns: conns_view(self.conns@),
            table: self.table@,
            accept_q: self.accept_q@,
            cleanup_pending: self.cleanup_pending,
            accept_open: self.accept_open,
        }
    }
}

proof fn lemma_conns_view_push(s: Seq<Conn>, c: Conn)
    ensures
        conns_view(s.push(c)) =~= conns_view(s).push(c@),
{
    assert_seqs_equal!(conns_view(s.push(c)) == conns_view(s).push(c@));
}

proof fn lemma_conns_view_set(s: Seq<Conn>, i: int, c: Conn)
    requires
        0 <= i < s.len(),
    ensures
        conns_view(s.remove(i).insert(i, c)) =~= conns_view(s).update(i, c@),
{
    assert_seqs_equal!(conns_view(s.remove(i).insert(i, c)) == conns_view(s).update(i, c@), k => {
        if k < i {
            assert(s.remove(i)[k] == s[k]);
            assert(s.remove(i).insert(i, c)[k] == s[k]);
        } else if k == i {
        } else {
            assert(s.remove(i)[k - 1] == s[k]);
            assert(s.remove(i).insert(i, c)[k] == s.remove(i)[k - 1]);
        }
    });
}

impl Engine {
    /// A fresh engine: empty table, empty accept queue, no pending
    /// cleanup, accept consumer attached.
    pub fn new() -> (e: Engine)
        ensures
            e@ == EngineModel::empty(),
            e@.wf(),
    {
        let e = Engine {
            conns: Vec::new(),
            table: Vec::new(),
            accept_q: Vec::new(),
            cleanup_pending: None,
            accept_open: true,
        };
        proof {
            assert(e@ =~~= EngineModel::empty());
        }
        e
    }

    /// How many connections the engine has ever created.
    pub fn conn_count(&self) -> (n: usize)
        ensures
            n == self@.conns.len(),
    {
        self.conns.len()
    }

    /// The peer endpoint a connection serves.
    pub fn conn_endpoint(&self, id: usize) -> (ep: Endpoint)
        requires
            id < self@.conns.len(),
        ensures
            ep == self@.conns[id as int].endpoint,
    {
        self.conns[id].endpoint
    }

    fn find_slot(&self, ep: Endpoint) -> (r: Option<usize>)
        ensures
            match r {
                Some(i) => i < self@.table.len() && self@.table[i as int].endpoint == ep,
                None => !self@.has_peer(ep),
            },
    {
        let mut i: usize = 0;
        while i < self.table.len()
            invariant
                i <= self.table.len(),
                forall|j: int| 0 <= j < i ==> (#[trigger] self@.table[j]).endpoint != ep,
            decreases self.table.len() - i,
        {
            if self.table[i].endpoint == ep {
                return Some(i);
            }
            i += 1;
        }
        None
    }

    fn find_conn_slot(&self, id: usize) -> (r: Option<usize>)
        ensures
            match r {
                Some(i) => i < self@.table.len() && self@.table[i as int].conn == id,
                None => !self@.registered(id),
            },
    {
        let mut i: usize = 0;
        while i < self.table.len()
            invariant
                i <= self.table.len(),
                forall|j: int| 0 <= j < i ==> (#[trigger] self@.table[j]).conn != id,
            decreases self.table.len() - i,
        {
            if self.table[i].conn == id {
                return Some(i);
            }
            i += 1;
        }
        None
    }

    /// The routing step (§ demultiplexing loop): looks the datagram's
    /// source endpoint up in the table, pushes onto the peer's inbound
    /// queue, reconciles stale entries, and turns first contact into a
    /// fresh connection queued for accept. A full queue stalls the step
    /// with nothing consumed.
    pub fn deliver(&mut self, ep: Endpoint, payload: Vec<u8>) -> (r: DeliverOutcome)
        requires
            old(self)@.wf(),
        ensures
            final(self)@ == deliver_tr(old(self)@, ep, payload@).0,
            r == deliver_tr(old(self)@, ep, payload@).1,
            final(self)@.wf(),
    {
        proof {
            lemma_deliver_wf(old(self)@, ep, payload@);
        }
        let ghost m = old(self)@;
        match self.find_slot(ep) {
            Some(slot) => {
                proof {
                    lemma_slot_unique(m, ep, slot as int);
                }
                let id = self.table[slot].conn;
                assert(id < self.conns.len());
                if !self.conns[id].reader_alive {
                    self.table.remove(slot);
                    proof {
                        assert(self@ =~~= deliver_tr(m, ep, payload@).0);
                    }
                    DeliverOutcome::StaleDropped
                } else if self.conns[id].inbound.len() >= CHANNEL_LEN {
                    proof {
                        assert(self@ =~~= deliver_tr(m, ep, payload@).0);
                    }
                    DeliverOutcome::Stalled
                } else {
                    let mut c = self.conns.remove(id);
                    c.inbound.push(payload);
                    let ghost c2 = c;
                    self.conns.insert(id, c);
                    proof {
                        lemma_conns_view_set(old(self).conns@, id as int, c2);
                        assert(self@ =~~= deliver_tr(m, ep, payload@).0);
                    }
                    DeliverOutcome::Delivered
                }
            },
            None => {
                if !self.accept_open {
                    DeliverOutcome::Refused
                } else if self.accept_q.len() >= CHANNEL_LEN || self.conns.len() >= usize::MAX {
                    DeliverOutcome::Stalled
                } else {
                    let mut q = ChunkQueue::new();
                    q.push(payload);
                    let n = self.conns.len();
                    let newc = Conn { endpoint: ep, inbound: q, reader_alive: true };
                    let ghost newc2 = newc;
                    self.conns.push(newc);
                    self.table.push(TableEntry { endpoint: ep, conn: n });
                    self.accept_q.push(n);
                    proof {
                        lemma_conns_view_push(old(self).conns@, newc2);
                        assert(self@ =~~= deliver_tr(m, ep, payload@).0);
                    }
                    DeliverOutcome::Accepted
                }
            },
        }
    }

    /// The loop consuming one cleanup notification: forgets the named
    /// endpoint; forgetting an absent endpoint is a no-op.
    pub fn process_cleanup(&mut self)
        requires
            old(self)@.wf(),
        ensures
            final(self)@ == process_cleanup_tr(old(self)@),
            final(self)@.wf(),
    {
        let ghost m = old(self)@;
        match self.cleanup_pending {
            Some(ep) => {
                self.cleanup_pending = None;
                let ghost m1 = EngineModel { cleanup_pending: None, ..m };
                match self.find_slot(ep) {
                    Some(slot) => {
                        proof {
                            lemma_slot_unique(m1, ep, slot as int);
                            lemma_remove_entry_wf(m1, slot as int);
                        }
                        self.table.remove(slot);
                        proof {
                            assert(self@ =~~= process_cleanup_tr(m));
                        }
                    },
                    None => {
                        proof {
                            assert(self@ =~~= process_cleanup_tr(m));
                        }
                    },
                }
            },
            None => {},
        }
    }

    /// A connection's best-effort cleanup request (explicit close, or a
    /// failed send): lands only if the capacity-one channel is free.
    pub fn notify_cleanup(&mut self, ep: Endpoint)
        requires
            old(self)@.wf(),
        ensures
            final(self)@ == notify_tr(old(self)@, ep),
            final(self)@.wf(),
    {
        if self.cleanup_pending.is_none() {
            self.cleanup_pending = Some(ep);
        }
    }

    /// The consumer dropping its connection handle: its reader side is
    /// gone, and a best-effort cleanup notification is attempted.
    pub fn drop_conn(&mut self, id: usize)
        requires
            old(self)@.wf(),
            id < old(self)@.conns.len(),
        ensures
            final(self)@ == drop_conn_tr(old(self)@, id),
            final(self)@.wf(),
    {
        let ghost m = old(self)@;
        let ep = self.conns[id].endpoint;
        let mut c = self.conns.remove(id);
        c.reader_alive = false;
        let ghost c2 = c;
        self.conns.insert(id, c);
        proof {
            lemma_conns_view_set(old(self).conns@, id as int, c2);
        }
        if self.cleanup_pending.is_none() {
            self.cleanup_pending = Some(ep);
        }
        proof {
            assert(self@ =~~= drop_conn_tr(m, id));
        }
    }

    /// The accept consumer going away: new peers are discarded from now
    /// on instead of being queued.
    pub fn close_accept(&mut self)
        requires
            old(self)@.wf(),
        ensures
            final(self)@ == (EngineModel { accept_open: false, ..old(self)@ }),
            final(self)@.wf(),
    {
        self.accept_open = false;
    }

    /// One accept: hands out the oldest queued connection, in first-packet
    /// order, or nothing when no new peer is waiting.
    pub fn accept_next(&mut self) -> (r: Option<usize>)
        requires
            old(self)@.wf(),
        ensures
            final(self)@.wf(),
            old(self)@.accept_q.len() == 0 ==> r is None && final(self)@ == old(self)@,
            old(self)@.accept_q.len() > 0 ==> r == Some(old(self)@.accept_q[0]) && final(self)@
                == (EngineModel { accept_q: old(self)@.accept_q.skip(1), ..old(self)@ }),
            r is Some ==> r.unwrap() < final(self)@.conns.len(),
    {
        if self.accept_q.len() == 0 {
            None
        } else {
            let id = self.accept_q.remove(0);
            proof {
                assert_seqs_equal!(self.accept_q@ == old(self)@.accept_q.skip(1));
                assert(self@ =~~= EngineModel {
                    accept_q: old(self)@.accept_q.skip(1),
                    ..old(self)@
                });
            }
            Some(id)
        }
    }

    /// One read on a virtual connection: the next queued payload cut to
    /// the destination's capacity; pending with nothing queued while the
    /// producer is registered; broken pipe once it is gone.
    pub fn read_conn(&mut self, id: usize, dest_cap: usize) -> (r: ReadOutcome)
        requires
            old(self)@.wf(),
            id < old(self)@.conns.len(),
        ensures
            final(self)@.wf(),
            old(self)@.conns[id as int].inbound.pending.len() > 0 ==> (r matches
                ReadOutcome::Data(out) && out@ == trunc(
                old(self)@.conns[id as int].inbound.pending[0],
                dest_cap as nat,
            ) && final(self)@ == (EngineModel {
                conns: old(self)@.conns.update(
                    id as int,
                    (ConnModel {
                        inbound: pop_tr(old(self)@.conns[id as int].inbound),
                        ..old(self)@.conns[id as int]
                    }),
                ),
                ..old(self)@
            })),
            old(self)@.conns[id as int].inbound.pending.len() == 0 && old(self)@.registered(id)
                ==> r is WouldBlock && final(self)@ == old(self)@,
            old(self)@.conns[id as int].inbound.pending.len() == 0 && !old(self)@.registered(id)
                ==> r is Closed && final(self)@ == old(self)@,
    {
        let ghost m = old(self)@;
        if self.conns[id].inbound.len() > 0 {
            let mut c = self.conns.remove(id);
            let out = c.inbound.read_truncated(dest_cap);
            let ghost c2 = c;
            self.conns.insert(id, c);
            proof {
                lemma_conns_view_set(old(self).conns@, id as int, c2);
                assert forall|i: int| 0 <= i < self@.conns.len() implies (
                #[trigger] self@.conns[i]).inbound.wf() by {
                    if i != id {
                        assert(self@.conns[i] == m.conns[i]);
                    }
                }
                assert(self@ =~~= EngineModel {
                    conns: m.conns.update(
                        id as int,
                        ConnModel { inbound: pop_tr(m.conns[id as int].inbound), ..m.conns[id as int] },
                    ),
                    ..m
                });
            }
            ReadOutcome::Data(out)
        } else {
            match self.find_conn_slot(id) {
                Some(_) => ReadOutcome::WouldBlock,
                None => ReadOutcome::Closed,
            }
        }
    }
}

} // verus!
