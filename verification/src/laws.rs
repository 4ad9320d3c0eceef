use vstd::prelude::*;

use crate::chunkq::{lemma_pop_wf, pop_tr, trunc, QueueModel};
use crate::endpoint::Endpoint;
use crate::engine::{
    deliver_tr, drop_conn_tr, lemma_deliver_wf, lemma_drop_conn_wf, lemma_process_cleanup_wf,
    lemma_removed_peer_absent, lemma_slot_unique, process_cleanup_tr, DeliverOutcome, EngineModel,
};
use crate::CHANNEL_LEN;

verus! {

/// A well-formed queue, drained `k` chunks at a time.
pub open spec fn pop_k(m: QueueModel, k: nat) -> QueueModel
    decreases k,
{
    if k == 0 {
        m
    } else {
        pop_k(pop_tr(m), (k - 1) as nat)
    }
}

/// Per-peer ordering: successive reads on one connection yield the
/// delivered payloads in exactly the order they arrived — the `j`-th
/// read after state `m` returns delivery number `taken + j` of the
/// queue's history, which records pushes in arrival order.
pub proof fn lemma_reads_in_order(m: QueueModel, k: nat)
    requires
        m.wf(),
        k <= m.pending.len(),
    ensures
        pop_k(m, k).wf(),
        pop_k(m, k).history == m.history,
        pop_k(m, k).taken == m.taken + k,
        pop_k(m, k).pending =~= m.pending.skip(k as int),
        forall|j: nat| j < k ==> #[trigger] pop_k(m, j).pending[0] == m.history[m.taken + j as int],
    decreases k,
{
    if k == 0 {
        assert(pop_k(m, 0).pending =~= m.pending.skip(0));
    } else {
        lemma_pop_wf(m);
        let m1 = pop_tr(m);
        lemma_reads_in_order(m1, (k - 1) as nat);
        assert(pop_k(m, k).pending =~= m.pending.skip(k as int)) by {
            assert(pop_k(m, k) == pop_k(m1, (k - 1) as nat));
            assert(pop_k(m1, (k - 1) as nat).pending =~= m1.pending.skip(k - 1));
            assert(m1.pending == m.pending.skip(1));
            assert(m.pending.skip(1).skip(k - 1) =~= m.pending.skip(k as int));
        }
        assert forall|j: nat| j < k implies #[trigger] pop_k(m, j).pending[0] == m.history[m.taken
            + j as int] by {
            if j == 0 {
                assert(pop_k(m, 0) == m);
                assert(m.pending[0] == m.history.skip(m.taken as int)[0]);
            } else {
                assert(pop_k(m, j) == pop_k(m1, (j - 1) as nat));
                assert(pop_k(m1, (j - 1) as nat).pending[0] == m1.history[m1.taken + (j - 1)]);
            }
        }
    }
}

/// Peer isolation: routing a datagram from one endpoint leaves every
/// connection that serves a different endpoint exactly as it was, in
/// queue, history and liveness alike.
pub proof fn lemma_peer_isolation(m: EngineModel, ep: Endpoint, p: Seq<u8>, j: int)
    requires
        m.wf(),
        0 <= j < m.conns.len(),
        m.conns[j].endpoint != ep,
    ensures
        deliver_tr(m, ep, p).0.conns[j] == m.conns[j],
{
    if m.has_peer(ep) {
        let slot = m.peer_slot(ep);
        assert(0 <= slot < m.table.len() && m.table[slot].endpoint == ep);
        let id = m.peer_conn(ep);
        assert(m.conns[id as int].endpoint == ep);
        assert(id != j);
    }
}

/// New-peer detection, first half: the first datagram from an unseen
/// endpoint registers exactly one fresh connection and queues exactly
/// one accept delivery for it, carrying that first payload.
pub proof fn lemma_first_contact_accepts(m: EngineModel, ep: Endpoint, p: Seq<u8>)
    requires
        m.wf(),
        !m.has_peer(ep),
        m.accept_open,
        m.accept_q.len() < CHANNEL_LEN,
        m.conns.len() < usize::MAX,
    ensures
        deliver_tr(m, ep, p).1 == DeliverOutcome::Accepted,
        deliver_tr(m, ep, p).0.conns.len() == m.conns.len() + 1,
        deliver_tr(m, ep, p).0.accept_q == m.accept_q.push(m.conns.len() as usize),
        deliver_tr(m, ep, p).0.conns[m.conns.len() as int].endpoint == ep,
        deliver_tr(m, ep, p).0.conns[m.conns.len() as int].inbound.history =~= seq![p],
        deliver_tr(m, ep, p).0.conns[m.conns.len() as int].reader_alive,
        deliver_tr(m, ep, p).0.has_peer(ep),
        deliver_tr(m, ep, p).0.wf(),
{
    lemma_deliver_wf(m, ep, p);
    let m2 = deliver_tr(m, ep, p).0;
    assert(m2.table[m.table.len() as int].endpoint == ep);
}

/// New-peer detection, second half: while a connection for the endpoint
/// is alive in the table, further datagrams from it produce no accept
/// delivery — they are queued (or stall the intake), nothing more.
pub proof fn lemma_known_peer_no_accept(m: EngineModel, ep: Endpoint, p: Seq<u8>)
    requires
        m.wf(),
        m.has_peer(ep),
        m.conns[m.peer_conn(ep) as int].reader_alive,
    ensures
        deliver_tr(m, ep, p).0.accept_q == m.accept_q,
        deliver_tr(m, ep, p).0.table == m.table,
        deliver_tr(m, ep, p).1 == DeliverOutcome::Delivered || deliver_tr(m, ep, p).1
            == DeliverOutcome::Stalled,
{
    let slot = m.peer_slot(ep);
    assert(0 <= slot < m.table.len() && m.table[slot].endpoint == ep);
}

/// New-peer detection, both halves composed: first contact yields one
/// accept delivery; the next datagram from the same endpoint is simply
/// delivered to that connection — in arrival order — with no second
/// accept delivery.
pub proof fn lemma_new_peer_single_accept(m: EngineModel, ep: Endpoint, p1: Seq<u8>, p2: Seq<u8>)
    requires
        m.wf(),
        !m.has_peer(ep),
        m.accept_open,
        m.accept_q.len() < CHANNEL_LEN,
        m.conns.len() < usize::MAX,
    ensures
        deliver_tr(m, ep, p1).1 == DeliverOutcome::Accepted,
        deliver_tr(m, ep, p1).0.accept_q.len() == m.accept_q.len() + 1,
        deliver_tr(deliver_tr(m, ep, p1).0, ep, p2).1 == DeliverOutcome::Delivered,
        deliver_tr(deliver_tr(m, ep, p1).0, ep, p2).0.accept_q == deliver_tr(m, ep, p1).0.accept_q,
        deliver_tr(deliver_tr(m, ep, p1).0, ep, p2).0.conns[m.conns.len() as int].inbound.history
            =~= seq![p1, p2],
{
    lemma_first_contact_accepts(m, ep, p1);
    let m1 = deliver_tr(m, ep, p1).0;
    let n = m.conns.len() as int;
    lemma_slot_unique(m1, ep, m.table.len() as int);
    assert(m1.peer_conn(ep) == m.conns.len() as usize);
    assert(m1.conns[n].inbound.pending.len() == 1);
    lemma_known_peer_no_accept(m1, ep, p2);
    let m2 = deliver_tr(m1, ep, p2).0;
    assert(m2.conns[n].inbound.history =~= m1.conns[n].inbound.history.push(p2));
    assert(m1.conns[n].inbound.history =~= seq![p1]);
    assert(seq![p1].push(p2) =~= seq![p1, p2]);
}

/// Accepts come out in first-packet order: two previously unseen
/// endpoints whose first datagrams arrive one after the other are
/// queued for accept in exactly that order.
pub proof fn lemma_accepts_in_arrival_order(
    m: EngineModel,
    ep1: Endpoint,
    ep2: Endpoint,
    p1: Seq<u8>,
    p2: Seq<u8>,
)
    requires
        m.wf(),
        !m.has_peer(ep1),
        !m.has_peer(ep2),
        ep1 != ep2,
        m.accept_open,
        m.accept_q.len() + 2 <= CHANNEL_LEN,
        m.conns.len() + 1 < usize::MAX,
    ensures
        deliver_tr(m, ep1, p1).1 == DeliverOutcome::Accepted,
        deliver_tr(deliver_tr(m, ep1, p1).0, ep2, p2).1 == DeliverOutcome::Accepted,
        deliver_tr(deliver_tr(m, ep1, p1).0, ep2, p2).0.accept_q == m.accept_q.push(
            m.conns.len() as usize,
        ).push((m.conns.len() + 1) as usize),
        deliver_tr(deliver_tr(m, ep1, p1).0, ep2, p2).0.conns[m.conns.len() as int].endpoint == ep1,
        deliver_tr(deliver_tr(m, ep1, p1).0, ep2, p2).0.conns[m.conns.len() as int + 1].endpoint == ep2,
{
    lemma_first_contact_accepts(m, ep1, p1);
    let m1 = deliver_tr(m, ep1, p1).0;
    assert forall|i: int| 0 <= i < m1.table.len() implies (#[trigger] m1.table[i]).endpoint
        != ep2 by {
        if i < m.table.len() {
            assert(m1.table[i] == m.table[i]);
        } else {
            assert(m1.table[i].endpoint == ep1);
        }
    }
    lemma_first_contact_accepts(m1, ep2, p2);
}

/// Cleanup reconciliation: once a connection's consumer drops it and the
/// loop has processed the cleanup notification, the endpoint is no longer
/// routed anywhere, and its next datagram is treated as a brand-new
/// connection — one fresh accept delivery.
pub proof fn lemma_cleanup_reconnect(m: EngineModel, id: usize, p: Seq<u8>)
    requires
        m.wf(),
        id < m.conns.len(),
        m.registered(id),
        m.cleanup_pending is None,
        m.accept_open,
        m.accept_q.len() < CHANNEL_LEN,
        m.conns.len() < usize::MAX,
    ensures
        !process_cleanup_tr(drop_conn_tr(m, id)).has_peer(m.conns[id as int].endpoint),
        deliver_tr(
            process_cleanup_tr(drop_conn_tr(m, id)),
            m.conns[id as int].endpoint,
            p,
        ).1 == DeliverOutcome::Accepted,
        deliver_tr(process_cleanup_tr(drop_conn_tr(m, id)), m.conns[id as int].endpoint, p).0.accept_q
            == m.accept_q.push(drop_conn_tr(m, id).conns.len() as usize),
{
    let ep = m.conns[id as int].endpoint;
    lemma_drop_conn_wf(m, id);
    let md = drop_conn_tr(m, id);
    assert(md.cleanup_pending == Some(ep));
    let slot = choose|i: int| 0 <= i < m.table.len() && (#[trigger] m.table[i]).conn == id;
    assert(0 <= slot < m.table.len() && m.table[slot].conn == id);
    assert(m.table[slot].endpoint == ep);
    assert(md.table == m.table);
    let m1 = EngineModel { cleanup_pending: None, ..md };
    assert(m1.wf());
    assert(m1.table[slot].endpoint == ep);
    lemma_slot_unique(m1, ep, slot);
    lemma_removed_peer_absent(m1, ep);
    lemma_process_cleanup_wf(md);
    let m2 = process_cleanup_tr(md);
    assert(m2 == crate::engine::remove_entry(m1, m1.peer_slot(ep)));
    assert(!m2.has_peer(ep));
    assert(m2.accept_q == m.accept_q && m2.accept_open && m2.conns.len() == m.conns.len());
    lemma_first_contact_accepts(m2, ep, p);
}

/// Stale-entry reconciliation: if the consumer is gone but no cleanup
/// was processed yet, the next datagram from that endpoint is dropped
/// while its table row is purged, and the one after that is treated as
/// a brand-new connection.
pub proof fn lemma_stale_entry_reconnect(m: EngineModel, ep: Endpoint, p1: Seq<u8>, p2: Seq<u8>)
    requires
        m.wf(),
        m.has_peer(ep),
        !m.conns[m.peer_conn(ep) as int].reader_alive,
        m.accept_open,
        m.accept_q.len() < CHANNEL_LEN,
        m.conns.len() < usize::MAX,
    ensures
        deliver_tr(m, ep, p1).1 == DeliverOutcome::StaleDropped,
        !deliver_tr(m, ep, p1).0.has_peer(ep),
        deliver_tr(deliver_tr(m, ep, p1).0, ep, p2).1 == DeliverOutcome::Accepted,
{
    lemma_deliver_wf(m, ep, p1);
    lemma_removed_peer_absent(m, ep);
    let m1 = deliver_tr(m, ep, p1).0;
    assert(m1.accept_q == m.accept_q && m1.conns == m.conns);
    lemma_first_contact_accepts(m1, ep, p2);
}

/// Backpressure, the single step: a datagram for a peer whose inbound
/// queue a non-draining consumer holds full stalls the intake — the
/// engine state does not move and the datagram is not consumed.
pub proof fn lemma_full_queue_stalls(m: EngineModel, ep: Endpoint, p: Seq<u8>)
    requires
        m.wf(),
        m.has_peer(ep),
        m.conns[m.peer_conn(ep) as int].reader_alive,
        m.conns[m.peer_conn(ep) as int].inbound.is_full(),
    ensures
        deliver_tr(m, ep, p).0 == m,
        deliver_tr(m, ep, p).1 == DeliverOutcome::Stalled,
{
}

/// The single shared intake path, fed datagrams in arrival order: it
/// routes them one after another and goes no further than the first one
/// that stalls.
pub open spec fn pump_tr(m: EngineModel, ds: Seq<(Endpoint, Seq<u8>)>) -> (EngineModel, nat)
    decreases ds.len(),
{
    if ds.len() == 0 {
        (m, 0)
    } else if deliver_tr(m, ds[0].0, ds[0].1).1 == DeliverOutcome::Stalled {
        (m, 0)
    } else {
        let rest = pump_tr(deliver_tr(m, ds[0].0, ds[0].1).0, ds.skip(1));
        (rest.0, (rest.1 + 1) as nat)
    }
}

/// Backpressure propagation (head-of-line blocking): while one peer's
/// full queue holds the intake, datagrams queued behind it are not
/// delivered to anyone — not even to peers whose own queues have room —
/// until the blockage clears.
pub proof fn lemma_head_of_line_blocking(
    m: EngineModel,
    ep: Endpoint,
    p: Seq<u8>,
    ds: Seq<(Endpoint, Seq<u8>)>,
)
    requires
        m.wf(),
        m.has_peer(ep),
        m.conns[m.peer_conn(ep) as int].reader_alive,
        m.conns[m.peer_conn(ep) as int].inbound.is_full(),
    ensures
        pump_tr(m, seq![(ep, p)] + ds).0 == m,
        pump_tr(m, seq![(ep, p)] + ds).1 == 0,
{
    lemma_full_queue_stalls(m, ep, p);
    let all = seq![(ep, p)] + ds;
    assert(all[0] == (ep, p));
    assert(all.len() == 1 + ds.len());
}

/// Truncation: a read into a destination smaller than the next queued
/// payload hands over exactly the destination's capacity worth of its
/// first bytes, and the cut-off remainder is gone — the following read
/// sees the next payload, whole.
pub proof fn lemma_truncation_discards(m: QueueModel, cap: nat)
    requires
        m.wf(),
        m.pending.len() >= 2,
        cap < m.pending[0].len(),
    ensures
        trunc(m.pending[0], cap) == m.pending[0].take(cap as int),
        trunc(m.pending[0], cap).len() == cap,
        pop_tr(m).wf(),
        pop_tr(m).pending[0] == m.pending[1],
        trunc(pop_tr(m).pending[0], m.pending[1].len()) == m.pending[1],
{
    lemma_pop_wf(m);
}

} // verus!
