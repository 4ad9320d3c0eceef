use udp_stream::{DeliverOutcome, DialedConn, Endpoint, Engine, ReadOutcome};

fn ep(n: u128) -> Endpoint {
    Endpoint::new(n, 4000)
}

fn read_data(e: &mut Engine, id: usize, cap: usize) -> Vec<u8> {
    match e.read_conn(id, cap) {
        ReadOutcome::Data(v) => v,
        ReadOutcome::WouldBlock => panic!("read would block"),
        ReadOutcome::Closed => panic!("read closed"),
    }
}

#[test]
fn per_peer_ordering() {
    let mut e = Engine::new();
    assert_eq!(e.deliver(ep(1), vec![1u8, 1]), DeliverOutcome::Accepted);
    assert_eq!(e.deliver(ep(1), vec![2u8, 2]), DeliverOutcome::Delivered);
    assert_eq!(e.deliver(ep(1), vec![3u8]), DeliverOutcome::Delivered);
    let id = e.accept_next().expect("one accept delivery");
    assert_eq!(e.conn_endpoint(id), ep(1));
    assert_eq!(read_data(&mut e, id, 100), vec![1u8, 1]);
    assert_eq!(read_data(&mut e, id, 100), vec![2u8, 2]);
    assert_eq!(read_data(&mut e, id, 100), vec![3u8]);
    assert!(matches!(e.read_conn(id, 100), ReadOutcome::WouldBlock));
}

#[test]
fn peer_isolation() {
    let mut e = Engine::new();
    assert_eq!(e.deliver(ep(1), vec![10u8]), DeliverOutcome::Accepted);
    assert_eq!(e.deliver(ep(2), vec![20u8]), DeliverOutcome::Accepted);
    assert_eq!(e.deliver(ep(1), vec![11u8]), DeliverOutcome::Delivered);
    let a = e.accept_next().expect("peer A accepted");
    let b = e.accept_next().expect("peer B accepted");
    assert_eq!(e.conn_endpoint(a), ep(1));
    assert_eq!(e.conn_endpoint(b), ep(2));
    assert_eq!(read_data(&mut e, b, 100), vec![20u8]);
    // nothing of peer A's traffic ever shows up on B's connection
    assert!(matches!(e.read_conn(b, 100), ReadOutcome::WouldBlock));
    assert_eq!(read_data(&mut e, a, 100), vec![10u8]);
    assert_eq!(read_data(&mut e, a, 100), vec![11u8]);
}

#[test]
fn new_peer_single_accept() {
    let mut e = Engine::new();
    assert_eq!(e.deliver(ep(7), vec![1u8]), DeliverOutcome::Accepted);
    assert_eq!(e.deliver(ep(7), vec![2u8]), DeliverOutcome::Delivered);
    assert_eq!(e.deliver(ep(7), vec![3u8]), DeliverOutcome::Delivered);
    // exactly one accept delivery for the whole burst
    assert!(e.accept_next().is_some());
    assert!(e.accept_next().is_none());
}

#[test]
fn cleanup_reconnect() {
    let mut e = Engine::new();
    assert_eq!(e.deliver(ep(9), vec![1u8]), DeliverOutcome::Accepted);
    let id = e.accept_next().expect("first accept");
    assert_eq!(read_data(&mut e, id, 100), vec![1u8]);
    // consumer drops its handle; the loop processes the notification
    e.drop_conn(id);
    e.process_cleanup();
    // the endpoint now counts as reconnecting: a fresh accept delivery
    assert_eq!(e.deliver(ep(9), vec![2u8]), DeliverOutcome::Accepted);
    let id2 = e.accept_next().expect("second accept");
    assert_ne!(id, id2);
    assert_eq!(e.conn_endpoint(id2), ep(9));
    assert_eq!(read_data(&mut e, id2, 100), vec![2u8]);
}

#[test]
fn stale_entry_reconcile() {
    let mut e = Engine::new();
    assert_eq!(e.deliver(ep(9), vec![1u8]), DeliverOutcome::Accepted);
    let id = e.accept_next().expect("first accept");
    // handle dropped, but the loop has not consumed the notification yet;
    // a second drop elsewhere could even have lost it. The next datagram
    // hits the dead queue: the stale row is purged and the datagram dropped.
    e.drop_conn(id);
    assert_eq!(e.deliver(ep(9), vec![2u8]), DeliverOutcome::StaleDropped);
    // and the one after that is a brand-new connection
    assert_eq!(e.deliver(ep(9), vec![3u8]), DeliverOutcome::Accepted);
    let id2 = e.accept_next().expect("second accept");
    assert_ne!(id, id2);
    assert_eq!(read_data(&mut e, id2, 100), vec![3u8]);
}

#[test]
fn backpressure_full_queue_stalls() {
    let mut e = Engine::new();
    assert_eq!(e.deliver(ep(1), vec![0u8]), DeliverOutcome::Accepted);
    for i in 1..100u32 {
        assert_eq!(e.deliver(ep(1), vec![i as u8]), DeliverOutcome::Delivered);
    }
    // queue holds 100 chunks: the intake stalls on this peer, consuming nothing
    assert_eq!(e.deliver(ep(1), vec![200u8]), DeliverOutcome::Stalled);
    let made = e.conn_count();
    assert_eq!(e.deliver(ep(1), vec![200u8]), DeliverOutcome::Stalled);
    assert_eq!(e.conn_count(), made);
    // the single intake path means the loop is now blocked: a datagram from
    // a second, draining peer sits behind the stalled one and is not routed
    // until the blockage clears. Once the consumer drains one chunk, the
    // intake moves again.
    let id = e.accept_next().expect("peer accepted");
    assert_eq!(read_data(&mut e, id, 100), vec![0u8]);
    assert_eq!(e.deliver(ep(1), vec![200u8]), DeliverOutcome::Delivered);
    assert_eq!(e.deliver(ep(2), vec![7u8]), DeliverOutcome::Accepted);
}

#[test]
fn accept_queue_full_stalls() {
    let mut e = Engine::new();
    for i in 0..100u128 {
        assert_eq!(e.deliver(ep(i), vec![1u8]), DeliverOutcome::Accepted);
    }
    // accept queue is full: the next unseen peer stalls the intake
    assert_eq!(e.deliver(ep(500), vec![1u8]), DeliverOutcome::Stalled);
    // an accept drains one slot and the intake moves again
    assert!(e.accept_next().is_some());
    assert_eq!(e.deliver(ep(500), vec![1u8]), DeliverOutcome::Accepted);
}

#[test]
fn accept_consumer_gone_refuses() {
    let mut e = Engine::new();
    e.close_accept();
    // unknown peer while nobody accepts: discarded, nothing registered
    assert_eq!(e.deliver(ep(3), vec![1u8]), DeliverOutcome::Refused);
    assert_eq!(e.conn_count(), 0);
    assert!(e.accept_next().is_none());
}

#[test]
fn truncation_discards_remainder() {
    let mut e = Engine::new();
    assert_eq!(
        e.deliver(ep(1), vec![1u8, 2, 3, 4, 5, 6, 7, 8, 9, 10]),
        DeliverOutcome::Accepted
    );
    assert_eq!(e.deliver(ep(1), vec![9u8, 9]), DeliverOutcome::Delivered);
    let id = e.accept_next().expect("accepted");
    // destination smaller than the payload: only its capacity is delivered
    assert_eq!(read_data(&mut e, id, 4), vec![1u8, 2, 3, 4]);
    // the cut-off remainder is not returned on the next read
    assert_eq!(read_data(&mut e, id, 100), vec![9u8, 9]);
}

#[test]
fn read_after_cleanup_is_broken_pipe() {
    let mut e = Engine::new();
    assert_eq!(e.deliver(ep(1), vec![1u8]), DeliverOutcome::Accepted);
    let id = e.accept_next().expect("accepted");
    e.notify_cleanup(e.conn_endpoint(id));
    e.process_cleanup();
    // the queued chunk is still readable after the table row is gone
    assert_eq!(read_data(&mut e, id, 100), vec![1u8]);
    // then the producer side is gone for good: broken pipe
    assert!(matches!(e.read_conn(id, 100), ReadOutcome::Closed));
}

#[test]
fn cleanup_channel_is_lossy_but_idempotent() {
    let mut e = Engine::new();
    assert_eq!(e.deliver(ep(1), vec![1u8]), DeliverOutcome::Accepted);
    assert_eq!(e.deliver(ep(2), vec![2u8]), DeliverOutcome::Accepted);
    let a = e.accept_next().expect("A");
    let b = e.accept_next().expect("B");
    // two near-simultaneous drops: the capacity-one channel keeps only
    // the first notification, the second is lost
    e.drop_conn(a);
    e.drop_conn(b);
    e.process_cleanup();
    // A is purged; B's row is stale until its next datagram reconciles it
    assert_eq!(e.deliver(e.conn_endpoint(a), vec![3u8]), DeliverOutcome::Accepted);
    assert_eq!(e.deliver(e.conn_endpoint(b), vec![4u8]), DeliverOutcome::StaleDropped);
    assert_eq!(e.deliver(e.conn_endpoint(b), vec![5u8]), DeliverOutcome::Accepted);
    // a duplicate cleanup for an already-purged endpoint is a safe no-op
    e.notify_cleanup(ep(1));
    e.process_cleanup();
    e.process_cleanup();
}

#[test]
fn echo_round_trips() {
    // the end-to-end shape: one listener, several clients, each sending a
    // fixed payload per round and expecting it echoed byte for byte
    const CLIENTS: usize = 10;
    const ROUNDS: usize = 20;
    let mut server = Engine::new();
    let mut conn_of = vec![usize::MAX; CLIENTS];
    // each client holds a dialed connection, fed by its private reader task
    let server_ep = ep(1000);
    let mut client_side: Vec<DialedConn> =
        (0..CLIENTS).map(|c| DialedConn::new(ep(c as u128), server_ep)).collect();
    for round in 0..ROUNDS {
        for c in 0..CLIENTS {
            let payload: Vec<u8> = (0..256).map(|_| round as u8).collect();
            let outcome = server.deliver(ep(c as u128), payload.clone());
            if round == 0 {
                assert_eq!(outcome, DeliverOutcome::Accepted);
                conn_of[c] = server.accept_next().expect("new client accepted");
                assert_eq!(server.conn_endpoint(conn_of[c]), ep(c as u128));
            } else {
                assert_eq!(outcome, DeliverOutcome::Delivered);
            }
            // the server reads the datagram and writes it back; the echo
            // lands on the client's own connection
            let got = match server.read_conn(conn_of[c], 17480) {
                ReadOutcome::Data(v) => v,
                _ => panic!("server read failed"),
            };
            assert_eq!(got, payload);
            assert!(client_side[c].push_datagram(got));
            let back = match client_side[c].read(17480) {
                ReadOutcome::Data(v) => v,
                _ => panic!("client read failed"),
            };
            assert_eq!(back, payload);
        }
    }
}

#[test]
fn dialed_connection_semantics() {
    let mut c = DialedConn::new(ep(1), ep(2));
    assert_eq!(c.local_addr(), ep(1));
    assert_eq!(c.peer_addr(), ep(2));
    // nothing received yet, reader task alive: the read suspends
    assert!(matches!(c.read(100), ReadOutcome::WouldBlock));
    assert!(c.push_datagram(vec![1u8, 2, 3]));
    assert!(c.push_datagram(vec![4u8]));
    // same truncating, order-preserving reads as the accepted flavor
    assert_eq!(
        match c.read(2) {
            ReadOutcome::Data(v) => v,
            _ => panic!("expected data"),
        },
        vec![1u8, 2]
    );
    assert_eq!(
        match c.read(100) {
            ReadOutcome::Data(v) => v,
            _ => panic!("expected data"),
        },
        vec![4u8]
    );
    // the private reader can only fill its own bounded queue
    for i in 0..100u32 {
        assert!(c.push_datagram(vec![i as u8]));
    }
    assert!(!c.push_datagram(vec![0u8]));
    // reader task gone: queued chunks drain, then broken pipe
    c.producer_gone();
    for i in 0..100u32 {
        assert_eq!(
            match c.read(100) {
                ReadOutcome::Data(v) => v,
                _ => panic!("expected data"),
            },
            vec![i as u8]
        );
    }
    assert!(matches!(c.read(100), ReadOutcome::Closed));
}
