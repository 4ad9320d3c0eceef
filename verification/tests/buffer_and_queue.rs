use bytes::BufMut;
use udp_stream::{copy_truncated, ChunkQueue, Endpoint, PacketBuffer, CHANNEL_LEN, UDP_BUFFER_SIZE};

#[test]
fn carve_splits_received_datagrams() {
    let mut pb = PacketBuffer::new();
    pb.buf.put_slice(b"hello world");
    assert_eq!(pb.len(), 11);
    let first = pb.carve(5);
    assert_eq!(copy_truncated(&first, 100), b"hello".to_vec());
    assert_eq!(pb.len(), 6);
    let second = pb.carve(6);
    assert_eq!(copy_truncated(&second, 100), b" world".to_vec());
    assert_eq!(pb.len(), 0);
    // the first view is untouched by later carving
    assert_eq!(copy_truncated(&first, 100), b"hello".to_vec());
}

#[test]
fn copy_truncated_caps_at_destination() {
    let mut pb = PacketBuffer::new();
    pb.buf.put_slice(b"hello");
    let chunk = pb.carve(5);
    assert_eq!(copy_truncated(&chunk, 3), b"hel".to_vec());
    assert_eq!(copy_truncated(&chunk, 5), b"hello".to_vec());
    assert_eq!(copy_truncated(&chunk, 10), b"hello".to_vec());
    assert_eq!(copy_truncated(&chunk, 0), Vec::<u8>::new());
}

#[test]
fn prepare_keeps_one_receive_unit_free() {
    let mut pb = PacketBuffer::new();
    assert!(pb.capacity() >= 3 * UDP_BUFFER_SIZE);
    // exhaust the initial allocation: fill it and carve everything off
    let cap = pb.capacity();
    let filler = vec![7u8; cap];
    pb.buf.put_slice(&filler);
    let chunk = pb.carve(cap);
    assert_eq!(pb.len(), 0);
    assert_eq!(copy_truncated(&chunk, 3), vec![7u8, 7, 7]);
    // the watermark rule restores room for a full datagram
    pb.prepare();
    assert!(pb.capacity() >= UDP_BUFFER_SIZE);
    // preparing an already-roomy buffer changes nothing
    let room = pb.capacity();
    pb.prepare();
    assert_eq!(pb.capacity(), room);
}

#[test]
fn prepare_preserves_pending_data() {
    let mut pb = PacketBuffer::new();
    pb.buf.put_slice(b"still here");
    pb.prepare();
    assert_eq!(pb.len(), 10);
    let chunk = pb.carve(10);
    assert_eq!(copy_truncated(&chunk, 100), b"still here".to_vec());
}

#[test]
fn chunk_queue_is_fifo() {
    let mut q = ChunkQueue::new();
    assert_eq!(q.len(), 0);
    q.push(vec![1u8]);
    q.push(vec![2u8, 2]);
    q.push(vec![3u8]);
    assert_eq!(q.len(), 3);
    assert_eq!(q.pop(), vec![1u8]);
    assert_eq!(q.pop(), vec![2u8, 2]);
    assert_eq!(q.pop(), vec![3u8]);
    assert_eq!(q.len(), 0);
}

#[test]
fn chunk_queue_read_truncates_and_discards() {
    let mut q = ChunkQueue::new();
    q.push(vec![1u8, 2, 3, 4, 5]);
    q.push(vec![6u8]);
    assert_eq!(q.read_truncated(2), vec![1u8, 2]);
    // the other three bytes are gone, not queued
    assert_eq!(q.read_truncated(100), vec![6u8]);
}

#[test]
fn bounded_queue_and_receive_unit_sizes() {
    assert_eq!(CHANNEL_LEN, 100);
    assert_eq!(UDP_BUFFER_SIZE, 17480);
}

#[test]
fn endpoints_compare_by_value() {
    let a = Endpoint::new(0x7f000001, 8095);
    let b = Endpoint::new(0x7f000001, 8095);
    let c = Endpoint::new(0x7f000001, 8096);
    assert_eq!(a, b);
    assert_ne!(a, c);
    assert_eq!(a.ip, 0x7f000001);
    assert_eq!(a.port, 8095);
}
