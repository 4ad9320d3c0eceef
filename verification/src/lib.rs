use vstd::prelude::*;

mod buffer;
mod chunkq;
mod dialed;
mod endpoint;
mod engine;
mod laws;

pub use buffer::copy_truncated;
pub use buffer::PacketBuffer;
pub use chunkq::ChunkQueue;
pub use dialed::DialedConn;
pub use endpoint::Endpoint;
pub use engine::{Conn, DeliverOutcome, Engine, ReadOutcome, TableEntry};

verus! {

/// Capacity of every bounded queue in the engine: each peer's inbound
/// queue and the listener's accept queue hold at most this many entries.
pub const CHANNEL_LEN: usize = 100;

/// One receive unit: the buffer always keeps at least this much spare
/// room before a receive, so a maximum-size datagram fits.
pub const UDP_BUFFER_SIZE: usize = 17480;

} // verus!
