//! Resumable reliable-stream layer for an SSH-over-QUIC tunnel.
//!
//! The crate holds the verified core: the framing codec for DATA and ACK
//! frames, the sliding-window retransmission queue, the server-side
//! connection pool bookkeeping, and the per-session decision logic.
//! Network and terminal I/O live outside the library and hand it plain
//! byte vectors.

pub mod ident;
pub mod pkt_buf;
pub mod pool;
pub mod queue;
pub mod session;
