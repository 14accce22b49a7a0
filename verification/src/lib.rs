//! A reliable, ordered messaging layer over an unreliable, unordered
//! datagram transport: a wire packet codec with a sliding-window selective
//! acknowledgment bitfield, a per-peer connection state machine with loss
//! inference and round-trip-time estimation, and a message queue that turns
//! the ack mechanism into exactly-once, in-order delivery — all on fixed,
//! pre-allocated buffers with wraparound-safe 16-bit sequence arithmetic.
//!
//! Sockets, clocks and peer demultiplexing stay outside: callers hand in
//! received bytes and timestamps, and take away the datagrams to transmit.
pub mod connection;
pub mod message;
pub mod message_queue;
pub mod packet;
pub mod recency;
