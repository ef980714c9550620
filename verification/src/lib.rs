//! Correlation-based request/response core for a datagram transport.
//!
//! The library contains the deterministic heart of the client: the wire
//! codec for the MessagePack envelope, the correlation table that pairs
//! in-flight requests with their waiters, and the retry/timeout decision
//! logic of the request engine.  Socket I/O, task scheduling and the
//! floating-point coordinate conversions live outside the library and hand
//! plain values in and out.

pub mod codec;
pub mod earth;
pub mod engine;
pub mod msgpack;
pub mod packet;
pub mod receiver;
pub mod table;
