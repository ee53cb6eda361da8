//! Channel gateway core: the framing codec, the bounded broadcast buses,
//! the routing tables and the join/leave/heartbeat dispatcher of a
//! Phoenix-style websocket messaging server.
//!
//! The asynchronous shell (sockets, timers, the external pub/sub bus) lives
//! outside this crate; everything here is pure state and is verified.

pub mod bus;
pub mod codec;
pub mod control;
pub mod dispatch;
pub mod json;
