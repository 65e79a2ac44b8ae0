//! A verified core for a real-time collaborative session server.
//!
//! Clients share a small scene of movable rectangles. The `session` module
//! holds the single authoritative state and its serialized command
//! processing; the `transport` module translates between wire frames and
//! typed commands and events; the `connection` module decides what a
//! connection's inbound half does with each incoming frame. Socket and
//! channel plumbing live outside this crate.

pub mod connection;
pub mod num;
pub mod session;
pub mod transport;
