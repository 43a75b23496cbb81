//! Core of a line-oriented chat relay: a registry of connected peers, a
//! broadcast engine that fans a message out to every peer but its sender,
//! the per-connection read-loop transitions, and the client's dual-channel
//! send/receive decisions. All network I/O lives outside this crate; the
//! functions here compute, from plain values, exactly what each loop of the
//! relay must do next.

pub mod broadcast;
pub mod cipher;
pub mod client;
pub mod frame;
pub mod registry;
pub mod relay;
