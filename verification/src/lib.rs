//! Peer-to-peer mesh runtime for small smart-home devices and gateways.
//!
//! The crate holds the verified core of the node: the per-peer context
//! document with its vector clock, the logical stream state machine, the
//! wire codec for the envelopes the mesh exchanges, the command queue that
//! handles feed the runtime through, the runtime's own decision logic, and
//! the embedded bridge's packet handling. Networking itself (the swarm,
//! sockets, timers) lives outside the crate and drives these components
//! with plain values.

pub mod assoc;
pub mod bridge;
pub mod clock;
pub mod codec;
pub mod command;
pub mod config;
pub mod context;
pub mod error;
pub mod events;
pub mod json;
pub mod peer;
pub mod runtime;
pub mod stream;
pub mod text;
