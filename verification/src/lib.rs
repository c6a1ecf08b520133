//! Core of a minimal real-time message relay.
//!
//! A long-lived server accepts peer connections and rebroadcasts every
//! message received from one peer to the other connected peers.  This crate
//! holds the verified heart of that server: the bookkeeping of live
//! connections ([`registry::Registry`]), the fan-out delivery model
//! ([`relay::Relay`]), and the per-connection lifecycle state machine
//! ([`handler`]).  The surrounding process (sockets, threads, the console)
//! drives these components and performs the actual I/O.

pub mod handler;
pub mod registry;
pub mod relay;
