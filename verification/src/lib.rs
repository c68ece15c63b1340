//! Core of a BitTorrent tracker over UDP: wire codec, connection-id
//! handshake, access list, per-worker swarm store, and worker pinning
//! arithmetic, with machine-checked contracts.

pub mod access_list;
pub mod byte_order;
pub mod byte_strings;
pub mod codec;
pub mod common;
pub mod config;
pub mod connection;
pub mod cpu_pinning;
pub mod handler;
pub mod rng;
pub mod swarm;
