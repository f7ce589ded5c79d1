//! Session and game engine of a realtime, multi-room party card game server.
//!
//! The crate holds the protocol's packet types, the pack store, the per-room game state
//! machine, the lobby and the network hub that routes client events to them. Every
//! operation is synchronous: outbound packets are queued in an outbox that the embedding
//! program drains and writes to its sockets.

pub mod cards;
pub mod clients;
pub mod deck;
pub mod game;
pub mod ids;
pub mod lobby;
pub mod network;
pub mod pack_store;
pub mod protocol;
pub mod rng;
pub mod seqs;
pub mod vec_map;
