//! Authoritative world-state core for a small networked tile game.
//!
//! The crate provides the pieces that keep a client's local mirror of the
//! game world consistent with a single authoritative copy:
//!
//! * an infinite, chunked 2-D tile grid ([`grid::Grid`]),
//! * a generational registry of dynamic entities ([`store::Store`]),
//! * the message schema of the update protocol ([`protocol::Message`]),
//! * the authoritative server state and its join handling ([`world`], [`server`]),
//! * the client-side mirror with its merge semantics ([`mirror`]).
//!
//! Transport, rendering, and map-file parsing are outside collaborators;
//! they talk to this crate through plain values.

pub mod grid;
pub mod mirror;
pub mod pos;
pub mod protocol;
pub mod server;
pub mod store;
pub mod thing;
pub mod tile;
pub mod world;
