//! An in-memory registry of peer nodes: peers announce themselves, withdraw,
//! and a random active peer can be drawn to bootstrap connections.

pub mod node;
pub mod registry;
pub mod laws;
pub mod messages;
