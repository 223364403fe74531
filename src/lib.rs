//! The coordinator of a multiplayer lobby service: it tracks connected players,
//! groups them into rooms, runs public matchmaking, keeps one host per room,
//! moves rooms between lobby and match, and relays in-match traffic.
//!
//! Every operation works on the coordinator's own state and returns the
//! deliveries it wants made; pushing them to connections is left to the caller.

pub mod protocol;
pub mod messages;
pub mod laws;
pub mod model;
pub mod relay;
pub mod server;
