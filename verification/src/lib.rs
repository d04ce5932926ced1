//! A verified engine for a two-player grid battle game: boards, fleets,
//! attacks and the room state machine that sequences a match.

pub mod board;
pub mod code;
pub mod consistency;
pub mod fleet;
pub mod game;
pub mod play;
pub mod random;
pub mod redundant;
pub mod rendezvous;
pub mod rules;
pub mod store;
pub mod sunk;
pub mod text;
pub mod wire;
