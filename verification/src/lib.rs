//! Relay core for a two-player board-game server: wire codec for the
//! length-prefixed tagged envelope, the player/room registry, and the
//! per-connection dispatch rules that turn a decoded frame into state
//! changes and outbound sends.

pub mod codec;
pub mod dispatch;
pub mod lits;
pub mod msg;
pub mod registry;
