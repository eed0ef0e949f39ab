//! Transport and session core of a UDP game server: a wrapping tick clock,
//! packet framing, the reliable-message sequencer, player-id allocation and
//! the session dispatcher that drives the login handshake.

pub mod clock;
pub mod packet;
pub mod player;
pub mod sequencer;
pub mod session;
