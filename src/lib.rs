//! Rules engine for a two- or four-seat trick-capture card game played with a
//! forty-card deck: the card model, the seats, the room state machine and the
//! turn actions (lay down or capture, claim a chain, pass).

pub mod card;
pub mod game;
pub mod room;
pub mod user;
