//! Server-side engine for a cooperative multiplayer minesweeper game.
//!
//! The crate holds the four core pieces of the game server: the board
//! state machine with its mine placement, flood reveal and chording
//! algorithms (`board`), the binary wire protocol (`encoding`), the
//! bounded player registry (`player_list`) with its display-name
//! generator (`names`), and the event-serialization logic that turns a
//! stream of client actions into board mutations and outbound packets
//! (`actor`).

pub mod actor;
pub mod board;
pub mod encoding;
pub mod names;
pub mod player_list;
mod random;
