//! An authoritative state-sync server core for a small multiplayer game.
//!
//! Clients send datagrams that connect, disconnect, chat, report a position or
//! ask for the list of players. The server keeps one entry per connected
//! player and answers position reports and list requests.
//!
//! * [`bytes`] holds the layouts of integers and counts on the wire.
//! * [`error`] holds the reasons for which bytes are not decoded.
//! * [`ident`] holds the encoding of identifiers and of lists of them.
//! * [`text`] holds the encoding of text.
//! * [`player`] holds a player's state and the encoding of states and of
//!   lists of them.
//! * [`packet`] holds the messages and their encoding.
//! * [`registry`] holds the player registry.
//! * [`dispatch`] holds the dispatcher, which applies messages to the
//!   registry, and what holds of it.
//!
//! Every decoder comes with the two facts that make the encoding a format:
//! what was encoded decodes to itself, and what decodes was encoded.

pub mod bytes;
pub mod dispatch;
pub mod error;
pub mod ident;
pub mod packet;
pub mod player;
pub mod registry;
pub mod text;

pub use dispatch::{handle_datagram, handle_packet};
pub use error::DecodeError;
pub use ident::{decode_ids, encode_ids};
pub use packet::Packet;
pub use player::{decode_players, encode_players, PlayerState, Position};
pub use registry::State;
