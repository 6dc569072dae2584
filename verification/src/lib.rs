//! A card game for an even number of players: the deck and its cards, what
//! a player puts on the table, how a round is scored, how the host keeps the
//! table between rounds, and how the command line is checked.

pub mod game;
pub mod player;
pub mod scorer;
pub mod validator;
pub mod host;
