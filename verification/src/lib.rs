//! A card-matching party game: the card supply, the round state machine and
//! the session rules, with machine-checked contracts.

pub mod client;
pub mod deck;
pub mod deck_laws;
pub mod game;
pub mod game_laws;
pub mod game_view;
pub mod players;
pub mod round;
pub mod schema;
pub mod util;
