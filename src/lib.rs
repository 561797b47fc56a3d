//! Hand decomposition and win evaluation for a four-player tile-matching game.
pub mod tile;
pub mod meld;
pub mod calculation;
pub mod hand;
pub mod player;
pub mod game;
