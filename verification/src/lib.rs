//! A shedding card game for several players, with a search engine that picks
//! moves by simulated play.
//!
//! The rules engine, the completion of a player's partial view into a full
//! state, the search tree and the move recommender are all verified.

pub mod cards;
pub mod chance;
pub mod moves;
pub mod partial;
pub mod player;
pub mod recommend;
pub mod score;
pub mod search;
pub mod state;
pub mod text;

pub use cards::{Hand, Move};
pub use cards::{ACE, DECK, EIGHT, FIVE, FOUR, JACK, JOKER, KING, NINE, QUEEN, SEVEN, SIX, TEN, THREE, TWO};
pub use moves::{all_moves, moves};
pub use partial::PartialState;
pub use player::{CheatingUCT, FairPlayer, FairUCT, Player};
pub use recommend::best_move;
pub use search::{play_randomly, Node};
pub use state::State;
