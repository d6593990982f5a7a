//! A solver for the five-letter word game: a constraint state learned from
//! feedback, an elimination scorer that ranks guesses, and a solver loop.

pub mod word;
pub mod state;
pub mod laws;
pub mod search;

pub use search::{best_guess, filter_consistent, get_guesses, score_guess, score_guesses, solve};
pub use state::{PossibleLetter, WordleState};
pub use word::{Letter, Word};
