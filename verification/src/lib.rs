//! A solver for the word-guessing game Wordle: for a set of words that can
//! still be the secret, and a turn, the number of guesses that the best play
//! is expected to take.
//!
//! - `game`: five-letter words, the tiles that a guess earns against a
//!   secret, and the state machine of a single game.
//! - `word_container`: sets of vocabulary words.
//! - `transition`: the states that a guess can leave, with their weights.
//! - `value`: the value of a search state, as a mathematical function.
//! - `lemmas`: what follows from that definition.
//! - `bert`: the solver, which computes the value with a memo of the states
//!   met and without trying a guess that cannot be the best.

pub mod bert;
pub mod game;
pub mod lemmas;
pub mod transition;
pub mod value;
pub mod word_container;

use vstd::prelude::*;

verus! {

/// Number of words that can be the secret of a game.
pub const WORDS_N: usize = 2315;

/// Number of words that can be guessed; word indices range over this capacity.
pub const GUESSES_N: usize = 12972;

} // verus!
