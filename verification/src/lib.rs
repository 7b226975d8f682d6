//! A verified solver for a five-letter word-guessing game. It keeps the
//! set of dictionary words still consistent with every clue seen, inside
//! a precomputed guess-by-clue table that is pruned destructively each
//! turn, and picks guesses by an exact integer form of the greedy
//! expected-remaining-candidates score. Clue computation, the base-3 clue
//! codec, table construction and pruning, guess selection with its
//! documented tie-break, and the solve-to-completion loop — with its
//! termination bound — are all specified and proved; loading word lists,
//! the interactive prompt and the concurrent benchmark harness live in
//! the surrounding application.

use vstd::prelude::*;

pub mod clue;
pub mod game;
pub mod sets;
pub mod solver;
pub mod words;

verus! {

/// Number of letters in every word.
pub const WORD_LEN: usize = 5;

/// Number of distinct clue codes for a five-letter word: three tags per position.
pub const CLUE_COUNT: usize = 243;

} // verus!
