//! A daily word-guessing game settled by commit-reveal.
//!
//! Players submit fixed-length guesses against a puzzle whose answer is only
//! committed to (by its SHA-256 digest) at creation. The administrator later
//! reveals the answer, which must match the commitment, and finalizes the
//! puzzle: every recorded guess is then scored and the winners are recorded.
use vstd::prelude::*;

pub mod commit;
pub mod count;
pub mod game;
pub mod score;

pub use commit::{digest_matches, verify_commitment};
pub use game::{
    AnswerRevealed, Attempt, AttemptSubmitted, Error, PuzzleCreated, PuzzleData, PuzzleFinalized,
    PuzzleStatus, WordleClone,
};
pub use score::{is_all_correct, score_guess};

verus! {

/// Number of characters in every guess and answer.
pub const WORD_LENGTH: u32 = 5;

/// Maximum number of guesses a player may submit per puzzle.
pub const MAX_ATTEMPTS: u32 = 6;

/// Maximum number of distinct players per puzzle.
pub const MAX_PLAYERS_PER_PUZZLE: u32 = 1_000;

/// Storage renewal window applied to every persistent write (about 30 days).
pub const PERSISTENT_BUMP_LEDGERS: u32 = 518_400;

/// Letter is not available in the answer.
pub const SCORE_ABSENT: u32 = 0;

/// Letter is in the answer, at another position.
pub const SCORE_PRESENT: u32 = 1;

/// Letter is in the right position.
pub const SCORE_CORRECT: u32 = 2;

} // verus!
