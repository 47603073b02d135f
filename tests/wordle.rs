use soroban_sdk::testutils::EnvTestConfig;
use soroban_sdk::{Bytes, Env};
use wordle_clone::{
    score_guess, Error, PuzzleStatus, WordleClone, MAX_ATTEMPTS, SCORE_ABSENT, SCORE_CORRECT,
    SCORE_PRESENT, WORD_LENGTH,
};

const ADMIN: u64 = 1;
const PRIZE_POOL: u64 = 2;
const BALANCE: u64 = 3;

fn sha256_commitment(data: &[u8]) -> [u8; 32] {
    let env = Env::new_with_config(EnvTestConfig {
        capture_snapshot_at_drop: false,
    });
    let b = Bytes::from_slice(&env, data);
    env.crypto().sha256(&b).to_array()
}

fn setup() -> WordleClone {
    let mut game = WordleClone::new();
    game.init(ADMIN, PRIZE_POOL, BALANCE).unwrap();
    game
}

#[test]
fn test_full_happy_path() {
    let mut game = setup();
    let commitment = sha256_commitment(b"CRANE");
    game.create_daily_puzzle(ADMIN, 1, commitment).unwrap();

    let winner = 100u64;
    let loser = 101u64;

    game.submit_attempt(winner, 1, b"CRANE").unwrap();
    game.submit_attempt(loser, 1, b"STALE").unwrap();

    game.reveal_answer(ADMIN, 1, b"CRANE").unwrap();
    game.finalize_result(ADMIN, winner, 1).unwrap();

    let puzzle = game.get_puzzle(1).unwrap();
    assert_eq!(puzzle.winner_count, 1);
    assert_eq!(puzzle.status, PuzzleStatus::Finalized);

    assert!(game.is_winner(1, winner));
    assert!(!game.is_winner(1, loser));
}

#[test]
fn test_scoring_all_correct() {
    let mut game = setup();
    let commitment = sha256_commitment(b"PIANO");
    game.create_daily_puzzle(ADMIN, 2, commitment).unwrap();

    let player = 100u64;
    game.submit_attempt(player, 2, b"PIANO").unwrap();

    game.reveal_answer(ADMIN, 2, b"PIANO").unwrap();
    game.finalize_result(ADMIN, player, 2).unwrap();

    let attempts = game.get_attempts(player, 2);
    assert_eq!(attempts.len(), 1);
    let att = &attempts[0];
    for i in 0..WORD_LENGTH as usize {
        assert_eq!(att.scores[i], SCORE_CORRECT);
    }
}

#[test]
fn test_scoring_present_and_absent() {
    let mut game = setup();
    // answer: CRANE, guess: NACRE — every letter is in the answer
    let commitment = sha256_commitment(b"CRANE");
    game.create_daily_puzzle(ADMIN, 3, commitment).unwrap();

    let player = 100u64;
    game.submit_attempt(player, 3, b"NACRE").unwrap();

    game.reveal_answer(ADMIN, 3, b"CRANE").unwrap();
    game.finalize_result(ADMIN, player, 3).unwrap();

    let attempts = game.get_attempts(player, 3);
    let att = &attempts[0];
    assert_eq!(att.scores.len(), WORD_LENGTH as usize);
    // No score should be ABSENT since every letter is in CRANE.
    for i in 0..WORD_LENGTH as usize {
        assert!(att.scores[i] >= SCORE_PRESENT);
    }
}

#[test]
fn test_max_attempts_enforced() {
    let mut game = setup();
    let commitment = sha256_commitment(b"CRANE");
    game.create_daily_puzzle(ADMIN, 4, commitment).unwrap();

    let player = 100u64;
    for _ in 0..MAX_ATTEMPTS {
        game.submit_attempt(player, 4, b"STALE").unwrap();
    }

    let result = game.submit_attempt(player, 4, b"STALE");
    assert!(result.is_err());
}

#[test]
fn test_invalid_word_length_rejected() {
    let mut game = setup();
    let commitment = sha256_commitment(b"CRANE");
    game.create_daily_puzzle(ADMIN, 5, commitment).unwrap();

    let player = 100u64;
    let result = game.submit_attempt(player, 5, b"HI");
    assert!(result.is_err());
}

#[test]
fn test_submit_to_nonexistent_puzzle() {
    let mut game = setup();
    let player = 100u64;
    let result = game.submit_attempt(player, 99, b"CRANE");
    assert!(result.is_err());
}

#[test]
fn test_commitment_mismatch_rejected() {
    let mut game = setup();
    let commitment = sha256_commitment(b"CRANE");
    game.create_daily_puzzle(ADMIN, 6, commitment).unwrap();

    let result = game.reveal_answer(ADMIN, 6, b"STALE");
    assert!(result.is_err());
}

#[test]
fn test_non_admin_cannot_create_puzzle() {
    let mut game = setup();
    let imposter = 200u64;
    let commitment = sha256_commitment(b"CRANE");

    let result = game.create_daily_puzzle(imposter, 7, commitment);
    assert!(result.is_err());
}

#[test]
fn test_non_admin_cannot_finalize() {
    let mut game = setup();
    let commitment = sha256_commitment(b"CRANE");
    game.create_daily_puzzle(ADMIN, 8, commitment).unwrap();
    game.reveal_answer(ADMIN, 8, b"CRANE").unwrap();

    let imposter = 200u64;
    let dummy_player = 201u64;

    let result = game.finalize_result(imposter, dummy_player, 8);
    assert!(result.is_err());
}

#[test]
fn test_cannot_init_twice() {
    let mut game = setup();
    let result = game.init(ADMIN, PRIZE_POOL, BALANCE);
    assert!(result.is_err());
}

#[test]
fn test_duplicate_puzzle_rejected() {
    let mut game = setup();
    let commitment = sha256_commitment(b"CRANE");
    game.create_daily_puzzle(ADMIN, 10, commitment).unwrap();

    let result = game.create_daily_puzzle(ADMIN, 10, commitment);
    assert!(result.is_err());
}

#[test]
fn test_submit_after_reveal_rejected() {
    let mut game = setup();
    let commitment = sha256_commitment(b"CRANE");
    game.create_daily_puzzle(ADMIN, 11, commitment).unwrap();
    game.reveal_answer(ADMIN, 11, b"CRANE").unwrap();

    let late = 100u64;
    let result = game.submit_attempt(late, 11, b"CRANE");
    assert!(result.is_err());
}

#[test]
fn test_submit_after_finalize_rejected() {
    let mut game = setup();
    let commitment = sha256_commitment(b"CRANE");
    game.create_daily_puzzle(ADMIN, 20, commitment).unwrap();
    game.reveal_answer(ADMIN, 20, b"CRANE").unwrap();

    let dummy = 100u64;
    game.finalize_result(ADMIN, dummy, 20).unwrap();

    let late = 101u64;
    let result = game.submit_attempt(late, 20, b"CRANE");
    assert!(result.is_err());
}

#[test]
fn test_double_finalize_rejected() {
    let mut game = setup();
    let commitment = sha256_commitment(b"CRANE");
    game.create_daily_puzzle(ADMIN, 12, commitment).unwrap();
    game.reveal_answer(ADMIN, 12, b"CRANE").unwrap();

    let dummy = 100u64;
    game.finalize_result(ADMIN, dummy, 12).unwrap();

    let result = game.finalize_result(ADMIN, dummy, 12);
    assert!(result.is_err());
}

#[test]
fn test_winner_on_last_guess() {
    let mut game = setup();
    let commitment = sha256_commitment(b"CRANE");
    game.create_daily_puzzle(ADMIN, 13, commitment).unwrap();

    let player = 100u64;
    for _ in 0..(MAX_ATTEMPTS - 1) {
        game.submit_attempt(player, 13, b"STALE").unwrap();
    }
    game.submit_attempt(player, 13, b"CRANE").unwrap();

    game.reveal_answer(ADMIN, 13, b"CRANE").unwrap();
    game.finalize_result(ADMIN, player, 13).unwrap();

    assert!(game.is_winner(13, player));
}

#[test]
fn test_get_attempts_no_submissions() {
    let mut game = setup();
    let commitment = sha256_commitment(b"CRANE");
    game.create_daily_puzzle(ADMIN, 14, commitment).unwrap();

    let stranger = 100u64;
    let attempts = game.get_attempts(stranger, 14);
    assert_eq!(attempts.len(), 0);
}

#[test]
fn test_finalize_without_reveal_rejected() {
    let mut game = setup();
    let commitment = sha256_commitment(b"CRANE");
    game.create_daily_puzzle(ADMIN, 15, commitment).unwrap();

    let dummy = 100u64;
    let result = game.finalize_result(ADMIN, dummy, 15);
    assert!(result.is_err());
}

#[test]
fn test_scoring_duplicate_letters() {
    // answer: S P E E D, guess: E E R I E
    let scores = score_guess(b"EERIE", b"SPEED");

    assert_eq!(scores[0], SCORE_PRESENT); // E → present (answer[2])
    assert_eq!(scores[1], SCORE_PRESENT); // E → present (answer[3])
    assert_eq!(scores[2], SCORE_ABSENT); // R → absent
    assert_eq!(scores[3], SCORE_ABSENT); // I → absent
    assert_eq!(scores[4], SCORE_ABSENT); // E → absent (both E's used)
}

#[test]
fn test_multiple_winners() {
    let mut game = setup();
    let commitment = sha256_commitment(b"CRANE");
    game.create_daily_puzzle(ADMIN, 16, commitment).unwrap();

    let w1 = 100u64;
    let w2 = 101u64;
    let loser = 102u64;

    game.submit_attempt(w1, 16, b"CRANE").unwrap();
    game.submit_attempt(w2, 16, b"CRANE").unwrap();
    game.submit_attempt(loser, 16, b"STALE").unwrap();

    game.reveal_answer(ADMIN, 16, b"CRANE").unwrap();
    game.finalize_result(ADMIN, w1, 16).unwrap();

    let puzzle = game.get_puzzle(16).unwrap();
    assert_eq!(puzzle.winner_count, 2);
    assert!(game.is_winner(16, w1));
    assert!(game.is_winner(16, w2));
    assert!(!game.is_winner(16, loser));
}

#[test]
fn test_error_kinds_are_reported() {
    let mut game = WordleClone::new();
    let commitment = sha256_commitment(b"CRANE");
    assert_eq!(game.create_daily_puzzle(ADMIN, 1, commitment).unwrap_err(), Error::NotInitialized);
    game.init(ADMIN, PRIZE_POOL, BALANCE).unwrap();
    assert_eq!(game.init(ADMIN, PRIZE_POOL, BALANCE).unwrap_err(), Error::AlreadyInitialized);
    assert_eq!(game.create_daily_puzzle(7, 1, commitment).unwrap_err(), Error::NotAuthorized);
    game.create_daily_puzzle(ADMIN, 1, commitment).unwrap();
    assert_eq!(game.create_daily_puzzle(ADMIN, 1, commitment).unwrap_err(), Error::PuzzleAlreadyExists);
    assert_eq!(game.submit_attempt(9, 2, b"CRANE").unwrap_err(), Error::PuzzleNotFound);
    assert_eq!(game.submit_attempt(9, 1, b"CRANES").unwrap_err(), Error::InvalidWordLength);
    assert_eq!(game.reveal_answer(ADMIN, 1, b"CRAN").unwrap_err(), Error::InvalidWordLength);
    assert_eq!(game.reveal_answer(ADMIN, 2, b"CRANE").unwrap_err(), Error::PuzzleNotFound);
    assert_eq!(game.finalize_result(ADMIN, 9, 1).unwrap_err(), Error::AnswerNotRevealed);
    assert_eq!(game.reveal_answer(ADMIN, 1, b"STALE").unwrap_err(), Error::CommitmentMismatch);
    game.reveal_answer(ADMIN, 1, b"CRANE").unwrap();
    assert_eq!(game.submit_attempt(9, 1, b"CRANE").unwrap_err(), Error::PuzzleNotOpen);
    assert_eq!(game.reveal_answer(ADMIN, 1, b"CRANE").unwrap_err(), Error::PuzzleAlreadyFinalized);
    assert_eq!(game.finalize_result(ADMIN, 9, 2).unwrap_err(), Error::PuzzleNotFound);
    game.finalize_result(ADMIN, 9, 1).unwrap();
    assert_eq!(game.finalize_result(ADMIN, 9, 1).unwrap_err(), Error::PuzzleAlreadyFinalized);
    assert_eq!(game.reveal_answer(7, 1, b"CRANE").unwrap_err(), Error::NotAuthorized);
}
