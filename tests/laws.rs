use soroban_sdk::testutils::EnvTestConfig;
use soroban_sdk::{Bytes, Env};
use wordle_clone::{
    digest_matches, is_all_correct, score_guess, verify_commitment, Error, PuzzleStatus,
    WordleClone, MAX_ATTEMPTS, MAX_PLAYERS_PER_PUZZLE, SCORE_ABSENT, SCORE_CORRECT, SCORE_PRESENT,
};

const ADMIN: u64 = 1;

fn digest(data: &[u8]) -> [u8; 32] {
    let env = Env::new_with_config(EnvTestConfig {
        capture_snapshot_at_drop: false,
    });
    let b = Bytes::from_slice(&env, data);
    env.crypto().sha256(&b).to_array()
}

fn open_puzzle(id: u64, answer: &[u8]) -> WordleClone {
    let mut game = WordleClone::new();
    game.init(ADMIN, 2, 3).unwrap();
    game.create_daily_puzzle(ADMIN, id, digest(answer)).unwrap();
    game
}

fn marks_of(guess: &[u8], scores: &[u32], c: u8) -> usize {
    (0..guess.len()).filter(|&i| guess[i] == c && scores[i] != SCORE_ABSENT).count()
}

#[test]
fn duplicate_guess_letters_never_outnumber_answer_letters() {
    let guess = b"BBBBB";
    let answer = b"ABBEY";
    let scores = score_guess(guess, answer);
    assert_eq!(scores, vec![SCORE_ABSENT, SCORE_CORRECT, SCORE_CORRECT, SCORE_ABSENT, SCORE_ABSENT]);
    assert_eq!(marks_of(guess, &scores, b'B'), 2);
}

#[test]
fn present_takes_leftmost_free_answer_letter() {
    assert_eq!(
        score_guess(b"LLAMA", b"HELLO"),
        vec![SCORE_PRESENT, SCORE_PRESENT, SCORE_ABSENT, SCORE_ABSENT, SCORE_ABSENT]
    );
    assert_eq!(
        score_guess(b"SPEED", b"EERIE"),
        vec![SCORE_ABSENT, SCORE_ABSENT, SCORE_PRESENT, SCORE_PRESENT, SCORE_ABSENT]
    );
}

#[test]
fn all_correct_only_for_the_answer_itself() {
    let same = score_guess(b"CRANE", b"CRANE");
    assert_eq!(same, vec![SCORE_CORRECT; 5]);
    assert!(is_all_correct(&same));
    let other = score_guess(b"CRANK", b"CRANE");
    assert!(!is_all_correct(&other));
    assert!(!is_all_correct(&vec![SCORE_CORRECT; 4]));
    assert!(score_guess(b"", b"").is_empty());
}

#[test]
fn reveal_checks_the_digest_and_keeps_state_on_mismatch() {
    let mut game = open_puzzle(30, b"CRANE");
    assert_eq!(game.reveal_answer(ADMIN, 30, b"CRANK").unwrap_err(), Error::CommitmentMismatch);
    let p = game.get_puzzle(30).unwrap();
    assert_eq!(p.status, PuzzleStatus::Open);
    assert!(p.answer.is_empty());
    let ev = game.reveal_answer(ADMIN, 30, b"CRANE").unwrap();
    assert_eq!(ev.puzzle_id, 30);
    let p = game.get_puzzle(30).unwrap();
    assert_eq!(p.status, PuzzleStatus::Revealed);
    assert_eq!(p.answer, b"CRANE".to_vec());
    assert_eq!(p.answer_commitment, digest(b"CRANE"));
}

#[test]
fn commitment_check_uses_the_real_digest() {
    let c = digest(b"CRANE");
    assert!(verify_commitment(b"CRANE", &c));
    assert!(!verify_commitment(b"STALE", &c));
    let mut padded = [0u8; 32];
    padded[..5].copy_from_slice(b"CRANE");
    assert!(!verify_commitment(b"CRANE", &padded));
    assert!(digest_matches(&c, &c));
    let mut d = c;
    d[31] ^= 1;
    assert!(!digest_matches(&d, &c));
}

#[test]
fn attempt_cap_keeps_exactly_six_records() {
    let mut game = open_puzzle(31, b"CRANE");
    for n in 1..=MAX_ATTEMPTS {
        let ev = game.submit_attempt(5, 31, b"STALE").unwrap();
        assert_eq!(ev.attempt_number, n);
        assert_eq!(ev.guess, b"STALE".to_vec());
    }
    assert_eq!(game.submit_attempt(5, 31, b"CRANE").unwrap_err(), Error::TooManyAttempts);
    assert_eq!(game.get_attempts(5, 31).len(), MAX_ATTEMPTS as usize);
    assert_eq!(game.get_puzzle(31).unwrap().player_count, 1);
}

#[test]
fn puzzle_full_after_max_players() {
    let mut game = open_puzzle(32, b"CRANE");
    for p in 0..MAX_PLAYERS_PER_PUZZLE as u64 {
        game.submit_attempt(1000 + p, 32, b"STALE").unwrap();
    }
    assert_eq!(game.get_puzzle(32).unwrap().player_count, MAX_PLAYERS_PER_PUZZLE);
    assert_eq!(game.submit_attempt(5, 32, b"STALE").unwrap_err(), Error::PuzzleFull);
    game.submit_attempt(1000, 32, b"CRANE").unwrap();
}

#[test]
fn lifecycle_only_moves_forward() {
    let mut game = open_puzzle(33, b"CRANE");
    assert_eq!(game.finalize_result(ADMIN, 0, 33).unwrap_err(), Error::AnswerNotRevealed);
    game.reveal_answer(ADMIN, 33, b"CRANE").unwrap();
    assert_eq!(game.submit_attempt(5, 33, b"CRANE").unwrap_err(), Error::PuzzleNotOpen);
    game.finalize_result(ADMIN, 0, 33).unwrap();
    assert_eq!(game.get_puzzle(33).unwrap().status, PuzzleStatus::Finalized);
    assert_eq!(game.reveal_answer(ADMIN, 33, b"CRANE").unwrap_err(), Error::PuzzleAlreadyFinalized);
    assert_eq!(game.submit_attempt(5, 33, b"CRANE").unwrap_err(), Error::PuzzleNotOpen);
    assert_eq!(game.create_daily_puzzle(ADMIN, 33, digest(b"CRANE")).unwrap_err(), Error::PuzzleAlreadyExists);
}

#[test]
fn attempts_of_a_stranger_are_empty() {
    let game = open_puzzle(34, b"CRANE");
    assert!(game.get_attempts(77, 34).is_empty());
    assert!(game.get_attempts(77, 999).is_empty());
    assert!(game.get_puzzle(999).is_none());
    assert!(!game.is_winner(999, 77));
}

#[test]
fn winner_aggregation_one_winner() {
    let mut game = open_puzzle(35, b"CRANE");
    game.submit_attempt(10, 35, b"CRANE").unwrap();
    game.submit_attempt(11, 35, b"STALE").unwrap();
    game.reveal_answer(ADMIN, 35, b"CRANE").unwrap();
    let ev = game.finalize_result(ADMIN, 10, 35).unwrap();
    assert_eq!(ev.winner_count, 1);
    assert_eq!(ev.answer, b"CRANE".to_vec());
    assert_eq!(game.get_puzzle(35).unwrap().winner_count, 1);
    assert!(game.is_winner(35, 10));
    assert!(!game.is_winner(35, 11));
    let b = game.get_attempts(11, 35);
    assert_eq!(b[0].scores, vec![SCORE_ABSENT, SCORE_ABSENT, SCORE_CORRECT, SCORE_ABSENT, SCORE_CORRECT]);
}

#[test]
fn winner_aggregation_two_winners() {
    let mut game = open_puzzle(36, b"CRANE");
    game.submit_attempt(10, 36, b"STALE").unwrap();
    game.submit_attempt(10, 36, b"CRANE").unwrap();
    game.submit_attempt(11, 36, b"CRANE").unwrap();
    game.reveal_answer(ADMIN, 36, b"CRANE").unwrap();
    game.finalize_result(ADMIN, 11, 36).unwrap();
    assert_eq!(game.get_puzzle(36).unwrap().winner_count, 2);
    assert!(game.is_winner(36, 10));
    assert!(game.is_winner(36, 11));
}

#[test]
fn second_finalize_fails_and_keeps_winner_count() {
    let mut game = open_puzzle(37, b"CRANE");
    game.submit_attempt(10, 37, b"CRANE").unwrap();
    game.reveal_answer(ADMIN, 37, b"CRANE").unwrap();
    game.finalize_result(ADMIN, 10, 37).unwrap();
    assert_eq!(game.finalize_result(ADMIN, 10, 37).unwrap_err(), Error::PuzzleAlreadyFinalized);
    assert_eq!(game.get_puzzle(37).unwrap().winner_count, 1);
    assert!(game.is_winner(37, 10));
}

#[test]
fn error_codes_are_stable() {
    assert_eq!(Error::AlreadyInitialized.code(), 1);
    assert_eq!(Error::CommitmentMismatch.code(), 10);
    assert_eq!(Error::AnswerNotRevealed.code(), 13);
}
