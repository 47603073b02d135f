//! The puzzle lifecycle: creation, guesses, commit-reveal, and finalization.
use std::collections::HashMap;

use vstd::prelude::*;

use crate::commit::{sha256_of, verify_commitment};
use crate::count::count_where;
use crate::score::{is_all_correct, is_solved, score, score_guess};
use crate::{MAX_ATTEMPTS, MAX_PLAYERS_PER_PUZZLE, WORD_LENGTH};

verus! {

broadcast use vstd::std_specs::hash::group_hash_axioms;

/// Failures of the game's operations.
#[derive(Clone, Copy, Debug, PartialEq, Eq, Structural)]
pub enum Error {
    AlreadyInitialized,
    NotInitialized,
    NotAuthorized,
    PuzzleAlreadyExists,
    PuzzleNotFound,
    PuzzleNotOpen,
    PuzzleAlreadyFinalized,
    TooManyAttempts,
    InvalidWordLength,
    CommitmentMismatch,
    Overflow,
    PuzzleFull,
    AnswerNotRevealed,
}

impl Error {
    /// The stable numeric code of the error, as seen by callers of the contract.
    pub fn code(&self) -> (r: u32)
        ensures
            1 <= r <= 13,
            r == match *self {
                Error::AlreadyInitialized => 1u32,
                Error::NotInitialized => 2,
                Error::NotAuthorized => 3,
                Error::PuzzleAlreadyExists => 4,
                Error::PuzzleNotFound => 5,
                Error::PuzzleNotOpen => 6,
                Error::PuzzleAlreadyFinalized => 7,
                Error::TooManyAttempts => 8,
                Error::InvalidWordLength => 9,
                Error::CommitmentMismatch => 10,
                Error::Overflow => 11,
                Error::PuzzleFull => 12,
                Error::AnswerNotRevealed => 13,
            },
    {
        match *self {
            Error::AlreadyInitialized => 1,
            Error::NotInitialized => 2,
            Error::NotAuthorized => 3,
            Error::PuzzleAlreadyExists => 4,
            Error::PuzzleNotFound => 5,
            Error::PuzzleNotOpen => 6,
            Error::PuzzleAlreadyFinalized => 7,
            Error::TooManyAttempts => 8,
            Error::InvalidWordLength => 9,
            Error::CommitmentMismatch => 10,
            Error::Overflow => 11,
            Error::PuzzleFull => 12,
            Error::AnswerNotRevealed => 13,
        }
    }
}

/// Lifecycle state of a puzzle: Open, then Revealed, then Finalized.
#[derive(Clone, Copy, Debug, PartialEq, Eq, Structural)]
pub enum PuzzleStatus {
    /// Accepting player guesses.
    Open,
    /// The answer is published; no more guesses, not yet scored.
    Revealed,
    /// Every attempt is scored and the winners are recorded.
    Finalized,
}

/// Puzzle metadata and result summary.
#[derive(Clone, Debug)]
pub struct PuzzleData {
    /// SHA-256 digest of the answer, fixed at creation.
    pub answer_commitment: [u8; 32],
    pub status: PuzzleStatus,
    /// The plaintext answer; empty until it is revealed.
    pub answer: Vec<u8>,
    /// Number of players who solved the puzzle.
    pub winner_count: u32,
    /// Number of distinct players who submitted at least one attempt.
    pub player_count: u32,
}

/// The value of a [`PuzzleData`].
pub struct PuzzleView {
    pub answer_commitment: Seq<u8>,
    pub status: PuzzleStatus,
    pub answer: Seq<u8>,
    pub winner_count: u32,
    pub player_count: u32,
}

impl View for PuzzleData {
    type V = PuzzleView;

    open spec fn view(&self) -> PuzzleView {
        PuzzleView {
            answer_commitment: self.answer_commitment@,
            status: self.status,
            answer: self.answer@,
            winner_count: self.winner_count,
            player_count: self.player_count,
        }
    }
}

/// One guess of a player, with its per-position scores once finalized.
#[derive(Clone, Debug)]
pub struct Attempt {
    pub guess: Vec<u8>,
    /// Empty until the puzzle is finalized; then one score per letter.
    pub scores: Vec<u32>,
}

/// The value of an [`Attempt`].
pub struct AttemptView {
    pub guess: Seq<u8>,
    pub scores: Seq<u32>,
}

impl View for Attempt {
    type V = AttemptView;

    open spec fn view(&self) -> AttemptView {
        AttemptView { guess: self.guess@, scores: self.scores@ }
    }
}

/// The values of a list of attempts.
pub open spec fn attempts_view(v: Seq<Attempt>) -> Seq<AttemptView> {
    v.map_values(|a: Attempt| a@)
}

/// Notification that a puzzle was created.
#[derive(Clone, Debug)]
pub struct PuzzleCreated {
    pub puzzle_id: u64,
    pub answer_commitment: [u8; 32],
}

/// Notification that a guess was recorded.
#[derive(Clone, Debug)]
pub struct AttemptSubmitted {
    pub puzzle_id: u64,
    pub player: u64,
    /// The number of the guess for this player, counting from 1.
    pub attempt_number: u32,
    pub guess: Vec<u8>,
}

/// Notification that the answer of a puzzle was revealed.
#[derive(Clone, Copy, Debug)]
pub struct AnswerRevealed {
    pub puzzle_id: u64,
}

/// Notification that a puzzle was finalized.
#[derive(Clone, Debug)]
pub struct PuzzleFinalized {
    pub puzzle_id: u64,
    pub answer: Vec<u8>,
    pub winner_count: u32,
}

/// Whether an operation's result agrees with its expected outcome: both
/// succeed, or both fail with the same error.
pub open spec fn agrees<T>(r: Result<T, Error>, o: Result<(), Error>) -> bool {
    match r {
        Ok(_) => o is Ok,
        Err(e) => o == Err::<(), Error>(e),
    }
}

/// What is recorded of one puzzle.
pub struct PuzzleModel {
    pub data: PuzzleView,
    /// Players in order of their first attempt.
    pub players: Seq<u64>,
    /// Attempts of each player who submitted at least one.
    pub attempts: Map<u64, Seq<AttemptView>>,
    /// Players recorded as having solved the puzzle.
    pub winners: Set<u64>,
}

/// What the game holds: the administrator and collaborating contracts, once
/// set, and every puzzle by id.
pub struct GameState {
    pub admin: Option<u64>,
    /// The prize pool and balance contracts given at initialization.
    pub collaborators: Option<(u64, u64)>,
    pub puzzles: Map<u64, PuzzleModel>,
}

/// The attempts of player `p` in puzzle `m`; empty when there are none.
pub open spec fn attempts_of(m: PuzzleModel, p: u64) -> Seq<AttemptView> {
    if m.attempts.contains_key(p) {
        m.attempts[p]
    } else {
        Seq::empty()
    }
}

/// The attempts of player `p` with the scores they get against `answer`.
pub open spec fn scored(attempts: Seq<AttemptView>, answer: Seq<u8>) -> Seq<AttemptView> {
    attempts.map_values(|a: AttemptView| AttemptView { guess: a.guess, scores: score(a.guess, answer) })
}

/// Whether one of the attempts scores all CORRECT against `answer`.
pub open spec fn solved_by(attempts: Seq<AttemptView>, answer: Seq<u8>) -> bool {
    exists|k: int| 0 <= k < attempts.len() && is_solved(score(#[trigger] attempts[k].guess, answer))
}

/// The number of listed players with an attempt that solves `answer`.
pub open spec fn winners_among(m: PuzzleModel, answer: Seq<u8>) -> nat {
    count_where(m.players.len() as int, |i: int| solved_by(attempts_of(m, m.players[i]), answer))
}

/// One player of a puzzle: their attempts, in order, and whether they won.
struct PlayerEntry {
    player: u64,
    attempts: Vec<Attempt>,
    winner: bool,
}

/// A puzzle's data and its players, in order of their first attempt.
struct PuzzleRecord {
    data: PuzzleData,
    entries: Vec<PlayerEntry>,
}

/// Whether some entry belongs to `p`.
spec fn has_player_in(e: Seq<PlayerEntry>, p: u64) -> bool {
    exists|i: int| 0 <= i < e.len() && e[i].player == p
}

/// An entry that belongs to `p`.
spec fn index_in(e: Seq<PlayerEntry>, p: u64) -> int {
    choose|i: int| 0 <= i < e.len() && e[i].player == p
}

/// The model of a list of player entries, with the puzzle's data.
spec fn entries_model(data: PuzzleView, e: Seq<PlayerEntry>) -> PuzzleModel {
    PuzzleModel {
        data,
        players: e.map_values(|x: PlayerEntry| x.player),
        attempts: Map::new(
            |p: u64| has_player_in(e, p),
            |p: u64| attempts_view(e[index_in(e, p)].attempts@),
        ),
        winners: Set::new(|p: u64| has_player_in(e, p) && e[index_in(e, p)].winner),
    }
}

/// For each entry, whether one of its attempts solves `answer`.
spec fn solved_flags(e: Seq<PlayerEntry>, answer: Seq<u8>) -> spec_fn(int) -> bool {
    |j: int| solved_by(attempts_view(e[j].attempts@), answer)
}

impl PuzzleRecord {
    /// What the record holds, as the game's contracts see it.
    spec fn model(self) -> PuzzleModel {
        entries_model(self.data@, self.entries@)
    }

    /// No player has two entries.
    spec fn distinct(self) -> bool {
        forall|i: int, j: int|
            0 <= i < self.entries@.len() && 0 <= j < self.entries@.len()
                && self.entries@[i].player == self.entries@[j].player ==> i == j
    }

    /// Entry `i` is where the model finds its player.
    proof fn lemma_model_at(self, i: int)
        requires
            self.distinct(),
            0 <= i < self.entries@.len(),
        ensures
            has_player_in(self.entries@, self.entries@[i].player),
            index_in(self.entries@, self.entries@[i].player) == i,
            self.model().attempts.contains_key(self.entries@[i].player),
            self.model().attempts[self.entries@[i].player] == attempts_view(self.entries@[i].attempts@),
            self.model().winners.contains(self.entries@[i].player) == self.entries@[i].winner,
    {
        let p = self.entries@[i].player;
        assert(has_player_in(self.entries@, p));
        let j = index_in(self.entries@, p);
        assert(self.entries@[j].player == p);
    }

    /// Counts agree with the entries, the caps hold, every guess has one
    /// letter per position, attempts carry scores (one per letter) and
    /// players are winners only once finalized, and the answer is known
    /// exactly once revealed.
    spec fn wf(self) -> bool {
        let e = self.entries@;
        &&& e.len() <= MAX_PLAYERS_PER_PUZZLE
        &&& self.data.player_count == e.len()
        &&& self.distinct()
        &&& forall|i: int|
            0 <= i < e.len() ==> 1 <= #[trigger] e[i].attempts@.len() <= MAX_ATTEMPTS
        &&& forall|i: int, k: int|
            0 <= i < e.len() && 0 <= k < e[i].attempts@.len()
                ==> (#[trigger] e[i].attempts@[k]).guess@.len() == WORD_LENGTH
        &&& forall|i: int, k: int|
            0 <= i < e.len() && 0 <= k < e[i].attempts@.len()
                ==> (#[trigger] e[i].attempts@[k]).scores@.len() == if self.data.status
                == PuzzleStatus::Finalized {
                WORD_LENGTH as nat
            } else {
                0
            }
        &&& forall|i: int| 0 <= i < e.len() && #[trigger] e[i].winner ==> self.data.status
            == PuzzleStatus::Finalized
        &&& self.data.status == PuzzleStatus::Open ==> self.data.answer@.len() == 0
        &&& self.data.status != PuzzleStatus::Open ==> self.data.answer@.len() == WORD_LENGTH
    }
}

/// The game: an administrator and the puzzles with their attempts and winners.
pub struct WordleClone {
    admin: Option<u64>,
    collaborators: Option<(u64, u64)>,
    puzzles: HashMap<u64, PuzzleRecord>,
}

impl View for WordleClone {
    type V = GameState;

    closed spec fn view(&self) -> GameState {
        GameState {
            admin: self.admin,
            collaborators: self.collaborators,
            puzzles: self.puzzles@.map_values(|r: PuzzleRecord| r.model()),
        }
    }
}

impl WordleClone {
    /// The internal invariant: every puzzle's records agree with each other
    /// and respect the caps on players and attempts.
    pub closed spec fn wf(&self) -> bool {
        forall|id: u64| #[trigger] self.puzzles@.contains_key(id) ==> self.puzzles@[id].wf()
    }

    /// A game with no administrator and no puzzles.
    pub fn new() -> (r: Self)
        ensures
            r.wf(),
            r@.admin is None,
            r@.collaborators is None,
            r@.puzzles == Map::<u64, PuzzleModel>::empty(),
    {
        let r = WordleClone {
            admin: None,
            collaborators: None,
            puzzles: HashMap::new(),
        };
        assert(r@.puzzles =~= Map::<u64, PuzzleModel>::empty());
        r
    }

    /// Sets the administrator and the collaborating contracts, once.
    pub fn init(&mut self, admin: u64, prize_pool_contract: u64, balance_contract: u64) -> (r: Result<(), Error>)
        requires
            old(self).wf(),
        ensures
            final(self).wf(),
            old(self)@.admin is Some ==> r == Err::<(), Error>(Error::AlreadyInitialized)
                && *final(self) == *old(self),
            old(self)@.admin is None ==> r is Ok && final(self)@ == (GameState {
                admin: Some(admin),
                collaborators: Some((prize_pool_contract, balance_contract)),
                puzzles: old(self)@.puzzles,
            }),
    {
        if self.admin.is_some() {
            return Err(Error::AlreadyInitialized);
        }
        self.admin = Some(admin);
        self.collaborators = Some((prize_pool_contract, balance_contract));
        Ok(())
    }

    /// Ok when `caller` is the administrator; otherwise the error to return.
    fn check_admin(&self, caller: u64) -> (r: Result<(), Error>)
        ensures
            r == admin_check(self@, caller),
    {
        match self.admin {
            None => Err(Error::NotInitialized),
            Some(a) => if a == caller {
                Ok(())
            } else {
                Err(Error::NotAuthorized)
            },
        }
    }

    /// Creates puzzle `puzzle_id` with the digest of its answer. Admin only.
    pub fn create_daily_puzzle(&mut self, caller: u64, puzzle_id: u64, answer_commitment: [u8; 32]) -> (r: Result<PuzzleCreated, Error>)
        requires
            old(self).wf(),
        ensures
            final(self).wf(),
            agrees(r, create_outcome(old(self)@, caller, puzzle_id)),
            r matches Ok(ev) ==> ev.puzzle_id == puzzle_id && ev.answer_commitment == answer_commitment,
            r is Err ==> *final(self) == *old(self),
            r is Ok ==> final(self)@ == (GameState {
                puzzles: old(self)@.puzzles.insert(puzzle_id, PuzzleModel {
                    data: PuzzleView {
                        answer_commitment: answer_commitment@,
                        status: PuzzleStatus::Open,
                        answer: Seq::empty(),
                        winner_count: 0,
                        player_count: 0,
                    },
                    players: Seq::empty(),
                    attempts: Map::empty(),
                    winners: Set::empty(),
                }),
                ..old(self)@
            }),
    {
        if let Err(e) = self.check_admin(caller) {
            return Err(e);
        }
        if self.puzzles.contains_key(&puzzle_id) {
            return Err(Error::PuzzleAlreadyExists);
        }
        let rec = PuzzleRecord {
            data: PuzzleData {
                answer_commitment,
                status: PuzzleStatus::Open,
                answer: Vec::new(),
                winner_count: 0,
                player_count: 0,
            },
            entries: Vec::new(),
        };
        proof {
            let m = rec.model();
            assert(m.attempts =~= Map::empty());
            assert(m.winners =~= Set::empty());
            assert(m.players =~= Seq::empty());
        }
        self.puzzles.insert(puzzle_id, rec);
        proof {
            assert(self@.puzzles =~= old(self)@.puzzles.insert(puzzle_id, rec.model()));
        }
        Ok(PuzzleCreated { puzzle_id, answer_commitment })
    }

    /// Records `attempt` as the next guess of `player` for puzzle `puzzle_id`.
    pub fn submit_attempt(&mut self, player: u64, puzzle_id: u64, attempt: &[u8]) -> (r: Result<AttemptSubmitted, Error>)
        requires
            old(self).wf(),
        ensures
            final(self).wf(),
            agrees(r, submit_outcome(old(self)@, player, puzzle_id, attempt@)),
            r matches Ok(ev) ==> ev.puzzle_id == puzzle_id && ev.player == player && ev.guess@ == attempt@
                && ev.attempt_number == attempts_of(old(self)@.puzzles[puzzle_id], player).len() + 1,
            r is Err ==> *final(self) == *old(self),
            r is Ok ==> final(self)@ == (GameState {
                puzzles: old(self)@.puzzles.insert(
                    puzzle_id,
                    after_submit(old(self)@.puzzles[puzzle_id], player, attempt@),
                ),
                ..old(self)@
            }),
    {
        if attempt.len() != WORD_LENGTH as usize {
            return Err(Error::InvalidWordLength);
        }
        let mut attempt_number: u32 = 1;
        let found = match self.puzzles.get(&puzzle_id) {
            None => {
                return Err(Error::PuzzleNotFound);
            },
            Some(rec) => {
                if rec.data.status != PuzzleStatus::Open {
                    return Err(Error::PuzzleNotOpen);
                }
                let found = find_player(&rec.entries, player);
                proof {
                    if let Some(i) = found {
                        rec.lemma_model_at(i as int);
                    }
                }
                match found {
                    Some(i) => {
                        let held = rec.entries[i].attempts.len();
                        if held >= MAX_ATTEMPTS as usize {
                            return Err(Error::TooManyAttempts);
                        }
                        attempt_number = held as u32 + 1;
                    },
                    None => {
                        if rec.data.player_count >= MAX_PLAYERS_PER_PUZZLE {
                            return Err(Error::PuzzleFull);
                        }
                    },
                }
                found
            },
        };
        let ghost old_rec = self.puzzles@[puzzle_id];
        assert(old_rec.wf());
        let mut rec = self.puzzles.remove(&puzzle_id).unwrap();
        let new_attempt = Attempt { guess: bytes_of(attempt), scores: Vec::new() };
        let ghost a_view = new_attempt@;
        assert(new_attempt.guess@.len() == WORD_LENGTH);
        match found {
            Some(i) => {
                let mut e = rec.entries.remove(i);
                e.attempts.push(new_attempt);
                rec.entries.insert(i, e);
                proof {
                    assert(rec.entries@ =~= old_rec.entries@.update(i as int, e));
                    assert(attempts_view(e.attempts@) =~= attempts_view(
                        old_rec.entries@[i as int].attempts@,
                    ).push(a_view));
                    lemma_update_entry(old_rec, rec, i as int);
                    let ne = rec.entries@;
                    let oe = old_rec.entries@;
                    assert(e.attempts@ == oe[i as int].attempts@.push(new_attempt));
                    assert forall|j: int| 0 <= j < ne.len() implies 1 <= #[trigger] ne[j].attempts@.len()
                        <= MAX_ATTEMPTS by {
                        if j != i {
                            assert(ne[j] == oe[j]);
                        }
                    }
                    assert forall|j: int, k: int| 0 <= j < ne.len() && 0 <= k < ne[j].attempts@.len()
                        implies (#[trigger] ne[j].attempts@[k]).guess@.len() == WORD_LENGTH by {
                        if j != i {
                            assert(ne[j] == oe[j]);
                        } else if k < oe[j].attempts@.len() {
                            assert(ne[j].attempts@[k] == oe[j].attempts@[k]);
                        }
                    }
                    assert forall|j: int, k: int| 0 <= j < ne.len() && 0 <= k < ne[j].attempts@.len()
                        implies (#[trigger] ne[j].attempts@[k]).scores@.len() == 0 by {
                        if j != i {
                            assert(ne[j] == oe[j]);
                        } else if k < oe[j].attempts@.len() {
                            assert(ne[j].attempts@[k] == oe[j].attempts@[k]);
                        }
                    }
                    assert forall|j: int| 0 <= j < ne.len() implies !(#[trigger] ne[j].winner) by {
                        if j != i {
                            assert(ne[j] == oe[j]);
                        }
                    }
                }
            },
            None => {
                let mut attempts: Vec<Attempt> = Vec::new();
                attempts.push(new_attempt);
                let e = PlayerEntry { player, attempts, winner: false };
                rec.entries.push(e);
                rec.data.player_count = rec.data.player_count + 1;
                proof {
                    assert(rec.entries@.drop_last() =~= old_rec.entries@);
                    assert(attempts_view(e.attempts@) =~= seq![a_view]);
                    lemma_push_entry(old_rec, rec);
                    let ne = rec.entries@;
                    let oe = old_rec.entries@;
                    assert forall|j: int| 0 <= j < ne.len() implies 1 <= #[trigger] ne[j].attempts@.len()
                        <= MAX_ATTEMPTS by {
                        if j < oe.len() {
                            assert(ne[j] == ne.drop_last()[j]);
                        }
                    }
                    assert forall|j: int, k: int| 0 <= j < ne.len() && 0 <= k < ne[j].attempts@.len()
                        implies (#[trigger] ne[j].attempts@[k]).guess@.len() == WORD_LENGTH by {
                        if j < oe.len() {
                            assert(ne[j] == ne.drop_last()[j]);
                            assert(ne[j].attempts@[k] == oe[j].attempts@[k]);
                        } else {
                            assert(ne[j] == e);
                            assert(e.attempts@ =~= seq![new_attempt]);
                            assert(new_attempt.guess@.len() == WORD_LENGTH);
                        }
                    }
                    assert forall|j: int, k: int| 0 <= j < ne.len() && 0 <= k < ne[j].attempts@.len()
                        implies (#[trigger] ne[j].attempts@[k]).scores@.len() == 0 by {
                        if j < oe.len() {
                            assert(ne[j] == ne.drop_last()[j]);
                            assert(ne[j].attempts@[k] == oe[j].attempts@[k]);
                        } else {
                            assert(ne[j] == e);
                            assert(e.attempts@ =~= seq![new_attempt]);
                        }
                    }
                    assert forall|j: int| 0 <= j < ne.len() implies !(#[trigger] ne[j].winner) by {
                        if j < oe.len() {
                            assert(ne[j] == ne.drop_last()[j]);
                        }
                    }
                }
            },
        }
        proof {
            let e = rec.entries@;
            assert(e.len() <= MAX_PLAYERS_PER_PUZZLE);
            assert(rec.data.player_count == e.len());
            assert(forall|i: int| 0 <= i < e.len() ==> 1 <= #[trigger] e[i].attempts@.len() <= MAX_ATTEMPTS);
            assert(forall|i: int, k: int| 0 <= i < e.len() && 0 <= k < e[i].attempts@.len()
                ==> (#[trigger] e[i].attempts@[k]).guess@.len() == WORD_LENGTH);
            assert(rec.wf());
        }
        self.puzzles.insert(puzzle_id, rec);
        proof {
            let m = after_submit(old(self)@.puzzles[puzzle_id], player, attempt@);
            assert(rec.model().data == m.data);
            assert(rec.model() == m);
            assert(self@.puzzles =~= old(self)@.puzzles.insert(puzzle_id, m));
        }
        Ok(AttemptSubmitted { puzzle_id, player, attempt_number, guess: bytes_of(attempt) })
    }

    /// Publishes the answer of puzzle `puzzle_id` once it matches the
    /// commitment, and closes the puzzle to new guesses. Admin only.
    pub fn reveal_answer(&mut self, caller: u64, puzzle_id: u64, answer: &[u8]) -> (r: Result<AnswerRevealed, Error>)
        requires
            old(self).wf(),
        ensures
            final(self).wf(),
            agrees(r, reveal_outcome(old(self)@, caller, puzzle_id, answer@)),
            r matches Ok(ev) ==> ev.puzzle_id == puzzle_id,
            r is Err ==> *final(self) == *old(self),
            r is Ok ==> final(self)@ == (GameState {
                puzzles: old(self)@.puzzles.insert(
                    puzzle_id,
                    after_reveal(old(self)@.puzzles[puzzle_id], answer@),
                ),
                ..old(self)@
            }),
    {
        if let Err(e) = self.check_admin(caller) {
            return Err(e);
        }
        if answer.len() != WORD_LENGTH as usize {
            return Err(Error::InvalidWordLength);
        }
        match self.puzzles.get(&puzzle_id) {
            None => {
                return Err(Error::PuzzleNotFound);
            },
            Some(rec) => {
                if rec.data.status != PuzzleStatus::Open {
                    return Err(Error::PuzzleAlreadyFinalized);
                }
                if !verify_commitment(answer, &rec.data.answer_commitment) {
                    return Err(Error::CommitmentMismatch);
                }
            },
        }
        let ghost old_rec = self.puzzles@[puzzle_id];
        let mut rec = self.puzzles.remove(&puzzle_id).unwrap();
        rec.data.status = PuzzleStatus::Revealed;
        rec.data.answer = bytes_of(answer);
        self.puzzles.insert(puzzle_id, rec);
        proof {
            let m = after_reveal(old(self)@.puzzles[puzzle_id], answer@);
            assert(rec.entries == old_rec.entries);
            assert(rec.model() == m);
            assert(self@.puzzles =~= old(self)@.puzzles.insert(puzzle_id, m));
        }
        Ok(AnswerRevealed { puzzle_id })
    }

    /// Scores every attempt of every player of puzzle `puzzle_id` against the
    /// revealed answer, records the winners, and closes the puzzle. Admin only.
    /// `player` is part of the operation's interface and is not used: all
    /// players are scored together.
    pub fn finalize_result(&mut self, caller: u64, player: u64, puzzle_id: u64) -> (r: Result<PuzzleFinalized, Error>)
        requires
            old(self).wf(),
        ensures
            final(self).wf(),
            agrees(r, finalize_outcome(old(self)@, caller, puzzle_id)),
            r matches Ok(ev) ==> ev.puzzle_id == puzzle_id && ev.answer@ == old(self)@.puzzles[puzzle_id].data.answer
                && ev.winner_count == final(self)@.puzzles[puzzle_id].data.winner_count,
            r is Err ==> *final(self) == *old(self),
            r is Ok ==> final(self)@ == (GameState {
                puzzles: old(self)@.puzzles.insert(
                    puzzle_id,
                    after_finalize(old(self)@.puzzles[puzzle_id]),
                ),
                ..old(self)@
            }),
    {
        if let Err(e) = self.check_admin(caller) {
            return Err(e);
        }
        match self.puzzles.get(&puzzle_id) {
            None => {
                return Err(Error::PuzzleNotFound);
            },
            Some(rec) => {
                if rec.data.status == PuzzleStatus::Finalized {
                    return Err(Error::PuzzleAlreadyFinalized);
                }
                if rec.data.status != PuzzleStatus::Revealed {
                    return Err(Error::AnswerNotRevealed);
                }
            },
        }
        let _ = player;
        let ghost old_rec = self.puzzles@[puzzle_id];
        let ghost m = old(self)@.puzzles[puzzle_id];
        let rec = self.puzzles.remove(&puzzle_id).unwrap();
        let PuzzleRecord { data, entries } = rec;
        let ghost answer = data.answer@;
        let ghost won = solved_flags(entries@, answer);
        let mut new_entries: Vec<PlayerEntry> = Vec::new();
        let mut winner_count: u32 = 0;
        let mut i: usize = 0;
        while i < entries.len()
            invariant
                i <= entries@.len(),
                entries@.len() <= MAX_PLAYERS_PER_PUZZLE,
                data.answer@ == answer,
                answer.len() == WORD_LENGTH,
                entries == old_rec.entries,
                old_rec.wf(),
                won == solved_flags(entries@, answer),
                new_entries@.len() == i,
                forall|j: int| 0 <= j < i ==> (#[trigger] new_entries@[j]).player == entries@[j].player
                    && attempts_view(new_entries@[j].attempts@) == scored(
                        attempts_view(entries@[j].attempts@),
                        answer,
                    ) && new_entries@[j].winner == won(j),
                winner_count == count_where(i as int, won),
            decreases entries@.len() - i,
        {
            proof {
                crate::count::lemma_count_le(i as int, won);
            }
            let e = &entries[i];
            let (scored_attempts, solved) = score_entry(&e.attempts, &data.answer);
            let ghost prev = new_entries@;
            new_entries.push(PlayerEntry { player: e.player, attempts: scored_attempts, winner: solved });
            if solved {
                winner_count = winner_count + 1;
            }
            proof {
                assert(new_entries@ =~= prev.push(new_entries@.last()));
                assert(new_entries@[i as int].player == entries@[i as int].player);
                assert(won(i as int) == solved);
                assert(count_where(i as int + 1, won) == count_where(i as int, won) + if won(i as int) {
                    1nat
                } else {
                    0nat
                });
            }
            i = i + 1;
        }
        let ev = PuzzleFinalized { puzzle_id, answer: bytes_of(data.answer.as_slice()), winner_count };
        let new_rec = PuzzleRecord {
            data: PuzzleData {
                answer_commitment: data.answer_commitment,
                status: PuzzleStatus::Finalized,
                answer: data.answer,
                winner_count,
                player_count: data.player_count,
            },
            entries: new_entries,
        };
        proof {
            lemma_scored_entries(old_rec, new_rec, answer);
            let mm = after_finalize(m);
            let ne = new_rec.entries@;
            let oe = old_rec.entries@;
            assert forall|j: int| 0 <= j < ne.len() implies 1 <= #[trigger] ne[j].attempts@.len()
                <= MAX_ATTEMPTS by {
                assert(attempts_view(ne[j].attempts@).len() == attempts_view(oe[j].attempts@).len());
            }
            assert forall|j: int, k: int| 0 <= j < ne.len() && 0 <= k < ne[j].attempts@.len()
                implies (#[trigger] ne[j].attempts@[k]).guess@.len() == WORD_LENGTH by {
                assert(attempts_view(ne[j].attempts@)[k] == scored(attempts_view(oe[j].attempts@), answer)[k]);
                assert(attempts_view(oe[j].attempts@)[k] == oe[j].attempts@[k]@);
                assert(oe[j].attempts@[k].guess@.len() == WORD_LENGTH);
            }
            assert forall|j: int, k: int| 0 <= j < ne.len() && 0 <= k < ne[j].attempts@.len()
                implies (#[trigger] ne[j].attempts@[k]).scores@.len() == WORD_LENGTH by {
                assert(attempts_view(ne[j].attempts@)[k] == scored(attempts_view(oe[j].attempts@), answer)[k]);
                assert(attempts_view(oe[j].attempts@)[k] == oe[j].attempts@[k]@);
                assert(oe[j].attempts@[k].guess@.len() == WORD_LENGTH);
                crate::score::lemma_all_correct_iff_equal(oe[j].attempts@[k].guess@, answer);
            }
            assert(new_rec.wf());
            crate::count::lemma_count_le(entries@.len() as int, won);
            assert forall|j: int| 0 <= j < entries@.len() implies #[trigger] won(j) == solved_by(
                attempts_of(m, m.players[j]),
                answer,
            ) by {
                old_rec.lemma_model_at(j);
            }
            crate::count::lemma_count_same(
                entries@.len() as int,
                won,
                |j: int| solved_by(attempts_of(m, m.players[j]), answer),
            );
            assert(m == old_rec.model());
            assert(m.data.answer == answer);
            assert(new_rec.model().data == mm.data);
            assert(new_rec.model().attempts =~= mm.attempts);
            assert(new_rec.model().winners =~= mm.winners);
        }
        self.puzzles.insert(puzzle_id, new_rec);
        proof {
            let mm = after_finalize(m);
            assert(self@.puzzles =~= old(self)@.puzzles.insert(puzzle_id, mm));
        }
        Ok(ev)
    }

    /// The attempts of `player` for puzzle `puzzle_id`, scored once the puzzle
    /// is finalized; empty when there are none.
    pub fn get_attempts(&self, player: u64, puzzle_id: u64) -> (r: Vec<Attempt>)
        requires
            self.wf(),
        ensures
            attempts_view(r@) == stored_attempts(self@, puzzle_id, player),
            r@.len() == stored_attempts(self@, puzzle_id, player).len(),
    {
        match self.puzzles.get(&puzzle_id) {
            None => Vec::new(),
            Some(rec) => match find_player(&rec.entries, player) {
                None => {
                    proof {
                        assert(!has_player_in(rec.entries@, player));
                    }
                    Vec::new()
                },
                Some(i) => {
                    proof {
                        rec.lemma_model_at(i as int);
                    }
                    copy_attempts(&rec.entries[i].attempts)
                },
            },
        }
    }

    /// The data of puzzle `puzzle_id`, if it exists.
    pub fn get_puzzle(&self, puzzle_id: u64) -> (r: Option<PuzzleData>)
        ensures
            match r {
                Some(d) => self@.puzzles.contains_key(puzzle_id) && d@ == self@.puzzles[puzzle_id].data,
                None => !self@.puzzles.contains_key(puzzle_id),
            },
    {
        match self.puzzles.get(&puzzle_id) {
            None => None,
            Some(rec) => Some(PuzzleData {
                answer_commitment: rec.data.answer_commitment,
                status: rec.data.status,
                answer: bytes_of(rec.data.answer.as_slice()),
                winner_count: rec.data.winner_count,
                player_count: rec.data.player_count,
            }),
        }
    }

    /// Whether `player` is recorded as having solved puzzle `puzzle_id`.
    pub fn is_winner(&self, puzzle_id: u64, player: u64) -> (r: bool)
        requires
            self.wf(),
        ensures
            r == (self@.puzzles.contains_key(puzzle_id) && self@.puzzles[puzzle_id].winners.contains(player)),
    {
        match self.puzzles.get(&puzzle_id) {
            None => false,
            Some(rec) => match find_player(&rec.entries, player) {
                None => {
                    proof {
                        assert(!has_player_in(rec.entries@, player));
                    }
                    false
                },
                Some(i) => {
                    proof {
                        rec.lemma_model_at(i as int);
                    }
                    rec.entries[i].winner
                },
            },
        }
    }
}

/// The outcome of `player` submitting `guess` to puzzle `id`.
pub open spec fn submit_outcome(s: GameState, player: u64, id: u64, guess: Seq<u8>) -> Result<(), Error> {
    if guess.len() != WORD_LENGTH {
        Err(Error::InvalidWordLength)
    } else if !s.puzzles.contains_key(id) {
        Err(Error::PuzzleNotFound)
    } else if s.puzzles[id].data.status != PuzzleStatus::Open {
        Err(Error::PuzzleNotOpen)
    } else if attempts_of(s.puzzles[id], player).len() >= MAX_ATTEMPTS {
        Err(Error::TooManyAttempts)
    } else if attempts_of(s.puzzles[id], player).len() == 0
        && s.puzzles[id].data.player_count >= MAX_PLAYERS_PER_PUZZLE {
        Err(Error::PuzzleFull)
    } else {
        Ok(())
    }
}

/// Puzzle `m` once `player` has submitted `guess`: the guess is appended,
/// unscored, to the player's attempts, and a first-time player joins the list.
pub open spec fn after_submit(m: PuzzleModel, player: u64, guess: Seq<u8>) -> PuzzleModel {
    let first = !m.attempts.contains_key(player);
    PuzzleModel {
        data: PuzzleView {
            player_count: if first {
                (m.data.player_count + 1) as u32
            } else {
                m.data.player_count
            },
            ..m.data
        },
        players: if first {
            m.players.push(player)
        } else {
            m.players
        },
        attempts: m.attempts.insert(
            player,
            attempts_of(m, player).push(AttemptView { guess, scores: Seq::empty() }),
        ),
        winners: m.winners,
    }
}

/// The outcome of revealing `answer` for puzzle `id`.
pub open spec fn reveal_outcome(s: GameState, caller: u64, id: u64, answer: Seq<u8>) -> Result<(), Error> {
    if admin_check(s, caller) is Err {
        admin_check(s, caller)
    } else if answer.len() != WORD_LENGTH {
        Err(Error::InvalidWordLength)
    } else if !s.puzzles.contains_key(id) {
        Err(Error::PuzzleNotFound)
    } else if s.puzzles[id].data.status != PuzzleStatus::Open {
        Err(Error::PuzzleAlreadyFinalized)
    } else if sha256_of(answer) != s.puzzles[id].data.answer_commitment {
        Err(Error::CommitmentMismatch)
    } else {
        Ok(())
    }
}

/// Puzzle `m` once `answer` is revealed.
pub open spec fn after_reveal(m: PuzzleModel, answer: Seq<u8>) -> PuzzleModel {
    PuzzleModel { data: PuzzleView { status: PuzzleStatus::Revealed, answer, ..m.data }, ..m }
}

/// The outcome of finalizing puzzle `id`.
pub open spec fn finalize_outcome(s: GameState, caller: u64, id: u64) -> Result<(), Error> {
    if admin_check(s, caller) is Err {
        admin_check(s, caller)
    } else if !s.puzzles.contains_key(id) {
        Err(Error::PuzzleNotFound)
    } else if s.puzzles[id].data.status == PuzzleStatus::Finalized {
        Err(Error::PuzzleAlreadyFinalized)
    } else if s.puzzles[id].data.status != PuzzleStatus::Revealed {
        Err(Error::AnswerNotRevealed)
    } else {
        Ok(())
    }
}

/// Puzzle `m` once finalized: every attempt scored against the answer, the
/// players with a solving attempt recorded as winners, and counted.
pub open spec fn after_finalize(m: PuzzleModel) -> PuzzleModel {
    PuzzleModel {
        data: PuzzleView {
            status: PuzzleStatus::Finalized,
            winner_count: winners_among(m, m.data.answer) as u32,
            ..m.data
        },
        players: m.players,
        attempts: Map::new(
            |p: u64| m.attempts.contains_key(p),
            |p: u64| scored(m.attempts[p], m.data.answer),
        ),
        winners: Set::new(
            |p: u64| m.attempts.contains_key(p) && solved_by(m.attempts[p], m.data.answer),
        ),
    }
}

/// The attempts recorded for `player` in puzzle `id`; empty when the puzzle
/// or the player's attempts do not exist.
pub open spec fn stored_attempts(s: GameState, id: u64, player: u64) -> Seq<AttemptView> {
    if s.puzzles.contains_key(id) {
        attempts_of(s.puzzles[id], player)
    } else {
        Seq::empty()
    }
}

/// Ok when `caller` is the administrator; else why not.
pub open spec fn admin_check(s: GameState, caller: u64) -> Result<(), Error> {
    match s.admin {
        None => Err(Error::NotInitialized),
        Some(a) => if a == caller {
            Ok(())
        } else {
            Err(Error::NotAuthorized)
        },
    }
}

/// The outcome of creating puzzle `id`.
pub open spec fn create_outcome(s: GameState, caller: u64, id: u64) -> Result<(), Error> {
    if admin_check(s, caller) is Err {
        admin_check(s, caller)
    } else if s.puzzles.contains_key(id) {
        Err(Error::PuzzleAlreadyExists)
    } else {
        Ok(())
    }
}

/// Commitment integrity: for an authorized reveal of a word-length answer to
/// an open puzzle, the reveal succeeds exactly when the answer's digest is the
/// stored commitment; and a successful reveal records that very answer.
pub proof fn lemma_reveal_needs_commitment(s: GameState, caller: u64, id: u64, answer: Seq<u8>)
    requires
        admin_check(s, caller) is Ok,
        answer.len() == WORD_LENGTH,
        s.puzzles.contains_key(id),
        s.puzzles[id].data.status == PuzzleStatus::Open,
    ensures
        reveal_outcome(s, caller, id, answer) is Ok <==> sha256_of(answer)
            == s.puzzles[id].data.answer_commitment,
        reveal_outcome(s, caller, id, answer) is Err ==> reveal_outcome(s, caller, id, answer)
            == Err::<(), Error>(Error::CommitmentMismatch),
        after_reveal(s.puzzles[id], answer).data.answer == answer,
        after_reveal(s.puzzles[id], answer).data.answer_commitment == s.puzzles[id].data.answer_commitment,
{
}

/// Attempt cap: no player ever holds more than `MAX_ATTEMPTS` attempts for a
/// puzzle, and once a player holds that many, a further submission fails with
/// `TooManyAttempts` (or an earlier check) and so records nothing.
pub proof fn lemma_attempt_cap(g: &WordleClone, id: u64, player: u64, guess: Seq<u8>)
    requires
        g.wf(),
    ensures
        stored_attempts(g@, id, player).len() <= MAX_ATTEMPTS,
        stored_attempts(g@, id, player).len() == MAX_ATTEMPTS ==> submit_outcome(g@, player, id, guess) is Err,
        stored_attempts(g@, id, player).len() == MAX_ATTEMPTS && guess.len() == WORD_LENGTH
            && g@.puzzles[id].data.status == PuzzleStatus::Open ==> submit_outcome(g@, player, id, guess)
            == Err::<(), Error>(Error::TooManyAttempts),
{
    if g.puzzles@.contains_key(id) {
        let rec = g.puzzles@[id];
        assert(rec.wf());
        if has_player_in(rec.entries@, player) {
            let i = index_in(rec.entries@, player);
            rec.lemma_model_at(i);
            assert(1 <= rec.entries@[i].attempts@.len() <= MAX_ATTEMPTS);
        }
    }
}

/// Invariants of every puzzle: the player count is the length of the player
/// list; each recorded guess is one word long and carries no scores until
/// the puzzle is finalized and one score per letter after; only players of a
/// finalized puzzle are winners; and the answer is known exactly once revealed.
pub proof fn lemma_puzzle_invariants(g: &WordleClone, id: u64, player: u64)
    requires
        g.wf(),
        g@.puzzles.contains_key(id),
    ensures
        g@.puzzles[id].data.player_count == g@.puzzles[id].players.len(),
        g@.puzzles[id].players.len() <= MAX_PLAYERS_PER_PUZZLE,
        forall|k: int| 0 <= k < stored_attempts(g@, id, player).len()
            ==> (#[trigger] stored_attempts(g@, id, player)[k]).guess.len() == WORD_LENGTH
            && stored_attempts(g@, id, player)[k].scores.len() == if g@.puzzles[id].data.status
            == PuzzleStatus::Finalized {
            WORD_LENGTH as nat
        } else {
            0
        },
        g@.puzzles[id].winners.contains(player) ==> g@.puzzles[id].data.status == PuzzleStatus::Finalized,
        (g@.puzzles[id].data.status == PuzzleStatus::Open) == (g@.puzzles[id].data.answer.len() == 0),
{
    let rec = g.puzzles@[id];
    assert(rec.wf());
    assert(g@.puzzles[id] == rec.model());
    if has_player_in(rec.entries@, player) {
        let i = index_in(rec.entries@, player);
        rec.lemma_model_at(i);
        let a = rec.entries@[i].attempts@;
        assert forall|k: int| 0 <= k < a.len() implies #[trigger] attempts_view(a)[k] == a[k]@ by {}
    }
}

/// The order of the lifecycle states.
pub open spec fn status_rank(st: PuzzleStatus) -> nat {
    match st {
        PuzzleStatus::Open => 0,
        PuzzleStatus::Revealed => 1,
        PuzzleStatus::Finalized => 2,
    }
}

/// Lifecycle monotonicity: a successful operation moves a puzzle's status only
/// from Open to Revealed (reveal) or from Revealed to Finalized (finalize), and
/// otherwise keeps it; every operation that needs an earlier state fails once
/// a later one is reached, and an existing puzzle cannot be created again.
pub proof fn lemma_lifecycle_monotonic(s: GameState, caller: u64, player: u64, id: u64, word: Seq<u8>)
    requires
        s.puzzles.contains_key(id),
    ensures
        create_outcome(s, caller, id) is Err,
        s.puzzles[id].data.status != PuzzleStatus::Open ==> submit_outcome(s, player, id, word) is Err
            && reveal_outcome(s, caller, id, word) is Err,
        s.puzzles[id].data.status != PuzzleStatus::Revealed ==> finalize_outcome(s, caller, id) is Err,
        submit_outcome(s, player, id, word) is Ok ==> after_submit(s.puzzles[id], player, word).data.status
            == s.puzzles[id].data.status,
        reveal_outcome(s, caller, id, word) is Ok ==> s.puzzles[id].data.status == PuzzleStatus::Open
            && after_reveal(s.puzzles[id], word).data.status == PuzzleStatus::Revealed,
        finalize_outcome(s, caller, id) is Ok ==> s.puzzles[id].data.status == PuzzleStatus::Revealed
            && after_finalize(s.puzzles[id]).data.status == PuzzleStatus::Finalized,
        status_rank(after_submit(s.puzzles[id], player, word).data.status) == status_rank(s.puzzles[id].data.status),
        status_rank(after_reveal(s.puzzles[id], word).data.status) >= status_rank(PuzzleStatus::Revealed),
        status_rank(after_finalize(s.puzzles[id]).data.status) == status_rank(PuzzleStatus::Finalized),
{
}

/// One-shot finalize: once a finalize succeeds, finalizing the same puzzle
/// again fails with `PuzzleAlreadyFinalized` (which changes nothing), so the
/// winner count stays as the first finalize set it.
pub proof fn lemma_finalize_once(s: GameState, caller: u64, id: u64)
    requires
        finalize_outcome(s, caller, id) is Ok,
    ensures
        ({
            let t = GameState { puzzles: s.puzzles.insert(id, after_finalize(s.puzzles[id])), ..s };
            &&& finalize_outcome(t, caller, id) == Err::<(), Error>(Error::PuzzleAlreadyFinalized)
            &&& t.puzzles[id].data.winner_count == winners_among(s.puzzles[id], s.puzzles[id].data.answer) as u32
        }),
{
}

/// Replacing entry `i` by one of the same player changes the model only there.
proof fn lemma_update_entry(old_rec: PuzzleRecord, new_rec: PuzzleRecord, i: int)
    requires
        old_rec.distinct(),
        0 <= i < old_rec.entries@.len(),
        new_rec.entries@ == old_rec.entries@.update(i, new_rec.entries@[i]),
        new_rec.entries@[i].player == old_rec.entries@[i].player,
    ensures
        new_rec.distinct(),
        new_rec.model().players == old_rec.model().players,
        new_rec.model().attempts == old_rec.model().attempts.insert(
            old_rec.entries@[i].player,
            attempts_view(new_rec.entries@[i].attempts@),
        ),
        new_rec.entries@[i].winner == old_rec.entries@[i].winner ==> new_rec.model().winners
            == old_rec.model().winners,
{
    let p = old_rec.entries@[i].player;
    assert(new_rec.distinct()) by {
        assert forall|a: int, b: int|
            0 <= a < new_rec.entries@.len() && 0 <= b < new_rec.entries@.len()
                && new_rec.entries@[a].player == new_rec.entries@[b].player implies a == b by {
            assert(old_rec.entries@[a].player == new_rec.entries@[a].player);
            assert(old_rec.entries@[b].player == new_rec.entries@[b].player);
        }
    }
    assert(new_rec.model().players =~= old_rec.model().players);
    let om = old_rec.model();
    let nm = new_rec.model();
    assert forall|q: u64| #[trigger] has_player_in(new_rec.entries@, q) == has_player_in(old_rec.entries@, q) by {
        if has_player_in(new_rec.entries@, q) {
            let j = index_in(new_rec.entries@, q);
            assert(old_rec.entries@[j].player == q);
        }
        if has_player_in(old_rec.entries@, q) {
            let j = index_in(old_rec.entries@, q);
            assert(new_rec.entries@[j].player == q);
        }
    }
    assert forall|q: u64| has_player_in(old_rec.entries@, q) && q != p implies #[trigger] nm.attempts[q]
        == om.attempts[q] && nm.winners.contains(q) == om.winners.contains(q) by {
        let j = index_in(old_rec.entries@, q);
        old_rec.lemma_model_at(j);
        assert(new_rec.entries@[j] == old_rec.entries@[j]);
        new_rec.lemma_model_at(j);
    }
    old_rec.lemma_model_at(i);
    new_rec.lemma_model_at(i);
    assert(nm.attempts =~= om.attempts.insert(p, attempts_view(new_rec.entries@[i].attempts@)));
    if new_rec.entries@[i].winner == old_rec.entries@[i].winner {
        assert forall|q: u64| #[trigger] nm.winners.contains(q) == om.winners.contains(q) by {
            if has_player_in(old_rec.entries@, q) && q != p {
                assert(nm.attempts[q] == om.attempts[q]);
            }
        }
        assert(nm.winners =~= om.winners);
    }
}

/// Appending an entry of a new player adds that player to the model.
proof fn lemma_push_entry(old_rec: PuzzleRecord, new_rec: PuzzleRecord)
    requires
        old_rec.distinct(),
        new_rec.entries@.len() == old_rec.entries@.len() + 1,
        new_rec.entries@.drop_last() == old_rec.entries@,
        !has_player_in(old_rec.entries@, new_rec.entries@.last().player),
        !new_rec.entries@.last().winner,
    ensures
        new_rec.distinct(),
        new_rec.model().players == old_rec.model().players.push(new_rec.entries@.last().player),
        new_rec.model().attempts == old_rec.model().attempts.insert(
            new_rec.entries@.last().player,
            attempts_view(new_rec.entries@.last().attempts@),
        ),
        new_rec.model().winners == old_rec.model().winners,
{
    let n = old_rec.entries@.len() as int;
    let p = new_rec.entries@.last().player;
    assert forall|a: int| 0 <= a < n implies #[trigger] new_rec.entries@[a] == old_rec.entries@[a] by {
        assert(new_rec.entries@.drop_last()[a] == new_rec.entries@[a]);
    }
    assert(new_rec.distinct()) by {
        assert forall|a: int, b: int|
            0 <= a < new_rec.entries@.len() && 0 <= b < new_rec.entries@.len()
                && new_rec.entries@[a].player == new_rec.entries@[b].player implies a == b by {
            if a < n && b == n {
                assert(old_rec.entries@[a].player == p);
            }
            if b < n && a == n {
                assert(old_rec.entries@[b].player == p);
            }
        }
    }
    assert(new_rec.model().players =~= old_rec.model().players.push(p));
    let om = old_rec.model();
    let nm = new_rec.model();
    assert forall|q: u64| q != p implies #[trigger] has_player_in(new_rec.entries@, q) == has_player_in(old_rec.entries@, q) by {
        if has_player_in(new_rec.entries@, q) {
            let j = index_in(new_rec.entries@, q);
            assert(old_rec.entries@[j].player == q);
        }
        if has_player_in(old_rec.entries@, q) {
            let j = index_in(old_rec.entries@, q);
            assert(new_rec.entries@[j].player == q);
        }
    }
    assert forall|q: u64| has_player_in(old_rec.entries@, q) implies #[trigger] nm.attempts[q] == om.attempts[q]
        && nm.winners.contains(q) == om.winners.contains(q) by {
        let j = index_in(old_rec.entries@, q);
        old_rec.lemma_model_at(j);
        new_rec.lemma_model_at(j);
    }
    new_rec.lemma_model_at(n);
    assert(nm.attempts =~= om.attempts.insert(p, attempts_view(new_rec.entries@.last().attempts@)));
    assert forall|q: u64| #[trigger] nm.winners.contains(q) == om.winners.contains(q) by {
        if has_player_in(old_rec.entries@, q) {
            assert(nm.attempts[q] == om.attempts[q]);
        }
    }
    assert(nm.winners =~= om.winners);
}

/// Scoring every entry keeps the players and scores every attempt.
proof fn lemma_scored_entries(old_rec: PuzzleRecord, new_rec: PuzzleRecord, answer: Seq<u8>)
    requires
        old_rec.distinct(),
        new_rec.entries@.len() == old_rec.entries@.len(),
        forall|j: int| 0 <= j < old_rec.entries@.len() ==> (#[trigger] new_rec.entries@[j]).player
            == old_rec.entries@[j].player && attempts_view(new_rec.entries@[j].attempts@) == scored(
                attempts_view(old_rec.entries@[j].attempts@),
                answer,
            ) && new_rec.entries@[j].winner == solved_by(
                attempts_view(old_rec.entries@[j].attempts@),
                answer,
            ),
    ensures
        new_rec.distinct(),
        new_rec.model().players == old_rec.model().players,
        forall|p: u64| #[trigger] has_player_in(new_rec.entries@, p) == has_player_in(old_rec.entries@, p),
        forall|p: u64| #[trigger] has_player_in(old_rec.entries@, p) ==> new_rec.model().attempts[p] == scored(
            old_rec.model().attempts[p],
            answer,
        ) && new_rec.model().winners.contains(p) == solved_by(old_rec.model().attempts[p], answer),
{
    assert(new_rec.distinct()) by {
        assert forall|a: int, b: int|
            0 <= a < new_rec.entries@.len() && 0 <= b < new_rec.entries@.len()
                && new_rec.entries@[a].player == new_rec.entries@[b].player implies a == b by {
            assert(old_rec.entries@[a].player == new_rec.entries@[a].player);
            assert(old_rec.entries@[b].player == new_rec.entries@[b].player);
        }
    }
    assert(new_rec.model().players =~= old_rec.model().players);
    assert forall|q: u64| #[trigger] has_player_in(new_rec.entries@, q) == has_player_in(old_rec.entries@, q) by {
        if has_player_in(new_rec.entries@, q) {
            let j = index_in(new_rec.entries@, q);
            assert(old_rec.entries@[j].player == q);
        }
        if has_player_in(old_rec.entries@, q) {
            let j = index_in(old_rec.entries@, q);
            assert(new_rec.entries@[j].player == q);
        }
    }
    assert forall|q: u64| #[trigger] has_player_in(old_rec.entries@, q) implies new_rec.model().attempts[q]
        == scored(old_rec.model().attempts[q], answer) && new_rec.model().winners.contains(q)
        == solved_by(old_rec.model().attempts[q], answer) by {
        let j = index_in(old_rec.entries@, q);
        old_rec.lemma_model_at(j);
        assert(new_rec.entries@[j].player == q);
        new_rec.lemma_model_at(j);
    }
}

/// Scores each attempt against `answer`, and tells whether one solves it.
fn score_entry(attempts: &Vec<Attempt>, answer: &Vec<u8>) -> (r: (Vec<Attempt>, bool))
    requires
        forall|k: int| 0 <= k < attempts@.len() ==> (#[trigger] attempts@[k]).guess@.len()
            == answer@.len(),
    ensures
        attempts_view(r.0@) == scored(attempts_view(attempts@), answer@),
        r.1 == solved_by(attempts_view(attempts@), answer@),
{
    let mut out: Vec<Attempt> = Vec::new();
    let mut solved = false;
    let mut k: usize = 0;
    while k < attempts.len()
        invariant
            k <= attempts@.len(),
            forall|j: int| 0 <= j < attempts@.len() ==> (#[trigger] attempts@[j]).guess@.len()
                == answer@.len(),
            attempts_view(out@) == scored(attempts_view(attempts@), answer@).take(k as int),
            solved == exists|j: int| 0 <= j < k && is_solved(score(#[trigger] attempts@[j].guess@, answer@)),
        decreases attempts@.len() - k,
    {
        let guess = &attempts[k].guess;
        let scores = score_guess(guess.as_slice(), answer.as_slice());
        if is_all_correct(&scores) {
            solved = true;
        }
        let ghost prev = out@;
        let a = Attempt { guess: bytes_of(guess.as_slice()), scores };
        out.push(a);
        proof {
            let sv = scored(attempts_view(attempts@), answer@);
            assert(out@ =~= prev.push(a));
            assert(attempts_view(out@) =~= attempts_view(prev).push(a@));
            assert(attempts_view(attempts@)[k as int] == attempts@[k as int]@);
            assert(sv[k as int] == a@);
            assert(sv.take(k as int + 1) =~= sv.take(k as int).push(a@));
        }
        k = k + 1;
    }
    assert(attempts_view(out@) =~= scored(attempts_view(attempts@), answer@));
    assert(solved == solved_by(attempts_view(attempts@), answer@)) by {
        let av = attempts_view(attempts@);
        if solved {
            let j = choose|j: int| 0 <= j < k && is_solved(score(#[trigger] attempts@[j].guess@, answer@));
            assert(av[j].guess == attempts@[j].guess@);
        }
        if solved_by(av, answer@) {
            let j = choose|j: int| 0 <= j < av.len() && is_solved(score(#[trigger] av[j].guess, answer@));
            assert(av[j].guess == attempts@[j].guess@);
        }
    }
    (out, solved)
}

fn copy_attempts(v: &Vec<Attempt>) -> (r: Vec<Attempt>)
    ensures
        attempts_view(r@) == attempts_view(v@),
{
    let mut r: Vec<Attempt> = Vec::new();
    let mut k: usize = 0;
    while k < v.len()
        invariant
            k <= v@.len(),
            attempts_view(r@) == attempts_view(v@).take(k as int),
        decreases v@.len() - k,
    {
        let a = Attempt {
            guess: bytes_of(v[k].guess.as_slice()),
            scores: copy_scores(&v[k].scores),
        };
        let ghost prev = r@;
        r.push(a);
        proof {
            assert(r@ =~= prev.push(a));
            assert(attempts_view(r@) =~= attempts_view(prev).push(a@));
            assert(attempts_view(v@).take(k as int + 1) =~= attempts_view(v@).take(k as int).push(a@));
        }
        k = k + 1;
    }
    assert(attempts_view(r@) =~= attempts_view(v@));
    r
}

fn copy_scores(v: &Vec<u32>) -> (r: Vec<u32>)
    ensures
        r@ == v@,
{
    let mut r: Vec<u32> = Vec::new();
    let mut i: usize = 0;
    while i < v.len()
        invariant
            i <= v@.len(),
            r@ == v@.take(i as int),
        decreases v@.len() - i,
    {
        r.push(v[i]);
        i = i + 1;
        assert(r@ =~= v@.take(i as int));
    }
    assert(r@ =~= v@);
    r
}

fn find_player(entries: &Vec<PlayerEntry>, player: u64) -> (r: Option<usize>)
    ensures
        match r {
            Some(i) => i < entries@.len() && entries@[i as int].player == player,
            None => forall|i: int| 0 <= i < entries@.len() ==> entries@[i].player != player,
        },
{
    let mut i: usize = 0;
    while i < entries.len()
        invariant
            i <= entries@.len(),
            forall|k: int| 0 <= k < i ==> entries@[k].player != player,
        decreases entries@.len() - i,
    {
        if entries[i].player == player {
            return Some(i);
        }
        i = i + 1;
    }
    None
}

fn bytes_of(s: &[u8]) -> (r: Vec<u8>)
    ensures
        r@ == s@,
{
    let mut r: Vec<u8> = Vec::new();
    let mut i: usize = 0;
    while i < s.len()
        invariant
            i <= s@.len(),
            r@ == s@.take(i as int),
        decreases s@.len() - i,
    {
        r.push(s[i]);
        i = i + 1;
        assert(r@ =~= s@.take(i as int));
    }
    assert(r@ =~= s@);
    r
}

} // verus!
