//! Two-pass letter scoring of a guess against an answer.
use vstd::prelude::*;

use crate::count::count_where;
use crate::{SCORE_ABSENT, SCORE_CORRECT, SCORE_PRESENT, WORD_LENGTH};

verus! {

/// Scores after the exact-match pass: CORRECT where the letters agree.
pub open spec fn exact_scores(g: Seq<u8>, a: Seq<u8>) -> Seq<u32> {
    Seq::new(g.len(), |i: int| if g[i] == a[i] { SCORE_CORRECT } else { SCORE_ABSENT })
}

/// Answer positions consumed by the exact-match pass.
pub open spec fn exact_used(g: Seq<u8>, a: Seq<u8>) -> Seq<bool> {
    Seq::new(a.len(), |j: int| g[j] == a[j])
}

/// The first answer position at or after `j` that is not consumed and holds `c`.
pub open spec fn first_free(a: Seq<u8>, used: Seq<bool>, c: u8, j: int) -> Option<int>
    decreases a.len() - j,
{
    if j < 0 || j >= a.len() {
        None
    } else if !used[j] && a[j] == c {
        Some(j)
    } else {
        first_free(a, used, c, j + 1)
    }
}

/// Scores and consumed answer positions once the presence pass has handled
/// the first `k` guess positions.
pub open spec fn presence_pass(g: Seq<u8>, a: Seq<u8>, k: nat) -> (Seq<u32>, Seq<bool>)
    decreases k,
{
    if k == 0 {
        (exact_scores(g, a), exact_used(g, a))
    } else {
        let (s, u) = presence_pass(g, a, (k - 1) as nat);
        let i = k - 1;
        if g[i] == a[i] {
            (s, u)
        } else {
            match first_free(a, u, g[i], 0) {
                Some(j) => (s.update(i, SCORE_PRESENT), u.update(j, true)),
                None => (s, u),
            }
        }
    }
}

/// The score of guess `g` against answer `a`, one entry per position.
pub open spec fn score(g: Seq<u8>, a: Seq<u8>) -> Seq<u32> {
    presence_pass(g, a, g.len()).0
}

/// Every entry is CORRECT.
pub open spec fn all_correct(s: Seq<u32>) -> bool {
    forall|i: int| 0 <= i < s.len() ==> s[i] == SCORE_CORRECT
}

/// A scored sequence that counts as solving the puzzle.
pub open spec fn is_solved(s: Seq<u32>) -> bool {
    s.len() == WORD_LENGTH as nat && all_correct(s)
}

fn find_free(answer: &[u8], used: &Vec<bool>, c: u8) -> (r: Option<usize>)
    requires
        used@.len() == answer@.len(),
    ensures
        match r {
            Some(j) => j < answer@.len() && first_free(answer@, used@, c, 0) == Some(j as int),
            None => first_free(answer@, used@, c, 0) is None,
        },
{
    let n = answer.len();
    let mut j: usize = 0;
    while j < n
        invariant
            j <= n,
            n == answer@.len(),
            used@.len() == n,
            first_free(answer@, used@, c, 0) == first_free(answer@, used@, c, j as int),
        decreases n - j,
    {
        if !used[j] && answer[j] == c {
            return Some(j);
        }
        j = j + 1;
    }
    None
}

/// Scores `guess` against `answer`: exact matches first, then each remaining
/// guess letter takes the leftmost answer position that holds it and is not
/// yet consumed.
pub fn score_guess(guess: &[u8], answer: &[u8]) -> (r: Vec<u32>)
    requires
        guess@.len() == answer@.len(),
    ensures
        r@ == score(guess@, answer@),
{
    let n = guess.len();

    let mut scores: Vec<u32> = Vec::new();
    let mut used: Vec<bool> = Vec::new();
    let mut i: usize = 0;
    while i < n
        invariant
            i <= n,
            n == guess@.len(),
            n == answer@.len(),
            scores@ == exact_scores(guess@, answer@).take(i as int),
            used@ == exact_used(guess@, answer@).take(i as int),
        decreases n - i,
    {
        if guess[i] == answer[i] {
            scores.push(SCORE_CORRECT);
            used.push(true);
        } else {
            scores.push(SCORE_ABSENT);
            used.push(false);
        }
        i = i + 1;
        assert(scores@ =~= exact_scores(guess@, answer@).take(i as int));
        assert(used@ =~= exact_used(guess@, answer@).take(i as int));
    }
    assert(scores@ =~= exact_scores(guess@, answer@));
    assert(used@ =~= exact_used(guess@, answer@));
    i = 0;
    while i < n
        invariant
            i <= n,
            n == guess@.len(),
            n == answer@.len(),
            scores@.len() == n,
            used@.len() == n,
            (scores@, used@) == presence_pass(guess@, answer@, i as nat),
        decreases n - i,
    {
        if guess[i] != answer[i] {
            match find_free(answer, &used, guess[i]) {
                Some(j) => {
                    scores.set(i, SCORE_PRESENT);
                    used.set(j, true);
                },
                None => {},
            }
        }
        i = i + 1;
    }
    scores
}

/// True when `scores` has one CORRECT entry for each letter of a word.
pub fn is_all_correct(scores: &Vec<u32>) -> (r: bool)
    ensures
        r == is_solved(scores@),
{
    let mut i: usize = 0;
    while i < scores.len()
        invariant
            i <= scores@.len(),
            forall|k: int| 0 <= k < i ==> scores@[k] == SCORE_CORRECT,
        decreases scores@.len() - i,
    {
        if scores[i] != SCORE_CORRECT {
            return false;
        }
        i = i + 1;
    }
    scores.len() == WORD_LENGTH as usize
}


/// Whether position `i` of `g` holds `c` and scores CORRECT or PRESENT in `s`.
pub open spec fn marked_at(g: Seq<u8>, s: Seq<u32>, c: u8) -> spec_fn(int) -> bool {
    |i: int| g[i] == c && s[i] != SCORE_ABSENT
}

/// Whether position `j` of `a` holds `c`.
pub open spec fn letter_at(a: Seq<u8>, c: u8) -> spec_fn(int) -> bool {
    |j: int| a[j] == c
}

/// Positions of `g` holding `c` that score CORRECT or PRESENT in `s`.
pub open spec fn marked_count(g: Seq<u8>, s: Seq<u32>, c: u8) -> nat {
    count_where(g.len() as int, marked_at(g, s, c))
}

/// Occurrences of `c` in `a`.
pub open spec fn letter_count(a: Seq<u8>, c: u8) -> nat {
    count_where(a.len() as int, letter_at(a, c))
}

spec fn consumed_at(a: Seq<u8>, u: Seq<bool>, c: u8) -> spec_fn(int) -> bool {
    |j: int| u[j] && a[j] == c
}

/// Consumed positions of `a` holding `c`.
spec fn consumed_count(a: Seq<u8>, u: Seq<bool>, c: u8) -> nat {
    count_where(a.len() as int, consumed_at(a, u, c))
}

proof fn lemma_first_free(a: Seq<u8>, used: Seq<bool>, c: u8, j: int)
    requires
        0 <= j,
        used.len() == a.len(),
    ensures
        match first_free(a, used, c, j) {
            Some(k) => j <= k < a.len() && !used[k] && a[k] == c,
            None => true,
        },
    decreases a.len() - j,
{
    if j < a.len() && !(!used[j] && a[j] == c) {
        lemma_first_free(a, used, c, j + 1);
    }
}

/// What holds after the presence pass has handled `k` positions: lengths,
/// where CORRECT stands, that unhandled positions are not yet marked, and
/// that each marked guess letter is matched by one consumed answer letter.
proof fn lemma_pass_shape(g: Seq<u8>, a: Seq<u8>, k: nat)
    requires
        g.len() == a.len(),
        k <= g.len(),
    ensures
        presence_pass(g, a, k).0.len() == g.len(),
        presence_pass(g, a, k).1.len() == a.len(),
        forall|i: int| 0 <= i < g.len() ==> (#[trigger] presence_pass(g, a, k).0[i] == SCORE_CORRECT
            <==> g[i] == a[i]),
        forall|i: int| k <= i < g.len() && g[i] != a[i] ==> #[trigger] presence_pass(g, a, k).0[i]
            == SCORE_ABSENT,
        forall|c: u8| #[trigger] marked_count(g, presence_pass(g, a, k).0, c) == consumed_count(
            a,
            presence_pass(g, a, k).1,
            c,
        ),
    decreases k,
{
    let n = g.len() as int;
    if k == 0 {
        let s = exact_scores(g, a);
        let u = exact_used(g, a);
        assert forall|c: u8| #[trigger] marked_count(g, s, c) == consumed_count(a, u, c) by {
            crate::count::lemma_count_same(n, marked_at(g, s, c), consumed_at(a, u, c));
        }
    } else {
        lemma_pass_shape(g, a, (k - 1) as nat);
        let (s, u) = presence_pass(g, a, (k - 1) as nat);
        let i = k - 1;
        if g[i] != a[i] {
            lemma_first_free(a, u, g[i], 0);
            if let Some(j) = first_free(a, u, g[i], 0) {
                let s2 = s.update(i, SCORE_PRESENT);
                let u2 = u.update(j, true);
                assert(presence_pass(g, a, k) == (s2, u2));
                assert forall|c: u8| #[trigger] marked_count(g, s2, c) == consumed_count(a, u2, c) by {
                    assert(marked_count(g, s, c) == consumed_count(a, u, c));
                    let f1 = marked_at(g, s, c);
                    let f2 = marked_at(g, s2, c);
                    let h1 = consumed_at(a, u, c);
                    let h2 = consumed_at(a, u2, c);
                    if c == g[i] {
                        crate::count::lemma_count_bump(n, f1, f2, i);
                        crate::count::lemma_count_bump(n, h1, h2, j);
                    } else {
                        crate::count::lemma_count_same(n, f1, f2);
                        crate::count::lemma_count_same(n, h1, h2);
                    }
                }
            }
        }
    }
}

/// Duplicate-letter soundness: for every letter, the guess positions holding
/// it that score CORRECT or PRESENT are never more than its occurrences in
/// the answer.
pub proof fn lemma_marks_within_answer(g: Seq<u8>, a: Seq<u8>, c: u8)
    requires
        g.len() == a.len(),
    ensures
        marked_count(g, score(g, a), c) <= letter_count(a, c),
{
    lemma_pass_shape(g, a, g.len());
    let u = presence_pass(g, a, g.len()).1;
    assert(marked_count(g, score(g, a), c) == consumed_count(a, u, c));
    crate::count::lemma_count_mono(a.len() as int, consumed_at(a, u, c), letter_at(a, c));
}

/// A guess scores all CORRECT exactly when it equals the answer.
pub proof fn lemma_all_correct_iff_equal(g: Seq<u8>, a: Seq<u8>)
    requires
        g.len() == a.len(),
    ensures
        score(g, a).len() == g.len(),
        all_correct(score(g, a)) <==> g == a,
{
    lemma_pass_shape(g, a, g.len());
    let s = score(g, a);
    if all_correct(s) {
        assert forall|i: int| 0 <= i < g.len() implies g[i] == a[i] by {
            assert(s[i] == SCORE_CORRECT);
        }
        assert(g =~= a);
    }
    if g == a {
        assert forall|i: int| 0 <= i < s.len() implies s[i] == SCORE_CORRECT by {
            assert(g[i] == a[i]);
        }
    }
}

} // verus!
