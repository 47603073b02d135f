//! Counting the indices of a range that satisfy a predicate.
use vstd::prelude::*;

verus! {

/// Number of indices `i` in `[0, n)` with `f(i)`.
pub open spec fn count_where(n: int, f: spec_fn(int) -> bool) -> nat
    decreases n,
{
    if n <= 0 {
        0
    } else {
        count_where(n - 1, f) + if f(n - 1) {
            1nat
        } else {
            0nat
        }
    }
}

/// Predicates that agree on `[0, n)` count the same.
pub proof fn lemma_count_same(n: int, f: spec_fn(int) -> bool, h: spec_fn(int) -> bool)
    requires
        forall|i: int| 0 <= i < n ==> #[trigger] f(i) == h(i),
    ensures
        count_where(n, f) == count_where(n, h),
    decreases n,
{
    if n > 0 {
        lemma_count_same(n - 1, f, h);
    }
}

/// A predicate implied by another counts at least as much.
pub proof fn lemma_count_mono(n: int, f: spec_fn(int) -> bool, h: spec_fn(int) -> bool)
    requires
        forall|i: int| 0 <= i < n && #[trigger] f(i) ==> h(i),
    ensures
        count_where(n, f) <= count_where(n, h),
    decreases n,
{
    if n > 0 {
        lemma_count_mono(n - 1, f, h);
    }
}

/// Turning one index from false to true adds one to the count.
pub proof fn lemma_count_bump(n: int, f: spec_fn(int) -> bool, h: spec_fn(int) -> bool, k: int)
    requires
        0 <= k < n,
        !f(k),
        h(k),
        forall|i: int| 0 <= i < n && i != k ==> #[trigger] f(i) == h(i),
    ensures
        count_where(n, h) == count_where(n, f) + 1,
    decreases n,
{
    if k < n - 1 {
        lemma_count_bump(n - 1, f, h, k);
    } else {
        lemma_count_same(n - 1, f, h);
    }
}

/// The count never exceeds the length of the range.
pub proof fn lemma_count_le(n: int, f: spec_fn(int) -> bool)
    requires
        n >= 0,
    ensures
        count_where(n, f) <= n,
    decreases n,
{
    if n > 0 {
        lemma_count_le(n - 1, f);
    }
}

} // verus!
