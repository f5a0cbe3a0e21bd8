//! Counting the vertices in `[0, k)` that satisfy a predicate.
//!
//! Liberty counts, score totals and the empty-cell measure used for ladder
//! termination are all instances of this one spec function.

use vstd::prelude::*;

verus! {

/// Number of integers `j` with `0 <= j < k` satisfying `f(j)`.
pub open spec fn count_range(f: spec_fn(int) -> bool, k: int) -> int
    decreases k,
{
    if k <= 0 {
        0
    } else {
        count_range(f, k - 1) + if f(k - 1) {
            1int
        } else {
            0int
        }
    }
}

pub proof fn lemma_count_range_bounds(f: spec_fn(int) -> bool, k: int)
    ensures
        0 <= count_range(f, k),
        k >= 0 ==> count_range(f, k) <= k,
    decreases k,
{
    if k > 0 {
        lemma_count_range_bounds(f, k - 1);
    }
}

/// Predicates that agree below `k` count the same.
pub proof fn lemma_count_range_congruence(f: spec_fn(int) -> bool, g: spec_fn(int) -> bool, k: int)
    requires
        forall|j: int| 0 <= j < k ==> #[trigger] f(j) == #[trigger] g(j),
    ensures
        count_range(f, k) == count_range(g, k),
    decreases k,
{
    if k > 0 {
        lemma_count_range_congruence(f, g, k - 1);
    }
}

/// The count is positive exactly when a witness exists.
pub proof fn lemma_count_range_pos(f: spec_fn(int) -> bool, k: int)
    ensures
        count_range(f, k) >= 1 <==> exists|j: int| 0 <= j < k && #[trigger] f(j),
    decreases k,
{
    if k > 0 {
        lemma_count_range_pos(f, k - 1);
        lemma_count_range_bounds(f, k - 1);
        if f(k - 1) {
            assert(0 <= k - 1 < k && f(k - 1));
        }
    }
}

/// The count reaches two exactly when two distinct witnesses exist.
pub proof fn lemma_count_range_two(f: spec_fn(int) -> bool, k: int)
    ensures
        count_range(f, k) >= 2 <==> exists|j1: int, j2: int|
            0 <= j1 < k && 0 <= j2 < k && j1 != j2 && #[trigger] f(j1) && #[trigger] f(j2),
    decreases k,
{
    if k > 0 {
        lemma_count_range_two(f, k - 1);
        lemma_count_range_pos(f, k - 1);
        lemma_count_range_bounds(f, k - 1);
        if count_range(f, k) >= 2 {
            if f(k - 1) && count_range(f, k - 1) >= 1 {
                let j = choose|j: int| 0 <= j < k - 1 && #[trigger] f(j);
                assert(0 <= j < k && 0 <= k - 1 < k && j != k - 1 && f(j) && f(k - 1));
            }
        }
        if exists|j1: int, j2: int|
            0 <= j1 < k && 0 <= j2 < k && j1 != j2 && #[trigger] f(j1) && #[trigger] f(j2) {
            let (j1, j2) = choose|j1: int, j2: int|
                0 <= j1 < k && 0 <= j2 < k && j1 != j2 && #[trigger] f(j1) && #[trigger] f(j2);
            if j1 < k - 1 && j2 < k - 1 {
            } else {
                let lo = if j1 == k - 1 {
                    j2
                } else {
                    j1
                };
                assert(0 <= lo < k - 1 && f(lo) && f(k - 1));
            }
        }
    }
}

/// Positions that never satisfy the predicate do not change the count.
pub proof fn lemma_count_range_extend(f: spec_fn(int) -> bool, k1: int, k2: int)
    requires
        k1 <= k2,
        forall|j: int| k1 <= j < k2 ==> !#[trigger] f(j),
    ensures
        count_range(f, k2) == count_range(f, k1),
    decreases k2 - k1,
{
    if k1 < k2 {
        lemma_count_range_extend(f, k1, k2 - 1);
    }
}

/// Changing the predicate at one point changes the count by at most the
/// truth-value difference at that point.
pub proof fn lemma_count_range_update(
    f: spec_fn(int) -> bool,
    g: spec_fn(int) -> bool,
    x: int,
    k: int,
)
    requires
        forall|j: int| 0 <= j < k && j != x ==> #[trigger] f(j) == #[trigger] g(j),
        0 <= x < k,
    ensures
        count_range(g, k) == count_range(f, k) + (if g(x) {
            1int
        } else {
            0int
        }) - (if f(x) {
            1int
        } else {
            0int
        }),
    decreases k,
{
    if k > 0 {
        if x == k - 1 {
            lemma_count_range_congruence(f, g, k - 1);
        } else {
            lemma_count_range_update(f, g, x, k - 1);
        }
    }
}

} // verus!
