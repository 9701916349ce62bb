//! Counting flags, and the pigeonhole principle on flagged indices.

use crate::grid::{count_true, first_true, lemma_first_true};
use vstd::prelude::*;

verus! {

/// A set flag counts for one.
pub proof fn lemma_count_one(flags: Seq<bool>, a: int, n: int)
    requires
        0 <= a < n <= flags.len(),
        flags[a],
    ensures
        count_true(flags, n) >= 1,
    decreases n,
{
    if a < n - 1 {
        lemma_count_one(flags, a, n - 1);
    }
}

/// Two set flags count for two.
pub proof fn lemma_count_two(flags: Seq<bool>, a: int, b: int, n: int)
    requires
        0 <= a < b < n <= flags.len(),
        flags[a],
        flags[b],
    ensures
        count_true(flags, n) >= 2,
    decreases n,
{
    if b < n - 1 {
        lemma_count_two(flags, a, b, n - 1);
    } else {
        lemma_count_one(flags, a, n - 1);
    }
}

/// Clearing a flag lowers the count by one if the flag was set and counted.
pub proof fn lemma_count_cleared(flags: Seq<bool>, i: int, n: int)
    requires
        0 <= n <= flags.len(),
        0 <= i < flags.len(),
    ensures
        count_true(flags.update(i, false), n) == count_true(flags, n) - if i < n && flags[i] {
            1int
        } else {
            0int
        },
    decreases n,
{
    if n > 0 {
        lemma_count_cleared(flags, i, n - 1);
    }
}

/// The pigeonhole principle. Let `f` map the indices that `from` flags to
/// indices that `to` flags, no two of them to the same. If `from` flags at
/// least as many indices as `to`, then `f` reaches every index that `to` flags.
pub proof fn lemma_onto(from: Seq<bool>, to: Seq<bool>, f: spec_fn(int) -> int)
    requires
        forall|i: int|
            0 <= i < from.len() && #[trigger] from[i] ==> 0 <= f(i) < to.len() && to[f(i)],
        forall|i: int, j: int|
            0 <= i < from.len() && 0 <= j < from.len() && #[trigger] from[i] && #[trigger] from[j]
                && f(i) == f(j) ==> i == j,
        count_true(from, from.len() as int) >= count_true(to, to.len() as int),
    ensures
        forall|e: int|
            0 <= e < to.len() && #[trigger] to[e] ==> exists|i: int|
                0 <= i < from.len() && #[trigger] from[i] && f(i) == e,
    decreases count_true(to, to.len() as int),
{
    let m = from.len() as int;
    let k = to.len() as int;
    if count_true(to, k) == 0 {
        assert forall|e: int| 0 <= e < k && #[trigger] to[e] implies exists|i: int|
            0 <= i < m && #[trigger] from[i] && f(i) == e by {
            lemma_count_one(to, e, k);
        }
    } else {
        lemma_first_true(from, m);
        let i0 = first_true(from, m);
        let e0 = f(i0);
        assert(from[i0]);
        let from1 = from.update(i0, false);
        let to1 = to.update(e0, false);
        lemma_count_cleared(from, i0, m);
        lemma_count_cleared(to, e0, k);
        assert forall|i: int| 0 <= i < from1.len() && #[trigger] from1[i] implies 0 <= f(i)
            < to1.len() && to1[f(i)] by {
            assert(from[i]);
            if f(i) == e0 {
                assert(from[i0]);
            }
        }
        assert forall|i: int, j: int|
            0 <= i < from1.len() && 0 <= j < from1.len() && #[trigger] from1[i]
                && #[trigger] from1[j] && f(i) == f(j) implies i == j by {
            assert(from[i] && from[j]);
        }
        lemma_onto(from1, to1, f);
        assert forall|e: int| 0 <= e < k && #[trigger] to[e] implies exists|i: int|
            0 <= i < m && #[trigger] from[i] && f(i) == e by {
            if e == e0 {
                assert(from[i0] && f(i0) == e);
            } else {
                assert(to1[e]);
                let i = choose|i: int| 0 <= i < from1.len() && #[trigger] from1[i] && f(i) == e;
                assert(from[i] && f(i) == e);
            }
        }
    }
}

} // verus!
