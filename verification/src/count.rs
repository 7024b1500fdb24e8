//! Counting the indices below a bound that satisfy a predicate.

use vstd::prelude::*;

verus! {

/// Number of `i` in `0..n` with `p(i)`.
pub open spec fn count_upto(n: nat, p: spec_fn(int) -> bool) -> nat
    decreases n,
{
    if n == 0 {
        0
    } else {
        count_upto((n - 1) as nat, p) + if p(n - 1) { 1nat } else { 0nat }
    }
}

pub proof fn lemma_count_bound(n: nat, p: spec_fn(int) -> bool)
    ensures
        count_upto(n, p) <= n,
    decreases n,
{
    if n > 0 {
        lemma_count_bound((n - 1) as nat, p);
    }
}

/// Predicates that agree below `n` count alike.
pub proof fn lemma_count_ext(n: nat, p: spec_fn(int) -> bool, q: spec_fn(int) -> bool)
    requires
        forall|i: int| 0 <= i < n ==> #[trigger] p(i) == q(i),
    ensures
        count_upto(n, p) == count_upto(n, q),
    decreases n,
{
    if n > 0 {
        lemma_count_ext((n - 1) as nat, p, q);
    }
}

/// Dropping one index from a predicate lowers the count by one.
pub proof fn lemma_count_drop_one(n: nat, p: spec_fn(int) -> bool, q: spec_fn(int) -> bool, j: int)
    requires
        0 <= j < n,
        p(j),
        !q(j),
        forall|i: int| 0 <= i < n && i != j ==> #[trigger] p(i) == q(i),
    ensures
        count_upto(n, p) == count_upto(n, q) + 1,
    decreases n,
{
    if j < n - 1 {
        lemma_count_drop_one((n - 1) as nat, p, q, j);
    } else {
        lemma_count_ext((n - 1) as nat, p, q);
    }
}

/// A zero count means no index qualifies.
pub proof fn lemma_count_zero(n: nat, p: spec_fn(int) -> bool, j: int)
    requires
        count_upto(n, p) == 0,
        0 <= j < n,
    ensures
        !p(j),
    decreases n,
{
    if j < n - 1 {
        lemma_count_zero((n - 1) as nat, p, j);
    }
}

/// If no index qualifies, the count is zero.
pub proof fn lemma_count_none(n: nat, p: spec_fn(int) -> bool)
    requires
        forall|i: int| 0 <= i < n ==> !#[trigger] p(i),
    ensures
        count_upto(n, p) == 0,
    decreases n,
{
    if n > 0 {
        lemma_count_none((n - 1) as nat, p);
    }
}

/// If some index fails the predicate, the count is below the bound.
pub proof fn lemma_count_below(n: nat, p: spec_fn(int) -> bool, j: int)
    requires
        0 <= j < n,
        !p(j),
    ensures
        count_upto(n, p) < n,
    decreases n,
{
    if j < n - 1 {
        lemma_count_below((n - 1) as nat, p, j);
    } else {
        lemma_count_bound((n - 1) as nat, p);
    }
}

} // verus!
