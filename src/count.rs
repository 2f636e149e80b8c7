//! Counting the indices below a bound that satisfy a predicate.

use vstd::prelude::*;

verus! {

/// Number of `j` in `0..n` with `f(j)`.
pub open spec fn count_where(n: int, f: spec_fn(int) -> bool) -> nat
    decreases n,
{
    if n <= 0 {
        0
    } else {
        count_where(n - 1, f) + if f(n - 1) {
            1nat
        } else {
            0nat
        }
    }
}

pub proof fn lemma_count_bound(n: int, f: spec_fn(int) -> bool)
    requires
        n >= 0,
    ensures
        count_where(n, f) <= n,
    decreases n,
{
    if n > 0 {
        lemma_count_bound(n - 1, f);
    }
}

/// Nothing is counted where nothing holds.
pub proof fn lemma_count_none(n: int, f: spec_fn(int) -> bool)
    requires
        forall|j: int| 0 <= j < n ==> !#[trigger] f(j),
    ensures
        count_where(n, f) == 0,
    decreases n,
{
    if n > 0 {
        lemma_count_none(n - 1, f);
    }
}

/// An interval of indices counts its length.
pub proof fn lemma_count_interval(n: int, lo: int, hi: int, f: spec_fn(int) -> bool)
    requires
        0 <= lo <= hi <= n,
        forall|j: int| 0 <= j < n ==> #[trigger] f(j) == (lo <= j < hi),
    ensures
        count_where(n, f) == hi - lo,
    decreases n,
{
    if n > 0 {
        if hi == n {
            if lo == n {
                lemma_count_none(n, f);
            } else {
                lemma_count_interval(n - 1, lo, hi - 1, f);
            }
        } else {
            lemma_count_interval(n - 1, lo, hi, f);
        }
    }
}

/// Predicates that agree `n` count alike.
pub proof fn lemma_count_ext(n: int, f: spec_fn(int) -> bool, g: spec_fn(int) -> bool)
    requires
        forall|j: int| 0 <= j < n ==> #[trigger] f(j) == g(j),
    ensures
        count_where(n, f) == count_where(n, g),
    decreases n,
{
    if n > 0 {
        lemma_count_ext(n - 1, f, g);
    }
}

/// Turning one index from counted to not counted lowers the count by one.
pub proof fn lemma_count_flip(n: int, f: spec_fn(int) -> bool, g: spec_fn(int) -> bool, i: int)
    requires
        0 <= i < n,
        f(i),
        !g(i),
        forall|j: int| 0 <= j < n && j != i ==> #[trigger] f(j) == g(j),
    ensures
        count_where(n, f) == count_where(n, g) + 1,
    decreases n,
{
    if i == n - 1 {
        lemma_count_ext(n - 1, f, g);
    } else {
        lemma_count_flip(n - 1, f, g, i);
    }
}

/// The indices where `a` holds split by `b`.
pub proof fn lemma_count_split(
    n: int,
    a: spec_fn(int) -> bool,
    ab: spec_fn(int) -> bool,
    anb: spec_fn(int) -> bool,
)
    requires
        forall|j: int| 0 <= j < n ==> (ab(j) ==> #[trigger] a(j)) && (anb(j) ==> a(j)) && (a(j) ==> (ab(j) != anb(j))),
    ensures
        count_where(n, a) == count_where(n, ab) + count_where(n, anb),
    decreases n,
{
    if n > 0 {
        lemma_count_split(n - 1, a, ab, anb);
    }
}

} // verus!
