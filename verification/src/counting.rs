//! Counting and summation over integer ranges, with the small algebra of
//! lemmas (splitting, monotonicity, pointwise reasoning, and exchange of a
//! double summation) that the board invariants and adjacency laws rest on.

use vstd::prelude::*;

verus! {

/// Number of integers in `[lo, hi)` satisfying `p`.
pub open spec fn count_if(p: spec_fn(int) -> bool, lo: int, hi: int) -> nat
    decreases hi - lo,
{
    if lo >= hi {
        0
    } else {
        count_if(p, lo, hi - 1) + (if p(hi - 1) {
            1nat
        } else {
            0nat
        })
    }
}

/// Sum of `f` over the integers in `[lo, hi)`.
pub open spec fn sum_of(f: spec_fn(int) -> nat, lo: int, hi: int) -> nat
    decreases hi - lo,
{
    if lo >= hi {
        0
    } else {
        sum_of(f, lo, hi - 1) + f(hi - 1)
    }
}

pub proof fn lemma_count_split(p: spec_fn(int) -> bool, lo: int, mid: int, hi: int)
    requires
        lo <= mid <= hi,
    ensures
        count_if(p, lo, hi) == count_if(p, lo, mid) + count_if(p, mid, hi),
    decreases hi - mid,
{
    if mid < hi {
        lemma_count_split(p, lo, mid, hi - 1);
    }
}

pub proof fn lemma_count_zero(p: spec_fn(int) -> bool, lo: int, hi: int)
    requires
        forall|j: int| lo <= j < hi ==> !#[trigger] p(j),
    ensures
        count_if(p, lo, hi) == 0,
    decreases hi - lo,
{
    if lo < hi {
        lemma_count_zero(p, lo, hi - 1);
    }
}

pub proof fn lemma_count_all(p: spec_fn(int) -> bool, lo: int, hi: int)
    requires
        lo <= hi,
        forall|j: int| lo <= j < hi ==> #[trigger] p(j),
    ensures
        count_if(p, lo, hi) == hi - lo,
    decreases hi - lo,
{
    if lo < hi {
        lemma_count_all(p, lo, hi - 1);
    }
}

pub proof fn lemma_count_le(p: spec_fn(int) -> bool, q: spec_fn(int) -> bool, lo: int, hi: int)
    requires
        forall|j: int| lo <= j < hi && #[trigger] p(j) ==> q(j),
    ensures
        count_if(p, lo, hi) <= count_if(q, lo, hi),
    decreases hi - lo,
{
    if lo < hi {
        lemma_count_le(p, q, lo, hi - 1);
    }
}

pub proof fn lemma_count_ext(p: spec_fn(int) -> bool, q: spec_fn(int) -> bool, lo: int, hi: int)
    requires
        forall|j: int| lo <= j < hi ==> #[trigger] p(j) == q(j),
    ensures
        count_if(p, lo, hi) == count_if(q, lo, hi),
    decreases hi - lo,
{
    if lo < hi {
        lemma_count_ext(p, q, lo, hi - 1);
    }
}

/// Adding one satisfying point to a predicate raises the count by one.
pub proof fn lemma_count_insert(
    p: spec_fn(int) -> bool,
    q: spec_fn(int) -> bool,
    lo: int,
    hi: int,
    x: int,
)
    requires
        lo <= x < hi,
        !p(x),
        q(x),
        forall|j: int| lo <= j < hi && j != x ==> #[trigger] p(j) == q(j),
    ensures
        count_if(q, lo, hi) == count_if(p, lo, hi) + 1,
{
    lemma_count_split(p, lo, x, hi);
    lemma_count_split(p, x, x + 1, hi);
    lemma_count_split(q, lo, x, hi);
    lemma_count_split(q, x, x + 1, hi);
    lemma_count_ext(p, q, lo, x);
    lemma_count_ext(p, q, x + 1, hi);
    reveal_with_fuel(count_if, 2);
    assert(count_if(p, x, x + 1) == 0);
    assert(count_if(q, x, x + 1) == 1);
}

/// A point satisfying the predicate makes the count positive.
pub proof fn lemma_count_positive(p: spec_fn(int) -> bool, lo: int, hi: int, x: int)
    requires
        lo <= x < hi,
        p(x),
    ensures
        count_if(p, lo, hi) >= 1,
{
    lemma_count_split(p, lo, x, hi);
    lemma_count_split(p, x, x + 1, hi);
    reveal_with_fuel(count_if, 2);
    assert(count_if(p, x, x + 1) == 1);
}

pub proof fn lemma_sum_zero(f: spec_fn(int) -> nat, lo: int, hi: int)
    requires
        forall|j: int| lo <= j < hi ==> #[trigger] f(j) == 0,
    ensures
        sum_of(f, lo, hi) == 0,
    decreases hi - lo,
{
    if lo < hi {
        lemma_sum_zero(f, lo, hi - 1);
    }
}

pub proof fn lemma_sum_ext(f: spec_fn(int) -> nat, g: spec_fn(int) -> nat, lo: int, hi: int)
    requires
        forall|j: int| lo <= j < hi ==> #[trigger] f(j) == g(j),
    ensures
        sum_of(f, lo, hi) == sum_of(g, lo, hi),
    decreases hi - lo,
{
    if lo < hi {
        lemma_sum_ext(f, g, lo, hi - 1);
    }
}

/// A sum of pointwise sums is the sum of the two sums.
pub proof fn lemma_sum_add(
    f: spec_fn(int) -> nat,
    g: spec_fn(int) -> nat,
    h: spec_fn(int) -> nat,
    lo: int,
    hi: int,
)
    requires
        forall|j: int| lo <= j < hi ==> #[trigger] h(j) == f(j) + g(j),
    ensures
        sum_of(h, lo, hi) == sum_of(f, lo, hi) + sum_of(g, lo, hi),
    decreases hi - lo,
{
    if lo < hi {
        lemma_sum_add(f, g, h, lo, hi - 1);
    }
}

/// A count is the sum of an indicator function.
pub proof fn lemma_count_as_sum(p: spec_fn(int) -> bool, f: spec_fn(int) -> nat, lo: int, hi: int)
    requires
        forall|j: int|
            lo <= j < hi ==> #[trigger] f(j) == (if p(j) {
                1nat
            } else {
                0nat
            }),
    ensures
        sum_of(f, lo, hi) == count_if(p, lo, hi),
    decreases hi - lo,
{
    if lo < hi {
        lemma_count_as_sum(p, f, lo, hi - 1);
    }
}

/// Exchanging the order of a double count: counting the pairs `(i, j)` with
/// `g(i, j)` row by row gives the same total as counting them column by
/// column.
pub proof fn lemma_sum_count_exchange(
    g: spec_fn(int, int) -> bool,
    a: int,
    b: int,
    c: int,
    d: int,
)
    ensures
        sum_of(|i: int| count_if(|j: int| g(i, j), c, d), a, b) == sum_of(
            |j: int| count_if(|i: int| g(i, j), a, b),
            c,
            d,
        ),
    decreases b - a,
{
    let left = |i: int| count_if(|j: int| g(i, j), c, d);
    let right_full = |j: int| count_if(|i: int| g(i, j), a, b);
    if a >= b {
        assert forall|j: int| c <= j < d implies #[trigger] right_full(j) == 0 by {
            lemma_count_zero(|i: int| g(i, j), a, b);
        }
        lemma_sum_zero(right_full, c, d);
    } else {
        let right_short = |j: int| count_if(|i: int| g(i, j), a, b - 1);
        let last_ind = |j: int|
            if g(b - 1, j) {
                1nat
            } else {
                0nat
            };
        lemma_sum_count_exchange(g, a, b - 1, c, d);
        assert forall|j: int| c <= j < d implies #[trigger] right_full(j) == right_short(j)
            + last_ind(j) by {
            reveal_with_fuel(count_if, 2);
        }
        lemma_sum_add(right_short, last_ind, right_full, c, d);
        lemma_count_as_sum(|j: int| g(b - 1, j), last_ind, c, d);
        assert(sum_of(left, a, b) == sum_of(left, a, b - 1) + left(b - 1));
    }
}

} // verus!
