//! Finite sums of integer sequences, `f(lo) + ... + f(hi - 1)`, and their rearrangements.
use vstd::arithmetic::mul::lemma_mul_is_distributive_add;
use vstd::prelude::*;

verus! {

/// `f(lo) + ... + f(hi - 1)`.
pub open spec fn range_sum(f: spec_fn(int) -> int, lo: int, hi: int) -> int
    decreases hi - lo,
{
    if hi <= lo {
        0
    } else {
        range_sum(f, lo, hi - 1) + f(hi - 1)
    }
}

pub proof fn lemma_range_sum_front(f: spec_fn(int) -> int, lo: int, hi: int)
    requires
        lo < hi,
    ensures
        range_sum(f, lo, hi) == f(lo) + range_sum(f, lo + 1, hi),
    decreases hi - lo,
{
    if hi > lo + 1 {
        lemma_range_sum_front(f, lo, hi - 1);
        assert(range_sum(f, lo + 1, hi) == range_sum(f, lo + 1, hi - 1) + f(hi - 1));
    } else {
        assert(range_sum(f, lo, lo) == 0);
        assert(range_sum(f, lo + 1, hi) == 0);
    }
}

pub proof fn lemma_range_sum_split(f: spec_fn(int) -> int, lo: int, mid: int, hi: int)
    requires
        lo <= mid <= hi,
    ensures
        range_sum(f, lo, hi) == range_sum(f, lo, mid) + range_sum(f, mid, hi),
    decreases hi - mid,
{
    if hi > mid {
        lemma_range_sum_split(f, lo, mid, hi - 1);
    }
}

/// Summing `f(j + d)` over `lo..hi` is summing `f` over `lo+d..hi+d`.
pub proof fn lemma_range_sum_offset(f: spec_fn(int) -> int, h: spec_fn(int) -> int, lo: int, hi: int, d: int)
    requires
        forall|j: int| lo <= j < hi ==> #[trigger] h(j) == f(j + d),
    ensures
        range_sum(h, lo, hi) == range_sum(f, lo + d, hi + d),
    decreases hi - lo,
{
    if hi > lo {
        lemma_range_sum_offset(f, h, lo, hi - 1, d);
    }
}

/// Summing in reverse order gives the same sum.
pub proof fn lemma_range_sum_reverse(f: spec_fn(int) -> int, g: spec_fn(int) -> int, lo: int, hi: int)
    requires
        forall|j: int| lo <= j < hi ==> #[trigger] g(j) == f(lo + hi - 1 - j),
    ensures
        range_sum(f, lo, hi) == range_sum(g, lo, hi),
    decreases hi - lo,
{
    if hi > lo {
        lemma_range_sum_front(f, lo, hi);
        let h = |j: int| f(j + 1);
        lemma_range_sum_offset(f, h, lo, hi - 1, 1);
        assert forall|j: int| lo <= j < hi - 1 implies #[trigger] g(j) == h(lo + (hi - 1) - 1 - j) by {
            assert(g(j) == f(lo + hi - 1 - j));
        }
        lemma_range_sum_reverse(h, g, lo, hi - 1);
        assert(g(hi - 1) == f(lo));
    }
}


/// The sum of a function bounded by `c` on the range is at most `c * (hi - lo)`.
pub proof fn lemma_range_sum_at_most(f: spec_fn(int) -> int, c: int, lo: int, hi: int)
    requires
        lo <= hi,
        forall|j: int| lo <= j < hi ==> #[trigger] f(j) <= c,
    ensures
        range_sum(f, lo, hi) <= c * (hi - lo),
    decreases hi - lo,
{
    if hi > lo {
        lemma_range_sum_at_most(f, c, lo, hi - 1);
        assert(c * (hi - 1 - lo) + c == c * (hi - lo)) by (nonlinear_arith);
    } else {
        assert(c * (hi - lo) == 0) by (nonlinear_arith)
            requires
                hi == lo,
        ;
    }
}

/// A pointwise smaller function has a smaller sum.
pub proof fn lemma_range_sum_le(f: spec_fn(int) -> int, g: spec_fn(int) -> int, lo: int, hi: int)
    requires
        forall|j: int| lo <= j < hi ==> #[trigger] f(j) <= g(j),
    ensures
        range_sum(f, lo, hi) <= range_sum(g, lo, hi),
    decreases hi - lo,
{
    if hi > lo {
        lemma_range_sum_le(f, g, lo, hi - 1);
    }
}

/// Sums of functions that agree on the range are equal.
pub proof fn lemma_range_sum_congruent(f: spec_fn(int) -> int, g: spec_fn(int) -> int, lo: int, hi: int)
    requires
        forall|j: int| lo <= j < hi ==> #[trigger] f(j) == g(j),
    ensures
        range_sum(f, lo, hi) == range_sum(g, lo, hi),
    decreases hi - lo,
{
    if hi > lo {
        lemma_range_sum_congruent(f, g, lo, hi - 1);
    }
}

/// The sum of a pointwise sum is the sum of the sums.
pub proof fn lemma_range_sum_add(f: spec_fn(int) -> int, g: spec_fn(int) -> int, h: spec_fn(int) -> int, lo: int, hi: int)
    requires
        forall|j: int| lo <= j < hi ==> #[trigger] h(j) == f(j) + g(j),
    ensures
        range_sum(h, lo, hi) == range_sum(f, lo, hi) + range_sum(g, lo, hi),
    decreases hi - lo,
{
    if hi > lo {
        lemma_range_sum_add(f, g, h, lo, hi - 1);
    }
}

/// A constant factor moves out of a sum.
pub proof fn lemma_range_sum_scale(f: spec_fn(int) -> int, h: spec_fn(int) -> int, c: int, lo: int, hi: int)
    requires
        forall|j: int| lo <= j < hi ==> #[trigger] h(j) == c * f(j),
    ensures
        range_sum(h, lo, hi) == c * range_sum(f, lo, hi),
    decreases hi - lo,
{
    if hi > lo {
        lemma_range_sum_scale(f, h, c, lo, hi - 1);
        lemma_mul_is_distributive_add(c, range_sum(f, lo, hi - 1), f(hi - 1));
    }
}

/// The sums of an `n`-periodic function over any `n` consecutive integers agree.
pub proof fn lemma_range_sum_periodic(f: spec_fn(int) -> int, n: int, lo: int)
    requires
        n > 0,
        lo <= 0,
        forall|j: int| #[trigger] f(j + n) == f(j),
    ensures
        range_sum(f, lo, lo + n) == range_sum(f, 0, n),
    decreases -lo,
{
    if lo < 0 {
        lemma_range_sum_periodic(f, n, lo + 1);
        lemma_range_sum_front(f, lo, lo + n);
        assert(f(lo + n) == f(lo));
    }
}

/// Sums over a rectangle may be taken in either order.
pub proof fn lemma_range_sum_swap(f: spec_fn(int, int) -> int, rows: int, cols: int)
    requires
        rows >= 0,
    ensures
        range_sum(|i: int| range_sum(|j: int| f(i, j), 0, cols), 0, rows) == range_sum(
            |j: int| range_sum(|i: int| f(i, j), 0, rows),
            0,
            cols,
        ),
    decreases rows,
{
    if rows > 0 {
        lemma_range_sum_swap(f, rows - 1, cols);
        let outer = |i: int| range_sum(|j: int| f(i, j), 0, cols);
        let prev = |j: int| range_sum(|i: int| f(i, j), 0, rows - 1);
        let last = |j: int| f(rows - 1, j);
        let now = |j: int| range_sum(|i: int| f(i, j), 0, rows);
        assert forall|j: int| 0 <= j < cols implies #[trigger] now(j) == prev(j) + last(j) by {}
        lemma_range_sum_add(prev, last, now, 0, cols);
        assert(range_sum(outer, 0, rows) == range_sum(outer, 0, rows - 1) + outer(rows - 1));
        assert(outer(rows - 1) == range_sum(last, 0, cols)) by {
            assert(last =~= |j: int| f(rows - 1, j));
        }
    } else {
        let empty = |j: int| range_sum(|i: int| f(i, j), 0, rows);
        lemma_range_sum_scale(|j: int| 1, empty, 0, 0, cols);
    }
}

} // verus!
