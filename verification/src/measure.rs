//! Termination measure for the backtracking search.
//!
//! The solver walks the tree of partial placements in depth-first preorder.
//! Each search step moves strictly forward in that order, which is captured
//! here by encoding the stack of per-row column cursors as a single
//! non-negative radix number: row r contributes `slot * radix^(n + 1 - r)`,
//! where the slot counts the columns the cursor has not yet passed, and rows
//! below the current depth contribute the largest slot of all.  A step that
//! advances a cursor, or pops a row while bumping the cursor above it,
//! lowers the first slot on which the old and new stacks differ, and so
//! lowers the encoded number.  The lemmas in this module prove exactly that.

use vstd::arithmetic::mul::lemma_mul_inequality;
use vstd::prelude::*;

verus! {

/// The radix: one more than the largest slot value `n + 1`.
pub open spec fn radix(n: int) -> int {
    n + 2
}

/// `radix(n)` raised to the power `e`.
pub open spec fn pow_radix(n: int, e: nat) -> int
    decreases e,
{
    if e == 0 {
        1
    } else {
        radix(n) * pow_radix(n, (e - 1) as nat)
    }
}

/// The digit contributed by row `r`: how far the cursor of that row still is
/// from the end of the board, or the largest digit where no cursor exists.
pub open spec fn slot(s: Seq<int>, n: int, r: int) -> int {
    if 0 <= r < s.len() {
        n - s[r]
    } else {
        n + 1
    }
}

/// A well-formed cursor stack: at most one cursor per row of the board plus
/// one being explored, each pointing at a column or just past the last one.
pub open spec fn cursors_ok(s: Seq<int>, n: int) -> bool {
    &&& s.len() <= n + 2
    &&& forall|r: int| 0 <= r < s.len() ==> 0 <= #[trigger] s[r] <= n
}

/// The radix encoding of the slots of rows `r` and below.
pub open spec fn weight_from(s: Seq<int>, n: int, r: int) -> int
    decreases n + 2 - r,
{
    if r < 0 || r >= n + 2 {
        0
    } else {
        slot(s, n, r) * pow_radix(n, (n + 1 - r) as nat) + weight_from(s, n, r + 1)
    }
}

/// The radix encoding of a whole cursor stack.
pub open spec fn weight(s: Seq<int>, n: int) -> int {
    weight_from(s, n, 0)
}

pub proof fn lemma_pow_radix_pos(n: int, e: nat)
    requires
        n >= 0,
    ensures
        pow_radix(n, e) >= 1,
    decreases e,
{
    if e > 0 {
        lemma_pow_radix_pos(n, (e - 1) as nat);
        lemma_mul_inequality(1, radix(n), pow_radix(n, (e - 1) as nat));
    }
}

/// Every tail of the encoding is non-negative and bounded by the weight of a
/// single slot one row higher.
pub proof fn lemma_weight_bounds(s: Seq<int>, n: int, r: int)
    requires
        n >= 1,
        cursors_ok(s, n),
        0 <= r <= n + 2,
    ensures
        0 <= weight_from(s, n, r) < pow_radix(n, (n + 2 - r) as nat),
    decreases n + 2 - r,
{
    if r == n + 2 {
        lemma_pow_radix_pos(n, 0);
    } else {
        lemma_weight_bounds(s, n, r + 1);
        let d = slot(s, n, r);
        let w = pow_radix(n, (n + 1 - r) as nat);
        let tail = weight_from(s, n, r + 1);
        lemma_pow_radix_pos(n, (n + 1 - r) as nat);
        assert(0 <= d <= n + 1);
        assert(d * w >= 0) by (nonlinear_arith)
            requires
                d >= 0,
                w >= 1,
        ;
        assert(d * w + tail < (n + 2) * w) by (nonlinear_arith)
            requires
                d <= n + 1,
                w >= 1,
                0 <= tail < w,
        ;
        assert(pow_radix(n, (n + 2 - r) as nat) == radix(n) * pow_radix(n, (n + 1 - r) as nat));
    }
}

proof fn lemma_weight_decreases_from(s1: Seq<int>, s2: Seq<int>, n: int, r: int, k: int)
    requires
        n >= 1,
        cursors_ok(s1, n),
        cursors_ok(s2, n),
        0 <= r <= k < n + 2,
        forall|i: int| r <= i < k ==> slot(s2, n, i) == slot(s1, n, i),
        slot(s2, n, k) < slot(s1, n, k),
    ensures
        weight_from(s2, n, r) < weight_from(s1, n, r),
    decreases k - r,
{
    if r == k {
        let w = pow_radix(n, (n + 1 - r) as nat);
        let d1 = slot(s1, n, r);
        let d2 = slot(s2, n, r);
        lemma_weight_bounds(s1, n, r + 1);
        lemma_weight_bounds(s2, n, r + 1);
        lemma_pow_radix_pos(n, (n + 1 - r) as nat);
        assert(d2 * w + weight_from(s2, n, r + 1) < d1 * w + weight_from(s1, n, r + 1))
            by (nonlinear_arith)
            requires
                d2 < d1,
                w >= 1,
                0 <= weight_from(s2, n, r + 1) < w,
                0 <= weight_from(s1, n, r + 1),
        ;
    } else {
        lemma_weight_decreases_from(s1, s2, n, r + 1, k);
    }
}

/// The lexicographic principle behind the radix encoding: if two cursor
/// stacks agree on every row above `k` and the new stack has a smaller slot
/// at row `k`, the new stack weighs strictly less, whatever lies below.
pub proof fn lemma_weight_decreases(s1: Seq<int>, s2: Seq<int>, n: int, k: int)
    requires
        n >= 1,
        cursors_ok(s1, n),
        cursors_ok(s2, n),
        0 <= k < n + 2,
        forall|i: int| 0 <= i < k ==> slot(s2, n, i) == slot(s1, n, i),
        slot(s2, n, k) < slot(s1, n, k),
    ensures
        weight(s2, n) < weight(s1, n),
{
    lemma_weight_decreases_from(s1, s2, n, 0, k);
}

} // verus!
