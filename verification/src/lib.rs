use vstd::prelude::*;

pub mod arena;
pub mod buddy;
pub mod bump;
pub mod linked;

verus! {

/// Failure modes of an allocation request. Every recoverable condition is
/// surfaced as one of these values; no panic crosses the allocator boundary.
#[derive(Clone, Copy, Debug, PartialEq, Eq, Structural)]
pub enum AllocError {
    /// No free block or region of sufficient size exists.
    OutOfMemory,
    /// The request exceeds the total capacity of the allocator instance.
    RangeExceeded,
    /// Address or size arithmetic would exceed the addressable range.
    Overflow,
}

/// The least multiple of `n` that is at least `a`.
pub open spec fn round_up_spec(a: int, n: int) -> int {
    if a % n == 0 {
        a
    } else {
        a - a % n + n
    }
}

/// `round_up_spec` lands on a multiple of `n` within `n` bytes above `a`.
pub proof fn lemma_round_up_bounds(a: int, n: int)
    requires
        n >= 1,
        a >= 0,
    ensures
        a <= round_up_spec(a, n) < a + n,
        round_up_spec(a, n) % n == 0,
{
    assert(a <= round_up_spec(a, n) < a + n && round_up_spec(a, n) % n == 0) by (nonlinear_arith)
        requires
            n >= 1,
            a >= 0,
    ;
}

/// `round_up_spec(a, n)` is the least multiple of `n` at or above `a`: any
/// other multiple `m >= a` is at or above it.
pub proof fn lemma_round_up_least(a: int, n: int, m: int)
    requires
        n >= 1,
        0 <= a <= m,
        m % n == 0,
    ensures
        round_up_spec(a, n) <= m,
{
    assert(round_up_spec(a, n) <= m) by (nonlinear_arith)
        requires
            n >= 1,
            0 <= a <= m,
            m % n == 0,
    ;
}

/// Rounds an address up to the next boundary that is a multiple of `second`.
pub fn round_address(first: usize, second: usize) -> (r: usize)
    requires
        second >= 1,
        round_up_spec(first as int, second as int) <= usize::MAX,
    ensures
        r == round_up_spec(first as int, second as int),
        first <= r < first + second,
        r % second == 0,
{
    proof {
        lemma_round_up_bounds(first as int, second as int);
    }
    let cmp = first % second;
    if cmp == 0 {
        first
    } else {
        proof {
            assert(cmp <= first) by (nonlinear_arith)
                requires
                    cmp == first as int % second as int,
                    second >= 1,
            ;
        }
        first - cmp + second
    }
}

} // verus!
