//! Sums over places, for saying what a running total comes to.
use vstd::prelude::*;

verus! {

/// What the parts at the first `n` places add up to.
pub open spec fn total(n: int, part: spec_fn(int) -> int) -> int
    decreases n,
{
    if n <= 0 {
        0
    } else {
        total(n - 1, part) + part(n - 1)
    }
}

/// Parts that agree add up alike.
pub proof fn lemma_same(n: int, a: spec_fn(int) -> int, b: spec_fn(int) -> int)
    requires
        forall|i: int| 0 <= i < n ==> #[trigger] a(i) == b(i),
    ensures
        total(n, a) == total(n, b),
    decreases n,
{
    if n > 0 {
        lemma_same(n - 1, a, b);
        assert(a(n - 1) == b(n - 1));
    }
}

} // verus!
