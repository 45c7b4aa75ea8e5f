//! Counting and adding up.

use vstd::prelude::*;

verus! {

/// The sum of a function over the numbers below `n`.
pub open spec fn sum(n: nat, f: spec_fn(int) -> int) -> int
    decreases n,
{
    if n == 0 {
        0
    } else {
        sum((n - 1) as nat, f) + f(n - 1)
    }
}

/// One where something holds, nothing where it does not.
pub open spec fn one(holds: bool) -> int {
    if holds {
        1
    } else {
        0
    }
}

pub(crate) proof fn lemma_sum_same(n: nat, f: spec_fn(int) -> int, g: spec_fn(int) -> int)
    requires
        forall|i: int| 0 <= i < n ==> #[trigger] f(i) == g(i),
    ensures
        sum(n, f) == sum(n, g),
    decreases n,
{
    if n > 0 {
        lemma_sum_same((n - 1) as nat, f, g);
        assert(f(n - 1) == g(n - 1));
    }
}

pub(crate) proof fn lemma_sum_not_negative(n: nat, f: spec_fn(int) -> int)
    requires
        forall|i: int| 0 <= i < n ==> #[trigger] f(i) >= 0,
    ensures
        sum(n, f) >= 0,
        sum(n, f) == 0 ==> forall|i: int| 0 <= i < n ==> #[trigger] f(i) == 0,
    decreases n,
{
    if n > 0 {
        lemma_sum_not_negative((n - 1) as nat, f);
        assert(f(n - 1) >= 0);
    }
}

pub(crate) proof fn lemma_sum_zero(n: nat, f: spec_fn(int) -> int)
    requires
        forall|i: int| 0 <= i < n ==> #[trigger] f(i) == 0,
    ensures
        sum(n, f) == 0,
    decreases n,
{
    if n > 0 {
        lemma_sum_zero((n - 1) as nat, f);
        assert(f(n - 1) == 0);
    }
}

pub(crate) proof fn lemma_sum_add(
    n: nat,
    f: spec_fn(int) -> int,
    g: spec_fn(int) -> int,
    both: spec_fn(int) -> int,
)
    requires
        forall|i: int| 0 <= i < n ==> #[trigger] both(i) == f(i) + g(i),
    ensures
        sum(n, both) == sum(n, f) + sum(n, g),
    decreases n,
{
    if n > 0 {
        lemma_sum_add((n - 1) as nat, f, g, both);
        assert(both(n - 1) == f(n - 1) + g(n - 1));
    }
}

} // verus!
