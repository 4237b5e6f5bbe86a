//! Counting the positions of a list at which a condition holds.

use vstd::prelude::*;

verus! {

/// The number of positions `i` with `0 <= i < n` at which `holds(i)` is true.
pub open spec fn tally(n: int, holds: spec_fn(int) -> bool) -> nat
    decreases n,
{
    if n <= 0 {
        0
    } else {
        tally(n - 1, holds) + if holds(n - 1) {
            1nat
        } else {
            0nat
        }
    }
}

/// A tally over `n` positions is at most `n`.
pub proof fn lemma_tally_bound(n: int, holds: spec_fn(int) -> bool)
    requires
        0 <= n,
    ensures
        tally(n, holds) <= n,
    decreases n,
{
    if n > 0 {
        lemma_tally_bound(n - 1, holds);
    }
}

/// A condition that holds nowhere below `n` is tallied as zero.
pub proof fn lemma_tally_none(n: int, holds: spec_fn(int) -> bool)
    requires
        forall|i: int| 0 <= i < n ==> !#[trigger] holds(i),
    ensures
        tally(n, holds) == 0,
    decreases n,
{
    if n > 0 {
        lemma_tally_none(n - 1, holds);
    }
}

/// A condition that holds at a position below `n` is tallied as one at least.
pub proof fn lemma_tally_some(n: int, holds: spec_fn(int) -> bool, at: int)
    requires
        0 <= at < n,
        holds(at),
    ensures
        tally(n, holds) > 0,
    decreases n,
{
    if at < n - 1 {
        lemma_tally_some(n - 1, holds, at);
    }
}

/// A tally that is not zero has a position at which the condition holds.
pub proof fn lemma_tally_witness(n: int, holds: spec_fn(int) -> bool) -> (i: int)
    requires
        tally(n, holds) > 0,
    ensures
        0 <= i < n,
        holds(i),
    decreases n,
{
    if holds(n - 1) {
        n - 1
    } else {
        lemma_tally_witness(n - 1, holds)
    }
}

/// Where one condition implies another below `n`, its tally is no larger.
pub proof fn lemma_tally_le(n: int, narrow: spec_fn(int) -> bool, wide: spec_fn(int) -> bool)
    requires
        forall|i: int| 0 <= i < n && #[trigger] narrow(i) ==> wide(i),
    ensures
        tally(n, narrow) <= tally(n, wide),
    decreases n,
{
    if n > 0 {
        lemma_tally_le(n - 1, narrow, wide);
    }
}

/// Two conditions that agree below `n` have the same tally.
pub proof fn lemma_tally_same(n: int, one: spec_fn(int) -> bool, other: spec_fn(int) -> bool)
    requires
        forall|i: int| 0 <= i < n ==> #[trigger] one(i) == other(i),
    ensures
        tally(n, one) == tally(n, other),
    decreases n,
{
    if n > 0 {
        lemma_tally_same(n - 1, one, other);
    }
}

/// Two conditions that agree below `n` but at `at`, where only the second
/// holds, differ by one in their tallies.
pub proof fn lemma_tally_gain(
    n: int,
    before: spec_fn(int) -> bool,
    after: spec_fn(int) -> bool,
    at: int,
)
    requires
        0 <= at < n,
        !before(at),
        after(at),
        forall|i: int| 0 <= i < n && i != at ==> #[trigger] before(i) == after(i),
    ensures
        tally(n, after) == tally(n, before) + 1,
    decreases n,
{
    if at == n - 1 {
        lemma_tally_same(n - 1, before, after);
    } else {
        lemma_tally_gain(n - 1, before, after, at);
    }
}

/// A condition that is the union of two others which exclude each other is
/// tallied as the sum of their tallies.
pub proof fn lemma_tally_split(
    n: int,
    whole: spec_fn(int) -> bool,
    left: spec_fn(int) -> bool,
    right: spec_fn(int) -> bool,
)
    requires
        forall|i: int| 0 <= i < n ==> (#[trigger] whole(i) <==> left(i) || right(i)),
        forall|i: int| 0 <= i < n ==> !(#[trigger] left(i) && right(i)),
    ensures
        tally(n, whole) == tally(n, left) + tally(n, right),
    decreases n,
{
    if n > 0 {
        lemma_tally_split(n - 1, whole, left, right);
    }
}

} // verus!
