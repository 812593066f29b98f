//! The retention schedule: which chain lengths a garbage collection spares.
//!
//! The states within [`SUFFIX_TO_KEEP`] of the longest chain are all spared.
//! Below that window the lengths that hold a state are walked upwards with a
//! cursor that starts at 0.  A length at or above the cursor is kept, and moves
//! the cursor half of the way from that length to the longest chain; a length
//! below the cursor lies in a gap.  So the kept lengths thin out with their
//! distance from the longest chain.
use vstd::prelude::*;

verus! {

/// How close to the longest chain a state must be for a collection to leave it
/// alone whatever the schedule says.
pub const SUFFIX_TO_KEEP: u32 = 50;

/// Where the cursor moves when the length `at` is kept: half of the way from
/// `at` to `tip`.
pub open spec fn stride(tip: int, at: int) -> int {
    at + (tip - at) / 2
}

/// The cursor when the walk arrives at the length `at`, having passed every
/// length below it.  `present` holds the lengths at which there is a state.
pub open spec fn cursor(present: Set<int>, tip: int, at: int) -> int
    decreases at,
{
    if at <= 0 {
        0
    } else {
        let before = cursor(present, tip, at - 1);
        if present.contains(at - 1) && at - 1 >= before {
            stride(tip, at - 1)
        } else {
            before
        }
    }
}

/// Whether the walk keeps the length `at`.
pub open spec fn kept(present: Set<int>, tip: int, at: int) -> bool {
    present.contains(at) && at >= cursor(present, tip, at)
}

/// Whether a collection leaves the states at length `at` as they are, where
/// `tip` is the length of the longest chain.
pub open spec fn spared(present: Set<int>, tip: int, at: int) -> bool {
    tip < SUFFIX_TO_KEEP || at >= tip - SUFFIX_TO_KEEP || kept(present, tip, at)
}

/// Lengths at which there is no state do not move the cursor.
pub proof fn lemma_cursor_skip(present: Set<int>, tip: int, from: int, to: int)
    requires
        0 <= from <= to,
        forall|at: int| from <= at < to ==> !present.contains(at),
    ensures
        cursor(present, tip, to) == cursor(present, tip, from),
    decreases to - from,
{
    if from < to {
        lemma_cursor_skip(present, tip, from, to - 1);
    }
}

/// The cursor never passes the longest chain, nor falls below 0.
pub proof fn lemma_cursor_bounds(present: Set<int>, tip: int, at: int)
    requires
        0 <= tip,
        forall|l: int| present.contains(l) ==> 0 <= l <= tip,
    ensures
        0 <= cursor(present, tip, at) <= tip,
    decreases at,
{
    if at > 0 {
        lemma_cursor_bounds(present, tip, at - 1);
    }
}

/// Taking lengths out of the gaps changes nothing for the lengths that stay:
/// where `fewer` holds every length of `present` that is kept, and no other
/// length, the cursor moves over `fewer` as it does over `present`.
pub proof fn lemma_cursor_without_gaps(present: Set<int>, fewer: Set<int>, tip: int, at: int)
    requires
        forall|l: int| fewer.contains(l) ==> present.contains(l),
        forall|l: int| 0 <= l < at && kept(present, tip, l) ==> fewer.contains(l),
    ensures
        cursor(fewer, tip, at) == cursor(present, tip, at),
    decreases at,
{
    if at > 0 {
        lemma_cursor_without_gaps(present, fewer, tip, at - 1);
    }
}

} // verus!
