//! How many states a collection leaves behind.
//!
//! Every length that the schedule keeps below the suffix halves what is left of
//! the way from the cursor to the longest chain, so the schedule keeps about as
//! many lengths there as the length of the longest chain has binary digits.
use crate::chain::HeaderId;
use crate::collection::collected;
use crate::collection::lemma_longest_exists;
use crate::collection::lengths_of;
use crate::collection::longest;
use crate::collection::untouched;
use crate::entry::EntryView;
use crate::schedule::cursor;
use crate::schedule::kept;
use crate::schedule::stride;
use crate::schedule::SUFFIX_TO_KEEP;
use vstd::arithmetic::logarithm::lemma_log_is_ordered;
use vstd::arithmetic::logarithm::lemma_log_nonnegative;
use vstd::arithmetic::logarithm::lemma_log_pow;
use vstd::arithmetic::logarithm::log;
use vstd::arithmetic::power::pow;
use vstd::prelude::*;
use vstd::set_lib::lemma_int_range;
use vstd::set_lib::lemma_len_subset;
use vstd::set_lib::lemma_len_union;
use vstd::set_lib::lemma_map_size;
use vstd::set_lib::set_int_range;

verus! {

/// The number of lengths below `upto` that the schedule keeps.
pub open spec fn kept_below(present: Set<int>, tip: int, upto: int) -> nat
    decreases upto,
{
    if upto <= 0 {
        0
    } else {
        let fewer = kept_below(present, tip, upto - 1);
        if kept(present, tip, upto - 1) {
            fewer + 1
        } else {
            fewer
        }
    }
}

/// The lengths below `upto` that the schedule keeps.
pub open spec fn kept_lengths(present: Set<int>, tip: int, upto: int) -> Set<int> {
    Set::new(|length: int| 0 <= length < upto && kept(present, tip, length))
}

/// `kept_below` counts `kept_lengths`.
pub proof fn lemma_kept_counted(present: Set<int>, tip: int, upto: int)
    ensures
        kept_lengths(present, tip, upto).finite(),
        kept_lengths(present, tip, upto).len() == kept_below(present, tip, upto),
    decreases upto,
{
    if upto <= 0 {
        assert(kept_lengths(present, tip, upto) =~= Set::empty());
    } else {
        lemma_kept_counted(present, tip, upto - 1);
        let fewer = kept_lengths(present, tip, upto - 1);
        if kept(present, tip, upto - 1) {
            assert(kept_lengths(present, tip, upto) =~= fewer.insert(upto - 1));
        } else {
            assert(kept_lengths(present, tip, upto) =~= fewer);
        }
    }
}

proof fn lemma_double(n: nat)
    ensures
        pow(2, n + 1) == 2 * pow(2, n),
        pow(2, n) >= 1,
    decreases n,
{
    reveal(pow);
    if n > 0 {
        lemma_double((n - 1) as nat);
    }
}

/// Below the suffix, every length that the schedule keeps halves what is left
/// of the way from the cursor to the longest chain.
proof fn lemma_way_halves(present: Set<int>, tip: int, upto: int)
    requires
        0 <= upto <= tip - SUFFIX_TO_KEEP,
    ensures
        0 <= cursor(present, tip, upto) <= tip,
        (tip - cursor(present, tip, upto) - 1) * pow(2, kept_below(present, tip, upto)) <= tip - 1,
        kept_below(present, tip, upto) >= 1 ==> tip - cursor(present, tip, upto) >= 26,
    decreases upto,
{
    reveal(pow);
    if upto > 0 {
        lemma_way_halves(present, tip, upto - 1);
        let at = upto - 1;
        let before = cursor(present, tip, at);
        let count = kept_below(present, tip, at);
        lemma_double(count);
        if kept(present, tip, at) {
            let left = tip - at;
            let way = tip - stride(tip, at);
            assert(way == left - left / 2);
            assert(2 * (way - 1) <= left - 1);
            assert(left <= tip - before);
            let scale = pow(2, count);
            assert((way - 1) * (2 * scale) <= (tip - before - 1) * scale) by (nonlinear_arith)
                requires
                    2 * (way - 1) <= tip - before - 1,
                    scale >= 1,
            ;
        }
    }
}

/// The schedule keeps at most `log(2, tip) - 4` lengths below the suffix.
pub proof fn lemma_few_kept(present: Set<int>, tip: int)
    requires
        tip >= SUFFIX_TO_KEEP,
    ensures
        kept_below(present, tip, tip - SUFFIX_TO_KEEP) + 4 <= log(2, tip),
{
    let count = kept_below(present, tip, tip - SUFFIX_TO_KEEP);
    lemma_way_halves(present, tip, tip - SUFFIX_TO_KEEP);
    lemma_double(count);
    lemma_double(count + 1);
    lemma_double(count + 2);
    lemma_double(count + 3);
    let scale = pow(2, count);
    assert(pow(2, count + 4) == 16 * scale);
    if count >= 1 {
        let way = tip - cursor(present, tip, tip - SUFFIX_TO_KEEP);
        assert(16 * scale <= (way - 1) * scale) by (nonlinear_arith)
            requires
                way >= 26,
                scale >= 1,
        ;
        lemma_log_pow(2, count + 4);
        lemma_log_is_ordered(2, pow(2, count + 4), tip);
    } else {
        assert(pow(2, 4) == 16) by {
            lemma_double(0);
            lemma_double(1);
            lemma_double(2);
            lemma_double(3);
            reveal(pow);
        }
        lemma_log_pow(2, 4);
        lemma_log_is_ordered(2, pow(2, 4), tip);
    }
}

/// Collection is effective.  Let a finite table file no two states under one
/// length, as on a single chain, and let nobody hold a state that the schedule
/// does not spare.  Then a collection leaves no more states than
/// [`SUFFIX_TO_KEEP`] and the binary logarithm of the longest chain's length
/// together.
pub proof fn lemma_collection_bound<State>(
    table: Map<HeaderId, EntryView<State>>,
    held: Set<HeaderId>,
    any: HeaderId,
)
    requires
        table.dom().finite(),
        table.contains_key(any),
        forall|a: HeaderId, b: HeaderId|
            table.contains_key(a) && table.contains_key(b) && a != b ==> table[a].length
                != table[b].length,
        forall|id: HeaderId| held.contains(id) && table.contains_key(id) ==> untouched(table, id),
    ensures
        collected(table, held).dom().finite(),
        collected(table, held).len() <= SUFFIX_TO_KEEP + log(2, longest(table)),
{
    let left = collected(table, held);
    let present = lengths_of(table);
    lemma_longest_exists(table, any);
    let tip = longest(table);
    lemma_len_subset(left.dom(), table.dom());
    let length_of = |id: HeaderId| table[id].length.0 as int;
    let lengths = left.dom().map(length_of);
    assert(vstd::relations::injective_on(length_of, left.dom()));
    lemma_map_size(left.dom(), lengths, length_of);
    lemma_log_nonnegative(2, tip);
    if tip < SUFFIX_TO_KEEP {
        lemma_int_range(0, tip + 1);
        assert(lengths.subset_of(set_int_range(0, tip + 1))) by {
            assert forall|length: int| lengths.contains(length) implies set_int_range(
                0,
                tip + 1,
            ).contains(length) by {
                let id = choose|id: HeaderId| left.dom().contains(id) && length_of(id) == length;
                assert(present.contains(length));
            }
        }
        lemma_len_subset(lengths, set_int_range(0, tip + 1));
    } else {
        let threshold = tip - SUFFIX_TO_KEEP;
        let below = kept_lengths(present, tip, threshold);
        let suffix = set_int_range(threshold, tip + 1);
        lemma_kept_counted(present, tip, threshold);
        lemma_int_range(threshold, tip + 1);
        lemma_few_kept(present, tip);
        assert(lengths.subset_of(below.union(suffix))) by {
            assert forall|length: int| lengths.contains(length) implies below.union(suffix).contains(
                length,
            ) by {
                let id = choose|id: HeaderId| left.dom().contains(id) && length_of(id) == length;
                assert(present.contains(length));
                assert(untouched(table, id));
            }
        }
        lemma_len_union(below, suffix);
        lemma_len_subset(lengths, below.union(suffix));
    }
}

} // verus!
