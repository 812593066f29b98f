//! What a garbage collection does to the state table, as a function of the
//! table and of the set of blocks whose state somebody besides the cache holds.
use crate::chain::ChainLength;
use crate::chain::HeaderId;
use crate::entry::EntryView;
use crate::schedule::kept;
use crate::schedule::lemma_cursor_without_gaps;
use crate::schedule::spared;
use vstd::prelude::*;

verus! {

/// The chain lengths under which the table files a state.
pub open spec fn lengths_of<State>(table: Map<HeaderId, EntryView<State>>) -> Set<int> {
    Set::new(
        |length: int|
            exists|id: HeaderId| #[trigger] table.contains_key(id) && table[id].length.0 == length,
    )
}

/// Whether `tip` is the greatest chain length under which the table files a
/// state.
pub open spec fn is_longest<State>(table: Map<HeaderId, EntryView<State>>, tip: int) -> bool {
    &&& lengths_of(table).contains(tip)
    &&& forall|length: int| lengths_of(table).contains(length) ==> length <= tip
}

/// The length of the longest chain that the table has a state of.
pub open spec fn longest<State>(table: Map<HeaderId, EntryView<State>>) -> int {
    choose|tip: int| is_longest(table, tip)
}

/// Whether a collection leaves the entry of `id` as it is: it lies within the
/// suffix that is always kept, or at a length that the schedule keeps.
pub open spec fn untouched<State>(table: Map<HeaderId, EntryView<State>>, id: HeaderId) -> bool {
    spared(lengths_of(table), longest(table), table[id].length.0 as int)
}

/// The state table after a collection, where `held` is the set of blocks whose
/// state somebody besides the cache holds.  An entry that the schedule spares
/// stays as it is.  Any other entry is made collectable where it was retained,
/// and is dropped unless its block is in `held`.
pub open spec fn collected<State>(
    table: Map<HeaderId, EntryView<State>>,
    held: Set<HeaderId>,
) -> Map<HeaderId, EntryView<State>> {
    Map::new(
        |id: HeaderId| table.contains_key(id) && (untouched(table, id) || held.contains(id)),
        |id: HeaderId|
            if untouched(table, id) {
                table[id]
            } else {
                table[id].demoted()
            },
    )
}

/// The state table after the entries filed under `length` were dealt with: each
/// of them is made collectable, and is dropped unless its block is in `held`.
pub open spec fn swept<State>(
    table: Map<HeaderId, EntryView<State>>,
    length: int,
    held: Set<HeaderId>,
) -> Map<HeaderId, EntryView<State>> {
    Map::new(
        |id: HeaderId| table.contains_key(id) && (table[id].length.0 != length || held.contains(id)),
        |id: HeaderId|
            if table[id].length.0 != length {
                table[id]
            } else {
                table[id].demoted()
            },
    )
}

/// The state table in the course of a collection that has dealt with every
/// length below `scan`, and has not come to the others yet.
pub open spec fn collected_below<State>(
    table: Map<HeaderId, EntryView<State>>,
    held: Set<HeaderId>,
    scan: int,
) -> Map<HeaderId, EntryView<State>> {
    Map::new(
        |id: HeaderId|
            table.contains_key(id) && (table[id].length.0 >= scan || untouched(table, id)
                || held.contains(id)),
        |id: HeaderId|
            if table[id].length.0 >= scan || untouched(table, id) {
                table[id]
            } else {
                table[id].demoted()
            },
    )
}

/// Among the members of a set of lengths below `bound`, one is the greatest.
proof fn lemma_greatest_below(lengths: Set<int>, bound: int, some: int)
    requires
        lengths.contains(some),
        0 <= some < bound,
        forall|length: int| lengths.contains(length) ==> 0 <= length < bound,
    ensures
        exists|tip: int|
            lengths.contains(tip) && forall|length: int| lengths.contains(length) ==> length <= tip,
    decreases bound,
{
    if lengths.contains(bound - 1) {
        let tip = bound - 1;
        assert(lengths.contains(tip) && forall|length: int|
            lengths.contains(length) ==> length <= tip);
    } else {
        lemma_greatest_below(lengths, bound - 1, some);
    }
}

/// A table that holds anything has a longest chain.
pub proof fn lemma_longest_exists<State>(table: Map<HeaderId, EntryView<State>>, id: HeaderId)
    requires
        table.contains_key(id),
    ensures
        is_longest(table, longest(table)),
        0 <= longest(table) <= u32::MAX,
{
    let lengths = lengths_of(table);
    assert(lengths.contains(table[id].length.0 as int));
    lemma_greatest_below(lengths, u32::MAX + 1, table[id].length.0 as int);
    let tip = choose|tip: int|
        lengths.contains(tip) && forall|length: int| lengths.contains(length) ==> length <= tip;
    assert(is_longest(table, tip));
}

/// The longest chain is the one length that no filed length exceeds.
pub proof fn lemma_longest_unique<State>(table: Map<HeaderId, EntryView<State>>, tip: int)
    requires
        is_longest(table, tip),
    ensures
        longest(table) == tip,
{
    let other = longest(table);
    assert(is_longest(table, other));
}

/// A collection decides by lengths alone.  Where a table `fewer` has only
/// entries of `table`, under the same lengths, and has every entry that a
/// collection of `table` leaves as it is, a collection of `fewer` leaves the
/// same entries as they are.
pub proof fn lemma_same_schedule<State>(
    table: Map<HeaderId, EntryView<State>>,
    fewer: Map<HeaderId, EntryView<State>>,
)
    requires
        forall|id: HeaderId| #[trigger]
            fewer.contains_key(id) ==> table.contains_key(id) && fewer[id].length
                == table[id].length,
        forall|id: HeaderId|
            table.contains_key(id) && untouched(table, id) ==> #[trigger] fewer.contains_key(id),
    ensures
        forall|id: HeaderId| #[trigger]
            fewer.contains_key(id) ==> (untouched(fewer, id) <==> untouched(table, id)),
{
    assert forall|id: HeaderId| #[trigger] fewer.contains_key(id) implies (untouched(fewer, id)
        <==> untouched(table, id)) by {
        let all = lengths_of(table);
        let some = lengths_of(fewer);
        lemma_longest_exists(table, id);
        let tip = longest(table);
        let top = choose|top: HeaderId| #[trigger]
            table.contains_key(top) && table[top].length.0 == tip;
        assert(untouched(table, top));
        assert(fewer.contains_key(top));
        assert(some.contains(tip));
        assert forall|length: int| some.contains(length) implies all.contains(length) by {
            let at = choose|at: HeaderId| #[trigger]
                fewer.contains_key(at) && fewer[at].length.0 == length;
            assert(table.contains_key(at));
        }
        assert(is_longest(fewer, tip));
        lemma_longest_unique(fewer, tip);
        let here = table[id].length.0 as int;
        assert forall|length: int| 0 <= length < here && kept(all, tip, length) implies some.contains(
            length,
        ) by {
            let at = choose|at: HeaderId| #[trigger]
                table.contains_key(at) && table[at].length.0 == length;
            assert(untouched(table, at));
            assert(fewer.contains_key(at));
        }
        lemma_cursor_without_gaps(all, some, tip, here);
        assert(some.contains(here));
        assert(all.contains(here));
    }
}

/// Pin safety, for one collection: a state that somebody holds stays in the
/// table, under the same length, whatever the schedule says of it.
pub proof fn lemma_held_state_stays<State>(
    table: Map<HeaderId, EntryView<State>>,
    held: Set<HeaderId>,
    id: HeaderId,
)
    requires
        table.contains_key(id),
        held.contains(id),
    ensures
        collected(table, held).contains_key(id),
        collected(table, held)[id].state == table[id].state,
        collected(table, held)[id].length == table[id].length,
{
}

/// Two collections in a row, with the same states held, do what the first one
/// does alone.
pub proof fn lemma_collection_idempotent<State>(
    table: Map<HeaderId, EntryView<State>>,
    held: Set<HeaderId>,
)
    ensures
        collected(collected(table, held), held) == collected(table, held),
{
    let once = collected(table, held);
    lemma_same_schedule(table, once);
    assert(collected(once, held) =~= once);
}

/// Taking the members of `fewer` out of a finite set that has them all makes
/// it smaller by their number.
proof fn lemma_len_without<A>(all: Set<A>, fewer: Set<A>)
    requires
        all.finite(),
        fewer.subset_of(all),
    ensures
        fewer.finite(),
        all.difference(fewer).len() == all.len() - fewer.len(),
    decreases all.len(),
{
    vstd::set_lib::lemma_len_subset(fewer, all);
    if fewer.len() == 0 {
        assert(fewer =~= Set::empty());
        assert(all.difference(fewer) =~= all);
    } else {
        let one = fewer.choose();
        lemma_len_without(all.remove(one), fewer.remove(one));
        assert(all.remove(one).difference(fewer.remove(one)) =~= all.difference(fewer));
    }
}

/// What a collection leaves of a finite table is finite.
pub proof fn lemma_collected_finite<State>(
    table: Map<HeaderId, EntryView<State>>,
    held: Set<HeaderId>,
)
    requires
        table.dom().finite(),
    ensures
        collected(table, held).dom().finite(),
        collected(table, held).len() <= table.len(),
{
    vstd::set_lib::lemma_len_subset(collected(table, held).dom(), table.dom());
}

/// Pin-controlled reclamation.  After a collection under which the states of
/// `held` were held, let the states of the blocks in `released` be held no
/// longer, each of them a block whose entry that collection did not spare.  The
/// next collection then drops exactly the entries of those blocks.
pub proof fn lemma_released_are_reclaimed<State>(
    table: Map<HeaderId, EntryView<State>>,
    held: Set<HeaderId>,
    released: Set<HeaderId>,
)
    requires
        table.dom().finite(),
        forall|id: HeaderId| #[trigger]
            released.contains(id) ==> collected(table, held).contains_key(id) && !untouched(
                table,
                id,
            ),
    ensures
        released.finite(),
        collected(collected(table, held), held.difference(released)) == collected(
            table,
            held,
        ).remove_keys(released),
        collected(collected(table, held), held.difference(released)).len() == collected(
            table,
            held,
        ).len() - released.len(),
{
    let once = collected(table, held);
    let twice = collected(once, held.difference(released));
    lemma_same_schedule(table, once);
    lemma_collected_finite(table, held);
    assert(twice =~= once.remove_keys(released));
    assert(released.subset_of(once.dom()));
    lemma_len_without(once.dom(), released);
    assert(once.remove_keys(released).dom() =~= once.dom().difference(released));
}

/// One change to the state table: a state is filed, or a collection runs while
/// the states of some blocks are held.
pub enum Change<State> {
    Add { id: HeaderId, length: ChainLength, state: State },
    Collect { held: Set<HeaderId> },
}

/// The table after one change.
pub open spec fn changed<State>(
    table: Map<HeaderId, EntryView<State>>,
    change: Change<State>,
) -> Map<HeaderId, EntryView<State>> {
    match change {
        Change::Add { id, length, state } => table.insert(
            id,
            EntryView { length, retained: true, state },
        ),
        Change::Collect { held } => collected(table, held),
    }
}

/// The table after a run of changes, the first of them first.
pub open spec fn after<State>(
    table: Map<HeaderId, EntryView<State>>,
    changes: Seq<Change<State>>,
) -> Map<HeaderId, EntryView<State>>
    decreases changes.len(),
{
    if changes.len() == 0 {
        table
    } else {
        changed(after(table, changes.drop_last()), changes.last())
    }
}

/// Pin safety.  Let the table have a state for `id`, and let a run of changes
/// file nothing else under `id`, and collect only while that state is held.
/// Then the table still has that state for `id`, under the same length, however
/// many collections there were.
pub proof fn lemma_pinned_state_survives<State>(
    table: Map<HeaderId, EntryView<State>>,
    changes: Seq<Change<State>>,
    id: HeaderId,
)
    requires
        table.contains_key(id),
        forall|i: int|
            0 <= i < changes.len() ==> match #[trigger] changes[i] {
                Change::Add { id: other, .. } => other != id,
                Change::Collect { held } => held.contains(id),
            },
    ensures
        after(table, changes).contains_key(id),
        after(table, changes)[id].state == table[id].state,
        after(table, changes)[id].length == table[id].length,
    decreases changes.len(),
{
    if changes.len() > 0 {
        let earlier = changes.drop_last();
        assert forall|i: int| 0 <= i < earlier.len() implies match #[trigger] earlier[i] {
            Change::Add { id: other, .. } => other != id,
            Change::Collect { held } => held.contains(id),
        } by {
            assert(earlier[i] == changes[i]);
        }
        lemma_pinned_state_survives(table, earlier, id);
        let last = changes.last();
        assert(last == changes[changes.len() - 1]);
    }
}

} // verus!
