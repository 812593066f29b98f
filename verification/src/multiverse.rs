//! The multiverse: the states of several forks of one chain, by block.
//!
//! Two maps are kept together.  The state table leads from a block id to the
//! state at that block; the length index leads from a chain length to the ids
//! filed at that length, and gives a garbage collection its order.
use crate::chain::ChainLength;
use crate::chain::HeaderId;
use crate::chain::Ledger;
use crate::collection::collected;
use crate::collection::collected_below;
use crate::collection::is_longest;
use crate::collection::lemma_longest_unique;
use crate::collection::lengths_of;
use crate::collection::longest;
use crate::collection::swept;
use crate::collection::untouched;
use crate::entry::EntryView;
use crate::entry::GcEntry;
use crate::entry::Ref;
use crate::entry::RefView;
use crate::index::file;
use crate::index::filed;
use crate::index::lemma_push_fresh;
use crate::index::lemma_take_next;
use crate::index::lengths;
use crate::index::tidy;
use crate::index::unfile;
use crate::schedule::cursor;
use crate::schedule::kept;
use crate::schedule::lemma_cursor_skip;
use crate::schedule::SUFFIX_TO_KEEP;
use std::collections::BTreeMap;
use std::sync::Arc;
use vstd::prelude::*;

verus! {

/// A place in the state table: the entry, and the length it is filed under.
struct Slot<State> {
    length: ChainLength,
    entry: GcEntry<State>,
}

impl<State> Slot<State> {
    /// What this place holds, as contracts read it.
    spec fn shown(&self) -> EntryView<State> {
        EntryView { length: self.length, retained: self.entry is Retained, state: self.entry.state() }
    }
}

/// A cache of chain states by block id, over any number of forks.
pub struct Multiverse<State> {
    states_by_hash: BTreeMap<(u128, u128), Slot<State>>,
    states_by_chain_length: BTreeMap<u32, Vec<HeaderId>>,
    model: Ghost<Map<HeaderId, EntryView<State>>>,
}

impl<State> View for Multiverse<State> {
    type V = Map<HeaderId, EntryView<State>>;

    /// The state table: what the cache holds for each block.
    closed spec fn view(&self) -> Map<HeaderId, EntryView<State>> {
        self.model@
    }
}

impl<State> Multiverse<State> {
    /// The length index: for each chain length at which anything is filed, the
    /// ids filed there.
    pub closed spec fn index(&self) -> Map<ChainLength, Set<HeaderId>> {
        Map::new(
            |length: ChainLength| self.states_by_chain_length@.contains_key(length.0),
            |length: ChainLength| self.states_by_chain_length@[length.0]@.to_set(),
        )
    }

    /// The two maps agree: the state table holds exactly the ids that the length
    /// index lists, each id is listed once, at the length that the table files
    /// it under, and the index has no empty bucket.
    pub closed spec fn wf(&self) -> bool {
        let model = self.model@;
        let table = self.states_by_hash@;
        let index = self.states_by_chain_length@;
        &&& model.dom().finite()
        &&& table.len() == model.len()
        &&& forall|id: HeaderId|
            #![trigger model.contains_key(id)]
            #![trigger table.contains_key(id.key())]
            model.contains_key(id) <==> table.contains_key(id.key())
        &&& forall|id: HeaderId| #[trigger]
            model.contains_key(id) ==> table[id.key()].shown() == model[id]
        &&& tidy(index)
        &&& forall|length: u32, id: HeaderId| #[trigger]
            filed(index, length, id) <==> model.contains_key(id) && model[id].length.0 == length
    }

    /// Index coherence: every id of the state table is listed in the bucket of
    /// its length, every id that a bucket lists is in the state table under that
    /// length, and no bucket is empty.
    pub proof fn lemma_index_coherent(&self)
        requires
            self.wf(),
        ensures
            self@.dom().finite(),
            forall|id: HeaderId| #[trigger]
                self@.contains_key(id) ==> self.index().contains_key(self@[id].length)
                    && self.index()[self@[id].length].contains(id),
            forall|length: ChainLength, id: HeaderId|
                self.index().contains_key(length) && #[trigger] self.index()[length].contains(id)
                    ==> self@.contains_key(id) && self@[id].length == length,
            forall|length: ChainLength| #[trigger]
                self.index().contains_key(length) ==> exists|id: HeaderId|
                    self.index()[length].contains(id),
    {
        let index = self.states_by_chain_length@;
        assert forall|id: HeaderId| #[trigger] self@.contains_key(id) implies self.index().contains_key(
            self@[id].length,
        ) && self.index()[self@[id].length].contains(id) by {
            assert(filed(index, self@[id].length.0, id));
        }
        assert forall|length: ChainLength, id: HeaderId|
            self.index().contains_key(length) && #[trigger] self.index()[length].contains(
                id,
            ) implies self@.contains_key(id) && self@[id].length == length by {
            assert(filed(index, length.0, id));
        }
        assert forall|length: ChainLength| #[trigger]
            self.index().contains_key(length) implies exists|id: HeaderId|
            self.index()[length].contains(id) by {
            let first = index[length.0]@[0];
            assert(index[length.0]@.contains(first));
            assert(self.index()[length].contains(first));
        }
    }

    /// An empty multiverse.
    pub fn new() -> (fresh: Self)
        ensures
            fresh.wf(),
            fresh@ == Map::<HeaderId, EntryView<State>>::empty(),
    {
        Multiverse {
            states_by_hash: BTreeMap::new(),
            states_by_chain_length: BTreeMap::new(),
            model: Ghost(Map::empty()),
        }
    }

    /// The number of entries in the state table.  An entry counts whether or
    /// not anybody still holds its state.
    pub fn nr_states(&self) -> (count: usize)
        requires
            self.wf(),
        ensures
            count == self@.len(),
    {
        self.states_by_hash.len()
    }

    /// A handle to the state at block `k`: for a retained entry always, for a
    /// collectable one while somebody else holds the state, and for no other id.
    pub fn get(&self, k: &HeaderId) -> (grip: Option<Arc<State>>)
        requires
            self.wf(),
        ensures
            !self@.contains_key(*k) ==> grip is None,
            self@.contains_key(*k) && self@[*k].retained ==> grip is Some,
            grip matches Some(handle) ==> self@.contains_key(*k) && *handle == self@[*k].state,
    {
        match self.states_by_hash.get(&k.to_key()) {
            Some(slot) => slot.entry.get(),
            None => None,
        }
    }

    /// A pin on the state at block `k`, where `get` yields a handle.
    pub fn get_ref(&self, k: &HeaderId) -> (pin: Option<Ref<State>>)
        requires
            self.wf(),
        ensures
            !self@.contains_key(*k) ==> pin is None,
            self@.contains_key(*k) && self@[*k].retained ==> pin is Some,
            pin matches Some(r) ==> self@.contains_key(*k) && r@ == (RefView {
                id: *k,
                state: self@[*k].state,
            }),
    {
        match self.get(k) {
            Some(state) => Some(Ref::new(*k, state)),
            None => None,
        }
    }

    /// Files `st` as the state at block `k`, under `chain_length`, as a retained
    /// entry, and returns a pin on it.  An entry that the table already has for
    /// `k` is replaced, and `k` is then listed at `chain_length` alone.
    pub fn insert(&mut self, chain_length: ChainLength, k: HeaderId, st: State) -> (pin: Ref<State>)
        requires
            old(self).wf(),
        ensures
            final(self).wf(),
            final(self)@ == old(self)@.insert(
                k,
                EntryView { length: chain_length, retained: true, state: st },
            ),
            pin@ == (RefView { id: k, state: st }),
    {
        let ghost before = self.model@;
        let ghost old_index = self.states_by_chain_length@;
        let ghost old_table = self.states_by_hash@;
        let state: Arc<State> = Arc::new(st);
        let slot = Slot { length: chain_length, entry: GcEntry::Retained(state.clone()) };
        let replaced = self.states_by_hash.insert(k.to_key(), slot);
        match replaced {
            Some(previous) => {
                assert(before.contains_key(k));
                assert(previous.shown() == before[k]);
                assert(filed(old_index, previous.length.0, k));
                if previous.length.0 != chain_length.0 {
                    unfile(&mut self.states_by_chain_length, previous.length.0, k);
                    file(&mut self.states_by_chain_length, chain_length.0, k);
                }
            },
            None => {
                assert(!before.contains_key(k));
                file(&mut self.states_by_chain_length, chain_length.0, k);
            },
        }
        proof {
            let entry = EntryView { length: chain_length, retained: true, state: st };
            self.model@ = before.insert(k, entry);
            assert forall|id: HeaderId| id != k implies id.key() != k.key() by {}
        }
        Ref::new(k, state)
    }

    /// The index lists a length exactly where the table files a state under it.
    proof fn lemma_lengths_listed(&self)
        requires
            self.wf(),
        ensures
            forall|length: u32|
                self.states_by_chain_length@.contains_key(length) <==> lengths_of(self@).contains(
                    length as int,
                ),
            forall|length: int| lengths_of(self@).contains(length) ==> 0 <= length <= u32::MAX,
    {
        let index = self.states_by_chain_length@;
        assert forall|length: u32| index.contains_key(length) implies lengths_of(self@).contains(
            length as int,
        ) by {
            let first = index[length]@[0];
            assert(index[length]@.contains(first));
            assert(filed(index, length, first));
            assert(self@.contains_key(first) && self@[first].length.0 == length);
        }
        assert forall|length: u32| lengths_of(self@).contains(length as int) implies index.contains_key(
            length,
        ) by {
            let id = choose|id: HeaderId| #[trigger]
                self@.contains_key(id) && self@[id].length.0 == length as int;
            assert(filed(index, length, id));
        }
    }

    /// The table in the course of a sweep that has dealt with the first `done`
    /// ids of `bucket`.
    spec fn swept_so_far(
        table: Map<HeaderId, EntryView<State>>,
        bucket: Seq<HeaderId>,
        done: int,
        held: Set<HeaderId>,
    ) -> Map<HeaderId, EntryView<State>> {
        Map::new(
            |id: HeaderId|
                table.contains_key(id) && (!bucket.take(done).contains(id) || held.contains(id)),
            |id: HeaderId|
                if bucket.take(done).contains(id) {
                    table[id].demoted()
                } else {
                    table[id]
                },
        )
    }

    /// Makes every entry filed at `length` collectable, and drops those whose
    /// state nobody else holds.  The ids that stay are returned as a ghost set.
    fn sweep(&mut self, length: u32) -> (held: Ghost<Set<HeaderId>>)
        requires
            old(self).wf(),
            old(self).states_by_chain_length@.contains_key(length),
        ensures
            final(self).wf(),
            forall|id: HeaderId| #[trigger]
                held@.contains(id) ==> old(self)@.contains_key(id) && old(self)@[id].length.0
                    == length,
            final(self)@ == swept(old(self)@, length as int, held@),
    {
        let ghost before = self.model@;
        let ghost old_index = self.states_by_chain_length@;
        let taken = self.states_by_chain_length.remove(&length);
        let bucket: Vec<HeaderId> = taken.unwrap();
        let ghost rest = self.states_by_chain_length@;
        let mut survivors: Vec<HeaderId> = Vec::new();
        let ghost mut held: Set<HeaderId> = Set::empty();
        let mut at: usize = 0;
        proof {
            assert forall|id: HeaderId| bucket@.contains(id) <==> before.contains_key(id)
                && before[id].length.0 == length by {
                assert(filed(old_index, length, id) <==> bucket@.contains(id));
            }
            assert(bucket@.take(0) =~= Seq::<HeaderId>::empty());
            assert(self.model@ =~= Self::swept_so_far(before, bucket@, 0, held));
        }
        while at < bucket.len()
            invariant
                at <= bucket@.len(),
                bucket@.no_duplicates(),
                self.states_by_chain_length@ == rest,
                forall|id: HeaderId|
                    bucket@.contains(id) <==> before.contains_key(id) && before[id].length.0
                        == length,
                before.dom().finite(),
                self.model@.dom().finite(),
                self.states_by_hash@.len() == self.model@.len(),
                forall|id: HeaderId|
                    #![trigger self.model@.contains_key(id)]
                    #![trigger self.states_by_hash@.contains_key(id.key())]
                    self.model@.contains_key(id) <==> self.states_by_hash@.contains_key(id.key()),
                forall|id: HeaderId| #[trigger]
                    self.model@.contains_key(id) ==> self.states_by_hash@[id.key()].shown()
                        == self.model@[id],
                self.model@ == Self::swept_so_far(before, bucket@, at as int, held),
                forall|id: HeaderId| #[trigger]
                    held.contains(id) ==> bucket@.take(at as int).contains(id),
                survivors@.no_duplicates(),
                forall|id: HeaderId| survivors@.contains(id) <==> held.contains(id),
            decreases bucket@.len() - at,
        {
            let id: HeaderId = bucket[at];
            let ghost model_before = self.model@;
            let ghost held_before = held;
            proof {
                lemma_take_next(bucket@, at as int);
                assert(bucket@.contains(id));
                assert(model_before.contains_key(id));
                assert(model_before[id] == before[id]);
            }
            let found = self.states_by_hash.remove(&id.to_key());
            let mut slot: Slot<State> = found.unwrap();
            let swept: bool = slot.entry.collect();
            if swept {
                proof {
                    self.model@ = model_before.remove(id);
                }
            } else {
                let ghost previous = survivors@;
                self.states_by_hash.insert(id.to_key(), slot);
                survivors.push(id);
                proof {
                    self.model@ = model_before.insert(id, before[id].demoted());
                    assert(!held.contains(id));
                    lemma_push_fresh(previous, id);
                    held = held.insert(id);
                }
            }
            proof {
                assert forall|other: HeaderId| other != id implies other.key() != id.key() by {}
                assert forall|other: HeaderId| #[trigger]
                    held.contains(other) implies bucket@.take(at + 1).contains(other) by {
                    if other != id {
                        assert(held_before.contains(other));
                    }
                }
                assert(self.model@ =~= Self::swept_so_far(before, bucket@, at + 1, held));
            }
            at = at + 1;
        }
        if survivors.len() > 0 {
            self.states_by_chain_length.insert(length, survivors);
        }
        proof {
            let index = self.states_by_chain_length@;
            let model = self.model@;
            assert(bucket@.take(at as int) =~= bucket@);
            assert(model =~= swept(before, length as int, held));
            assert(rest == old_index.remove(length));
            assert forall|id: HeaderId| filed(index, length, id) <==> held.contains(id) by {
                if survivors@.len() > 0 {
                    assert(index[length] == survivors);
                } else {
                    assert(!index.contains_key(length));
                    if held.contains(id) {
                        assert(survivors@.contains(id));
                    }
                }
            }
            assert forall|l: u32, id: HeaderId| #[trigger]
                filed(index, l, id) <==> model.contains_key(id) && model[id].length.0 == l by {
                if l == length {
                    if held.contains(id) {
                        assert(bucket@.contains(id));
                    }
                } else {
                    assert(index.contains_key(l) <==> old_index.contains_key(l));
                    if index.contains_key(l) {
                        assert(index[l] == old_index[l]);
                    }
                    assert(filed(index, l, id) <==> filed(old_index, l, id));
                }
            }
            assert(tidy(index)) by {
                assert forall|l: u32| #[trigger] index.contains_key(l) implies index[l]@.len() > 0
                    && index[l]@.no_duplicates() by {
                    if l != length {
                        assert(old_index.contains_key(l));
                        assert(index[l] == old_index[l]);
                    }
                }
            }
        }
        Ghost(held)
    }

    /// Thins out the states that lie further than [`SUFFIX_TO_KEEP`] below the
    /// longest chain.  The lengths that the schedule keeps stay as they are.  At
    /// any other length below the suffix every entry is made collectable, and an
    /// entry whose state nobody but the cache holds is dropped from the table
    /// and from the index.
    ///
    /// Who holds a state is for the callers to decide, so the contract speaks of
    /// some set of held blocks: the table afterwards is what [`collected`] makes
    /// of the table before and of that set.
    pub fn gc(&mut self)
        requires
            old(self).wf(),
        ensures
            final(self).wf(),
            exists|held: Set<HeaderId>| final(self)@ == collected(old(self)@, held),
    {
        let ghost before = self@;
        let ghost present = lengths_of(before);
        proof {
            self.lemma_lengths_listed();
        }
        let found: Vec<u32> = lengths(&self.states_by_chain_length);
        if found.len() == 0 {
            proof {
                assert forall|id: HeaderId| !before.contains_key(id) by {
                    if before.contains_key(id) {
                        assert(present.contains(before[id].length.0 as int));
                        assert(found@.contains(before[id].length.0));
                    }
                }
                assert(self@ =~= collected(before, Set::empty()));
            }
            return ;
        }
        let longest_chain = ChainLength(found[found.len() - 1]);
        let ghost tip = longest_chain.0 as int;
        proof {
            assert(found@.contains(found@[found@.len() - 1]));
            assert forall|length: int| present.contains(length) implies length <= tip by {
                let narrow = length as u32;
                assert(found@.contains(narrow));
                let j = choose|j: int| 0 <= j < found@.len() && found@[j] == narrow;
                if j < found@.len() - 1 {
                    assert(found@[j] < found@[found@.len() - 1]);
                }
            }
            assert(is_longest(before, tip));
            lemma_longest_unique(before, tip);
        }
        match longest_chain.nth_ancestor(SUFFIX_TO_KEEP) {
            None => {
                proof {
                    assert(self@ =~= collected(before, Set::empty()));
                }
            },
            Some(gc_threshold_length) => {
                let mut to_keep = ChainLength(0);
                let mut at: usize = 0;
                let ghost mut scan: int = 0;
                let ghost mut held: Set<HeaderId> = Set::empty();
                proof {
                    assert(self@ =~= collected_below(before, held, scan));
                }
                while at < found.len() && found[at] < gc_threshold_length.0
                    invariant
                        self.wf(),
                        present == lengths_of(before),
                        longest(before) == tip,
                        tip == longest_chain.0,
                        gc_threshold_length.0 == tip - SUFFIX_TO_KEEP,
                        forall|length: u32|
                            found@.contains(length) <==> present.contains(length as int),
                        forall|length: int| present.contains(length) ==> 0 <= length <= u32::MAX,
                        forall|i: int, j: int| 0 <= i < j < found@.len() ==> found@[i] < found@[j],
                        at <= found@.len(),
                        0 <= scan <= gc_threshold_length.0,
                        forall|j: int| 0 <= j < found@.len() ==> (j < at <==> found@[j] < scan),
                        to_keep.0 == cursor(present, tip, scan),
                        forall|id: HeaderId| #[trigger]
                            held.contains(id) ==> before.contains_key(id) && before[id].length.0
                                < scan,
                        self@ == collected_below(before, held, scan),
                    decreases found@.len() - at,
                {
                    let chain_length: u32 = found[at];
                    let ghost here = chain_length as int;
                    let ghost mid = self@;
                    proof {
                        assert(found@.contains(found@[at as int]));
                        assert forall|length: int| scan <= length < here implies !present.contains(
                            length,
                        ) by {
                            if present.contains(length) {
                                let narrow = length as u32;
                                assert(found@.contains(narrow));
                                let j = choose|j: int| 0 <= j < found@.len() && found@[j] == narrow;
                                if j > at {
                                    assert(found@[at as int] < found@[j]);
                                }
                            }
                        }
                        lemma_cursor_skip(present, tip, scan, here);
                        assert forall|id: HeaderId| #[trigger] before.contains_key(id) implies (
                        before[id].length.0 < scan || before[id].length.0 >= here) by {
                            assert(present.contains(before[id].length.0 as int));
                        }
                    }
                    if chain_length >= to_keep.0 {
                        to_keep = ChainLength(chain_length + (longest_chain.0 - chain_length) / 2);
                        proof {
                            assert(kept(present, tip, here));
                            assert(mid =~= collected_below(before, held, here + 1));
                        }
                    } else {
                        proof {
                            assert(present.contains(here));
                            let id = choose|id: HeaderId| #[trigger]
                                before.contains_key(id) && before[id].length.0 == here;
                            assert(mid.contains_key(id));
                            assert(mid[id].length.0 == here);
                            assert(lengths_of(mid).contains(here));
                            self.lemma_lengths_listed();
                        }
                        let stayed = self.sweep(chain_length);
                        proof {
                            assert(!kept(present, tip, here));
                            assert(self@ == swept(mid, here, stayed@));
                            assert forall|id: HeaderId| #[trigger]
                                mid.contains_key(id) && mid[id].length.0 == chain_length implies mid[id]
                                == before[id] && !untouched(before, id) by {}
                            assert forall|id: HeaderId| #[trigger]
                                stayed@.contains(id) implies before.contains_key(id)
                                && before[id].length.0 == here by {
                                assert(mid.contains_key(id));
                            }
                            held = held.union(stayed@);
                            assert(self@ =~= collected_below(before, held, here + 1));
                        }
                    }
                    proof {
                        assert forall|j: int| 0 <= j < found@.len() implies (j < at + 1
                            <==> found@[j] < here + 1) by {
                            if j < at {
                                assert(found@[j] < found@[at as int]);
                            } else if j > at {
                                assert(found@[at as int] < found@[j]);
                            }
                        }
                        scan = here + 1;
                    }
                    at = at + 1;
                }
                proof {
                    assert forall|id: HeaderId|
                        before.contains_key(id) && before[id].length.0 >= scan implies untouched(
                        before,
                        id,
                    ) by {
                        let length = before[id].length.0;
                        assert(present.contains(length as int));
                        assert(found@.contains(length));
                        let j = choose|j: int| 0 <= j < found@.len() && found@[j] == length;
                        if j > at {
                            assert(found@[at as int] < found@[j]);
                        }
                    }
                    assert(self@ =~= collected(before, held));
                }
            },
        }
    }
}

impl Multiverse<Ledger> {
    /// Files `st` as the state at block `k`, under the chain length that the
    /// state records, and returns a pin on it.
    pub fn add(&mut self, k: HeaderId, st: Ledger) -> (pin: Ref<Ledger>)
        requires
            old(self).wf(),
        ensures
            final(self).wf(),
            final(self)@ == old(self)@.insert(
                k,
                EntryView { length: st.chain_length, retained: true, state: st },
            ),
            pin@ == (RefView { id: k, state: st }),
    {
        self.insert(st.chain_length(), k, st)
    }
}

} // verus!
