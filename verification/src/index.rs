//! The length index: for every chain length, the blocks at that length whose
//! state the cache holds.
//!
//! The index is a sorted map from a length to a bucket of block ids.  No bucket
//! is empty, and none holds an id twice.
use crate::chain::HeaderId;
use std::collections::BTreeMap;
use vstd::prelude::*;
use vstd::std_specs::btree::*;
use vstd::std_specs::cmp::OrdSpec;
use vstd::std_specs::iter::IteratorSpec;

verus! {

/// Whether the index lists `id` at `length`.
pub open spec fn filed(index: Map<u32, Vec<HeaderId>>, length: u32, id: HeaderId) -> bool {
    index.contains_key(length) && index[length]@.contains(id)
}

/// No bucket is empty, and none holds an id twice.
pub open spec fn tidy(index: Map<u32, Vec<HeaderId>>) -> bool {
    forall|length: u32| #[trigger]
        index.contains_key(length) ==> index[length]@.len() > 0 && index[length]@.no_duplicates()
}

/// A bucket that takes an id it does not hold still holds no id twice, and
/// holds what it held and that id.
pub proof fn lemma_push_fresh(bucket: Seq<HeaderId>, id: HeaderId)
    requires
        bucket.no_duplicates(),
        !bucket.contains(id),
    ensures
        bucket.push(id).no_duplicates(),
        forall|other: HeaderId|
            bucket.push(id).contains(other) <==> bucket.contains(other) || other == id,
{
    let longer = bucket.push(id);
    assert forall|a: int, b: int| 0 <= a < longer.len() && 0 <= b < longer.len() && a
        != b implies longer[a] != longer[b] by {
        if a < bucket.len() && b < bucket.len() {
        } else if a < bucket.len() {
            assert(bucket.contains(bucket[a]));
        } else {
            assert(bucket.contains(bucket[b]));
        }
    }
    assert forall|other: HeaderId| longer.contains(other) <==> bucket.contains(other) || other
        == id by {
        if longer.contains(other) {
            let at = choose|at: int| 0 <= at < longer.len() && longer[at] == other;
            if at < bucket.len() {
                assert(bucket[at] == other);
            }
        }
        if bucket.contains(other) {
            let at = choose|at: int| 0 <= at < bucket.len() && bucket[at] == other;
            assert(longer[at] == other);
        }
        if other == id {
            assert(longer.last() == other);
        }
    }
}

/// A bucket that gives up the id at `at` still holds no id twice, and holds
/// what it held but that id.
pub proof fn lemma_remove_kept(bucket: Seq<HeaderId>, at: int)
    requires
        bucket.no_duplicates(),
        0 <= at < bucket.len(),
    ensures
        bucket.remove(at).no_duplicates(),
        forall|other: HeaderId|
            bucket.remove(at).contains(other) <==> bucket.contains(other) && other != bucket[at],
{
    let shorter = bucket.remove(at);
    assert forall|a: int, b: int| 0 <= a < shorter.len() && 0 <= b < shorter.len() && a
        != b implies shorter[a] != shorter[b] by {
        let from_a = if a < at {
            a
        } else {
            a + 1
        };
        let from_b = if b < at {
            b
        } else {
            b + 1
        };
        assert(bucket[from_a] != bucket[from_b]);
    }
    assert forall|other: HeaderId| shorter.contains(other) <==> bucket.contains(other) && other
        != bucket[at] by {
        if shorter.contains(other) {
            let j = choose|j: int| 0 <= j < shorter.len() && shorter[j] == other;
            if j < at {
                assert(bucket[j] == other);
            } else {
                assert(bucket[j + 1] == other);
            }
        }
        if bucket.contains(other) && other != bucket[at] {
            let j = choose|j: int| 0 <= j < bucket.len() && bucket[j] == other;
            if j < at {
                assert(shorter[j] == other);
            } else {
                assert(shorter[j - 1] == other);
            }
        }
    }
}

/// The first `at + 1` ids of a bucket are its first `at` ids and the id at
/// `at`, which is not among those.
pub proof fn lemma_take_next(bucket: Seq<HeaderId>, at: int)
    requires
        bucket.no_duplicates(),
        0 <= at < bucket.len(),
    ensures
        !bucket.take(at).contains(bucket[at]),
        forall|other: HeaderId|
            bucket.take(at + 1).contains(other) <==> bucket.take(at).contains(other) || other
                == bucket[at],
{
    let fewer = bucket.take(at);
    let more = bucket.take(at + 1);
    if fewer.contains(bucket[at]) {
        let j = choose|j: int| 0 <= j < fewer.len() && fewer[j] == bucket[at];
        assert(bucket[j] == bucket[at]);
    }
    assert forall|other: HeaderId| more.contains(other) <==> fewer.contains(other) || other
        == bucket[at] by {
        if more.contains(other) {
            let j = choose|j: int| 0 <= j < more.len() && more[j] == other;
            if j < at {
                assert(fewer[j] == other);
            }
        }
        if fewer.contains(other) {
            let j = choose|j: int| 0 <= j < fewer.len() && fewer[j] == other;
            assert(more[j] == other);
        }
        if other == bucket[at] {
            assert(more[at] == other);
        }
    }
}

/// Lists `id` at `length`.
pub fn file(index: &mut BTreeMap<u32, Vec<HeaderId>>, length: u32, id: HeaderId)
    requires
        tidy(old(index)@),
        !filed(old(index)@, length, id),
    ensures
        tidy(final(index)@),
        forall|l: u32, i: HeaderId|
            filed(final(index)@, l, i) <==> filed(old(index)@, l, i) || (l == length && i == id),
        forall|l: u32| l != length ==> (final(index)@.contains_key(l) <==> old(index)@.contains_key(l)),
        forall|l: u32| l != length && old(index)@.contains_key(l) ==> final(index)@[l] == old(index)@[l],
{
    let ghost before = index@;
    let mut bucket: Vec<HeaderId> = match index.remove(&length) {
        Some(bucket) => bucket,
        None => Vec::new(),
    };
    let ghost previous = bucket@;
    bucket.push(id);
    proof {
        lemma_push_fresh(previous, id);
    }
    index.insert(length, bucket);
    proof {
        assert forall|l: u32, i: HeaderId|
            filed(index@, l, i) <==> filed(before, l, i) || (l == length && i == id) by {
            if l == length {
                if !before.contains_key(length) {
                    assert(!previous.contains(i));
                }
            }
        }
    }
}

/// Strikes `id` from the bucket at `length`, and the bucket from the index if
/// that leaves it empty.
pub fn unfile(index: &mut BTreeMap<u32, Vec<HeaderId>>, length: u32, id: HeaderId)
    requires
        tidy(old(index)@),
        filed(old(index)@, length, id),
    ensures
        tidy(final(index)@),
        forall|l: u32, i: HeaderId|
            filed(final(index)@, l, i) <==> filed(old(index)@, l, i) && !(l == length && i == id),
{
    let ghost before = index@;
    let taken = index.remove(&length);
    let mut bucket: Vec<HeaderId> = taken.unwrap();
    let ghost previous = bucket@;
    let mut at: usize = 0;
    while at < bucket.len() && !(bucket[at] == id)
        invariant
            bucket@ == previous,
            at <= bucket@.len(),
            forall|j: int| 0 <= j < at ==> previous[j] != id,
        decreases bucket@.len() - at,
    {
        at = at + 1;
    }
    assert(at < bucket@.len());
    bucket.remove(at);
    proof {
        lemma_remove_kept(previous, at as int);
    }
    if bucket.len() > 0 {
        index.insert(length, bucket);
    }
}

/// The lengths at which the index lists anything, in ascending order.
pub fn lengths(index: &BTreeMap<u32, Vec<HeaderId>>) -> (found: Vec<u32>)
    ensures
        forall|length: u32| found@.contains(length) <==> index@.contains_key(length),
        forall|i: int, j: int| 0 <= i < j < found@.len() ==> found@[i] < found@[j],
{
    let mut found: Vec<u32> = Vec::new();
    proof {
        axiom_spec_keys_iter(index);
    }
    let ghost refs = spec_keys_iter(index).remaining();
    let ghost all: Seq<u32> = refs.unref();
    for length in walk: index.keys()
        invariant
            found@.len() == walk.index(),
            walk.seq().unref() == all,
            forall|i: int| 0 <= i < found@.len() ==> found@[i] == all[i],
    {
        found.push(*length);
    }
    proof {
        assert(found@ =~= all);
        axiom_increasing_seq_meaning::<&u32>(refs);
        assert forall|i: int, j: int| 0 <= i < j < found@.len() implies found@[i] < found@[j] by {
            assert(OrdSpec::cmp_spec(&refs[i], &refs[j]) is Less);
            assert(all[i] == *refs[i]);
            assert(all[j] == *refs[j]);
        }
        assert forall|length: u32| found@.contains(length) <==> index@.contains_key(length) by {
            assert(found@.to_set().contains(length) <==> found@.contains(length));
        }
    }
    found
}

} // verus!
