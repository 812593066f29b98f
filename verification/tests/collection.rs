use multiverse::chain::BlockDate;
use multiverse::chain::ChainLength;
use multiverse::chain::HeaderId;
use multiverse::chain::Ledger;
use multiverse::entry::GcEntry;
use multiverse::entry::Ref;
use multiverse::multiverse::Multiverse;
use multiverse::schedule::SUFFIX_TO_KEEP;
use std::sync::Arc;

fn id_at(fork: u128, length: u32) -> HeaderId {
    HeaderId::new(fork + 1, u128::from(length))
}

fn state_at(length: u32) -> Ledger {
    Ledger::new(ChainLength(length), BlockDate { epoch: length / 1000, slot_id: length % 1000 })
}

/// A single chain with a state at every length up to `tip`, no pin kept.
fn chain_up_to(tip: u32) -> Multiverse<Ledger> {
    let mut multiverse = Multiverse::new();
    for length in 0..=tip {
        multiverse.add(id_at(0, length), state_at(length));
    }
    multiverse
}

fn lengths_present(multiverse: &Multiverse<Ledger>, tip: u32) -> Vec<u32> {
    (0..=tip).filter(|length| multiverse.get(&id_at(0, *length)).is_some()).collect()
}

#[test]
fn suffix_to_keep_is_fifty() {
    assert_eq!(SUFFIX_TO_KEEP, 50);
}

#[test]
fn new_multiverse_is_empty() {
    let multiverse: Multiverse<Ledger> = Multiverse::new();
    assert_eq!(multiverse.nr_states(), 0);
    assert!(multiverse.get(&id_at(0, 0)).is_none());
    assert!(multiverse.get_ref(&id_at(0, 0)).is_none());
}

#[test]
fn gc_of_empty_multiverse_does_nothing() {
    let mut multiverse: Multiverse<Ledger> = Multiverse::new();
    multiverse.gc();
    assert_eq!(multiverse.nr_states(), 0);
}

#[test]
fn add_files_the_state_and_returns_a_pin_on_it() {
    let mut multiverse = Multiverse::new();
    let pin = multiverse.add(id_at(0, 7), state_at(7));
    assert_eq!(*pin.id(), id_at(0, 7));
    assert_eq!(*pin.state(), state_at(7));
    assert_eq!(multiverse.nr_states(), 1);
    let grip = multiverse.get(&id_at(0, 7)).unwrap();
    assert!(Arc::ptr_eq(&grip, &pin.state_arc()));
    let again = multiverse.get_ref(&id_at(0, 7)).unwrap();
    assert_eq!(*again.id(), id_at(0, 7));
    assert!(Arc::ptr_eq(&again.state_arc(), &pin.state_arc()));
    assert!(multiverse.get(&id_at(0, 8)).is_none());
}

#[test]
fn insert_files_under_the_given_length() {
    let mut multiverse: Multiverse<u64> = Multiverse::new();
    let pin = multiverse.insert(ChainLength(3), id_at(0, 3), 33);
    assert_eq!(*pin.state(), 33);
    assert_eq!(*multiverse.get(&id_at(0, 3)).unwrap(), 33);
    assert_eq!(multiverse.nr_states(), 1);
}

#[test]
fn insert_again_replaces_the_state() {
    let mut multiverse: Multiverse<u64> = Multiverse::new();
    multiverse.insert(ChainLength(3), id_at(0, 3), 33);
    multiverse.insert(ChainLength(3), id_at(0, 3), 34);
    assert_eq!(multiverse.nr_states(), 1);
    assert_eq!(*multiverse.get(&id_at(0, 3)).unwrap(), 34);
}

#[test]
fn insert_again_under_another_length_moves_the_id() {
    let mut multiverse: Multiverse<u64> = Multiverse::new();
    multiverse.insert(ChainLength(3), id_at(9, 0), 1);
    multiverse.insert(ChainLength(120), id_at(9, 0), 2);
    assert_eq!(multiverse.nr_states(), 1);
    for length in 0..=200 {
        multiverse.insert(ChainLength(length), id_at(0, length), u64::from(length));
    }
    // Tip 200: lengths 0 and 100 are kept, 150 and above lie in the suffix.
    // The moved id is filed at 120 alone, so the collection meets it once, and
    // drops it there.
    multiverse.gc();
    assert!(multiverse.get(&id_at(9, 0)).is_none());
    assert_eq!(multiverse.nr_states(), 53);
    multiverse.gc();
    assert_eq!(multiverse.nr_states(), 53);
}

#[test]
fn gc_does_nothing_while_the_chain_is_shorter_than_the_suffix() {
    let mut multiverse = chain_up_to(49);
    multiverse.gc();
    assert_eq!(multiverse.nr_states(), 50);
    assert_eq!(lengths_present(&multiverse, 49), (0..=49).collect::<Vec<u32>>());
}

#[test]
fn gc_at_tip_fifty_keeps_everything() {
    // The threshold is 0: no length lies below it.
    let mut multiverse = chain_up_to(50);
    multiverse.gc();
    assert_eq!(multiverse.nr_states(), 51);
}

#[test]
fn gc_at_tip_one_hundred() {
    // Threshold 50.  Length 0 is kept and moves the cursor to 0 + 100 / 2 = 50,
    // so 1 to 49 lie in the gap.
    let mut multiverse = chain_up_to(100);
    multiverse.gc();
    let mut expected = vec![0];
    expected.extend(50..=100);
    assert_eq!(lengths_present(&multiverse, 100), expected);
    assert_eq!(multiverse.nr_states(), 52);
}

#[test]
fn gc_at_tip_one_hundred_and_one() {
    // Threshold 51.  Length 0 moves the cursor to 0 + 101 / 2 = 50; length 50
    // is kept and moves it to 50 + 51 / 2 = 75.
    let mut multiverse = chain_up_to(101);
    multiverse.gc();
    let mut expected = vec![0, 50];
    expected.extend(51..=101);
    assert_eq!(lengths_present(&multiverse, 101), expected);
    assert_eq!(multiverse.nr_states(), 53);
}

#[test]
fn gc_at_tip_one_thousand() {
    // Cursor: 0 -> 500 -> 750 -> 875 -> 937 -> 968; the threshold is 950.
    let mut multiverse = chain_up_to(1000);
    multiverse.gc();
    let mut expected = vec![0, 500, 750, 875, 937];
    expected.extend(950..=1000);
    assert_eq!(lengths_present(&multiverse, 1000), expected);
    assert_eq!(multiverse.nr_states(), 56);
}

#[test]
fn gc_walks_the_lengths_that_are_there() {
    // Only every third length has a state.  Tip 300, threshold 250.
    // 0 is kept, cursor 150; 150 is kept, cursor 225; 225 is kept, cursor 262.
    let mut multiverse = Multiverse::new();
    for step in 0..=100 {
        multiverse.add(id_at(0, 3 * step), state_at(3 * step));
    }
    multiverse.gc();
    let mut expected = vec![0, 150, 225];
    expected.extend((252..=300).step_by(3));
    assert_eq!(lengths_present(&multiverse, 300), expected);
    assert_eq!(multiverse.nr_states(), 3 + 17);
}

#[test]
fn gc_keeps_a_length_at_or_above_the_cursor_when_the_stride_has_no_state() {
    // Tip 200, threshold 150, states at 0, 120 and 150 to 200.  0 is kept and
    // moves the cursor to 100; 120 is the first length at or above it.
    let mut multiverse = Multiverse::new();
    multiverse.add(id_at(0, 0), state_at(0));
    multiverse.add(id_at(0, 120), state_at(120));
    for length in 150..=200 {
        multiverse.add(id_at(0, length), state_at(length));
    }
    multiverse.gc();
    assert!(multiverse.get(&id_at(0, 120)).is_some());
    assert_eq!(multiverse.nr_states(), 53);
}

#[test]
fn a_pinned_state_survives_any_number_of_collections() {
    let mut multiverse = Multiverse::new();
    let mut pin = None;
    for length in 0..=300 {
        let added = multiverse.add(id_at(0, length), state_at(length));
        if length == 10 {
            pin = Some(added);
        }
        multiverse.gc();
    }
    let pin = pin.unwrap();
    for _ in 0..5 {
        multiverse.gc();
        let grip = multiverse.get(&id_at(0, 10)).unwrap();
        assert!(Arc::ptr_eq(&grip, &pin.state_arc()));
        assert_eq!(*grip, state_at(10));
    }
    assert!(multiverse.get(&id_at(0, 11)).is_none());
}

#[test]
fn a_state_that_nobody_holds_is_gone_once_demoted() {
    let mut multiverse = chain_up_to(100);
    let pin = multiverse.get_ref(&id_at(0, 10)).unwrap();
    multiverse.gc();
    // Demoted, and held by the pin alone.
    assert_eq!(multiverse.nr_states(), 53);
    assert!(multiverse.get(&id_at(0, 10)).is_some());
    drop(pin);
    // The entry is still counted, but yields nothing.
    assert_eq!(multiverse.nr_states(), 53);
    assert!(multiverse.get(&id_at(0, 10)).is_none());
    assert!(multiverse.get_ref(&id_at(0, 10)).is_none());
    multiverse.gc();
    assert_eq!(multiverse.nr_states(), 52);
}

#[test]
fn a_clone_of_a_pin_pins_too() {
    let mut multiverse = chain_up_to(100);
    let pin = multiverse.get_ref(&id_at(0, 10)).unwrap();
    let copy: Ref<Ledger> = pin.clone();
    assert_eq!(*copy.id(), id_at(0, 10));
    drop(pin);
    multiverse.gc();
    assert!(multiverse.get(&id_at(0, 10)).is_some());
    drop(copy);
    multiverse.gc();
    assert!(multiverse.get(&id_at(0, 10)).is_none());
    assert_eq!(multiverse.nr_states(), 52);
}

#[test]
fn a_handle_from_get_pins_too() {
    let mut multiverse = chain_up_to(100);
    let grip = multiverse.get(&id_at(0, 10)).unwrap();
    multiverse.gc();
    multiverse.gc();
    assert!(multiverse.get(&id_at(0, 10)).is_some());
    drop(grip);
    multiverse.gc();
    assert!(multiverse.get(&id_at(0, 10)).is_none());
}

#[test]
fn gc_twice_is_gc_once() {
    let mut multiverse = chain_up_to(777);
    let _pin = multiverse.get_ref(&id_at(0, 300)).unwrap();
    multiverse.gc();
    let once = multiverse.nr_states();
    let present = lengths_present(&multiverse, 777);
    multiverse.gc();
    assert_eq!(multiverse.nr_states(), once);
    assert_eq!(lengths_present(&multiverse, 777), present);
}

#[test]
fn dropping_pins_reclaims_as_many_states() {
    let mut multiverse = chain_up_to(400);
    let mut pins = vec![];
    for length in [3, 17, 60, 101, 233] {
        pins.push(multiverse.get_ref(&id_at(0, length)).unwrap());
    }
    multiverse.gc();
    let before = multiverse.nr_states();
    // Tip 400: 0, 200 and 300 are kept, 350 and above lie in the suffix.
    assert_eq!(before, 3 + 51 + 5);
    pins.truncate(2);
    multiverse.gc();
    assert_eq!(multiverse.nr_states(), before - 3);
    pins.clear();
    multiverse.gc();
    assert_eq!(multiverse.nr_states(), before - 5);
}

#[test]
fn a_pin_on_a_kept_length_changes_nothing() {
    let mut multiverse = chain_up_to(400);
    let pin = multiverse.get_ref(&id_at(0, 200)).unwrap();
    multiverse.gc();
    assert_eq!(multiverse.nr_states(), 3 + 51);
    drop(pin);
    multiverse.gc();
    assert_eq!(multiverse.nr_states(), 3 + 51);
    assert!(multiverse.get(&id_at(0, 200)).is_some());
}

#[test]
fn a_linear_chain_stays_within_the_logarithmic_bound() {
    let mut multiverse = Multiverse::new();
    multiverse.add(id_at(0, 0), state_at(0));
    for length in 1..3000u32 {
        multiverse.add(id_at(0, length), state_at(length));
        multiverse.gc();
        let bound = SUFFIX_TO_KEEP as usize + (31 - length.leading_zeros()) as usize;
        assert!(multiverse.nr_states() <= bound);
    }
}

#[test]
fn a_fork_within_the_suffix_is_retained() {
    // Main chain to length 100, a fork from length 60 with its tip at 65.
    let mut multiverse = chain_up_to(100);
    for length in 61..=65 {
        multiverse.add(id_at(1, length), state_at(length));
    }
    multiverse.gc();
    // The threshold is 50, so 65 lies in the suffix.
    assert!(multiverse.get(&id_at(1, 65)).is_some());
    assert_eq!(multiverse.nr_states(), 52 + 5);
}

#[test]
fn a_fork_in_a_gap_is_reclaimed() {
    // Main chain to length 200, a fork from length 60 with its tip at 65.
    let mut multiverse = chain_up_to(200);
    for length in 61..=65 {
        multiverse.add(id_at(1, length), state_at(length));
    }
    multiverse.gc();
    // 0 and 100 are kept; 65 lies in the gap between them.
    assert!(multiverse.get(&id_at(1, 65)).is_none());
    assert_eq!(multiverse.nr_states(), 53);
}

#[test]
fn a_fork_on_a_kept_length_is_retained_with_the_main_chain() {
    // Main chain to length 200, and a second state at length 100, which is kept.
    let mut multiverse = chain_up_to(200);
    multiverse.add(id_at(1, 100), state_at(100));
    multiverse.gc();
    assert!(multiverse.get(&id_at(0, 100)).is_some());
    assert!(multiverse.get(&id_at(1, 100)).is_some());
    assert_eq!(multiverse.nr_states(), 54);
}

#[test]
fn a_pinned_fork_in_a_gap_stays_until_released() {
    let mut multiverse = chain_up_to(200);
    let pin = multiverse.add(id_at(1, 65), state_at(65));
    multiverse.gc();
    assert!(multiverse.get(&id_at(1, 65)).is_some());
    assert!(multiverse.get(&id_at(0, 65)).is_none());
    assert_eq!(multiverse.nr_states(), 54);
    drop(pin);
    multiverse.gc();
    assert_eq!(multiverse.nr_states(), 53);
}

#[test]
fn entry_yields_by_the_number_of_holders() {
    let retained = GcEntry::Retained(Arc::new(5u64));
    assert_eq!(*retained.get_with(1).unwrap(), 5);
    assert_eq!(*retained.get_with(2).unwrap(), 5);
    let collectable = GcEntry::Collectable(Arc::new(6u64));
    assert!(collectable.get_with(1).is_none());
    assert_eq!(*collectable.get_with(2).unwrap(), 6);
}

#[test]
fn entry_get_counts_the_holders() {
    let state = Arc::new(6u64);
    let collectable = GcEntry::Collectable(state.clone());
    assert_eq!(*collectable.get().unwrap(), 6);
    drop(state);
    assert!(collectable.get().is_none());
    let retained = GcEntry::Retained(Arc::new(7u64));
    assert_eq!(*retained.get().unwrap(), 7);
}

#[test]
fn entry_collect_demotes_and_reports() {
    let state = Arc::new(8u64);
    let mut entry = GcEntry::Retained(state.clone());
    assert!(!entry.collect());
    assert!(matches!(entry, GcEntry::Collectable(_)));
    assert!(!entry.collect());
    drop(state);
    assert!(entry.collect());
    let mut other = GcEntry::Retained(Arc::new(9u64));
    assert!(other.collect_with(1));
    assert!(matches!(other, GcEntry::Collectable(_)));
    assert!(!other.collect_with(2));
    assert!(other.collect_with(0));
}

#[test]
fn chain_length_arithmetic() {
    assert_eq!(ChainLength(7).nth_ancestor(0), Some(ChainLength(7)));
    assert_eq!(ChainLength(7).nth_ancestor(7), Some(ChainLength(0)));
    assert_eq!(ChainLength(7).nth_ancestor(8), None);
    assert_eq!(ChainLength(49).nth_ancestor(SUFFIX_TO_KEEP), None);
    assert_eq!(ChainLength(50).nth_ancestor(SUFFIX_TO_KEEP), Some(ChainLength(0)));
}

#[test]
fn header_id_halves_and_sentinel() {
    let id = HeaderId::new(3, 4);
    assert_eq!(id.to_key(), (3, 4));
    assert_eq!(HeaderId::zero_hash(), HeaderId::new(0, 0));
    assert_ne!(HeaderId::zero_hash(), HeaderId::new(0, 1));
    assert_ne!(HeaderId::zero_hash(), HeaderId::new(1, 0));
    assert_eq!(BlockDate::first(), BlockDate { epoch: 0, slot_id: 0 });
}
