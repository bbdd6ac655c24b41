use dataflow_progress::count_map::CountMap;
use dataflow_progress::timestamp::Product;

fn sorted(pairs: &Vec<(u64, i64)>) -> Vec<(u64, i64)> {
    let mut copy = pairs.clone();
    copy.sort();
    copy
}

#[test]
fn new_ledger_is_empty() {
    let ledger: CountMap<u64> = CountMap::new();
    assert!(ledger.iterate().is_empty());
}

#[test]
fn update_inserts_absent_key() {
    let mut ledger: CountMap<u64> = CountMap::new();
    let total = ledger.update(7, 3);
    assert_eq!(total, 3);
    assert_eq!(ledger.iterate(), &vec![(7u64, 3i64)]);
}

#[test]
fn update_merges_into_existing_entry() {
    let mut ledger: CountMap<u64> = CountMap::new();
    ledger.update(7, 3);
    let total = ledger.update(7, -5);
    assert_eq!(total, -2);
    assert_eq!(ledger.iterate(), &vec![(7u64, -2i64)]);
}

#[test]
fn update_twice_equals_single_update_of_sum() {
    let mut twice: CountMap<u64> = CountMap::new();
    twice.update(1, 10);
    twice.update(2, 4);
    let mut once: CountMap<u64> = CountMap::new();
    once.update(1, 10);
    once.update(2, 4);

    twice.update(2, 5);
    twice.update(2, -7);
    once.update(2, -2);

    assert_eq!(sorted(twice.iterate()), sorted(once.iterate()));
    assert_eq!(sorted(once.iterate()), vec![(1, 10), (2, 2)]);
}

#[test]
fn update_twice_equals_sum_when_sum_is_zero() {
    let mut twice: CountMap<u64> = CountMap::new();
    twice.update(1, 10);
    twice.update(2, 4);
    let mut once = CountMap::new();
    once.update(1u64, 10);
    once.update(2, 4);

    twice.update(2, 3);
    twice.update(2, -7);
    once.update(2, -4);

    assert_eq!(sorted(twice.iterate()), vec![(1, 10)]);
    assert_eq!(sorted(once.iterate()), vec![(1, 10)]);
}

#[test]
fn update_then_opposite_removes_key() {
    let mut ledger: CountMap<u64> = CountMap::new();
    ledger.update(3, 1);
    ledger.update(9, 6);
    let total = ledger.update(9, -6);
    assert_eq!(total, 0);
    assert_eq!(ledger.iterate(), &vec![(3u64, 1i64)]);
    assert!(ledger.iterate().iter().all(|&(k, _)| k != 9));
}

#[test]
fn update_then_opposite_on_fresh_ledger_leaves_it_empty() {
    let mut ledger: CountMap<u64> = CountMap::new();
    ledger.update(4, i64::MAX);
    ledger.update(4, -i64::MAX);
    assert!(ledger.iterate().is_empty());
}

#[test]
fn update_then_opposite_keeps_earlier_count() {
    let mut ledger: CountMap<u64> = CountMap::new();
    ledger.update(4, 5);
    ledger.update(4, 3);
    ledger.update(4, -3);
    assert_eq!(ledger.iterate(), &vec![(4u64, 5i64)]);
}

#[test]
fn zero_delta_on_absent_key_adds_nothing() {
    let mut ledger: CountMap<u64> = CountMap::new();
    let total = ledger.update(5, 0);
    assert_eq!(total, 0);
    assert!(ledger.iterate().is_empty());
}

#[test]
fn zero_delta_on_present_key_changes_nothing() {
    let mut ledger: CountMap<u64> = CountMap::new();
    ledger.update(5, 2);
    let total = ledger.update(5, 0);
    assert_eq!(total, 2);
    assert_eq!(ledger.iterate(), &vec![(5u64, 2i64)]);
}

#[test]
fn removal_keeps_the_other_entries() {
    let mut ledger: CountMap<u64> = CountMap::new();
    ledger.update(1, 1);
    ledger.update(2, 2);
    ledger.update(3, 3);
    ledger.update(1, -1);
    assert_eq!(sorted(ledger.iterate()), vec![(2, 2), (3, 3)]);
    ledger.update(3, -3);
    assert_eq!(sorted(ledger.iterate()), vec![(2, 2)]);
}

#[test]
fn updates_of_different_keys_commute() {
    let mut ab: CountMap<u64> = CountMap::new();
    ab.update(1, 2);
    ab.update(2, -3);
    let mut ba: CountMap<u64> = CountMap::new();
    ba.update(2, -3);
    ba.update(1, 2);
    assert_eq!(sorted(ab.iterate()), sorted(ba.iterate()));
}

#[test]
fn update_all_merges_first_to_last() {
    let mut ledger: CountMap<u64> = CountMap::new();
    ledger.update(1, 1);
    ledger.update_all(&vec![(1, 2), (2, 5), (1, -3), (3, 0), (2, -1)]);
    assert_eq!(sorted(ledger.iterate()), vec![(2, 4)]);
}

#[test]
fn update_all_with_no_deltas_changes_nothing() {
    let mut ledger: CountMap<u64> = CountMap::new();
    ledger.update(1, 1);
    ledger.update_all(&Vec::new());
    assert_eq!(ledger.iterate(), &vec![(1u64, 1i64)]);
}

#[test]
fn drain_hands_out_everything_and_clears() {
    let mut ledger: CountMap<u64> = CountMap::new();
    ledger.update(1, 1);
    ledger.update(2, -2);
    let pairs = ledger.drain();
    assert_eq!(sorted(&pairs), vec![(1, 1), (2, -2)]);
    assert!(ledger.iterate().is_empty());
    assert!(ledger.drain().is_empty());
}

#[test]
fn ledger_is_usable_after_drain() {
    let mut ledger: CountMap<u64> = CountMap::new();
    ledger.update(1, 1);
    ledger.drain();
    ledger.update(1, 4);
    assert_eq!(ledger.iterate(), &vec![(1u64, 4i64)]);
}

#[test]
fn holds_back_on_total_order() {
    let mut ledger: CountMap<u64> = CountMap::new();
    assert!(!ledger.holds_back(&0));
    ledger.update(5, 1);
    assert!(!ledger.holds_back(&4));
    assert!(ledger.holds_back(&5));
    assert!(ledger.holds_back(&6));
    ledger.update(5, -1);
    assert!(!ledger.holds_back(&6));
}

#[test]
fn holds_back_on_partial_order() {
    let mut ledger: CountMap<Product<u64, u64>> = CountMap::new();
    ledger.update(Product::new(1, 5), 1);
    // (1, 5) is not at or before (2, 3): the inner coordinate is later
    assert!(!ledger.holds_back(&Product::new(2, 3)));
    assert!(ledger.holds_back(&Product::new(1, 5)));
    assert!(ledger.holds_back(&Product::new(2, 5)));
    assert!(!ledger.holds_back(&Product::new(0, 9)));
    ledger.update(Product::new(0, 0), 1);
    assert!(ledger.holds_back(&Product::new(0, 9)));
}

#[test]
fn negative_counts_are_entries_too() {
    let mut ledger: CountMap<u64> = CountMap::new();
    ledger.update(2, -1);
    assert!(ledger.holds_back(&2));
    assert_eq!(ledger.iterate(), &vec![(2u64, -1i64)]);
}

#[test]
fn count_is_zero_for_absent_keys() {
    let mut ledger: CountMap<u64> = CountMap::new();
    assert_eq!(ledger.count(&1), 0);
    ledger.update(1, -4);
    ledger.update(2, 6);
    assert_eq!(ledger.count(&1), -4);
    assert_eq!(ledger.count(&2), 6);
    assert_eq!(ledger.count(&3), 0);
    ledger.update(1, 4);
    assert_eq!(ledger.count(&1), 0);
}

#[test]
fn copy_has_the_same_entries_and_is_independent() {
    let mut ledger: CountMap<u64> = CountMap::new();
    ledger.update(1, 1);
    ledger.update(2, 2);
    let mut twin = ledger.copy();
    assert_eq!(twin.iterate(), ledger.iterate());
    twin.update(1, 5);
    assert_eq!(ledger.count(&1), 1);
    assert_eq!(twin.count(&1), 6);
}

#[test]
fn fits_accepts_what_stays_in_range() {
    let mut ledger: CountMap<u64> = CountMap::new();
    ledger.update(1, i64::MAX - 1);
    assert!(ledger.fits(&vec![]));
    assert!(ledger.fits(&vec![(1, 1)]));
    assert!(ledger.fits(&vec![(1, 1), (1, -5), (1, 5)]));
    assert!(ledger.fits(&vec![(2, i64::MIN), (2, i64::MAX)]));
    // fits changes nothing
    assert_eq!(ledger.iterate(), &vec![(1u64, i64::MAX - 1)]);
}

#[test]
fn fits_refuses_what_leaves_the_range_on_the_way() {
    let mut ledger: CountMap<u64> = CountMap::new();
    ledger.update(1, i64::MAX - 1);
    assert!(!ledger.fits(&vec![(1, 2)]));
    // the sum would fit, the intermediate count does not
    assert!(!ledger.fits(&vec![(1, 2), (1, -2)]));
    assert!(ledger.fits(&vec![(1, -2), (1, 2)]));
    assert!(!ledger.fits(&vec![(2, i64::MIN), (2, -1)]));
    assert!(!ledger.fits(&vec![(3, 1), (1, 1), (1, 1)]));
}
