use dataflow_progress::frontier::Antichain;
use dataflow_progress::keyed::find;
use dataflow_progress::timestamp::{same, Identity, PartialOrder, PathSummary, Product};

#[test]
fn u64_order_is_the_usual_one() {
    assert!(PartialOrder::le(&3u64, &3u64));
    assert!(PartialOrder::le(&3u64, &4u64));
    assert!(!PartialOrder::le(&4u64, &3u64));
}

#[test]
fn product_order_is_coordinatewise() {
    let a: Product<u64, u64> = Product::new(1, 2);
    let b: Product<u64, u64> = Product::new(2, 2);
    let c: Product<u64, u64> = Product::new(2, 1);
    assert!(a.le(&a));
    assert!(a.le(&b));
    assert!(!b.le(&a));
    assert!(c.le(&b));
    // a and c are incomparable
    assert!(!a.le(&c));
    assert!(!c.le(&a));
}

#[test]
fn product_new_sets_both_coordinates() {
    let p: Product<u64, u64> = Product::new(7, 9);
    assert_eq!(p.outer, 7);
    assert_eq!(p.inner, 9);
    let q = p.clone();
    assert_eq!(q.outer, 7);
    assert_eq!(q.inner, 9);
}

#[test]
fn same_decides_equality() {
    assert!(same(&5u64, &5u64));
    assert!(!same(&5u64, &6u64));
    let a: Product<u64, u64> = Product::new(1, 2);
    let c: Product<u64, u64> = Product::new(2, 1);
    assert!(same(&a, &Product::new(1, 2)));
    assert!(!same(&a, &c));
}

#[test]
fn u64_summary_advances_time() {
    assert_eq!(PathSummary::<u64>::results_in(&3u64, &4u64), Some(7));
    assert_eq!(PathSummary::<u64>::results_in(&0u64, &4u64), Some(4));
    assert_eq!(PathSummary::<u64>::results_in(&1u64, &u64::MAX), None);
    assert_eq!(PathSummary::<u64>::results_in(&u64::MAX, &0u64), Some(u64::MAX));
}

#[test]
fn u64_summaries_compose_by_addition() {
    assert_eq!(PathSummary::<u64>::followed_by(&3u64, &4u64), Some(7));
    assert_eq!(PathSummary::<u64>::followed_by(&u64::MAX, &1u64), None);
    let both = PathSummary::<u64>::followed_by(&3u64, &4u64).unwrap();
    let mid = PathSummary::<u64>::results_in(&3u64, &10u64).unwrap();
    assert_eq!(
        PathSummary::<u64>::results_in(&both, &10u64),
        PathSummary::<u64>::results_in(&4u64, &mid)
    );
}

#[test]
fn identity_summary_changes_nothing() {
    assert_eq!(PathSummary::<u64>::results_in(&Identity, &42u64), Some(42));
    assert!(PathSummary::<u64>::followed_by(&Identity, &Identity).is_some());
    assert!(Identity.le(&Identity));
}

#[test]
fn find_gives_the_position_of_a_key() {
    let items: Vec<(u64, char)> = vec![(4, 'a'), (2, 'b'), (9, 'c')];
    assert_eq!(find(&items, &4), Some(0));
    assert_eq!(find(&items, &9), Some(2));
    assert_eq!(find(&items, &5), None);
    let none: Vec<(u64, char)> = Vec::new();
    assert_eq!(find(&none, &5), None);
}

fn sorted(v: &Vec<u64>) -> Vec<u64> {
    let mut copy = v.clone();
    copy.sort();
    copy
}

#[test]
fn antichain_starts_empty() {
    let chain: Antichain<u64> = Antichain::new();
    assert!(chain.elements_vec().is_empty());
}

#[test]
fn antichain_from_elem_holds_it() {
    let chain: Antichain<u64> = Antichain::from_elem(3);
    assert_eq!(chain.elements_vec(), &vec![3u64]);
}

#[test]
fn antichain_refuses_dominated_element() {
    let mut chain: Antichain<u64> = Antichain::from_elem(3);
    assert!(!chain.insert(5));
    assert!(!chain.insert(3));
    assert_eq!(chain.elements_vec(), &vec![3u64]);
}

#[test]
fn antichain_insert_evicts_later_elements() {
    let mut chain: Antichain<u64> = Antichain::from_elem(3);
    assert!(chain.insert(1));
    assert_eq!(sorted(chain.elements_vec()), vec![1]);
}

#[test]
fn antichain_keeps_incomparable_elements() {
    let mut chain: Antichain<Product<u64, u64>> = Antichain::new();
    assert!(chain.insert(Product::new(1, 5)));
    assert!(chain.insert(Product::new(5, 1)));
    assert!(chain.insert(Product::new(3, 3)));
    assert_eq!(chain.elements_vec().len(), 3);
    // (2, 2) precedes (3, 3) only
    assert!(chain.insert(Product::new(2, 2)));
    let mut got: Vec<(u64, u64)> = chain.elements_vec().iter().map(|p| (p.outer, p.inner)).collect();
    got.sort();
    assert_eq!(got, vec![(1, 5), (2, 2), (5, 1)]);
    // (0, 0) precedes everything
    assert!(chain.insert(Product::new(0, 0)));
    assert_eq!(chain.elements_vec().len(), 1);
    assert!(!chain.insert(Product::new(9, 9)));
}
