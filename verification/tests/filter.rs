use collapse::collapse::Restriction;
use collapse::iter::filter::{copy_items, AccumulateFilter, Predicate};
use collapse::sudoku::NotEqual;

#[test]
fn without_rules_every_item_comes_in_order() {
    let mut filter: AccumulateFilter<u8, NotEqual> = AccumulateFilter::new(vec![3, 1, 2]);
    assert_eq!(filter.next(), Some(3));
    assert_eq!(filter.next(), Some(1));
    assert_eq!(filter.next(), Some(2));
    assert_eq!(filter.next(), None);
    assert_eq!(filter.next(), None);
}

#[test]
fn only_items_that_every_rule_admits_come() {
    let mut filter = AccumulateFilter::new(vec![1, 2, 3, 4, 5, 6, 7, 8]);
    filter.add(NotEqual(1));
    filter.add(NotEqual(4));
    filter.add(NotEqual(8));
    assert_eq!(filter.next(), Some(2));
    assert_eq!(filter.next(), Some(3));
    assert_eq!(filter.next(), Some(5));
    assert_eq!(filter.next(), Some(6));
    assert_eq!(filter.next(), Some(7));
    assert_eq!(filter.next(), None);
}

#[test]
fn a_rule_added_midway_holds_for_the_rest() {
    let mut filter = AccumulateFilter::new(vec![1, 2, 3, 4, 5, 6]);
    assert_eq!(filter.next(), Some(1));
    filter.add(NotEqual(2));
    assert_eq!(filter.next(), Some(3));
    filter.add(NotEqual(4));
    filter.add(NotEqual(5));
    assert_eq!(filter.next(), Some(6));
    assert_eq!(filter.next(), None);
}

#[test]
fn an_empty_base_sequence_yields_nothing() {
    let mut filter: AccumulateFilter<u8, NotEqual> = AccumulateFilter::new(vec![]);
    filter.add(NotEqual(1));
    assert_eq!(filter.next(), None);
}

#[test]
fn a_clone_goes_on_from_the_same_place_by_itself() {
    let mut filter = AccumulateFilter::new(vec![1, 2, 3, 4]);
    filter.add(NotEqual(4));
    assert_eq!(filter.next(), Some(1));
    let mut copy = filter.clone();
    copy.add(NotEqual(2));
    assert_eq!(copy.next(), Some(3));
    assert_eq!(copy.next(), None);
    assert_eq!(filter.next(), Some(2));
    assert_eq!(filter.next(), Some(3));
    assert_eq!(filter.next(), None);
}

#[test]
fn repeated_items_come_as_often_as_they_stand() {
    let mut filter = AccumulateFilter::new(vec![2, 2, 3, 2]);
    filter.add(NotEqual(3));
    assert_eq!(filter.next(), Some(2));
    assert_eq!(filter.next(), Some(2));
    assert_eq!(filter.next(), Some(2));
    assert_eq!(filter.next(), None);
}

#[test]
fn a_pin_admits_one_item_alone() {
    let pin: Restriction<u8, NotEqual> = Restriction::Only(4);
    assert!(pin.test(&4));
    assert!(!pin.test(&5));
    let rule: Restriction<u8, NotEqual> = Restriction::Rule(NotEqual(4));
    assert!(!rule.test(&4));
    assert!(rule.test(&5));
    let mut filter = AccumulateFilter::new(vec![3, 4, 5, 4]);
    filter.add(pin);
    assert_eq!(filter.next(), Some(4));
    assert_eq!(filter.next(), Some(4));
    assert_eq!(filter.next(), None);
}

#[test]
fn copy_items_keeps_every_item() {
    assert_eq!(copy_items(&vec![4u8, 0, 4]), vec![4, 0, 4]);
    assert_eq!(copy_items(&Vec::<u8>::new()), Vec::<u8>::new());
}
