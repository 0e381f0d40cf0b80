use price_list::PriceList;

#[test]
fn merge_invariant_same_price() {
    let mut lst = PriceList::new();
    lst.add(5, (1, 11));
    lst.add(5, (2, 22));

    // one level, both entries in call order
    assert_eq!(vec![5], lst.get_prices());
    assert_eq!(vec![(1u32, 11u128), (2u32, 22u128)], lst.get_entries(5));
}

#[test]
fn re_add_appends_one_entry_in_order() {
    let mut lst = PriceList::new();
    lst.add(7, (1, 101));
    assert_eq!(1, lst.get_entries(7).len());
    lst.add(7, (2, 102));
    assert_eq!(2, lst.get_entries(7).len());
    lst.add(7, (3, 103));
    assert_eq!(3, lst.get_entries(7).len());
    assert_eq!(
        vec![(1u32, 101u128), (2u32, 102u128), (3u32, 103u128)],
        lst.get_entries(7)
    );
}

#[test]
fn conservation_across_split() {
    let mut lst = PriceList::new();
    lst.add(3, (40, 0));
    lst.add(1, (13, 1));
    lst.add(2, (7, 2));
    lst.add(2, (9, 3));
    lst.add(9, (25, 4));
    let total = lst.get_size_sum();
    assert_eq!(94, total);

    let rest = lst.split(3, 21);
    assert_eq!(total, lst.get_size_sum() + rest.get_size_sum());
}

#[test]
fn whole_level_passes_through_untouched() {
    let mut lst = PriceList::new();
    lst.add(10, (1, 7));
    lst.add(20, (2, 8));
    lst.add(20, (3, 9));

    let rest = lst.split(15, 0);

    // zero budget: nothing admitted at or under the threshold
    assert!(lst.get_prices().is_empty());
    // the level over the threshold arrives whole, order and contents kept
    assert_eq!(vec![10, 20], rest.get_prices());
    assert_eq!(vec![(1u32, 7u128)], rest.get_entries(10));
    assert_eq!(vec![(2u32, 8u128), (3u32, 9u128)], rest.get_entries(20));
}

#[test]
fn empty_structure_split() {
    let mut lst = PriceList::new();
    let rest = lst.split(5, 100);

    assert!(lst.get_prices().is_empty());
    assert!(rest.get_prices().is_empty());
    assert_eq!(0, lst.get_size_sum());
    assert_eq!(0, rest.get_size_sum());
}

#[test]
fn half_size_split_exact() {
    let mut lst = PriceList::new();
    for p in 0i32..10 {
        for _ in 0u32..10 {
            lst.add(p * 100, (10, 0));
        }
    }
    assert_eq!(1000, lst.get_size_sum());

    let right = lst.split(i32::MAX, 500);

    assert_eq!(500, lst.get_size_sum());
    assert_eq!(500, right.get_size_sum());
}

#[test]
fn exhausted_budget_admits_nothing_later() {
    let mut lst = PriceList::new();
    lst.add(10, (4, 1));
    lst.add(10, (100, 2));
    lst.add(10, (1, 3));
    lst.add(11, (1, 4));

    let rest = lst.split(50, 5);

    // (4,1) fits; (100,2) does not and turns admission off; the later
    // entries of size 1 would still fit the leftover budget but are not
    // re-admitted
    assert_eq!(vec![10], lst.get_prices());
    assert_eq!(vec![(4u32, 1u128)], lst.get_entries(10));
    assert_eq!(vec![10, 11], rest.get_prices());
    assert_eq!(vec![(100u32, 2u128), (1u32, 3u128)], rest.get_entries(10));
    assert_eq!(vec![(1u32, 4u128)], rest.get_entries(11));
}

#[test]
fn threshold_below_all_levels() {
    let mut lst = PriceList::new();
    lst.add(5, (1, 0));
    lst.add(6, (2, 0));

    let rest = lst.split(4, u128::MAX);

    assert!(lst.get_prices().is_empty());
    assert_eq!(vec![5, 6], rest.get_prices());
    assert_eq!(vec![(1u32, 0u128)], rest.get_entries(5));
    assert_eq!(vec![(2u32, 0u128)], rest.get_entries(6));
}

#[test]
fn threshold_above_all_with_unbounded_budget() {
    let mut lst = PriceList::new();
    lst.add(5, (1, 0));
    lst.add(6, (2, 0));

    let rest = lst.split(i32::MAX, u128::MAX);

    assert_eq!(vec![5, 6], lst.get_prices());
    assert_eq!(vec![(1u32, 0u128)], lst.get_entries(5));
    assert_eq!(vec![(2u32, 0u128)], lst.get_entries(6));
    assert!(rest.get_prices().is_empty());
}

#[test]
fn with_capacity_starts_empty() {
    let mut lst = PriceList::with_capacity(16);
    assert!(lst.get_prices().is_empty());
    assert_eq!(0, lst.get_size_sum());

    lst.add(2, (3, 0));
    assert_eq!(vec![2], lst.get_prices());
    assert_eq!(3, lst.get_size_sum());
}

#[test]
fn add_size_meta_list_replaces_or_inserts() {
    let mut lst = PriceList::new();
    lst.add(4, (1, 0));
    lst.add(4, (2, 0));
    lst.add(8, (3, 0));

    // overwrite the whole level at 4
    lst.add_size_meta_list(4, vec![(9, 9)]);
    assert_eq!(vec![(9u32, 9u128)], lst.get_entries(4));

    // insert a fresh level at an absent price, placed in sorted position
    lst.add_size_meta_list(6, vec![(5, 5), (6, 6)]);
    assert_eq!(vec![4, 6, 8], lst.get_prices());
    assert_eq!(vec![(5u32, 5u128), (6u32, 6u128)], lst.get_entries(6));
    assert_eq!(vec![(3u32, 0u128)], lst.get_entries(8));
}

#[test]
fn get_entries_of_absent_price_is_empty() {
    let mut lst = PriceList::new();
    lst.add(1, (1, 0));
    assert!(lst.get_entries(2).is_empty());
}

#[test]
fn get_size_sum_exact_value() {
    let mut lst = PriceList::new();
    lst.add(-3, (1, 0));
    lst.add(0, (2, 0));
    lst.add(0, (3, 0));
    assert_eq!(6, lst.get_size_sum());
    assert_eq!(vec![-3, 0], lst.get_prices());
}
