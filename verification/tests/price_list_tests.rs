use price_list::PriceList;

#[test]
fn lib_price_list_add() {
    let mut lst = PriceList::new();
    let size_meta: (u32, u128) = (0, 0);

    lst.add(10, size_meta);
    lst.add(1, size_meta);
    lst.add(5, size_meta);
    lst.add(5, size_meta);

    assert_eq!(vec![1, 5, 10], lst.get_prices());
}

#[test]
fn main_price_list_add() {
    let mut lst = PriceList::new();
    let size_meta: (u32, u128) = (0, 0);

    lst.add(10, size_meta);
    lst.add(1, size_meta);
    lst.add(5, size_meta);
    lst.add(5, size_meta);

    assert_eq!(vec![1, 5, 10], lst.get_prices());
}

#[test]
fn lib_price_list_add_with_random_values() {
    let mut lst = PriceList::new();

    let n: u32 = rand::random_range(100u32..1000u32);
    let random_values: Vec<i32> = (0u32..n).map(|_| rand::random()).collect();

    for i in random_values {
        let size_meta_n: u32 = rand::random_range(10u32..100u32);
        for _j in 0u32..size_meta_n {
            lst.add(i, (rand::random(), rand::random::<u32>() as u128));
        }
    }

    let mut cloned = lst.get_prices();
    cloned.sort();
    cloned.dedup();
    // everything must come out sorted and without duplicates
    assert_eq!(lst.get_prices(), cloned);
}

#[test]
fn main_price_list_add_with_random_values() {
    let mut lst = PriceList::new();

    let n: u32 = rand::random_range(100u32..1000u32);
    let random_values: Vec<i32> = (0u32..n).map(|_| rand::random()).collect();

    for i in random_values {
        let size_meta_n: u32 = rand::random_range(10u32..100u32);
        for _j in 0u32..size_meta_n {
            lst.add(i, (rand::random(), rand::random::<u32>() as u128));
        }
    }

    let mut cloned = lst.get_prices();
    cloned.sort();
    cloned.dedup();
    assert_eq!(lst.get_prices(), cloned);
}

#[test]
fn check_split() {
    let mut lst = PriceList::new();

    lst.add(100, (100, 0));
    lst.add(100, (50, 0));
    lst.add(200, (200, 0));

    let splitted = lst.split(100, 100);

    // receiver keeps 100 -> [(100, 0)]
    assert_eq!(vec![100], lst.get_prices());
    assert_eq!(vec![(100u32, 0u128)], lst.get_entries(100));
    // remainder holds 100 -> [(50, 0)] and 200 -> [(200, 0)]
    assert_eq!(vec![100, 200], splitted.get_prices());
    assert_eq!(vec![(50u32, 0u128)], splitted.get_entries(100));
    assert_eq!(vec![(200u32, 0u128)], splitted.get_entries(200));
}

#[test]
fn main_check_split() {
    let mut lst = PriceList::new();

    lst.add(100, (100, 0));
    lst.add(100, (50, 0));
    lst.add(200, (200, 0));

    let splitted = lst.split(200, 150);

    // the whole level at 100 fits the budget of 150 and is kept
    assert_eq!(vec![100], lst.get_prices());
    assert_eq!(vec![(100u32, 0u128), (50u32, 0u128)], lst.get_entries(100));
    // the level at 200 does not fit and goes to the remainder untouched
    assert_eq!(vec![200], splitted.get_prices());
    assert_eq!(vec![(200u32, 0u128)], splitted.get_entries(200));
}

#[test]
fn check_split_half_size() {
    let mut lst = PriceList::new();

    for _ in 0u32..10 {
        for _ in 0u32..10 {
            lst.add(rand::random(), (10, 0));
        }
    }

    // 10 levels of 10 entries each, every entry of size 10
    let half_size: u128 = 10 * 10 * 10 / 2;
    let right = lst.split(i32::MAX, half_size);

    assert_eq!(lst.get_size_sum(), right.get_size_sum());
}
