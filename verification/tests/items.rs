use index_map::item::{Item, Ordered};
use index_map::reference::{item_cmp, item_partial_cmp, key_partial_cmp};
use index_map::total_order::TotalOrder;
use std::cmp::Ordering;

#[test]
fn item_construction_and_ordering() {
    let item = Item::new(3, 30);
    assert_eq!(item.key, 3);
    assert_eq!(item.value, 30);
    let ordered = item.order(5);
    assert_eq!(ordered.key, 3);
    assert_eq!(ordered.value, 30);
    assert_eq!(ordered.order, 5);
}

#[test]
fn ordered_accessors() {
    let mut ordered = Item::new(1, 10).order(0);
    assert_eq!(ordered.as_pair(), (&1, &10));
    assert_eq!(ordered.as_key(), &1);
    assert_eq!(ordered.as_value(), &10);
    {
        let (k, v) = ordered.as_pair_mut();
        assert_eq!(*k, 1);
        *v = 11;
    }
    assert_eq!(ordered.as_value(), &11);
    *ordered.as_value_mut() = 12;
    assert_eq!(ordered.replace_value(13), 12);
    assert_eq!(ordered.as_value(), &13);
    assert_eq!(ordered.order, 0);
    let item = Item::new(2, 20).order(1).unordered();
    assert_eq!(item.key, 2);
    assert_eq!(item.value, 20);
    assert_eq!(Item::new(4, 40).order(2).into_pair(), (4, 40));
    assert_eq!(Item::new(5, 50).order(3).into_key(), 5);
    assert_eq!(Item::new(6, 60).order(4).into_value(), 60);
}

#[test]
fn integer_total_order() {
    assert_eq!(1i32.compare(&2), Ordering::Less);
    assert_eq!(2i32.compare(&2), Ordering::Equal);
    assert_eq!(3i32.compare(&2), Ordering::Greater);
    assert_eq!((-1i32).compare(&1), Ordering::Less);
    assert_eq!(1u64.compare(&2), Ordering::Less);
    assert_eq!(7usize.compare(&7), Ordering::Equal);
    assert_eq!(9i64.compare(&8), Ordering::Greater);
}

#[test]
fn ordering_hooks() {
    let entry: Ordered<i32, i32> = Item::new(5, 50).order(0);
    assert_eq!(key_partial_cmp(&entry, &7), Ordering::Less);
    assert_eq!(key_partial_cmp(&entry, &5), Ordering::Equal);
    assert_eq!(key_partial_cmp(&entry, &3), Ordering::Greater);

    assert_eq!(item_partial_cmp(&entry, &Item::new(7, 0)), Ordering::Less);
    assert_eq!(item_partial_cmp(&entry, &Item::new(5, 0)), Ordering::Equal);
    assert_eq!(item_partial_cmp(&entry, &Item::new(3, 0)), Ordering::Greater);

    let smaller: Ordered<i32, i32> = Item::new(5, 40).order(1);
    let equal: Ordered<i32, i32> = Item::new(5, 50).order(2);
    let larger: Ordered<i32, i32> = Item::new(6, 0).order(3);
    assert_eq!(item_cmp(&entry, &larger), Ordering::Less);
    assert_eq!(item_cmp(&entry, &equal), Ordering::Equal);
    assert_eq!(item_cmp(&entry, &smaller), Ordering::Greater);
}
