use index_map::IndexMap;

#[test]
fn it_works() {
    let mut map = IndexMap::new();
    assert_eq!(map.is_empty(), true);
    map.insert(1, ());
    map.insert(1, ());
    assert_eq!(map.len(), 1);
    assert!(map.get(&1).is_some());
    assert_eq!(map.is_empty(), false);
}

#[test]
fn new() {
    let map = IndexMap::<String, String>::new();
    println!("{:?}", map);
    assert_eq!(map.capacity(), 0);
    assert_eq!(map.len(), 0);
    assert_eq!(map.is_empty(), true);
}

#[test]
fn insert() {
    let insert = [0, 4, 2, 12, 8, 7, 11, 5];
    let not_present = [1, 3, 6, 9, 10];
    let mut map = IndexMap::with_capacity(insert.len());

    for (i, elt) in insert.into_iter().enumerate() {
        assert_eq!(map.len(), i);
        map.insert(elt, elt);
        assert_eq!(map.len(), i + 1);
        assert_eq!(map.get(&elt), Some(&elt));
        assert_eq!(*map.get(&elt).unwrap(), elt);
    }
    println!("{:?}", map);

    for &elt in &not_present {
        assert!(map.get(&elt).is_none());
    }
}

#[test]
fn insert_full() {
    let insert = vec![9, 2, 7, 1, 4, 6, 13];
    let present = vec![1, 6, 2];
    let mut map = IndexMap::with_capacity(insert.len());

    for (i, elt) in insert.into_iter().enumerate() {
        assert_eq!(map.len(), i);
        let (index, existing) = map.insert_full(elt, elt);
        assert_eq!(existing, None);
        assert_eq!(Some(index), map.get_full(&elt).map(|x| x.0));
        assert_eq!(map.len(), i + 1);
    }

    let len = map.len();
    for elt in present {
        let (index, existing) = map.insert_full(elt, elt);
        assert_eq!(existing, Some(elt));
        assert_eq!(Some(index), map.get_full(&elt).map(|x| x.0));
        assert_eq!(map.len(), len);
    }
}

#[test]
fn insert_order_and_positional_access() {
    let mut map = IndexMap::new();
    map.insert(0, 0);
    map.insert(4, 4);
    map.insert(2, 2);
    map.insert(12, 12);
    assert_eq!(map.len(), 4);
    assert_eq!(map.get_index(0), Some((&0, &0)));
    assert_eq!(map.get_index(3), Some((&12, &12)));
    assert_eq!(map.get(&2), Some(&2));
    assert_eq!(map.get_index(4), None);
}

#[test]
fn swap_remove_to_empty() {
    let mut map = IndexMap::new();
    map.insert(0, 0);
    map.insert(4, 4);
    map.insert(5, 5);
    assert_eq!(map.swap_remove(&5), Some(5));
    assert_eq!(map.swap_remove(&4), Some(4));
    assert_eq!(map.swap_remove(&0), Some(0));
    assert_eq!(map.is_empty(), true);
}

#[test]
fn shift_remove_preserves_order() {
    let mut map = IndexMap::new();
    map.insert(1, 10);
    map.insert(2, 20);
    map.insert(3, 30);
    map.insert(4, 40);
    map.insert(5, 50);
    assert_eq!(map.shift_remove(&3), Some(30));
    assert_eq!(map.len(), 4);
    assert_eq!(map.get_index(0), Some((&1, &10)));
    assert_eq!(map.get_index(1), Some((&2, &20)));
    assert_eq!(map.get_index(2), Some((&4, &40)));
    assert_eq!(map.get_index(3), Some((&5, &50)));
}

#[test]
fn swap_remove_disturbs_order() {
    let mut map = IndexMap::new();
    map.insert(1, 10);
    map.insert(2, 20);
    map.insert(3, 30);
    map.insert(4, 40);
    map.insert(5, 50);
    assert_eq!(map.swap_remove(&2), Some(20));
    assert_eq!(map.len(), 4);
    assert_eq!(map.get_index(0), Some((&1, &10)));
    assert_eq!(map.get_index(1), Some((&5, &50)));
    assert_eq!(map.get_index(2), Some((&3, &30)));
    assert_eq!(map.get_index(3), Some((&4, &40)));
}

#[test]
fn remove_absent_key_is_a_no_op() {
    let mut map = IndexMap::new();
    map.insert(1, 10);
    map.insert(2, 20);
    assert_eq!(map.swap_remove(&7), None);
    assert_eq!(map.len(), 2);
    assert_eq!(map.shift_remove(&7), None);
    assert_eq!(map.len(), 2);
    assert_eq!(map.remove(&9), None);
    assert_eq!(map.len(), 2);
    let mut empty = IndexMap::<i32, i32>::new();
    assert_eq!(empty.swap_remove(&1), None);
    assert_eq!(empty.len(), 0);
}

#[test]
fn remove_is_swap_remove() {
    let mut map = IndexMap::new();
    map.insert(1, 10);
    map.insert(2, 20);
    map.insert(3, 30);
    assert_eq!(map.remove(&1), Some(10));
    assert_eq!(map.get_index(0), Some((&3, &30)));
    assert_eq!(map.get_index(1), Some((&2, &20)));
}

#[test]
fn collision_replaces_value_in_place() {
    let mut map = IndexMap::new();
    map.insert(9, 90);
    map.insert(2, 20);
    map.insert(7, 70);
    let position = map.get_full(&2).unwrap().0;
    let (index, existing) = map.insert_full(2, 99);
    assert_eq!(existing, Some(20));
    assert_eq!(index, position);
    assert_eq!(map.len(), 3);
    assert_eq!(map.get(&2), Some(&99));
    assert_eq!(map.get_full(&2).unwrap().0, position);
}

#[test]
fn capacity_floor() {
    for n in [0usize, 1, 5, 7, 8, 50, 100] {
        let map = IndexMap::<i32, i32>::with_capacity(n);
        assert!(map.capacity() >= n);
    }
}

#[test]
fn get_full_reports_position_key_value() {
    let mut map = IndexMap::new();
    map.insert(10, 100);
    map.insert(20, 200);
    assert_eq!(map.get_full(&20), Some((1, &20, &200)));
    assert_eq!(map.get_full(&30), None);
}

#[test]
fn get_mut_rewrites_the_value() {
    let mut map = IndexMap::new();
    map.insert(1, 10);
    map.insert(2, 20);
    *map.get_mut(&2).unwrap() = 99;
    assert_eq!(map.get(&2), Some(&99));
    assert_eq!(map.get(&1), Some(&10));
    assert!(map.get_mut(&3).is_none());
}

#[test]
fn get_index_mut_rewrites_the_value() {
    let mut map = IndexMap::new();
    map.insert(1, 10);
    map.insert(2, 20);
    {
        let (k, v) = map.get_index_mut(0).unwrap();
        assert_eq!(*k, 1);
        *v = 11;
    }
    assert_eq!(map.get(&1), Some(&11));
    assert!(map.get_index_mut(2).is_none());
}

#[test]
fn swap_remove_last_position() {
    let mut map = IndexMap::new();
    map.insert(1, 10);
    map.insert(2, 20);
    map.insert(3, 30);
    assert_eq!(map.swap_remove(&3), Some(30));
    assert_eq!(map.len(), 2);
    assert_eq!(map.get_index(0), Some((&1, &10)));
    assert_eq!(map.get_index(1), Some((&2, &20)));
}

#[test]
fn shift_remove_first_and_last_positions() {
    let mut map = IndexMap::new();
    map.insert(1, 10);
    map.insert(2, 20);
    map.insert(3, 30);
    assert_eq!(map.shift_remove(&1), Some(10));
    assert_eq!(map.get_index(0), Some((&2, &20)));
    assert_eq!(map.get_index(1), Some((&3, &30)));
    assert_eq!(map.shift_remove(&3), Some(30));
    assert_eq!(map.get_index(0), Some((&2, &20)));
    assert_eq!(map.len(), 1);
}

#[test]
fn iteration_follows_insertion_order() {
    let mut map = IndexMap::new();
    map.insert(3, 30);
    map.insert(1, 10);
    map.insert(2, 20);
    let mut iter = map.iter();
    assert_eq!(iter.remaining(), 3);
    assert_eq!(iter.next(), Some((&3, &30)));
    assert_eq!(iter.next(), Some((&1, &10)));
    assert_eq!(iter.remaining(), 1);
    assert_eq!(iter.next(), Some((&2, &20)));
    assert_eq!(iter.next(), None);
    assert_eq!(iter.remaining(), 0);
}

#[test]
fn default_is_the_empty_map() {
    let map = IndexMap::<i32, i32>::default();
    assert!(map.is_empty());
    assert_eq!(map.len(), 0);
}

#[test]
fn reinsert_after_emptying() {
    let mut map = IndexMap::new();
    map.insert(1, 10);
    assert_eq!(map.swap_remove(&1), Some(10));
    assert!(map.is_empty());
    map.insert(2, 20);
    assert_eq!(map.len(), 1);
    assert_eq!(map.get_index(0), Some((&2, &20)));
}
