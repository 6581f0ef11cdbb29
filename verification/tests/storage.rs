use index_map::arena::Arena;
use index_map::node::internal;
use index_map::node::leaf;
use index_map::node::Node;
use index_map::{div_ceil, IndexMap};

#[test]
fn arena_hands_out_stable_identifiers() {
    let mut arena = Arena::new();
    assert_eq!(arena.capacity(), 0);
    let a = arena.push_back(10);
    let b = arena.push_back(20);
    let c = arena.push_back(30);
    assert_eq!((a, b, c), (0, 1, 2));
    assert_eq!(arena.get(b), Some(&20));
    assert_eq!(arena.remove(b), 20);
    assert_eq!(arena.get(b), None);
    assert!(!arena.contains(b));
    assert_eq!(arena.get(a), Some(&10));
    assert_eq!(arena.get(c), Some(&30));
    let d = arena.push_back(40);
    assert_eq!(d, 3);
    assert_eq!(arena.slots_len(), 4);
    *arena.get_mut(c) = 33;
    assert_eq!(*arena.borrow(c), 33);
}

#[test]
fn arena_capacity_grows_with_use() {
    let mut arena = Arena::with_capacity(2);
    assert_eq!(arena.capacity(), 2);
    arena.push_back(1);
    arena.push_back(2);
    assert_eq!(arena.capacity(), 2);
    arena.push_back(3);
    assert_eq!(arena.capacity(), 3);
}

#[test]
fn div_ceil_rounds_towards_infinity() {
    assert_eq!(div_ceil(0, 7), 0);
    assert_eq!(div_ceil(1, 7), 1);
    assert_eq!(div_ceil(7, 7), 1);
    assert_eq!(div_ceil(8, 7), 2);
    assert_eq!(div_ceil(14, 7), 2);
    assert_eq!(div_ceil(15, 7), 3);
    assert_eq!(div_ceil(usize::MAX, 1), usize::MAX);
    assert_eq!(div_ceil(usize::MAX, usize::MAX), 1);
}

#[test]
fn leaf_metadata_operations() {
    let mut m = leaf::Metadata::new();
    assert_eq!(m.parent(), None);
    assert_eq!(m.item_count(), 0);
    assert_eq!(m.max_capacity(), 8);
    m.push_right(3);
    m.push_right(7);
    m.insert(1, 5);
    assert_eq!(m.item_count(), 3);
    assert_eq!(m.item(0), Some(3));
    assert_eq!(m.item(1), Some(5));
    assert_eq!(m.item(2), Some(7));
    assert_eq!(m.item(3), None);
    assert_eq!(m.position_of(5), Some(1));
    assert_eq!(m.position_of(9), None);
    assert_eq!(m.remove(1), 5);
    assert_eq!(m.item_count(), 2);
    m.set_parent(Some(4));
    assert_eq!(m.parent(), Some(4));

    let mut other = leaf::Metadata::new();
    other.push_right(11);
    other.push_right(13);
    let offset = m.append(9, other);
    assert_eq!(offset, 2);
    assert_eq!(m.item(2), Some(9));
    assert_eq!(m.item(3), Some(11));
    assert_eq!(m.item(4), Some(13));
    assert_eq!(m.item_count(), 5);
}

#[test]
fn internal_metadata_operations() {
    let b = internal::Branch::new(3, 10);
    assert_eq!(b.item_index(), 3);
    assert_eq!(b.into_pair(), (3, 10));

    let mut m = internal::Metadata::new();
    assert_eq!(m.parent(), None);
    assert_eq!(m.item_count(), 0);
    assert_eq!(m.max_capacity(), 8);
    m.set_first_child_id(20);
    m.push_right(3, 21);
    m.push_right(7, 22);
    m.insert(1, 5, 23);
    assert_eq!(m.item_count(), 3);
    assert_eq!(m.item(0), Some(3));
    assert_eq!(m.item(1), Some(5));
    assert_eq!(m.child_id(1), Some(23));
    assert_eq!(m.child_id(3), None);
    assert_eq!(m.position_of(7), Some(2));
    assert_eq!(m.position_of(8), None);
    assert_eq!(m.replace(1, 6), 5);
    assert_eq!(m.item(1), Some(6));
    assert_eq!(m.child_id(1), Some(23));
    assert_eq!(m.remove(1), (6, 23));
    assert_eq!(m.item_count(), 2);
    m.set_parent(Some(9));
    assert_eq!(m.parent(), Some(9));

    let mut other = internal::Metadata::new();
    other.set_first_child_id(30);
    other.push_right(15, 31);
    let offset = m.append(12, other);
    assert_eq!(offset, 2);
    assert_eq!(m.item(2), Some(12));
    assert_eq!(m.child_id(2), Some(30));
    assert_eq!(m.item(3), Some(15));
    assert_eq!(m.child_id(3), Some(31));
}

#[test]
fn node_dispatch_and_detach() {
    let mut lm = leaf::Metadata::new();
    lm.push_right(3);
    lm.push_right(5);
    lm.push_right(7);
    let mut node = Node::Leaf(lm);
    assert!(node.is_leaf());
    assert_eq!(node.item_count(), 3);
    assert_eq!(node.parent(), None);
    node.detach(5);
    assert_eq!(node.item_count(), 2);
    node.detach(9);
    assert_eq!(node.item_count(), 2);

    let mut im = internal::Metadata::new();
    im.push_right(4, 40);
    im.push_right(6, 41);
    let mut node = Node::Internal(im);
    assert!(!node.is_leaf());
    assert_eq!(node.item_count(), 2);
    node.detach(4);
    assert_eq!(node.item_count(), 1);
}

#[test]
fn facade_maintains_the_root_leaf() {
    let mut map = IndexMap::new();
    assert_eq!(map.root(), None);
    map.insert(10, 1);
    let root = map.root().expect("a nonempty map has a root");
    let node = map.node(root).expect("the root is live");
    assert!(node.is_leaf());
    assert_eq!(node.item_count(), 1);
    map.insert(20, 2);
    map.insert(30, 3);
    assert_eq!(map.root(), Some(root));
    map.swap_remove(&20);
    map.swap_remove(&30);
    map.swap_remove(&10);
    assert_eq!(map.root(), None);
}

#[test]
fn borrow_item_resolves_node_slots() {
    let mut map = IndexMap::new();
    map.insert(10, 1);
    let root = map.root().unwrap();
    let entry = map.borrow_item(root, 0).expect("the root leaf holds the first binding");
    assert_eq!(*entry.as_key(), 10);
    assert_eq!(*entry.as_value(), 1);
    assert!(map.borrow_item(root, 1).is_none());
    assert!(map.borrow_item(root + 1, 0).is_none());
}

#[test]
fn engine_capability_surface() {
    let mut map = IndexMap::<i32, i32>::new();
    map.insert(10, 1);
    map.insert(20, 2);
    let root = map.root().unwrap();

    // An engine step: route a fresh binding into the arena, then attach its
    // identifier to the root leaf in place.
    let index = map.allocate_item(index_map::item::Item::new(30, 3));
    match map.node_mut(root) {
        Node::Leaf(m) => m.push_right(index),
        Node::Internal(_) => panic!("the root of this map is a leaf"),
    }
    let entry = map.entry(index).expect("the routed binding is live");
    assert_eq!(*entry.as_key(), 30);
    assert_eq!(map.node(root).unwrap().item_count(), 2);

    // Detaching the binding through the map removes it from the leaf too.
    assert_eq!(map.swap_remove(&30), Some(3));
    assert_eq!(map.node(root).unwrap().item_count(), 1);

    // Node transfer: in, around, out.
    let mut lm = leaf::Metadata::new();
    lm.set_parent(Some(root));
    let id = map.allocate_node(Node::Leaf(lm));
    assert!(map.node(id).is_some());
    map.set_len(17);
    assert_eq!(map.len(), 2);
    let back = map.release_node(id);
    assert_eq!(back.parent(), Some(root));
    assert!(map.node(id).is_none());

    // Moving the root and back.
    map.set_root(None);
    assert_eq!(map.root(), None);
    map.set_root(Some(root));
    assert_eq!(map.root(), Some(root));
}
