//! Key/value items.
//!
//! An [`Item`] is a bare key/value pair, the shape in which bindings enter
//! and leave the map.  An [`Ordered`] item is a live arena entry: the same
//! pair together with its current position in the insertion order.

use vstd::prelude::*;

verus! {

/// A key/value pair without a position.
#[derive(Debug)]
pub struct Item<K, V> {
    pub key: K,
    pub value: V,
}

impl<K, V> Item<K, V> {
    /// Packs a key and a value into an item.
    pub fn new(key: K, value: V) -> (r: Self)
        ensures
            r.key == key,
            r.value == value,
    {
        Item { key, value }
    }

    /// Attaches an insertion-order position, turning the pair into a live
    /// arena entry.
    pub fn order(self, order: usize) -> (r: Ordered<K, V>)
        ensures
            r.key == self.key,
            r.value == self.value,
            r.order == order,
    {
        Ordered { key: self.key, value: self.value, order }
    }
}

/// A key/value pair together with its position in the insertion order.
#[derive(Debug)]
pub struct Ordered<K, V> {
    pub key: K,
    pub value: V,
    /// Current position of this entry in the order index.
    pub order: usize,
}

impl<K, V> Ordered<K, V> {
    /// The key and the value, borrowed.
    pub fn as_pair(&self) -> (r: (&K, &V))
        ensures
            *r.0 == self.key,
            *r.1 == self.value,
    {
        (&self.key, &self.value)
    }

    /// The key borrowed, the value borrowed mutably.
    pub fn as_pair_mut(&mut self) -> (r: (&K, &mut V))
        ensures
            *r.0 == old(self).key,
            *r.1 == old(self).value,
            *final(self) == (Ordered { value: *final(r.1), ..*old(self) }),
    {
        (&self.key, &mut self.value)
    }

    /// Swaps a new value in and returns the old one; key and position are
    /// untouched.
    pub fn replace_value(&mut self, value: V) -> (r: V)
        ensures
            r == old(self).value,
            *final(self) == (Ordered { value, ..*old(self) }),
    {
        let mut value = value;
        std::mem::swap(&mut self.value, &mut value);
        value
    }

    /// Drops the position, leaving the bare pair.
    pub fn unordered(self) -> (r: Item<K, V>)
        ensures
            r.key == self.key,
            r.value == self.value,
    {
        Item { key: self.key, value: self.value }
    }

    /// Borrows the key.
    pub fn as_key(&self) -> (r: &K)
        ensures
            *r == self.key,
    {
        &self.key
    }

    /// Borrows the value.
    pub fn as_value(&self) -> (r: &V)
        ensures
            *r == self.value,
    {
        &self.value
    }

    /// Mutably borrows the value.
    pub fn as_value_mut(&mut self) -> (r: &mut V)
        ensures
            *r == old(self).value,
            *final(self) == (Ordered { value: *final(r), ..*old(self) }),
    {
        &mut self.value
    }

    /// Takes the key and the value.
    pub fn into_pair(self) -> (r: (K, V))
        ensures
            r.0 == self.key,
            r.1 == self.value,
    {
        (self.key, self.value)
    }

    /// Takes the key.
    pub fn into_key(self) -> (r: K)
        ensures
            r == self.key,
    {
        self.key
    }

    /// Takes the value.
    pub fn into_value(self) -> (r: V)
        ensures
            r == self.value,
    {
        self.value
    }
}

} // verus!
