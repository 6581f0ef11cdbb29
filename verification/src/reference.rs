//! Read capability of the storage adapter.
//!
//! The shared-borrow surface an external B-tree engine navigates: the root,
//! the entry count, node metadata by identifier, the resolution of an arena
//! identifier into its live entry, and the three ordering hooks used for
//! descent and for structural checks.  Mutation goes through the exclusive
//! surface in the sibling module.

use vstd::prelude::*;

use crate::item::{Item, Ordered};
use crate::node::Node;
use crate::total_order::TotalOrder;
use crate::IndexMap;
use std::cmp::Ordering;

verus! {

impl<K, V> IndexMap<K, V> {
    /// The root node identifier, if any.
    pub fn root(&self) -> (r: Option<usize>)
        ensures
            r == self.spec_root(),
    {
        self.root
    }

    /// The node behind `id`, or nothing when `id` is vacant or was never
    /// handed out.
    pub fn node(&self, id: usize) -> (r: Option<&Node>)
        ensures
            match r {
                Some(node) => self.node_live(id as int) && *node == self.node_at(id as int),
                None => !self.node_live(id as int),
            },
    {
        self.nodes.get(id)
    }

    /// Resolves the entry referenced at `offset` of the node behind `id` —
    /// a leaf slot or a branch separator — into the live arena entry, or
    /// nothing when the node or the offset or the entry is not there.
    pub fn borrow_item(&self, id: usize, offset: usize) -> (r: Option<&Ordered<K, V>>)
        ensures
            match r {
                Some(e) => {
                    &&& self.node_live(id as int)
                    &&& ({
                        let node = self.node_at(id as int);
                        let index = if node.spec_is_leaf() {
                            node.leaf_items()[offset as int]
                        } else {
                            node.separators()[offset as int]
                        };
                        &&& offset < node.leaf_items().len() + node.separators().len()
                        &&& self.spec_inner().entry_live(index as int)
                        &&& *e == self.spec_inner().entry_at(index as int)
                    })
                },
                None => !self.node_live(id as int) || ({
                    let node = self.node_at(id as int);
                    offset >= node.leaf_items().len() + node.separators().len()
                        || !self.spec_inner().entry_live(
                        (if node.spec_is_leaf() {
                            node.leaf_items()[offset as int]
                        } else {
                            node.separators()[offset as int]
                        }) as int,
                    )
                }),
            },
    {
        match self.node(id) {
            None => None,
            Some(node) => {
                let index = match node {
                    Node::Leaf(m) => m.item(offset),
                    Node::Internal(m) => m.item(offset),
                };
                match index {
                    None => None,
                    Some(index) => self.entry(index),
                }
            },
        }
    }

    /// Resolves an arena identifier into its live entry, or nothing when no
    /// entry is behind it.
    pub fn entry(&self, index: usize) -> (r: Option<&Ordered<K, V>>)
        ensures
            match r {
                Some(e) => self.spec_inner().entry_live(index as int) && *e == self.spec_inner()
                    .entry_at(index as int),
                None => !self.spec_inner().entry_live(index as int),
            },
    {
        self.inner.items.get(index)
    }
}

/// Ordering hook for descent: a live entry against a bare lookup key, by
/// the entry's key.
pub fn key_partial_cmp<K: TotalOrder, V>(entry: &Ordered<K, V>, key: &K) -> (c: Ordering)
    ensures
        (c == Ordering::Equal) <==> (entry.key == *key),
        (c == Ordering::Less) <==> K::lt(entry.key, *key),
        (c == Ordering::Greater) <==> K::lt(*key, entry.key),
{
    entry.key.compare(key)
}

/// Ordering hook for insertion descent: a live entry against a candidate
/// item, by their keys.
pub fn item_partial_cmp<K: TotalOrder, V>(entry: &Ordered<K, V>, other: &Item<K, V>) -> (c:
    Ordering)
    ensures
        (c == Ordering::Equal) <==> (entry.key == other.key),
        (c == Ordering::Less) <==> K::lt(entry.key, other.key),
        (c == Ordering::Greater) <==> K::lt(other.key, entry.key),
{
    entry.key.compare(&other.key)
}

/// Ordering hook for structural checks: two live entries, by key and then
/// by value.
pub fn item_cmp<K: TotalOrder, V: TotalOrder>(a: &Ordered<K, V>, b: &Ordered<K, V>) -> (c:
    Ordering)
    ensures
        (c == Ordering::Equal) <==> (a.key == b.key && a.value == b.value),
        (c == Ordering::Less) <==> (K::lt(a.key, b.key) || (a.key == b.key && V::lt(
            a.value,
            b.value,
        ))),
        (c == Ordering::Greater) <==> (K::lt(b.key, a.key) || (a.key == b.key && V::lt(
            b.value,
            a.value,
        ))),
{
    proof {
        K::lemma_trichotomy(a.key, b.key);
        V::lemma_trichotomy(a.value, b.value);
    }
    match a.key.compare(&b.key) {
        Ordering::Equal => a.value.compare(&b.value),
        Ordering::Less => Ordering::Less,
        Ordering::Greater => Ordering::Greater,
    }
}

} // verus!
