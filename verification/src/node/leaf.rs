//! Leaf node metadata.
//!
//! A leaf holds an optional parent node identifier and the ordered arena
//! identifiers of the entries it contains.  It never holds keys or values:
//! an identifier is resolved into its live entry through the item arena.

use vstd::prelude::*;

use crate::M;

verus! {

/// Metadata of one leaf node.
#[derive(Debug)]
pub struct Metadata {
    /// Parent node identifier, absent for the root.
    parent: Option<usize>,
    /// Arena identifiers of the contained entries, in leaf order.
    items: Vec<usize>,
}

impl Metadata {
    /// The parent node identifier, if any.
    pub closed spec fn spec_parent(&self) -> Option<usize> {
        self.parent
    }

    /// The contained arena identifiers, in leaf order.
    pub closed spec fn items_seq(&self) -> Seq<usize> {
        self.items@
    }

    /// Creates empty leaf metadata with no parent.
    pub fn new() -> (r: Self)
        ensures
            r.spec_parent() is None,
            r.items_seq() == Seq::<usize>::empty(),
    {
        Metadata { parent: None, items: Vec::new() }
    }

    /// The parent node identifier, if any.
    pub fn parent(&self) -> (r: Option<usize>)
        ensures
            r == self.spec_parent(),
    {
        self.parent
    }

    /// Reparents the leaf.
    pub fn set_parent(&mut self, parent: Option<usize>)
        ensures
            final(self).spec_parent() == parent,
            final(self).items_seq() == old(self).items_seq(),
    {
        self.parent = parent;
    }

    /// Number of entries the leaf contains.
    pub fn item_count(&self) -> (r: usize)
        ensures
            r == self.items_seq().len(),
    {
        self.items.len()
    }

    /// Ceiling on the entries a leaf may carry while being rebuilt; a leaf
    /// at rest holds at most one fewer.
    pub fn max_capacity(&self) -> (r: usize)
        ensures
            r == M,
    {
        M
    }

    /// The arena identifier at `offset`, if the offset is within the leaf.
    pub fn item(&self, offset: usize) -> (r: Option<usize>)
        ensures
            match r {
                Some(id) => offset < self.items_seq().len() && id == self.items_seq()[
                    offset as int
                ],
                None => offset >= self.items_seq().len(),
            },
    {
        if offset < self.items.len() {
            Some(self.items[offset])
        } else {
            None
        }
    }

    /// The offset at which `index` sits in the leaf, if it sits anywhere.
    pub fn position_of(&self, index: usize) -> (r: Option<usize>)
        ensures
            match r {
                Some(p) => p < self.items_seq().len() && self.items_seq()[p as int] == index,
                None => forall|j: int|
                    0 <= j < self.items_seq().len() ==> (#[trigger] self.items_seq()[j]) != index,
            },
    {
        let n = self.items.len();
        let mut j: usize = 0;
        while j < n
            invariant
                n == self.items@.len(),
                j <= n,
                forall|t: int| 0 <= t < j ==> (#[trigger] self.items@[t]) != index,
            decreases n - j,
        {
            if self.items[j] == index {
                return Some(j);
            }
            j = j + 1;
        }
        None
    }

    /// Appends an identifier at the right end of the leaf.
    pub fn push_right(&mut self, index: usize)
        ensures
            final(self).spec_parent() == old(self).spec_parent(),
            final(self).items_seq() == old(self).items_seq().push(index),
    {
        self.items.push(index);
    }

    /// Inserts an identifier at `offset`, shifting later offsets right.
    pub fn insert(&mut self, offset: usize, index: usize)
        requires
            offset <= old(self).items_seq().len(),
        ensures
            final(self).spec_parent() == old(self).spec_parent(),
            final(self).items_seq() == old(self).items_seq().insert(offset as int, index),
    {
        self.items.insert(offset, index);
    }

    /// Removes and returns the identifier at `offset`, shifting later
    /// offsets left.
    pub fn remove(&mut self, offset: usize) -> (r: usize)
        requires
            offset < old(self).items_seq().len(),
        ensures
            r == old(self).items_seq()[offset as int],
            final(self).spec_parent() == old(self).spec_parent(),
            final(self).items_seq() == old(self).items_seq().remove(offset as int),
    {
        self.items.remove(offset)
    }

    /// Absorbs a separator identifier and every identifier of `other`,
    /// in order, at the right end; returns the offset at which the
    /// separator landed.
    pub fn append(&mut self, separator: usize, other: Metadata) -> (offset: usize)
        ensures
            offset == old(self).items_seq().len(),
            final(self).spec_parent() == old(self).spec_parent(),
            final(self).items_seq() == old(self).items_seq().push(separator) + other.items_seq(),
    {
        let offset = self.items.len();
        self.items.push(separator);
        let mut other = other;
        self.items.append(&mut other.items);
        offset
    }
}

} // verus!
