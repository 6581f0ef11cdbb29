//! Internal node metadata.
//!
//! An internal node holds an optional parent node identifier, the identifier
//! of its first child, and an ordered sequence of branches.  Each branch
//! pairs a separator — the arena identifier of the entry dividing two child
//! subtrees — with the identifier of the child to its right.  With `b`
//! branches the node has exactly `b + 1` children, counting the first child.

use vstd::prelude::*;

use crate::M;

verus! {

/// One branch of an internal node: a separator entry identifier and the
/// child node to its right.
#[derive(Debug)]
pub struct Branch {
    /// Arena identifier of the separator entry.
    pub item_index: usize,
    /// Identifier of the child node right of the separator.
    pub child_id: usize,
}

impl Branch {
    /// Packs a separator identifier and a child identifier into a branch.
    pub fn new(item_index: usize, child_id: usize) -> (r: Self)
        ensures
            r.item_index == item_index,
            r.child_id == child_id,
    {
        Branch { item_index, child_id }
    }

    /// The separator's arena identifier.
    pub fn item_index(&self) -> (r: usize)
        ensures
            r == self.item_index,
    {
        self.item_index
    }

    /// Takes the separator identifier and the child identifier.
    pub fn into_pair(self) -> (r: (usize, usize))
        ensures
            r.0 == self.item_index,
            r.1 == self.child_id,
    {
        (self.item_index, self.child_id)
    }
}

/// Metadata of one internal node.
#[derive(Debug)]
pub struct Metadata {
    /// Parent node identifier, absent for the root.
    parent: Option<usize>,
    /// Identifier of the leftmost child.
    first_child_id: usize,
    /// The branches, in node order.
    branches: Vec<Branch>,
}

impl Metadata {
    /// The parent node identifier, if any.
    pub closed spec fn spec_parent(&self) -> Option<usize> {
        self.parent
    }

    /// The leftmost child's node identifier.
    pub closed spec fn spec_first_child_id(&self) -> usize {
        self.first_child_id
    }

    /// The branches, in node order.
    pub closed spec fn branches_seq(&self) -> Seq<Branch> {
        self.branches@
    }

    /// Creates empty internal metadata with no parent and first child 0.
    pub fn new() -> (r: Self)
        ensures
            r.spec_parent() is None,
            r.spec_first_child_id() == 0,
            r.branches_seq() == Seq::<Branch>::empty(),
    {
        Metadata { parent: None, first_child_id: 0, branches: Vec::new() }
    }

    /// The parent node identifier, if any.
    pub fn parent(&self) -> (r: Option<usize>)
        ensures
            r == self.spec_parent(),
    {
        self.parent
    }

    /// Reparents the node.
    pub fn set_parent(&mut self, parent: Option<usize>)
        ensures
            final(self).spec_parent() == parent,
            final(self).spec_first_child_id() == old(self).spec_first_child_id(),
            final(self).branches_seq() == old(self).branches_seq(),
    {
        self.parent = parent;
    }

    /// Number of branches the node holds.
    pub fn item_count(&self) -> (r: usize)
        ensures
            r == self.branches_seq().len(),
    {
        self.branches.len()
    }

    /// The separator identifier at `offset`, if within the node.
    pub fn item(&self, offset: usize) -> (r: Option<usize>)
        ensures
            match r {
                Some(id) => offset < self.branches_seq().len() && id == self.branches_seq()[
                    offset as int
                ].item_index,
                None => offset >= self.branches_seq().len(),
            },
    {
        if offset < self.branches.len() {
            Some(self.branches[offset].item_index)
        } else {
            None
        }
    }

    /// The child identifier right of the separator at `index`, if within
    /// the node.
    pub fn child_id(&self, index: usize) -> (r: Option<usize>)
        ensures
            match r {
                Some(id) => index < self.branches_seq().len() && id == self.branches_seq()[
                    index as int
                ].child_id,
                None => index >= self.branches_seq().len(),
            },
    {
        if index < self.branches.len() {
            Some(self.branches[index].child_id)
        } else {
            None
        }
    }

    /// The offset of the branch whose separator is `index`, if any branch
    /// carries it.
    pub fn position_of(&self, index: usize) -> (r: Option<usize>)
        ensures
            match r {
                Some(p) => p < self.branches_seq().len() && self.branches_seq()[
                    p as int
                ].item_index == index,
                None => forall|j: int|
                    0 <= j < self.branches_seq().len() ==> (#[trigger] self.branches_seq()[
                        j
                    ]).item_index != index,
            },
    {
        let n = self.branches.len();
        let mut j: usize = 0;
        while j < n
            invariant
                n == self.branches@.len(),
                j <= n,
                forall|t: int| 0 <= t < j ==> (#[trigger] self.branches@[t]).item_index != index,
            decreases n - j,
        {
            if self.branches[j].item_index == index {
                return Some(j);
            }
            j = j + 1;
        }
        None
    }

    /// Ceiling on the branches the node may carry while being rebuilt; a
    /// node at rest holds at most one fewer.
    pub fn max_capacity(&self) -> (r: usize)
        ensures
            r == M,
    {
        M
    }

    /// Replaces the leftmost child.
    pub fn set_first_child_id(&mut self, id: usize)
        ensures
            final(self).spec_parent() == old(self).spec_parent(),
            final(self).spec_first_child_id() == id,
            final(self).branches_seq() == old(self).branches_seq(),
    {
        self.first_child_id = id;
    }

    /// Appends a branch at the right end of the node.
    pub fn push_right(&mut self, index: usize, child: usize)
        ensures
            final(self).spec_parent() == old(self).spec_parent(),
            final(self).spec_first_child_id() == old(self).spec_first_child_id(),
            final(self).branches_seq() == old(self).branches_seq().push((Branch { item_index: index, child_id: child })),
    {
        self.branches.push(Branch { item_index: index, child_id: child });
    }

    /// Inserts a branch at `offset`, shifting later offsets right.
    pub fn insert(&mut self, offset: usize, index: usize, right_child: usize)
        requires
            offset <= old(self).branches_seq().len(),
        ensures
            final(self).spec_parent() == old(self).spec_parent(),
            final(self).spec_first_child_id() == old(self).spec_first_child_id(),
            final(self).branches_seq() == old(self).branches_seq().insert(
                offset as int,
                (Branch { item_index: index, child_id: right_child }),
            ),
    {
        self.branches.insert(offset, Branch { item_index: index, child_id: right_child });
    }

    /// Removes the branch at `offset` and returns its separator and child
    /// identifiers, shifting later offsets left.
    pub fn remove(&mut self, offset: usize) -> (r: (usize, usize))
        requires
            offset < old(self).branches_seq().len(),
        ensures
            r.0 == old(self).branches_seq()[offset as int].item_index,
            r.1 == old(self).branches_seq()[offset as int].child_id,
            final(self).spec_parent() == old(self).spec_parent(),
            final(self).spec_first_child_id() == old(self).spec_first_child_id(),
            final(self).branches_seq() == old(self).branches_seq().remove(offset as int),
    {
        self.branches.remove(offset).into_pair()
    }

    /// Swaps a new separator identifier into the branch at `offset` and
    /// returns the old one; the child is untouched.
    pub fn replace(&mut self, offset: usize, index: usize) -> (r: usize)
        requires
            offset < old(self).branches_seq().len(),
        ensures
            r == old(self).branches_seq()[offset as int].item_index,
            final(self).spec_parent() == old(self).spec_parent(),
            final(self).spec_first_child_id() == old(self).spec_first_child_id(),
            final(self).branches_seq() == old(self).branches_seq().update(
                offset as int,
                (Branch {
                    item_index: index,
                    child_id: old(self).branches_seq()[offset as int].child_id,
                }),
            ),
    {
        let b = &mut self.branches[offset];
        let mut index = index;
        std::mem::swap(&mut b.item_index, &mut index);
        index
    }

    /// Absorbs a separator and every branch of `other`, in order, at the
    /// right end; `other`'s first child becomes the child right of the
    /// separator.  Returns the offset at which the separator landed.
    pub fn append(&mut self, separator: usize, other: Metadata) -> (offset: usize)
        ensures
            offset == old(self).branches_seq().len(),
            final(self).spec_parent() == old(self).spec_parent(),
            final(self).spec_first_child_id() == old(self).spec_first_child_id(),
            final(self).branches_seq() == old(self).branches_seq().push(
                (Branch { item_index: separator, child_id: other.spec_first_child_id() }),
            ) + other.branches_seq(),
    {
        let offset = self.branches.len();
        let mut other = other;
        self.branches.push(Branch { item_index: separator, child_id: other.first_child_id });
        self.branches.append(&mut other.branches);
        offset
    }
}

} // verus!
