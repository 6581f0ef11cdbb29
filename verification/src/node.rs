//! B-tree node metadata.
//!
//! A node is either a leaf or an internal node; both kinds reference arena
//! entries and other nodes by identifier only, never by owning them.

use vstd::prelude::*;

pub mod internal;
pub mod leaf;

verus! {

/// Relates node metadata before and after the identifier `index` was
/// detached from it: the same kind of node with the same parent, holding
/// the same identifiers in the same order except that every occurrence of
/// `index` — at most one per list when the slots are distinct — is gone.
pub open spec fn detached_node(pre: Node, post: Node, index: usize) -> bool {
    &&& post.spec_is_leaf() == pre.spec_is_leaf()
    &&& post.spec_parent() == pre.spec_parent()
    &&& forall|s: int|
        0 <= s < post.leaf_items().len() ==> (#[trigger] post.leaf_items()[s]) != index
    &&& forall|s: int|
        0 <= s < post.separators().len() ==> (#[trigger] post.separators()[s]) != index
    &&& (post.leaf_items() == pre.leaf_items() || exists|p: int|
        #![trigger pre.leaf_items()[p]]
        {
            &&& 0 <= p < pre.leaf_items().len()
            &&& pre.leaf_items()[p] == index
            &&& post.leaf_items().len() == pre.leaf_items().len() - 1
            &&& (forall|j: int|
                0 <= j < p ==> (#[trigger] post.leaf_items()[j]) == pre.leaf_items()[j])
            &&& (forall|j: int|
                p <= j < post.leaf_items().len() ==> (#[trigger] post.leaf_items()[j])
                    == pre.leaf_items()[j + 1])
        })
    &&& (post.separators() == pre.separators() || exists|p: int|
        #![trigger pre.separators()[p]]
        {
            &&& 0 <= p < pre.separators().len()
            &&& pre.separators()[p] == index
            &&& post.separators().len() == pre.separators().len() - 1
            &&& (forall|j: int|
                0 <= j < p ==> (#[trigger] post.separators()[j]) == pre.separators()[j])
            &&& (forall|j: int|
                p <= j < post.separators().len() ==> (#[trigger] post.separators()[j])
                    == pre.separators()[j + 1])
        })
}

/// Metadata of one B-tree node.
#[derive(Debug)]
pub enum Node {
    Internal(internal::Metadata),
    Leaf(leaf::Metadata),
}

impl Node {
    /// Is this a leaf?
    pub open spec fn spec_is_leaf(&self) -> bool {
        self matches Node::Leaf(_)
    }

    /// The arena identifiers held in leaf slots: the items of a leaf, and
    /// nothing for an internal node.
    pub open spec fn leaf_items(&self) -> Seq<usize> {
        match self {
            Node::Leaf(m) => m.items_seq(),
            Node::Internal(_) => Seq::empty(),
        }
    }

    /// The arena identifiers held as separators: one per branch of an
    /// internal node, and nothing for a leaf.
    pub open spec fn separators(&self) -> Seq<usize> {
        match self {
            Node::Internal(m) => m.branches_seq().map_values(|b: internal::Branch| b.item_index),
            Node::Leaf(_) => Seq::empty(),
        }
    }

    /// The parent node identifier, if any.
    pub open spec fn spec_parent(&self) -> Option<usize> {
        match self {
            Node::Leaf(m) => m.spec_parent(),
            Node::Internal(m) => m.spec_parent(),
        }
    }

    /// Is this a leaf?
    pub fn is_leaf(&self) -> (r: bool)
        ensures
            r == self.spec_is_leaf(),
    {
        match self {
            Node::Leaf(_) => true,
            Node::Internal(_) => false,
        }
    }

    /// Number of entries (leaf) or branches (internal) the node holds.
    pub fn item_count(&self) -> (r: usize)
        ensures
            r == self.leaf_items().len() + self.separators().len(),
    {
        match self {
            Node::Leaf(m) => m.item_count(),
            Node::Internal(m) => m.item_count(),
        }
    }

    /// Removes the occurrence of the entry identifier `index` from the
    /// node's list, if it sits there.  With distinct slots — the storage
    /// invariant — one removal detaches the identifier completely.
    pub fn detach(&mut self, index: usize)
        requires
            forall|s1: int, s2: int|
                0 <= s1 < s2 < old(self).leaf_items().len() ==> (#[trigger] old(
                    self,
                ).leaf_items()[s1]) != (#[trigger] old(self).leaf_items()[s2]),
            forall|s1: int, s2: int|
                0 <= s1 < s2 < old(self).separators().len() ==> (#[trigger] old(
                    self,
                ).separators()[s1]) != (#[trigger] old(self).separators()[s2]),
        ensures
            detached_node(*old(self), *final(self), index),
    {
        match self {
            Node::Leaf(m) => {
                match m.position_of(index) {
                    Some(p) => {
                        let ghost pre_items = m.items_seq();
                        proof {
                            assert(pre_items == old(self).leaf_items());
                        }
                        m.remove(p);
                        proof {
                            assert forall|s: int|
                                0 <= s < m.items_seq().len() implies (#[trigger] m.items_seq()[s])
                                != index by {
                                if s < p {
                                    assert(m.items_seq()[s] == pre_items[s]);
                                    assert(pre_items[s] != pre_items[p as int]);
                                } else {
                                    assert(m.items_seq()[s] == pre_items[s + 1]);
                                    assert(pre_items[p as int] != pre_items[s + 1]);
                                }
                            }
                        }
                    },
                    None => {},
                }
            },
            Node::Internal(m) => {
                match m.position_of(index) {
                    Some(p) => {
                        let ghost pre_branches = m.branches_seq();
                        let ghost pre_seps = old(self).separators();
                        proof {
                            assert(pre_seps.len() == pre_branches.len());
                            assert(forall|j: int|
                                0 <= j < pre_branches.len() ==> (#[trigger] pre_seps[j])
                                    == pre_branches[j].item_index);
                        }
                        m.remove(p);
                        proof {
                            assert(m.branches_seq() == pre_branches.remove(p as int));
                            assert(pre_seps[p as int] == index);
                            assert forall|s: int|
                                0 <= s < m.branches_seq().len() implies (#[trigger] m
                                .branches_seq()[s]).item_index != index by {
                                if s < p {
                                    assert(m.branches_seq()[s] == pre_branches[s]);
                                    assert(pre_seps[s] != pre_seps[p as int]);
                                } else {
                                    assert(m.branches_seq()[s] == pre_branches[s + 1]);
                                    assert(pre_seps[s + 1] != pre_seps[p as int]);
                                }
                            }
                        }
                    },
                    None => {},
                }
            },
        }
    }

    /// The parent node identifier, if any.
    pub fn parent(&self) -> (r: Option<usize>)
        ensures
            r == self.spec_parent(),
    {
        match self {
            Node::Leaf(m) => m.parent(),
            Node::Internal(m) => m.parent(),
        }
    }
}

} // verus!
