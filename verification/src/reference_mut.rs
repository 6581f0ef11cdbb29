//! Mutable capability of the storage adapter.
//!
//! The exclusive-borrow surface an external B-tree engine drives while it
//! splits, merges and rebalances: moving the root, transferring node
//! metadata into and out of the node store, mutating a node in place, and
//! routing a fresh binding into the item arena.  The store never creates or
//! destroys nodes on its own initiative — only here, at the engine's
//! request.  One engine step may pass through states that break the map's
//! well-formedness; the engine is answerable for restoring `wf` before the
//! map's own operations, which require it, are used again.

use vstd::prelude::*;

use crate::item::Item;
use crate::node::Node;
use crate::IndexMap;

verus! {

impl<K, V> IndexMap<K, V> {
    /// Moves the root to the given node identifier, or clears it.
    pub fn set_root(&mut self, root: Option<usize>)
        ensures
            final(self).spec_root() == root,
            final(self).spec_inner() == old(self).spec_inner(),
            forall|n: int| #[trigger] final(self).node_live(n) <==> old(self).node_live(n),
            forall|n: int|
                old(self).node_live(n) ==> #[trigger] final(self).node_at(n) == old(self).node_at(
                    n,
                ),
            final(self).node_capacity() == old(self).node_capacity(),
    {
        self.root = root;
    }

    /// Accepts the length the engine derived; deliberately a no-op, since
    /// the entry count is the order index's length and nothing need be
    /// stored.  The engine must tolerate this simplification.
    pub fn set_len(&mut self, new_len: usize)
        ensures
            *final(self) == *old(self),
    {
        let _ = new_len;
    }

    /// Transfers detached node metadata into the node store and returns the
    /// fresh identifier behind which it now sits.
    pub fn allocate_node(&mut self, node: Node) -> (id: usize)
        ensures
            id == old(self).node_slot_count(),
            final(self).node_slot_count() == old(self).node_slot_count() + 1,
            final(self).node_live(id as int),
            final(self).node_at(id as int) == node,
            forall|n: int|
                #[trigger] final(self).node_live(n) <==> (old(self).node_live(n) || n == id),
            forall|n: int|
                old(self).node_live(n) ==> #[trigger] final(self).node_at(n) == old(self).node_at(
                    n,
                ),
            final(self).spec_inner() == old(self).spec_inner(),
            final(self).spec_root() == old(self).spec_root(),
    {
        self.nodes.push_back(node)
    }

    /// Removes the node behind `id` from the node store and hands its
    /// metadata back, leaving the slot vacant.  Releasing a vacant or
    /// never-issued identifier is a contract violation, ruled out by the
    /// precondition.
    pub fn release_node(&mut self, id: usize) -> (node: Node)
        requires
            old(self).node_live(id as int),
        ensures
            node == old(self).node_at(id as int),
            final(self).node_slot_count() == old(self).node_slot_count(),
            forall|n: int|
                #[trigger] final(self).node_live(n) <==> (old(self).node_live(n) && n != id),
            forall|n: int|
                old(self).node_live(n) && n != id ==> #[trigger] final(self).node_at(n) == old(self).node_at(n),
            final(self).spec_inner() == old(self).spec_inner(),
            final(self).spec_root() == old(self).spec_root(),
            final(self).node_capacity() == old(self).node_capacity(),
    {
        self.nodes.remove(id)
    }

    /// Mutably borrows the node behind `id` for in-place mutation through
    /// the metadata operations.  Borrowing a vacant or never-issued
    /// identifier is a contract violation, ruled out by the precondition.
    pub fn node_mut(&mut self, id: usize) -> (r: &mut Node)
        requires
            old(self).node_live(id as int),
        ensures
            *r == old(self).node_at(id as int),
            final(self).node_slot_count() == old(self).node_slot_count(),
            forall|n: int| #[trigger] final(self).node_live(n) <==> old(self).node_live(n),
            forall|n: int|
                old(self).node_live(n) && n != id ==> #[trigger] final(self).node_at(n) == old(self).node_at(n),
            final(self).node_at(id as int) == *final(r),
            final(self).spec_inner() == old(self).spec_inner(),
            final(self).spec_root() == old(self).spec_root(),
            final(self).node_capacity() == old(self).node_capacity(),
    {
        self.nodes.get_mut(id)
    }

    /// Routes a fresh binding into the item arena — the engine's path on an
    /// insertion miss — and returns its stable identifier.  The tree is
    /// untouched: attaching the identifier to a leaf is the engine's next
    /// step.
    pub fn allocate_item(&mut self, item: Item<K, V>) -> (index: usize)
        requires
            old(self).spec_inner().wf(),
        ensures
            index == old(self).spec_inner().slot_count(),
            final(self).spec_inner().wf(),
            final(self).view_seq() == old(self).view_seq().push((item.key, item.value)),
            final(self).spec_inner().entry_live(index as int),
            forall|id: int|
                old(self).spec_inner().entry_live(id) ==> #[trigger] final(self).spec_inner().entry_live(id) && final(self).spec_inner().entry_at(id) == old(self).spec_inner().entry_at(id),
            forall|n: int| #[trigger] final(self).node_live(n) <==> old(self).node_live(n),
            forall|n: int|
                old(self).node_live(n) ==> #[trigger] final(self).node_at(n) == old(self).node_at(
                    n,
                ),
            final(self).spec_root() == old(self).spec_root(),
    {
        self.inner.insert(item)
    }
}

} // verus!
