//! An in-memory indexed ordered map: a key/value dictionary that keeps the
//! order in which bindings were inserted, offers positional access through
//! that order, and stores the metadata of a B-tree over the same entries for
//! an external tree-traversal engine to navigate.

use vstd::prelude::*;

pub mod arena;
pub mod item;
pub mod node;
pub mod reference;
pub mod reference_mut;
pub mod total_order;

use crate::item::{Item, Ordered};
use crate::node::Node;
use crate::total_order::TotalOrder;
use std::cmp::Ordering;

verus! {

/// Does some binding of `s` carry the key `k`?
pub open spec fn has_key<K, V>(s: Seq<(K, V)>, k: K) -> bool {
    exists|i: int| 0 <= i < s.len() && (#[trigger] s[i]).0 == k
}

/// The position of the binding carrying `k`; meaningful when `has_key`
/// holds and the keys are distinct.
pub open spec fn key_at<K, V>(s: Seq<(K, V)>, k: K) -> int {
    choose|i: int| 0 <= i < s.len() && (#[trigger] s[i]).0 == k
}

/// No two bindings carry the same key.
pub open spec fn distinct_keys<K, V>(s: Seq<(K, V)>) -> bool {
    forall|i: int, j: int|
        0 <= i < j < s.len() ==> (#[trigger] s[i]).0 != (#[trigger] s[j]).0
}

/// What inserting the binding `k -> v` does to the bindings: a collision
/// replaces the value in place, keeping the key and the position; a miss
/// appends at the end.
pub open spec fn spec_insert<K, V>(s: Seq<(K, V)>, k: K, v: V) -> Seq<(K, V)> {
    if has_key(s, k) {
        s.update(key_at(s, k), (s[key_at(s, k)].0, v))
    } else {
        s.push((k, v))
    }
}

/// What swap-removing the key `k` does to the bindings: the last binding
/// moves into the freed position; a miss changes nothing.
pub open spec fn spec_swap_remove<K, V>(s: Seq<(K, V)>, k: K) -> Seq<(K, V)> {
    if has_key(s, k) {
        s.update(key_at(s, k), s.last()).drop_last()
    } else {
        s
    }
}

/// What shift-removing the key `k` does to the bindings: every later
/// binding shifts down one position; a miss changes nothing.
pub open spec fn spec_shift_remove<K, V>(s: Seq<(K, V)>, k: K) -> Seq<(K, V)> {
    if has_key(s, k) {
        s.remove(key_at(s, k))
    } else {
        s
    }
}

/// Knuth order of the B-tree whose metadata the node store holds: a resting
/// node carries at most `M - 1` entries or branches.  At least 4.
pub const M: usize = 8;

/// Quotient of `a` by `b`, rounded towards positive infinity.
pub fn div_ceil(a: usize, b: usize) -> (r: usize)
    requires
        b > 0,
    ensures
        r == a / b + (if a % b > 0 {
            1int
        } else {
            0int
        }),
{
    let d = a / b;
    let r = a % b;
    if r > 0 {
        proof {
            vstd::arithmetic::div_mod::lemma_fundamental_div_mod(a as int, b as int);
            assert(d < usize::MAX) by (nonlinear_arith)
                requires
                    b > 0,
                    r > 0,
                    a == b * d + r,
                    a <= usize::MAX,
            ;
        }
        d + 1
    } else {
        d
    }
}

/// The item arena and the order index, kept in lock-step: `vec` maps every
/// insertion-order position to the arena identifier of the entry holding
/// that position, and every live entry's `order` field points back at its
/// position.
#[derive(Debug)]
pub struct Inner<K, V> {
    /// Arena owning the live entries.
    items: arena::Arena<Ordered<K, V>>,
    /// The order index: position -> arena identifier.
    vec: Vec<usize>,
}

impl<K, V> Inner<K, V> {
    /// The order index as a sequence of arena identifiers.
    pub closed spec fn order_seq(&self) -> Seq<usize> {
        self.vec@
    }

    /// Number of live entries.
    pub open spec fn spec_len(&self) -> nat {
        self.order_seq().len()
    }

    /// Does `id` refer to a live entry?
    pub closed spec fn entry_live(&self, id: int) -> bool {
        self.items.is_live(id)
    }

    /// The live entry behind `id`.
    pub closed spec fn entry_at(&self, id: int) -> Ordered<K, V>
        recommends
            self.entry_live(id),
    {
        self.items.value_at(id)
    }

    /// Number of arena identifiers handed out so far.
    pub closed spec fn slot_count(&self) -> nat {
        self.items.slot_count()
    }

    /// Declared capacity of the item arena.
    pub closed spec fn spec_capacity(&self) -> usize {
        self.items.spec_capacity()
    }

    /// The bindings in insertion order.
    pub open spec fn view_seq(&self) -> Seq<(K, V)> {
        Seq::new(
            self.spec_len(),
            |i: int|
                {
                    let e = self.entry_at(self.order_seq()[i] as int);
                    (e.key, e.value)
                },
        )
    }

    /// Well-formedness: the order index holds live identifiers whose entries
    /// point back at their positions, and every live entry is reachable that
    /// way — the two structures are mutual inverses.
    pub open spec fn wf(&self) -> bool {
        &&& forall|i: int|
            0 <= i < self.spec_len() ==> {
                let id = #[trigger] self.order_seq()[i];
                &&& self.entry_live(id as int)
                &&& self.entry_at(id as int).order == i
            }
        &&& forall|id: int|
            #[trigger] self.entry_live(id) ==> {
                let o = self.entry_at(id).order as int;
                &&& 0 <= o < self.spec_len()
                &&& self.order_seq()[o] == id
            }
    }

    /// Creates an empty store.
    pub fn new() -> (r: Self)
        ensures
            r.wf(),
            r.order_seq() == Seq::<usize>::empty(),
            r.slot_count() == 0,
            r.spec_capacity() == 0,
    {
        Inner { items: arena::Arena::new(), vec: Vec::new() }
    }

    /// Creates an empty store prepared for `capacity` entries.
    pub fn with_capacity(capacity: usize) -> (r: Self)
        ensures
            r.wf(),
            r.order_seq() == Seq::<usize>::empty(),
            r.slot_count() == 0,
            r.spec_capacity() == capacity,
    {
        Inner { items: arena::Arena::with_capacity(capacity), vec: Vec::with_capacity(capacity) }
    }

    /// How many entries the store is prepared for.
    pub fn capacity(&self) -> (c: usize)
        ensures
            c == self.spec_capacity(),
    {
        self.items.capacity()
    }

    /// Appends `item` as the new highest order position and returns its
    /// fresh arena identifier.
    pub fn insert(&mut self, item: Item<K, V>) -> (index: usize)
        requires
            old(self).wf(),
        ensures
            final(self).wf(),
            index == old(self).slot_count(),
            final(self).slot_count() == old(self).slot_count() + 1,
            final(self).order_seq() == old(self).order_seq().push(index),
            final(self).view_seq() == old(self).view_seq().push((item.key, item.value)),
            forall|id: int|
                old(self).entry_live(id) ==> #[trigger] final(self).entry_live(id) && final(self).entry_at(id) == old(self).entry_at(id),
            forall|id: int|
                #[trigger] final(self).entry_live(id) <==> (old(self).entry_live(id) || id
                    == index),
            final(self).entry_at(index as int).key == item.key,
            final(self).entry_at(index as int).value == item.value,
            final(self).spec_capacity() >= old(self).spec_capacity(),
    {
        let order = self.vec.len();
        let index = self.items.push_back(item.order(order));
        self.vec.push(index);
        proof {
            assert forall|i: int| 0 <= i < self.spec_len() implies {
                let id = #[trigger] self.order_seq()[i];
                &&& self.entry_live(id as int)
                &&& self.entry_at(id as int).order == i
            } by {
                let id = self.order_seq()[i];
                if i < old(self).spec_len() {
                    assert(id == old(self).order_seq()[i]);
                    assert(old(self).entry_live(id as int));
                }
            }
            assert forall|id: int| #[trigger] self.entry_live(id) implies {
                let o = self.entry_at(id).order as int;
                &&& 0 <= o < self.spec_len()
                &&& self.order_seq()[o] == id
            } by {
                if id != index {
                    assert(old(self).entry_live(id));
                    let o = old(self).entry_at(id).order as int;
                    assert(old(self).order_seq()[o] == id);
                    assert(self.order_seq()[o] == id);
                }
            }
            assert(self.view_seq() =~= old(self).view_seq().push((item.key, item.value)));
        }
        index
    }

    /// Removes the entry behind `index`.  The identifier at the last order
    /// position is swapped into the freed position and that entry's `order`
    /// field is rewritten; the relative order of the remaining entries is
    /// not preserved.  Passing a dead identifier is a contract violation,
    /// ruled out by the precondition.
    pub fn swap_remove(&mut self, index: usize) -> (r: Item<K, V>)
        requires
            old(self).wf(),
            old(self).entry_live(index as int),
        ensures
            final(self).wf(),
            ({
                let ord = old(self).entry_at(index as int).order as int;
                &&& r.key == old(self).entry_at(index as int).key
                &&& r.value == old(self).entry_at(index as int).value
                &&& final(self).order_seq() == old(self).order_seq().update(
                    ord,
                    old(self).order_seq().last(),
                ).drop_last()
                &&& final(self).view_seq() == old(self).view_seq().update(
                    ord,
                    old(self).view_seq().last(),
                ).drop_last()
            }),
            forall|id: int|
                #[trigger] final(self).entry_live(id) <==> (old(self).entry_live(id) && id
                    != index),
            forall|id: int|
                final(self).entry_live(id) ==> #[trigger] final(self).entry_at(id).key == old(self).entry_at(id).key && final(self).entry_at(id).value == old(self).entry_at(id).value,
            final(self).slot_count() == old(self).slot_count(),
            final(self).spec_capacity() == old(self).spec_capacity(),
    {
        let item = self.items.remove(index);
        let ord = item.order;
        self.vec.swap_remove(ord);
        if ord < self.vec.len() {
            let moved = self.vec[ord];
            proof {
                assert(old(self).order_seq()[ord as int] == index);
                assert(moved == old(self).order_seq().last());
                assert(old(self).entry_live(moved as int));
                assert(moved != index) by {
                    if moved == index {
                        assert(old(self).entry_at(index as int).order == old(self).spec_len()
                            - 1);
                    }
                }
            }
            let m = self.items.get_mut(moved);
            m.order = ord;
        }
        proof {
            lemma_swap_remove_wf(*old(self), *self, index);
        }
        item.unordered()
    }

    /// Removes the entry behind `index` and shifts every later order
    /// position down by one, rewriting the `order` field of each shifted
    /// entry; the relative order of the remaining entries is preserved.
    /// Passing a dead identifier is a contract violation, ruled out by the
    /// precondition.
    pub fn shift_remove(&mut self, index: usize) -> (r: Item<K, V>)
        requires
            old(self).wf(),
            old(self).entry_live(index as int),
        ensures
            final(self).wf(),
            ({
                let ord = old(self).entry_at(index as int).order as int;
                &&& r.key == old(self).entry_at(index as int).key
                &&& r.value == old(self).entry_at(index as int).value
                &&& final(self).order_seq() == old(self).order_seq().remove(ord)
                &&& final(self).view_seq() == old(self).view_seq().remove(ord)
            }),
            forall|id: int|
                #[trigger] final(self).entry_live(id) <==> (old(self).entry_live(id) && id
                    != index),
            forall|id: int|
                final(self).entry_live(id) ==> #[trigger] final(self).entry_at(id).key == old(self).entry_at(id).key && final(self).entry_at(id).value == old(self).entry_at(id).value,
            final(self).slot_count() == old(self).slot_count(),
            final(self).spec_capacity() == old(self).spec_capacity(),
    {
        let item = self.items.remove(index);
        let ord = item.order;
        self.vec.remove(ord);
        proof {
            assert(old(self).order_seq()[ord as int] == index);
            assert forall|id: int| self.items.is_live(id) implies old(self).entry_live(id) && id
                != index && #[trigger] self.items.value_at(id) == old(self).entry_at(id)
                && old(self).entry_at(id).order != ord by {
                assert(old(self).entry_live(id));
                assert(old(self).order_seq()[old(self).entry_at(id).order as int] == id);
            }
        }
        let mut i = ord;
        while i < self.vec.len()
            invariant
                old(self).wf(),
                old(self).entry_live(index as int),
                ord == old(self).entry_at(index as int).order,
                ord <= i <= self.vec@.len(),
                self.vec@ == old(self).order_seq().remove(ord as int),
                self.items.slot_count() == old(self).slot_count(),
                self.items.spec_capacity() == old(self).spec_capacity(),
                forall|id: int|
                    #[trigger] self.items.is_live(id) <==> (old(self).entry_live(id) && id
                        != index),
                forall|id: int|
                    self.items.is_live(id) ==> #[trigger] self.items.value_at(id).key == old(self).entry_at(id).key && self.items.value_at(id).value == old(self).entry_at(id).value,
                forall|id: int|
                    self.items.is_live(id) ==> #[trigger] self.items.value_at(id).order == ({
                        let o = old(self).entry_at(id).order;
                        if o < ord {
                            o as int
                        } else if o - 1 < i {
                            o - 1
                        } else {
                            o as int
                        }
                    }),
            decreases self.vec@.len() - i,
        {
            let moved = self.vec[i];
            proof {
                assert(moved == old(self).order_seq()[i + 1]);
                assert(old(self).entry_live(moved as int));
                assert(moved != index) by {
                    if moved == index {
                        assert(old(self).entry_at(index as int).order == i + 1);
                    }
                }
                assert(old(self).entry_at(moved as int).order == i + 1);
                assert(self.items.is_live(moved as int));
            }
            let ghost snap = *self;
            let m = self.items.get_mut(moved);
            m.order = i;
            proof {
                assert forall|id: int| #[trigger] self.items.is_live(id) implies (old(self).entry_live(id) && id != index) by {
                    assert(snap.items.is_live(id));
                }
                assert forall|id: int| old(self).entry_live(id) && id != index implies #[trigger] self.items.is_live(id) by {
                    assert(snap.items.is_live(id));
                }
                assert forall|id: int| self.items.is_live(id) && id != moved implies #[trigger] self.items.value_at(id) == snap.items.value_at(id) by {}
                assert(self.items.value_at(moved as int).key == snap.items.value_at(
                    moved as int,
                ).key);
                assert(self.items.value_at(moved as int).value == snap.items.value_at(
                    moved as int,
                ).value);
                assert(self.items.value_at(moved as int).order == i);
                assert forall|id: int|
                    self.items.is_live(id) && id != moved implies old(self).entry_at(id).order != i
                    + 1 by {
                    if old(self).entry_at(id).order == i + 1 {
                        assert(old(self).order_seq()[i + 1] == id);
                        assert(old(self).order_seq()[i + 1] == moved);
                    }
                }
            }
            i = i + 1;
        }
        proof {
            lemma_shift_remove_wf(*old(self), *self, index);
        }
        item.unordered()
    }
}

/// The order index and the `order` fields stay mutual inverses across a
/// swap-removal.
proof fn lemma_swap_remove_wf<K, V>(pre: Inner<K, V>, post: Inner<K, V>, index: usize)
    requires
        pre.wf(),
        pre.entry_live(index as int),
        ({
            let ord = pre.entry_at(index as int).order as int;
            &&& post.order_seq() == pre.order_seq().update(ord, pre.order_seq().last()).drop_last()
            &&& post.slot_count() == pre.slot_count()
            &&& forall|id: int|
                #[trigger] post.entry_live(id) <==> (pre.entry_live(id) && id != index)
            &&& forall|id: int|
                post.entry_live(id) ==> #[trigger] post.entry_at(id) == if ord
                    < pre.spec_len() - 1 && id == pre.order_seq().last() {
                    Ordered { order: ord as usize, ..pre.entry_at(id) }
                } else {
                    pre.entry_at(id)
                }
        }),
    ensures
        post.wf(),
        ({
            let ord = pre.entry_at(index as int).order as int;
            post.view_seq() == pre.view_seq().update(ord, pre.view_seq().last()).drop_last()
        }),
{
    let ord = pre.entry_at(index as int).order as int;
    assert(pre.order_seq()[ord] == index);
    assert forall|i: int| 0 <= i < post.spec_len() implies {
        let id = #[trigger] post.order_seq()[i];
        &&& post.entry_live(id as int)
        &&& post.entry_at(id as int).order == i
    } by {
        let id = post.order_seq()[i];
        if i == ord {
            assert(id == pre.order_seq().last());
        } else {
            assert(id == pre.order_seq()[i]);
            assert(pre.entry_at(id as int).order == i);
            if id == pre.order_seq().last() {
                assert(pre.entry_at(id as int).order == pre.spec_len() - 1);
            }
        }
    }
    assert forall|id: int| #[trigger] post.entry_live(id) implies {
        let o = post.entry_at(id).order as int;
        &&& 0 <= o < post.spec_len()
        &&& post.order_seq()[o] == id
    } by {
        let o_pre = pre.entry_at(id).order as int;
        assert(pre.order_seq()[o_pre] == id);
        if ord < pre.spec_len() - 1 && id == pre.order_seq().last() {
            assert(post.order_seq()[ord] == id);
        } else {
            assert(o_pre != ord);
            assert(o_pre != pre.spec_len() - 1);
        }
    }
    assert(post.view_seq() =~= pre.view_seq().update(ord, pre.view_seq().last()).drop_last());
}

/// The order index and the `order` fields stay mutual inverses across a
/// shift-removal.
proof fn lemma_shift_remove_wf<K, V>(pre: Inner<K, V>, post: Inner<K, V>, index: usize)
    requires
        pre.wf(),
        pre.entry_live(index as int),
        ({
            let ord = pre.entry_at(index as int).order as int;
            &&& post.order_seq() == pre.order_seq().remove(ord)
            &&& post.slot_count() == pre.slot_count()
            &&& forall|id: int|
                #[trigger] post.entry_live(id) <==> (pre.entry_live(id) && id != index)
            &&& forall|id: int|
                post.entry_live(id) ==> #[trigger] post.entry_at(id).key == pre.entry_at(id).key
                    && post.entry_at(id).value == pre.entry_at(id).value
            &&& forall|id: int|
                post.entry_live(id) ==> #[trigger] post.entry_at(id).order == ({
                    let o = pre.entry_at(id).order;
                    if o < ord {
                        o as int
                    } else {
                        o - 1
                    }
                })
        }),
    ensures
        post.wf(),
        ({
            let ord = pre.entry_at(index as int).order as int;
            post.view_seq() == pre.view_seq().remove(ord)
        }),
{
    let ord = pre.entry_at(index as int).order as int;
    assert(pre.order_seq()[ord] == index);
    assert forall|i: int| 0 <= i < post.spec_len() implies {
        let id = #[trigger] post.order_seq()[i];
        &&& post.entry_live(id as int)
        &&& post.entry_at(id as int).order == i
    } by {
        let id = post.order_seq()[i];
        if i < ord {
            assert(id == pre.order_seq()[i]);
        } else {
            assert(id == pre.order_seq()[i + 1]);
        }
    }
    assert forall|id: int| #[trigger] post.entry_live(id) implies {
        let o = post.entry_at(id).order as int;
        &&& 0 <= o < post.spec_len()
        &&& post.order_seq()[o] == id
    } by {
        let o_pre = pre.entry_at(id).order as int;
        assert(pre.order_seq()[o_pre] == id);
        assert(o_pre != ord);
        if o_pre < ord {
            assert(post.order_seq()[o_pre] == pre.order_seq()[o_pre]);
        } else {
            assert(post.order_seq()[o_pre - 1] == pre.order_seq()[o_pre]);
        }
    }
    assert(post.view_seq() =~= pre.view_seq().remove(ord));
}

/// Relates two map states that differ only in the value of the binding at
/// order position `i`: same order index, same node store, same root, same
/// entry identifiers, keys and positions.
pub open spec fn value_replaced_at<K, V>(pre: IndexMap<K, V>, post: IndexMap<K, V>, i: int) -> bool {
    &&& 0 <= i < pre.view_seq().len()
    &&& post.spec_root() == pre.spec_root()
    &&& post.node_capacity() == pre.node_capacity()
    &&& forall|n: int| #[trigger] post.node_live(n) <==> pre.node_live(n)
    &&& forall|n: int| pre.node_live(n) ==> #[trigger] post.node_at(n) == pre.node_at(n)
    &&& post.spec_inner().order_seq() == pre.spec_inner().order_seq()
    &&& forall|id: int|
        #[trigger] post.spec_inner().entry_live(id) <==> pre.spec_inner().entry_live(id)
    &&& forall|id: int|
        pre.spec_inner().entry_live(id) && id != pre.spec_inner().order_seq()[i]
            ==> #[trigger] post.spec_inner().entry_at(id) == pre.spec_inner().entry_at(id)
    &&& ({
        let idx = pre.spec_inner().order_seq()[i] as int;
        &&& post.spec_inner().entry_at(idx).key == pre.spec_inner().entry_at(idx).key
        &&& post.spec_inner().entry_at(idx).order == pre.spec_inner().entry_at(idx).order
    })
    &&& post.spec_inner().slot_count() == pre.spec_inner().slot_count()
    &&& post.spec_inner().spec_capacity() == pre.spec_inner().spec_capacity()
}

/// Replacing one binding's value in place preserves well-formedness and
/// rewrites exactly that position of the binding sequence.
pub proof fn lemma_value_replaced_wf<K, V>(pre: IndexMap<K, V>, post: IndexMap<K, V>, i: int)
    requires
        pre.wf(),
        value_replaced_at(pre, post, i),
    ensures
        post.wf(),
        post.view_seq() == pre.view_seq().update(
            i,
            (pre.view_seq()[i].0, post.view_seq()[i].1),
        ),
{
    let pi = pre.spec_inner();
    let qi = post.spec_inner();
    let idx = pi.order_seq()[i] as int;
    assert(pi.wf());
    assert forall|j: int| 0 <= j < qi.spec_len() implies {
        let id = #[trigger] qi.order_seq()[j];
        &&& qi.entry_live(id as int)
        &&& qi.entry_at(id as int).order == j
    } by {
        let id = qi.order_seq()[j];
        assert(pi.entry_live(id as int));
        assert(pi.entry_at(id as int).order == j);
        if id as int != idx {
            assert(qi.entry_at(id as int) == pi.entry_at(id as int));
        }
    }
    assert forall|id: int| #[trigger] qi.entry_live(id) implies {
        let o = qi.entry_at(id).order as int;
        &&& 0 <= o < qi.spec_len()
        &&& qi.order_seq()[o] == id
    } by {
        assert(pi.entry_live(id));
        if id != idx {
            assert(qi.entry_at(id) == pi.entry_at(id));
        }
    }
    assert(qi.wf());
    assert(post.view_seq() =~= pre.view_seq().update(
        i,
        (pre.view_seq()[i].0, post.view_seq()[i].1),
    ));
    assert(distinct_keys(post.view_seq()));
    lemma_tree_wf_preserved(pre, post);
}

/// The ambient form of [`lemma_value_replaced_wf`], keyed on the relation
/// itself, so that contracts handing back a borrowed value can promise
/// well-formedness outright.
broadcast proof fn lemma_value_replaced_wf_ambient<K, V>(
    pre: IndexMap<K, V>,
    post: IndexMap<K, V>,
    i: int,
)
    requires
        pre.wf(),
        #[trigger] value_replaced_at(pre, post, i),
    ensures
        post.wf(),
        post.view_seq() == pre.view_seq().update(i, (pre.view_seq()[i].0, post.view_seq()[i].1)),
{
    lemma_value_replaced_wf(pre, post, i);
}

/// Tree well-formedness carries over to a state with the same node store,
/// the same root, no fewer live entries, and the same emptiness.
proof fn lemma_tree_wf_preserved<K, V>(pre: IndexMap<K, V>, post: IndexMap<K, V>)
    requires
        pre.tree_wf(),
        post.spec_root() == pre.spec_root(),
        forall|n: int| #[trigger] post.node_live(n) <==> pre.node_live(n),
        forall|n: int| pre.node_live(n) ==> #[trigger] post.node_at(n) == pre.node_at(n),
        forall|id: int|
            pre.spec_inner().entry_live(id) ==> #[trigger] post.spec_inner().entry_live(id),
        (post.spec_inner().spec_len() == 0) == (pre.spec_inner().spec_len() == 0),
    ensures
        post.tree_wf(),
{
    assert forall|n: int, s: int|
        post.node_live(n) && 0 <= s < post.node_at(n).leaf_items().len() implies post.spec_inner()
        .entry_live((#[trigger] post.node_at(n).leaf_items()[s]) as int) by {
        assert(pre.node_live(n));
        assert(post.node_at(n) == pre.node_at(n));
        assert(pre.spec_inner().entry_live((pre.node_at(n).leaf_items()[s]) as int));
    }
    assert forall|n: int, s: int|
        post.node_live(n) && 0 <= s < post.node_at(n).separators().len() implies post.spec_inner()
        .entry_live((#[trigger] post.node_at(n).separators()[s]) as int) by {
        assert(pre.node_live(n));
        assert(post.node_at(n) == pre.node_at(n));
        assert(pre.spec_inner().entry_live((pre.node_at(n).separators()[s]) as int));
    }
    assert forall|n: int| #[trigger] post.node_live(n) implies post.node_at(n).leaf_items().len()
        <= M - 1 && post.node_at(n).separators().len() <= M - 1 by {
        assert(pre.node_live(n));
        assert(post.node_at(n) == pre.node_at(n));
    }
    assert forall|n1: int, s1: int, n2: int, s2: int|
        post.node_live(n1) && post.node_live(n2) && 0 <= s1 < post.node_at(
            n1,
        ).leaf_items().len() && 0 <= s2 < post.node_at(n2).leaf_items().len() && (n1 != n2 || s1
            != s2) implies (#[trigger] post.node_at(n1).leaf_items()[s1]) != (#[trigger] post
        .node_at(n2).leaf_items()[s2]) by {
        assert(pre.node_live(n1) && pre.node_live(n2));
        assert(post.node_at(n1) == pre.node_at(n1) && post.node_at(n2) == pre.node_at(n2));
        assert((pre.node_at(n1).leaf_items()[s1]) != (pre.node_at(n2).leaf_items()[s2]));
    }
    assert forall|n1: int, s1: int, n2: int, s2: int|
        post.node_live(n1) && post.node_live(n2) && 0 <= s1 < post.node_at(
            n1,
        ).separators().len() && 0 <= s2 < post.node_at(n2).separators().len() && (n1 != n2 || s1
            != s2) implies (#[trigger] post.node_at(n1).separators()[s1]) != (#[trigger] post
        .node_at(n2).separators()[s2]) by {
        assert(pre.node_live(n1) && pre.node_live(n2));
        assert(post.node_at(n1) == pre.node_at(n1) && post.node_at(n2) == pre.node_at(n2));
        assert((pre.node_at(n1).separators()[s1]) != (pre.node_at(n2).separators()[s2]));
    }
}

impl<K, V> Default for IndexMap<K, V> {
    /// The empty map.
    fn default() -> (r: Self)
        ensures
            r.wf(),
            r.view_seq() == Seq::<(K, V)>::empty(),
            r.spec_capacity() == 0,
    {
        IndexMap::new()
    }
}

/// An iterator over the bindings of an [`IndexMap`], in insertion order.
/// It borrows the map and is stepped explicitly with [`Iter::next`].
pub struct Iter<'a, K, V> {
    /// The entry store iterated over.
    inner: &'a Inner<K, V>,
    /// Next order position to visit.
    pos: usize,
}

impl<'a, K, V> Iter<'a, K, V> {
    /// The bindings being iterated over.
    pub closed spec fn spec_bindings(&self) -> Seq<(K, V)> {
        self.inner.view_seq()
    }

    /// The next order position to visit.
    pub closed spec fn spec_pos(&self) -> int {
        self.pos as int
    }

    /// Is the iterator in a state its contract speaks of?
    pub closed spec fn wf(&self) -> bool {
        self.inner.wf() && 0 <= self.spec_pos() <= self.spec_bindings().len()
    }

    /// The binding at the current position, or nothing once every binding
    /// was visited; advances the iterator.
    pub fn next(&mut self) -> (r: Option<(&'a K, &'a V)>)
        requires
            old(self).wf(),
        ensures
            final(self).wf(),
            final(self).spec_bindings() == old(self).spec_bindings(),
            match r {
                Some(p) => {
                    &&& old(self).spec_pos() < old(self).spec_bindings().len()
                    &&& *p.0 == old(self).spec_bindings()[old(self).spec_pos()].0
                    &&& *p.1 == old(self).spec_bindings()[old(self).spec_pos()].1
                    &&& final(self).spec_pos() == old(self).spec_pos() + 1
                },
                None => {
                    &&& old(self).spec_pos() == old(self).spec_bindings().len()
                    &&& final(self).spec_pos() == old(self).spec_pos()
                },
            },
    {
        if self.pos < self.inner.vec.len() {
            let i = self.pos;
            let idx = self.inner.vec[i];
            proof {
                assert(self.inner.entry_live(idx as int));
            }
            let e = self.inner.items.borrow(idx);
            proof {
                assert(self.inner.view_seq()[i as int] == (e.key, e.value));
            }
            self.pos = i + 1;
            Some((&e.key, &e.value))
        } else {
            None
        }
    }

    /// How many bindings are left to visit.
    pub fn remaining(&self) -> (n: usize)
        requires
            self.wf(),
        ensures
            n == self.spec_bindings().len() - self.spec_pos(),
    {
        self.inner.vec.len() - self.pos
    }
}

/// Round-trip law: after inserting `k -> v` into bindings with distinct
/// keys, some binding carries `k`, the binding at the position reported for
/// `k` is exactly `(k, v)`, and the keys stay distinct.  A collision keeps
/// both the length and the position of the key; a miss appends at the end.
pub proof fn lemma_insert_round_trip<K, V>(s: Seq<(K, V)>, k: K, v: V)
    requires
        distinct_keys(s),
    ensures
        has_key(spec_insert(s, k, v), k),
        distinct_keys(spec_insert(s, k, v)),
        spec_insert(s, k, v)[key_at(spec_insert(s, k, v), k)] == (k, v),
        has_key(s, k) ==> key_at(spec_insert(s, k, v), k) == key_at(s, k) && spec_insert(
            s,
            k,
            v,
        ).len() == s.len(),
        !has_key(s, k) ==> key_at(spec_insert(s, k, v), k) == s.len() && spec_insert(
            s,
            k,
            v,
        ).len() == s.len() + 1,
{
    let s2 = spec_insert(s, k, v);
    if has_key(s, k) {
        let i = key_at(s, k);
        assert(0 <= i < s.len() && s[i].0 == k);
        assert forall|a: int, b: int| 0 <= a < b < s2.len() implies (#[trigger] s2[a]).0 != (
        #[trigger] s2[b]).0 by {
            assert(s2[a].0 == s[a].0 && s2[b].0 == s[b].0);
        }
        assert(s2[i].0 == k);
        assert(has_key(s2, k));
        let j = key_at(s2, k);
        assert(0 <= j < s2.len() && s2[j].0 == k);
        if j != i {
            if j < i {
                assert(s2[j].0 != s2[i].0);
            } else {
                assert(s2[i].0 != s2[j].0);
            }
        }
        assert(s2[i] == (s[i].0, v));
    } else {
        assert forall|a: int| 0 <= a < s.len() implies (#[trigger] s[a]).0 != k by {}
        assert(s2[s.len() as int] == (k, v));
        assert(has_key(s2, k));
        assert forall|a: int, b: int| 0 <= a < b < s2.len() implies (#[trigger] s2[a]).0 != (
        #[trigger] s2[b]).0 by {
            if b < s.len() {
                assert(s2[a].0 == s[a].0 && s2[b].0 == s[b].0);
            } else {
                assert(s2[a].0 == s[a].0 && s2[b] == (k, v));
            }
        }
        let j = key_at(s2, k);
        assert(0 <= j < s2.len() && s2[j].0 == k);
        if j < s.len() {
            assert(s2[j].0 == s[j].0);
        }
    }
}

/// Order-invariant law: in a well-formed map, the order index and the
/// entries' `order` fields are mutual inverses.  Following position `i` to
/// its entry and that entry's order back yields `i`; following a live
/// entry's order to the order index and back yields the entry.
pub proof fn lemma_order_index_inverse<K, V>(m: IndexMap<K, V>, i: int, id: int)
    requires
        m.wf(),
    ensures
        0 <= i < m.spec_inner().spec_len() ==> ({
            let idx = m.spec_inner().order_seq()[i];
            &&& m.spec_inner().entry_live(idx as int)
            &&& m.spec_inner().entry_at(idx as int).order == i
        }),
        m.spec_inner().entry_live(id) ==> ({
            let o = m.spec_inner().entry_at(id).order as int;
            &&& 0 <= o < m.spec_inner().spec_len()
            &&& m.spec_inner().order_seq()[o] == id
        }),
{
}

/// Order-preservation law of shift-removal: every binding before the
/// removed position keeps its position, every later binding moves down
/// exactly one, so the relative order of the remaining bindings is
/// unchanged; and the removed key is gone.
pub proof fn lemma_shift_remove_preserves_order<K, V>(s: Seq<(K, V)>, k: K)
    requires
        distinct_keys(s),
        has_key(s, k),
    ensures
        spec_shift_remove(s, k).len() == s.len() - 1,
        forall|j: int|
            0 <= j < key_at(s, k) ==> (#[trigger] spec_shift_remove(s, k)[j]) == s[j],
        forall|j: int|
            key_at(s, k) <= j < s.len() - 1 ==> (#[trigger] spec_shift_remove(s, k)[j]) == s[j
                + 1],
        !has_key(spec_shift_remove(s, k), k),
{
    let i = key_at(s, k);
    assert(0 <= i < s.len() && s[i].0 == k);
    let s2 = spec_shift_remove(s, k);
    assert forall|j: int| 0 <= j < s2.len() implies (#[trigger] s2[j]).0 != k by {
        if j < i {
            assert(s2[j] == s[j]);
            assert(s[j].0 != s[i].0);
        } else {
            assert(s2[j] == s[j + 1]);
            assert(s[i].0 != s[j + 1].0);
        }
    }
}

/// Idempotent-miss law: removing an absent key, in either mode, leaves the
/// bindings untouched.
pub proof fn lemma_remove_absent<K, V>(s: Seq<(K, V)>, k: K)
    requires
        !has_key(s, k),
    ensures
        spec_swap_remove(s, k) == s,
        spec_shift_remove(s, k) == s,
{
}

/// Removing the binding at position `i` — by shift or by swapping the last
/// binding in — keeps the keys distinct.
proof fn lemma_removal_distinct<K, V>(pre_s: Seq<(K, V)>, post_s: Seq<(K, V)>, i: int, k: K)
    requires
        distinct_keys(pre_s),
        0 <= i < pre_s.len(),
        post_s == pre_s.update(i, pre_s.last()).drop_last() || post_s == pre_s.remove(i),
    ensures
        distinct_keys(post_s),
{
    assert forall|x: int, y: int| 0 <= x < pre_s.len() && 0 <= y < pre_s.len() && x
        != y implies (#[trigger] pre_s[x]).0 != (#[trigger] pre_s[y]).0 by {
        if x < y {
            assert(pre_s[x].0 != pre_s[y].0);
        } else {
            assert(pre_s[y].0 != pre_s[x].0);
        }
    }
    if post_s == pre_s.update(i, pre_s.last()).drop_last() {
        assert forall|a: int, b: int| 0 <= a < b < post_s.len() implies (#[trigger] post_s[a]).0
            != (#[trigger] post_s[b]).0 by {
            let ap: int = if a == i {
                pre_s.len() - 1
            } else {
                a
            };
            let bp: int = if b == i {
                pre_s.len() - 1
            } else {
                b
            };
            assert(post_s[a] == pre_s[ap]);
            assert(post_s[b] == pre_s[bp]);
            assert(ap != bp);
        }
    } else {
        assert forall|a: int, b: int| 0 <= a < b < post_s.len() implies (#[trigger] post_s[a]).0
            != (#[trigger] post_s[b]).0 by {
            let ap: int = if a < i {
                a
            } else {
                a + 1
            };
            let bp: int = if b < i {
                b
            } else {
                b + 1
            };
            assert(post_s[a] == pre_s[ap]);
            assert(post_s[b] == pre_s[bp]);
        }
    }
}

/// After an entry was detached from every node and removed from the arena,
/// and the root cleared if the map emptied, the tree metadata is well
/// formed again.
proof fn lemma_removal_tree_wf<K, V>(
    pre: IndexMap<K, V>,
    mid: IndexMap<K, V>,
    post: IndexMap<K, V>,
    idx: usize,
)
    requires
        pre.wf(),
        pre.spec_inner().entry_live(idx as int),
        mid.spec_inner() == pre.spec_inner(),
        mid.spec_root() == pre.spec_root(),
        forall|n: int| #[trigger] mid.node_live(n) <==> pre.node_live(n),
        forall|n: int|
            mid.node_live(n) ==> node::detached_node(
                pre.node_at(n),
                #[trigger] mid.node_at(n),
                idx,
            ),
        forall|n: int| #[trigger] post.node_live(n) <==> mid.node_live(n),
        forall|n: int| mid.node_live(n) ==> #[trigger] post.node_at(n) == mid.node_at(n),
        forall|id: int|
            #[trigger] post.spec_inner().entry_live(id) <==> (pre.spec_inner().entry_live(id)
                && id != idx),
        post.spec_inner().spec_len() == pre.spec_inner().spec_len() - 1,
        post.spec_root() == if post.spec_inner().spec_len() == 0 {
            None::<usize>
        } else {
            pre.spec_root()
        },
    ensures
        post.tree_wf(),
{
    if post.spec_inner().spec_len() > 0 {
        assert(pre.spec_inner().spec_len() > 0);
        assert(pre.spec_root() is Some);
        let r = pre.spec_root().unwrap() as int;
        assert(pre.node_live(r));
        assert(post.node_live(r));
    }
    assert forall|n: int| #[trigger] post.node_live(n) implies post.node_at(
        n,
    ).leaf_items().len() <= M - 1 && post.node_at(n).separators().len() <= M - 1 by {
        assert(pre.node_live(n));
        assert(node::detached_node(pre.node_at(n), post.node_at(n), idx));
    }
    assert forall|n: int, s: int|
        post.node_live(n) && 0 <= s < post.node_at(n).leaf_items().len() implies post.spec_inner()
        .entry_live((#[trigger] post.node_at(n).leaf_items()[s]) as int) by {
        assert(pre.node_live(n));
        let pl = pre.node_at(n).leaf_items();
        let ql = post.node_at(n).leaf_items();
        assert(node::detached_node(pre.node_at(n), post.node_at(n), idx));
        let sp: int = if ql == pl {
            s
        } else {
            let p = choose|p: int|
                #![trigger pl[p]]
                {
                    &&& 0 <= p < pl.len()
                    &&& pl[p] == idx
                    &&& ql.len() == pl.len() - 1
                    &&& (forall|j: int| 0 <= j < p ==> (#[trigger] ql[j]) == pl[j])
                    &&& (forall|j: int| p <= j < ql.len() ==> (#[trigger] ql[j]) == pl[j + 1])
                };
            if s < p {
                s
            } else {
                s + 1
            }
        };
        assert(0 <= sp < pl.len() && pl[sp] == ql[s]);
        assert(pre.spec_inner().entry_live(pl[sp] as int));
        assert(ql[s] != idx);
    }
    assert forall|n: int, s: int|
        post.node_live(n) && 0 <= s < post.node_at(n).separators().len() implies post.spec_inner()
        .entry_live((#[trigger] post.node_at(n).separators()[s]) as int) by {
        assert(pre.node_live(n));
        let pl = pre.node_at(n).separators();
        let ql = post.node_at(n).separators();
        assert(node::detached_node(pre.node_at(n), post.node_at(n), idx));
        let sp: int = if ql == pl {
            s
        } else {
            let p = choose|p: int|
                #![trigger pl[p]]
                {
                    &&& 0 <= p < pl.len()
                    &&& pl[p] == idx
                    &&& ql.len() == pl.len() - 1
                    &&& (forall|j: int| 0 <= j < p ==> (#[trigger] ql[j]) == pl[j])
                    &&& (forall|j: int| p <= j < ql.len() ==> (#[trigger] ql[j]) == pl[j + 1])
                };
            if s < p {
                s
            } else {
                s + 1
            }
        };
        assert(0 <= sp < pl.len() && pl[sp] == ql[s]);
        assert(pre.spec_inner().entry_live(pl[sp] as int));
        assert(ql[s] != idx);
    }
    assert forall|n1: int, s1: int, n2: int, s2: int|
        post.node_live(n1) && post.node_live(n2) && 0 <= s1 < post.node_at(
            n1,
        ).leaf_items().len() && 0 <= s2 < post.node_at(n2).leaf_items().len() && (n1 != n2 || s1
            != s2) implies (#[trigger] post.node_at(n1).leaf_items()[s1]) != (#[trigger] post
        .node_at(n2).leaf_items()[s2]) by {
        assert(pre.node_live(n1) && pre.node_live(n2));
        assert(node::detached_node(pre.node_at(n1), post.node_at(n1), idx));
        assert(node::detached_node(pre.node_at(n2), post.node_at(n2), idx));
        let pl1 = pre.node_at(n1).leaf_items();
        let ql1 = post.node_at(n1).leaf_items();
        let pl2 = pre.node_at(n2).leaf_items();
        let ql2 = post.node_at(n2).leaf_items();
        let sp1: int = if ql1 == pl1 {
            s1
        } else {
            let p = choose|p: int|
                #![trigger pl1[p]]
                {
                    &&& 0 <= p < pl1.len()
                    &&& pl1[p] == idx
                    &&& ql1.len() == pl1.len() - 1
                    &&& (forall|j: int| 0 <= j < p ==> (#[trigger] ql1[j]) == pl1[j])
                    &&& (forall|j: int| p <= j < ql1.len() ==> (#[trigger] ql1[j]) == pl1[j + 1])
                };
            if s1 < p {
                s1
            } else {
                s1 + 1
            }
        };
        let sp2: int = if ql2 == pl2 {
            s2
        } else {
            let p = choose|p: int|
                #![trigger pl2[p]]
                {
                    &&& 0 <= p < pl2.len()
                    &&& pl2[p] == idx
                    &&& ql2.len() == pl2.len() - 1
                    &&& (forall|j: int| 0 <= j < p ==> (#[trigger] ql2[j]) == pl2[j])
                    &&& (forall|j: int| p <= j < ql2.len() ==> (#[trigger] ql2[j]) == pl2[j + 1])
                };
            if s2 < p {
                s2
            } else {
                s2 + 1
            }
        };
        assert(0 <= sp1 < pl1.len() && pl1[sp1] == ql1[s1]);
        assert(0 <= sp2 < pl2.len() && pl2[sp2] == ql2[s2]);
        if n1 == n2 && sp1 == sp2 {
            assert(s1 != s2);
            assert(false);
        }
        assert(pre.node_at(n1).leaf_items()[sp1] != pre.node_at(n2).leaf_items()[sp2]);
    }
    assert forall|n1: int, s1: int, n2: int, s2: int|
        post.node_live(n1) && post.node_live(n2) && 0 <= s1 < post.node_at(
            n1,
        ).separators().len() && 0 <= s2 < post.node_at(n2).separators().len() && (n1 != n2 || s1
            != s2) implies (#[trigger] post.node_at(n1).separators()[s1]) != (#[trigger] post
        .node_at(n2).separators()[s2]) by {
        assert(pre.node_live(n1) && pre.node_live(n2));
        assert(node::detached_node(pre.node_at(n1), post.node_at(n1), idx));
        assert(node::detached_node(pre.node_at(n2), post.node_at(n2), idx));
        let pl1 = pre.node_at(n1).separators();
        let ql1 = post.node_at(n1).separators();
        let pl2 = pre.node_at(n2).separators();
        let ql2 = post.node_at(n2).separators();
        let sp1: int = if ql1 == pl1 {
            s1
        } else {
            let p = choose|p: int|
                #![trigger pl1[p]]
                {
                    &&& 0 <= p < pl1.len()
                    &&& pl1[p] == idx
                    &&& ql1.len() == pl1.len() - 1
                    &&& (forall|j: int| 0 <= j < p ==> (#[trigger] ql1[j]) == pl1[j])
                    &&& (forall|j: int| p <= j < ql1.len() ==> (#[trigger] ql1[j]) == pl1[j + 1])
                };
            if s1 < p {
                s1
            } else {
                s1 + 1
            }
        };
        let sp2: int = if ql2 == pl2 {
            s2
        } else {
            let p = choose|p: int|
                #![trigger pl2[p]]
                {
                    &&& 0 <= p < pl2.len()
                    &&& pl2[p] == idx
                    &&& ql2.len() == pl2.len() - 1
                    &&& (forall|j: int| 0 <= j < p ==> (#[trigger] ql2[j]) == pl2[j])
                    &&& (forall|j: int| p <= j < ql2.len() ==> (#[trigger] ql2[j]) == pl2[j + 1])
                };
            if s2 < p {
                s2
            } else {
                s2 + 1
            }
        };
        assert(0 <= sp1 < pl1.len() && pl1[sp1] == ql1[s1]);
        assert(0 <= sp2 < pl2.len() && pl2[sp2] == ql2[s2]);
        if n1 == n2 && sp1 == sp2 {
            assert(s1 != s2);
            assert(false);
        }
        assert(pre.node_at(n1).separators()[sp1] != pre.node_at(n2).separators()[sp2]);
    }
}

/// The indexed ordered map: a key/value dictionary with insertion-order
/// positions, backed by the item arena and order index of [`Inner`] and a
/// node store holding B-tree metadata over the same entries.
///
/// Key-routed operations locate a binding through the order index; the node
/// store and the capability surface over it (see the adapter modules) are
/// the storage backend offered to an external tree-traversal engine, which
/// shapes the tree beyond the root on its own initiative.
#[derive(Debug)]
pub struct IndexMap<K, V> {
    /// B-tree nodes; they reference entries by identifier only.
    nodes: arena::Arena<Node>,
    /// The actual bindings and their insertion order.
    inner: Inner<K, V>,
    /// Root node identifier; absent exactly while the map is empty.
    root: Option<usize>,
}

impl<K, V> IndexMap<K, V> {
    /// The bindings in insertion order.
    pub closed spec fn view_seq(&self) -> Seq<(K, V)> {
        self.inner.view_seq()
    }

    /// The inner entry store.
    pub closed spec fn spec_inner(&self) -> Inner<K, V> {
        self.inner
    }

    /// The root node identifier, if any.
    pub closed spec fn spec_root(&self) -> Option<usize> {
        self.root
    }

    /// Does `id` refer to a node of the store?
    pub closed spec fn node_live(&self, id: int) -> bool {
        self.nodes.is_live(id)
    }

    /// The node behind a live identifier.
    pub closed spec fn node_at(&self, id: int) -> Node
        recommends
            self.node_live(id),
    {
        self.nodes.value_at(id)
    }

    /// Declared capacity of the node store.
    pub closed spec fn node_capacity(&self) -> usize {
        self.nodes.spec_capacity()
    }

    /// Number of node identifiers handed out so far.
    pub closed spec fn node_slot_count(&self) -> nat {
        self.nodes.slot_count()
    }

    /// How many bindings the map can hold before growing: the smaller of
    /// the item arena's capacity and the capacity of a tree filling every
    /// node of the node store.
    pub open spec fn spec_capacity(&self) -> int {
        vstd::math::min(
            self.spec_inner().spec_capacity() as int,
            self.node_capacity() * ((M - 1) as int),
        )
    }

    /// Well-formedness of the tree metadata, as far as the storage layer
    /// answers for it: a root exists exactly while the map holds entries;
    /// resting nodes hold at most `M - 1` entries or branches; every arena
    /// identifier referenced from a node is live, sits in at most one leaf
    /// slot over the whole store, and in at most one separator slot.
    pub open spec fn tree_wf(&self) -> bool {
        &&& (self.spec_root() is None <==> self.spec_inner().spec_len() == 0)
        &&& (match self.spec_root() {
            Some(r) => self.node_live(r as int),
            None => true,
        })
        &&& forall|n: int|
            #[trigger] self.node_live(n) ==> self.node_at(n).leaf_items().len() <= M - 1
                && self.node_at(n).separators().len() <= M - 1
        &&& forall|n: int, s: int|
            self.node_live(n) && 0 <= s < self.node_at(n).leaf_items().len()
                ==> self.spec_inner().entry_live(
                (#[trigger] self.node_at(n).leaf_items()[s]) as int,
            )
        &&& forall|n: int, s: int|
            self.node_live(n) && 0 <= s < self.node_at(n).separators().len()
                ==> self.spec_inner().entry_live(
                (#[trigger] self.node_at(n).separators()[s]) as int,
            )
        &&& forall|n1: int, s1: int, n2: int, s2: int|
            self.node_live(n1) && self.node_live(n2) && 0 <= s1 < self.node_at(
                n1,
            ).leaf_items().len() && 0 <= s2 < self.node_at(n2).leaf_items().len() && (n1 != n2
                || s1 != s2) ==> (#[trigger] self.node_at(n1).leaf_items()[s1])
                != (#[trigger] self.node_at(n2).leaf_items()[s2])
        &&& forall|n1: int, s1: int, n2: int, s2: int|
            self.node_live(n1) && self.node_live(n2) && 0 <= s1 < self.node_at(
                n1,
            ).separators().len() && 0 <= s2 < self.node_at(n2).separators().len() && (n1 != n2
                || s1 != s2) ==> (#[trigger] self.node_at(n1).separators()[s1])
                != (#[trigger] self.node_at(n2).separators()[s2])
    }

    /// Well-formedness of the whole map: the order index and the entries
    /// are mutual inverses, no two bindings carry the same key, and the
    /// tree metadata is sound.
    pub open spec fn wf(&self) -> bool {
        &&& self.spec_inner().wf()
        &&& distinct_keys(self.view_seq())
        &&& self.tree_wf()
    }

    /// Creates a new empty map.
    pub fn new() -> (r: Self)
        ensures
            r.wf(),
            r.view_seq() == Seq::<(K, V)>::empty(),
            r.spec_capacity() == 0,
    {
        IndexMap { nodes: arena::Arena::new(), inner: Inner::new(), root: None }
    }

    /// Creates a new empty map prepared for `capacity` bindings: the item
    /// arena for that many entries, the node store for enough nodes to hold
    /// them at `M - 1` per node.
    pub fn with_capacity(capacity: usize) -> (r: Self)
        ensures
            r.wf(),
            r.view_seq() == Seq::<(K, V)>::empty(),
            r.spec_capacity() >= capacity,
    {
        let nodes_capacity = div_ceil(capacity, M - 1);
        proof {
            vstd::arithmetic::div_mod::lemma_fundamental_div_mod(capacity as int, (M - 1) as int);
        }
        IndexMap {
            nodes: arena::Arena::with_capacity(nodes_capacity),
            inner: Inner::with_capacity(capacity),
            root: None,
        }
    }

    /// How many bindings the map can hold before growing.
    pub fn capacity(&self) -> (c: usize)
        requires
            self.node_capacity() * ((M - 1) as int) <= usize::MAX,
        ensures
            c == self.spec_capacity(),
    {
        let btree_capacity = self.nodes.capacity() * (M - 1);
        let inner_capacity = self.inner.capacity();
        if inner_capacity <= btree_capacity {
            inner_capacity
        } else {
            btree_capacity
        }
    }

    /// Number of bindings.
    pub fn len(&self) -> (n: usize)
        ensures
            n == self.view_seq().len(),
    {
        self.inner.vec.len()
    }

    /// Is the map empty?
    pub fn is_empty(&self) -> (r: bool)
        ensures
            r == (self.view_seq().len() == 0),
    {
        self.inner.vec.is_empty()
    }

    /// An iterator over the bindings, in insertion order.
    pub fn iter(&self) -> (r: Iter<'_, K, V>)
        requires
            self.wf(),
        ensures
            r.wf(),
            r.spec_bindings() == self.view_seq(),
            r.spec_pos() == 0,
    {
        Iter { inner: &self.inner, pos: 0 }
    }

    /// Scans the order index for the binding carrying `key` and returns its
    /// position.
    fn find(&self, key: &K) -> (r: Option<usize>) where K: TotalOrder
        requires
            self.wf(),
        ensures
            match r {
                Some(i) => {
                    &&& has_key(self.view_seq(), *key)
                    &&& i == key_at(self.view_seq(), *key)
                    &&& i < self.view_seq().len()
                    &&& self.view_seq()[i as int].0 == *key
                },
                None => !has_key(self.view_seq(), *key),
            },
    {
        let n = self.inner.vec.len();
        let mut i: usize = 0;
        while i < n
            invariant
                self.wf(),
                n == self.view_seq().len(),
                i <= n,
                forall|j: int| 0 <= j < i ==> (#[trigger] self.view_seq()[j]).0 != *key,
            decreases n - i,
        {
            let idx = self.inner.vec[i];
            proof {
                assert(self.inner.entry_live(idx as int));
            }
            let e = self.inner.items.borrow(idx);
            proof {
                assert(self.view_seq()[i as int] == (e.key, e.value));
            }
            match e.key.compare(key) {
                Ordering::Equal => {
                    proof {
                        assert(has_key(self.view_seq(), *key));
                        let j = key_at(self.view_seq(), *key);
                        assert(0 <= j < self.view_seq().len() && self.view_seq()[j].0 == *key);
                        assert(j == i);
                    }
                    return Some(i);
                },
                _ => {
                    proof {
                        assert(e.key != *key);
                    }
                },
            }
            i = i + 1;
        }
        None
    }

    /// Position, key and value of the binding carrying `key`, or nothing
    /// when no binding carries it.
    pub fn get_full(&self, key: &K) -> (r: Option<(usize, &K, &V)>) where K: TotalOrder
        requires
            self.wf(),
        ensures
            match r {
                Some(t) => {
                    &&& has_key(self.view_seq(), *key)
                    &&& t.0 == key_at(self.view_seq(), *key)
                    &&& *t.1 == self.view_seq()[t.0 as int].0
                    &&& *t.1 == *key
                    &&& *t.2 == self.view_seq()[t.0 as int].1
                },
                None => !has_key(self.view_seq(), *key),
            },
    {
        match self.find(key) {
            Some(i) => {
                let idx = self.inner.vec[i];
                proof {
                    assert(self.inner.entry_live(idx as int));
                }
                let e = self.inner.items.borrow(idx);
                proof {
                    assert(self.view_seq()[i as int] == (e.key, e.value));
                }
                Some((i, &e.key, &e.value))
            },
            None => None,
        }
    }

    /// The value bound to `key`, or nothing when no binding carries it.
    pub fn get(&self, key: &K) -> (r: Option<&V>) where K: TotalOrder
        requires
            self.wf(),
        ensures
            match r {
                Some(v) => {
                    &&& has_key(self.view_seq(), *key)
                    &&& *v == self.view_seq()[key_at(self.view_seq(), *key)].1
                },
                None => !has_key(self.view_seq(), *key),
            },
    {
        match self.get_full(key) {
            Some((_, _, v)) => Some(v),
            None => None,
        }
    }

    /// The value bound to `key`, borrowed mutably, or nothing when no
    /// binding carries it.  The structure of the map is untouched; only the
    /// value behind the returned reference changes.
    pub fn get_mut(&mut self, key: &K) -> (r: Option<&mut V>) where K: TotalOrder
        requires
            old(self).wf(),
        ensures
            match r {
                None => {
                    &&& !has_key(old(self).view_seq(), *key)
                    &&& *final(self) == *old(self)
                },
                Some(v) => ({
                    let i = key_at(old(self).view_seq(), *key);
                    &&& has_key(old(self).view_seq(), *key)
                    &&& *v == old(self).view_seq()[i].1
                    &&& value_replaced_at(*old(self), *final(self), i)
                    &&& final(self).wf()
                    &&& final(self).view_seq() == old(self).view_seq().update(
                        i,
                        (old(self).view_seq()[i].0, *final(v)),
                    )
                }),
            },
    {
        broadcast use lemma_value_replaced_wf_ambient;

        match self.find(key) {
            Some(i) => {
                let idx = self.inner.vec[i];
                proof {
                    assert(self.inner.entry_live(idx as int));
                    assert(self.view_seq()[i as int] == (
                        self.inner.entry_at(idx as int).key,
                        self.inner.entry_at(idx as int).value,
                    ));
                }
                let e = self.inner.items.get_mut(idx);
                Some(e.as_value_mut())
            },
            None => None,
        }
    }

    /// The binding at order position `index`, the value borrowed mutably,
    /// or nothing when the position is out of range.  Only the value behind
    /// the returned reference changes.
    pub fn get_index_mut(&mut self, index: usize) -> (r: Option<(&K, &mut V)>)
        requires
            old(self).wf(),
        ensures
            match r {
                None => {
                    &&& index >= old(self).view_seq().len()
                    &&& *final(self) == *old(self)
                },
                Some(p) => {
                    &&& index < old(self).view_seq().len()
                    &&& *p.0 == old(self).view_seq()[index as int].0
                    &&& *p.1 == old(self).view_seq()[index as int].1
                    &&& value_replaced_at(*old(self), *final(self), index as int)
                    &&& final(self).wf()
                    &&& final(self).view_seq() == old(self).view_seq().update(
                        index as int,
                        (old(self).view_seq()[index as int].0, *final(p.1)),
                    )
                },
            },
    {
        broadcast use lemma_value_replaced_wf_ambient;

        if index < self.inner.vec.len() {
            let idx = self.inner.vec[index];
            proof {
                assert(self.inner.entry_live(idx as int));
                assert(self.view_seq()[index as int] == (
                    self.inner.entry_at(idx as int).key,
                    self.inner.entry_at(idx as int).value,
                ));
            }
            let e = self.inner.items.get_mut(idx);
            let p = e.as_pair_mut();
            Some(p)
        } else {
            None
        }
    }

    /// Inserts the binding `key -> value` and returns its order position.
    /// A collision replaces the value in place — key, identifier and
    /// position untouched — and hands back the old value; a miss appends
    /// the binding at the end.
    pub fn insert_full(&mut self, key: K, value: V) -> (r: (usize, Option<V>)) where
        K: TotalOrder,

        requires
            old(self).wf(),
        ensures
            final(self).wf(),
            final(self).view_seq() == spec_insert(old(self).view_seq(), key, value),
            match r.1 {
                Some(old_value) => {
                    &&& has_key(old(self).view_seq(), key)
                    &&& r.0 == key_at(old(self).view_seq(), key)
                    &&& old_value == old(self).view_seq()[r.0 as int].1
                    &&& final(self).view_seq().len() == old(self).view_seq().len()
                },
                None => {
                    &&& !has_key(old(self).view_seq(), key)
                    &&& r.0 == old(self).view_seq().len()
                    &&& final(self).view_seq().len() == old(self).view_seq().len() + 1
                },
            },
            final(self).spec_capacity() >= old(self).spec_capacity(),
    {
        match self.find(&key) {
            Some(i) => {
                let ghost pre = *self;
                let idx = self.inner.vec[i];
                proof {
                    assert(self.inner.entry_live(idx as int));
                    assert(self.view_seq()[i as int] == (
                        self.inner.entry_at(idx as int).key,
                        self.inner.entry_at(idx as int).value,
                    ));
                }
                let e = self.inner.items.get_mut(idx);
                let old_value = e.replace_value(value);
                proof {
                    lemma_value_replaced_wf(pre, *self, i as int);
                    assert(self.view_seq() =~= spec_insert(pre.view_seq(), key, value));
                }
                (i, Some(old_value))
            },
            None => {
                let ghost pre = *self;
                let idx = self.inner.insert(Item::new(key, value));
                let i = self.inner.vec.len() - 1;
                if self.root.is_none() {
                    proof {
                        assert(pre.spec_inner().spec_len() == 0);
                        assert forall|n: int| #[trigger] pre.node_live(n) implies pre.node_at(
                            n,
                        ).leaf_items().len() == 0 && pre.node_at(n).separators().len() == 0 by {
                            if pre.node_at(n).leaf_items().len() > 0 {
                                assert(pre.spec_inner().entry_live(
                                    pre.node_at(n).leaf_items()[0] as int,
                                ));
                            }
                            if pre.node_at(n).separators().len() > 0 {
                                assert(pre.spec_inner().entry_live(
                                    pre.node_at(n).separators()[0] as int,
                                ));
                            }
                        }
                    }
                    let mut leaf = node::leaf::Metadata::new();
                    leaf.push_right(idx);
                    let node_id = self.nodes.push_back(Node::Leaf(leaf));
                    self.root = Some(node_id);
                    proof {
                        assert forall|n: int| #[trigger] self.node_live(n) && n
                            != node_id implies self.node_at(n) == pre.node_at(n)
                            && pre.node_live(n) by {}
                        assert(self.node_at(node_id as int).leaf_items() =~= seq![idx]);
                        assert(self.node_at(node_id as int).separators() =~= Seq::<
                            usize,
                        >::empty());
                        assert forall|n: int| #[trigger] self.node_live(n) && n
                            != node_id implies self.node_at(n).leaf_items().len() == 0
                            && self.node_at(n).separators().len() == 0 by {
                            assert(pre.node_at(n).leaf_items().len() == 0);
                            assert(pre.node_at(n).separators().len() == 0);
                        }
                        assert(self.spec_inner().entry_live(idx as int));
                        assert(self.tree_wf());
                    }
                } else {
                    proof {
                        assert(pre.spec_root() is Some);
                        assert(pre.spec_inner().spec_len() > 0);
                        lemma_tree_wf_preserved(pre, *self);
                    }
                }
                proof {
                    assert forall|a: int| 0 <= a < pre.view_seq().len() implies (
                    #[trigger] pre.view_seq()[a]).0 != key by {}
                    assert forall|a: int, b: int|
                        0 <= a < b < self.view_seq().len() implies (
                    #[trigger] self.view_seq()[a]).0 != (#[trigger] self.view_seq()[b]).0 by {
                        if b < pre.view_seq().len() {
                            assert(pre.view_seq()[a].0 != pre.view_seq()[b].0);
                        } else {
                            assert(self.view_seq()[b] == (key, value));
                            assert(self.view_seq()[a] == pre.view_seq()[a]);
                        }
                    }
                    assert(self.view_seq() == spec_insert(pre.view_seq(), key, value));
                }
                (i, None)
            },
        }
    }

    /// Inserts the binding `key -> value`.  A collision replaces the value
    /// in place and hands back the old value; a miss appends the binding at
    /// the end.
    pub fn insert(&mut self, key: K, value: V) -> (r: Option<V>) where K: TotalOrder
        requires
            old(self).wf(),
        ensures
            final(self).wf(),
            final(self).view_seq() == spec_insert(old(self).view_seq(), key, value),
            match r {
                Some(old_value) => {
                    &&& has_key(old(self).view_seq(), key)
                    &&& old_value == old(self).view_seq()[key_at(old(self).view_seq(), key)].1
                    &&& final(self).view_seq().len() == old(self).view_seq().len()
                },
                None => {
                    &&& !has_key(old(self).view_seq(), key)
                    &&& final(self).view_seq().len() == old(self).view_seq().len() + 1
                },
            },
            final(self).spec_capacity() >= old(self).spec_capacity(),
    {
        let (_, old_value) = self.insert_full(key, value);
        old_value
    }

    /// Detaches the entry identifier `index` from the tree metadata: the
    /// leaf slot and the separator slot holding it — at most one of each
    /// over the whole store, by well-formedness — are removed from their
    /// nodes.  The entries and the root are untouched.
    fn detach(&mut self, index: usize)
        requires
            old(self).wf(),
        ensures
            final(self).spec_inner() == old(self).spec_inner(),
            final(self).spec_root() == old(self).spec_root(),
            final(self).node_capacity() == old(self).node_capacity(),
            forall|n: int| #[trigger] final(self).node_live(n) <==> old(self).node_live(n),
            forall|n: int|
                final(self).node_live(n) ==> node::detached_node(
                    old(self).node_at(n),
                    #[trigger] final(self).node_at(n),
                    index,
                ),
    {
        let count = self.nodes.slots_len();
        let mut n: usize = 0;
        while n < count
            invariant
                old(self).wf(),
                self.inner == old(self).inner,
                self.root == old(self).root,
                self.nodes.spec_capacity() == old(self).nodes.spec_capacity(),
                count == self.nodes.slot_count(),
                n <= count,
                forall|t: int| #[trigger] self.nodes.is_live(t) <==> old(self).nodes.is_live(t),
                forall|t: int|
                    self.nodes.is_live(t) && n <= t ==> #[trigger] self.nodes.value_at(t) == old(self).nodes.value_at(t),
                forall|t: int|
                    self.nodes.is_live(t) && t < n ==> node::detached_node(
                        old(self).nodes.value_at(t),
                        #[trigger] self.nodes.value_at(t),
                        index,
                    ),
            decreases count - n,
        {
            if self.nodes.contains(n) {
                proof {
                    let pre_node = old(self).nodes.value_at(n as int);
                    assert(self.nodes.value_at(n as int) == pre_node);
                    assert forall|s1: int, s2: int|
                        0 <= s1 < s2 < pre_node.leaf_items().len() implies (
                    #[trigger] pre_node.leaf_items()[s1]) != (#[trigger] pre_node.leaf_items()[s2]) by {
                        assert(old(self).node_at(n as int).leaf_items()[s1] != old(self).node_at(
                            n as int,
                        ).leaf_items()[s2]);
                    }
                    assert forall|s1: int, s2: int|
                        0 <= s1 < s2 < pre_node.separators().len() implies (
                    #[trigger] pre_node.separators()[s1]) != (#[trigger] pre_node.separators()[s2]) by {
                        assert(old(self).node_at(n as int).separators()[s1] != old(self).node_at(
                            n as int,
                        ).separators()[s2]);
                    }
                }
                let ghost snap = self.nodes;
                let node = self.nodes.get_mut(n);
                node.detach(index);
                proof {
                    assert forall|t: int| #[trigger] self.nodes.is_live(t) implies snap.is_live(
                        t,
                    ) by {}
                    assert forall|t: int| snap.is_live(t) implies #[trigger] self.nodes.is_live(
                        t,
                    ) by {}
                    assert forall|t: int|
                        self.nodes.is_live(t) && t != n implies #[trigger] self.nodes.value_at(t)
                        == snap.value_at(t) by {}
                    assert(node::detached_node(
                        old(self).nodes.value_at(n as int),
                        self.nodes.value_at(n as int),
                        index,
                    ));
                }
            }
            n = n + 1;
        }
    }

    /// Removes the binding carrying `key` and returns its value; the last
    /// binding moves into the freed position, so the iteration order of the
    /// map is disturbed.  Removing an absent key changes nothing.
    pub fn swap_remove(&mut self, key: &K) -> (r: Option<V>) where K: TotalOrder
        requires
            old(self).wf(),
        ensures
            final(self).wf(),
            final(self).view_seq() == spec_swap_remove(old(self).view_seq(), *key),
            match r {
                Some(v) => {
                    &&& has_key(old(self).view_seq(), *key)
                    &&& v == old(self).view_seq()[key_at(old(self).view_seq(), *key)].1
                    &&& final(self).view_seq().len() == old(self).view_seq().len() - 1
                },
                None => {
                    &&& !has_key(old(self).view_seq(), *key)
                    &&& *final(self) == *old(self)
                },
            },
    {
        match self.find(key) {
            None => None,
            Some(i) => {
                let idx = self.inner.vec[i];
                let ghost pre = *self;
                proof {
                    assert(self.inner.entry_live(idx as int));
                    assert(self.inner.entry_at(idx as int).order == i);
                    assert(self.view_seq()[i as int] == (
                        self.inner.entry_at(idx as int).key,
                        self.inner.entry_at(idx as int).value,
                    ));
                }
                self.detach(idx);
                let ghost mid = *self;
                let item = self.inner.swap_remove(idx);
                if self.inner.vec.is_empty() {
                    self.root = None;
                }
                proof {
                    assert(self.view_seq() == pre.view_seq().update(
                        i as int,
                        pre.view_seq().last(),
                    ).drop_last());
                    lemma_removal_distinct(pre.view_seq(), self.view_seq(), i as int, *key);
                    assert(self.view_seq() == spec_swap_remove(pre.view_seq(), *key));
                    lemma_removal_tree_wf(pre, mid, *self, idx);
                }
                Some(item.value)
            },
        }
    }

    /// Removes the binding carrying `key` and returns its value; every
    /// later binding shifts down one position, so the iteration order of
    /// the remaining bindings is preserved.  Removing an absent key changes
    /// nothing.
    pub fn shift_remove(&mut self, key: &K) -> (r: Option<V>) where K: TotalOrder
        requires
            old(self).wf(),
        ensures
            final(self).wf(),
            final(self).view_seq() == spec_shift_remove(old(self).view_seq(), *key),
            match r {
                Some(v) => {
                    &&& has_key(old(self).view_seq(), *key)
                    &&& v == old(self).view_seq()[key_at(old(self).view_seq(), *key)].1
                    &&& final(self).view_seq().len() == old(self).view_seq().len() - 1
                },
                None => {
                    &&& !has_key(old(self).view_seq(), *key)
                    &&& *final(self) == *old(self)
                },
            },
    {
        match self.find(key) {
            None => None,
            Some(i) => {
                let idx = self.inner.vec[i];
                let ghost pre = *self;
                proof {
                    assert(self.inner.entry_live(idx as int));
                    assert(self.inner.entry_at(idx as int).order == i);
                    assert(self.view_seq()[i as int] == (
                        self.inner.entry_at(idx as int).key,
                        self.inner.entry_at(idx as int).value,
                    ));
                }
                self.detach(idx);
                let ghost mid = *self;
                let item = self.inner.shift_remove(idx);
                if self.inner.vec.is_empty() {
                    self.root = None;
                }
                proof {
                    assert(self.view_seq() == pre.view_seq().remove(i as int));
                    lemma_removal_distinct(pre.view_seq(), self.view_seq(), i as int, *key);
                    assert(self.view_seq() == spec_shift_remove(pre.view_seq(), *key));
                    lemma_removal_tree_wf(pre, mid, *self, idx);
                }
                Some(item.value)
            },
        }
    }

    /// Removes the binding carrying `key` and returns its value.  An alias
    /// of [`Self::swap_remove`]: it disturbs the iteration order; use
    /// [`Self::shift_remove`] to keep the order at a higher cost.
    pub fn remove(&mut self, key: &K) -> (r: Option<V>) where K: TotalOrder
        requires
            old(self).wf(),
        ensures
            final(self).wf(),
            final(self).view_seq() == spec_swap_remove(old(self).view_seq(), *key),
            match r {
                Some(v) => {
                    &&& has_key(old(self).view_seq(), *key)
                    &&& v == old(self).view_seq()[key_at(old(self).view_seq(), *key)].1
                    &&& final(self).view_seq().len() == old(self).view_seq().len() - 1
                },
                None => {
                    &&& !has_key(old(self).view_seq(), *key)
                    &&& *final(self) == *old(self)
                },
            },
    {
        self.swap_remove(key)
    }

    /// The binding at order position `index`, or nothing when the position
    /// is out of range.
    pub fn get_index(&self, index: usize) -> (r: Option<(&K, &V)>)
        requires
            self.wf(),
        ensures
            match r {
                Some(p) => {
                    &&& index < self.view_seq().len()
                    &&& *p.0 == self.view_seq()[index as int].0
                    &&& *p.1 == self.view_seq()[index as int].1
                },
                None => index >= self.view_seq().len(),
            },
    {
        if index < self.inner.vec.len() {
            let idx = self.inner.vec[index];
            proof {
                assert(self.inner.entry_live(idx as int));
            }
            let e = self.inner.items.borrow(idx);
            proof {
                assert(self.view_seq()[index as int] == (e.key, e.value));
            }
            Some((&e.key, &e.value))
        } else {
            None
        }
    }
}

} // verus!
