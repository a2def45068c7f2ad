use vstd::prelude::*;

use crate::item::Item;
use crate::model::{
    balanced, found_in, height, in_order, item_keys, key_count, lemma_traversal_count, min_items,
    remove_key, removal_clean, removes, seg, shrinks, slots, subtree_count, sum_counts, wf,
};
use crate::node::Node;
use crate::render::render_node;
use vstd::string::StringExecFns;

verus! {

/// The facade owning the root node and the configured node capacity.
pub struct BTree<V> {
    pub root: Node<V>,
    pub max_size: usize,
}

/// The invariant the tree keeps between operations: a well-formed, balanced
/// root of the configured capacity that, when internal, has at least one item.
pub open spec fn tree_wf<V>(t: BTree<V>) -> bool {
    &&& wf(t.root)
    &&& balanced(t.root)
    &&& t.root.max_size == t.max_size
    &&& t.root.children@.len() != 1
}

impl<V> BTree<V> {
    pub fn new(capacity: usize) -> (t: BTree<V>)
        requires
            1 < capacity < usize::MAX,
        ensures
            tree_wf(t),
            t.max_size == capacity,
            t.root.items@.len() == 0,
            t.root.children@.len() == 0,
    {
        BTree { root: Node::new(capacity), max_size: capacity }
    }

    /// Inserts an item. A full root is split first under a fresh root, so
    /// the tree grows at the top — by exactly one level, and only then; the
    /// in-order key traversal stays sorted and gains exactly one occurrence
    /// of the item's key.
    pub fn insert(&mut self, item: Item<V>)
        requires
            tree_wf(*old(self)),
        ensures
            tree_wf(*final(self)),
            final(self).max_size == old(self).max_size,
            height(final(self).root) == height(old(self).root) + (if old(self).root.items@.len()
                == old(self).max_size {
                1int
            } else {
                0int
            }),
            in_order(final(self).root).len() == in_order(old(self).root).len() + 1,
            forall|x: u64|
                key_count(in_order(final(self).root), x) == key_count(
                    in_order(old(self).root),
                    x,
                ) + (if x == item.key {
                    1int
                } else {
                    0int
                }),
    {
        let ghost pre = *old(self);
        if self.root.is_full() {
            let mut new_root = Node::new(self.max_size);
            core::mem::swap(&mut new_root, &mut self.root);
            self.root.children.push(new_root);
            proof {
                let r = self.root;
                assert(slots(r) == 1);
                assert(seg(r, 1, 1) == Seq::<u64>::empty());
                assert(in_order(r) =~= in_order(pre.root));
                assert(wf(r)) by {
                    assert forall|i: int| 0 <= i < r.children@.len() implies (wf(
                        #[trigger] r.children@[i],
                    ) && r.children@[i].max_size == r.max_size && height(r.children@[i]) == height(
                        r.children@[0],
                    )) by {
                        assert(r.children@[i] == pre.root);
                    }
                }
                assert(balanced(r)) by {
                    assert forall|i: int|
                        0 <= i < r.children@.len() implies (balanced(#[trigger] r.children@[i])
                        && r.children@[i].items@.len() >= min_items(r.max_size as int)) by {
                        assert(r.children@[i] == pre.root);
                        assert(pre.root.items@.len() == pre.max_size);
                    }
                }
            }
            proof {
                assert(height(self.root) == height(pre.root) + 1) by {
                    assert(self.root.children@[0] == pre.root);
                }
            }
            self.root.split_child(0);
        }
        self.root.insert(item);
        proof {
            assert(self.root.children@.len() != 1) by {
                if self.root.children@.len() > 0 {
                    assert(self.root.children@.len() == self.root.items@.len() + 1);
                    assert(self.root.items@.len() >= 1);
                }
            }
        }
    }

    /// The human-readable indented dump of the whole tree: a heading line,
    /// then the root's pre-order dump with two spaces of indentation per
    /// level.
    pub fn render(&self) -> (r: String)
        requires
            tree_wf(*self),
            height(self.root) < usize::MAX,
        ensures
            r@ == seq!['B', 'T', 'r', 'e', 'e', ':', ' ', '\n'] + render_node(self.root, 0),
    {
        let mut out = String::new();
        out.append("BTree: \n");
        proof {
            reveal_strlit("BTree: \n");
            assert(out@ =~= seq!['B', 'T', 'r', 'e', 'e', ':', ' ', '\n']);
        }
        self.root.display(&mut out, 0);
        out
    }

    /// Removes one occurrence of `key` when the search path meets one; an
    /// absent key is a no-op. A clean removal that empties an internal root
    /// replaces the root by its sole remaining child (`lemma_root_collapse`),
    /// and the tree loses exactly one level — which happens exactly when the
    /// root held one item and the removal consumed it or its divider sank in
    /// a merge (`shrinks`). The exact claims hold for the removals the
    /// rebalancing repairs completely (`removal_clean`); outside that
    /// envelope — the key matched in an internal node, or a borrow between
    /// internal siblings — the design's known limitation stands, and a
    /// removal that empties a root left with several children keeps only the
    /// first of them, as designed.
    ///
    /// Capacity 2 is excluded: a split at that capacity creates empty
    /// siblings, and the rebalancing of such a node indexes a sibling that
    /// does not exist. From capacity 3 up every non-root node keeps at least
    /// one item, which the sibling lookups rely on.
    pub fn remove(&mut self, key: u64)
        requires
            tree_wf(*old(self)),
            old(self).max_size >= 3,
        ensures
            final(self).max_size == old(self).max_size,
            old(self).root.children@.len() == 0 || old(self).root.items@.len() != 1 || !found_in(
                old(self).root.items@,
                key,
            ) ==> forall|x: u64|
                key_count(in_order(final(self).root), x) + (if x == key && removes(
                    old(self).root,
                    key,
                ) {
                    1nat
                } else {
                    0nat
                }) == key_count(in_order(old(self).root), x),
            removal_clean(old(self).root, key) ==> {
                &&& tree_wf(*final(self))
                &&& in_order(final(self).root) == remove_key(in_order(old(self).root), key)
                &&& height(final(self).root) == height(old(self).root) - (if old(
                    self,
                ).root.children@.len() > 0 && old(self).root.items@.len() == 1 && shrinks(
                    old(self).root,
                    key,
                ) {
                    1int
                } else {
                    0int
                })
            },
    {
        let ghost pre = *old(self);
        proof {
            assert(min_items(pre.max_size as int) >= 1);
        }
        self.root.remove(&key);
        let ghost rmid = self.root;
        if self.root.items.len() == 0 && self.root.children.len() > 0 {
            let new_root = self.root.children.remove(0);
            self.root = new_root;
            proof {
                if pre.root.children@.len() == 0 || pre.root.items@.len() != 1 || !found_in(
                    pre.root.items@,
                    key,
                ) {
                    // under this guard an emptied root keeps exactly one child
                    assert(!found_in(pre.root.items@, key)) by {
                        if found_in(pre.root.items@, key) {
                            assert(rmid.children@ == pre.root.children@);
                            assert(rmid.items@.len() == pre.root.items@.len() - 1);
                        }
                    }
                    assert(rmid.children@.len() == 1) by {
                        assert(pre.root.children@.len() > 0);
                        assert(pre.root.children@.len() == pre.root.items@.len() + 1);
                        assert(pre.root.items@.len() == 1);
                    }
                    assert forall|x: u64| key_count(in_order(self.root), x) + (if x == key
                        && removes(pre.root, key) {
                        1nat
                    } else {
                        0nat
                    }) == key_count(in_order(pre.root), x) by {
                        lemma_traversal_count(pre.root, x);
                        lemma_traversal_count(self.root, x);
                        assert(subtree_count(rmid, x) == subtree_count(self.root, x)) by {
                            assert(item_keys(rmid.items@) =~= Seq::<u64>::empty());
                            assert(key_count(Seq::<u64>::empty(), x) == 0);
                            assert(sum_counts(rmid.children@, 1, x) == 0);
                            assert(sum_counts(rmid.children@, 0, x) == subtree_count(
                                rmid.children@[0],
                                x,
                            ));
                            assert(self.root == rmid.children@[0]);
                        }
                    }
                }
                if removal_clean(pre.root, key) {
                    assert(rmid.children@.len() == rmid.items@.len() + 1);
                    assert(rmid.children@.len() == 1);
                    assert(slots(rmid) == 1);
                    assert(seg(rmid, 1, 1) == Seq::<u64>::empty());
                    assert(in_order(rmid) =~= in_order(rmid.children@[0]));
                    assert(wf(rmid.children@[0]));
                    assert(balanced(rmid.children@[0]));
                    assert(self.root == rmid.children@[0]);
                    assert(self.root.children@.len() != 1) by {
                        if self.root.children@.len() > 0 {
                            assert(self.root.items@.len() >= min_items(pre.max_size as int));
                        }
                    }
                }
            }
        } else {
            proof {
                assert forall|x: u64| key_count(in_order(self.root), x) + (if x == key && removes(
                    pre.root,
                    key,
                ) {
                    1nat
                } else {
                    0nat
                }) == key_count(in_order(pre.root), x) by {
                    lemma_traversal_count(pre.root, x);
                    lemma_traversal_count(self.root, x);
                }
                if removal_clean(pre.root, key) {
                    assert(self.root.children@.len() != 1) by {
                        if self.root.children@.len() > 0 {
                            assert(self.root.children@.len() == self.root.items@.len() + 1);
                        }
                    }
                }
            }
        }
    }
}

} // verus!
