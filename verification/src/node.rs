use vstd::prelude::*;

use crate::item::Item;
use crate::model::{
    balanced, height, in_order, item_keys, key_count, lemma_key_count_concat,
    lemma_insert_step, lemma_key_count_single, lemma_leaf_in_order,
    found_in, lemma_borrow_step, lemma_merge_step, lemma_node_in_order_parts, lemma_remove_key_absent, lemma_remove_key_prefix, lemma_remove_key_present, lemma_remove_key_props, lemma_seg_concat, lemma_slot_of_char, remove_key, removal_clean, shrinks, slot_of,
    lemma_key_count_insert, lemma_key_count_remove, lemma_seg_shift, lemma_sorted_concat,
    lemma_sorted_glue, lemma_stable_slot_char, lemma_sum_concat, lemma_sum_remove,
    lemma_sum_update, merge_chosen, min_items,
    rebalance_pre, removes, seg, slots, sorted, stable_slot, subtree_count, sum_counts, wf,
};

verus! {

/// A node of the multiway search tree: an ordered run of items and, if the
/// node is internal, one more child than it has items.
pub struct Node<V> {
    pub items: Vec<Item<V>>,
    pub children: Vec<Node<V>>,
    pub max_size: usize,
}

impl<V> Node<V> {
    pub fn new(capacity: usize) -> (n: Node<V>)
        requires
            capacity < usize::MAX,
        ensures
            n.items@.len() == 0,
            n.children@.len() == 0,
            n.max_size == capacity,
    {
        Node {
            items: Vec::with_capacity(capacity),
            children: Vec::with_capacity(capacity + 1),
            max_size: capacity,
        }
    }

    pub fn is_full(&self) -> (r: bool)
        ensures
            r <==> self.items@.len() == self.max_size,
    {
        self.items.len() == self.max_size
    }

    pub fn is_leaf(&self) -> (r: bool)
        ensures
            r <==> self.children@.len() == 0,
    {
        self.children.len() == 0
    }

    /// Splits the full child at `index` in place: its upper items move into a
    /// new right sibling, its middle item rises into this node as the divider
    /// between the two, and (for an internal child) its upper children follow.
    /// The traversal is untouched; only the shape changes.
    #[verifier::rlimit(100)]
    #[verifier::spinoff_prover]
    pub fn split_child(&mut self, index: usize)
        requires
            wf(*old(self)),
            old(self).items@.len() < old(self).max_size,
            index < old(self).children@.len(),
            old(self).children@[index as int].items@.len() == old(self).max_size,
        ensures
            wf(*final(self)),
            final(self).max_size == old(self).max_size,
            in_order(*final(self)) == in_order(*old(self)),
            height(*final(self)) == height(*old(self)),
            final(self).items@.len() == old(self).items@.len() + 1,
            final(self).children@.len() == old(self).children@.len() + 1,
            balanced(*old(self)) ==> balanced(*final(self)),
            forall|l: int| 0 <= l < index ==> final(self).children@[l] == old(self).children@[l],
            forall|l: int|
                index + 1 < l < final(self).children@.len() ==> final(self).children@[l] == old(
                    self,
                ).children@[l - 1],
            forall|l: int| 0 <= l < index ==> final(self).items@[l] == old(self).items@[l],
            forall|l: int|
                index < l < final(self).items@.len() ==> final(self).items@[l] == old(
                    self,
                ).items@[l - 1],
            final(self).items@[index as int] == old(self).children@[index as int].items@[old(
                self,
            ).max_size as int / 2],
            final(self).children@[index as int].items@ == old(
                self,
            ).children@[index as int].items@.subrange(0, old(self).max_size as int / 2),
            final(self).children@[index + 1].items@ == old(
                self,
            ).children@[index as int].items@.subrange(
                old(self).max_size as int / 2 + 1,
                old(self).max_size as int,
            ),
            final(self).children@[index as int].children@ == (if old(
                self,
            ).children@[index as int].children@.len() > 0 {
                old(self).children@[index as int].children@.subrange(
                    0,
                    old(self).max_size as int / 2 + 1,
                )
            } else {
                Seq::<Node<V>>::empty()
            }),
            final(self).children@[index + 1].children@ == (if old(
                self,
            ).children@[index as int].children@.len() > 0 {
                old(self).children@[index as int].children@.subrange(
                    old(self).max_size as int / 2 + 1,
                    old(self).max_size as int + 1,
                )
            } else {
                Seq::<Node<V>>::empty()
            }),
            final(self).children@[index as int].items@.len() == old(self).max_size as int / 2,
            final(self).children@[index + 1].items@.len() == min_items(old(self).max_size as int),
            in_order(old(self).children@[index as int]) == in_order(
                final(self).children@[index as int],
            ) + seq![final(self).items@[index as int].key] + in_order(
                final(self).children@[index + 1],
            ),
    {
        let middle = self.max_size / 2;
        let mut child = self.children.remove(index);
        let ghost c0 = child;
        proof {
            assert(wf(*old(self)));
            assert((index as int) < old(self).children@.len());
            assert(wf(old(self).children@[index as int]));
            assert(c0 == old(self).children@[index as int]);
        }
        let mut new_node = Node::new(self.max_size);
        new_node.items = child.items.split_off(middle + 1);
        let divider = child.items.pop().unwrap();
        self.items.insert(index, divider);
        if child.children.len() > 0 {
            new_node.children = child.children.split_off(middle + 1);
        }
        self.children.insert(index, child);
        self.children.insert(index + 1, new_node);
        proof {
            let pre = *old(self);
            let cap = pre.max_size as int;
            let m = cap / 2;
            let idx = index as int;
            let lnode = self.children@[idx];
            let rnode = self.children@[idx + 1];
            let d = c0.items@[m];
            assert(wf(c0));
            assert(c0.items@ =~= lnode.items@ + seq![d] + rnode.items@);
            if c0.children@.len() > 0 {
                assert(c0.children@ =~= lnode.children@ + rnode.children@);
            }
            lemma_node_in_order_parts(c0, lnode, d, rnode);
            // the whole node's traversal is unchanged
            let sp = slots(pre);
            let sn = slots(*self);
            assert(sp == pre.children@.len());
            assert(sn == sp + 1);
            lemma_seg_concat(pre, 0, idx, sp);
            lemma_seg_concat(pre, idx, idx + 1, sp);
            lemma_seg_concat(*self, 0, idx, sn);
            lemma_seg_concat(*self, idx, idx + 1, sn);
            lemma_seg_concat(*self, idx + 1, idx + 2, sn);
            lemma_seg_shift(*self, pre, 0, idx, 0);
            lemma_seg_shift(*self, pre, idx + 2, sn, -1);
            assert(seg(*self, idx + 1, idx + 1) == Seq::<u64>::empty());
            assert(seg(*self, idx + 2, idx + 2) == Seq::<u64>::empty());
            assert(seg(pre, idx + 1, idx + 1) == Seq::<u64>::empty());
            assert(seg(*self, idx, idx + 1) =~= in_order(lnode) + seq![d.key]);
            if idx < pre.items@.len() {
                assert(seg(pre, idx, idx + 1) =~= in_order(c0) + seq![pre.items@[idx].key]);
                assert(seg(*self, idx + 1, idx + 2) =~= in_order(rnode)
                    + seq![pre.items@[idx].key]);
            } else {
                assert(seg(pre, idx, idx + 1) =~= in_order(c0));
                assert(seg(*self, idx + 1, idx + 2) =~= in_order(rnode));
            }
            assert(in_order(*self) =~= in_order(pre));
            // well-formedness of the two halves and of the node itself
            assert(in_order(c0) =~= in_order(lnode) + (seq![d.key] + in_order(rnode)));
            lemma_sorted_concat(in_order(lnode), seq![d.key] + in_order(rnode));
            lemma_sorted_concat(seq![d.key], in_order(rnode));
            let h0 = height(pre.children@[0]);
            assert(height(c0) == h0);
            assert(height(lnode) == height(c0)) by {
                if c0.children@.len() > 0 {
                    assert(lnode.children@[0] == c0.children@[0]);
                }
            }
            assert(height(rnode) == height(c0)) by {
                if c0.children@.len() > 0 {
                    assert(rnode.children@[0] == c0.children@[m + 1]);
                    assert(wf(c0));
                    assert(height(c0.children@[m + 1]) == height(c0.children@[0]));
                }
            }
            assert(wf(lnode)) by {
                assert forall|i: int| 0 <= i < lnode.children@.len() implies {
                    &&& wf(lnode.children@[i])
                    &&& lnode.children@[i].max_size == lnode.max_size
                    &&& height(lnode.children@[i]) == height(lnode.children@[0])
                } by {
                    assert(lnode.children@[i] == c0.children@[i]);
                    assert(wf(c0.children@[i]));
                    assert(lnode.children@[0] == c0.children@[0]);
                }
            }
            assert(wf(rnode)) by {
                assert forall|i: int| 0 <= i < rnode.children@.len() implies {
                    &&& wf(rnode.children@[i])
                    &&& rnode.children@[i].max_size == rnode.max_size
                    &&& height(rnode.children@[i]) == height(rnode.children@[0])
                } by {
                    assert(rnode.children@[i] == c0.children@[i + m + 1]);
                    assert(wf(c0.children@[i + m + 1]));
                    assert(rnode.children@[0] == c0.children@[m + 1]);
                    assert(wf(c0.children@[m + 1]));
                }
            }
            assert forall|i: int| 0 <= i < self.children@.len() implies {
                &&& wf(self.children@[i])
                &&& self.children@[i].max_size == self.max_size
                &&& height(self.children@[i]) == height(self.children@[0])
            } by {
                assert(wf(pre));
                if i < idx {
                    assert(self.children@[i] == pre.children@[i]);
                    assert(wf(pre.children@[i]));
                } else if i > idx + 1 {
                    assert(self.children@[i] == pre.children@[i - 1]);
                    assert(wf(pre.children@[i - 1]));
                }
                assert(height(self.children@[i]) == h0);
                assert(height(self.children@[0]) == h0) by {
                    if idx > 0 {
                        assert(self.children@[0] == pre.children@[0]);
                    }
                }
            }
            assert(wf(*self));
            assert(height(*self) == height(pre)) by {
                assert(height(self.children@[0]) == h0);
            }
            if balanced(pre) {
                assert(balanced(c0));
                assert(balanced(lnode)) by {
                    assert forall|i: int| 0 <= i < lnode.children@.len() implies {
                        &&& balanced(lnode.children@[i])
                        &&& lnode.children@[i].items@.len() >= min_items(lnode.max_size as int)
                    } by {
                        assert(lnode.children@[i] == c0.children@[i]);
                        assert(balanced(c0.children@[i]));
                    }
                }
                assert(balanced(rnode)) by {
                    assert forall|i: int| 0 <= i < rnode.children@.len() implies {
                        &&& balanced(rnode.children@[i])
                        &&& rnode.children@[i].items@.len() >= min_items(rnode.max_size as int)
                    } by {
                        assert(rnode.children@[i] == c0.children@[i + m + 1]);
                        assert(balanced(c0.children@[i + m + 1]));
                    }
                }
                assert forall|i: int| 0 <= i < self.children@.len() implies {
                    &&& balanced(self.children@[i])
                    &&& self.children@[i].items@.len() >= min_items(self.max_size as int)
                } by {
                    if i < idx {
                        assert(self.children@[i] == pre.children@[i]);
                        assert(balanced(pre.children@[i]));
                    } else if i > idx + 1 {
                        assert(self.children@[i] == pre.children@[i - 1]);
                        assert(balanced(pre.children@[i - 1]));
                    }
                }
                assert(balanced(*self));
            }
        }
    }
}

} // verus!

verus! {

impl<V> Node<V> {
    /// Inserts `item` into the subtree below this node, which must not be
    /// full. A full child met on the way down is split before the descent
    /// continues. The traversal stays sorted and gains exactly one occurrence
    /// of the item's key; nothing else changes.
    #[verifier::rlimit(100)]
    pub fn insert(&mut self, item: Item<V>)
        requires
            wf(*old(self)),
            old(self).items@.len() < old(self).max_size,
        ensures
            wf(*final(self)),
            final(self).max_size == old(self).max_size,
            in_order(*final(self)).len() == in_order(*old(self)).len() + 1,
            forall|x: u64|
                key_count(in_order(*final(self)), x) == key_count(in_order(*old(self)), x) + (
                if x == item.key {
                    1int
                } else {
                    0int
                }),
            height(*final(self)) == height(*old(self)),
            final(self).children@.len() == 0 <==> old(self).children@.len() == 0,
            old(self).children@.len() == 0 ==> final(self).items@ == old(self).items@.insert(
                stable_slot(old(self).items@, item.key),
                item,
            ),
            old(self).items@.len() <= final(self).items@.len() <= old(self).items@.len() + 1,
            balanced(*old(self)) ==> balanced(*final(self)),
        decreases height(*old(self)),
    {
        let ghost pre = *old(self);
        let mut index: usize = self.items.len();
        while index > 0 && item.key < self.items[index - 1].key
            invariant
                index <= self.items@.len(),
                *self == pre,
                forall|l: int| index <= l < self.items@.len() ==> item.key < self.items@[l].key,
            decreases index,
        {
            index -= 1;
        }
        let ghost i0 = index as int;
        if self.is_leaf() {
            self.items.insert(index, item);
            proof {
                lemma_leaf_in_order(pre);
                lemma_leaf_in_order(*self);
                lemma_stable_slot_char(pre.items@, item.key);
                assert(i0 == stable_slot(pre.items@, item.key)) by {
                    let ss = stable_slot(pre.items@, item.key);
                    if i0 < ss {
                        assert(pre.items@[i0].key <= item.key);
                    } else if ss < i0 {
                        assert(pre.items@[ss].key > item.key);
                        assert(item_keys(pre.items@)[ss] <= item_keys(pre.items@)[i0 - 1]);
                        assert(pre.items@[i0 - 1].key <= item.key);
                    }
                }
                let ik = item_keys(pre.items@);
                let a = ik.subrange(0, i0);
                let b = ik.subrange(i0, ik.len() as int);
                assert(ik =~= a + b);
                assert(item_keys(self.items@) =~= a + seq![item.key] + b);
                assert forall|x: u64| key_count(in_order(*self), x) == key_count(
                    in_order(pre),
                    x,
                ) + (if x == item.key {
                    1int
                } else {
                    0int
                }) by {
                    lemma_key_count_concat(a, b, x);
                    lemma_key_count_concat(a + seq![item.key], b, x);
                    lemma_key_count_concat(a, seq![item.key], x);
                    lemma_key_count_single(item.key, x);
                    assert((a + seq![item.key]) + b =~= a + seq![item.key] + b);
                    assert(in_order(pre) == a + b);
                    assert(in_order(*self) == (a + seq![item.key]) + b);
                }
                assert forall|l: int| 0 <= l < a.len() implies a[l] <= item.key by {
                    assert(a[l] == ik[l]);
                    assert(ik[l] <= ik[i0 - 1]);
                    assert(ik[i0 - 1] == pre.items@[i0 - 1].key);
                }
                assert forall|l: int| 0 <= l < b.len() implies item.key <= b[l] by {
                    assert(b[l] == ik[i0 + l]);
                    assert(ik[i0 + l] == pre.items@[i0 + l].key);
                }
                lemma_sorted_glue(a, seq![item.key], b);
                assert(sorted(in_order(*self)));
                assert(in_order(*self).len() == in_order(pre).len() + 1);
            }
            return ;
        }
        let full = self.children[index].is_full();
        proof {
            assert(wf(pre.children@[i0]));
        }
        if full {
            self.split_child(index);
            if item.key > self.items[index].key {
                index += 1;
            }
        }
        let ghost mid = *self;
        let ghost idx = index as int;
        let mut child = self.children.remove(index);
        proof {
            assert(wf(mid.children@[idx]));
            assert(height(mid.children@[idx]) == height(mid.children@[0]));
            assert(height(mid) == height(mid.children@[0]) + 1);
            assert(height(mid) == height(pre));
        }
        child.insert(item);
        self.children.insert(index, child);
        proof {
            let fin = *self;
            let c0 = mid.children@[idx];
            // the key fits between the dividers around the chosen child
            assert(idx > 0 ==> mid.items@[idx - 1].key <= item.key) by {
                if idx > 0 {
                    if !full {
                        assert(mid.items@[idx - 1] == pre.items@[i0 - 1]);
                    } else if idx == i0 {
                        assert(mid.items@[idx - 1] == pre.items@[i0 - 1]);
                    } else {
                        assert(idx == i0 + 1);
                        assert(item.key > mid.items@[i0].key);
                    }
                }
            }
            assert(idx < mid.items@.len() ==> item.key <= mid.items@[idx].key) by {
                if idx < mid.items@.len() {
                    if !full {
                        assert(mid.items@[idx] == pre.items@[i0]);
                    } else if idx == i0 {
                        assert(!(item.key > mid.items@[i0].key));
                    } else {
                        assert(idx == i0 + 1);
                        assert(mid.items@[idx] == pre.items@[i0]);
                    }
                }
            }
            lemma_insert_step(mid, fin, idx, item.key);
            assert(in_order(mid) == in_order(pre));
            assert(height(fin) == height(pre)) by {
                assert(height(mid) == height(pre));
            }
            if balanced(pre) {
                assert(balanced(mid));
                assert forall|i: int|
                    0 <= i < fin.children@.len() implies (balanced(#[trigger] fin.children@[i])
                    && fin.children@[i].items@.len() >= min_items(fin.max_size as int)) by {
                    assert(balanced(mid.children@[i]));
                    if i != idx {
                        assert(fin.children@[i] == mid.children@[i]);
                    }
                }
                assert(balanced(fin));
            }
        }
    }

    /// Rotates one item from the sibling at `src` through the parent divider
    /// into the needy child at `dest`: the sibling's item nearest the divider
    /// replaces the divider, and the old divider joins the needy child on the
    /// side facing the sibling. Item counts of the node itself are unchanged.
    #[verifier::rlimit(100)]
    #[verifier::spinoff_prover]
    pub fn take_item_from(&mut self, dest: usize, src: usize)
        requires
            old(self).children@.len() == old(self).items@.len() + 1,
            src < old(self).children@.len(),
            dest < old(self).children@.len(),
            src + 1 == dest || dest + 1 == src,
            old(self).children@[src as int].items@.len() >= 1,
        ensures
            final(self).max_size == old(self).max_size,
            final(self).children@.len() == old(self).children@.len(),
            final(self).items@.len() == old(self).items@.len(),
            forall|l: int|
                0 <= l < final(self).items@.len() && l != (if src < dest {
                    src as int
                } else {
                    dest as int
                }) ==> final(self).items@[l] == old(self).items@[l],
            forall|l: int|
                0 <= l < final(self).children@.len() && l != src && l != dest ==> final(self).children@[l] == old(self).children@[l],
            final(self).children@[src as int].max_size == old(
                self,
            ).children@[src as int].max_size,
            final(self).children@[dest as int].max_size == old(
                self,
            ).children@[dest as int].max_size,
            final(self).children@[src as int].children@ == old(
                self,
            ).children@[src as int].children@,
            final(self).children@[dest as int].children@ == old(
                self,
            ).children@[dest as int].children@,
            forall|x: u64| subtree_count(*final(self), x) == subtree_count(*old(self), x),
            src < dest ==> {
                &&& final(self).items@[src as int] == old(self).children@[src as int].items@.last()
                &&& final(self).children@[src as int].items@ == old(
                    self,
                ).children@[src as int].items@.drop_last()
                &&& final(self).children@[dest as int].items@ == seq![
                    old(self).items@[src as int],
                ] + old(self).children@[dest as int].items@
            },
            dest < src ==> {
                &&& final(self).items@[dest as int] == old(
                    self,
                ).children@[src as int].items@.first()
                &&& final(self).children@[src as int].items@ == old(
                    self,
                ).children@[src as int].items@.drop_first()
                &&& final(self).children@[dest as int].items@ == old(
                    self,
                ).children@[dest as int].items@ + seq![old(self).items@[dest as int]]
            },
    {
        let divider_at = if src < dest {
            src
        } else {
            dest
        };
        let mut sibling = self.children.remove(src);
        let taken_item = if src < dest {
            let last = sibling.items.len() - 1;
            sibling.items.remove(last)
        } else {
            sibling.items.remove(0)
        };
        self.children.insert(src, sibling);
        let old_divider = self.items.remove(divider_at);
        self.items.insert(divider_at, taken_item);
        let mut needy = self.children.remove(dest);
        if src < dest {
            needy.items.insert(0, old_divider);
        } else {
            needy.items.push(old_divider);
        }
        self.children.insert(dest, needy);
        proof {
            if src < dest {
                assert(final(self).children@[src as int].items@ =~= old(
                    self,
                ).children@[src as int].items@.drop_last());
                assert(final(self).children@[dest as int].items@ =~= seq![
                    old(self).items@[src as int],
                ] + old(self).children@[dest as int].items@);
            } else {
                assert(final(self).children@[src as int].items@ =~= old(
                    self,
                ).children@[src as int].items@.drop_first());
                assert(final(self).children@[dest as int].items@ =~= old(
                    self,
                ).children@[dest as int].items@ + seq![old(self).items@[dest as int]]);
            }
            let pre = *old(self);
            let fin = *self;
            let si = src as int;
            let di = dest as int;
            let da = if src < dest {
                si
            } else {
                di
            };
            let sibp = pre.children@[si];
            let sibf = fin.children@[si];
            let needyp = pre.children@[di];
            let needyf = fin.children@[di];
            let taken_key = fin.items@[da].key;
            let d = pre.items@[da];
            assert forall|x: u64| subtree_count(fin, x) == subtree_count(pre, x) by {
                // the node's own run: the divider swapped for the taken item
                let ik = item_keys(pre.items@);
                assert(item_keys(fin.items@) =~= ik.remove(da).insert(da, taken_key));
                lemma_key_count_remove(ik, da, x);
                lemma_key_count_insert(ik.remove(da), da, taken_key, x);
                // the two touched children trade one item through the divider
                if src < dest {
                    assert(item_keys(sibf.items@) =~= item_keys(sibp.items@).remove(
                        sibp.items@.len() - 1,
                    ));
                    lemma_key_count_remove(item_keys(sibp.items@), sibp.items@.len() - 1, x);
                    assert(taken_key == item_keys(sibp.items@)[sibp.items@.len() - 1]);
                    assert(item_keys(needyf.items@) =~= seq![d.key] + item_keys(needyp.items@));
                    lemma_key_count_concat(seq![d.key], item_keys(needyp.items@), x);
                    lemma_key_count_single(d.key, x);
                } else {
                    assert(item_keys(sibf.items@) =~= item_keys(sibp.items@).remove(0));
                    lemma_key_count_remove(item_keys(sibp.items@), 0, x);
                    assert(taken_key == item_keys(sibp.items@)[0]);
                    assert(item_keys(needyf.items@) =~= item_keys(needyp.items@) + seq![d.key]);
                    lemma_key_count_concat(item_keys(needyp.items@), seq![d.key], x);
                    lemma_key_count_single(d.key, x);
                }
                assert(sum_counts(sibf.children@, 0, x) == sum_counts(sibp.children@, 0, x));
                assert(sum_counts(needyf.children@, 0, x) == sum_counts(needyp.children@, 0, x));
                // the run of children, two slots replaced
                let cs1 = pre.children@.update(si, sibf);
                assert(fin.children@ =~= cs1.update(di, needyf));
                lemma_sum_update(pre.children@, si, sibf, 0, x);
                assert(cs1[di] == needyp);
                lemma_sum_update(cs1, di, needyf, 0, x);
            }
        }
    }

    /// After a removal below the child at `index`, restores that child's
    /// minimum size: a child still within bounds needs nothing; otherwise an
    /// item is borrowed from a sibling with surplus, or the child is merged
    /// with a sibling. The preferred sibling is the left one except at the
    /// leftmost child. Borrowing moves items only, so it restores the shape
    /// completely only between leaves; the contract states the repair for
    /// exactly the cases the step can repair.
    #[verifier::rlimit(100)]
    pub fn rebalance_after_removal(&mut self, index: usize)
        requires
            old(self).children@.len() == old(self).items@.len() + 1,
            old(self).children@.len() >= 2,
            index < old(self).children@.len(),
        ensures
            final(self).max_size == old(self).max_size,
            old(self).children@.len() - 1 <= final(self).children@.len() <= old(
                self,
            ).children@.len(),
            old(self).children@[index as int].items@.len() >= old(self).max_size as int / 2
                ==> *final(self) == *old(self),
            forall|x: u64| subtree_count(*final(self), x) == subtree_count(*old(self), x),
            final(self).items@.len() - old(self).items@.len() == final(self).children@.len() - old(
                self,
            ).children@.len(),
            old(self).items@.len() - 1 <= final(self).items@.len() <= old(self).items@.len(),
            ({
                let needy = old(self).children@[index as int].items@.len() < old(
                    self,
                ).max_size as int / 2;
                let merging = needy && merge_chosen(*old(self), index as int);
                needy && !merging && index != 0 ==> {
                    &&& final(self).items@.len() == old(self).items@.len()
                    &&& final(self).children@.len() == old(self).children@.len()
                    &&& final(self).items@[index - 1] == old(self).children@[index
                        - 1].items@.last()
                    &&& final(self).children@[index - 1].items@ == old(self).children@[index
                        - 1].items@.drop_last()
                    &&& final(self).children@[index as int].items@ == seq![
                        old(self).items@[index - 1],
                    ] + old(self).children@[index as int].items@
                    &&& final(self).children@[index - 1].children@ == old(self).children@[index
                        - 1].children@
                    &&& final(self).children@[index as int].children@ == old(
                        self,
                    ).children@[index as int].children@
                    &&& forall|l: int|
                        0 <= l < final(self).items@.len() && l != index - 1 ==> final(self).items@[l] == old(self).items@[l]
                    &&& forall|l: int|
                        0 <= l < final(self).children@.len() && l != index - 1 && l != index
                            ==> final(self).children@[l] == old(self).children@[l]
                }
            }),
            ({
                let needy = old(self).children@[index as int].items@.len() < old(
                    self,
                ).max_size as int / 2;
                let merging = needy && merge_chosen(*old(self), index as int);
                needy && !merging && index == 0 ==> {
                    &&& final(self).items@.len() == old(self).items@.len()
                    &&& final(self).children@.len() == old(self).children@.len()
                    &&& final(self).items@[0] == old(self).children@[1].items@.first()
                    &&& final(self).children@[1].items@ == old(self).children@[1].items@.drop_first()
                    &&& final(self).children@[0].items@ == old(self).children@[0].items@ + seq![
                        old(self).items@[0],
                    ]
                    &&& final(self).children@[0].children@ == old(self).children@[0].children@
                    &&& final(self).children@[1].children@ == old(self).children@[1].children@
                    &&& forall|l: int|
                        0 <= l < final(self).items@.len() && l != 0 ==> final(self).items@[l]
                            == old(self).items@[l]
                    &&& forall|l: int|
                        0 <= l < final(self).children@.len() && l != 0 && l != 1 ==> final(self).children@[l] == old(self).children@[l]
                }
            }),
            ({
                let needy = old(self).children@[index as int].items@.len() < old(
                    self,
                ).max_size as int / 2;
                let merging = needy && merge_chosen(*old(self), index as int);
                (rebalance_pre(*old(self), index as int) && (needy && !merging ==> old(
                    self,
                ).children@[index as int].children@.len() == 0)) ==> {
                    &&& wf(*final(self))
                    &&& balanced(*final(self))
                    &&& in_order(*final(self)) == in_order(*old(self))
                    &&& height(*final(self)) == height(*old(self))
                    &&& final(self).items@.len() == old(self).items@.len() - (if merging {
                        1int
                    } else {
                        0int
                    })
                    &&& final(self).children@.len() == old(self).children@.len() - (if merging {
                        1int
                    } else {
                        0int
                    })
                    &&& forall|l: int|
                        0 <= l < final(self).children@.len()
                            ==> final(self).children@[l].items@.len() >= min_items(
                            old(self).max_size as int,
                        )
                }
            }),
    {
        let ghost pre = *old(self);
        let ghost idx = index as int;
        let ghost cap = pre.max_size as int;
        let ghost mb = min_items(cap);
        if self.children[index].items.len() >= self.max_size / 2 {
            proof {
                if rebalance_pre(pre, idx) {
                    assert forall|l: int|
                        0 <= l < self.children@.len() implies (balanced(
                        #[trigger] self.children@[l]) && self.children@[l].items@.len()
                        >= mb) by {}
                    assert(balanced(*self));
                }
            }
            return ;
        }
        let min_size = self.max_size / 2;
        if index != 0 {
            if self.is_leaf() {
                return ;
            }
            if self.children[index - 1].items.len() > min_size {
                self.take_item_from(index, index - 1);
                proof {
                    if rebalance_pre(pre, idx) && pre.children@[idx].children@.len() == 0 {
                        lemma_borrow_step(pre, *self, idx, idx - 1);
                        assert forall|l: int|
                            0 <= l < self.children@.len() implies (balanced(
                            #[trigger] self.children@[l]) && self.children@[l].items@.len()
                            >= mb) by {
                            if l != idx && l != idx - 1 {
                                assert(self.children@[l] == pre.children@[l]);
                            }
                        }
                        assert(balanced(*self));
                    }
                }
                return ;
            }
            self.merge_child(index - 1);
            proof {
                if rebalance_pre(pre, idx) {
                    lemma_merge_step(pre, *self, idx - 1);
                assert forall|l: int|
                    0 <= l < self.children@.len() implies (balanced(#[trigger] self.children@[l])
                    && self.children@[l].items@.len() >= mb) by {
                    if l < idx - 1 {
                        assert(self.children@[l] == pre.children@[l]);
                    } else if l > idx - 1 {
                        assert(self.children@[l] == pre.children@[l + 1]);
                    }
                }
                assert(balanced(*self));
                }
            }
            return ;
        }
        if self.children[index + 1].items.len() > min_size {
            self.take_item_from(index, index + 1);
            proof {
                if rebalance_pre(pre, idx) && pre.children@[idx].children@.len() == 0 {
                    lemma_borrow_step(pre, *self, idx, idx + 1);
                    assert forall|l: int|
                        0 <= l < self.children@.len() implies (balanced(
                        #[trigger] self.children@[l]) && self.children@[l].items@.len() >= mb) by {
                        if l != idx && l != idx + 1 {
                            assert(self.children@[l] == pre.children@[l]);
                        }
                    }
                    assert(balanced(*self));
                }
            }
            return ;
        }
        self.merge_child(index);
        proof {
            if rebalance_pre(pre, idx) {
                lemma_merge_step(pre, *self, idx);
            assert forall|l: int|
                0 <= l < self.children@.len() implies (balanced(#[trigger] self.children@[l])
                && self.children@[l].items@.len() >= mb) by {
                if l < idx {
                    assert(self.children@[l] == pre.children@[l]);
                } else if l > idx {
                    assert(self.children@[l] == pre.children@[l + 1]);
                }
            }
            assert(balanced(*self));
            }
        }
    }

    /// Folds the child at `left_index`, the divider right of it, and the
    /// following sibling into a single child: the divider becomes the middle
    /// item of the merged run, and (for internal children) the sibling's
    /// children follow its items. The node loses that divider and one child.
    pub fn merge_child(&mut self, left_index: usize)
        requires
            old(self).children@.len() == old(self).items@.len() + 1,
            left_index + 1 < old(self).children@.len(),
        ensures
            final(self).max_size == old(self).max_size,
            final(self).items@ == old(self).items@.remove(left_index as int),
            final(self).children@.len() == old(self).children@.len() - 1,
            forall|l: int|
                0 <= l < left_index ==> final(self).children@[l] == old(self).children@[l],
            forall|l: int|
                left_index < l < final(self).children@.len() ==> final(self).children@[l] == old(
                    self,
                ).children@[l + 1],
            final(self).children@[left_index as int].max_size == old(
                self,
            ).children@[left_index as int].max_size,
            final(self).children@[left_index as int].items@ == old(
                self,
            ).children@[left_index as int].items@ + seq![old(self).items@[left_index as int]]
                + old(self).children@[left_index + 1].items@,
            final(self).children@[left_index as int].children@ == old(
                self,
            ).children@[left_index as int].children@ + (if old(
                self,
            ).children@[left_index + 1].children@.len() > 0 {
                old(self).children@[left_index + 1].children@
            } else {
                Seq::<Node<V>>::empty()
            }),
            forall|x: u64| subtree_count(*final(self), x) == subtree_count(*old(self), x),
    {
        let mut left_node = self.children.remove(left_index);
        let taken_item = self.items.remove(left_index);
        left_node.items.push(taken_item);
        let mut right_node = self.children.remove(left_index);
        left_node.items.append(&mut right_node.items);
        if right_node.children.len() > 0 {
            left_node.children.append(&mut right_node.children);
        }
        self.children.insert(left_index, left_node);
        proof {
            assert(final(self).children@[left_index as int].items@ =~= old(
                self,
            ).children@[left_index as int].items@ + seq![old(self).items@[left_index as int]]
                + old(self).children@[left_index + 1].items@);
            let pre = *old(self);
            let fin = *self;
            let li = left_index as int;
            let lft = pre.children@[li];
            let rgt = pre.children@[li + 1];
            let m = fin.children@[li];
            let d = pre.items@[li];
            assert forall|x: u64| subtree_count(fin, x) == subtree_count(pre, x) by {
                // the merged child carries both halves and the divider
                assert(item_keys(m.items@) =~= item_keys(lft.items@) + (seq![d.key] + item_keys(
                    rgt.items@,
                )));
                lemma_key_count_concat(item_keys(lft.items@), seq![d.key] + item_keys(rgt.items@), x);
                lemma_key_count_concat(seq![d.key], item_keys(rgt.items@), x);
                lemma_key_count_single(d.key, x);
                if rgt.children@.len() > 0 {
                    assert(m.children@ == lft.children@ + rgt.children@);
                    lemma_sum_concat(lft.children@, rgt.children@, 0, x);
                } else {
                    assert(m.children@ =~= lft.children@);
                    assert(sum_counts(rgt.children@, 0, x) == 0);
                }
                assert(subtree_count(m, x) == subtree_count(lft, x) + (if d.key == x {
                    1nat
                } else {
                    0nat
                }) + subtree_count(rgt, x));
                // the node loses the divider and trades two children for one
                lemma_key_count_remove(item_keys(pre.items@), li, x);
                assert(item_keys(fin.items@) =~= item_keys(pre.items@).remove(li));
                let cs1 = pre.children@.remove(li);
                lemma_sum_remove(pre.children@, li, 0, x);
                assert(cs1[li] == pre.children@[li + 1]);
                lemma_sum_update(cs1, li, m, 0, x);
                assert(fin.children@ =~= cs1.update(li, m));
            }
        }
    }
}

} // verus!

verus! {

impl<V> Node<V> {
    /// Removes one item carrying `key` from the subtree, if any stands on the
    /// search path; a key the search bottoms out on in a leaf without a match
    /// is a no-op. After the recursive step the child descended into is
    /// rebalanced. The exact claims hold for the removals the steps repair
    /// completely (`removal_clean`); removing a divider out of an internal
    /// node is reproduced as designed and leaves that envelope.
    #[verifier::rlimit(100)]
    pub fn remove(&mut self, key: &u64)
        requires
            wf(*old(self)),
            balanced(*old(self)),
            old(self).children@.len() != 1,
            min_items(old(self).max_size as int) >= 1,
        ensures
            final(self).max_size == old(self).max_size,
            final(self).children@.len() == 0 <==> old(self).children@.len() == 0,
            found_in(old(self).items@, *key) ==> {
                &&& final(self).items@ == old(self).items@.remove(
                    slot_of(old(self).items@, *key),
                )
                &&& final(self).children@ == old(self).children@
            },
            forall|x: u64|
                subtree_count(*final(self), x) + (if x == *key && removes(*old(self), *key) {
                    1nat
                } else {
                    0nat
                }) == subtree_count(*old(self), x),
            old(self).items@.len() - 1 <= final(self).items@.len() <= old(self).items@.len(),
            old(self).children@.len() > 0 && !found_in(old(self).items@, *key) ==> final(self).children@.len() - old(self).children@.len() == final(self).items@.len() - old(
                self,
            ).items@.len(),
            removal_clean(*old(self), *key) ==> {
                &&& wf(*final(self))
                &&& balanced(*final(self))
                &&& in_order(*final(self)) == remove_key(in_order(*old(self)), *key)
                &&& final(self).items@.len() == old(self).items@.len() - (if shrinks(
                    *old(self),
                    *key,
                ) {
                    1int
                } else {
                    0int
                })
                &&& height(*final(self)) == height(*old(self))
            },
        decreases height(*old(self)),
    {
        let ghost pre = *old(self);
        let mut i: usize = 0;
        while i < self.items.len() && self.items[i].key < *key
            invariant
                *self == pre,
                i <= self.items@.len(),
                forall|l: int| 0 <= l < i ==> self.items@[l].key < *key,
            decreases self.items@.len() - i,
        {
            i += 1;
        }
        let ghost ii = i as int;
        proof {
            lemma_slot_of_char(pre.items@, *key);
            assert(ii == slot_of(pre.items@, *key)) by {
                let sp = slot_of(pre.items@, *key);
                if ii < sp {
                    assert(pre.items@[ii].key < *key);
                } else if sp < ii {
                    assert(pre.items@[sp].key < *key);
                }
            }
        }
        let found = i < self.items.len() && self.items[i].key == *key;
        if found {
            self.items.remove(i);
            proof {
                assert(found_in(pre.items@, *key));
                assert(shrinks(pre, *key));
                assert(removes(pre, *key));
                assert forall|x: u64| subtree_count(*self, x) + (if x == *key && removes(
                    pre,
                    *key,
                ) {
                    1nat
                } else {
                    0nat
                }) == subtree_count(pre, x) by {
                    assert(item_keys(self.items@) =~= item_keys(pre.items@).remove(ii));
                    lemma_key_count_remove(item_keys(pre.items@), ii, x);
                    assert(item_keys(pre.items@)[ii] == *key);
                    assert(sum_counts(self.children@, 0, x) == sum_counts(pre.children@, 0, x));
                }
                if pre.children@.len() == 0 {
                    lemma_leaf_in_order(pre);
                    lemma_leaf_in_order(*self);
                    let tt = item_keys(pre.items@);
                    let a = tt.subrange(0, ii);
                    let b = tt.subrange(ii + 1, tt.len() as int);
                    assert(tt =~= a + (seq![*key] + b));
                    assert(!a.contains(*key)) by {
                        if a.contains(*key) {
                            let w = choose|w: int| 0 <= w < a.len() && a[w] == *key;
                            assert(pre.items@[w].key < *key);
                        }
                    }
                    lemma_remove_key_prefix(a, seq![*key] + b, *key);
                    assert((seq![*key] + b)[0] == *key);
                    assert(remove_key(seq![*key] + b, *key) =~= b);
                    assert(item_keys(self.items@) =~= a + b);
                    assert(in_order(*self) == remove_key(in_order(pre), *key));
                    lemma_remove_key_props(in_order(pre), *key);
                    assert(wf(*self));
                    assert(balanced(*self));
                }
            }
        } else if self.is_leaf() {
            proof {
                assert(!found_in(pre.items@, *key));
                assert(!shrinks(pre, *key));
                assert(!removes(pre, *key));
                lemma_leaf_in_order(pre);
                let tt = item_keys(pre.items@);
                assert(!tt.contains(*key)) by {
                    if tt.contains(*key) {
                        let w = choose|w: int| 0 <= w < tt.len() && tt[w] == *key;
                        if w >= ii {
                            assert(tt[w] >= tt[ii]);
                            assert(pre.items@[ii].key > *key);
                        } else {
                            assert(pre.items@[w].key < *key);
                        }
                    }
                }
                lemma_remove_key_absent(tt, *key);
            }
        } else {
            let mut child = self.children.remove(i);
            proof {
                assert(wf(pre.children@[ii]));
                assert(balanced(pre.children@[ii]));
                assert(child.children@.len() != 1) by {
                    if child.children@.len() > 0 {
                        assert(child.items@.len() >= min_items(pre.max_size as int));
                    }
                }
                assert(height(pre.children@[ii]) == height(pre.children@[0]));
                assert(height(pre) == height(pre.children@[0]) + 1);
            }
            child.remove(key);
            self.children.insert(i, child);
            let ghost mid = *self;
            proof {
                let c0 = pre.children@[ii];
                let c1 = mid.children@[ii];
                assert(removes(pre, *key) == removes(c0, *key));
                assert forall|x: u64| subtree_count(mid, x) + (if x == *key && removes(
                    pre,
                    *key,
                ) {
                    1nat
                } else {
                    0nat
                }) == subtree_count(pre, x) by {
                    assert(mid.children@ =~= pre.children@.update(ii, c1));
                    lemma_sum_update(pre.children@, ii, c1, 0, x);
                }
                if removal_clean(pre, *key) {
                    let c0 = pre.children@[ii];
                    let c1 = mid.children@[ii];
                    assert(removal_clean(c0, *key));
                    assert(wf(c1) && balanced(c1));
                    assert(in_order(c1) == remove_key(in_order(c0), *key));
                    let sl = slots(pre);
                    assert(sl == pre.children@.len());
                    assert(slots(mid) == sl);
                    lemma_seg_concat(pre, 0, ii, sl);
                    lemma_seg_concat(pre, ii, ii + 1, sl);
                    lemma_seg_concat(mid, 0, ii, sl);
                    lemma_seg_concat(mid, ii, ii + 1, sl);
                    lemma_seg_shift(mid, pre, 0, ii, 0);
                    lemma_seg_shift(mid, pre, ii + 1, sl, 0);
                    assert(seg(pre, ii + 1, ii + 1) == Seq::<u64>::empty());
                    assert(seg(mid, ii + 1, ii + 1) == Seq::<u64>::empty());
                    let p = seg(pre, 0, ii);
                    let t = seg(pre, ii + 1, sl);
                    let itempart = if ii < pre.items@.len() {
                        seq![pre.items@[ii].key]
                    } else {
                        Seq::<u64>::empty()
                    };
                    assert(seg(pre, ii, ii + 1) =~= in_order(c0) + itempart);
                    assert(seg(mid, ii, ii + 1) =~= in_order(c1) + itempart);
                    let q = itempart + t;
                    assert(in_order(pre) =~= p + (in_order(c0) + q));
                    assert(in_order(mid) =~= p + (in_order(c1) + q));
                    lemma_sorted_concat(p, in_order(c0) + q);
                    lemma_sorted_concat(in_order(c0), q);
                    assert forall|l: int| 0 <= l < p.len() implies p[l] < *key by {
                        lemma_seg_concat(pre, 0, ii - 1, ii);
                        assert(seg(pre, ii, ii) == Seq::<u64>::empty());
                        assert(seg(pre, ii - 1, ii) =~= (if ii - 1 < pre.children@.len() {
                            in_order(pre.children@[ii - 1])
                        } else {
                            Seq::<u64>::empty()
                        }) + seq![pre.items@[ii - 1].key]);
                        assert(p[p.len() - 1] == pre.items@[ii - 1].key);
                        assert(pre.items@[ii - 1].key < *key);
                        assert(p[l] <= p[p.len() - 1]);
                    }
                    assert forall|l: int| 0 <= l < q.len() implies q[l] > *key by {
                        assert(ii < pre.items@.len() || q.len() == 0) by {
                            if ii >= pre.items@.len() {
                                assert(sl == ii + 1);
                            }
                        }
                        assert(q[0] == pre.items@[ii].key);
                        assert(pre.items@[ii].key > *key);
                        assert(q[l] >= q[0]);
                    }
                    assert(!p.contains(*key)) by {
                        if p.contains(*key) {
                            let w = choose|w: int| 0 <= w < p.len() && p[w] == *key;
                        }
                    }
                    lemma_remove_key_prefix(p, in_order(c0) + q, *key);
                    if in_order(c0).contains(*key) {
                        lemma_remove_key_present(in_order(c0), q, *key);
                    } else {
                        lemma_remove_key_absent(in_order(c0), *key);
                        assert(!(in_order(c0) + q).contains(*key)) by {
                            if (in_order(c0) + q).contains(*key) {
                                let w = choose|w: int|
                                    0 <= w < (in_order(c0) + q).len() && (in_order(c0) + q)[w]
                                        == *key;
                                if w < in_order(c0).len() {
                                    assert(in_order(c0)[w] == *key);
                                } else {
                                    assert(q[w - in_order(c0).len()] == *key);
                                }
                            }
                        }
                        lemma_remove_key_absent(in_order(c0) + q, *key);
                    }
                    assert(in_order(mid) == remove_key(in_order(pre), *key));
                    lemma_remove_key_props(in_order(pre), *key);
                    assert(sorted(in_order(mid)));
                    assert forall|l: int| 0 <= l < mid.children@.len() implies (wf(
                        #[trigger] mid.children@[l]) && mid.children@[l].max_size == mid.max_size
                        && height(mid.children@[l]) == height(mid.children@[0])) by {
                        if l != ii {
                            assert(mid.children@[l] == pre.children@[l]);
                            assert(wf(pre.children@[l]));
                        }
                        assert(height(mid.children@[l]) == height(pre.children@[0]));
                        assert(height(mid.children@[0]) == height(pre.children@[0])) by {
                            if ii != 0 {
                                assert(mid.children@[0] == pre.children@[0]);
                            }
                        }
                    }
                    assert(wf(mid));
                    assert(rebalance_pre(mid, ii)) by {
                        assert forall|l: int| 0 <= l < mid.children@.len() implies balanced(
                            #[trigger] mid.children@[l],
                        ) by {
                            if l != ii {
                                assert(mid.children@[l] == pre.children@[l]);
                                assert(balanced(pre.children@[l]));
                            }
                        }
                        assert forall|l: int|
                            0 <= l < mid.children@.len() && l != ii implies mid.children@[l].items@.len()
                            >= min_items(mid.max_size as int) by {
                            assert(mid.children@[l] == pre.children@[l]);
                            assert(balanced(pre.children@[l]) && pre.children@[l].items@.len()
                                >= min_items(pre.max_size as int));
                        }
                    }
                }
            }
            self.rebalance_after_removal(i);
            proof {
                if removal_clean(pre, *key) {
                    let c0 = pre.children@[ii];
                    let c1 = mid.children@[ii];
                    let fin = *self;
                    let needy = c1.items@.len() < mid.max_size as int / 2;
                    let merging = needy && merge_chosen(mid, ii);
                    assert(merge_chosen(mid, ii) == merge_chosen(pre, ii)) by {
                        if ii != 0 {
                            assert(mid.children@[ii - 1] == pre.children@[ii - 1]);
                        } else {
                            assert(mid.children@[1] == pre.children@[1]);
                        }
                    }
                    assert(c1.items@.len() == c0.items@.len() - (if shrinks(c0, *key) {
                        1int
                    } else {
                        0int
                    }));
                    assert(needy && !merging ==> c1.children@.len() == 0) by {
                        assert(c0.children@.len() == 0 <==> c1.children@.len() == 0);
                    }
                    assert(wf(fin) && balanced(fin));
                    assert(in_order(fin) == in_order(mid));
                    assert(height(fin) == height(mid));
                    assert(height(mid) == height(pre)) by {
                        assert(height(mid.children@[0]) == height(pre.children@[0]));
                    }
                    assert(shrinks(pre, *key) == merging);
                    assert(fin.items@.len() == pre.items@.len() - (if merging {
                        1int
                    } else {
                        0int
                    }));
                }
            }
        }
    }
}

} // verus!
