use vstd::prelude::*;

use crate::model::{
    balanced, height, in_order, key_count, lemma_key_count_contains, lemma_remove_key_props,
    lemma_removes_iff_present, min_items, remove_key, removes, seg, slots, sorted, wf,
};
use crate::node::Node;
use crate::tree::{tree_wf, BTree};

verus! {

/// After any sequence of operations that keep the tree invariant, the
/// in-order traversal of the tree's keys is sorted.
pub proof fn lemma_tree_sorted<V>(t: BTree<V>)
    requires
        tree_wf(t),
    ensures
        sorted(in_order(t.root)),
{
}

/// Between operations, every node directly below a well-formed balanced node
/// holds between `min_items` and `max_size` items, is itself well-formed and
/// balanced — so the bound holds of every node below the root, by applying
/// this at each level — and an internal node has one child more than it has
/// items.
pub proof fn lemma_size_invariant<V>(n: Node<V>, i: int)
    requires
        wf(n),
        balanced(n),
        0 <= i < n.children@.len(),
    ensures
        min_items(n.max_size as int) <= n.children@[i].items@.len() <= n.max_size,
        wf(n.children@[i]),
        balanced(n.children@[i]),
        n.children@[i].children@.len() == 0 || n.children@[i].children@.len() == n.children@[
            i
        ].items@.len() + 1,
{
    assert(wf(n.children@[i]));
    assert(balanced(n.children@[i]));
}

/// For an odd capacity the kept minimum is exactly `capacity / 2` rounded
/// down; for an even capacity a split leaves the new sibling one item short
/// of that figure, so `min_items` is what the algorithms actually keep.
pub proof fn lemma_min_items_odd(cap: int)
    requires
        cap >= 2,
        cap % 2 == 1,
    ensures
        min_items(cap) == cap / 2,
{
}

/// Removing a key present exactly once in a sorted run shortens it by one
/// and leaves no occurrence behind; removing an absent key changes nothing.
/// Together with the removal contract this carries the claim to the tree's
/// traversal for every removal the rebalancing repairs completely.
pub proof fn lemma_remove_key_effect(s: Seq<u64>, k: u64)
    requires
        sorted(s),
    ensures
        key_count(s, k) >= 1 ==> remove_key(s, k).len() == s.len() - 1,
        key_count(s, k) >= 1 ==> key_count(remove_key(s, k), k) == key_count(s, k) - 1,
        key_count(s, k) == 1 ==> !remove_key(s, k).contains(k),
        key_count(s, k) == 0 ==> remove_key(s, k) == s,
        forall|x: u64| x != k ==> key_count(remove_key(s, k), x) == key_count(s, x),
        sorted(remove_key(s, k)),
{
    lemma_key_count_contains(s, k);
    lemma_remove_key_props(s, k);
    lemma_key_count_contains(remove_key(s, k), k);
}

/// A sorted run is determined by its counts: the insertion contract, which
/// promises a sorted traversal and each key's exact count, therefore pins the
/// traversal itself. After inserting keys into a fresh tree, the traversal is
/// exactly those keys, duplicates kept, in non-decreasing order.
pub proof fn lemma_sorted_counts_unique(a: Seq<u64>, b: Seq<u64>)
    requires
        sorted(a),
        sorted(b),
        forall|x: u64| key_count(a, x) == key_count(b, x),
    ensures
        a == b,
    decreases a.len(),
{
    if a.len() == 0 {
        if b.len() > 0 {
            lemma_key_count_contains(b, b[0]);
            lemma_key_count_contains(a, b[0]);
        }
        assert(a =~= b);
    } else {
        lemma_key_count_contains(a, a[0]);
        lemma_key_count_contains(b, a[0]);
        assert(b.len() > 0);
        assert(a[0] == b[0]) by {
            assert(b.contains(a[0]));
            let w = choose|w: int| 0 <= w < b.len() && b[w] == a[0];
            assert(b[0] <= a[0]);
            lemma_key_count_contains(b, b[0]);
            lemma_key_count_contains(a, b[0]);
            assert(a.contains(b[0]));
            let v = choose|v: int| 0 <= v < a.len() && a[v] == b[0];
            assert(a[0] <= b[0]);
        }
        assert(sorted(a.drop_first())) by {
            assert(forall|l: int| 0 <= l < a.drop_first().len() ==> a.drop_first()[l] == a[l + 1]);
        }
        assert(sorted(b.drop_first())) by {
            assert(forall|l: int| 0 <= l < b.drop_first().len() ==> b.drop_first()[l] == b[l + 1]);
        }
        assert forall|x: u64| key_count(a.drop_first(), x) == key_count(b.drop_first(), x) by {
            assert(key_count(a, x) == key_count(a.drop_first(), x) + if a[0] == x {
                1nat
            } else {
                0nat
            });
            assert(key_count(b, x) == key_count(b.drop_first(), x) + if b[0] == x {
                1nat
            } else {
                0nat
            });
        }
        lemma_sorted_counts_unique(a.drop_first(), b.drop_first());
        assert(a.len() == b.len());
        assert forall|l: int| 0 <= l < a.len() implies a[l] == b[l] by {
            if l > 0 {
                assert(a[l] == a.drop_first()[l - 1]);
                assert(b[l] == b.drop_first()[l - 1]);
            }
        }
        assert(a =~= b);
    }
}

/// On a well-formed tree a removal deletes an occurrence exactly when the key
/// is present in the traversal. Joined with the removal contracts — which
/// lower that key's traversal count by one exactly when the search deletes,
/// and touch no other count — a key present exactly once is gone afterwards,
/// and an absent key changes no count at all.
pub proof fn lemma_removal_hits_present_key<V>(n: Node<V>, key: u64)
    requires
        wf(n),
    ensures
        removes(n, key) <==> key_count(in_order(n), key) > 0,
{
    lemma_removes_iff_present(n, key);
    lemma_key_count_contains(in_order(n), key);
}

/// When a removal leaves an internal root without items, the root holds a
/// sole child whose subtree carries the whole traversal: replacing the root
/// by that child keeps every key and lowers the height by exactly one.
pub proof fn lemma_root_collapse<V>(r: Node<V>)
    requires
        wf(r),
        r.items@.len() == 0,
        r.children@.len() > 0,
    ensures
        r.children@.len() == 1,
        in_order(r) == in_order(r.children@[0]),
        height(r) == height(r.children@[0]) + 1,
{
    assert(slots(r) == 1);
    assert(seg(r, 1, 1) == Seq::<u64>::empty());
    assert(in_order(r) =~= in_order(r.children@[0]));
}

} // verus!
