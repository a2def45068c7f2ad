use vstd::prelude::*;

use crate::item::Item;
use crate::node::Node;

verus! {

/// The keys of a run of items, in the order the items stand.
pub open spec fn item_keys<V>(items: Seq<Item<V>>) -> Seq<u64> {
    items.map(|i: int, it: Item<V>| it.key)
}

/// How many slots a node spans: slot `i` covers child `i` (when present)
/// followed by item `i` (when present); an internal node ends with one child
/// beyond its last item.
pub open spec fn slots<V>(n: Node<V>) -> int {
    if n.children@.len() >= n.items@.len() {
        n.children@.len() as int
    } else {
        n.items@.len() as int
    }
}

/// The in-order keys contributed by slots `i..j` of `n`.
pub open spec fn seg<V>(n: Node<V>, i: int, j: int) -> Seq<u64>
    decreases n, j - i,
{
    if i < 0 || i >= j {
        Seq::empty()
    } else {
        let child_part = if i < n.children@.len() {
            in_order(n.children@[i])
        } else {
            Seq::empty()
        };
        let item_part = if i < n.items@.len() {
            seq![n.items@[i].key]
        } else {
            Seq::empty()
        };
        child_part + item_part + seg(n, i + 1, j)
    }
}

/// The in-order traversal of the keys in the subtree rooted at `n`.
pub open spec fn in_order<V>(n: Node<V>) -> Seq<u64>
    decreases n, slots(n) + 1,
{
    seg(n, 0, slots(n))
}

/// Height of the subtree rooted at `n`; a leaf has height zero.
pub open spec fn height<V>(n: Node<V>) -> nat
    decreases n,
{
    if n.children@.len() == 0 {
        0
    } else {
        height(n.children@[0]) + 1
    }
}

/// Non-decreasing order.
pub open spec fn sorted(s: Seq<u64>) -> bool {
    forall|p: int, q: int| 0 <= p <= q < s.len() ==> s[p] <= s[q]
}

/// The smallest item count the algorithms keep in a non-root node: a split of a
/// full node leaves the new right sibling with exactly this many items.
pub open spec fn min_items(cap: int) -> int {
    cap - cap / 2 - 1
}

/// Structural well-formedness of a subtree. The bound below the root is stated
/// separately (`balanced`), since the root itself is exempt from it.
pub open spec fn wf<V>(n: Node<V>) -> bool
    decreases n,
{
    &&& 2 <= n.max_size < usize::MAX
    &&& n.items@.len() <= n.max_size
    &&& n.children@.len() == 0 || n.children@.len() == n.items@.len() + 1
    &&& sorted(in_order(n))
    &&& forall|i: int|
        0 <= i < n.children@.len() ==> (wf(#[trigger] n.children@[i])
            && n.children@[i].max_size == n.max_size && height(n.children@[i]) == height(
            n.children@[0],
        ))
}

/// Every node strictly below `n` holds at least `min_items` items.
pub open spec fn balanced<V>(n: Node<V>) -> bool
    decreases n,
{
    forall|i: int|
        0 <= i < n.children@.len() ==> (balanced(#[trigger] n.children@[i])
            && n.children@[i].items@.len() >= min_items(n.max_size as int))
}

/// `s` without its first occurrence of `k`; `s` itself when `k` is absent.
pub open spec fn remove_key(s: Seq<u64>, k: u64) -> Seq<u64>
    decreases s.len(),
{
    if s.len() == 0 {
        s
    } else if s[0] == k {
        s.drop_first()
    } else {
        seq![s[0]] + remove_key(s.drop_first(), k)
    }
}

/// How many times `k` occurs in `s`.
pub open spec fn key_count(s: Seq<u64>, k: u64) -> nat
    decreases s.len(),
{
    if s.len() == 0 {
        0
    } else {
        key_count(s.drop_first(), k) + if s[0] == k {
            1nat
        } else {
            0
        }
    }
}

/// The first position in `items` whose key is at least `key`.
pub open spec fn slot_of<V>(items: Seq<Item<V>>, key: u64) -> int
    decreases items.len(),
{
    if items.len() == 0 {
        0
    } else if items[0].key >= key {
        0
    } else {
        1 + slot_of(items.drop_first(), key)
    }
}

/// The position where an insertion is stable: the first slot whose key is
/// strictly above `key`, so a new item lands after every existing item of
/// equal or lower key.
pub open spec fn stable_slot<V>(items: Seq<Item<V>>, key: u64) -> int
    decreases items.len(),
{
    if items.len() == 0 {
        0
    } else if items[0].key > key {
        0
    } else {
        1 + stable_slot(items.drop_first(), key)
    }
}

/// What `stable_slot` means: the first position whose key is above `key`.
pub proof fn lemma_stable_slot_char<V>(items: Seq<Item<V>>, key: u64)
    ensures
        0 <= stable_slot(items, key) <= items.len(),
        forall|l: int| 0 <= l < stable_slot(items, key) ==> items[l].key <= key,
        stable_slot(items, key) < items.len() ==> items[stable_slot(items, key)].key > key,
    decreases items.len(),
{
    if items.len() > 0 && items[0].key <= key {
        lemma_stable_slot_char(items.drop_first(), key);
        assert forall|l: int| 0 <= l < stable_slot(items, key) implies items[l].key <= key by {
            if l > 0 {
                assert(items.drop_first()[l - 1] == items[l]);
            }
        }
        if stable_slot(items, key) < items.len() {
            assert(items.drop_first()[stable_slot(items, key) - 1] == items[stable_slot(
                items,
                key,
            )]);
        }
    }
}

/// How many items in the subtree at `n` — its own run and everything below —
/// carry the key `x`.
pub open spec fn subtree_count<V>(n: Node<V>, x: u64) -> nat
    decreases n, 0int,
{
    key_count(item_keys(n.items@), x) + sum_counts(n.children@, 0, x)
}

/// The counts of `x` summed over the subtrees `cs[i..]`.
pub open spec fn sum_counts<V>(cs: Seq<Node<V>>, i: int, x: u64) -> nat
    decreases cs, cs.len() - i,
{
    if i < 0 || i >= cs.len() {
        0
    } else {
        subtree_count(cs[i], x) + sum_counts(cs, i + 1, x)
    }
}

/// Whether the search for `key` stops on a matching item of this very node.
pub open spec fn found_in<V>(items: Seq<Item<V>>, key: u64) -> bool {
    slot_of(items, key) < items.len() && items[slot_of(items, key)].key == key
}

/// Whether rebalancing after a removal below child `i` would merge rather than
/// borrow: the preferred sibling holds no surplus item.
pub open spec fn merge_chosen<V>(n: Node<V>, i: int) -> bool {
    if i != 0 {
        0 <= i - 1 < n.children@.len() && n.children@[i - 1].items@.len() <= n.max_size as int / 2
    } else {
        1 < n.children@.len() && n.children@[1].items@.len() <= n.max_size as int / 2
    }
}

/// Whether removing `key` below `n` shrinks `n`'s own item count by one:
/// either the key is removed from `n`'s items directly, or the rebalancing of
/// the child on the search path merges it with a sibling, consuming a divider.
pub open spec fn shrinks<V>(n: Node<V>, key: u64) -> bool
    decreases n,
{
    if found_in(n.items@, key) {
        true
    } else if n.children@.len() == 0 {
        false
    } else {
        let i = slot_of(n.items@, key);
        if 0 <= i < n.children@.len() {
            let child = n.children@[i];
            let after = child.items@.len() - (if shrinks(child, key) {
                1int
            } else {
                0int
            });
            after < n.max_size as int / 2 && merge_chosen(n, i)
        } else {
            false
        }
    }
}

/// Whether the search for `key` finds an occurrence to delete: the key
/// matches in this node's run, or the search continues below and matches
/// there.
pub open spec fn removes<V>(n: Node<V>, key: u64) -> bool
    decreases n,
{
    if found_in(n.items@, key) {
        true
    } else if n.children@.len() == 0 {
        false
    } else {
        let i = slot_of(n.items@, key);
        if 0 <= i < n.children@.len() {
            removes(n.children@[i], key)
        } else {
            false
        }
    }
}

/// Removing one position of a run lowers that element's count by one.
pub proof fn lemma_key_count_remove(s: Seq<u64>, i: int, x: u64)
    requires
        0 <= i < s.len(),
    ensures
        key_count(s.remove(i), x) + (if s[i] == x {
            1nat
        } else {
            0nat
        }) == key_count(s, x),
{
    let a = s.subrange(0, i);
    let b = s.subrange(i + 1, s.len() as int);
    assert(s =~= a + (seq![s[i]] + b));
    assert(s.remove(i) =~= a + b);
    lemma_key_count_concat(a, seq![s[i]] + b, x);
    lemma_key_count_concat(seq![s[i]], b, x);
    lemma_key_count_concat(a, b, x);
    lemma_key_count_single(s[i], x);
}

/// Inserting one element into a run raises its count by one.
pub proof fn lemma_key_count_insert(s: Seq<u64>, i: int, v: u64, x: u64)
    requires
        0 <= i <= s.len(),
    ensures
        key_count(s.insert(i, v), x) == key_count(s, x) + (if v == x {
            1nat
        } else {
            0nat
        }),
{
    let a = s.subrange(0, i);
    let b = s.subrange(i, s.len() as int);
    assert(s =~= a + b);
    assert(s.insert(i, v) =~= a + (seq![v] + b));
    lemma_key_count_concat(a, seq![v] + b, x);
    lemma_key_count_concat(seq![v], b, x);
    lemma_key_count_concat(a, b, x);
    lemma_key_count_single(v, x);
}

/// Replacing the subtree at one position changes the sum by the difference.
pub proof fn lemma_sum_update<V>(cs: Seq<Node<V>>, j: int, c: Node<V>, i: int, x: u64)
    requires
        0 <= j < cs.len(),
        0 <= i,
    ensures
        sum_counts(cs.update(j, c), i, x) + (if i <= j {
            subtree_count(cs[j], x)
        } else {
            0nat
        }) == sum_counts(cs, i, x) + (if i <= j {
            subtree_count(c, x)
        } else {
            0nat
        }),
    decreases cs.len() - i,
{
    if i < cs.len() {
        lemma_sum_update(cs, j, c, i + 1, x);
        if i != j {
            assert(cs.update(j, c)[i] == cs[i]);
        }
    }
}

/// Past the removed position the sums stand one place apart.
proof fn lemma_sum_shift_after<V>(cs: Seq<Node<V>>, j: int, l: int, x: u64)
    requires
        0 <= j < cs.len(),
        j <= l,
    ensures
        sum_counts(cs.remove(j), l, x) == sum_counts(cs, l + 1, x),
    decreases cs.len() - l,
{
    if l < cs.len() - 1 {
        assert(cs.remove(j)[l] == cs[l + 1]);
        lemma_sum_shift_after(cs, j, l + 1, x);
    }
}

/// Taking one subtree out of a run takes its count out of the sum.
pub proof fn lemma_sum_remove<V>(cs: Seq<Node<V>>, j: int, i: int, x: u64)
    requires
        0 <= j < cs.len(),
        0 <= i <= j,
    ensures
        sum_counts(cs.remove(j), i, x) + subtree_count(cs[j], x) == sum_counts(cs, i, x),
    decreases j - i,
{
    if i < j {
        assert(cs.remove(j)[i] == cs[i]);
        lemma_sum_remove(cs, j, i + 1, x);
    } else {
        lemma_sum_shift_after(cs, j, j, x);
    }
}

/// Sums past the end of the left run are sums of the right one.
proof fn lemma_sum_offset<V>(a: Seq<Node<V>>, b: Seq<Node<V>>, l: int, x: u64)
    requires
        0 <= l,
    ensures
        sum_counts(a + b, a.len() + l, x) == sum_counts(b, l, x),
    decreases b.len() - l,
{
    if l < b.len() {
        assert((a + b)[a.len() + l] == b[l]);
        lemma_sum_offset(a, b, l + 1, x);
    }
}

/// Two runs of subtrees sum part by part.
pub proof fn lemma_sum_concat<V>(a: Seq<Node<V>>, b: Seq<Node<V>>, i: int, x: u64)
    requires
        0 <= i <= a.len(),
    ensures
        sum_counts(a + b, i, x) == sum_counts(a, i, x) + sum_counts(b, 0, x),
    decreases a.len() - i,
{
    if i < a.len() {
        assert((a + b)[i] == a[i]);
        lemma_sum_concat(a, b, i + 1, x);
    } else {
        lemma_sum_offset(a, b, 0, x);
    }
}

/// The traversal's counts are the subtree's counts: slot by slot, each child
/// and each item contributes its own.
pub proof fn lemma_traversal_count<V>(n: Node<V>, x: u64)
    ensures
        key_count(in_order(n), x) == subtree_count(n, x),
    decreases n, slots(n) + 2,
{
    lemma_seg_sum(n, 0, x);
    assert(item_keys(n.items@).subrange(0, n.items@.len() as int) =~= item_keys(n.items@));
}

/// The counts of the traversal from slot `i` on: the remaining children's
/// sums plus the remaining items' keys.
proof fn lemma_seg_sum<V>(n: Node<V>, i: int, x: u64)
    requires
        0 <= i,
    ensures
        key_count(seg(n, i, slots(n)), x) == sum_counts(n.children@, i, x) + key_count(
            item_keys(n.items@).subrange(
                if i <= n.items@.len() {
                    i
                } else {
                    n.items@.len() as int
                },
                n.items@.len() as int,
            ),
            x,
        ),
    decreases n, slots(n) + 1 - i,
{
    let ik = item_keys(n.items@);
    let lo = if i <= n.items@.len() {
        i
    } else {
        n.items@.len() as int
    };
    if i >= slots(n) {
        assert(seg(n, i, slots(n)) == Seq::<u64>::empty());
        assert(key_count(Seq::<u64>::empty(), x) == 0);
        assert(sum_counts(n.children@, i, x) == 0);
        assert(ik.subrange(lo, n.items@.len() as int) =~= Seq::<u64>::empty());
    } else {
        let cp = if i < n.children@.len() {
            in_order(n.children@[i])
        } else {
            Seq::<u64>::empty()
        };
        let ip = if i < n.items@.len() {
            seq![n.items@[i].key]
        } else {
            Seq::<u64>::empty()
        };
        let rest = seg(n, i + 1, slots(n));
        assert(seg(n, i, slots(n)) == cp + ip + rest);
        assert(cp + ip + rest =~= cp + (ip + rest));
        lemma_key_count_concat(cp, ip + rest, x);
        lemma_key_count_concat(ip, rest, x);
        lemma_seg_sum(n, i + 1, x);
        if i < n.children@.len() {
            lemma_traversal_count(n.children@[i], x);
            assert(sum_counts(n.children@, i, x) == subtree_count(n.children@[i], x)
                + sum_counts(n.children@, i + 1, x));
        } else {
            assert(key_count(cp, x) == 0);
            assert(sum_counts(n.children@, i, x) == 0);
            assert(sum_counts(n.children@, i + 1, x) == 0);
        }
        if i < n.items@.len() {
            lemma_key_count_single(n.items@[i].key, x);
            assert(ik.subrange(lo, n.items@.len() as int) =~= seq![n.items@[i].key]
                + ik.subrange(i + 1, n.items@.len() as int));
            lemma_key_count_concat(
                seq![n.items@[i].key],
                ik.subrange(i + 1, n.items@.len() as int),
                x,
            );
        } else {
            assert(key_count(ip, x) == 0);
            assert(ik.subrange(lo, n.items@.len() as int) =~= Seq::<u64>::empty());
        }
    }
}

/// Whether removing `key` keeps the search path inside the cases the
/// algorithms repair completely: the key is matched only in a leaf, and every
/// rebalance on the way back up either finds the child within bounds, merges,
/// or borrows between leaves. (Removing a divider out of an internal node, or
/// borrowing between internal siblings, leaves the item/child pairing of a
/// node inconsistent: a known limit of the rebalancing design.)
pub open spec fn removal_clean<V>(n: Node<V>, key: u64) -> bool
    decreases n,
{
    if n.children@.len() == 0 {
        true
    } else if found_in(n.items@, key) {
        false
    } else {
        let i = slot_of(n.items@, key);
        if 0 <= i < n.children@.len() {
            let child = n.children@[i];
            let after = child.items@.len() - (if shrinks(child, key) {
                1int
            } else {
                0int
            });
            &&& removal_clean(child, key)
            &&& (after < n.max_size as int / 2 && !merge_chosen(n, i) ==> child.children@.len()
                == 0)
        } else {
            true
        }
    }
}

/// On a well-formed subtree the search is complete: the removal deletes an
/// occurrence exactly when the key stands somewhere in the traversal.
#[verifier::rlimit(60)]
pub proof fn lemma_removes_iff_present<V>(n: Node<V>, key: u64)
    requires
        wf(n),
    ensures
        removes(n, key) <==> in_order(n).contains(key),
    decreases n,
{
    lemma_slot_of_char(n.items@, key);
    let i = slot_of(n.items@, key);
    let sl = slots(n);
    if n.children@.len() == 0 {
        lemma_leaf_in_order(n);
        let ik = item_keys(n.items@);
        if found_in(n.items@, key) {
            assert(ik[i] == key);
            assert(in_order(n).contains(key));
        } else {
            assert(!removes(n, key));
            if ik.contains(key) {
                let w = choose|w: int| 0 <= w < ik.len() && ik[w] == key;
                if w < i {
                    assert(n.items@[w].key < key);
                } else {
                    assert(ik[i] <= ik[w]);
                    assert(n.items@[i].key > key);
                }
            }
        }
    } else {
        assert(n.children@.len() == n.items@.len() + 1);
        assert(sl == n.children@.len());
        let c = n.children@[i];
        assert(wf(c));
        lemma_removes_iff_present(c, key);
        lemma_seg_concat(n, 0, i, sl);
        lemma_seg_concat(n, i, i + 1, sl);
        assert(seg(n, i + 1, i + 1) == Seq::<u64>::empty());
        let p = seg(n, 0, i);
        let t = seg(n, i + 1, sl);
        let itempart = if i < n.items@.len() {
            seq![n.items@[i].key]
        } else {
            Seq::<u64>::empty()
        };
        assert(seg(n, i, i + 1) =~= in_order(c) + itempart);
        assert(in_order(n) =~= p + (in_order(c) + (itempart + t)));
        lemma_sorted_concat(p, in_order(c) + (itempart + t));
        lemma_sorted_concat(in_order(c), itempart + t);
        if found_in(n.items@, key) {
            assert((itempart + t)[0] == key);
            assert(in_order(n)[p.len() as int + in_order(c).len() as int] == key);
            assert(in_order(n).contains(key));
        } else {
            if removes(n, key) {
                assert(removes(c, key));
                assert(in_order(c).contains(key));
                let w = choose|w: int| 0 <= w < in_order(c).len() && in_order(c)[w] == key;
                assert(in_order(n)[p.len() as int + w] == key);
                assert(in_order(n).contains(key));
            }
            if in_order(n).contains(key) {
                let w = choose|w: int| 0 <= w < in_order(n).len() && in_order(n)[w] == key;
                assert forall|l: int| 0 <= l < p.len() implies p[l] < key by {
                    lemma_seg_concat(n, 0, i - 1, i);
                    assert(seg(n, i, i) == Seq::<u64>::empty());
                    assert(seg(n, i - 1, i) =~= (if i - 1 < n.children@.len() {
                        in_order(n.children@[i - 1])
                    } else {
                        Seq::<u64>::empty()
                    }) + seq![n.items@[i - 1].key]);
                    assert(p[p.len() - 1] == n.items@[i - 1].key);
                    assert(n.items@[i - 1].key < key);
                    assert(p[l] <= p[p.len() - 1]);
                }
                assert forall|l: int|
                    0 <= l < (itempart + t).len() implies (itempart + t)[l] > key by {
                    assert(i < n.items@.len() || (itempart + t).len() == 0) by {
                        if i >= n.items@.len() {
                            assert(sl == i + 1);
                        }
                    }
                    assert((itempart + t)[0] == n.items@[i].key);
                    assert(n.items@[i].key > key);
                    assert((itempart + t)[l] >= (itempart + t)[0]);
                }
                if w < p.len() as int {
                    assert(p[w] == key);
                } else if w < p.len() as int + in_order(c).len() as int {
                    assert(in_order(c)[w - p.len() as int] == key);
                    assert(in_order(c).contains(key));
                } else {
                    assert((itempart + t)[w - p.len() as int - in_order(c).len() as int] == key);
                }
                assert(removes(c, key));
            }
        }
    }
}

/// What the rebalancing step needs of the node around it to restore the
/// bound fully: a well-formed node whose children are balanced and, but for
/// the one the removal went through, hold the minimum, while that one is at
/// most one item short of it.
pub open spec fn rebalance_pre<V>(n: Node<V>, index: int) -> bool {
    &&& wf(n)
    &&& min_items(n.max_size as int) >= 1
    &&& 0 <= index < n.children@.len()
    &&& forall|l: int| 0 <= l < n.children@.len() ==> balanced(#[trigger] n.children@[l])
    &&& forall|l: int|
        0 <= l < n.children@.len() && l != index ==> n.children@[l].items@.len() >= min_items(
            n.max_size as int,
        )
    &&& n.children@[index].items@.len() + 1 >= min_items(n.max_size as int)
}

/// Traversal segments concatenate: slots `i..j` split at any `k` between.
pub proof fn lemma_seg_concat<V>(n: Node<V>, i: int, k: int, j: int)
    requires
        0 <= i <= k <= j,
    ensures
        seg(n, i, j) == seg(n, i, k) + seg(n, k, j),
    decreases k - i,
{
    if i >= k {
        assert(seg(n, i, k) == Seq::<u64>::empty());
        assert(seg(n, i, j) =~= seg(n, i, k) + seg(n, k, j));
    } else {
        lemma_seg_concat(n, i + 1, k, j);
        assert(seg(n, i, j) =~= seg(n, i, k) + seg(n, k, j));
    }
}

/// `x` cut back to the window `lo..hi`.
pub open spec fn clamp(lo: int, hi: int, x: int) -> int {
    if x < lo {
        lo
    } else if x > hi {
        hi
    } else {
        x
    }
}

/// Two nodes whose slots agree over a range (shifted by `d`) contribute the
/// same traversal piece over that range: both runs end at the same place
/// within the window, and hold the same children and items there.
pub proof fn lemma_seg_shift<V>(n1: Node<V>, n2: Node<V>, i: int, j: int, d: int)
    requires
        0 <= i,
        0 <= i + d,
        clamp(i, j, n1.children@.len() as int) == clamp(i, j, n2.children@.len() - d),
        clamp(i, j, n1.items@.len() as int) == clamp(i, j, n2.items@.len() - d),
        forall|l: int|
            i <= l < j && 0 <= l < n1.children@.len() ==> n1.children@[l] == n2.children@[l + d],
        forall|l: int| i <= l < j && 0 <= l < n1.items@.len() ==> n1.items@[l] == n2.items@[l + d],
    ensures
        seg(n1, i, j) == seg(n2, i + d, j + d),
    decreases j - i,
{
    if i >= j {
        assert(seg(n1, i, j) =~= seg(n2, i + d, j + d));
    } else {
        lemma_seg_shift(n1, n2, i + 1, j, d);
        assert(seg(n1, i, j) =~= seg(n2, i + d, j + d));
    }
}

/// Slots past both runs contribute nothing.
pub proof fn lemma_seg_beyond<V>(n: Node<V>, i: int, j: int)
    requires
        i >= n.children@.len(),
        i >= n.items@.len(),
        0 <= i,
    ensures
        seg(n, i, j) == Seq::<u64>::empty(),
    decreases j - i,
{
    if i < j {
        lemma_seg_beyond(n, i + 1, j);
    }
    assert(seg(n, i, j) =~= Seq::<u64>::empty());
}

/// A leaf's traversal is exactly its own run of keys.
pub proof fn lemma_leaf_in_order<V>(n: Node<V>)
    requires
        n.children@.len() == 0,
    ensures
        in_order(n) == item_keys(n.items@),
{
    lemma_leaf_seg(n, 0);
    assert(item_keys(n.items@).subrange(0, n.items@.len() as int) =~= item_keys(n.items@));
}

proof fn lemma_leaf_seg<V>(n: Node<V>, i: int)
    requires
        n.children@.len() == 0,
        0 <= i <= n.items@.len(),
    ensures
        seg(n, i, n.items@.len() as int) == item_keys(n.items@).subrange(
            i,
            n.items@.len() as int,
        ),
    decreases n.items@.len() - i,
{
    let m = n.items@.len() as int;
    if i >= m {
        assert(seg(n, i, m) =~= item_keys(n.items@).subrange(i, m));
    } else {
        lemma_leaf_seg(n, i + 1);
        assert(seg(n, i, m) =~= item_keys(n.items@).subrange(i, m));
    }
}

/// Splitting a sorted run: both halves are sorted and every element of the
/// first stands at or below every element of the second.
pub proof fn lemma_sorted_concat(a: Seq<u64>, b: Seq<u64>)
    requires
        sorted(a + b),
    ensures
        sorted(a),
        sorted(b),
        forall|p: int, q: int| 0 <= p < a.len() && 0 <= q < b.len() ==> a[p] <= b[q],
{
    assert forall|p: int, q: int| 0 <= p <= q < a.len() implies a[p] <= a[q] by {
        assert(a[p] == (a + b)[p] && a[q] == (a + b)[q]);
    }
    assert forall|p: int, q: int| 0 <= p <= q < b.len() implies b[p] <= b[q] by {
        assert(b[p] == (a + b)[p + a.len()] && b[q] == (a + b)[q + a.len()]);
    }
    assert forall|p: int, q: int| 0 <= p < a.len() && 0 <= q < b.len() implies a[p] <= b[q] by {
        assert(a[p] == (a + b)[p] && b[q] == (a + b)[q + a.len()]);
    }
}

/// Removal passes over a run that does not hold the key.
pub proof fn lemma_remove_key_prefix(a: Seq<u64>, b: Seq<u64>, k: u64)
    requires
        !a.contains(k),
    ensures
        remove_key(a + b, k) == a + remove_key(b, k),
    decreases a.len(),
{
    if a.len() == 0 {
        assert(a + b =~= b);
        assert(a + remove_key(b, k) =~= remove_key(b, k));
    } else {
        assert(a[0] != k);
        assert((a + b).drop_first() =~= a.drop_first() + b);
        assert(!a.drop_first().contains(k)) by {
            if a.drop_first().contains(k) {
                let q = choose|q: int| 0 <= q < a.drop_first().len() && a.drop_first()[q] == k;
                assert(a[q + 1] == k);
            }
        }
        lemma_remove_key_prefix(a.drop_first(), b, k);
        assert(remove_key(a + b, k) =~= a + remove_key(b, k));
    }
}

/// Removal stops inside the first run that holds the key.
pub proof fn lemma_remove_key_present(a: Seq<u64>, b: Seq<u64>, k: u64)
    requires
        a.contains(k),
    ensures
        remove_key(a + b, k) == remove_key(a, k) + b,
    decreases a.len(),
{
    if a[0] == k {
        assert((a + b).drop_first() =~= a.drop_first() + b);
        assert(remove_key(a + b, k) =~= remove_key(a, k) + b);
    } else {
        assert(a.drop_first().contains(k)) by {
            let q = choose|q: int| 0 <= q < a.len() && a[q] == k;
            assert(a.drop_first()[q - 1] == k);
        }
        assert((a + b).drop_first() =~= a.drop_first() + b);
        lemma_remove_key_present(a.drop_first(), b, k);
        assert(remove_key(a + b, k) =~= remove_key(a, k) + b);
    }
}

/// Removing an absent key changes nothing.
pub proof fn lemma_remove_key_absent(s: Seq<u64>, k: u64)
    requires
        !s.contains(k),
    ensures
        remove_key(s, k) == s,
    decreases s.len(),
{
    if s.len() > 0 {
        assert(s[0] != k);
        assert(!s.drop_first().contains(k)) by {
            if s.drop_first().contains(k) {
                let q = choose|q: int| 0 <= q < s.drop_first().len() && s.drop_first()[q] == k;
                assert(s[q + 1] == k);
            }
        }
        lemma_remove_key_absent(s.drop_first(), k);
        assert(remove_key(s, k) =~= s);
    }
}

/// What removal from a sorted run yields: one element shorter when the key is
/// present, sorted again, that key's count lowered by one and no other count
/// touched.
pub proof fn lemma_remove_key_props(s: Seq<u64>, k: u64)
    requires
        sorted(s),
    ensures
        s.contains(k) ==> remove_key(s, k).len() == s.len() - 1,
        !s.contains(k) ==> remove_key(s, k) == s,
        sorted(remove_key(s, k)),
        forall|x: u64|
            key_count(remove_key(s, k), x) == key_count(s, x) - if x == k && s.contains(k) {
                1int
            } else {
                0int
            },
    decreases s.len(),
{
    let r = remove_key(s, k);
    if s.len() == 0 {
        assert(!s.contains(k));
    } else if s[0] == k {
        assert(s.contains(k));
        assert(r == s.drop_first());
        assert(sorted(r)) by {
            assert(forall|p: int| 0 <= p < r.len() ==> r[p] == s[p + 1]);
        }
        assert forall|x: u64| key_count(r, x) == key_count(s, x) - (if x == k && s.contains(k) {
            1int
        } else {
            0int
        }) by {}
    } else {
        assert(sorted(s.drop_first())) by {
            assert(forall|p: int| 0 <= p < s.drop_first().len() ==> s.drop_first()[p] == s[p + 1]);
        }
        lemma_remove_key_props(s.drop_first(), k);
        let rest = remove_key(s.drop_first(), k);
        assert(r == seq![s[0]] + rest);
        assert(s.contains(k) <==> s.drop_first().contains(k)) by {
            if s.contains(k) {
                let q = choose|q: int| 0 <= q < s.len() && s[q] == k;
                assert(q != 0);
                assert(s.drop_first()[q - 1] == k);
            }
            if s.drop_first().contains(k) {
                let q = choose|q: int| 0 <= q < s.drop_first().len() && s.drop_first()[q] == k;
                assert(s[q + 1] == k);
            }
        }
        assert(sorted(r)) by {
            lemma_key_count_contains(s.drop_first(), k);
            assert forall|p: int, q: int| 0 <= p <= q < r.len() implies r[p] <= r[q] by {
                if p == 0 && q > 0 {
                    let e = rest[q - 1];
                    lemma_remove_key_elements(s.drop_first(), k, q - 1);
                }
            }
        }
        assert forall|x: u64| key_count(r, x) == key_count(s, x) - (if x == k && s.contains(k) {
            1int
        } else {
            0int
        }) by {
            assert(r.drop_first() =~= rest);
            assert(r.len() > 0 && r[0] == s[0]);
            assert(key_count(r, x) == key_count(rest, x) + if r[0] == x {
                1nat
            } else {
                0nat
            });
            assert(key_count(s, x) == key_count(s.drop_first(), x) + if s[0] == x {
                1nat
            } else {
                0nat
            });
        }
    }
}

/// Each element of a removal's result is drawn from the run it came from.
pub proof fn lemma_remove_key_elements(s: Seq<u64>, k: u64, p: int)
    requires
        0 <= p < remove_key(s, k).len(),
    ensures
        s.contains(remove_key(s, k)[p]),
    decreases s.len(),
{
    if s.len() == 0 {
    } else if s[0] == k {
        assert(remove_key(s, k)[p] == s[p + 1]);
    } else {
        if p == 0 {
            assert(s.contains(s[0]));
        } else {
            lemma_remove_key_elements(s.drop_first(), k, p - 1);
            let e = remove_key(s, k)[p];
            let q = choose|q: int| 0 <= q < s.drop_first().len() && s.drop_first()[q] == e;
            assert(s[q + 1] == e);
        }
    }
}

/// A node whose runs are a left part, one divider and a right part traverses
/// as the left part, the divider's key, then the right part. This is the shape
/// a split takes apart and a merge puts back together.
pub proof fn lemma_node_in_order_parts<V>(w: Node<V>, l: Node<V>, d: Item<V>, r: Node<V>)
    requires
        w.items@ == l.items@ + seq![d] + r.items@,
        (l.children@.len() == 0 && r.children@.len() == 0 && w.children@.len() == 0) || (
        l.children@.len() == l.items@.len() + 1 && r.children@.len() == r.items@.len() + 1
            && w.children@ == l.children@ + r.children@),
    ensures
        in_order(w) == in_order(l) + seq![d.key] + in_order(r),
{
    let lm = l.items@.len() as int;
    let rm = r.items@.len() as int;
    if w.children@.len() == 0 {
        lemma_leaf_in_order(w);
        lemma_leaf_in_order(l);
        lemma_leaf_in_order(r);
        assert(item_keys(w.items@) =~= item_keys(l.items@) + seq![d.key] + item_keys(r.items@));
    } else {
        let sw = slots(w);
        assert(sw == w.children@.len());
        lemma_seg_concat(w, 0, lm, sw);
        lemma_seg_concat(w, lm, lm + 1, sw);
        assert(w.items@[lm] == d);
        assert(w.children@[lm] == l.children@[lm]);
        assert(seg(w, lm, lm + 1) =~= in_order(w.children@[lm]) + seq![d.key]);
        // the left node's traversal is the first `lm` slots plus its last child
        lemma_seg_shift(l, w, 0, lm, 0);
        lemma_seg_concat(l, 0, lm, lm + 1);
        assert(seg(l, lm + 1, lm + 1) == Seq::<u64>::empty());
        assert(seg(l, lm, lm + 1) =~= in_order(l.children@[lm]));
        assert(in_order(l) == seg(l, 0, lm + 1));
        assert(in_order(l) == seg(w, 0, lm) + in_order(w.children@[lm]));
        // the right node's traversal is the remaining slots, shifted
        assert forall|x: int| 0 <= x < r.children@.len() implies r.children@[x] == w.children@[x
            + (lm + 1)] by {}
        assert forall|x: int| 0 <= x < r.items@.len() implies r.items@[x] == w.items@[x + (lm
            + 1)] by {}
        lemma_seg_shift(r, w, 0, rm + 1, lm + 1);
        assert(in_order(r) == seg(w, lm + 1, sw));
        assert(in_order(w) =~= in_order(l) + seq![d.key] + in_order(r));
    }
}

/// Counts add up over concatenation.
pub proof fn lemma_key_count_concat(a: Seq<u64>, b: Seq<u64>, k: u64)
    ensures
        key_count(a + b, k) == key_count(a, k) + key_count(b, k),
    decreases a.len(),
{
    if a.len() == 0 {
        assert(a + b =~= b);
    } else {
        assert((a + b).drop_first() =~= a.drop_first() + b);
        lemma_key_count_concat(a.drop_first(), b, k);
        assert((a + b)[0] == a[0]);
    }
}

/// Three sorted runs whose elements stand in order concatenate to a sorted run.
pub proof fn lemma_sorted_glue(p: Seq<u64>, c: Seq<u64>, q: Seq<u64>)
    requires
        sorted(p),
        sorted(c),
        sorted(q),
        forall|a: int, b: int| 0 <= a < p.len() && 0 <= b < c.len() ==> p[a] <= c[b],
        forall|a: int, b: int| 0 <= a < c.len() && 0 <= b < q.len() ==> c[a] <= q[b],
        forall|a: int, b: int| 0 <= a < p.len() && 0 <= b < q.len() ==> p[a] <= q[b],
    ensures
        sorted(p + c + q),
{
    let w = p + c + q;
    assert forall|a: int, b: int| 0 <= a <= b < w.len() implies w[a] <= w[b] by {
        let pl = p.len() as int;
        let cl = c.len() as int;
        if a < pl {
            assert(w[a] == p[a]);
        } else if a < pl + cl {
            assert(w[a] == c[a - pl]);
        } else {
            assert(w[a] == q[a - pl - cl]);
        }
        if b < pl {
            assert(w[b] == p[b]);
        } else if b < pl + cl {
            assert(w[b] == c[b - pl]);
        } else {
            assert(w[b] == q[b - pl - cl]);
        }
    }
}

/// What `slot_of` means: the first position whose key is not below `key`.
pub proof fn lemma_slot_of_char<V>(items: Seq<Item<V>>, key: u64)
    ensures
        0 <= slot_of(items, key) <= items.len(),
        forall|l: int| 0 <= l < slot_of(items, key) ==> items[l].key < key,
        slot_of(items, key) < items.len() ==> items[slot_of(items, key)].key >= key,
    decreases items.len(),
{
    if items.len() > 0 && items[0].key < key {
        lemma_slot_of_char(items.drop_first(), key);
        assert forall|l: int| 0 <= l < slot_of(items, key) implies items[l].key < key by {
            if l > 0 {
                assert(items.drop_first()[l - 1] == items[l]);
            }
        }
        if slot_of(items, key) < items.len() {
            assert(items.drop_first()[slot_of(items, key) - 1] == items[slot_of(items, key)]);
        }
    }
}

/// The count of a one-element run.
pub proof fn lemma_key_count_single(k: u64, x: u64)
    ensures
        key_count(seq![k], x) == if x == k {
            1nat
        } else {
            0nat
        },
{
    assert(seq![k].drop_first() =~= Seq::<u64>::empty());
    assert(key_count(seq![k].drop_first(), x) == 0);
}

/// Replacing the child on an insertion path: when the child at slot `idx`
/// grows by one occurrence of a key that fits between the dividers around it,
/// the node stays well-formed and its own traversal grows by that one
/// occurrence.
#[verifier::rlimit(60)]
pub proof fn lemma_insert_step<V>(mid: Node<V>, fin: Node<V>, idx: int, key: u64)
    requires
        wf(mid),
        mid.children@.len() == mid.items@.len() + 1,
        0 <= idx < mid.children@.len(),
        fin.items@ == mid.items@,
        fin.max_size == mid.max_size,
        fin.children@.len() == mid.children@.len(),
        forall|l: int|
            0 <= l < fin.children@.len() && l != idx ==> fin.children@[l] == mid.children@[l],
        wf(fin.children@[idx]),
        fin.children@[idx].max_size == mid.max_size,
        height(fin.children@[idx]) == height(mid.children@[idx]),
        in_order(fin.children@[idx]).len() == in_order(mid.children@[idx]).len() + 1,
        forall|x: u64|
            key_count(in_order(fin.children@[idx]), x) == key_count(
                in_order(mid.children@[idx]),
                x,
            ) + (if x == key {
                1int
            } else {
                0int
            }),
        idx > 0 ==> mid.items@[idx - 1].key <= key,
        idx < mid.items@.len() ==> key <= mid.items@[idx].key,
    ensures
        wf(fin),
        height(fin) == height(mid),
        in_order(fin).len() == in_order(mid).len() + 1,
        forall|x: u64|
            key_count(in_order(fin), x) == key_count(in_order(mid), x) + (if x == key {
                1int
            } else {
                0int
            }),
{
    let c0 = mid.children@[idx];
    let c1 = fin.children@[idx];
    let sl = slots(mid);
    assert(sl == mid.children@.len());
    assert(slots(fin) == sl);
    lemma_seg_concat(mid, 0, idx, sl);
    lemma_seg_concat(mid, idx, idx + 1, sl);
    lemma_seg_concat(fin, 0, idx, sl);
    lemma_seg_concat(fin, idx, idx + 1, sl);
    lemma_seg_shift(fin, mid, 0, idx, 0);
    lemma_seg_shift(fin, mid, idx + 1, sl, 0);
    let p = seg(mid, 0, idx);
    let t = seg(mid, idx + 1, sl);
    let itempart = if idx < mid.items@.len() {
        seq![mid.items@[idx].key]
    } else {
        Seq::<u64>::empty()
    };
    assert(seg(mid, idx + 1, idx + 1) == Seq::<u64>::empty());
    assert(seg(fin, idx + 1, idx + 1) == Seq::<u64>::empty());
    assert(seg(mid, idx, idx + 1) =~= in_order(c0) + itempart);
    assert(seg(fin, idx, idx + 1) =~= in_order(c1) + itempart);
    let q = itempart + t;
    assert(in_order(mid) =~= p + in_order(c0) + q);
    assert(in_order(fin) =~= p + in_order(c1) + q);
    // counts and length
    assert forall|x: u64| key_count(in_order(fin), x) == key_count(in_order(mid), x) + (if x
        == key {
        1int
    } else {
        0int
    }) by {
        lemma_key_count_concat(p, in_order(c0) + q, x);
        lemma_key_count_concat(in_order(c0), q, x);
        lemma_key_count_concat(p, in_order(c1) + q, x);
        lemma_key_count_concat(in_order(c1), q, x);
        assert((p + in_order(c0)) + q =~= p + (in_order(c0) + q));
        assert((p + in_order(c1)) + q =~= p + (in_order(c1) + q));
    }
    assert(in_order(fin).len() == in_order(mid).len() + 1);
    // order: left of the child everything is at most the key, right of it at
    // least the key
    assert(in_order(mid) =~= p + (in_order(c0) + q));
    lemma_sorted_concat(p, in_order(c0) + q);
    lemma_sorted_concat(in_order(c0), q);
    assert forall|l: int| 0 <= l < p.len() implies p[l] <= key by {
        lemma_seg_concat(mid, 0, idx - 1, idx);
        assert(seg(mid, idx, idx) == Seq::<u64>::empty());
        assert(seg(mid, idx - 1, idx) =~= (if idx - 1 < mid.children@.len() {
            in_order(mid.children@[idx - 1])
        } else {
            Seq::<u64>::empty()
        }) + seq![mid.items@[idx - 1].key]);
        assert(p[p.len() - 1] == mid.items@[idx - 1].key);
        assert(p[l] <= p[p.len() - 1]);
    }
    assert forall|l: int| 0 <= l < q.len() implies key <= q[l] by {
        assert(idx < mid.items@.len() || q.len() == 0) by {
            if idx >= mid.items@.len() {
                assert(sl == idx + 1);
            }
        }
        assert(q[0] == mid.items@[idx].key);
        assert(q[l] >= q[0]);
    }
    // the new child's elements are the old ones plus the key
    assert forall|a: int, b: int|
        0 <= a < p.len() && 0 <= b < in_order(c1).len() implies p[a] <= in_order(c1)[b] by {
        let e = in_order(c1)[b];
        if e != key {
            lemma_key_count_contains(in_order(c1), e);
            lemma_key_count_contains(in_order(c0), e);
            assert(in_order(c1).contains(e));
            let w = choose|w: int| 0 <= w < in_order(c0).len() && in_order(c0)[w] == e;
            assert((in_order(c0) + q)[w] == e);
        }
    }
    assert forall|a: int, b: int|
        0 <= a < in_order(c1).len() && 0 <= b < q.len() implies in_order(c1)[a] <= q[b] by {
        let e = in_order(c1)[a];
        if e != key {
            lemma_key_count_contains(in_order(c1), e);
            lemma_key_count_contains(in_order(c0), e);
            assert(in_order(c1).contains(e));
            let w = choose|w: int| 0 <= w < in_order(c0).len() && in_order(c0)[w] == e;
            assert((in_order(c0) + q)[w] == e);
            assert((in_order(c0) + q)[in_order(c0).len() + b] == q[b]);
        }
    }
    lemma_sorted_glue(p, in_order(c1), q);
    assert(sorted(in_order(fin)));
    // shape
    assert forall|i: int| 0 <= i < fin.children@.len() implies (wf(#[trigger] fin.children@[i])
        && fin.children@[i].max_size == fin.max_size && height(fin.children@[i]) == height(
        fin.children@[0],
    )) by {
        if i != idx {
            assert(fin.children@[i] == mid.children@[i]);
            assert(wf(mid.children@[i]));
        }
        assert(height(fin.children@[i]) == height(mid.children@[0])) by {
            assert(height(mid.children@[idx]) == height(mid.children@[0]));
        }
        assert(height(fin.children@[0]) == height(mid.children@[0])) by {
            if idx != 0 {
                assert(fin.children@[0] == mid.children@[0]);
            }
        }
    }
    assert(wf(fin));
    assert(height(fin) == height(mid)) by {
        assert(height(fin.children@[0]) == height(mid.children@[0]));
    }
}

/// Folding the children at slots `s` and `s + 1` with the divider between
/// them into one child preserves the traversal, well-formedness and the
/// balance of everything below.
#[verifier::rlimit(100)]
pub proof fn lemma_merge_step<V>(pre: Node<V>, fin: Node<V>, s: int)
    requires
        wf(pre),
        pre.children@.len() == pre.items@.len() + 1,
        0 <= s,
        s + 1 < pre.children@.len(),
        forall|l: int| 0 <= l < pre.children@.len() ==> balanced(#[trigger] pre.children@[l]),
        pre.children@[s].items@.len() + pre.children@[s + 1].items@.len() + 1 <= pre.max_size,
        fin.max_size == pre.max_size,
        fin.items@ == pre.items@.remove(s),
        fin.children@.len() == pre.children@.len() - 1,
        forall|l: int| 0 <= l < s ==> fin.children@[l] == pre.children@[l],
        forall|l: int| s < l < fin.children@.len() ==> fin.children@[l] == pre.children@[l + 1],
        fin.children@[s].max_size == pre.children@[s].max_size,
        fin.children@[s].items@ == pre.children@[s].items@ + seq![pre.items@[s]]
            + pre.children@[s + 1].items@,
        fin.children@[s].children@ == pre.children@[s].children@ + (if pre.children@[s
            + 1].children@.len() > 0 {
            pre.children@[s + 1].children@
        } else {
            Seq::<Node<V>>::empty()
        }),
    ensures
        wf(fin),
        in_order(fin) == in_order(pre),
        height(fin) == height(pre),
        forall|l: int| 0 <= l < fin.children@.len() ==> balanced(#[trigger] fin.children@[l]),
        fin.children@[s].items@.len() == pre.children@[s].items@.len() + 1 + pre.children@[s
            + 1].items@.len(),
{
    let a = pre.children@[s];
    let b = pre.children@[s + 1];
    let d = pre.items@[s];
    let w = fin.children@[s];
    assert(wf(a) && wf(b) && balanced(a) && balanced(b));
    assert(height(a) == height(b));
    assert(a.children@.len() == 0 <==> b.children@.len() == 0) by {
        if a.children@.len() == 0 {
            assert(height(a) == 0);
        } else {
            assert(height(a) > 0);
        }
        if b.children@.len() == 0 {
            assert(height(b) == 0);
        } else {
            assert(height(b) > 0);
        }
    }
    if b.children@.len() == 0 {
        assert(w.children@ =~= a.children@);
    }
    lemma_node_in_order_parts(w, a, d, b);
    // whole traversal unchanged
    let sl = slots(pre);
    assert(sl == pre.children@.len());
    assert(slots(fin) == sl - 1);
    lemma_seg_concat(pre, 0, s, sl);
    lemma_seg_concat(pre, s, s + 1, sl);
    lemma_seg_concat(pre, s + 1, s + 2, sl);
    lemma_seg_concat(fin, 0, s, sl - 1);
    lemma_seg_concat(fin, s, s + 1, sl - 1);
    lemma_seg_shift(fin, pre, 0, s, 0);
    lemma_seg_shift(fin, pre, s + 1, sl - 1, 1);
    assert(seg(pre, s + 1, s + 1) == Seq::<u64>::empty());
    assert(seg(pre, s + 2, s + 2) == Seq::<u64>::empty());
    assert(seg(fin, s + 1, s + 1) == Seq::<u64>::empty());
    assert(seg(pre, s, s + 1) =~= in_order(a) + seq![d.key]);
    let x = seg(pre, 0, s);
    let t = seg(pre, s + 2, sl);
    let itempart = if s + 1 < pre.items@.len() {
        seq![pre.items@[s + 1].key]
    } else {
        Seq::<u64>::empty()
    };
    assert(seg(pre, s + 1, s + 2) =~= in_order(b) + itempart);
    assert(seg(fin, s, s + 1) =~= in_order(w) + itempart) by {
        assert(s < fin.items@.len() <==> s + 1 < pre.items@.len());
        if s < fin.items@.len() {
            assert(fin.items@[s] == pre.items@[s + 1]);
        }
    }
    assert(in_order(pre) =~= x + (in_order(a) + seq![d.key] + in_order(b)) + (itempart + t));
    assert(in_order(fin) =~= x + in_order(w) + (itempart + t));
    assert(in_order(fin) == in_order(pre));
    // the merged child is well-formed
    assert(in_order(pre) =~= x + ((in_order(a) + seq![d.key] + in_order(b)) + (itempart + t)));
    lemma_sorted_concat(x, (in_order(a) + seq![d.key] + in_order(b)) + (itempart + t));
    lemma_sorted_concat(in_order(a) + seq![d.key] + in_order(b), itempart + t);
    assert(sorted(in_order(w)));
    assert(height(w) == height(a)) by {
        if a.children@.len() > 0 {
            assert(w.children@[0] == a.children@[0]);
        }
    }
    assert(wf(w)) by {
        assert forall|i: int| 0 <= i < w.children@.len() implies (wf(#[trigger] w.children@[i])
            && w.children@[i].max_size == w.max_size && height(w.children@[i]) == height(
            w.children@[0],
        )) by {
            if i < a.children@.len() {
                assert(w.children@[i] == a.children@[i]);
                assert(wf(a.children@[i]));
            } else {
                assert(w.children@[i] == b.children@[i - a.children@.len()]);
                assert(wf(b.children@[i - a.children@.len()]));
            }
            assert(w.children@[0] == a.children@[0]);
            assert(height(a.children@[0]) + 1 == height(a));
            assert(height(b.children@[0]) + 1 == height(b));
        }
    }
    assert(balanced(w)) by {
        assert forall|i: int| 0 <= i < w.children@.len() implies (balanced(
            #[trigger] w.children@[i],
        ) && w.children@[i].items@.len() >= min_items(w.max_size as int)) by {
            if i < a.children@.len() {
                assert(w.children@[i] == a.children@[i]);
                assert(balanced(a));
            } else {
                assert(w.children@[i] == b.children@[i - a.children@.len()]);
                assert(balanced(b));
            }
        }
    }
    // the node itself
    assert forall|i: int| 0 <= i < fin.children@.len() implies (wf(#[trigger] fin.children@[i])
        && fin.children@[i].max_size == fin.max_size && height(fin.children@[i]) == height(
        fin.children@[0],
    )) by {
        if i != s {
            if i < s {
                assert(fin.children@[i] == pre.children@[i]);
                assert(wf(pre.children@[i]));
            } else {
                assert(fin.children@[i] == pre.children@[i + 1]);
                assert(wf(pre.children@[i + 1]));
            }
        }
        assert(height(fin.children@[i]) == height(pre.children@[0]));
        assert(height(fin.children@[0]) == height(pre.children@[0])) by {
            if s != 0 {
                assert(fin.children@[0] == pre.children@[0]);
            }
        }
    }
    assert(wf(fin));
    assert(height(fin) == height(pre)) by {
        assert(height(fin.children@[0]) == height(pre.children@[0]));
    }
    assert forall|l: int| 0 <= l < fin.children@.len() implies balanced(
        #[trigger] fin.children@[l],
    ) by {
        if l != s {
            if l < s {
                assert(balanced(pre.children@[l]));
            } else {
                assert(balanced(pre.children@[l + 1]));
            }
        }
    }
}

/// The traversal and leaf-order facts of one borrow, by direction.
#[verifier::rlimit(100)]
#[verifier::spinoff_prover]
proof fn lemma_borrow_step_texts<V>(pre: Node<V>, fin: Node<V>, dest: int, src: int)
    requires
        wf(pre),
        pre.children@.len() == pre.items@.len() + 1,
        0 <= dest < pre.children@.len(),
        0 <= src < pre.children@.len(),
        src + 1 == dest || dest + 1 == src,
        pre.children@[dest].children@.len() == 0,
        pre.children@[src].items@.len() >= 1,
        pre.children@[dest].items@.len() + 1 <= pre.max_size,
        fin.max_size == pre.max_size,
        fin.children@.len() == pre.children@.len(),
        fin.items@.len() == pre.items@.len(),
        forall|l: int|
            0 <= l < fin.items@.len() && l != (if src < dest {
                src
            } else {
                dest
            }) ==> fin.items@[l] == pre.items@[l],
        forall|l: int|
            0 <= l < fin.children@.len() && l != src && l != dest ==> fin.children@[l]
                == pre.children@[l],
        fin.children@[src].max_size == pre.children@[src].max_size,
        fin.children@[dest].max_size == pre.children@[dest].max_size,
        fin.children@[src].children@ == pre.children@[src].children@,
        fin.children@[dest].children@ == pre.children@[dest].children@,
        src < dest ==> {
            &&& fin.items@[src] == pre.children@[src].items@.last()
            &&& fin.children@[src].items@ == pre.children@[src].items@.drop_last()
            &&& fin.children@[dest].items@ == seq![pre.items@[src]]
                + pre.children@[dest].items@
        },
        dest < src ==> {
            &&& fin.items@[dest] == pre.children@[src].items@.first()
            &&& fin.children@[src].items@ == pre.children@[src].items@.drop_first()
            &&& fin.children@[dest].items@ == pre.children@[dest].items@ + seq![
                pre.items@[dest],
            ]
        },
    ensures
        in_order(fin) == in_order(pre),
        sorted(item_keys(fin.children@[src].items@)),
        sorted(item_keys(fin.children@[dest].items@)),
{
    let sib = pre.children@[src];
    let child = pre.children@[dest];
    let sib2 = fin.children@[src];
    let child2 = fin.children@[dest];
    assert(wf(sib) && wf(child));
    assert(height(sib) == height(child));
    assert(height(child) == 0);
    assert(sib.children@.len() == 0) by {
        if sib.children@.len() > 0 {
            assert(height(sib) > 0);
        }
    }
    lemma_leaf_in_order(sib);
    lemma_leaf_in_order(child);
    lemma_leaf_in_order(sib2);
    lemma_leaf_in_order(child2);
    let kk = item_keys(sib.items@);
    let cc = item_keys(child.items@);
    let lo = if src < dest {
        src
    } else {
        dest
    };
    let sl = slots(pre);
    assert(sl == pre.children@.len());
    assert(slots(fin) == sl);
    lemma_seg_concat(pre, 0, lo, sl);
    lemma_seg_concat(pre, lo, lo + 1, sl);
    lemma_seg_concat(pre, lo + 1, lo + 2, sl);
    lemma_seg_concat(fin, 0, lo, sl);
    lemma_seg_concat(fin, lo, lo + 1, sl);
    lemma_seg_concat(fin, lo + 1, lo + 2, sl);
    lemma_seg_shift(fin, pre, 0, lo, 0);
    lemma_seg_shift(fin, pre, lo + 2, sl, 0);
    assert(seg(pre, lo + 1, lo + 1) == Seq::<u64>::empty());
    assert(seg(pre, lo + 2, lo + 2) == Seq::<u64>::empty());
    assert(seg(fin, lo + 1, lo + 1) == Seq::<u64>::empty());
    assert(seg(fin, lo + 2, lo + 2) == Seq::<u64>::empty());
    let x = seg(pre, 0, lo);
    let t = seg(pre, lo + 2, sl);
    let itempart = if lo + 1 < pre.items@.len() {
        seq![pre.items@[lo + 1].key]
    } else {
        Seq::<u64>::empty()
    };
    let d = pre.items@[lo];
    if src < dest {
        assert(seg(pre, lo, lo + 1) =~= kk + seq![d.key]);
        assert(seg(pre, lo + 1, lo + 2) =~= cc + itempart);
        assert(item_keys(sib2.items@) =~= kk.drop_last());
        assert(item_keys(child2.items@) =~= seq![d.key] + cc);
        assert(fin.items@[lo].key == kk.last());
        assert(seg(fin, lo, lo + 1) =~= kk.drop_last() + seq![kk.last()]);
        assert(seg(fin, lo + 1, lo + 2) =~= (seq![d.key] + cc) + itempart);
        assert(in_order(pre) =~= x + (kk + seq![d.key]) + (cc + itempart) + t);
        assert(in_order(fin) =~= x + (kk.drop_last() + seq![kk.last()]) + ((seq![d.key] + cc)
            + itempart) + t);
        assert(in_order(fin) =~= in_order(pre));
        assert(in_order(pre) =~= (x + kk) + ((seq![d.key] + cc) + (itempart + t)));
        lemma_sorted_concat(x + kk, (seq![d.key] + cc) + (itempart + t));
        lemma_sorted_concat(seq![d.key] + cc, itempart + t);
        assert(sorted(item_keys(child2.items@)));
        assert(sorted(item_keys(sib2.items@))) by {
            assert(sorted(kk));
            assert(forall|l: int| 0 <= l < kk.drop_last().len() ==> kk.drop_last()[l] == kk[l]);
        }
    } else {
        assert(seg(pre, lo, lo + 1) =~= cc + seq![d.key]);
        assert(seg(pre, lo + 1, lo + 2) =~= kk + itempart);
        assert(item_keys(sib2.items@) =~= kk.drop_first());
        assert(item_keys(child2.items@) =~= cc + seq![d.key]);
        assert(fin.items@[lo].key == kk.first());
        assert(seg(fin, lo, lo + 1) =~= (cc + seq![d.key]) + seq![kk.first()]);
        assert(seg(fin, lo + 1, lo + 2) =~= kk.drop_first() + itempart);
        assert(in_order(pre) =~= x + (cc + seq![d.key]) + (kk + itempart) + t);
        assert(in_order(fin) =~= x + ((cc + seq![d.key]) + seq![kk.first()]) + (kk.drop_first()
            + itempart) + t);
        assert(in_order(fin) =~= in_order(pre));
        assert(in_order(pre) =~= x + ((cc + seq![d.key]) + (kk + (itempart + t))));
        lemma_sorted_concat(x, (cc + seq![d.key]) + (kk + (itempart + t)));
        lemma_sorted_concat(cc + seq![d.key], kk + (itempart + t));
        assert(sorted(item_keys(child2.items@)));
        assert(sorted(item_keys(sib2.items@))) by {
            assert(sorted(kk));
            assert(forall|l: int|
                0 <= l < kk.drop_first().len() ==> kk.drop_first()[l] == kk[l + 1]);
        }
    }
}

/// Rotating an item from a leaf sibling through the divider into a needy leaf
/// preserves the traversal, well-formedness and balance below.
#[verifier::rlimit(100)]
#[verifier::spinoff_prover]
pub proof fn lemma_borrow_step<V>(pre: Node<V>, fin: Node<V>, dest: int, src: int)
    requires
        wf(pre),
        pre.children@.len() == pre.items@.len() + 1,
        0 <= dest < pre.children@.len(),
        0 <= src < pre.children@.len(),
        src + 1 == dest || dest + 1 == src,
        pre.children@[dest].children@.len() == 0,
        pre.children@[src].items@.len() >= 1,
        pre.children@[dest].items@.len() + 1 <= pre.max_size,
        fin.max_size == pre.max_size,
        fin.children@.len() == pre.children@.len(),
        fin.items@.len() == pre.items@.len(),
        forall|l: int|
            0 <= l < fin.items@.len() && l != (if src < dest {
                src
            } else {
                dest
            }) ==> fin.items@[l] == pre.items@[l],
        forall|l: int|
            0 <= l < fin.children@.len() && l != src && l != dest ==> fin.children@[l]
                == pre.children@[l],
        fin.children@[src].max_size == pre.children@[src].max_size,
        fin.children@[dest].max_size == pre.children@[dest].max_size,
        fin.children@[src].children@ == pre.children@[src].children@,
        fin.children@[dest].children@ == pre.children@[dest].children@,
        src < dest ==> {
            &&& fin.items@[src] == pre.children@[src].items@.last()
            &&& fin.children@[src].items@ == pre.children@[src].items@.drop_last()
            &&& fin.children@[dest].items@ == seq![pre.items@[src]]
                + pre.children@[dest].items@
        },
        dest < src ==> {
            &&& fin.items@[dest] == pre.children@[src].items@.first()
            &&& fin.children@[src].items@ == pre.children@[src].items@.drop_first()
            &&& fin.children@[dest].items@ == pre.children@[dest].items@ + seq![
                pre.items@[dest],
            ]
        },
    ensures
        wf(fin),
        in_order(fin) == in_order(pre),
        height(fin) == height(pre),
        fin.children@[dest].items@.len() == pre.children@[dest].items@.len() + 1,
        fin.children@[src].items@.len() == pre.children@[src].items@.len() - 1,
        forall|l: int| 0 <= l < fin.children@.len() ==> balanced(#[trigger] fin.children@[l]),
{
    let sib2 = fin.children@[src];
    let child2 = fin.children@[dest];
    lemma_borrow_step_texts(pre, fin, dest, src);
    assert forall|l: int| 0 <= l < pre.children@.len() implies (#[trigger] pre.children@[l]).children@.len()
        == 0 by {
        assert(wf(pre.children@[l]));
        assert(height(pre.children@[l]) == height(pre.children@[0]));
        assert(wf(pre.children@[dest]));
        assert(height(pre.children@[dest]) == 0);
        if pre.children@[l].children@.len() > 0 {
            assert(height(pre.children@[l]) > 0);
        }
    }
    lemma_leaf_in_order(sib2);
    lemma_leaf_in_order(child2);
    assert(wf(pre.children@[src]));
    assert(wf(pre.children@[dest]));
    assert(wf(sib2));
    assert(wf(child2));
    assert forall|i: int| 0 <= i < fin.children@.len() implies (wf(#[trigger] fin.children@[i])
        && fin.children@[i].max_size == fin.max_size && height(fin.children@[i]) == height(
        fin.children@[0],
    )) by {
        if i != src && i != dest {
            assert(fin.children@[i] == pre.children@[i]);
            assert(wf(pre.children@[i]));
        }
        assert(fin.children@[i].children@.len() == 0) by {
            if i != src && i != dest {
                assert(pre.children@[i].children@.len() == 0);
            }
        }
        assert(fin.children@[0].children@.len() == 0) by {
            if 0 != src && 0 != dest {
                assert(pre.children@[0].children@.len() == 0);
            }
        }
    }
    assert(wf(fin));
    assert(height(fin) == height(pre)) by {
        assert(fin.children@[0].children@.len() == 0);
        assert(pre.children@[0].children@.len() == 0);
    }
    assert forall|l: int| 0 <= l < fin.children@.len() implies balanced(
        #[trigger] fin.children@[l],
    ) by {
        assert(fin.children@[l].children@.len() == 0) by {
            if l != src && l != dest {
                assert(pre.children@[l].children@.len() == 0);
            }
        }
    }
}

/// A key occurs in a run exactly when its count there is positive.
pub proof fn lemma_key_count_contains(s: Seq<u64>, k: u64)
    ensures
        s.contains(k) <==> key_count(s, k) > 0,
    decreases s.len(),
{
    if s.len() > 0 {
        lemma_key_count_contains(s.drop_first(), k);
        if s.contains(k) && s[0] != k {
            let q = choose|q: int| 0 <= q < s.len() && s[q] == k;
            assert(s.drop_first()[q - 1] == k);
        }
        if s.drop_first().contains(k) {
            let q = choose|q: int| 0 <= q < s.drop_first().len() && s.drop_first()[q] == k;
            assert(s[q + 1] == k);
        }
    }
}

} // verus!

