use vstd::prelude::*;

verus! {

/// An ordered key paired with an opaque payload; comparison is by key only.
pub struct Item<V> {
    pub key: u64,
    pub value: V,
}

impl<V> Item<V> {
    pub fn new(key: u64, value: V) -> (it: Item<V>)
        ensures
            it.key == key,
            it.value == value,
    {
        Item { key, value }
    }

    /// Where this item's key stands relative to `key`.
    pub fn cmp_key(&self, key: &u64) -> (r: core::cmp::Ordering)
        ensures
            r == core::cmp::Ordering::Less <==> self.key < *key,
            r == core::cmp::Ordering::Equal <==> self.key == *key,
            r == core::cmp::Ordering::Greater <==> self.key > *key,
    {
        if self.key < *key {
            core::cmp::Ordering::Less
        } else if self.key == *key {
            core::cmp::Ordering::Equal
        } else {
            core::cmp::Ordering::Greater
        }
    }
}

} // verus!
