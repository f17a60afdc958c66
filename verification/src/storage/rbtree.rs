//! An ordered map from `u64` keys to values.
//!
//! The map keeps its entries in a vector sorted by key. Lookups are binary
//! searches; the entries can be walked in ascending key order at no cost.

use vstd::prelude::*;
use crate::storage::ordered::{as_map, ascending, erase, lookup, rank, splits_at, upsert};
use crate::storage::ordered::{lemma_erase, lemma_key_count, lemma_split_is_rank, lemma_upsert};

verus! {

/// A map with `u64` keys whose entries are kept in ascending key order.
pub struct RBTree<V> {
    items: Vec<(u64, V)>,
}

impl<V> View for RBTree<V> {
    type V = Map<u64, V>;

    /// The map from each key to the value stored under it.
    open spec fn view(&self) -> Map<u64, V> {
        as_map(self.entries())
    }
}

impl<V> RBTree<V> {
    #[verifier::type_invariant]
    spec fn sorted(&self) -> bool {
        ascending(self.items@)
    }

    /// The entries in ascending key order.
    pub closed spec fn entries(&self) -> Seq<(u64, V)> {
        self.items@
    }

    /// An empty map.
    pub fn new() -> (tree: Self)
        ensures
            tree.entries() == Seq::<(u64, V)>::empty(),
            tree@ == Map::<u64, V>::empty(),
    {
        let tree = RBTree { items: Vec::new() };
        assert(tree@ =~= Map::<u64, V>::empty());
        tree
    }

    /// The number of keys.
    pub fn len(&self) -> (n: usize)
        ensures
            n == self.entries().len(),
            n == self@.dom().len(),
            self@.dom().finite(),
            ascending(self.entries()),
    {
        proof {
            use_type_invariant(self);
            lemma_key_count(self.items@);
        }
        self.items.len()
    }

    /// Whether the map holds no key.
    pub fn is_empty(&self) -> (b: bool)
        ensures
            b <==> self.entries().len() == 0,
            b <==> self@ == Map::<u64, V>::empty(),
    {
        proof {
            use_type_invariant(self);
            lemma_key_count(self.items@);
            if self.items@.len() == 0 {
                assert(self@ =~= Map::<u64, V>::empty());
            }
        }
        self.items.len() == 0
    }

    /// The number of keys below `k`, which is where `k` stands or would stand.
    fn position(&self, k: u64) -> (p: usize)
        ensures
            p == rank(self.entries(), k as int),
            splits_at(self.entries(), k as int, p as int),
            ascending(self.entries()),
    {
        proof {
            use_type_invariant(self);
        }
        let mut lo: usize = 0;
        let mut hi: usize = self.items.len();
        while lo < hi
            invariant
                lo <= hi <= self.items@.len(),
                forall|i: int| 0 <= i < lo ==> (#[trigger] self.items@[i]).0 < k,
                forall|i: int| hi <= i < self.items@.len() ==> (#[trigger] self.items@[i]).0 >= k,
                ascending(self.items@),
            decreases hi - lo,
        {
            let mid: usize = lo + (hi - lo) / 2;
            if self.items[mid].0 < k {
                assert forall|i: int| 0 <= i < mid + 1 implies (#[trigger] self.items@[i]).0 < k by {
                    if i < mid {
                        assert(self.items@[i].0 < self.items@[mid as int].0);
                    }
                }
                lo = mid + 1;
            } else {
                assert forall|i: int| mid <= i < self.items@.len() implies (
                #[trigger] self.items@[i]).0 >= k by {
                    if i > mid {
                        assert(self.items@[mid as int].0 < self.items@[i].0);
                    }
                }
                hi = mid;
            }
        }
        proof {
            lemma_split_is_rank(self.items@, k as int, lo as int);
        }
        lo
    }

    /// The value stored under `k`, if there is one.
    pub fn get(&self, k: &u64) -> (found: Option<&V>)
        ensures
            match found {
                Some(v) => lookup(self.entries(), *k) == Some(*v),
                None => lookup(self.entries(), *k) is None,
            },
            match found {
                Some(v) => self@.contains_key(*k) && self@[*k] == *v,
                None => !self@.contains_key(*k),
            },
            ascending(self.entries()),
    {
        let p: usize = self.position(*k);
        if p < self.items.len() && self.items[p].0 == *k {
            Some(&self.items[p].1)
        } else {
            None
        }
    }

    /// Binds `k` to `v`, overwriting the value that `k` had before, if any.
    pub fn insert(&mut self, k: u64, v: V)
        ensures
            final(self).entries() == upsert(old(self).entries(), k, v),
            final(self)@ == old(self)@.insert(k, v),
            ascending(old(self).entries()),
            ascending(final(self).entries()),
    {
        let p: usize = self.position(k);
        proof {
            lemma_upsert(self.items@, k, v);
        }
        let mut items: Vec<(u64, V)> = Vec::new();
        std::mem::swap(&mut items, &mut self.items);
        if p < items.len() && items[p].0 == k {
            items.set(p, (k, v));
        } else {
            items.insert(p, (k, v));
        }
        self.items = items;
    }

    /// Removes `k` and hands back the value it had; does nothing if `k` is
    /// not in the map.
    pub fn remove(&mut self, k: &u64) -> (removed: Option<V>)
        ensures
            final(self).entries() == erase(old(self).entries(), *k),
            final(self)@ == old(self)@.remove(*k),
            removed == lookup(old(self).entries(), *k),
            removed == if old(self)@.contains_key(*k) {
                Some(old(self)@[*k])
            } else {
                None
            },
            ascending(old(self).entries()),
            ascending(final(self).entries()),
    {
        let p: usize = self.position(*k);
        proof {
            lemma_erase(self.items@, *k);
        }
        let mut items: Vec<(u64, V)> = Vec::new();
        std::mem::swap(&mut items, &mut self.items);
        let removed = if p < items.len() && items[p].0 == *k {
            let (_, v) = items.remove(p);
            Some(v)
        } else {
            None
        };
        self.items = items;
        removed
    }

    /// Removes every key.
    pub fn clear(&mut self)
        ensures
            final(self).entries() == Seq::<(u64, V)>::empty(),
            final(self)@ == Map::<u64, V>::empty(),
    {
        self.items = Vec::new();
        assert(self@ =~= Map::<u64, V>::empty());
    }

    /// The entries in ascending key order. The slice can be walked any number
    /// of times.
    pub fn as_slice(&self) -> (all: &[(u64, V)])
        ensures
            all@ == self.entries(),
            ascending(all@),
            as_map(all@) == self@,
    {
        proof {
            use_type_invariant(self);
        }
        self.items.as_slice()
    }
}

} // verus!
