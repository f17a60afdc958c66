//! The interface of a key-value store.

use vstd::prelude::*;

verus! {

/// What every key-value store offers, whatever backs it: keys of type `K`
/// are bound to values of type `V`, and failures are reported as `E`.
pub trait KVStore<K, V, E> {
    /// Binds `k` to `v`, replacing the value that `k` had before.
    fn put(&mut self, k: K, v: V) -> Result<(), E>;

    /// Deletes `k`.
    fn remove(&mut self, k: K) -> Result<(), E>;

    /// The value that `k` is bound to, or `None` if it is bound to none.
    fn get(&self, k: &K) -> Result<Option<V>, E>;
}

} // verus!
