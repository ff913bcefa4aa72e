use vstd::prelude::*;

verus! {

/// The operations of a dictionary that keeps its keys in order.
pub trait Dictionary<K, V> {
    fn find(&self, key: &K) -> Option<&V>;

    fn find_mut(&mut self, key: &mut K) -> Option<&mut V>;

    fn insert(&mut self, key: K, value: V);

    fn remove(&mut self, value: &mut V);

    fn max(&self) -> Option<&V>;

    fn min(&self) -> Option<&V>;

    fn max_mut(&mut self) -> Option<&mut V>;

    fn min_mut(&mut self) -> Option<&mut V>;

    fn predecessor(&self, key: &K) -> Option<&V>;

    fn successor(&self, key: &K) -> Option<&V>;

    fn predecessor_mut(&mut self, key: &K) -> Option<&mut V>;

    fn successor_mut(&mut self, key: &K) -> Option<&mut V>;
}

/// Marks a collection that keeps its entries sorted by key.
pub struct Sorted<T>(pub T);

/// Marks a collection that keeps its entries in no particular order.
pub struct Unsorted<T>(pub T);

} // verus!
