use vstd::prelude::*;

verus! {

/// One key/value record held by a store. Its identity, as far as a store is
/// concerned, is its key alone.
#[derive(Debug, Clone, Hash, PartialEq, Eq)]
pub struct CacheWrapper<K, V> {
    pub key: K,
    pub value: V,
}

/// `b` is a copy of `a` made field by field with each field's own `clone`.
pub open spec fn entry_cloned<K: Clone, V: Clone>(a: CacheWrapper<K, V>, b: CacheWrapper<K, V>) -> bool {
    cloned(a.key, b.key) && cloned(a.value, b.value)
}

impl<K: Clone, V: Clone> CacheWrapper<K, V> {
    pub fn new(key: K, value: V) -> (r: CacheWrapper<K, V>)
        ensures
            r.key == key,
            r.value == value,
    {
        CacheWrapper { key, value }
    }

    pub fn as_ref_key(&self) -> (r: &K)
        ensures
            *r == self.key,
    {
        &self.key
    }

    pub fn as_ref_value(&self) -> (r: &V)
        ensures
            *r == self.value,
    {
        &self.value
    }

    pub fn key(&self) -> (r: K)
        ensures
            cloned(self.key, r),
    {
        self.key.clone()
    }

    pub fn value(&self) -> (r: V)
        ensures
            cloned(self.value, r),
    {
        self.value.clone()
    }

    pub fn rebase_key(self, rebase: K) -> (r: CacheWrapper<K, V>)
        ensures
            r.key == rebase,
            r.value == self.value,
    {
        let mut e = self;
        e.key = rebase;
        e
    }

    pub fn rebase_value(self, rebase: V) -> (r: CacheWrapper<K, V>)
        ensures
            r.key == self.key,
            r.value == rebase,
    {
        let mut e = self;
        e.value = rebase;
        e
    }

    /// A copy of this entry, each field copied with its own `clone`.
    pub fn duplicate(&self) -> (r: CacheWrapper<K, V>)
        ensures
            entry_cloned(*self, r),
    {
        CacheWrapper { key: self.key.clone(), value: self.value.clone() }
    }
}

} // verus!
