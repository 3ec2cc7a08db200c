use vstd::prelude::*;
use vstd::laws_eq::obeys_concrete_eq;
use vstd::std_specs::cmp::PartialEqSpec;
use crate::entry::{CacheWrapper, entry_cloned};

verus! {

/// Some entry of `s` has key `k`.
pub open spec fn has_key<K, V>(s: Seq<CacheWrapper<K, V>>, k: K) -> bool {
    exists|i: int| 0 <= i < s.len() && #[trigger] s[i].key == k
}

/// No two entries of `s` share a key.
pub open spec fn keys_unique<K, V>(s: Seq<CacheWrapper<K, V>>) -> bool {
    forall|i: int, j: int|
        0 <= i < s.len() && 0 <= j < s.len() && #[trigger] s[i].key == #[trigger] s[j].key ==> i == j
}

/// The position of the first entry of `s` with key `k` (meaningful when
/// `has_key(s, k)`).
pub open spec fn first_index<K, V>(s: Seq<CacheWrapper<K, V>>, k: K) -> int {
    choose|i: int|
        0 <= i < s.len() && #[trigger] s[i].key == k && forall|j: int| 0 <= j < i ==> #[trigger] s[j].key != k
}

/// The first entry of `s` with key `k`, if there is one.
pub open spec fn lookup<K, V>(s: Seq<CacheWrapper<K, V>>, k: K) -> Option<CacheWrapper<K, V>> {
    if has_key(s, k) {
        Some(s[first_index(s, k)])
    } else {
        None
    }
}

/// `s` after inserting `e`: unchanged when an equal entry is already held.
pub open spec fn pushed<K, V>(s: Seq<CacheWrapper<K, V>>, e: CacheWrapper<K, V>) -> Seq<CacheWrapper<K, V>> {
    if s.contains(e) {
        s
    } else {
        s.push(e)
    }
}

/// `s` without any entry whose key is `k`.
pub open spec fn removed<K, V>(s: Seq<CacheWrapper<K, V>>, k: K) -> Seq<CacheWrapper<K, V>> {
    s.filter(|e: CacheWrapper<K, V>| e.key != k)
}

/// `s` after an upsert of `e` by its key.
pub open spec fn replaced<K, V>(s: Seq<CacheWrapper<K, V>>, e: CacheWrapper<K, V>) -> Seq<CacheWrapper<K, V>> {
    pushed(removed(s, e.key), e)
}

/// `s` after inserting each entry of `es` in turn.
pub open spec fn pushed_all<K, V>(s: Seq<CacheWrapper<K, V>>, es: Seq<CacheWrapper<K, V>>) -> Seq<CacheWrapper<K, V>>
    decreases es.len(),
{
    if es.len() == 0 {
        s
    } else {
        pushed(pushed_all(s, es.drop_last()), es.last())
    }
}

pub proof fn lemma_first_index<K, V>(s: Seq<CacheWrapper<K, V>>, k: K, i: int)
    requires
        0 <= i < s.len(),
        s[i].key == k,
        forall|j: int| 0 <= j < i ==> #[trigger] s[j].key != k,
    ensures
        has_key(s, k),
        first_index(s, k) == i,
        lookup(s, k) == Some(s[i]),
{
    let f = first_index(s, k);
    assert(s[f].key == k);
}

pub proof fn lemma_pushed<K, V>(s: Seq<CacheWrapper<K, V>>, e: CacheWrapper<K, V>)
    requires
        s.no_duplicates(),
    ensures
        pushed(s, e).no_duplicates(),
        forall|x: CacheWrapper<K, V>| #[trigger] pushed(s, e).contains(x) <==> (s.contains(x) || x == e),
{
    if !s.contains(e) {
        let t = s.push(e);
        assert(t[s.len() as int] == e);
        assert forall|x: CacheWrapper<K, V>| #[trigger] t.contains(x) <==> (s.contains(x) || x == e) by {
            if t.contains(x) {
                let i = choose|i: int| 0 <= i < t.len() && t[i] == x;
                if i < s.len() {
                    assert(s[i] == x);
                }
            }
            if s.contains(x) {
                let i = choose|i: int| 0 <= i < s.len() && s[i] == x;
                assert(t[i] == x);
            }
        }
    }
}

pub proof fn lemma_removed_push<K, V>(s: Seq<CacheWrapper<K, V>>, x: CacheWrapper<K, V>, k: K)
    ensures
        removed(s.push(x), k) == if x.key != k {
            removed(s, k).push(x)
        } else {
            removed(s, k)
        },
{
    reveal(Seq::filter);
    assert(s.push(x).drop_last() =~= s);
}

pub proof fn lemma_removed<K, V>(s: Seq<CacheWrapper<K, V>>, k: K)
    ensures
        !has_key(removed(s, k), k),
        forall|e: CacheWrapper<K, V>| #[trigger] removed(s, k).contains(e) <==> (s.contains(e) && e.key != k),
        s.no_duplicates() ==> removed(s, k).no_duplicates(),
        !has_key(s, k) ==> removed(s, k) == s,
    decreases s.len(),
{
    if s.len() == 0 {
        reveal(Seq::filter);
    } else {
        let p = s.drop_last();
        let x = s.last();
        assert(p.push(x) =~= s);
        lemma_removed(p, k);
        lemma_removed_push(p, x, k);
        let r = removed(p, k);
        assert(forall|i: int| 0 <= i < p.len() ==> p[i] == #[trigger] s[i]);
        assert(s[p.len() as int] == x);
        assert forall|e: CacheWrapper<K, V>| #[trigger] p.contains(e) || e == x <==> s.contains(e) by {
            if s.contains(e) {
                let i = choose|i: int| 0 <= i < s.len() && s[i] == e;
                if i < p.len() {
                    assert(p[i] == e);
                }
            }
            if p.contains(e) {
                let i = choose|i: int| 0 <= i < p.len() && p[i] == e;
                assert(s[i] == e);
            }
        }
        if x.key != k {
            let t = r.push(x);
            assert(t[r.len() as int] == x);
            assert forall|i: int| 0 <= i < t.len() implies #[trigger] t[i].key != k by {
                if i < r.len() {
                    assert(t[i] == r[i]);
                }
            }
            assert forall|e: CacheWrapper<K, V>| #[trigger] t.contains(e) <==> (r.contains(e) || e == x) by {
                if t.contains(e) {
                    let i = choose|i: int| 0 <= i < t.len() && t[i] == e;
                    if i < r.len() {
                        assert(r[i] == e);
                    }
                }
                if r.contains(e) {
                    let i = choose|i: int| 0 <= i < r.len() && r[i] == e;
                    assert(t[i] == e);
                }
            }
            if s.no_duplicates() {
                assert(p.no_duplicates()) by {
                    assert forall|i: int, j: int| 0 <= i < p.len() && 0 <= j < p.len() && i != j implies p[i] != p[j] by {
                        assert(p[i] == s[i] && p[j] == s[j]);
                    }
                }
                assert(!p.contains(x)) by {
                    if p.contains(x) {
                        let i = choose|i: int| 0 <= i < p.len() && p[i] == x;
                        assert(s[i] == s[p.len() as int]);
                    }
                }
                assert(!r.contains(x));
                assert forall|i: int, j: int| 0 <= i < t.len() && 0 <= j < t.len() && i != j implies t[i] != t[j] by {
                    if i < r.len() && j < r.len() {
                        assert(t[i] == r[i] && t[j] == r[j]);
                    } else if i < r.len() {
                        assert(r.contains(t[i]));
                    } else if j < r.len() {
                        assert(r.contains(t[j]));
                    }
                }
            }
            if !has_key(s, k) {
                assert forall|i: int| 0 <= i < p.len() implies #[trigger] p[i].key != k by {
                    assert(p[i] == s[i]);
                }
            }
        } else {
            assert(has_key(s, k)) by {
                assert(s[p.len() as int].key == k);
            }
            if s.no_duplicates() {
                assert(p.no_duplicates()) by {
                    assert forall|i: int, j: int| 0 <= i < p.len() && 0 <= j < p.len() && i != j implies p[i] != p[j] by {
                        assert(p[i] == s[i] && p[j] == s[j]);
                    }
                }
            }
        }
    }
}

pub proof fn lemma_replaced<K, V>(s: Seq<CacheWrapper<K, V>>, e: CacheWrapper<K, V>)
    requires
        s.no_duplicates(),
    ensures
        replaced(s, e) == removed(s, e.key).push(e),
        replaced(s, e).no_duplicates(),
        lookup(replaced(s, e), e.key) == Some(e),
        forall|i: int| 0 <= i < replaced(s, e).len() && #[trigger] replaced(s, e)[i].key == e.key
            ==> i == replaced(s, e).len() - 1,
        keys_unique(s) ==> keys_unique(replaced(s, e)),
{
    lemma_removed(s, e.key);
    let r = removed(s, e.key);
    assert(!r.contains(e)) by {
        if r.contains(e) {
            let i = choose|i: int| 0 <= i < r.len() && r[i] == e;
            assert(r[i].key == e.key);
        }
    }
    lemma_pushed(r, e);
    let t = r.push(e);
    let last = r.len() as int;
    assert(t[last] == e);
    assert forall|i: int| 0 <= i < t.len() && #[trigger] t[i].key == e.key implies i == last by {
        if i < last {
            assert(t[i] == r[i]);
            assert(r[i].key == e.key);
        }
    }
    assert forall|j: int| 0 <= j < last implies #[trigger] t[j].key != e.key by {
        assert(t[j] == r[j]);
        assert(r[j].key != e.key);
    }
    lemma_first_index(t, e.key, last);
    if keys_unique(s) {
        assert forall|i: int, j: int|
            0 <= i < t.len() && 0 <= j < t.len() && #[trigger] t[i].key == #[trigger] t[j].key implies i == j by {
            if i < last && j < last && i != j {
                assert(t[i] == r[i] && t[j] == r[j]);
                assert(r[i] != r[j]);
                assert(r.contains(r[i]) && r.contains(r[j]));
                let a = choose|a: int| 0 <= a < s.len() && s[a] == r[i];
                let b = choose|b: int| 0 <= b < s.len() && s[b] == r[j];
                assert(s[a].key == s[b].key);
            } else if i < last && j == last {
                assert(t[i] == r[i]);
                assert(r[i].key != e.key);
            } else if j < last && i == last {
                assert(t[j] == r[j]);
                assert(r[j].key != e.key);
            }
        }
    }
}

pub proof fn lemma_pushed_all<K, V>(s: Seq<CacheWrapper<K, V>>, es: Seq<CacheWrapper<K, V>>)
    requires
        s.no_duplicates(),
    ensures
        pushed_all(s, es).no_duplicates(),
        forall|x: CacheWrapper<K, V>| #[trigger] pushed_all(s, es).contains(x) <==> (s.contains(x) || es.contains(x)),
    decreases es.len(),
{
    if es.len() > 0 {
        let init = es.drop_last();
        let e = es.last();
        lemma_pushed_all(s, init);
        lemma_pushed(pushed_all(s, init), e);
        assert forall|x: CacheWrapper<K, V>| #[trigger] es.contains(x) <==> (init.contains(x) || x == e) by {
            if es.contains(x) {
                let i = choose|i: int| 0 <= i < es.len() && es[i] == x;
                if i < init.len() {
                    assert(init[i] == x);
                }
            }
            if init.contains(x) {
                let i = choose|i: int| 0 <= i < init.len() && init[i] == x;
                assert(es[i] == x);
            }
            assert(es[es.len() - 1] == e);
        }
    }
}

/// An in-memory cache of entries, at most one per key, bound to the path of
/// the file that holds it between runs.
pub struct MiseryHandler<K, V> {
    path: String,
    caches: Vec<CacheWrapper<K, V>>,
}

impl<K, V> View for MiseryHandler<K, V> {
    type V = Seq<CacheWrapper<K, V>>;

    closed spec fn view(&self) -> Seq<CacheWrapper<K, V>> {
        self.caches@
    }
}

impl<K: PartialEq + Clone, V: PartialEq + Clone> MiseryHandler<K, V> {
    /// The path of the backing file.
    pub closed spec fn path_view(&self) -> Seq<char> {
        self.path@
    }

    /// The store never holds two equal entries.
    pub open spec fn wf(&self) -> bool {
        self@.no_duplicates()
    }

    /// The position of the first entry with key `key`, if one is held.
    fn position(&self, key: &K) -> (r: Option<usize>)
        requires
            obeys_concrete_eq::<K>(),
        ensures
            match r {
                Some(i) => i < self@.len() && has_key(self@, *key) && first_index(self@, *key) == i,
                None => !has_key(self@, *key),
            },
    {
        let mut i: usize = 0;
        while i < self.caches.len()
            invariant
                obeys_concrete_eq::<K>(),
                i <= self.caches@.len(),
                forall|j: int| 0 <= j < i ==> #[trigger] self.caches@[j].key != *key,
            decreases self.caches.len() - i,
        {
            let same = self.caches[i].key.eq(key);
            proof {
                reveal(obeys_concrete_eq);
            }
            if same {
                proof {
                    lemma_first_index(self@, *key, i as int);
                }
                return Some(i);
            }
            i += 1;
        }
        None
    }

    /// Whether an entry equal to `cache` in key and value is held.
    fn holds(&self, cache: &CacheWrapper<K, V>) -> (r: bool)
        requires
            obeys_concrete_eq::<K>(),
            obeys_concrete_eq::<V>(),
        ensures
            r == self@.contains(*cache),
    {
        let mut i: usize = 0;
        while i < self.caches.len()
            invariant
                obeys_concrete_eq::<K>(),
                obeys_concrete_eq::<V>(),
                i <= self.caches@.len(),
                forall|j: int| 0 <= j < i ==> #[trigger] self.caches@[j] != *cache,
            decreases self.caches.len() - i,
        {
            let e = &self.caches[i];
            let same = e.key.eq(&cache.key) && e.value.eq(&cache.value);
            proof {
                reveal(obeys_concrete_eq);
            }
            if same {
                return true;
            }
            proof {
                assert(self.caches@[i as int].key != cache.key || self.caches@[i as int].value != cache.value);
            }
            i += 1;
        }
        false
    }

    /// A store bound to `path`, holding what was decoded from its file:
    /// nothing when decoding failed, else each distinct decoded entry, in the
    /// order of first appearance.
    pub fn from_decoded(path: String, decoded: Option<Vec<CacheWrapper<K, V>>>) -> (r: MiseryHandler<K, V>)
        requires
            obeys_concrete_eq::<K>(),
            obeys_concrete_eq::<V>(),
        ensures
            r.wf(),
            r.path_view() == path@,
            r@ == match decoded {
                Some(es) => pushed_all(Seq::empty(), es@),
                None => Seq::<CacheWrapper<K, V>>::empty(),
            },
            forall|e: CacheWrapper<K, V>| #[trigger] r@.contains(e) <==> match decoded {
                Some(es) => es@.contains(e),
                None => false,
            },
    {
        let mut store = MiseryHandler { path, caches: Vec::new() };
        match decoded {
            None => store,
            Some(es) => {
                let ghost all = es@;
                let mut rest = es;
                let n: usize = rest.len();
                let mut i: usize = 0;
                while rest.len() > 0
                    invariant
                        obeys_concrete_eq::<K>(),
                        obeys_concrete_eq::<V>(),
                        store.wf(),
                        store.path_view() == path@,
                        all.len() == n,
                        i <= all.len(),
                        rest@ == all.subrange(i as int, all.len() as int),
                        store@ == pushed_all(Seq::empty(), all.subrange(0, i as int)),
                    decreases rest.len(),
                {
                    proof {
                        assert(rest@.len() == all.len() - i);
                    }
                    let e = rest.remove(0);
                    proof {
                        assert(all.subrange(0, i + 1).drop_last() == all.subrange(0, i as int));
                        assert(all.subrange(0, i + 1).last() == e);
                    }
                    store.push(e);
                    i += 1;
                }
                proof {
                    assert(all.subrange(0, all.len() as int) == all);
                    lemma_pushed_all(Seq::empty(), all);
                }
                store
            },
        }
    }

    /// The path of the backing file.
    pub fn path(&self) -> (r: &str)
        ensures
            r@ == self.path_view(),
    {
        self.path.as_str()
    }

    /// Inserts `cache` unless an equal entry is already held. An entry with
    /// the same key and another value stays held beside it.
    pub fn push(&mut self, cache: CacheWrapper<K, V>)
        requires
            old(self).wf(),
            obeys_concrete_eq::<K>(),
            obeys_concrete_eq::<V>(),
        ensures
            final(self).wf(),
            final(self).path_view() == old(self).path_view(),
            final(self)@ == pushed(old(self)@, cache),
    {
        proof {
            lemma_pushed(self@, cache);
        }
        if !self.holds(&cache) {
            self.caches.push(cache);
        }
    }

    /// Removes every entry with key `key`.
    pub fn remove(&mut self, key: &K)
        requires
            old(self).wf(),
            obeys_concrete_eq::<K>(),
        ensures
            final(self).wf(),
            final(self).path_view() == old(self).path_view(),
            final(self)@ == removed(old(self)@, *key),
    {
        let ghost all = self@;
        let ghost at = self.path@;
        proof {
            lemma_removed(all, *key);
        }
        let mut rest: Vec<CacheWrapper<K, V>> = Vec::new();
        std::mem::swap(&mut rest, &mut self.caches);
        let n: usize = rest.len();
        let mut i: usize = 0;
        while rest.len() > 0
            invariant
                obeys_concrete_eq::<K>(),
                self.path@ == at,
                all.len() == n,
                i <= all.len(),
                rest@ == all.subrange(i as int, all.len() as int),
                self.caches@ == removed(all.subrange(0, i as int), *key),
            decreases rest.len(),
        {
            proof {
                assert(rest@.len() == all.len() - i);
            }
            let e = rest.remove(0);
            let same = e.key.eq(key);
            proof {
                reveal(obeys_concrete_eq);
                assert(all.subrange(0, i as int).push(e) == all.subrange(0, i + 1));
                lemma_removed_push(all.subrange(0, i as int), e, *key);
            }
            if !same {
                self.caches.push(e);
            }
            i += 1;
        }
        proof {
            assert(all.subrange(0, all.len() as int) == all);
        }
    }

    /// Upsert by key: removes every entry with `cache`'s key, then inserts
    /// `cache`, which is then the one entry held under that key.
    pub fn abs(&mut self, cache: CacheWrapper<K, V>)
        requires
            old(self).wf(),
            obeys_concrete_eq::<K>(),
            obeys_concrete_eq::<V>(),
        ensures
            final(self).wf(),
            final(self).path_view() == old(self).path_view(),
            final(self)@ == replaced(old(self)@, cache),
            lookup(final(self)@, cache.key) == Some(cache),
            forall|i: int| 0 <= i < final(self)@.len() && #[trigger] final(self)@[i].key == cache.key
                ==> final(self)@[i] == cache,
            keys_unique(old(self)@) ==> keys_unique(final(self)@),
    {
        proof {
            lemma_replaced(self@, cache);
        }
        self.remove(cache.as_ref_key());
        self.push(cache);
    }

    /// A copy of the first entry with key `key`, if one is held.
    pub fn find(&self, key: &K) -> (r: Option<CacheWrapper<K, V>>)
        requires
            obeys_concrete_eq::<K>(),
        ensures
            r is Some <==> has_key(self@, *key),
            r matches Some(c) ==> entry_cloned(lookup(self@, *key)->0, c),
    {
        match self.position(key) {
            Some(i) => Some(self.caches[i].duplicate()),
            None => None,
        }
    }

    /// A copy of the value of the first entry with key `key`, if any.
    pub fn find_value(&self, key: &K) -> (r: Option<V>)
        requires
            obeys_concrete_eq::<K>(),
        ensures
            r is Some <==> has_key(self@, *key),
            r matches Some(v) ==> cloned(lookup(self@, *key)->0.value, v),
    {
        match self.position(key) {
            Some(i) => Some(self.caches[i].value()),
            None => None,
        }
    }

    /// A copy of every entry held, in the store's own order.
    pub fn all_items(&self) -> (r: Vec<CacheWrapper<K, V>>)
        ensures
            r@.len() == self@.len(),
            forall|i: int| 0 <= i < r@.len() ==> entry_cloned(self@[i], #[trigger] r@[i]),
    {
        let mut out: Vec<CacheWrapper<K, V>> = Vec::new();
        let mut i: usize = 0;
        while i < self.caches.len()
            invariant
                i <= self@.len(),
                out@.len() == i,
                forall|j: int| 0 <= j < i ==> entry_cloned(self@[j], #[trigger] out@[j]),
            decreases self.caches.len() - i,
        {
            out.push(self.caches[i].duplicate());
            i += 1;
        }
        out
    }
}

} // verus!
