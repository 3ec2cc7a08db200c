use vstd::prelude::*;
use crate::entry::CacheWrapper;
use crate::store::{
    keys_unique, lookup, pushed, pushed_all, removed, replaced, lemma_removed, lemma_replaced,
};

verus! {

/// Upserting `(k, v1)` and then `(k, v2)` leaves exactly one entry with key
/// `k`, and it holds `v2`.
pub proof fn lemma_replace_keeps_one_entry<K, V>(s: Seq<CacheWrapper<K, V>>, k: K, v1: V, v2: V)
    requires
        s.no_duplicates(),
    ensures
        ({
            let t = replaced(replaced(s, CacheWrapper { key: k, value: v1 }), CacheWrapper { key: k, value: v2 });
            &&& lookup(t, k) == Some(CacheWrapper { key: k, value: v2 })
            &&& exists|i: int|
                0 <= i < t.len() && t[i] == CacheWrapper { key: k, value: v2 }
                    && forall|j: int| 0 <= j < t.len() && #[trigger] t[j].key == k ==> j == i
        }),
{
    let e1 = CacheWrapper { key: k, value: v1 };
    let e2 = CacheWrapper { key: k, value: v2 };
    lemma_replaced(s, e1);
    let s1 = replaced(s, e1);
    lemma_replaced(s1, e2);
    let t = replaced(s1, e2);
    let i = t.len() - 1;
    assert(t[i] == e2);
}

/// After removing key `k` no entry with that key is found, and removing it
/// again changes nothing.
pub proof fn lemma_remove_is_absence<K, V>(s: Seq<CacheWrapper<K, V>>, k: K)
    ensures
        lookup(removed(s, k), k) is None,
        removed(removed(s, k), k) == removed(s, k),
{
    lemma_removed(s, k);
    lemma_removed(removed(s, k), k);
}

/// Loading back the entries a store holds, as they were handed out for
/// writing, gives the same entries in the same order.
pub proof fn lemma_reload_round_trip<K, V>(s: Seq<CacheWrapper<K, V>>)
    requires
        s.no_duplicates(),
    ensures
        pushed_all(Seq::empty(), s) == s,
    decreases s.len(),
{
    if s.len() > 0 {
        let init = s.drop_last();
        let e = s.last();
        assert(init.no_duplicates()) by {
            assert forall|i: int, j: int| 0 <= i < init.len() && 0 <= j < init.len() && i != j implies init[i] != init[j] by {
                assert(init[i] == s[i] && init[j] == s[j]);
            }
        }
        lemma_reload_round_trip(init);
        assert(!init.contains(e)) by {
            if init.contains(e) {
                let i = choose|i: int| 0 <= i < init.len() && init[i] == e;
                assert(s[i] == s[s.len() - 1]);
            }
        }
        assert(pushed(init, e) == init.push(e));
        assert(init.push(e) =~= s);
    }
}

/// Entries with distinct keys, inserted into an empty store in any order of
/// arrival, are all held afterwards: as many entries as were inserted.
pub proof fn lemma_distinct_pushes_all_land<K, V>(es: Seq<CacheWrapper<K, V>>)
    requires
        keys_unique(es),
    ensures
        pushed_all(Seq::empty(), es).len() == es.len(),
        forall|i: int| 0 <= i < es.len() ==> pushed_all(Seq::empty(), es).contains(#[trigger] es[i]),
{
    assert(es.no_duplicates()) by {
        assert forall|i: int, j: int| 0 <= i < es.len() && 0 <= j < es.len() && i != j implies es[i] != es[j] by {
            if es[i] == es[j] {
                assert(es[i].key == es[j].key);
            }
        }
    }
    lemma_reload_round_trip(es);
    assert forall|i: int| 0 <= i < es.len() implies pushed_all(Seq::empty(), es).contains(#[trigger] es[i]) by {
        assert(pushed_all(Seq::empty(), es)[i] == es[i]);
    }
}

} // verus!
