//! The embedding cache: a least-recently-used map from texts to embeddings, kept in an
//! `lru::LruCache`. Embeddings are held by the bit patterns of their `f32` coordinates.

use vstd::prelude::*;
use lru::LruCache;
use std::collections::hash_map::RandomState;
use crate::assoc::keys_unique;

verus! {

/// `lru::LruCache`, opaque; what it holds is named by `lru_entries` and `lru_capacity`.
#[verifier::external_type_specification]
#[verifier::external_body]
#[verifier::reject_recursive_types(K)]
#[verifier::reject_recursive_types(V)]
#[verifier::reject_recursive_types(S)]
pub struct ExLruCache<K, V, S>(LruCache<K, V, S>);

/// The entries of the cache, most recently used first.
pub uninterp spec fn lru_entries(c: LruCache<String, Vec<u32>, RandomState>) -> Seq<(Seq<char>, Seq<u32>)>;

/// The capacity the cache was made with.
pub uninterp spec fn lru_capacity(c: LruCache<String, Vec<u32>, RandomState>) -> nat;

/// Capacity used when 0 is asked for.
pub const DEFAULT_CACHE_CAPACITY: usize = 1000;

/// `lru::LruCache::with_hasher` (with std's `RandomState`): an empty cache of capacity `cap`.
#[verifier::external_body]
fn lru_new(cap: usize) -> (r: LruCache<String, Vec<u32>, RandomState>)
    requires
        cap > 0,
    ensures
        lru_entries(r) == Seq::<(Seq<char>, Seq<u32>)>::empty(),
        lru_capacity(r) == cap,
{
    LruCache::with_hasher(std::num::NonZeroUsize::new(cap).unwrap(), RandomState::new())
}

/// `lru::LruCache::get` (its value cloned): the value of `key`, which becomes the most
/// recently used entry; nothing changes when the key is absent.
#[verifier::external_body]
fn lru_get(c: &mut LruCache<String, Vec<u32>, RandomState>, key: &str) -> (r: Option<Vec<u32>>)
    ensures
        lru_capacity(*final(c)) == lru_capacity(*old(c)),
        match r {
            Some(v) => exists|i: int|
                0 <= i < lru_entries(*old(c)).len() && (#[trigger] lru_entries(*old(c))[i]).0 == key@
                && v@ == lru_entries(*old(c))[i].1
                && lru_entries(*final(c)) == seq![lru_entries(*old(c))[i]] + lru_entries(*old(c)).remove(i),
            None => (forall|i: int| 0 <= i < lru_entries(*old(c)).len() ==> (#[trigger] lru_entries(*old(c))[i]).0 != key@)
                && lru_entries(*final(c)) == lru_entries(*old(c)),
        },
{
    c.get(key).cloned()
}

/// `lru::LruCache::put`: `key` now maps to `value` and is the most recently used entry.
/// An entry with the same key is replaced; otherwise, when the cache is full, the least
/// recently used entry leaves.
#[verifier::external_body]
fn lru_put(c: &mut LruCache<String, Vec<u32>, RandomState>, key: String, value: Vec<u32>)
    ensures
        lru_capacity(*final(c)) == lru_capacity(*old(c)),
        (exists|i: int| 0 <= i < lru_entries(*old(c)).len() && (#[trigger] lru_entries(*old(c))[i]).0 == key@) ==>
            exists|i: int| 0 <= i < lru_entries(*old(c)).len() && (#[trigger] lru_entries(*old(c))[i]).0 == key@
                && lru_entries(*final(c)) == seq![(key@, value@)] + lru_entries(*old(c)).remove(i),
        (forall|i: int| 0 <= i < lru_entries(*old(c)).len() ==> (#[trigger] lru_entries(*old(c))[i]).0 != key@) ==>
            lru_entries(*final(c)) == seq![(key@, value@)] + (if lru_entries(*old(c)).len() == lru_capacity(*old(c)) {
                lru_entries(*old(c)).drop_last()
            } else {
                lru_entries(*old(c))
            }),
{
    c.put(key, value);
}

/// Cache of embeddings keyed by the embedded text.
pub struct EmbeddingCache {
    cache: LruCache<String, Vec<u32>, RandomState>,
}

impl View for EmbeddingCache {
    type V = Seq<(Seq<char>, Seq<u32>)>;

    /// The entries, most recently used first.
    closed spec fn view(&self) -> Seq<(Seq<char>, Seq<u32>)> {
        lru_entries(self.cache)
    }
}

/// The value of `key` in a list of entries.
pub open spec fn lookup(s: Seq<(Seq<char>, Seq<u32>)>, key: Seq<char>) -> Option<Seq<u32>> {
    if exists|i: int| 0 <= i < s.len() && (#[trigger] s[i]).0 == key {
        Some(s[choose|i: int| 0 <= i < s.len() && (#[trigger] s[i]).0 == key].1)
    } else {
        None
    }
}

/// Position of `key` in a list of entries (meaningful when it is present).
pub open spec fn position(s: Seq<(Seq<char>, Seq<u32>)>, key: Seq<char>) -> int {
    choose|i: int| 0 <= i < s.len() && (#[trigger] s[i]).0 == key
}

/// The entries after `key` is set to `value` in a cache of capacity `cap`: the pair goes
/// to the front, replacing the entry of the same key, or, when the key is new and the
/// cache is full, pushing out the least recently used entry.
pub open spec fn after_set(s: Seq<(Seq<char>, Seq<u32>)>, cap: nat, key: Seq<char>, value: Seq<u32>) -> Seq<(Seq<char>, Seq<u32>)> {
    seq![(key, value)] + if lookup(s, key) is Some {
        s.remove(position(s, key))
    } else if s.len() == cap {
        s.drop_last()
    } else {
        s
    }
}

/// The entries after a read of `key`: a present key moves to the front.
pub open spec fn after_get(s: Seq<(Seq<char>, Seq<u32>)>, key: Seq<char>) -> Seq<(Seq<char>, Seq<u32>)> {
    if lookup(s, key) is Some {
        seq![s[position(s, key)]] + s.remove(position(s, key))
    } else {
        s
    }
}

impl EmbeddingCache {
    /// The capacity of the cache.
    pub closed spec fn capacity(&self) -> nat {
        lru_capacity(self.cache)
    }

    /// Keys are unique and the cache holds at most its capacity.
    pub closed spec fn wf(&self) -> bool {
        &&& keys_unique(lru_entries(self.cache))
        &&& lru_entries(self.cache).len() <= lru_capacity(self.cache)
        &&& lru_capacity(self.cache) > 0
    }

    /// An empty cache of `capacity` entries (1000 when 0 is asked for).
    pub fn new(capacity: usize) -> (r: Self)
        ensures
            r.wf(),
            r@ == Seq::<(Seq<char>, Seq<u32>)>::empty(),
            r.capacity() == if capacity == 0 { DEFAULT_CACHE_CAPACITY as nat } else { capacity as nat },
    {
        let cap = if capacity == 0 { DEFAULT_CACHE_CAPACITY } else { capacity };
        EmbeddingCache { cache: lru_new(cap) }
    }

    /// The embedding cached for `key`, which becomes the most recently used entry.
    pub fn get(&mut self, key: &str) -> (r: Option<Vec<u32>>)
        requires
            old(self).wf(),
        ensures
            final(self).wf(),
            final(self).capacity() == old(self).capacity(),
            match r {
                Some(v) => lookup(old(self)@, key@) == Some(v@),
                None => lookup(old(self)@, key@) is None,
            },
            final(self)@ == after_get(old(self)@, key@),
    {
        let ghost s = self@;
        let r = lru_get(&mut self.cache, key);
        proof {
            match &r {
                Some(v) => {
                    let i = choose|i: int| 0 <= i < s.len() && (#[trigger] s[i]).0 == key@
                        && v@ == s[i].1 && self@ == seq![s[i]] + s.remove(i);
                    lemma_move_to_front(s, i, s[i].1);
                    lemma_position_unique(s, i);
                    assert(self@ =~= after_get(s, key@));
                }
                None => {}
            }
        }
        r
    }

    /// Caches `value` for `key`, as the most recently used entry. When the key is new and
    /// the cache is full, the least recently used entry leaves.
    pub fn set(&mut self, key: String, value: Vec<u32>)
        requires
            old(self).wf(),
        ensures
            final(self).wf(),
            final(self).capacity() == old(self).capacity(),
            final(self)@ == after_set(old(self)@, old(self).capacity(), key@, value@),
    {
        let ghost s = self@;
        let ghost kv = key@;
        let ghost vv = value@;
        lru_put(&mut self.cache, key, value);
        proof {
            if exists|i: int| 0 <= i < s.len() && (#[trigger] s[i]).0 == kv {
                let i = choose|i: int| 0 <= i < s.len() && (#[trigger] s[i]).0 == kv
                    && self@ == seq![(kv, vv)] + s.remove(i);
                lemma_move_to_front(s, i, vv);
                lemma_position_unique(s, i);
            } else {
                let t = if s.len() == lru_capacity(self.cache) { s.drop_last() } else { s };
                lemma_push_front_fresh(s, t, kv, vv);
            }
        }
    }
}

proof fn lemma_position_unique(s: Seq<(Seq<char>, Seq<u32>)>, i: int)
    requires
        keys_unique(s),
        0 <= i < s.len(),
    ensures
        position(s, s[i].0) == i,
        lookup(s, s[i].0) is Some,
{
    let j = position(s, s[i].0);
    assert(0 <= j < s.len() && s[j].0 == s[i].0);
}

proof fn lemma_lookup_unique(s: Seq<(Seq<char>, Seq<u32>)>, i: int)
    requires
        keys_unique(s),
        0 <= i < s.len(),
    ensures
        lookup(s, s[i].0) == Some(s[i].1),
{
    let k = s[i].0;
    let j = choose|j: int| 0 <= j < s.len() && (#[trigger] s[j]).0 == k;
    assert(j == i);
}

proof fn lemma_move_to_front(s: Seq<(Seq<char>, Seq<u32>)>, i: int, v: Seq<u32>)
    requires
        keys_unique(s),
        0 <= i < s.len(),
    ensures
        keys_unique(seq![(s[i].0, v)] + s.remove(i)),
        (seq![(s[i].0, v)] + s.remove(i)).len() == s.len(),
        lookup(seq![(s[i].0, v)] + s.remove(i), s[i].0) == Some(v),
        lookup(s, s[i].0) == Some(s[i].1),
        forall|k: Seq<char>| k != s[i].0 ==> lookup(#[trigger] (seq![(s[i].0, v)] + s.remove(i)), k) == lookup(s, k),
{
    let t = seq![(s[i].0, v)] + s.remove(i);
    let r = s.remove(i);
    assert forall|a: int| 0 <= a < r.len() implies (#[trigger] r[a]) == (if a < i { s[a] } else { s[a + 1] }) by {}
    assert(keys_unique(t)) by {
        assert forall|a: int, b: int| 0 <= a < t.len() && 0 <= b < t.len() && a != b implies t[a].0 != t[b].0 by {
            let sa = if a == 0 { i } else if a - 1 < i { a - 1 } else { a };
            let sb = if b == 0 { i } else if b - 1 < i { b - 1 } else { b };
            assert(t[a].0 == s[sa].0);
            assert(t[b].0 == s[sb].0);
        }
    }
    lemma_lookup_unique(s, i);
    assert(t[0] == (s[i].0, v));
    lemma_lookup_unique(t, 0);
    assert forall|k: Seq<char>| k != s[i].0 implies #[trigger] lookup(t, k) == lookup(s, k) by {
        if exists|a: int| 0 <= a < s.len() && (#[trigger] s[a]).0 == k {
            let a = choose|a: int| 0 <= a < s.len() && (#[trigger] s[a]).0 == k;
            lemma_lookup_unique(s, a);
            let ta = if a < i { a + 1 } else { a };
            assert(t[ta] == s[a]);
            lemma_lookup_unique(t, ta);
        } else {
            assert forall|b: int| 0 <= b < t.len() implies (#[trigger] t[b]).0 != k by {
                let sb = if b == 0 { i } else if b - 1 < i { b - 1 } else { b };
                assert(t[b].0 == s[sb].0 || b == 0);
            }
        }
    }
}

proof fn lemma_push_front_fresh(s: Seq<(Seq<char>, Seq<u32>)>, t: Seq<(Seq<char>, Seq<u32>)>, k: Seq<char>, v: Seq<u32>)
    requires
        keys_unique(s),
        t == s || (s.len() > 0 && t == s.drop_last()),
        forall|i: int| 0 <= i < s.len() ==> (#[trigger] s[i]).0 != k,
    ensures
        keys_unique(seq![(k, v)] + t),
        lookup(seq![(k, v)] + t, k) == Some(v),
        t == s ==> forall|k2: Seq<char>| k2 != k ==> lookup(#[trigger] (seq![(k, v)] + t), k2) == lookup(s, k2),
{
    let u = seq![(k, v)] + t;
    assert(t.len() <= s.len());
    assert forall|a: int| 0 <= a < t.len() implies (#[trigger] t[a]) == s[a] by {
        if t != s {
            assert(t == s.drop_last());
        }
    }
    assert(keys_unique(u)) by {
        assert forall|a: int, b: int| 0 <= a < u.len() && 0 <= b < u.len() && a != b implies u[a].0 != u[b].0 by {
            if a > 0 {
                assert(u[a] == t[a - 1]);
                assert(t[a - 1] == s[a - 1]);
            }
            if b > 0 {
                assert(u[b] == t[b - 1]);
                assert(t[b - 1] == s[b - 1]);
            }
        }
    }
    lemma_lookup_unique(u, 0);
    if t == s {
        assert forall|k2: Seq<char>| k2 != k implies #[trigger] lookup(u, k2) == lookup(s, k2) by {
            if exists|a: int| 0 <= a < s.len() && (#[trigger] s[a]).0 == k2 {
                let a = choose|a: int| 0 <= a < s.len() && (#[trigger] s[a]).0 == k2;
                lemma_lookup_unique(s, a);
                assert(u[a + 1] == s[a]);
                lemma_lookup_unique(u, a + 1);
            } else {
                assert forall|b: int| 0 <= b < u.len() implies (#[trigger] u[b]).0 != k2 by {
                    if b > 0 {
                        assert(u[b] == s[b - 1]);
                    }
                }
            }
        }
    }
}

/// A read right after a write of the same text gives back the value written; the
/// write leaves the other texts that stay cached as they were; and a cache never holds
/// more entries than its capacity.
pub proof fn law_get_after_set(s: Seq<(Seq<char>, Seq<u32>)>, cap: nat, key: Seq<char>, value: Seq<u32>)
    requires
        keys_unique(s),
        s.len() <= cap,
        cap > 0,
    ensures
        lookup(after_set(s, cap, key, value), key) == Some(value),
        keys_unique(after_set(s, cap, key, value)),
        after_set(s, cap, key, value).len() <= cap,
        lookup(s, key) is Some || s.len() < cap ==> forall|k: Seq<char>| k != key ==>
            #[trigger] lookup(after_set(s, cap, key, value), k) == lookup(s, k),
{
    if lookup(s, key) is Some {
        let i = choose|i: int| 0 <= i < s.len() && (#[trigger] s[i]).0 == key;
        lemma_position_unique(s, i);
        lemma_move_to_front(s, i, value);
    } else {
        assert forall|i: int| 0 <= i < s.len() implies (#[trigger] s[i]).0 != key by {
            if s[i].0 == key {
                assert(lookup(s, key) is Some);
            }
        }
        let t = if s.len() == cap { s.drop_last() } else { s };
        lemma_push_front_fresh(s, t, key, value);
    }
}

} // verus!
