//! Association lists keyed by strings: a `Vec<(String, V)>` whose keys are unique,
//! seen as a finite map from the key's characters to the value.

use vstd::prelude::*;

verus! {

/// Keys of the association list are pairwise distinct.
pub open spec fn keys_unique<V>(s: Seq<(Seq<char>, V)>) -> bool {
    forall|i: int, j: int| 0 <= i < s.len() && 0 <= j < s.len() && i != j ==> s[i].0 != s[j].0
}

/// The map that an association list denotes (later entries win, which does not matter
/// when keys are unique).
pub open spec fn assoc_map<V>(s: Seq<(Seq<char>, V)>) -> Map<Seq<char>, V>
    decreases s.len(),
{
    if s.len() == 0 {
        Map::empty()
    } else {
        assoc_map(s.drop_last()).insert(s.last().0, s.last().1)
    }
}

/// A key occurs in the denoted map exactly when some entry carries it.
pub proof fn lemma_assoc_contains<V>(s: Seq<(Seq<char>, V)>, k: Seq<char>)
    ensures
        assoc_map(s).contains_key(k) <==> exists|i: int| 0 <= i < s.len() && #[trigger] s[i].0 == k,
    decreases s.len(),
{
    if s.len() > 0 {
        lemma_assoc_contains(s.drop_last(), k);
        if assoc_map(s.drop_last()).contains_key(k) {
            let i = choose|i: int| 0 <= i < s.drop_last().len() && #[trigger] s.drop_last()[i].0 == k;
            assert(s[i].0 == k);
        }
        if exists|i: int| 0 <= i < s.len() && #[trigger] s[i].0 == k {
            let i = choose|i: int| 0 <= i < s.len() && #[trigger] s[i].0 == k;
            if i < s.len() - 1 {
                assert(s.drop_last()[i].0 == k);
            }
        }
    }
}

/// With unique keys, the map sends each entry's key to that entry's value.
pub proof fn lemma_assoc_index<V>(s: Seq<(Seq<char>, V)>, i: int)
    requires
        keys_unique(s),
        0 <= i < s.len(),
    ensures
        assoc_map(s).contains_key(s[i].0),
        assoc_map(s)[s[i].0] == s[i].1,
    decreases s.len(),
{
    if i < s.len() - 1 {
        let d = s.drop_last();
        assert(keys_unique(d));
        assert(d[i] == s[i]);
        lemma_assoc_index(d, i);
        assert(s.last().0 != s[i].0);
    }
}

/// Replacing the value of one entry replaces it in the map.
pub proof fn lemma_assoc_update<V>(s: Seq<(Seq<char>, V)>, i: int, v: V)
    requires
        keys_unique(s),
        0 <= i < s.len(),
    ensures
        keys_unique(s.update(i, (s[i].0, v))),
        assoc_map(s.update(i, (s[i].0, v))) =~= assoc_map(s).insert(s[i].0, v),
    decreases s.len(),
{
    let s2 = s.update(i, (s[i].0, v));
    assert(keys_unique(s2)) by {
        assert forall|a: int, b: int| 0 <= a < s2.len() && 0 <= b < s2.len() && a != b implies s2[a].0 != s2[b].0 by {
            assert(s2[a].0 == s[a].0);
            assert(s2[b].0 == s[b].0);
        }
    }
    if i == s.len() - 1 {
        assert(s2.drop_last() =~= s.drop_last());
    } else {
        let d = s.drop_last();
        assert(keys_unique(d));
        assert(d[i] == s[i]);
        lemma_assoc_update(d, i, v);
        assert(s2.drop_last() =~= d.update(i, (d[i].0, v)));
        assert(s.last().0 != s[i].0);
        assert(s2.last() == s.last());
    }
}

/// Appending an entry with a fresh key keeps the keys unique and adds it to the map.
pub proof fn lemma_assoc_push<V>(s: Seq<(Seq<char>, V)>, k: Seq<char>, v: V)
    requires
        keys_unique(s),
        forall|i: int| 0 <= i < s.len() ==> #[trigger] s[i].0 != k,
    ensures
        keys_unique(s.push((k, v))),
        assoc_map(s.push((k, v))) == assoc_map(s).insert(k, v),
{
    let s2 = s.push((k, v));
    assert(s2.drop_last() =~= s);
    assert(keys_unique(s2)) by {
        assert forall|a: int, b: int| 0 <= a < s2.len() && 0 <= b < s2.len() && a != b implies s2[a].0 != s2[b].0 by {
            if a < s.len() {
                assert(s2[a] == s[a]);
            }
            if b < s.len() {
                assert(s2[b] == s[b]);
            }
        }
    }
}

/// Removing an entry removes its key from the map.
pub proof fn lemma_assoc_remove<V>(s: Seq<(Seq<char>, V)>, i: int)
    requires
        keys_unique(s),
        0 <= i < s.len(),
    ensures
        keys_unique(s.remove(i)),
        assoc_map(s.remove(i)) =~= assoc_map(s).remove(s[i].0),
    decreases s.len(),
{
    let s2 = s.remove(i);
    assert forall|a: int| 0 <= a < s2.len() implies (#[trigger] s2[a]) == (if a < i { s[a] } else { s[a + 1] }) by {}
    assert(keys_unique(s2)) by {
        assert forall|a: int, b: int| 0 <= a < s2.len() && 0 <= b < s2.len() && a != b implies s2[a].0 != s2[b].0 by {
            let sa = if a < i { a } else { a + 1 };
            let sb = if b < i { b } else { b + 1 };
            assert(s2[a] == s[sa] && s2[b] == s[sb]);
        }
    }
    if i == s.len() - 1 {
        assert(s2 =~= s.drop_last());
        lemma_assoc_contains(s.drop_last(), s[i].0);
        if assoc_map(s.drop_last()).contains_key(s[i].0) {
            let j = choose|j: int| 0 <= j < s.drop_last().len() && #[trigger] s.drop_last()[j].0 == s[i].0;
            assert(s[j].0 == s[i].0);
        }
    } else {
        let d = s.drop_last();
        assert(keys_unique(d));
        assert(d[i] == s[i]);
        lemma_assoc_remove(d, i);
        assert(s2.drop_last() =~= d.remove(i));
        assert(s2.last() == s.last());
        assert(s.last().0 != s[i].0);
    }
}

/// With unique keys, the map has as many keys as the list has entries.
pub proof fn lemma_assoc_len<V>(s: Seq<(Seq<char>, V)>)
    requires
        keys_unique(s),
    ensures
        assoc_map(s).dom().finite(),
        assoc_map(s).dom().len() == s.len(),
    decreases s.len(),
{
    if s.len() > 0 {
        let d = s.drop_last();
        assert(keys_unique(d));
        lemma_assoc_len(d);
        lemma_assoc_contains(d, s.last().0);
        if assoc_map(d).contains_key(s.last().0) {
            let j = choose|j: int| 0 <= j < d.len() && #[trigger] d[j].0 == s.last().0;
            assert(s[j].0 == s[s.len() - 1].0);
        }
        assert(assoc_map(s).dom() =~= assoc_map(d).dom().insert(s.last().0));
    }
}

/// Index of the entry whose key equals `key`, if there is one.
pub fn find_key<V>(entries: &Vec<(String, V)>, key: &String) -> (r: Option<usize>)
    ensures
        match r {
            Some(i) => i < entries@.len() && entries@[i as int].0@ == key@,
            None => forall|j: int| 0 <= j < entries@.len() ==> #[trigger] entries@[j].0@ != key@,
        },
{
    let n = entries.len();
    let mut i: usize = 0;
    while i < n
        invariant
            n == entries@.len(),
            i <= n,
            forall|j: int| 0 <= j < i ==> #[trigger] entries@[j].0@ != key@,
        decreases n - i,
    {
        if entries[i].0 == *key {
            return Some(i);
        }
        i = i + 1;
    }
    None
}

} // verus!
