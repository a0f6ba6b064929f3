//! The mathematical model of the container: an ascending sequence of entries,
//! and the map that such a sequence denotes.

use crate::order::{key_lt, lemma_irreflexive, lemma_trichotomy, total_order};
use vstd::prelude::*;

verus! {

/// The keys of `s` strictly increase from front to back.
pub open spec fn keys_ascending<K: Ord, V>(s: Seq<(K, V)>) -> bool {
    forall|i: int, j: int| 0 <= i < j < s.len() ==> key_lt(#[trigger] s[i].0, #[trigger] s[j].0)
}

/// No key occurs twice in `s`.
pub open spec fn keys_distinct<K, V>(s: Seq<(K, V)>) -> bool {
    forall|i: int, j: int| 0 <= i < j < s.len() ==> #[trigger] s[i].0 != #[trigger] s[j].0
}

/// Some entry of `s` has the key `k`.
pub open spec fn has_key<K, V>(s: Seq<(K, V)>, k: K) -> bool {
    exists|i: int| 0 <= i < s.len() && #[trigger] s[i].0 == k
}

/// A place in `s` where the key `k` stands, if there is one.
pub open spec fn index_of<K, V>(s: Seq<(K, V)>, k: K) -> int {
    choose|i: int| 0 <= i < s.len() && #[trigger] s[i].0 == k
}

/// The map that a sequence of entries denotes.
pub open spec fn to_map<K, V>(s: Seq<(K, V)>) -> Map<K, V> {
    Map::new(|k: K| has_key(s, k), |k: K| s[index_of(s, k)].1)
}

/// An ascending sequence holds no key twice.
pub proof fn lemma_ascending_distinct<K: Ord, V>(s: Seq<(K, V)>)
    requires
        total_order::<K>(),
        keys_ascending(s),
    ensures
        keys_distinct(s),
{
    assert forall|i: int, j: int| 0 <= i < j < s.len() implies #[trigger] s[i].0 != #[trigger] s[j].0 by {
        lemma_irreflexive(s[i].0);
    }
}

/// Each entry of a sequence without repeated keys is what the map holds at its key.
pub proof fn lemma_to_map_at<K, V>(s: Seq<(K, V)>, i: int)
    requires
        keys_distinct(s),
        0 <= i < s.len(),
    ensures
        to_map(s).contains_key(s[i].0),
        to_map(s)[s[i].0] == s[i].1,
{
}

/// Putting an entry with a new key anywhere into the sequence inserts it into the map.
pub proof fn lemma_to_map_insert<K, V>(s: Seq<(K, V)>, at: int, k: K, v: V)
    requires
        keys_distinct(s),
        0 <= at <= s.len(),
        !has_key(s, k),
    ensures
        keys_distinct(s.insert(at, (k, v))),
        to_map(s.insert(at, (k, v))) == to_map(s).insert(k, v),
{
    let t = s.insert(at, (k, v));
    assert(keys_distinct(t));
    assert forall|x: K| #[trigger] has_key(t, x) <==> (x == k || has_key(s, x)) by {
        if x == k {
            assert(t[at].0 == x);
        }
        if has_key(s, x) {
            let i = index_of(s, x);
            let i1 = if i < at { i } else { i + 1 };
            assert(t[i1].0 == x);
        }
    }
    assert forall|x: K| has_key(t, x) implies #[trigger] to_map(t)[x] == to_map(s).insert(k, v)[x] by {
        if x == k {
            lemma_to_map_at(t, at);
        } else {
            let i = index_of(s, x);
            let i1 = if i < at { i } else { i + 1 };
            lemma_to_map_at(t, i1);
            lemma_to_map_at(s, i);
        }
    }
}

/// Replacing the value of the entry at `at` replaces it in the map.
pub proof fn lemma_to_map_update<K, V>(s: Seq<(K, V)>, at: int, v: V)
    requires
        keys_distinct(s),
        0 <= at < s.len(),
    ensures
        keys_distinct(s.update(at, (s[at].0, v))),
        to_map(s.update(at, (s[at].0, v))) == to_map(s).insert(s[at].0, v),
{
    let k = s[at].0;
    let t = s.update(at, (k, v));
    assert forall|x: K| #[trigger] has_key(t, x) <==> (x == k || has_key(s, x)) by {
        if has_key(s, x) {
            let i = index_of(s, x);
            assert(t[i].0 == x);
        }
    }
    assert forall|x: K| has_key(t, x) implies #[trigger] to_map(t)[x] == to_map(s).insert(k, v)[x] by {
        if x == k {
            lemma_to_map_at(t, at);
        } else {
            let i = index_of(s, x);
            lemma_to_map_at(t, i);
            lemma_to_map_at(s, i);
        }
    }
}

/// Taking the entry at `at` out of the sequence removes its key from the map.
pub proof fn lemma_to_map_remove<K, V>(s: Seq<(K, V)>, at: int)
    requires
        keys_distinct(s),
        0 <= at < s.len(),
    ensures
        keys_distinct(s.remove(at)),
        !has_key(s.remove(at), s[at].0),
        to_map(s.remove(at)) == to_map(s).remove(s[at].0),
{
    let k = s[at].0;
    let t = s.remove(at);
    assert(keys_distinct(t));
    assert forall|x: K| #[trigger] has_key(t, x) <==> (x != k && has_key(s, x)) by {
        if x != k && has_key(s, x) {
            let i = index_of(s, x);
            let i0 = if i < at { i } else { i - 1 };
            assert(t[i0].0 == x);
        }
    }
    assert forall|x: K| has_key(t, x) implies #[trigger] to_map(t)[x] == to_map(s).remove(k)[x] by {
        let i = index_of(s, x);
        let i0 = if i < at { i } else { i - 1 };
        lemma_to_map_at(t, i0);
        lemma_to_map_at(s, i);
    }
}

/// The map of a sequence without repeated keys is finite and has one key per entry.
pub proof fn lemma_to_map_len<K, V>(s: Seq<(K, V)>)
    requires
        keys_distinct(s),
    ensures
        to_map(s).dom().finite(),
        to_map(s).dom().len() == s.len(),
    decreases s.len(),
{
    if s.len() == 0 {
        assert(to_map(s) =~= Map::<K, V>::empty());
    } else {
        let at = s.len() - 1;
        let t = s.remove(at);
        lemma_to_map_remove(s, at);
        lemma_to_map_len(t);
        lemma_to_map_insert(t, at, s[at].0, s[at].1);
    }
}

/// Putting an entry between the keys below it and the keys above it keeps
/// the sequence ascending.
pub proof fn lemma_ascending_insert<K: Ord, V>(s: Seq<(K, V)>, at: int, k: K, v: V)
    requires
        keys_ascending(s),
        0 <= at <= s.len(),
        forall|i: int| 0 <= i < at ==> key_lt(#[trigger] s[i].0, k),
        forall|i: int| at <= i < s.len() ==> key_lt(k, #[trigger] s[i].0),
    ensures
        keys_ascending(s.insert(at, (k, v))),
{
}

/// Taking an entry out keeps the sequence ascending.
pub proof fn lemma_ascending_remove<K: Ord, V>(s: Seq<(K, V)>, at: int)
    requires
        keys_ascending(s),
        0 <= at < s.len(),
    ensures
        keys_ascending(s.remove(at)),
{
}

/// Replacing a value keeps the sequence ascending.
pub proof fn lemma_ascending_update<K: Ord, V>(s: Seq<(K, V)>, at: int, v: V)
    requires
        keys_ascending(s),
        0 <= at < s.len(),
    ensures
        keys_ascending(s.update(at, (s[at].0, v))),
{
}

/// The map that comes of putting the entries of `pairs` into `m`, one after
/// the other from the front.
pub open spec fn inserted_into<K, V>(m: Map<K, V>, pairs: Seq<(K, V)>) -> Map<K, V>
    decreases pairs.len(),
{
    if pairs.len() == 0 {
        m
    } else {
        inserted_into(m, pairs.drop_last()).insert(pairs.last().0, pairs.last().1)
    }
}

/// Two ascending sequences that denote the same map are the same sequence:
/// a map has one ascending listing.
pub proof fn lemma_listing_unique<K: Ord, V>(s: Seq<(K, V)>, t: Seq<(K, V)>)
    requires
        total_order::<K>(),
        keys_ascending(s),
        keys_ascending(t),
        to_map(s) == to_map(t),
    ensures
        s == t,
    decreases s.len(),
{
    lemma_ascending_distinct(s);
    lemma_ascending_distinct(t);
    lemma_to_map_len(s);
    lemma_to_map_len(t);
    if s.len() > 0 {
        let n = s.len() - 1;
        lemma_to_map_at(s, n);
        lemma_to_map_at(t, n);
        let j = index_of(t, s[n].0);
        let i = index_of(s, t[n].0);
        if j < n && i < n {
            lemma_trichotomy(s[n].0, t[n].0);
        }
        lemma_to_map_remove(s, n);
        lemma_to_map_remove(t, n);
        lemma_ascending_remove(s, n);
        lemma_ascending_remove(t, n);
        lemma_listing_unique(s.remove(n), t.remove(n));
        assert(s =~= s.remove(n).push(s[n]));
    }
}

} // verus!
