//! What holds of the container across its operations, proved from the
//! contracts of the operations.

use crate::list::copy::{clone_keeps, clones_of};
use crate::list::SkipList;
use crate::model::{
    has_key, inserted_into, keys_ascending, keys_distinct, lemma_listing_unique, lemma_to_map_at,
    lemma_to_map_insert, lemma_to_map_remove, to_map,
};
use crate::order::total_order;
use vstd::prelude::*;

verus! {

/// After any run of inserts, a key holds the value of the last insert that
/// named it.
pub proof fn law_last_insert_wins<K, V>(m: Map<K, V>, pairs: Seq<(K, V)>, i: int)
    requires
        0 <= i < pairs.len(),
        forall|j: int| i < j < pairs.len() ==> (#[trigger] pairs[j]).0 != pairs[i].0,
    ensures
        inserted_into(m, pairs).contains_key(pairs[i].0),
        inserted_into(m, pairs)[pairs[i].0] == pairs[i].1,
    decreases pairs.len(),
{
    if i < pairs.len() - 1 {
        let front = pairs.drop_last();
        law_last_insert_wins(m, front, i);
    }
}

/// A run of inserts leaves the keys that it does not name as they were.
pub proof fn law_inserts_leave_others<K, V>(m: Map<K, V>, pairs: Seq<(K, V)>, key: K)
    requires
        forall|j: int| 0 <= j < pairs.len() ==> (#[trigger] pairs[j]).0 != key,
    ensures
        inserted_into(m, pairs).contains_key(key) == m.contains_key(key),
        m.contains_key(key) ==> inserted_into(m, pairs)[key] == m[key],
    decreases pairs.len(),
{
    if pairs.len() > 0 {
        let front = pairs.drop_last();
        law_inserts_leave_others(m, front, key);
    }
}

/// A run of inserts that names no key twice, into an empty container, leaves
/// exactly the entries that were put in.
pub proof fn law_inserts_build_listing<K, V>(pairs: Seq<(K, V)>)
    requires
        keys_distinct(pairs),
    ensures
        inserted_into(Map::<K, V>::empty(), pairs) == to_map(pairs),
    decreases pairs.len(),
{
    if pairs.len() > 0 {
        let at = pairs.len() - 1;
        let front = pairs.drop_last();
        lemma_to_map_remove(pairs, at);
        law_inserts_build_listing(front);
        lemma_to_map_insert(front, at, pairs[at].0, pairs[at].1);
    }
}

/// Once `value` has been put under `key`, a lookup of `key` finds `value`,
/// and a lookup of any other key finds what it found before.
pub proof fn law_get_after_insert<K: Ord, V>(
    before: SkipList<K, V>,
    after: SkipList<K, V>,
    key: K,
    value: V,
    other: K,
)
    requires
        after@ == before@.insert(key, value),
    ensures
        after@.contains_key(key),
        after@[key] == value,
        other != key ==> after@.contains_key(other) == before@.contains_key(other),
        other != key && before@.contains_key(other) ==> after@[other] == before@[other],
{
}

/// The count of entries is the number of keys held: it goes up by one with
/// an insert of a new key, down by one with a removal of a key that is
/// there, and stays otherwise.
pub proof fn law_len_counts_keys<K: Ord, V>(
    before: SkipList<K, V>,
    inserted: SkipList<K, V>,
    removed: SkipList<K, V>,
    key: K,
    value: V,
)
    requires
        before.wf(),
        inserted.wf(),
        removed.wf(),
        inserted@ == before@.insert(key, value),
        removed@ == before@.remove(key),
    ensures
        before.entries().len() == before@.dom().len(),
        inserted.entries().len() == before.entries().len() + (if before@.contains_key(key) {
            0int
        } else {
            1int
        }),
        removed.entries().len() == before.entries().len() - (if before@.contains_key(key) {
            1int
        } else {
            0int
        }),
{
    before.lemma_entries();
    inserted.lemma_entries();
    removed.lemma_entries();
}

/// A traversal of a container yields as many entries as it counts, with
/// strictly ascending keys and so with no key twice, and each entry is what
/// the map holds at its key.
pub proof fn law_traversal_ascending<K: Ord, V>(list: SkipList<K, V>)
    requires
        list.wf(),
    ensures
        list.entries().len() == list@.dom().len(),
        keys_ascending(list.entries()),
        keys_distinct(list.entries()),
        forall|i: int|
            0 <= i < list.entries().len() ==> list@.contains_key(#[trigger] list.entries()[i].0)
                && list@[list.entries()[i].0] == list.entries()[i].1,
        forall|k: K| list@.contains_key(k) <==> has_key(list.entries(), k),
{
    list.lemma_entries();
}

/// The traversal of a container is the one ascending listing of what it
/// holds: any ascending sequence of the same entries is that traversal.
pub proof fn law_traversal_is_sorted_listing<K: Ord, V>(list: SkipList<K, V>, sorted: Seq<(K, V)>)
    requires
        total_order::<K>(),
        list.wf(),
        keys_ascending(sorted),
        to_map(sorted) == list@,
    ensures
        list.entries() == sorted,
{
    list.lemma_entries();
    lemma_listing_unique(list.entries(), sorted);
}

/// A key that was put in and then removed is gone, the removal hands back
/// the value put in, and the container holds what it held before but for
/// that key.
pub proof fn law_remove_after_insert<K: Ord, V>(
    before: SkipList<K, V>,
    inserted: SkipList<K, V>,
    removed: SkipList<K, V>,
    key: K,
    value: V,
)
    requires
        inserted@ == before@.insert(key, value),
        removed@ == inserted@.remove(key),
    ensures
        inserted@.contains_key(key),
        inserted@[key] == value,
        !removed@.contains_key(key),
        removed@ == before@.remove(key),
{
}

/// Removing a key that is not there leaves the container's entries, and so
/// its count, as they were.
pub proof fn law_remove_absent<K: Ord, V>(before: SkipList<K, V>, after: SkipList<K, V>, key: K)
    requires
        total_order::<K>(),
        before.wf(),
        after.wf(),
        !before@.contains_key(key),
        after@ == before@.remove(key),
    ensures
        after@ == before@,
        after.entries() == before.entries(),
{
    assert(after@ =~= before@);
    before.lemma_entries();
    after.lemma_entries();
    lemma_listing_unique(after.entries(), before.entries());
}

/// A container that was emptied takes entries again: after one insert it
/// holds that entry and no other.
pub proof fn law_insert_after_clear<K: Ord, V>(
    cleared: SkipList<K, V>,
    after: SkipList<K, V>,
    key: K,
    value: V,
)
    requires
        total_order::<K>(),
        cleared.wf(),
        after.wf(),
        cleared.entries() == Seq::<(K, V)>::empty(),
        after@ == cleared@.insert(key, value),
    ensures
        after.entries() == seq![(key, value)],
{
    let one = seq![(key, value)];
    assert(to_map(cleared.entries()) =~= Map::<K, V>::empty());
    lemma_to_map_at(one, 0);
    assert(to_map(one) =~= Map::<K, V>::empty().insert(key, value)) by {
        assert forall|k: K| has_key(one, k) implies k == key by {}
    }
    after.lemma_entries();
    lemma_listing_unique(after.entries(), one);
}

/// A copy whose keys are the keys they were cloned from counts as many
/// entries as its source and holds, under each key of the source, a clone
/// of the source's value.
pub proof fn law_clone_holds_clones<K: Ord + Clone, V: Clone>(
    source: SkipList<K, V>,
    copy: SkipList<K, V>,
)
    requires
        source.wf(),
        copy.wf(),
        clone_keeps::<K>(),
        clones_of(source.entries(), copy.entries()),
    ensures
        copy.entries().len() == source.entries().len(),
        forall|k: K| source@.contains_key(k) <==> copy@.contains_key(k),
        forall|k: K| #[trigger] source@.contains_key(k) ==> cloned(source@[k], copy@[k]),
{
    let s = source.entries();
    let c = copy.entries();
    source.lemma_entries();
    copy.lemma_entries();
    assert forall|i: int| 0 <= i < s.len() implies (#[trigger] c[i]).0 == s[i].0 by {}
    assert forall|k: K| #[trigger] source@.contains_key(k) implies cloned(source@[k], copy@[k]) by {
        let i = choose|i: int| 0 <= i < s.len() && #[trigger] s[i].0 == k;
        lemma_to_map_at(s, i);
        lemma_to_map_at(c, i);
    }
}

} // verus!
