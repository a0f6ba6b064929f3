//! Copying a container entry by entry.

use crate::list::SkipList;
use crate::model::{
    has_key, inserted_into, keys_ascending, lemma_ascending_distinct, lemma_listing_unique,
    lemma_to_map_insert,
};
use crate::order::{key_lt, lemma_irreflexive, total_order};
use vstd::prelude::*;

verus! {

/// `t` holds, place by place, a clone of the key and of the value of `s`.
pub open spec fn clones_of<K: Clone, V: Clone>(s: Seq<(K, V)>, t: Seq<(K, V)>) -> bool {
    &&& s.len() == t.len()
    &&& forall|i: int|
        0 <= i < s.len() ==> cloned(#[trigger] s[i].0, t[i].0) && cloned(s[i].1, t[i].1)
}

/// A clone of a value of `T` is always that same value.
pub open spec fn clone_keeps<T: Clone>() -> bool {
    forall|a: T, b: T| #[trigger] cloned(a, b) ==> a == b
}

impl<K: Ord + Clone, V: Clone> SkipList<K, V> {
    /// A container of its own that holds a clone of every entry. The entries
    /// are cloned and put in one by one in ascending order, and each gets a
    /// node of a freshly drawn height.
    ///
    /// Where a cloned key is the key it was cloned from, the copy lists the
    /// same keys in the same order, each with a clone of its value.
    pub fn clone(&self) -> (copy: Self)
        requires
            self.wf(),
            total_order::<K>(),
        ensures
            copy.wf(),
            exists|pairs: Seq<(K, V)>| #[trigger]
                clones_of(self.entries(), pairs) && copy@ == inserted_into(Map::empty(), pairs),
            clone_keeps::<K>() ==> clones_of(self.entries(), copy.entries()),
            clone_keeps::<K>() && clone_keeps::<V>() ==> copy.entries() == self.entries(),
    {
        let mut copy: SkipList<K, V> = SkipList::new();
        let mut it = self.iter();
        let ghost all = self.entries();
        let ghost mut pairs: Seq<(K, V)> = Seq::empty();
        proof {
            self.lemma_entries();
            assert(all.skip(0) =~= all);
        }
        loop
            invariant
                total_order::<K>(),
                keys_ascending(all),
                it.wf(),
                copy.wf(),
                0 <= pairs.len() <= all.len(),
                it.remaining() == all.skip(pairs.len() as int),
                clones_of(all.take(pairs.len() as int), pairs),
                copy@ == inserted_into(Map::empty(), pairs),
                clone_keeps::<K>() ==> copy.entries() == pairs,
            ensures
                pairs.len() == all.len(),
            decreases all.len() - pairs.len(),
        {
            let ghost n = pairs.len() as int;
            match it.next() {
                Some((k, v)) => {
                    let key = k.clone();
                    let value = v.clone();
                    let ghost before = copy.entries();
                    proof {
                        assert(cloned(*k, key));
                        assert(all.skip(n)[0] == all[n]);
                        copy.lemma_entries();
                    }
                    copy.insert(key, value);
                    proof {
                        let grown = pairs.push((key, value));
                        assert(grown.drop_last() =~= pairs);
                        if clone_keeps::<K>() {
                            assert forall|i: int, j: int| 0 <= i < j < grown.len() implies key_lt(
                                #[trigger] grown[i].0,
                                #[trigger] grown[j].0,
                            ) by {
                                assert(cloned(all.take(n + 1)[i].0, grown[i].0));
                            }
                            lemma_ascending_distinct(before);
                            if has_key(before, key) {
                                let i = choose|i: int| 0 <= i < before.len() && #[trigger] before[i].0 == key;
                                assert(key_lt(grown[i].0, grown[n].0));
                                lemma_irreflexive(key);
                            }
                            lemma_to_map_insert(before, n, key, value);
                            assert(before.insert(n, (key, value)) =~= grown);
                            copy.lemma_entries();
                            lemma_listing_unique(copy.entries(), grown);
                        }
                        pairs = grown;
                    }
                },
                None => {
                    break ;
                },
            }
        }
        proof {
            if clone_keeps::<K>() && clone_keeps::<V>() {
                assert forall|i: int| 0 <= i < all.len() implies pairs[i] == all[i] by {}
                assert(copy.entries() =~= all);
            }
        }
        copy
    }
}

} // verus!
