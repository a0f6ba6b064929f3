//! The search that lookup, insertion and removal share: from the head and
//! the top level, along each level while the keys are below the one sought,
//! then one level down.

use crate::level::MAX_LEVEL;
use crate::links::{lemma_next_tall, level_linked, link_ok, next_tall, no_skip};
use crate::list::SkipList;
use crate::order::{key_lt, less, same, total_order};
use vstd::prelude::*;

verus! {

impl<K: Ord, V> SkipList<K, V> {
    /// Walks along `level` from the node `start` to the last node of that
    /// level whose key is below `key`.
    fn advance(&self, start: usize, level: usize, key: &K, Ghost(p): Ghost<int>) -> (r: (
        usize,
        Ghost<int>,
    ))
        requires
            self.wf(),
            total_order::<K>(),
            0 <= p < self.chain@.len(),
            self.chain@[p] == start,
            level < self.fw()[p].len(),
            p >= 1 ==> key_lt(self.entry_at(p).0, *key),
        ensures
            p <= r.1@ < self.chain@.len(),
            self.chain@[r.1@] == r.0,
            level < self.fw()[r.1@].len(),
            r.1@ >= 1 ==> key_lt(self.entry_at(r.1@).0, *key),
            self.stops(r.1@, level as int, *key),
    {
        let mut cur = start;
        let ghost mut q = p;
        loop
            invariant
                self.wf(),
                total_order::<K>(),
                0 <= p <= q < self.chain@.len(),
                self.chain@[q] == cur,
                level < self.fw()[q].len(),
                q >= 1 ==> key_lt(self.entry_at(q).0, *key),
            ensures
                self.stops(q, level as int, *key),
            decreases self.chain@.len() - q,
        {
            let next = self.link(Ghost(q), cur, level);
            let ghost nx = next_tall(self.fw(), no_skip(), q + 1, level as int);
            proof {
                lemma_next_tall(self.fw(), no_skip(), q + 1, level as int);
                assert(level_linked(self.chain@, self.fw(), no_skip(), level as int));
                assert(link_ok(self.chain@, self.fw(), no_skip(), q, level as int));
            }
            match next {
                None => {
                    break ;
                },
                Some(h) => {
                    if less(self.key_of(Ghost(nx), h), key) {
                        cur = h;
                        proof {
                            q = nx;
                        }
                    } else {
                        break ;
                    }
                },
            }
        }
        (cur, Ghost(q))
    }

    /// Finds the node after which `key` belongs: the last one whose key is
    /// below `key`, or the head.
    pub(super) fn find_predecessor(&self, key: &K) -> (r: (usize, Ghost<int>))
        requires
            self.wf(),
            total_order::<K>(),
        ensures
            self.splits_at(r.1@, *key),
            self.chain@[r.1@] == r.0,
    {
        let mut cur: usize = 0;
        let ghost mut q: int = 0;
        let mut i: usize = MAX_LEVEL;
        while i > 0
            invariant
                self.wf(),
                total_order::<K>(),
                0 <= q < self.chain@.len(),
                self.chain@[q] == cur,
                i <= MAX_LEVEL,
                i <= self.fw()[q].len(),
                q >= 1 ==> key_lt(self.entry_at(q).0, *key),
                i < MAX_LEVEL ==> self.stops(q, i as int, *key),
            decreases i,
        {
            i -= 1;
            let r = self.advance(cur, i, key, Ghost(q));
            cur = r.0;
            proof {
                q = r.1@;
            }
        }
        proof {
            self.lemma_bottom(q);
            self.lemma_splits(q, *key);
        }
        (cur, Ghost(q))
    }

    /// Searches for `key` from the top level down and records, at every
    /// level, the last node visited before going down.
    pub(super) fn find_predecessors(&self, key: &K) -> (r: ([usize; MAX_LEVEL], Ghost<Seq<int>>))
        requires
            self.wf(),
            total_order::<K>(),
        ensures
            self.guides(r.0@, r.1@, *key),
    {
        let mut update: [usize; MAX_LEVEL] = [0usize; MAX_LEVEL];
        let ghost mut pos: Seq<int> = Seq::new(MAX_LEVEL as nat, |l: int| 0int);
        let mut cur: usize = 0;
        let ghost mut q: int = 0;
        let mut i: usize = MAX_LEVEL;
        while i > 0
            invariant
                self.wf(),
                total_order::<K>(),
                0 <= q < self.chain@.len(),
                self.chain@[q] == cur,
                i <= MAX_LEVEL,
                i <= self.fw()[q].len(),
                q >= 1 ==> key_lt(self.entry_at(q).0, *key),
                update@.len() == MAX_LEVEL,
                pos.len() == MAX_LEVEL,
                i < MAX_LEVEL ==> pos[i as int] == q,
                forall|l: int|
                    i <= l < MAX_LEVEL ==> {
                        &&& 0 <= #[trigger] pos[l] <= q
                        &&& update@[l] == self.chain@[pos[l]]
                        &&& l < self.fw()[pos[l]].len()
                        &&& self.stops(pos[l], l, *key)
                    },
            decreases i,
        {
            i -= 1;
            let r = self.advance(cur, i, key, Ghost(q));
            cur = r.0;
            update[i] = cur;
            proof {
                q = r.1@;
                pos = pos.update(i as int, q);
            }
        }
        proof {
            self.lemma_bottom(q);
            self.lemma_splits(q, *key);
            assert forall|l: int| 0 <= l < MAX_LEVEL implies next_tall(
                self.fw(),
                no_skip(),
                #[trigger] pos[l] + 1,
                l,
            ) > pos[0] by {
                lemma_next_tall(self.fw(), no_skip(), pos[l] + 1, l);
            }
        }
        (update, Ghost(pos))
    }

    /// The node that holds `key`, given the node after which `key` belongs:
    /// it is the next one, if that one's key is `key`.
    pub(super) fn holder(&self, pred: usize, Ghost(q): Ghost<int>, key: &K) -> (found: Option<usize>)
        requires
            self.wf(),
            total_order::<K>(),
            self.splits_at(q, *key),
            self.chain@[q] == pred,
        ensures
            match found {
                Some(h) => q + 1 < self.chain@.len() && h == self.chain@[q + 1]
                    && self.entries()[q].0 == *key && self@.contains_key(*key) && self@[*key]
                    == self.entries()[q].1,
                None => !self@.contains_key(*key),
            },
    {
        proof {
            self.lemma_bottom(q);
            self.lemma_entries();
        }
        match self.link(Ghost(q), pred, 0) {
            Some(next) => {
                if same(self.key_of(Ghost(q + 1), next), key) {
                    Some(next)
                } else {
                    proof {
                        self.lemma_absent(q, *key);
                    }
                    None
                }
            },
            None => {
                proof {
                    self.lemma_absent(q, *key);
                }
                None
            },
        }
    }

    /// The value stored under `key`, if there is one.
    pub fn get(&self, key: &K) -> (r: Option<&V>)
        requires
            self.wf(),
            total_order::<K>(),
        ensures
            r == (if self@.contains_key(*key) {
                Some(&self@[*key])
            } else {
                None
            }),
    {
        let (pred, Ghost(q)) = self.find_predecessor(key);
        match self.holder(pred, Ghost(q), key) {
            Some(h) => {
                Some(&self.nodes[h].data.as_ref().unwrap().value)
            },
            None => None,
        }
    }
}

} // verus!
