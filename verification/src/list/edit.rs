//! The operations that change the chain: splicing a node in, splicing one
//! out, and what is built on them.

use crate::level::{random_level, MAX_LEVEL};
use crate::links::{
    lemma_linked_insert, lemma_linked_remove, lemma_next_tall, lemma_next_tall_heights,
    lemma_next_tall_insert, lemma_next_tall_is, lemma_same_level, lemma_skip_short,
    lemma_splice_in, lemma_splice_out, level_linked, link_ok, next_tall, no_skip, tall,
};
use crate::list::{Data, Node, SkipList};
use crate::model::{
    lemma_ascending_insert, lemma_ascending_remove, lemma_to_map_insert, lemma_to_map_remove,
};
use crate::order::{key_lt, lemma_trichotomy, total_order};
use vstd::prelude::*;

verus! {

/// An entry that could not be put in because no memory could be had for its
/// node. The entry comes back in it.
pub struct AllocError<K, V> {
    pub key: K,
    pub value: V,
}

impl<K: Ord, V> SkipList<K, V> {
    /// Points the link at `level` of the node `h`, which stands at position
    /// `p`, to `to`.
    fn set_link(&mut self, Ghost(p): Ghost<int>, h: usize, level: usize, to: Option<usize>)
        requires
            old(self).sound(),
            0 <= p < old(self).chain@.len(),
            old(self).chain@[p] == h,
            level < old(self).fw()[p].len(),
        ensures
            final(self).sound(),
            final(self).chain@ == old(self).chain@,
            final(self).len == old(self).len,
            final(self).entries() == old(self).entries(),
            final(self).level_list() == old(self).level_list(),
            final(self).fw() == old(self).fw().update(
                p,
                old(self).fw()[p].update(level as int, to),
            ),
    {
        let node = &mut self.nodes[h];
        node.forward.set(level, to);
        proof {
            assert(self.entries() =~= old(self).entries());
            assert(self.fw() =~= old(self).fw().update(
                p,
                old(self).fw()[p].update(level as int, to),
            ));
        }
    }

    /// Puts a new entry node into the arena, in a vacant slot if there is
    /// one, and into the chain at position `k`.
    fn alloc_node(&mut self, Ghost(k): Ghost<int>, node: Node<K, V>) -> (h: usize)
        requires
            old(self).handles_ok(),
            old(self).nodes_ok(),
            old(self).len + 1 == old(self).chain@.len(),
            1 <= k <= old(self).chain@.len(),
            node.data is Some,
            1 <= node.forward@.len() <= MAX_LEVEL,
        ensures
            final(self).handles_ok(),
            final(self).nodes_ok(),
            final(self).chain@ == old(self).chain@.insert(k, h),
            final(self).len == old(self).len + 1,
            final(self).entries() == old(self).entries().insert(
                k - 1,
                (node.data->0.key, node.data->0.value),
            ),
            final(self).fw() == old(self).fw().insert(k, node.forward@),
            final(self).level_list() == old(self).level_list().insert(
                k - 1,
                (node.data->0.key, (node.forward@.len() - 1) as nat),
            ),
    {
        let ghost entry = (node.data->0.key, node.data->0.value);
        let ghost forward = node.forward@;
        let slots = self.nodes.len();
        let h = match self.free.pop() {
            Some(h) => {
                self.nodes.set(h, node);
                h
            },
            None => {
                self.nodes.push(node);
                slots
            },
        };
        self.len += 1;
        proof {
            self.chain@ = self.chain@.insert(k, h);
            assert(self.level_list() =~= old(self).level_list().insert(
                k - 1,
                (entry.0, (forward.len() - 1) as nat),
            ));
        }
        h
    }

    /// Takes the entry node `h`, which stands at position `k`, out of the
    /// chain, vacates its slot and hands its entry back.
    fn release_node(&mut self, Ghost(k): Ghost<int>, h: usize) -> (data: Data<K, V>)
        requires
            old(self).handles_ok(),
            old(self).nodes_ok(),
            old(self).len + 1 == old(self).chain@.len(),
            1 <= k < old(self).chain@.len(),
            old(self).chain@[k] == h,
        ensures
            final(self).handles_ok(),
            final(self).nodes_ok(),
            final(self).chain@ == old(self).chain@.remove(k),
            final(self).len == old(self).len - 1,
            final(self).entries() == old(self).entries().remove(k - 1),
            final(self).fw() == old(self).fw().remove(k),
            final(self).level_list() == old(self).level_list().remove(k - 1),
            (data.key, data.value) == old(self).entries()[k - 1],
    {
        let node = &mut self.nodes[h];
        let data = node.data.take().unwrap();
        node.forward = Vec::new();
        self.free.push(h);
        self.len -= 1;
        proof {
            self.chain@ = self.chain@.remove(k);
        }
        data
    }

    /// Puts `value` in place of the value of the entry node `h`, which stands
    /// at position `k`, and hands the old value back.
    fn replace_value(&mut self, Ghost(k): Ghost<int>, h: usize, value: V) -> (prev: V)
        requires
            old(self).wf(),
            1 <= k < old(self).chain@.len(),
            old(self).chain@[k] == h,
        ensures
            final(self).wf(),
            final(self).entries() == old(self).entries().update(
                k - 1,
                (old(self).entries()[k - 1].0, value),
            ),
            final(self)@ == old(self)@.insert(old(self).entries()[k - 1].0, value),
            final(self).levels() == old(self).levels(),
            prev == old(self).entries()[k - 1].1,
    {
        let node = &mut self.nodes[h];
        let data = node.data.take().unwrap();
        node.data = Some(Data { key: data.key, value });
        proof {
            Self::lemma_revalued(*old(self), *self, k);
        }
        data.value
    }

    /// Splices `node`, which holds a key that is not in the container, in
    /// behind the predecessors that the search for its key recorded: at each
    /// level that the node spans, it takes over the predecessor's link and
    /// the predecessor is made to point at it.
    fn splice_in(
        &mut self,
        update: &[usize; MAX_LEVEL],
        Ghost(pos): Ghost<Seq<int>>,
        node: Node<K, V>,
    )
        requires
            old(self).wf(),
            total_order::<K>(),
            node.data is Some,
            1 <= node.forward@.len() <= MAX_LEVEL,
            forall|l: int| 0 <= l < node.forward@.len() ==> node.forward@[l] is None,
            old(self).guides(update@, pos, node.data->0.key),
            !old(self)@.contains_key(node.data->0.key),
        ensures
            final(self).wf(),
            final(self)@ == old(self)@.insert(node.data->0.key, node.data->0.value),
            final(self).entries().len() == old(self).entries().len() + 1,
            final(self).levels() == old(self).levels().insert(
                node.data->0.key,
                (node.forward@.len() - 1) as nat,
            ),
    {
        let ghost key0 = node.data->0.key;
        let ghost value0 = node.data->0.value;
        let ghost q = pos[0];
        let ghost k = q + 1;
        let ghost s0 = self.entries();
        let ghost ll0 = self.level_list();
        let ghost fw0 = self.fw();
        let ghost chain0 = self.chain@;
        let level = node.level();
        proof {
            self.lemma_entries();
        }
        let h = self.alloc_node(Ghost(k), node);
        let ghost chain1 = self.chain@;
        let ghost fw1 = self.fw();
        let ghost s1 = self.entries();
        proof {
            assert(chain1.remove(k) =~= chain0);
            assert(fw1.remove(k) =~= fw0);
            assert forall|i: int| q <= i < s0.len() implies key_lt(key0, #[trigger] s0[i].0) by {
                lemma_trichotomy(s0[i].0, key0);
            }
            lemma_ascending_insert(s0, q, key0, value0);
            lemma_to_map_insert(s0, q, key0, value0);
            old(self).lemma_level_list();
            lemma_to_map_insert(ll0, q, key0, level as nat);
            assert forall|l: int| 0 <= l < MAX_LEVEL implies #[trigger] level_linked(
                chain1,
                fw1,
                k,
                l,
            ) by {
                lemma_linked_insert(chain1, fw1, k, l);
            }
            assert forall|l: int| 0 <= l < MAX_LEVEL implies next_tall(
                fw1,
                k,
                #[trigger] pos[l] + 1,
                l,
            ) > k && l < fw1[pos[l]].len() && update@[l] == chain1[pos[l]] by {
                lemma_next_tall_insert(fw1, k, pos[l] + 1, l);
            }
        }
        let mut i: usize = 0;
        while i <= level
            invariant
                self.sound(),
                i <= level + 1,
                level < MAX_LEVEL,
                self.chain@ == chain1,
                self.len + 1 == chain1.len(),
                self.entries() == s1,
                s1 == s0.insert(q, (key0, value0)),
                self.level_list() == ll0.insert(q, (key0, level as nat)),
                chain1.len() == fw1.len(),
                1 <= k < chain1.len(),
                chain1[k] == h,
                self.fw().len() == fw1.len(),
                forall|p: int| 0 <= p < fw1.len() ==> (#[trigger] self.fw()[p]).len() == fw1[p].len(),
                fw1[k].len() == level + 1,
                self.linked(no_skip(), 0, i as int),
                self.linked(k, i as int, MAX_LEVEL as int),
                update@.len() == MAX_LEVEL,
                pos.len() == MAX_LEVEL,
                forall|l: int|
                    0 <= l < MAX_LEVEL ==> {
                        &&& 0 <= #[trigger] pos[l] < k
                        &&& update@[l] == chain1[pos[l]]
                        &&& l < fw1[pos[l]].len()
                        &&& next_tall(fw1, k, pos[l] + 1, l) > k
                    },
            decreases level + 1 - i,
        {
            let u = update[i];
            let ghost pu = pos[i as int];
            let ghost fwa = self.fw();
            let succ = self.link(Ghost(pu), u, i);
            self.set_link(Ghost(k), h, i, succ);
            self.set_link(Ghost(pu), u, i, Some(h));
            proof {
                let fwb = self.fw();
                lemma_next_tall_heights(fw1, fwa, k, pu + 1, i as int);
                assert(fwb =~= fwa.update(k, fwa[k].update(i as int, fwa[pu][i as int])).update(
                    pu,
                    fwa[pu].update(i as int, Some(chain1[k])),
                ));
                lemma_splice_in(chain1, fwa, fwb, k, pu, i as int);
                assert forall|l: int| 0 <= l < i implies #[trigger] level_linked(
                    chain1,
                    fwb,
                    no_skip(),
                    l,
                ) by {
                    lemma_same_level(chain1, fwa, fwb, no_skip(), l);
                }
                assert forall|l: int| i < l < MAX_LEVEL implies #[trigger] level_linked(
                    chain1,
                    fwb,
                    k,
                    l,
                ) by {
                    lemma_same_level(chain1, fwa, fwb, k, l);
                }
            }
            i += 1;
        }
        proof {
            assert forall|l: int| 0 <= l < MAX_LEVEL implies #[trigger] level_linked(
                chain1,
                self.fw(),
                no_skip(),
                l,
            ) by {
                if l > level {
                    lemma_skip_short(chain1, self.fw(), k, l);
                }
            }
        }
    }

    /// Puts `value` under `key`, with a node of `level + 1` levels if the key
    /// is new and a level is given, and of a freshly drawn height if none is.
    fn insert_at(&mut self, key: K, value: V, level: Option<usize>) -> (prev: Option<V>)
        requires
            old(self).wf(),
            total_order::<K>(),
            level matches Some(l) ==> l < MAX_LEVEL,
        ensures
            final(self).wf(),
            final(self)@ == old(self)@.insert(key, value),
            prev == (if old(self)@.contains_key(key) {
                Some(old(self)@[key])
            } else {
                None::<V>
            }),
            final(self).entries().len() == old(self).entries().len() + (if old(self)@.contains_key(
                key,
            ) {
                0int
            } else {
                1int
            }),
            old(self)@.contains_key(key) ==> final(self).levels() == old(self).levels(),
            !old(self)@.contains_key(key) ==> final(self).levels() == old(self).levels().insert(
                key,
                final(self).levels()[key],
            ) && final(self).levels()[key] < MAX_LEVEL,
            level matches Some(l) ==> !old(self)@.contains_key(key) ==> final(self).levels()[key]
                == l,
    {
        let (update, Ghost(pos)) = self.find_predecessors(&key);
        match self.holder(update[0], Ghost(pos[0]), &key) {
            Some(h) => Some(self.replace_value(Ghost(pos[0] + 1), h, value)),
            None => {
                let level = match level {
                    Some(level) => level,
                    None => random_level(),
                };
                self.splice_in(&update, Ghost(pos), Node::new(Some(Data { key, value }), level));
                None
            },
        }
    }

    /// Puts `value` under `key` and hands back the value that was there
    /// before, if there was one. A key that is new gets a node of its own,
    /// of a freshly drawn height; a key that is there keeps its node.
    pub fn insert(&mut self, key: K, value: V) -> (prev: Option<V>)
        requires
            old(self).wf(),
            total_order::<K>(),
        ensures
            final(self).wf(),
            final(self)@ == old(self)@.insert(key, value),
            prev == (if old(self)@.contains_key(key) {
                Some(old(self)@[key])
            } else {
                None::<V>
            }),
            final(self).entries().len() == old(self).entries().len() + (if old(self)@.contains_key(
                key,
            ) {
                0int
            } else {
                1int
            }),
            old(self)@.contains_key(key) ==> final(self).levels() == old(self).levels(),
            !old(self)@.contains_key(key) ==> final(self).levels() == old(self).levels().insert(
                key,
                final(self).levels()[key],
            ) && final(self).levels()[key] < MAX_LEVEL,
    {
        self.insert_at(key, value, None)
    }

    /// As `insert`, but a new key's node spans the levels `0..=level` in
    /// place of a drawn height. What the container holds afterwards does not
    /// depend on `level`.
    pub fn insert_with_level(&mut self, key: K, value: V, level: usize) -> (prev: Option<V>)
        requires
            old(self).wf(),
            total_order::<K>(),
            level < MAX_LEVEL,
        ensures
            final(self).wf(),
            final(self)@ == old(self)@.insert(key, value),
            prev == (if old(self)@.contains_key(key) {
                Some(old(self)@[key])
            } else {
                None::<V>
            }),
            final(self).entries().len() == old(self).entries().len() + (if old(self)@.contains_key(
                key,
            ) {
                0int
            } else {
                1int
            }),
            final(self).levels() == (if old(self)@.contains_key(key) {
                old(self).levels()
            } else {
                old(self).levels().insert(key, level as nat)
            }),
    {
        self.insert_at(key, value, Some(level))
    }

    /// As `insert`, but where no memory can be had for the node of a new key
    /// the container stays as it is and the entry comes back in the error. A
    /// key that is there needs no memory: its value is replaced.
    pub fn try_insert(&mut self, key: K, value: V) -> (r: Result<Option<V>, AllocError<K, V>>)
        requires
            old(self).wf(),
            total_order::<K>(),
        ensures
            final(self).wf(),
            old(self)@.contains_key(key) ==> r == Ok::<Option<V>, AllocError<K, V>>(
                Some(old(self)@[key]),
            ),
            match r {
                Ok(prev) => final(self)@ == old(self)@.insert(key, value) && prev == (if old(
                    self,
                )@.contains_key(key) {
                    Some(old(self)@[key])
                } else {
                    None::<V>
                }),
                Err(e) => e.key == key && e.value == value && final(self).entries() == old(
                    self,
                ).entries() && final(self).levels() == old(self).levels(),
            },
            old(self)@.contains_key(key) ==> final(self).levels() == old(self).levels(),
            r is Ok && !old(self)@.contains_key(key) ==> final(self).levels() == old(
                self,
            ).levels().insert(key, final(self).levels()[key]) && final(self).levels()[key]
                < MAX_LEVEL,
    {
        let (update, Ghost(pos)) = self.find_predecessors(&key);
        match self.holder(update[0], Ghost(pos[0]), &key) {
            Some(h) => Ok(Some(self.replace_value(Ghost(pos[0] + 1), h, value))),
            None => {
                let level = random_level();
                let mut forward: Vec<Option<usize>> = Vec::new();
                match forward.try_reserve(level + 1) {
                    Ok(_) => {},
                    Err(_) => {
                        return Err(AllocError { key, value });
                    },
                }
                let mut i: usize = 0;
                while i <= level
                    invariant
                        i <= level + 1,
                        level < MAX_LEVEL,
                        forward@.len() == i,
                        forall|l: int| 0 <= l < i ==> forward@[l] is None,
                    decreases level + 1 - i,
                {
                    forward.push(None);
                    i += 1;
                }
                if self.free.len() == 0 {
                    let reserved = self.nodes.try_reserve(1);
                    proof {
                        Self::lemma_same_content(*old(self), *self, update@, pos, key);
                    }
                    match reserved {
                        Ok(_) => {},
                        Err(_) => {
                            return Err(AllocError { key, value });
                        },
                    }
                }
                self.splice_in(&update, Ghost(pos), Node { data: Some(Data { key, value }), forward });
                Ok(None)
            },
        }
    }

    /// Takes `key` and its value out of the container and hands the value
    /// back. Where the key is not there, nothing changes.
    pub fn remove(&mut self, key: &K) -> (value: Option<V>)
        requires
            old(self).wf(),
            total_order::<K>(),
        ensures
            final(self).wf(),
            final(self)@ == old(self)@.remove(*key),
            value == (if old(self)@.contains_key(*key) {
                Some(old(self)@[*key])
            } else {
                None::<V>
            }),
            !old(self)@.contains_key(*key) ==> final(self).entries() == old(self).entries(),
            final(self).entries().len() == old(self).entries().len() - (if old(self)@.contains_key(
                *key,
            ) {
                1int
            } else {
                0int
            }),
            final(self).levels() == old(self).levels().remove(*key),
    {
        let (update, Ghost(pos)) = self.find_predecessors(key);
        let ghost q = pos[0];
        let ghost k = q + 1;
        let ghost s0 = self.entries();
        let ghost fw0 = self.fw();
        let ghost chain0 = self.chain@;
        let del = match self.holder(update[0], Ghost(q), key) {
            Some(del) => del,
            None => {
                proof {
                    self.lemma_entries();
                }
                return None;
            },
        };
        proof {
            self.lemma_entries();
        }
        let mut i: usize = 0;
        while i < MAX_LEVEL
            invariant
                self.sound(),
                i <= MAX_LEVEL,
                self.chain@ == chain0,
                self.len + 1 == chain0.len(),
                self.entries() == s0,
                self.level_list() == old(self).level_list(),
                chain0.len() == fw0.len(),
                1 <= k < chain0.len(),
                chain0[k] == del,
                self.fw().len() == fw0.len(),
                forall|p: int| 0 <= p < fw0.len() ==> (#[trigger] self.fw()[p]).len() == fw0[p].len(),
                self.linked(k, 0, i as int),
                self.linked(no_skip(), i as int, MAX_LEVEL as int),
                update@.len() == MAX_LEVEL,
                pos.len() == MAX_LEVEL,
                forall|l: int|
                    0 <= l < MAX_LEVEL ==> {
                        &&& 0 <= #[trigger] pos[l] < k
                        &&& update@[l] == chain0[pos[l]]
                        &&& l < fw0[pos[l]].len()
                        &&& next_tall(fw0, no_skip(), pos[l] + 1, l) >= k
                    },
            ensures
                self.fw()[k].len() <= i <= MAX_LEVEL,
            decreases MAX_LEVEL - i,
        {
            let u = update[i];
            let ghost pu = pos[i as int];
            let ghost fwa = self.fw();
            proof {
                lemma_next_tall_heights(fw0, fwa, no_skip(), pu + 1, i as int);
                lemma_next_tall(fwa, no_skip(), pu + 1, i as int);
                assert(level_linked(chain0, fwa, no_skip(), i as int));
                assert(link_ok(chain0, fwa, no_skip(), pu, i as int));
            }
            let leads_here = match self.link(Ghost(pu), u, i) {
                Some(t) => t == del,
                None => false,
            };
            if !leads_here {
                proof {
                    if i < fwa[k].len() {
                        assert(tall(fwa, no_skip(), k, i as int));
                    }
                }
                break ;
            }
            let succ = self.link(Ghost(k), del, i);
            self.set_link(Ghost(pu), u, i, succ);
            proof {
                let fwb = self.fw();
                lemma_splice_out(chain0, fwa, fwb, k, pu, i as int);
                assert forall|l: int| 0 <= l < i implies #[trigger] level_linked(
                    chain0,
                    fwb,
                    k,
                    l,
                ) by {
                    lemma_same_level(chain0, fwa, fwb, k, l);
                }
                assert forall|l: int| i < l < MAX_LEVEL implies #[trigger] level_linked(
                    chain0,
                    fwb,
                    no_skip(),
                    l,
                ) by {
                    lemma_same_level(chain0, fwa, fwb, no_skip(), l);
                }
            }
            i += 1;
        }
        let ghost fw1 = self.fw();
        proof {
            assert forall|l: int| 0 <= l < MAX_LEVEL implies #[trigger] level_linked(
                chain0,
                fw1,
                k,
                l,
            ) by {
                if l >= i {
                    lemma_skip_short(chain0, fw1, k, l);
                }
            }
        }
        let data = self.release_node(Ghost(k), del);
        proof {
            assert forall|l: int| 0 <= l < MAX_LEVEL implies #[trigger] level_linked(
                self.chain@,
                self.fw(),
                no_skip(),
                l,
            ) by {
                lemma_linked_remove(chain0, fw1, k, l);
            }
            lemma_to_map_remove(s0, q);
            lemma_ascending_remove(s0, q);
            old(self).lemma_level_list();
            lemma_to_map_remove(old(self).level_list(), q);
        }
        Some(data.value)
    }

    /// Takes the entry with the least key out of the container and hands it
    /// back.
    pub fn pop_front(&mut self) -> (front: Option<(K, V)>)
        requires
            old(self).wf(),
        ensures
            final(self).wf(),
            old(self).entries().len() == 0 ==> front is None && final(self).entries() == old(
                self,
            ).entries() && final(self).levels() == old(self).levels(),
            old(self).entries().len() > 0 ==> front == Some(old(self).entries()[0])
                && final(self).entries() == old(self).entries().remove(0) && final(self)@ == old(
                self,
            )@.remove(old(self).entries()[0].0) && final(self).levels() == old(
                self,
            ).levels().remove(old(self).entries()[0].0),
    {
        let ghost s0 = self.entries();
        let ghost fw0 = self.fw();
        let ghost chain0 = self.chain@;
        proof {
            self.lemma_bottom(0);
        }
        let del = match self.link(Ghost(0), 0, 0) {
            Some(del) => del,
            None => {
                return None;
            },
        };
        let top = self.nodes[del].level();
        let mut i: usize = 0;
        while i <= top
            invariant
                self.sound(),
                i <= top + 1,
                top + 1 == fw0[1].len(),
                top < MAX_LEVEL,
                self.chain@ == chain0,
                self.len + 1 == chain0.len(),
                self.entries() == s0,
                self.level_list() == old(self).level_list(),
                chain0.len() == fw0.len(),
                1 < chain0.len(),
                chain0[0] == 0,
                chain0[1] == del,
                self.fw().len() == fw0.len(),
                forall|p: int| 0 <= p < fw0.len() ==> (#[trigger] self.fw()[p]).len() == fw0[p].len(),
                fw0[0].len() == MAX_LEVEL,
                self.linked(1, 0, i as int),
                self.linked(no_skip(), i as int, MAX_LEVEL as int),
            decreases top + 1 - i,
        {
            let ghost fwa = self.fw();
            proof {
                lemma_next_tall_is(fwa, no_skip(), 1, i as int, 1);
            }
            let succ = self.link(Ghost(1), del, i);
            self.set_link(Ghost(0), 0, i, succ);
            proof {
                let fwb = self.fw();
                lemma_splice_out(chain0, fwa, fwb, 1, 0, i as int);
                assert forall|l: int| 0 <= l < i implies #[trigger] level_linked(
                    chain0,
                    fwb,
                    1,
                    l,
                ) by {
                    lemma_same_level(chain0, fwa, fwb, 1, l);
                }
                assert forall|l: int| i < l < MAX_LEVEL implies #[trigger] level_linked(
                    chain0,
                    fwb,
                    no_skip(),
                    l,
                ) by {
                    lemma_same_level(chain0, fwa, fwb, no_skip(), l);
                }
            }
            i += 1;
        }
        let ghost fw1 = self.fw();
        proof {
            assert forall|l: int| 0 <= l < MAX_LEVEL implies #[trigger] level_linked(
                chain0,
                fw1,
                1,
                l,
            ) by {
                if l >= i {
                    lemma_skip_short(chain0, fw1, 1, l);
                }
            }
        }
        let data = self.release_node(Ghost(1), del);
        proof {
            assert forall|l: int| 0 <= l < MAX_LEVEL implies #[trigger] level_linked(
                self.chain@,
                self.fw(),
                no_skip(),
                l,
            ) by {
                lemma_linked_remove(chain0, fw1, 1, l);
            }
            lemma_to_map_remove(s0, 0);
            lemma_ascending_remove(s0, 0);
            old(self).lemma_level_list();
            lemma_to_map_remove(old(self).level_list(), 0);
        }
        Some((data.key, data.value))
    }

    /// Takes every entry out, one after the other from the front. The head
    /// stays, and the container can be filled again.
    pub fn clear(&mut self)
        requires
            old(self).wf(),
        ensures
            final(self).wf(),
            final(self).entries() == Seq::<(K, V)>::empty(),
            final(self)@ == Map::<K, V>::empty(),
            final(self).levels() == Map::<K, nat>::empty(),
    {
        while !self.is_empty()
            invariant
                self.wf(),
            decreases self.entries().len(),
        {
            self.pop_front();
        }
        proof {
            self.lemma_entries();
        }
    }
}

} // verus!
