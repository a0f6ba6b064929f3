//! The skip list itself: its nodes in an arena, the chain that orders them,
//! and the invariant that every operation keeps.

use crate::level::MAX_LEVEL;
use crate::links::{
    lemma_next_tall_is, level_linked, link_ok, next_tall, no_skip, Links,
};
use crate::model::{
    has_key, keys_ascending, keys_distinct, lemma_ascending_update, lemma_to_map_at,
    lemma_to_map_len, lemma_to_map_update, to_map,
};
use crate::order::{key_lt, lemma_irreflexive, lemma_transitive, total_order};
use vstd::prelude::*;

pub mod copy;
pub mod edit;
pub mod iter;
pub mod search;
pub mod slot;

verus! {

/// One key with its value.
struct Data<K, V> {
    key: K,
    value: V,
}

/// A node of the arena: the head, which holds no entry and spans every
/// level, or an entry node, which spans the levels it drew.
struct Node<K, V> {
    data: Option<Data<K, V>>,
    forward: Vec<Option<usize>>,
}

impl<K, V> Node<K, V> {
    /// A node that spans levels `0..=level`, with no link set.
    fn new(data: Option<Data<K, V>>, level: usize) -> (node: Self)
        requires
            level < MAX_LEVEL,
        ensures
            node.data == data,
            node.forward@ == Seq::new((level + 1) as nat, |i: int| None::<usize>),
    {
        let forward: Vec<Option<usize>> = vec![None; level + 1];
        Node { data, forward }
    }

    /// The head sentinel.
    fn head() -> (node: Self)
        ensures
            node.data is None,
            node.forward@ == Seq::new(MAX_LEVEL as nat, |i: int| None::<usize>),
    {
        Self::new(None, MAX_LEVEL - 1)
    }

    /// The highest level that the node takes part in.
    fn level(&self) -> (level: usize)
        requires
            self.forward@.len() >= 1,
        ensures
            level == self.forward@.len() - 1,
    {
        self.forward.len() - 1
    }
}

/// An ordered map from `K` to `V`.
///
/// `nodes` is the arena and a handle is an index into it; handle 0 is the
/// head. `chain` lists the handles of the head and of every entry node in
/// ascending key order. `free` holds the handles whose slot is vacant.
pub struct SkipList<K, V> {
    nodes: Vec<Node<K, V>>,
    free: Vec<usize>,
    len: usize,
    chain: Ghost<Seq<usize>>,
}

impl<K, V> View for SkipList<K, V> {
    type V = Map<K, V>;

    /// The map that the container stands for.
    open spec fn view(&self) -> Map<K, V> {
        to_map(self.entries())
    }
}

impl<K, V> SkipList<K, V> {
    /// The entries in the order of the bottom chain.
    pub closed spec fn entries(&self) -> Seq<(K, V)> {
        Seq::new((self.chain@.len() - 1) as nat, |i: int| self.entry_at(i + 1))
    }

    /// The entry of the node at position `p` of the chain.
    spec fn entry_at(&self, p: int) -> (K, V) {
        let d = self.nodes@[self.chain@[p] as int].data->0;
        (d.key, d.value)
    }

    /// The keys in the order of the bottom chain, each with the level
    /// assigned to its node.
    spec fn level_list(&self) -> Seq<(K, nat)> {
        Seq::new(
            (self.chain@.len() - 1) as nat,
            |i: int| (self.entry_at(i + 1).0, (self.fw()[i + 1].len() - 1) as nat),
        )
    }

    /// The level assigned to the node of each key: the node takes part in
    /// the levels from 0 up to it.
    pub closed spec fn levels(&self) -> Map<K, nat> {
        to_map(self.level_list())
    }

    /// The forward links of the chain's nodes, by position.
    spec fn fw(&self) -> Links {
        Seq::new(self.chain@.len(), |p: int| self.nodes@[self.chain@[p] as int].forward@)
    }

    /// The chain starts at the head and names each slot of the arena at most
    /// once; the free list names each of the other slots once.
    spec fn handles_ok(&self) -> bool {
        &&& self.chain@.len() >= 1
        &&& self.chain@[0] == 0
        &&& self.chain@.len() + self.free@.len() == self.nodes@.len()
        &&& forall|p: int| 0 <= p < self.chain@.len() ==> (#[trigger] self.chain@[p]) < self.nodes@.len()
        &&& forall|p: int, q: int|
            0 <= p < q < self.chain@.len() ==> #[trigger] self.chain@[p] != #[trigger] self.chain@[q]
        &&& forall|i: int| 0 <= i < self.free@.len() ==> (#[trigger] self.free@[i]) < self.nodes@.len()
        &&& forall|i: int, j: int|
            0 <= i < j < self.free@.len() ==> #[trigger] self.free@[i] != #[trigger] self.free@[j]
        &&& forall|i: int, p: int|
            0 <= i < self.free@.len() && 0 <= p < self.chain@.len() ==> #[trigger] self.free@[i]
                != #[trigger] self.chain@[p]
    }

    /// The head holds no entry and spans every level; each other node of the
    /// chain holds an entry and spans between one level and all of them.
    spec fn nodes_ok(&self) -> bool {
        &&& self.nodes@[0].data is None
        &&& self.nodes@[0].forward@.len() == MAX_LEVEL
        &&& forall|p: int|
            1 <= p < self.chain@.len() ==> {
                let node = #[trigger] self.nodes@[self.chain@[p] as int];
                node.data is Some && 1 <= node.forward@.len() <= MAX_LEVEL
            }
    }

    /// The levels from `lo` up to `hi` are linked, with position `skip` left out.
    spec fn linked(&self, skip: int, lo: int, hi: int) -> bool {
        forall|l: int| lo <= l < hi ==> #[trigger] level_linked(self.chain@, self.fw(), skip, l)
    }
}

impl<K: Ord, V> SkipList<K, V> {
    /// All of the invariant but the links and the count.
    spec fn sound(&self) -> bool {
        &&& self.handles_ok()
        &&& self.nodes_ok()
        &&& keys_ascending(self.entries())
        &&& keys_distinct(self.entries())
    }

    /// The container's invariant: the arena, the chain and the count agree,
    /// every level is linked, and the keys strictly ascend along the chain.
    pub closed spec fn wf(&self) -> bool {
        &&& self.sound()
        &&& self.len + 1 == self.chain@.len()
        &&& self.linked(no_skip(), 0, MAX_LEVEL as int)
    }

    /// The keys below `key` are those of the positions up to `q`.
    spec fn splits_at(&self, q: int, key: K) -> bool {
        &&& 0 <= q < self.chain@.len()
        &&& forall|p: int|
            1 <= p < self.chain@.len() ==> (key_lt(#[trigger] self.entry_at(p).0, key) <==> p <= q)
    }

    /// The walk along `level` has nothing more to pass at position `q`: the
    /// next node of the level, if any, has a key that is not below `key`.
    spec fn stops(&self, q: int, level: int, key: K) -> bool {
        let nx = next_tall(self.fw(), no_skip(), q + 1, level);
        nx < self.chain@.len() ==> !key_lt(self.entry_at(nx).0, key)
    }

    /// What `find_predecessors` hands back: for each level the last node of
    /// that level whose key is below `key`, by handle in `update` and by
    /// position in `pos`.
    spec fn guides(&self, update: Seq<usize>, pos: Seq<int>, key: K) -> bool {
        &&& update.len() == MAX_LEVEL
        &&& pos.len() == MAX_LEVEL
        &&& self.splits_at(pos[0], key)
        &&& forall|l: int|
            0 <= l < MAX_LEVEL ==> {
                &&& 0 <= #[trigger] pos[l] <= pos[0]
                &&& update[l] == self.chain@[pos[l]]
                &&& l < self.fw()[pos[l]].len()
                &&& next_tall(self.fw(), no_skip(), pos[l] + 1, l) > pos[0]
            }
    }

    /// `b` differs from `a` at most in the value of the node at position `k`.
    spec fn revalued(a: Self, b: Self, k: int) -> bool {
        &&& b.chain@ == a.chain@
        &&& b.free@ == a.free@
        &&& b.len == a.len
        &&& b.nodes@.len() == a.nodes@.len()
        &&& forall|j: int|
            0 <= j < a.nodes@.len() && j != a.chain@[k] ==> #[trigger] b.nodes@[j] == a.nodes@[j]
        &&& b.nodes@[a.chain@[k] as int].forward@ == a.nodes@[a.chain@[k] as int].forward@
        &&& b.nodes@[a.chain@[k] as int].data is Some
        &&& b.nodes@[a.chain@[k] as int].data->0.key == a.nodes@[a.chain@[k] as int].data->0.key
    }

    /// What holds of a well-formed container's entries.
    pub proof fn lemma_entries(&self)
        requires
            self.wf(),
        ensures
            keys_ascending(self.entries()),
            keys_distinct(self.entries()),
            self@.dom().finite(),
            self@.dom().len() == self.entries().len(),
            forall|i: int|
                0 <= i < self.entries().len() ==> self@.contains_key(#[trigger] self.entries()[i].0)
                    && self@[self.entries()[i].0] == self.entries()[i].1,
            forall|k: K| self@.contains_key(k) <==> has_key(self.entries(), k),
            self.levels().dom() == self@.dom(),
            forall|k: K| self@.contains_key(k) ==> #[trigger] self.levels()[k] < MAX_LEVEL,
    {
        self.lemma_level_list();
        assert(self.levels().dom() =~= self@.dom());
        assert forall|k: K| self@.contains_key(k) implies #[trigger] self.levels()[k]
            < MAX_LEVEL by {
            let i = choose|i: int|
                0 <= i < self.level_list().len() && #[trigger] self.level_list()[i].0 == k;
            lemma_to_map_at(self.level_list(), i);
        }
        lemma_to_map_len(self.entries());
        assert forall|i: int| 0 <= i < self.entries().len() implies self@.contains_key(
            #[trigger] self.entries()[i].0,
        ) && self@[self.entries()[i].0] == self.entries()[i].1 by {
            lemma_to_map_at(self.entries(), i);
        }
    }

    /// The list of levels names the keys of the entries, place by place.
    proof fn lemma_level_list(&self)
        requires
            self.sound(),
        ensures
            self.level_list().len() == self.entries().len(),
            forall|i: int|
                0 <= i < self.entries().len() ==> (#[trigger] self.level_list()[i]).0
                    == self.entries()[i].0,
            keys_distinct(self.level_list()),
            forall|k: K| has_key(self.level_list(), k) <==> has_key(self.entries(), k),
    {
        let s = self.entries();
        let t = self.level_list();
        assert forall|i: int, j: int| 0 <= i < j < t.len() implies #[trigger] t[i].0
            != #[trigger] t[j].0 by {
            assert(s[i].0 != s[j].0);
        }
        assert forall|k: K| has_key(t, k) <==> has_key(s, k) by {
            if has_key(t, k) {
                let i = choose|i: int| 0 <= i < t.len() && #[trigger] t[i].0 == k;
                assert(s[i].0 == k);
            }
            if has_key(s, k) {
                let i = choose|i: int| 0 <= i < s.len() && #[trigger] s[i].0 == k;
                assert(t[i].0 == k);
            }
        }
    }

    /// A position whose key is below `key`, followed by one whose key is
    /// not, parts the keys below `key` from the others.
    proof fn lemma_splits(&self, q: int, key: K)
        requires
            self.sound(),
            total_order::<K>(),
            0 <= q < self.chain@.len(),
            q >= 1 ==> key_lt(self.entry_at(q).0, key),
            q + 1 < self.chain@.len() ==> !key_lt(self.entry_at(q + 1).0, key),
        ensures
            self.splits_at(q, key),
    {
        let s = self.entries();
        assert forall|p: int| 1 <= p < self.chain@.len() implies (key_lt(
            #[trigger] self.entry_at(p).0,
            key,
        ) <==> p <= q) by {
            if p < q {
                lemma_transitive(s[p - 1].0, s[q - 1].0, key);
            } else if p > q + 1 {
                if key_lt(s[p - 1].0, key) {
                    lemma_transitive(s[q].0, s[p - 1].0, key);
                }
            }
        }
    }

    /// At the bottom level every node follows the one before it.
    proof fn lemma_bottom(&self, q: int)
        requires
            self.wf(),
            0 <= q < self.chain@.len(),
        ensures
            next_tall(self.fw(), no_skip(), q + 1, 0) == q + 1,
            self.fw()[q][0] == (if q + 1 < self.chain@.len() {
                Some(self.chain@[q + 1])
            } else {
                None
            }),
    {
        lemma_next_tall_is(self.fw(), no_skip(), q + 1, 0, q + 1);
        assert(level_linked(self.chain@, self.fw(), no_skip(), 0));
        assert(link_ok(self.chain@, self.fw(), no_skip(), q, 0));
    }

    /// A key that the node after its predecessor does not hold is not in the
    /// container.
    proof fn lemma_absent(&self, q: int, key: K)
        requires
            self.wf(),
            total_order::<K>(),
            self.splits_at(q, key),
            q + 1 < self.chain@.len() ==> self.entry_at(q + 1).0 != key,
        ensures
            !has_key(self.entries(), key),
    {
        let s = self.entries();
        if has_key(s, key) {
            lemma_irreflexive(key);
            assert(s[q] == self.entry_at(q + 1));
        }
    }

    /// A container that differs from a well-formed one only in the value of
    /// the node at position `k` is well-formed too, and holds the same
    /// entries but for that value.
    proof fn lemma_revalued(a: Self, b: Self, k: int)
        requires
            a.wf(),
            1 <= k < a.chain@.len(),
            Self::revalued(a, b, k),
        ensures
            b.wf(),
            b.entries() == a.entries().update(
                k - 1,
                (a.entries()[k - 1].0, b.nodes@[a.chain@[k] as int].data->0.value),
            ),
            b@ == a@.insert(a.entries()[k - 1].0, b.nodes@[a.chain@[k] as int].data->0.value),
            b.levels() == a.levels(),
    {
        let v = b.nodes@[a.chain@[k] as int].data->0.value;
        assert(b.fw() =~= a.fw());
        assert(b.level_list() =~= a.level_list());
        assert(b.entries() =~= a.entries().update(k - 1, (a.entries()[k - 1].0, v)));
        lemma_ascending_update(a.entries(), k - 1, v);
        lemma_to_map_update(a.entries(), k - 1, v);
    }

    /// A container with the same arena, chain and count as a well-formed one
    /// is well-formed too, holds the same entries, and is searched alike.
    proof fn lemma_same_content(a: Self, b: Self, update: Seq<usize>, pos: Seq<int>, key: K)
        requires
            a.wf(),
            a.guides(update, pos, key),
            b.nodes@ == a.nodes@,
            b.free@ == a.free@,
            b.chain@ == a.chain@,
            b.len == a.len,
        ensures
            b.wf(),
            b.guides(update, pos, key),
            b.entries() == a.entries(),
            b.levels() == a.levels(),
    {
        assert(b.entries() =~= a.entries());
        assert(b.level_list() =~= a.level_list());
        assert forall|p: int| 1 <= p < b.chain@.len() implies #[trigger] b.entry_at(p) == a.entry_at(
            p,
        ) by {}
    }

    /// An empty container.
    pub fn new() -> (list: Self)
        ensures
            list.wf(),
            list.entries() == Seq::<(K, V)>::empty(),
            list@ == Map::<K, V>::empty(),
            list.levels() == Map::<K, nat>::empty(),
    {
        let mut nodes: Vec<Node<K, V>> = Vec::new();
        nodes.push(Node::head());
        let ghost chain = Seq::<usize>::empty().push(0usize);
        let list = SkipList { nodes, free: Vec::new(), len: 0, chain: Ghost(chain) };
        proof {
            assert forall|l: int| 0 <= l < MAX_LEVEL implies #[trigger] level_linked(
                list.chain@,
                list.fw(),
                no_skip(),
                l,
            ) by {
                lemma_next_tall_is(list.fw(), no_skip(), 1, l, 1);
                assert forall|p: int| 0 <= p < list.fw().len() implies #[trigger] link_ok(
                    list.chain@,
                    list.fw(),
                    no_skip(),
                    p,
                    l,
                ) by {}
            }
        }
        list
    }

    /// How many entries the container holds.
    pub fn len(&self) -> (n: usize)
        requires
            self.wf(),
        ensures
            n == self.entries().len(),
            n == self@.dom().len(),
    {
        proof {
            self.lemma_entries();
        }
        self.len
    }

    /// Whether the container holds no entry.
    pub fn is_empty(&self) -> (b: bool)
        requires
            self.wf(),
        ensures
            b == (self.entries().len() == 0),
            b == (self@ == Map::<K, V>::empty()),
    {
        proof {
            self.lemma_entries();
            if self.entries().len() == 0 {
                assert(self@ =~= Map::<K, V>::empty());
            }
        }
        self.len == 0
    }

    /// The link of the node `h`, which stands at position `p`, at `level`.
    fn link(&self, Ghost(p): Ghost<int>, h: usize, level: usize) -> (to: Option<usize>)
        requires
            self.handles_ok(),
            0 <= p < self.chain@.len(),
            self.chain@[p] == h,
            level < self.fw()[p].len(),
        ensures
            to == self.fw()[p][level as int],
    {
        self.nodes[h].forward[level]
    }

    /// The key of the entry node `h`, which stands at position `p`.
    fn key_of(&self, Ghost(p): Ghost<int>, h: usize) -> (key: &K)
        requires
            self.handles_ok(),
            self.nodes_ok(),
            1 <= p < self.chain@.len(),
            self.chain@[p] == h,
        ensures
            *key == self.entry_at(p).0,
    {
        &self.nodes[h].data.as_ref().unwrap().key
    }
}

} // verus!
