//! Values handed out to be changed in place.

use crate::list::{Node, SkipList};
use crate::order::total_order;
use vstd::prelude::*;

verus! {

/// The value of the entry node in slot `h` of the arena, to be changed in place.
fn value_slot<K, V>(nodes: &mut Vec<Node<K, V>>, h: usize) -> (v: &mut V)
    requires
        h < old(nodes)@.len(),
        old(nodes)@[h as int].data is Some,
    ensures
        *v == old(nodes)@[h as int].data->0.value,
        final(nodes)@.len() == old(nodes)@.len(),
        forall|j: int| 0 <= j < old(nodes)@.len() && j != h ==> #[trigger] final(nodes)@[j] == old(nodes)@[j],
        final(nodes)@[h as int].forward == old(nodes)@[h as int].forward,
        final(nodes)@[h as int].data is Some,
        final(nodes)@[h as int].data->0.key == old(nodes)@[h as int].data->0.key,
        final(nodes)@[h as int].data->0.value == *final(v),
{
    let node = &mut nodes[h];
    let data = node.data.as_mut().unwrap();
    &mut data.value
}

/// The key of the entry node in slot `h` of the arena, and its value to be
/// changed in place.
fn entry_slot_of<K, V>(nodes: &mut Vec<Node<K, V>>, h: usize) -> (r: (&K, &mut V))
    requires
        h < old(nodes)@.len(),
        old(nodes)@[h as int].data is Some,
    ensures
        *r.0 == old(nodes)@[h as int].data->0.key,
        *r.1 == old(nodes)@[h as int].data->0.value,
        final(nodes)@.len() == old(nodes)@.len(),
        forall|j: int| 0 <= j < old(nodes)@.len() && j != h ==> #[trigger] final(nodes)@[j] == old(nodes)@[j],
        final(nodes)@[h as int].forward == old(nodes)@[h as int].forward,
        final(nodes)@[h as int].data is Some,
        final(nodes)@[h as int].data->0.key == old(nodes)@[h as int].data->0.key,
        final(nodes)@[h as int].data->0.value == *final(r.1),
{
    let node = &mut nodes[h];
    let data = node.data.as_mut().unwrap();
    (&data.key, &mut data.value)
}
impl<K: Ord, V> SkipList<K, V> {
    /// The key of the entry node `h`, which stands at position `k`, and its
    /// value to be changed in place.
    pub(super) fn entry_slot(&mut self, Ghost(k): Ghost<int>, h: usize) -> (r: (&K, &mut V))
        requires
            old(self).wf(),
            1 <= k < old(self).chain@.len(),
            old(self).chain@[k] == h,
        ensures
            final(self).wf(),
            final(self).chain@ == old(self).chain@,
            final(self).fw() == old(self).fw(),
            (*r.0, *r.1) == old(self).entries()[k - 1],
            final(self).entries() == old(self).entries().update(k - 1, (*r.0, *final(r.1))),
            final(self).levels() == old(self).levels(),
    {
        proof {
            assert forall|b: Self| Self::revalued(*self, b, k) implies #[trigger] b.wf()
                && b.entries() == self.entries().update(
                k - 1,
                (self.entries()[k - 1].0, b.nodes@[h as int].data->0.value),
            ) && b.fw() == self.fw() && b.levels() == self.levels() by {
                Self::lemma_revalued(*self, b, k);
            }
        }
        entry_slot_of(&mut self.nodes, h)
    }

    /// The value stored under `key`, if there is one, to be changed in place.
    pub fn get_mut(&mut self, key: &K) -> (r: Option<&mut V>)
        requires
            old(self).wf(),
            total_order::<K>(),
        ensures
            final(self).wf(),
            match r {
                Some(v) => old(self)@.contains_key(*key) && *v == old(self)@[*key] && final(self)@
                    == old(self)@.insert(*key, *final(v)),
                None => !old(self)@.contains_key(*key) && final(self).entries() == old(
                    self,
                ).entries(),
            },
            final(self).levels() == old(self).levels(),
    {
        let (pred, Ghost(q)) = self.find_predecessor(key);
        match self.holder(pred, Ghost(q), key) {
            Some(h) => {
                proof {
                    assert forall|b: Self| Self::revalued(*self, b, q + 1) implies #[trigger] b.wf()
                        && b@ == self@.insert(*key, b.nodes@[h as int].data->0.value)
                        && b.levels() == self.levels() by {
                        Self::lemma_revalued(*self, b, q + 1);
                    }
                }
                Some(value_slot(&mut self.nodes, h))
            },
            None => None,
        }
    }
}

} // verus!
