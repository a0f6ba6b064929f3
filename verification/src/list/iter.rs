//! The three traversals of the bottom chain: by shared reference, by
//! mutable reference to the values, and by value.

use crate::list::SkipList;
use vstd::prelude::*;

verus! {

/// A traversal that hands out references to the keys and values, in
/// ascending key order.
pub struct Iter<'a, K, V> {
    list: &'a SkipList<K, V>,
    cursor: Option<usize>,
    pos: Ghost<int>,
}

impl<'a, K: Ord, V> Iter<'a, K, V> {
    /// The traversal stands at a node of a well-formed container, or past its end.
    pub closed spec fn wf(&self) -> bool {
        &&& self.list.wf()
        &&& 1 <= self.pos@ <= self.list.chain@.len()
        &&& self.cursor == (if self.pos@ < self.list.chain@.len() {
            Some(self.list.chain@[self.pos@])
        } else {
            None
        })
    }

    /// The entries still to come, in the order in which they come.
    pub closed spec fn remaining(&self) -> Seq<(K, V)> {
        self.list.entries().skip(self.pos@ - 1)
    }

    /// The next entry, if any is left.
    pub fn next(&mut self) -> (item: Option<(&'a K, &'a V)>)
        requires
            old(self).wf(),
        ensures
            final(self).wf(),
            match item {
                None => old(self).remaining().len() == 0 && final(self).remaining() == old(
                    self,
                ).remaining(),
                Some((k, v)) => old(self).remaining().len() > 0 && (*k, *v) == old(
                    self,
                ).remaining()[0] && final(self).remaining() == old(self).remaining().skip(1),
            },
    {
        match self.cursor {
            Some(h) => {
                let list = self.list;
                let ghost p = self.pos@;
                proof {
                    list.lemma_bottom(p);
                }
                let data = list.nodes[h].data.as_ref().unwrap();
                self.cursor = list.link(Ghost(p), h, 0);
                self.pos = Ghost(p + 1);
                Some((&data.key, &data.value))
            },
            None => None,
        }
    }
}

/// A traversal that takes the entries out of the container, in ascending
/// key order.
pub struct IntoIter<K, V> {
    inner: SkipList<K, V>,
}

impl<K: Ord, V> IntoIter<K, V> {
    /// The container being emptied is well-formed.
    pub closed spec fn wf(&self) -> bool {
        self.inner.wf()
    }

    /// The entries still to come, in the order in which they come.
    pub closed spec fn remaining(&self) -> Seq<(K, V)> {
        self.inner.entries()
    }

    /// The next entry, if any is left.
    pub fn next(&mut self) -> (item: Option<(K, V)>)
        requires
            old(self).wf(),
        ensures
            final(self).wf(),
            match item {
                None => old(self).remaining().len() == 0 && final(self).remaining() == old(
                    self,
                ).remaining(),
                Some(e) => old(self).remaining().len() > 0 && e == old(self).remaining()[0]
                    && final(self).remaining() == old(self).remaining().skip(1),
            },
    {
        let item = self.inner.pop_front();
        item
    }
}

impl<K: Ord, V> SkipList<K, V> {
    /// A traversal of all entries by reference.
    pub fn iter(&self) -> (it: Iter<'_, K, V>)
        requires
            self.wf(),
        ensures
            it.wf(),
            it.remaining() == self.entries(),
    {
        proof {
            self.lemma_bottom(0);
        }
        let it = Iter { list: self, cursor: self.link(Ghost(0), 0, 0), pos: Ghost(1) };
        it
    }

    /// A traversal that consumes the container.
    pub fn into_iter(self) -> (it: IntoIter<K, V>)
        requires
            self.wf(),
        ensures
            it.wf(),
            it.remaining() == self.entries(),
    {
        IntoIter { inner: self }
    }
}

/// Where a traversal stands in the chain.
pub struct Cursor {
    next: Option<usize>,
    pos: Ghost<int>,
}

impl Cursor {
    /// The cursor stands at a node of `list`, or past its end.
    pub closed spec fn points_into<K, V>(&self, list: &SkipList<K, V>) -> bool {
        &&& 1 <= self.pos@ <= list.chain@.len()
        &&& self.next == (if self.pos@ < list.chain@.len() {
            Some(list.chain@[self.pos@])
        } else {
            None
        })
    }

    /// How many entries the cursor has passed.
    pub closed spec fn passed(&self) -> int {
        self.pos@ - 1
    }
}

/// A traversal that hands out the keys by reference and the values to be
/// changed in place, in ascending key order. It holds the container for as
/// long as it lives.
pub struct IterMut<'a, K, V> {
    pub list: &'a mut SkipList<K, V>,
    pub at: Cursor,
}

impl<'a, K: Ord, V> IterMut<'a, K, V> {
    /// The traversal stands at a node of a well-formed container, or past its end.
    pub open spec fn wf(&self) -> bool {
        &&& self.list.wf()
        &&& self.at.points_into(&*self.list)
    }

    /// How many entries the traversal has passed.
    pub open spec fn passed(&self) -> int {
        self.at.passed()
    }

    /// The next entry, if any is left.
    pub fn next(&mut self) -> (item: Option<(&K, &mut V)>)
        requires
            old(self).wf(),
        ensures
            final(self).wf(),
            *final(final(self).list) == *final(old(self).list),
            final(self).list.levels() == old(self).list.levels(),
            match item {
                None => old(self).passed() == old(self).list.entries().len() && final(self).passed()
                    == old(self).passed() && *final(self).list == *old(self).list,
                Some((k, v)) => 0 <= old(self).passed() < old(self).list.entries().len() && (*k, *v)
                    == old(self).list.entries()[old(self).passed()] && final(self).passed() == old(
                    self,
                ).passed() + 1 && final(self).list.entries() == old(self).list.entries().update(
                    old(self).passed(),
                    (*k, *final(v)),
                ),
            },
    {
        match self.at.next {
            Some(h) => {
                let ghost p = self.at.pos@;
                proof {
                    self.list.lemma_bottom(p);
                }
                let next = self.list.link(Ghost(p), h, 0);
                self.at = Cursor { next, pos: Ghost(p + 1) };
                Some(self.list.entry_slot(Ghost(p), h))
            },
            None => None,
        }
    }
}

impl<K: Ord, V> SkipList<K, V> {
    /// A traversal of all entries that may change the values.
    pub fn iter_mut(&mut self) -> (it: IterMut<'_, K, V>)
        requires
            old(self).wf(),
        ensures
            it.wf(),
            it.passed() == 0,
            *it.list == *old(self),
            *final(it.list) == *final(self),
    {
        proof {
            self.lemma_bottom(0);
        }
        let next = self.link(Ghost(0), 0, 0);
        IterMut { list: self, at: Cursor { next, pos: Ghost(1) } }
    }
}

} // verus!
