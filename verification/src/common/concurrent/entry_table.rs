//! The table of the entries of one cache.
//!
//! The hash table, the queues, the timer wheel and the logs of pending operations all
//! speak of an entry by its number in this table.
use vstd::prelude::*;
use vstd::set_lib::lemma_len_subset;

use super::ValueEntry;

verus! {

/// The entries of one cache, by number. The number of an entry stays the same for as long
/// as the entry is in the table. Numbers of removed entries are used again.
pub struct EntryTable<K, V> {
    slots: Vec<Option<ValueEntry<K, V>>>,
    free: Vec<usize>,
}

impl<K, V> EntryTable<K, V> {
    /// The entries by number.
    pub closed spec fn view(&self) -> Map<usize, ValueEntry<K, V>> {
        Map::new(
            |e: usize| e < self.slots@.len() && self.slots@[e as int] is Some,
            |e: usize| self.slots@[e as int]->0,
        )
    }

    /// Every number that is kept for use again is free.
    pub closed spec fn wf(&self) -> bool {
        &&& forall|i: int|
            0 <= i < self.free@.len() ==> (#[trigger] self.free@[i]) < self.slots@.len()
                && self.slots@[self.free@[i] as int] is None
        &&& forall|i: int, j: int|
            0 <= i < self.free@.len() && 0 <= j < self.free@.len() && #[trigger] self.free@[i]
                == #[trigger] self.free@[j] ==> i == j
    }

    /// The entries of a table can be counted.
    pub proof fn lemma_count(&self)
        ensures
            self@.dom().finite(),
            self@.dom().len() <= usize::MAX,
    {
        assert(self.slots.len() == self.slots@.len());
        let all = below(self.slots@.len());
        lemma_below(self.slots@.len());
        assert(self@.dom().subset_of(all));
        lemma_len_subset(self@.dom(), all);
    }

    pub fn new() -> (r: Self)
        ensures
            r.wf(),
            r@ == Map::<usize, ValueEntry<K, V>>::empty(),
    {
        let r = EntryTable { slots: Vec::new(), free: Vec::new() };
        assert(r@ =~= Map::<usize, ValueEntry<K, V>>::empty());
        r
    }

    /// Whether there is an entry of the number `e`.
    pub fn contains(&self, e: usize) -> (r: bool)
        ensures
            r == self@.dom().contains(e),
    {
        e < self.slots.len() && self.slots[e].is_some()
    }

    /// The entry of the number `e`.
    pub fn get(&self, e: usize) -> (r: &ValueEntry<K, V>)
        requires
            self@.dom().contains(e),
        ensures
            *r == self@[e],
    {
        self.slots[e].as_ref().unwrap()
    }

    /// The entry of the number `e`, to be changed.
    pub fn get_mut(&mut self, e: usize) -> (r: &mut ValueEntry<K, V>)
        requires
            old(self).wf(),
            old(self)@.dom().contains(e),
        ensures
            *r == old(self)@[e],
            final(self).wf(),
            final(self)@ == old(self)@.insert(e, *final(r)),
    {
        let ghost before = self@;
        match &mut self.slots[e] {
            Some(r) => {
                proof {
                    let after = old(self).slots@.update(e as int, Some(*final(r)));
                    assert(Map::new(
                        |x: usize| x < after.len() && after[x as int] is Some,
                        |x: usize| after[x as int]->0,
                    ) =~= before.insert(e, *final(r)));
                }
                r
            },
            None => {
                vstd::pervasive::unreached()
            },
        }
    }

    /// Adds an entry and returns its number.
    pub fn insert(&mut self, entry: ValueEntry<K, V>) -> (r: usize)
        requires
            old(self).wf(),
        ensures
            final(self).wf(),
            !old(self)@.dom().contains(r),
            final(self)@ == old(self)@.insert(r, entry),
    {
        let e: usize = if self.free.len() > 0 {
            let e: usize = self.free.pop().unwrap();
            assert(e == old(self).free@[old(self).free@.len() - 1]);
            self.slots.set(e, Some(entry));
            assert forall|i: int| 0 <= i < self.free@.len() implies (#[trigger] self.free@[i])
                < self.slots@.len() && self.slots@[self.free@[i] as int] is None by {
                assert(self.free@[i] == old(self).free@[i]);
            }
            e
        } else {
            let e: usize = self.slots.len();
            self.slots.push(Some(entry));
            e
        };
        assert(self@ =~= old(self)@.insert(e, entry)) by {
            let bound = self.slots.len();
        }
        e
    }

    /// Takes an entry out.
    pub fn remove(&mut self, e: usize) -> (r: ValueEntry<K, V>)
        requires
            old(self).wf(),
            old(self)@.dom().contains(e),
        ensures
            final(self).wf(),
            r == old(self)@[e],
            final(self)@ == old(self)@.remove(e),
    {
        let mut taken: Option<ValueEntry<K, V>> = None;
        std::mem::swap(&mut self.slots[e], &mut taken);
        assert(self.slots@ == old(self).slots@.update(e as int, None));
        self.free.push(e);
        proof {
            assert forall|i: int| 0 <= i < self.free@.len() implies (#[trigger] self.free@[i])
                < self.slots@.len() && self.slots@[self.free@[i] as int] is None by {
                if i < self.free@.len() - 1 {
                    assert(self.free@[i] == old(self).free@[i]);
                }
            }
            assert forall|i: int, j: int|
                0 <= i < self.free@.len() && 0 <= j < self.free@.len() && #[trigger] self.free@[i]
                    == #[trigger] self.free@[j] implies i == j by {
                if i < self.free@.len() - 1 {
                    assert(self.free@[i] == old(self).free@[i]);
                }
                if j < self.free@.len() - 1 {
                    assert(self.free@[j] == old(self).free@[j]);
                }
            }
            assert(self@ =~= old(self)@.remove(e));
        }
        taken.unwrap()
    }
}

/// The numbers below `n`.
spec fn below(n: nat) -> Set<usize>
    decreases n,
{
    if n == 0 {
        Set::empty()
    } else {
        below((n - 1) as nat).insert((n - 1) as usize)
    }
}

proof fn lemma_below(n: nat)
    requires
        n <= usize::MAX + 1,
    ensures
        below(n).finite(),
        below(n).len() == n,
        forall|e: usize| #[trigger] below(n).contains(e) <==> e < n,
    decreases n,
{
    if n > 0 {
        lemma_below((n - 1) as nat);
    }
}

} // verus!
