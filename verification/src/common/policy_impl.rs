//! Which entries are used most, and which least.
use vstd::prelude::*;

use super::concurrent::deques::Deques;
use super::concurrent::entry_table::EntryTable;
use super::concurrent::ValueEntry;
use super::entry::{EntryMetadata, EntryRegion};
use super::time::Instant;
use crate::policy::ExpirationPolicy;

verus! {

/// How many of the entries that are used least, and of those that are used most, are wanted.
#[derive(Clone, Copy, Debug, PartialEq, Eq, Structural)]
pub struct EntrySnapshotConfig {
    pub coldest: usize,
    pub hottest: usize,
}

/// Entries by their keys: those that are used least from the coldest on, and those that are
/// used most from the hottest on.
pub struct EntrySnapshot {
    pub coldest: Vec<(u64, EntryMetadata)>,
    pub hottest: Vec<(u64, EntryMetadata)>,
}

/// The policies know of every update of the entry.
pub open spec fn is_clean<V>(entries: Map<usize, ValueEntry<u64, V>>) -> spec_fn(usize) -> bool {
    |e: usize| entries[e].info.entry_gen == entries[e].info.policy_gen
}

/// The first `count` of a queue of whom the policies know every update, or all of them when
/// they are fewer.
pub open spec fn first_clean<V>(
    queue: Seq<usize>,
    entries: Map<usize, ValueEntry<u64, V>>,
    count: int,
) -> Seq<usize> {
    let clean = queue.filter(is_clean(entries));
    if clean.len() <= count {
        clean
    } else {
        clean.take(count)
    }
}

/// The queue from the other end.
pub open spec fn backwards(queue: Seq<usize>) -> Seq<usize> {
    Seq::new(queue.len(), |i: int| queue[queue.len() - 1 - i])
}

proof fn lemma_filter_step(s: Seq<usize>, p: spec_fn(usize) -> bool, i: int)
    requires
        0 <= i < s.len(),
    ensures
        s.take(i + 1).filter(p) == if p(s[i]) {
            s.take(i).filter(p).push(s[i])
        } else {
            s.take(i).filter(p)
        },
{
    reveal(Seq::filter);
    assert(s.take(i + 1).drop_last() =~= s.take(i));
}

/// What is left of the beginning of a sequence is the beginning of what is left.
proof fn lemma_filter_prefix(s: Seq<usize>, p: spec_fn(usize) -> bool, i: int)
    requires
        0 <= i <= s.len(),
    ensures
        s.take(i).filter(p).len() <= s.filter(p).len(),
        s.filter(p).take(s.take(i).filter(p).len() as int) == s.take(i).filter(p),
    decreases s.len() - i,
{
    if i == s.len() {
        assert(s.take(i) =~= s);
        assert(s.filter(p).take(s.filter(p).len() as int) =~= s.filter(p));
    } else {
        lemma_filter_prefix(s, p, i + 1);
        lemma_filter_step(s, p, i);
        let a = s.take(i).filter(p);
        let b = s.take(i + 1).filter(p);
        assert(s.filter(p).take(a.len() as int) =~= b.take(a.len() as int));
        assert(b.take(a.len() as int) =~= a);
    }
}

impl<E> ExpirationPolicy<E> {
    /// What is told of an entry.
    pub open spec fn told<V>(
        &self,
        entries: Map<usize, ValueEntry<u64, V>>,
        e: usize,
        snapshot_at: Instant,
    ) -> (u64, EntryMetadata) {
        (
            entries[e].info.key_hash.key,
            EntryMetadata::of(
                EntryRegion::Main,
                entries[e].info,
                self.time_to_live,
                self.time_to_idle,
                snapshot_at,
            ),
        )
    }

    /// The first `count` entries from one end of the queue, without those whose updates the
    /// policies do not know.
    fn top_entries<V>(
        &self,
        count: usize,
        from_front: bool,
        deqs: &Deques,
        entries: &EntryTable<u64, V>,
        snapshot_at: Instant,
    ) -> (r: Vec<(u64, EntryMetadata)>)
        requires
            deqs.wf(),
            deqs.linked(entries@),
        ensures
            ({
                let queue = if from_front {
                    deqs@.probation
                } else {
                    backwards(deqs@.probation)
                };
                let top = first_clean(queue, entries@, count as int);
                r@ == top.map_values(|e: usize| self.told(entries@, e, snapshot_at))
            }),
    {
        let ghost queue = if from_front {
            deqs@.probation
        } else {
            backwards(deqs@.probation)
        };
        let ghost p = is_clean(entries@);
        let ghost tell = |e: usize| self.told(entries@, e, snapshot_at);
        let mut r: Vec<(u64, EntryMetadata)> = Vec::new();
        let ghost mut i: int = 0;
        let mut next: Option<usize> = if from_front {
            deqs.peek_front_ao(super::CacheRegion::MainProbation)
        } else {
            deqs.back_of_probation()
        };
        proof {
            assert(queue.take(0) =~= Seq::<usize>::empty());
            reveal(Seq::filter);
            assert(r@ =~= queue.take(0).filter(p).map_values(tell));
        }
        while r.len() < count
            invariant
                deqs.wf(),
                deqs.linked(entries@),
                queue == if from_front {
                    deqs@.probation
                } else {
                    backwards(deqs@.probation)
                },
                p == is_clean(entries@),
                tell == (|e: usize| self.told(entries@, e, snapshot_at)),
                0 <= i <= queue.len(),
                next == if i < queue.len() {
                    Some(queue[i])
                } else {
                    None::<usize>
                },
                r@ == queue.take(i).filter(p).map_values(tell),
                r@.len() <= count,
            ensures
                r@ == queue.take(i).filter(p).map_values(tell),
                0 <= i <= queue.len(),
                r@.len() <= count,
                r@.len() < count ==> i == queue.len(),
            decreases queue.len() - i,
        {
            let current: usize = match next {
                Some(e) => e,
                None => {
                    break;
                },
            };
            next = if from_front {
                deqs.next_in_probation(entries, current, Ghost(i))
            } else {
                deqs.previous_in_probation(entries, current, Ghost(queue.len() - 1 - i))
            };
            proof {
                lemma_filter_step(queue, p, i);
            }
            let ghost before = queue.take(i).filter(p);
            if !entries.get(current).is_dirty() {
                let info = entries.get(current).entry_info();
                let md = EntryMetadata::from_element(
                    EntryRegion::Main,
                    info,
                    self.time_to_live(),
                    self.time_to_idle(),
                    snapshot_at,
                );
                r.push((info.key_hash.key, md));
                assert(r@ =~= before.push(current).map_values(tell));
            }
            proof {
                i = i + 1;
            }
        }
        proof {
            lemma_filter_prefix(queue, p, i);
            if i == queue.len() {
                assert(queue.take(i) =~= queue);
            }
            let top = first_clean(queue, entries@, count as int);
            assert(queue.take(i).filter(p) =~= top);
        }
        r
    }

    /// The entries that are used least, and those that are used most.
    pub fn capture_entry_snapshot<V>(
        &self,
        sc: EntrySnapshotConfig,
        deqs: &Deques,
        entries: &EntryTable<u64, V>,
        snapshot_at: Instant,
    ) -> (r: EntrySnapshot)
        requires
            deqs.wf(),
            deqs.linked(entries@),
        ensures
            r.coldest@ == first_clean(deqs@.probation, entries@, sc.coldest as int).map_values(
                |e: usize| self.told(entries@, e, snapshot_at),
            ),
            r.hottest@ == first_clean(backwards(deqs@.probation), entries@, sc.hottest as int).map_values(
                |e: usize| self.told(entries@, e, snapshot_at),
            ),
    {
        let coldest = self.top_entries(sc.coldest, true, deqs, entries, snapshot_at);
        let hottest = self.top_entries(sc.hottest, false, deqs, entries, snapshot_at);
        EntrySnapshot { coldest, hottest }
    }
}

/// Who is listed, as the queue grows: one more who comes last in the queue, and of whom the policies know
/// every update, is listed last, as long as fewer are listed than are wanted. Of an empty queue nobody is
/// listed.
pub proof fn listing_follows_the_queue<V>(
    queue: Seq<usize>,
    e: usize,
    entries: Map<usize, ValueEntry<u64, V>>,
    count: int,
)
    requires
        count >= 0,
    ensures
        first_clean(Seq::empty(), entries, count) == Seq::<usize>::empty(),
        ({
            let listed = first_clean(queue, entries, count);
            let after = first_clean(queue.push(e), entries, count);
            let info = entries[e].info;
            &&& listed.len() <= count
            &&& info.entry_gen != info.policy_gen ==> after == listed
            &&& info.entry_gen == info.policy_gen && listed.len() == count ==> after == listed
            &&& info.entry_gen == info.policy_gen && listed.len() < count ==> after == listed.push(e)
        }),
{
    reveal(Seq::filter);
    let p = is_clean(entries);
    let q = queue.push(e);
    assert(q.drop_last() =~= queue);
    let a = queue.filter(p);
    let b = q.filter(p);
    assert(a.len() <= count ==> a.take(a.len() as int) =~= a);
    if p(e) {
        assert(b == a.push(e));
        if a.len() >= count {
            assert(b.take(count) =~= a.take(count));
            assert(a.len() == count ==> a.take(count) =~= a);
        }
    }
}

/// The queue from its other end has the same members, and the last of it first.
pub proof fn other_end_comes_first(queue: Seq<usize>, e: usize)
    ensures
        backwards(queue).len() == queue.len(),
        backwards(queue.push(e)) == seq![e] + backwards(queue),
        backwards(Seq::empty()) == Seq::<usize>::empty(),
        backwards(backwards(queue)) == queue,
{
    assert(backwards(queue.push(e)) =~= seq![e] + backwards(queue));
    assert(backwards(Seq::empty()) =~= Seq::<usize>::empty());
    assert(backwards(backwards(queue)) =~= queue);
}

/// What is told of an entry is its key, its weight and its times.
pub proof fn entry_is_told_as_it_is<E, V>(
    policy: ExpirationPolicy<E>,
    entries: Map<usize, ValueEntry<u64, V>>,
    e: usize,
    snapshot_at: Instant,
)
    ensures
        ({
            let (key, told) = policy.told(entries, e, snapshot_at);
            let info = entries[e].info;
            &&& key == info.key_hash.key
            &&& told.policy_weight == info.policy_weight
            &&& info.last_modified@ is Some ==> told.last_modified == info.last_modified@->0
            &&& info.last_accessed@ is Some ==> told.last_accessed == info.last_accessed@->0
            &&& told.snapshot_at == snapshot_at
            &&& told.region == EntryRegion::Main
        }),
{
}

} // verus!
