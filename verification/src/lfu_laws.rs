//! What holds of the number of entries of a least-frequently-used cache, over many operations.
use vstd::prelude::*;

use crate::common::base_cache::bound_laws::{
    accounted, bounded, insert_waits, is_consistent, is_on_time, is_right_write, is_write_step, lemma_collected,
    lemma_entries_are_queued, lemma_new_entries_stay, lemma_nothing_waits, lemma_reads, lemma_waits_behind,
    lemma_write_step, only_new_entries_wait,
};
use crate::common::base_cache::state::QueueState;
use crate::common::concurrent::deques::{lemma_moved, lemma_moved_back, lemma_pushed, lemma_unlinked, unlinked};
use crate::common::estimator::SketchModel;
use crate::common::op_log::QueueOp;
use crate::common::time::Instant;
use crate::lfu::lemma_lfu_writes_step;

verus! {

/// None of the waiting writes comes too late when its turn comes: an entry that was put under a key is
/// still there, or its removal waits.
pub open spec fn none_late<V, S: SketchModel>(s: QueueState<V, S>) -> bool {
    let s1 = s.reads_applied(s.reads.len());
    forall|j: int|
        #![trigger s.writes[j]]
        0 <= j < s.writes.len() ==> is_on_time(s1.lfu_writes_applied(j as nat), s.writes, j)
}

proof fn lemma_write_applied<V, S: SketchModel>(s: QueueState<V, S>)
    requires
        s.wf(),
        s.writes.len() > 0,
    ensures
        is_write_step(s, s.lfu_write_applied()),
{
    let q = s.queues.probation;
    s.lemma_write_popped_wf();
    assert(s.writes.remove(0) =~= s.writes.skip(1));
    let p = QueueState { writes: s.writes.remove(0), ..s };
    match s.writes[0] {
        QueueOp::Insert { key, hash, entry } => {
            if p.cache.len() <= p.max_capacity {
                p.lemma_queued_wf(entry);
            } else if q.len() > 0 && p.sketch.estimate(key) > p.sketch.estimate(
                p.info(q[0]).key_hash.hash,
            ) {
                let victim = q[0];
                let t = p.without_key(p.info(victim).key_hash.key);
                p.lemma_fewer_wf(t);
                lemma_unlinked(q, victim);
                t.lemma_queue_steps_wf(victim);
                t.unlinked_ao(victim).lemma_queued_wf(entry);
            } else {
                p.lemma_fewer_wf(p.without_key(key));
            }
        },
        QueueOp::Update { entry } => {
            lemma_moved_back(q, entry);
            p.lemma_queue_steps_wf(entry);
        },
        QueueOp::Remove { entry } => {
            p.lemma_queue_steps_wf(entry);
        },
    }
}

proof fn lemma_writes<V, S: SketchModel>(s: QueueState<V, S>)
    requires
        is_consistent(s),
        forall|j: int|
            #![trigger s.writes[j]]
            0 <= j < s.writes.len() ==> is_on_time(s.lfu_writes_applied(j as nat), s.writes, j),
    ensures
        is_consistent(s.lfu_writes_applied(s.writes.len())),
        s.lfu_writes_applied(s.writes.len()).writes.len() == 0,
        s.lfu_writes_applied(s.writes.len()).max_capacity == s.max_capacity,
    decreases s.writes.len(),
{
    if s.writes.len() > 0 {
        let t = s.lfu_write_applied();
        lemma_write_applied(s);
        assert forall|j: int| #![trigger s.writes[j]] 1 <= j < s.writes.len() implies is_on_time(
            t,
            s.writes,
            j,
        ) by {
            let m = (j - 1) as nat;
            let u = t.lfu_writes_applied(m);
            assert(s.lfu_writes_applied(j as nat) == u);
            lemma_lfu_writes_step(t, m);
            match s.writes[j] {
                QueueOp::Insert { key, hash, entry } => {
                    if u.in_cache(entry) {
                        assert(u.cache.dom().contains(u.info(entry).key_hash.key));
                    }
                },
                _ => {},
            }
        }
        assert(s.lfu_writes_applied(0) == s);
        assert(is_on_time(s.lfu_writes_applied(0), s.writes, 0));
        lemma_write_step(s, t);
        assert forall|j: int| #![trigger t.writes[j]] 0 <= j < t.writes.len() implies is_on_time(
            t.lfu_writes_applied(j as nat),
            t.writes,
            j,
        ) by {
            assert(t.writes[j] == s.writes[j + 1]);
            assert(s.lfu_writes_applied((j + 1) as nat) == t.lfu_writes_applied(j as nat));
            assert(is_on_time(s.lfu_writes_applied((j + 1) as nat), s.writes, j + 1));
            assert(t.writes.skip(j + 1) =~= s.writes.skip(j + 2));
        }
        lemma_writes(t);
    }
}

proof fn lemma_new_on_time<V, S: SketchModel>(s: QueueState<V, S>)
    requires
        is_consistent(s),
        only_new_entries_wait(s),
    ensures
        forall|j: int|
            #![trigger s.writes[j]]
            0 <= j < s.writes.len() ==> is_on_time(s.lfu_writes_applied(j as nat), s.writes, j),
    decreases s.writes.len(),
{
    if s.writes.len() > 0 {
        let t = s.lfu_write_applied();
        lemma_write_applied(s);
        lemma_new_entries_stay(s, t);
        assert(s.writes[0] is Insert && s.in_cache(s.writes[0]->Insert_entry));
        lemma_write_step(s, t);
        lemma_new_on_time(t);
        assert forall|j: int| #![trigger s.writes[j]] 0 <= j < s.writes.len() implies is_on_time(
            s.lfu_writes_applied(j as nat),
            s.writes,
            j,
        ) by {
            if j == 0 {
                assert(s.lfu_writes_applied(0) == s);
            } else {
                let m = (j - 1) as nat;
                assert(t.writes[j - 1] == s.writes[j]);
                assert(s.lfu_writes_applied(j as nat) == t.lfu_writes_applied(m));
                assert(is_on_time(t.lfu_writes_applied(m), t.writes, j - 1));
                assert(t.writes.skip(j) =~= s.writes.skip(j + 1));
            }
        }
    }
}

/// Whatever waits, and however much of it, housekeeping leaves a cache with no more entries than it may
/// have, if none of the writes comes too late.
pub proof fn lfu_batch_keeps_bound<V, S: SketchModel>(s: QueueState<V, S>)
    requires
        accounted(s),
        none_late(s),
    ensures
        bounded(s.lfu_synced()),
        s.lfu_synced().cache.len() <= s.max_capacity,
        s.lfu_synced().writes.len() == 0,
{
    reveal(QueueState::lfu_synced);
    lemma_reads(s, s.reads.len());
    let s1 = s.reads_applied(s.reads.len());
    lemma_writes(s1);
    let s2 = s1.lfu_writes_applied(s1.writes.len());
    lemma_nothing_waits(s2);
    s.lemma_reads_applied(s.reads.len());
    s1.lemma_lfu_writes_applied(s1.writes.len());
    lemma_collected(s2);
}

/// However many new entries wait, housekeeping leaves a cache with no more entries than it may have.
pub proof fn lfu_new_entries_keep_bound<V, S: SketchModel>(s: QueueState<V, S>)
    requires
        accounted(s),
        only_new_entries_wait(s),
    ensures
        bounded(s.lfu_synced()),
        s.lfu_synced().cache.len() <= s.max_capacity,
        s.lfu_synced().writes.len() == 0,
{
    lemma_reads(s, s.reads.len());
    let s1 = s.reads_applied(s.reads.len());
    assert forall|i: int| 0 <= i < s1.writes.len() implies (#[trigger] s1.writes[i]) is Insert && s1.in_cache(
        s1.writes[i]->Insert_entry,
    ) by {
        assert(s.writes[i] is Insert);
    }
    lemma_new_on_time(s1);
    assert forall|j: int| #![trigger s.writes[j]] 0 <= j < s.writes.len() implies is_on_time(
        s1.lfu_writes_applied(j as nat),
        s.writes,
        j,
    ) by {
        assert(s1.writes[j] == s.writes[j]);
    }
    lfu_batch_keeps_bound(s);
}

/// However many updates and removals wait, so does housekeeping.
pub proof fn lfu_updates_keep_bound<V, S: SketchModel>(s: QueueState<V, S>)
    requires
        accounted(s),
        forall|i: int| 0 <= i < s.writes.len() ==> !((#[trigger] s.writes[i]) is Insert),
    ensures
        bounded(s.lfu_synced()),
        s.lfu_synced().cache.len() <= s.max_capacity,
        s.lfu_synced().writes.len() == 0,
{
    lfu_batch_keeps_bound(s);
}

/// Every entry of the hash table is in the queue, or waits to be put there. The queue is not too long,
/// unless the hash table is short enough.
spec fn covered<V, S: SketchModel>(s: QueueState<V, S>) -> bool {
    &&& s.wf()
    &&& s.cache.dom().finite()
    &&& forall|k: u64| #[trigger]
        s.cache.dom().contains(k) ==> s.queues.probation.contains(s.cache[k]) || insert_waits(
            s.writes,
            s.cache[k],
        )
    &&& forall|i: int|
        #![trigger s.writes[i]]
        0 <= i < s.writes.len() ==> match s.writes[i] {
            QueueOp::Insert { key, hash, entry } => s.info(entry).key_hash.key == key,
            QueueOp::Update { entry } => true,
            QueueOp::Remove { entry } => !s.in_cache(entry),
        }
    &&& s.queues.probation.len() <= s.max_capacity || s.cache.len() <= s.max_capacity
}

proof fn lemma_covered<V, S: SketchModel>(s: QueueState<V, S>)
    requires
        covered(s),
        s.writes.len() > 0,
    ensures
        covered(s.lfu_write_applied()),
        s.lfu_write_applied().writes == s.writes.skip(1),
        s.lfu_write_applied().max_capacity == s.max_capacity,
{
    let t = s.lfu_write_applied();
    let q = s.queues.probation;
    lemma_write_applied(s);
    assert(s.write_ok(s.writes[0]));
    assert(s.writes[0] == s.writes[0]);
    assert forall|k: u64| #[trigger] t.cache.dom().contains(k) implies s.cache.dom().contains(k) && t.cache[k]
        == s.cache[k] by {}
    assert(t.cache.dom().subset_of(s.cache.dom()));
    vstd::set_lib::lemma_len_subset(t.cache.dom(), s.cache.dom());
    assert forall|i: int| #![trigger t.writes[i]] 0 <= i < t.writes.len() implies match t.writes[i] {
        QueueOp::Insert { key, hash, entry } => t.info(entry).key_hash.key == key,
        QueueOp::Update { entry } => true,
        QueueOp::Remove { entry } => !t.in_cache(entry),
    } by {
        assert(t.writes[i] == s.writes[i + 1]);
    }
    match s.writes[0] {
        QueueOp::Insert { key, hash, entry } => {
            if q.len() > 0 {
                lemma_unlinked(q, q[0]);
                assert(!unlinked(q, q[0]).contains(entry));
                lemma_pushed(unlinked(q, q[0]), entry);
            }
            lemma_pushed(q, entry);
        },
        QueueOp::Update { entry } => {},
        QueueOp::Remove { entry } => {
            lemma_unlinked(q, entry);
        },
    }
    assert forall|k: u64| #[trigger] t.cache.dom().contains(k) implies t.queues.probation.contains(t.cache[k])
        || insert_waits(t.writes, t.cache[k]) by {
        let x = s.cache[k];
        assert(s.cache.dom().contains(k));
        assert(s.info(x).key_hash.key == k);
        assert(s.in_cache(x));
        lemma_waits_behind(s.writes, x);
    }
}

proof fn lemma_all_covered<V, S: SketchModel>(s: QueueState<V, S>)
    requires
        covered(s),
    ensures
        covered(s.lfu_writes_applied(s.writes.len())),
        s.lfu_writes_applied(s.writes.len()).writes.len() == 0,
        s.lfu_writes_applied(s.writes.len()).max_capacity == s.max_capacity,
    decreases s.writes.len(),
{
    if s.writes.len() > 0 {
        lemma_covered(s);
        lemma_all_covered(s.lfu_write_applied());
    }
}

/// Whatever waits, and however much of it, no more keys are left than there may be, be the writes late or
/// not.
pub proof fn lfu_capacity_holds<V, S: SketchModel>(s: QueueState<V, S>)
    requires
        accounted(s),
    ensures
        s.lfu_synced().cache.len() <= s.max_capacity,
{
    reveal(QueueState::lfu_synced);
    lemma_reads(s, s.reads.len());
    let s1 = s.reads_applied(s.reads.len());
    assert forall|i: int| #![trigger s1.writes[i]] 0 <= i < s1.writes.len() implies match s1.writes[i] {
        QueueOp::Insert { key, hash, entry } => s1.info(entry).key_hash.key == key,
        QueueOp::Update { entry } => true,
        QueueOp::Remove { entry } => !s1.in_cache(entry),
    } by {
        assert(is_right_write(s1, i));
    }
    lemma_all_covered(s1);
    let s2 = s1.lfu_writes_applied(s1.writes.len());
    assert forall|k: u64| #[trigger] s2.cache.dom().contains(k) implies s2.queues.probation.contains(
        s2.cache[k],
    ) by {
        assert(!insert_waits(s2.writes, s2.cache[k]));
    }
    lemma_entries_are_queued(s2);
}

/// The policy is shown an update: its entry becomes the last of the queue, and the others keep their
/// order.
pub proof fn lfu_updated_entry_goes_last<V, S: SketchModel>(s: QueueState<V, S>, i: int)
    requires
        s.wf(),
        s.writes.len() > 0,
        s.writes[0] is Update,
    ensures
        ({
            let e = s.writes[0]->Update_entry;
            let after = s.lfu_write_applied();
            let q = s.queues.probation;
            &&& 0 <= i < q.len() && q[i] == e ==> after.queues.probation == q.take(i) + q.skip(i + 1)
                + seq![e]
            &&& !q.contains(e) ==> after.queues.probation == q
            &&& after.queues.probation.len() == q.len()
            &&& forall|x: usize| #[trigger] after.queues.probation.contains(x) <==> q.contains(x)
            &&& after.queues.write_order == s.queues.write_order
            &&& after.cache == s.cache
            &&& after.entries == s.entries
            &&& after.sketch == s.sketch
            &&& after.writes == s.writes.skip(1)
        }),
{
    let q = s.queues.probation;
    assert(s.writes.remove(0) =~= s.writes.skip(1));
    lemma_moved_back(q, s.writes[0]->Update_entry);
    if 0 <= i < q.len() {
        lemma_moved(q, i);
    }
}

/// The policy is shown a removal: its entry is taken out of the queue, and the others keep their order.
pub proof fn lfu_removed_entry_is_let_out<V, S: SketchModel>(s: QueueState<V, S>, i: int)
    requires
        s.wf(),
        s.writes.len() > 0,
        s.writes[0] is Remove,
    ensures
        ({
            let e = s.writes[0]->Remove_entry;
            let after = s.lfu_write_applied();
            let q = s.queues.probation;
            &&& 0 <= i < q.len() && q[i] == e ==> after.queues.probation == q.take(i) + q.skip(i + 1)
            &&& !q.contains(e) ==> after.queues.probation == q
            &&& after.queues.write_order == s.queues.write_order
            &&& after.cache == s.cache
            &&& after.entries == s.entries
            &&& after.sketch == s.sketch
            &&& after.writes == s.writes.skip(1)
        }),
{
    let q = s.queues.probation;
    assert(s.writes.remove(0) =~= s.writes.skip(1));
    if 0 <= i < q.len() {
        lemma_moved(q, i);
    }
}

/// The policy is shown a new entry: while there are no more keys than there may be, it becomes the last of
/// the queue, and nothing goes. Else it takes the place of the first of the queue, if its key was seen
/// more often than the key of that one; if not, its own key goes.
pub proof fn lfu_new_entry_takes_a_place<V, S: SketchModel>(s: QueueState<V, S>, other: u64)
    requires
        s.wf(),
        s.writes.len() > 0,
        s.writes[0] is Insert,
    ensures
        ({
            let e = s.writes[0]->Insert_entry;
            let key = s.writes[0]->key;
            let after = s.lfu_write_applied();
            let q = s.queues.probation;
            let first = s.entries[q[0]].info.key_hash;
            let has_more = q.len() > 0 && s.sketch.estimate(key) > s.sketch.estimate(first.hash);
            &&& s.cache.len() <= s.max_capacity ==> {
                &&& after.queues.probation == q.push(e)
                &&& after.cache == s.cache
            }
            &&& s.cache.len() > s.max_capacity && has_more ==> {
                &&& after.queues.probation == q.skip(1).push(e)
                &&& !after.cache.dom().contains(first.key)
                &&& other != first.key ==> (after.cache.dom().contains(other) <==> s.cache.dom().contains(
                    other,
                ))
            }
            &&& s.cache.len() > s.max_capacity && !has_more ==> {
                &&& after.queues == s.queues
                &&& !after.cache.dom().contains(key)
                &&& other != key ==> (after.cache.dom().contains(other) <==> s.cache.dom().contains(other))
            }
            &&& after.cache.dom().contains(other) ==> after.cache[other] == s.cache[other]
            &&& after.entries == s.entries
            &&& after.sketch == s.sketch
            &&& after.writes == s.writes.skip(1)
        }),
{
    let q = s.queues.probation;
    assert(s.writes.remove(0) =~= s.writes.skip(1));
    if q.len() > 0 {
        lemma_moved(q, 0);
        assert(q.take(0) + q.skip(1) =~= q.skip(1));
    }
}

/// What a user of a least-frequently-used cache reads is what was last written under the key, at any time,
/// for as long as the key is there.
pub proof fn lfu_entries_do_not_age<V, S: SketchModel>(s: QueueState<V, S>, key: u64, now: Instant)
    requires
        s.time_to_live is None,
        s.time_to_idle is None,
    ensures
        s.lookup(key, now) == if s.cache.dom().contains(key) {
            Some(s.entries[s.cache[key]].value)
        } else {
            None
        },
{
}

} // verus!
