//! What holds of the number of entries of a cache that counts them, over many operations.
use vstd::prelude::*;

use super::laws::{lemma_writes_step, steps};
use super::state::{QueueState, EVICTION_BATCH_SIZE};
use crate::common::concurrent::deques::{lemma_moved_back, lemma_pushed, lemma_unlinked, unlinked};
use crate::common::estimator::SketchModel;
use crate::common::op_log::{QueueOp, ReadOp};
use crate::common::time::Instant;

verus! {

/// The cache has no more entries than it may have; the entries of the access-order queue are those
/// of the hash table.
pub open spec fn bounded<V, S: SketchModel>(s: QueueState<V, S>) -> bool {
    &&& s.wf()
    &&& s.cache.dom().finite()
    &&& s.cache.len() <= s.max_capacity
    &&& forall|e: usize| #[trigger] s.queues.probation.contains(e) ==> s.in_cache(e)
    &&& forall|k: u64| #[trigger]
        s.cache.dom().contains(k) ==> s.queues.probation.contains(s.cache[k])
}

/// It is still to be shown to the policies that the entry was put under a key.
pub open spec fn insert_waits(writes: Seq<QueueOp>, e: usize) -> bool {
    exists|i: int|
        0 <= i < writes.len() && (#[trigger] writes[i]) is Insert && writes[i]->Insert_entry == e
}

/// It is still to be shown to the policies that the entry was removed.
pub open spec fn removal_waits(writes: Seq<QueueOp>, e: usize) -> bool {
    exists|i: int| 0 <= i < writes.len() && #[trigger] writes[i] == (QueueOp::Remove { entry: e })
}

/// The `i`-th of the waiting writes agrees with the hash table: an entry was put under its own key;
/// a removed entry is gone, and what is under its key came later.
pub open spec fn is_right_write<V, S: SketchModel>(s: QueueState<V, S>, i: int) -> bool {
    match s.writes[i] {
        QueueOp::Insert { key, hash, entry } => s.info(entry).key_hash.key == key,
        QueueOp::Update { entry } => true,
        QueueOp::Remove { entry } => {
            &&& !s.in_cache(entry)
            &&& s.find(s.info(entry).key_hash.key) matches Some(e) ==> insert_waits(
                s.writes.skip(i + 1),
                e,
            )
        },
    }
}

/// The hash table, the queue and the waiting writes account for each other: who is in the queue is in
/// the hash table, or waits to be removed; who is in the hash table is in the queue, or waits to be
/// put there. The queue is not too long, unless the hash table is short enough.
pub open spec fn is_consistent<V, S: SketchModel>(s: QueueState<V, S>) -> bool {
    &&& s.wf()
    &&& s.cache.dom().finite()
    &&& forall|e: usize| #[trigger]
        s.queues.probation.contains(e) ==> s.in_cache(e) || removal_waits(s.writes, e)
    &&& forall|k: u64| #[trigger]
        s.cache.dom().contains(k) ==> s.queues.probation.contains(s.cache[k]) || insert_waits(
            s.writes,
            s.cache[k],
        )
    &&& forall|i: int| #![trigger s.writes[i]] 0 <= i < s.writes.len() ==> is_right_write(s, i)
    &&& s.queues.probation.len() <= s.max_capacity || s.cache.len() <= s.max_capacity
}

/// The same between two rounds of housekeeping, when the queue is not too long.
pub open spec fn accounted<V, S: SketchModel>(s: QueueState<V, S>) -> bool {
    is_consistent(s) && s.queues.probation.len() <= s.max_capacity
}

/// The `i`-th of the writes does not come too late for the hash table of `t`: an entry that was put
/// under a key is still there, or its removal waits behind.
pub open spec fn is_on_time<V, S: SketchModel>(
    t: QueueState<V, S>,
    writes: Seq<QueueOp>,
    i: int,
) -> bool {
    match writes[i] {
        QueueOp::Insert { key, hash, entry } => t.in_cache(entry) || removal_waits(
            writes.skip(i + 1),
            entry,
        ),
        _ => true,
    }
}

/// From `s` to `t`, the policies are shown that an entry was put under a key: the entry joins the
/// queue, in place of the one at its front where there are too many, or its key is taken out.
pub open spec fn is_insert_step<V, S: SketchModel>(
    s: QueueState<V, S>,
    t: QueueState<V, S>,
    key: u64,
    e: usize,
) -> bool {
    let q = s.queues.probation;
    ||| {
        &&& s.cache.len() <= s.max_capacity
        &&& t.cache == s.cache
        &&& t.queues.probation == q.push(e)
    }
    ||| {
        &&& s.cache.len() > s.max_capacity
        &&& q.len() > 0
        &&& t.cache == s.cache.remove(s.info(q[0]).key_hash.key)
        &&& t.queues.probation == unlinked(q, q[0]).push(e)
    }
    ||| {
        &&& s.cache.len() > s.max_capacity
        &&& t.cache == s.cache.remove(key)
        &&& t.queues.probation == q
    }
}

/// From `s` to `t`, the first of the waiting writes is shown to the policies.
pub open spec fn is_write_step<V, S: SketchModel>(s: QueueState<V, S>, t: QueueState<V, S>) -> bool {
    let q = s.queues.probation;
    &&& s.writes.len() > 0
    &&& t.wf()
    &&& t.entries == s.entries
    &&& t.max_capacity == s.max_capacity
    &&& t.writes == s.writes.skip(1)
    &&& match s.writes[0] {
        QueueOp::Insert { key, hash, entry } => is_insert_step(s, t, key, entry),
        QueueOp::Update { entry } => {
            &&& t.cache == s.cache
            &&& t.queues.probation.len() == q.len()
            &&& forall|e: usize| #[trigger] t.queues.probation.contains(e) <==> q.contains(e)
        },
        QueueOp::Remove { entry } => t.cache == s.cache && t.queues.probation == unlinked(q, entry),
    }
}

/// Who waits behind the first of the writes waits.
pub proof fn lemma_waits_behind(writes: Seq<QueueOp>, e: usize)
    requires
        writes.len() > 0,
    ensures
        insert_waits(writes.skip(1), e) ==> insert_waits(writes, e),
        removal_waits(writes.skip(1), e) ==> removal_waits(writes, e),
        insert_waits(writes, e) ==> insert_waits(writes.skip(1), e) || (writes[0] is Insert
            && writes[0]->Insert_entry == e),
        removal_waits(writes, e) ==> removal_waits(writes.skip(1), e) || writes[0] == (
        QueueOp::Remove { entry: e }),
{
    let rest = writes.skip(1);
    if insert_waits(rest, e) {
        let i = choose|i: int|
            0 <= i < rest.len() && (#[trigger] rest[i]) is Insert && rest[i]->Insert_entry == e;
        assert(writes[i + 1] == rest[i]);
    }
    if removal_waits(rest, e) {
        let i = choose|i: int| 0 <= i < rest.len() && #[trigger] rest[i] == (QueueOp::Remove { entry: e });
        assert(writes[i + 1] == rest[i]);
    }
    if insert_waits(writes, e) {
        let i = choose|i: int|
            0 <= i < writes.len() && (#[trigger] writes[i]) is Insert && writes[i]->Insert_entry == e;
        if i > 0 {
            assert(rest[i - 1] == writes[i]);
        }
    }
    if removal_waits(writes, e) {
        let i = choose|i: int| 0 <= i < writes.len() && #[trigger] writes[i] == (QueueOp::Remove { entry: e });
        if i > 0 {
            assert(rest[i - 1] == writes[i]);
        }
    }
}

/// Whose removal waits is gone, and what is under their key does not come in time if the key is taken
/// out.
proof fn lemma_replaced_is_late<V, S: SketchModel>(s: QueueState<V, S>, t: QueueState<V, S>, e: usize)
    requires
        is_consistent(s),
        t.entries == s.entries,
        removal_waits(s.writes, e),
        !(s.writes[0] == (QueueOp::Remove { entry: e })),
        !t.cache.dom().contains(s.info(e).key_hash.key),
        forall|j: int|
            #![trigger s.writes[j]]
            1 <= j < s.writes.len() ==> is_on_time(t, s.writes, j),
    ensures
        s.find(s.info(e).key_hash.key) is None,
{
    let key = s.info(e).key_hash.key;
    let i = choose|i: int| 0 <= i < s.writes.len() && #[trigger] s.writes[i] == (QueueOp::Remove { entry: e });
    assert(is_right_write(s, i));
    if s.find(key) is Some {
        let x = s.cache[key];
        assert(s.cache.dom().contains(key));
        let behind = s.writes.skip(i + 1);
        assert(insert_waits(behind, x));
        let m = choose|m: int|
            0 <= m < behind.len() && (#[trigger] behind[m]) is Insert && behind[m]->Insert_entry == x;
        let j = i + 1 + m;
        assert(s.writes[j] == behind[m]);
        assert(is_on_time(t, s.writes, j));
        assert(s.in_cache(x));
        assert(!t.in_cache(x));
        let last = s.writes.skip(j + 1);
        assert(removal_waits(last, x));
        let n = choose|n: int| 0 <= n < last.len() && #[trigger] last[n] == (QueueOp::Remove { entry: x });
        assert(s.writes[j + 1 + n] == last[n]);
        assert(is_right_write(s, j + 1 + n));
    }
}

/// Showing one of the waiting writes to the policies keeps the account, if none of the others then
/// comes too late.
pub proof fn lemma_write_step<V, S: SketchModel>(s: QueueState<V, S>, t: QueueState<V, S>)
    requires
        is_consistent(s),
        is_write_step(s, t),
        is_on_time(s, s.writes, 0),
        forall|j: int|
            #![trigger s.writes[j]]
            1 <= j < s.writes.len() ==> is_on_time(t, s.writes, j),
    ensures
        is_consistent(t),
{
    let q = s.queues.probation;
    let rest = s.writes.skip(1);
    assert(is_right_write(s, 0));
    assert(s.write_ok(s.writes[0]));
    assert forall|k: u64| #[trigger] t.cache.dom().contains(k) implies s.cache.dom().contains(k)
        && t.cache[k] == s.cache[k] by {}
    assert(t.cache.dom().subset_of(s.cache.dom()));
    vstd::set_lib::lemma_len_subset(t.cache.dom(), s.cache.dom());
    assert forall|i: int| #![trigger t.writes[i]] 0 <= i < t.writes.len() implies is_right_write(t, i) by {
        assert(t.writes[i] == s.writes[i + 1]);
        assert(is_right_write(s, i + 1));
        assert(t.writes.skip(i + 1) =~= s.writes.skip(i + 2));
    }
    match s.writes[0] {
        QueueOp::Insert { key, hash, entry } => {
            lemma_insert_step(s, t, key, entry);
        },
        QueueOp::Update { entry } => {
            assert forall|e: usize| #[trigger] t.queues.probation.contains(e) implies t.in_cache(e)
                || removal_waits(t.writes, e) by {
                assert(q.contains(e));
                lemma_waits_behind(s.writes, e);
            }
            assert forall|k: u64| #[trigger] t.cache.dom().contains(k) implies t.queues.probation.contains(
                t.cache[k],
            ) || insert_waits(t.writes, t.cache[k]) by {
                assert(s.cache.dom().contains(k));
                lemma_waits_behind(s.writes, s.cache[k]);
            }
        },
        QueueOp::Remove { entry } => {
            lemma_unlinked(q, entry);
            assert forall|e: usize| #[trigger] t.queues.probation.contains(e) implies t.in_cache(e)
                || removal_waits(t.writes, e) by {
                assert(q.contains(e) && e != entry);
                lemma_waits_behind(s.writes, e);
            }
            assert forall|k: u64| #[trigger] t.cache.dom().contains(k) implies t.queues.probation.contains(
                t.cache[k],
            ) || insert_waits(t.writes, t.cache[k]) by {
                assert(s.cache.dom().contains(k));
                assert(s.in_cache(s.cache[k]));
                lemma_waits_behind(s.writes, s.cache[k]);
            }
        },
    }
}

proof fn lemma_insert_step<V, S: SketchModel>(
    s: QueueState<V, S>,
    t: QueueState<V, S>,
    key: u64,
    e: usize,
)
    requires
        is_consistent(s),
        is_write_step(s, t),
        is_insert_step(s, t, key, e),
        s.writes[0] is Insert,
        s.writes[0]->Insert_entry == e,
        s.info(e).key_hash.key == key,
        !s.queues.probation.contains(e),
        s.in_cache(e) || removal_waits(s.writes.skip(1), e),
        forall|j: int|
            #![trigger s.writes[j]]
            1 <= j < s.writes.len() ==> is_on_time(t, s.writes, j),
    ensures
        forall|x: usize| #[trigger]
            t.queues.probation.contains(x) ==> t.in_cache(x) || removal_waits(t.writes, x),
        forall|k: u64| #[trigger]
            t.cache.dom().contains(k) ==> t.queues.probation.contains(t.cache[k]) || insert_waits(
                t.writes,
                t.cache[k],
            ),
        t.queues.probation.len() <= t.max_capacity || t.cache.len() <= t.max_capacity,
{
    let q = s.queues.probation;
    let rest = s.writes.skip(1);
    lemma_waits_behind(s.writes, e);
    if s.cache.len() <= s.max_capacity {
        lemma_pushed(q, e);
        assert forall|x: usize| #[trigger] t.queues.probation.contains(x) implies t.in_cache(x)
            || removal_waits(t.writes, x) by {
            if x != e {
                assert(q.contains(x));
                lemma_waits_behind(s.writes, x);
            }
        }
        assert forall|k: u64| #[trigger] t.cache.dom().contains(k) implies t.queues.probation.contains(
            t.cache[k],
        ) || insert_waits(t.writes, t.cache[k]) by {
            assert(s.cache.dom().contains(k));
            lemma_waits_behind(s.writes, s.cache[k]);
        }
    } else if q.len() > 0 && t.queues.probation == unlinked(q, q[0]).push(e) && t.cache == s.cache.remove(
        s.info(q[0]).key_hash.key,
    ) {
        let victim = q[0];
        let vk = s.info(victim).key_hash.key;
        assert(q.contains(victim));
        lemma_unlinked(q, victim);
        lemma_pushed(unlinked(q, victim), e);
        if !s.in_cache(victim) {
            lemma_replaced_is_late(s, t, victim);
        }
        assert forall|x: usize| #[trigger] t.queues.probation.contains(x) implies t.in_cache(x)
            || removal_waits(t.writes, x) by {
            if x != e {
                assert(q.contains(x) && x != victim);
                lemma_waits_behind(s.writes, x);
            }
        }
        assert forall|k: u64| #[trigger] t.cache.dom().contains(k) implies t.queues.probation.contains(
            t.cache[k],
        ) || insert_waits(t.writes, t.cache[k]) by {
            assert(s.cache.dom().contains(k));
            lemma_waits_behind(s.writes, s.cache[k]);
            assert(s.cache[k] != victim);
        }
    } else {
        if !s.in_cache(e) {
            lemma_replaced_is_late(s, t, e);
        }
        assert forall|x: usize| #[trigger] t.queues.probation.contains(x) implies t.in_cache(x)
            || removal_waits(t.writes, x) by {
            assert(q.contains(x) && x != e);
            lemma_waits_behind(s.writes, x);
        }
        assert forall|k: u64| #[trigger] t.cache.dom().contains(k) implies t.queues.probation.contains(
            t.cache[k],
        ) || insert_waits(t.writes, t.cache[k]) by {
            assert(s.cache.dom().contains(k));
            lemma_waits_behind(s.writes, s.cache[k]);
        }
    }
}

/// Where nothing waits, the number of entries is bounded.
pub proof fn lemma_nothing_waits<V, S: SketchModel>(s: QueueState<V, S>)
    requires
        is_consistent(s),
        s.writes.len() == 0,
    ensures
        bounded(s),
{
    assert forall|e: usize| #[trigger] s.queues.probation.contains(e) implies s.in_cache(e) by {
        assert(!removal_waits(s.writes, e));
    }
    assert forall|k: u64| #[trigger] s.cache.dom().contains(k) implies s.queues.probation.contains(
        s.cache[k],
    ) by {
        assert(!insert_waits(s.writes, s.cache[k]));
    }
    lemma_entries_are_queued(s);
}

/// There are no more keys than entries in the queue, where each has its entry there.
pub proof fn lemma_entries_are_queued<V, S: SketchModel>(s: QueueState<V, S>)
    requires
        s.wf(),
        s.cache.dom().finite(),
        forall|k: u64| #[trigger]
            s.cache.dom().contains(k) ==> s.queues.probation.contains(s.cache[k]),
    ensures
        s.cache.len() <= s.queues.probation.len(),
{
    let f = |k: u64| s.cache[k];
    let image = s.cache.dom().map(f);
    assert(vstd::relations::injective_on(f, s.cache.dom())) by {
        assert forall|a: u64, b: u64|
            s.cache.dom().contains(a) && s.cache.dom().contains(b) && #[trigger] f(a) == #[trigger] f(b) implies a
            == b by {
            assert(s.info(s.cache[a]).key_hash.key == a);
            assert(s.info(s.cache[b]).key_hash.key == b);
        }
    }
    vstd::set_lib::lemma_map_size(s.cache.dom(), image, f);
    let members = s.queues.probation.to_set();
    s.queues.probation.unique_seq_to_set();
    assert(image.subset_of(members)) by {
        assert forall|x: usize| image.contains(x) implies members.contains(x) by {
            let k = choose|k: u64| s.cache.dom().contains(k) && f(k) == x;
            assert(s.queues.probation.contains(s.cache[k]));
        }
    }
    vstd::set_lib::lemma_len_subset(image, members);
}

/// Showing a write to the policies keeps a cache well-formed.
proof fn lemma_write_applied_wf<V, S: SketchModel>(s: QueueState<V, S>)
    requires
        s.wf(),
        s.writes.len() > 0,
    ensures
        s.write_applied().wf(),
{
    s.lemma_write_popped_wf();
    let p = QueueState { writes: s.writes.remove(0), ..s };
    match s.writes[0] {
        QueueOp::Insert { key, hash, entry } => {
            if p.cache.len() <= p.max_capacity {
                p.lemma_queued_wf(entry);
            } else if p.queues.probation.len() > 0 && p.sketch.estimate(hash) > p.sketch.estimate(
                p.info(p.queues.probation[0]).key_hash.hash,
            ) {
                let victim = p.queues.probation[0];
                let vk = p.info(victim).key_hash.key;
                let t = p.without_key(vk);
                p.lemma_fewer_wf(t);
                match p.find(vk) {
                    Some(v) => {
                        lemma_unlinked(t.queues.probation, v);
                        lemma_unlinked(t.queues.write_order, v);
                        t.lemma_queue_steps_wf(v);
                        t.unlinked_ao(v).lemma_queue_steps_wf(v);
                        t.unlinked_ao(v).unlinked_wo(v).lemma_queued_wf(entry);
                    },
                    None => {
                        lemma_unlinked(p.queues.probation, victim);
                        p.lemma_queue_steps_wf(victim);
                        p.unlinked_ao(victim).lemma_queued_wf(entry);
                    },
                }
            } else {
                p.lemma_fewer_wf(p.without_key(key));
            }
        },
        QueueOp::Update { entry } => {
            p.lemma_queue_steps_wf(entry);
            p.to_back_ao(entry).lemma_queue_steps_wf(entry);
        },
        QueueOp::Remove { entry } => {
            p.lemma_queue_steps_wf(entry);
            p.unlinked_ao(entry).lemma_queue_steps_wf(entry);
        },
    }
}

/// The policies of the cache do as they may with a write.
proof fn lemma_write_applied<V, S: SketchModel>(s: QueueState<V, S>)
    requires
        is_consistent(s),
        s.writes.len() > 0,
        forall|j: int|
            #![trigger s.writes[j]]
            1 <= j < s.writes.len() ==> is_on_time(s.write_applied(), s.writes, j),
    ensures
        is_write_step(s, s.write_applied()),
{
    let t = s.write_applied();
    let q = s.queues.probation;
    lemma_write_applied_wf(s);
    assert(s.writes.remove(0) =~= s.writes.skip(1));
    match s.writes[0] {
        QueueOp::Insert { key, hash, entry } => {
            if s.cache.len() > s.max_capacity && q.len() > 0 && s.sketch.estimate(hash)
                > s.sketch.estimate(s.info(q[0]).key_hash.hash) {
                let victim = q[0];
                let vk = s.info(victim).key_hash.key;
                assert(q.contains(victim));
                match s.find(vk) {
                    Some(v) => {
                        if v != victim {
                            lemma_replaced_is_late(s, t, victim);
                        }
                    },
                    None => {
                        assert(s.cache.remove(vk) =~= s.cache);
                    },
                }
            }
        },
        QueueOp::Update { entry } => {
            lemma_moved_back(q, entry);
        },
        QueueOp::Remove { entry } => {},
    }
}

/// None of the waiting writes comes too late when its turn comes: an entry that was put under a key is
/// still there, or its removal waits.
pub open spec fn none_late<V, S: SketchModel>(s: QueueState<V, S>) -> bool {
    let s1 = s.reads_applied(s.reads.len());
    forall|j: int|
        #![trigger s.writes[j]]
        0 <= j < s.writes.len() ==> is_on_time(s1.writes_applied(j as nat), s.writes, j)
}

/// What is on time later is on time now.
proof fn lemma_on_time<V, S: SketchModel>(
    s: QueueState<V, S>,
    t: QueueState<V, S>,
    writes: Seq<QueueOp>,
    j: int,
)
    requires
        steps(s, t),
        is_on_time(t, writes, j),
    ensures
        is_on_time(s, writes, j),
{
    match writes[j] {
        QueueOp::Insert { key, hash, entry } => {
            if t.in_cache(entry) {
                assert(t.cache.dom().contains(t.info(entry).key_hash.key));
            }
        },
        _ => {},
    }
}

proof fn lemma_writes<V, S: SketchModel>(s: QueueState<V, S>)
    requires
        is_consistent(s),
        forall|j: int|
            #![trigger s.writes[j]]
            0 <= j < s.writes.len() ==> is_on_time(s.writes_applied(j as nat), s.writes, j),
    ensures
        is_consistent(s.writes_applied(s.writes.len())),
        s.writes_applied(s.writes.len()).writes.len() == 0,
        s.writes_applied(s.writes.len()).max_capacity == s.max_capacity,
    decreases s.writes.len(),
{
    if s.writes.len() > 0 {
        let t = s.write_applied();
        assert(s.writes.remove(0) =~= s.writes.skip(1));
        assert forall|j: int| #![trigger s.writes[j]] 1 <= j < s.writes.len() implies is_on_time(
            t,
            s.writes,
            j,
        ) by {
            let m = (j - 1) as nat;
            assert(s.writes_applied(j as nat) == t.writes_applied(m));
            lemma_writes_step(t, m);
            lemma_on_time(t, t.writes_applied(m), s.writes, j);
        }
        assert(s.writes_applied(0) == s);
        assert(is_on_time(s.writes_applied(0), s.writes, 0));
        lemma_write_applied(s);
        lemma_write_step(s, t);
        assert forall|j: int| #![trigger t.writes[j]] 0 <= j < t.writes.len() implies is_on_time(
            t.writes_applied(j as nat),
            t.writes,
            j,
        ) by {
            assert(t.writes[j] == s.writes[j + 1]);
            assert(s.writes_applied((j + 1) as nat) == t.writes_applied(j as nat));
            assert(is_on_time(s.writes_applied((j + 1) as nat), s.writes, j + 1));
            assert(t.writes.skip(j + 1) =~= s.writes.skip(j + 2));
        }
        lemma_writes(t);
    }
}

/// The reads change the order of the queue and nothing else that matters here.
pub proof fn lemma_reads<V, S: SketchModel>(s: QueueState<V, S>, n: nat)
    requires
        is_consistent(s),
    ensures
        is_consistent(s.reads_applied(n)),
        s.reads_applied(n).cache == s.cache,
        s.reads_applied(n).entries == s.entries,
        s.reads_applied(n).writes == s.writes,
        s.reads_applied(n).max_capacity == s.max_capacity,
        forall|e: usize| #[trigger]
            s.reads_applied(n).queues.probation.contains(e) <==> s.queues.probation.contains(e),
    decreases n,
{
    if n > 0 && s.reads.len() > 0 {
        let hash = match s.reads[0] {
            ReadOp::Hit { hash, entry } => hash,
            ReadOp::Miss(hash) => hash,
        };
        s.lemma_read_popped_wf();
        let popped = QueueState { reads: s.reads.remove(0), ..s };
        let counted = QueueState { sketch: s.sketch.counted(hash), ..popped };
        popped.lemma_fewer_wf(counted);
        let t = s.read_applied();
        match s.reads[0] {
            ReadOp::Hit { hash, entry } => {
                counted.lemma_queue_steps_wf(entry);
                lemma_moved_back(s.queues.probation, entry);
            },
            ReadOp::Miss(hash) => {},
        }
        lemma_requeued(s, t);
        lemma_reads(t, (n - 1) as nat);
    }
}

/// Another order of the queue does not matter.
proof fn lemma_requeued<V, S: SketchModel>(s: QueueState<V, S>, t: QueueState<V, S>)
    requires
        is_consistent(s),
        t.wf(),
        t.cache == s.cache,
        t.entries == s.entries,
        t.writes == s.writes,
        t.max_capacity == s.max_capacity,
        t.queues.probation.len() == s.queues.probation.len(),
        forall|e: usize| #[trigger]
            t.queues.probation.contains(e) <==> s.queues.probation.contains(e),
    ensures
        is_consistent(t),
{
    assert forall|e: usize| #[trigger] t.queues.probation.contains(e) implies t.in_cache(e)
        || removal_waits(t.writes, e) by {
        assert(s.queues.probation.contains(e));
    }
    assert forall|i: int| #![trigger t.writes[i]] 0 <= i < t.writes.len() implies is_right_write(t, i) by {
        assert(is_right_write(s, i));
    }
}

/// A key and its entry are removed.
proof fn lemma_removed<V, S: SketchModel>(s: QueueState<V, S>, key: u64, e: usize)
    requires
        bounded(s),
        s.find(key) == Some(e),
    ensures
        bounded(s.without_key(key).unlinked_ao(e).unlinked_wo(e)),
{
    let t = s.without_key(key).unlinked_ao(e).unlinked_wo(e);
    lemma_unlinked(s.queues.probation, e);
    lemma_unlinked(s.queues.write_order, e);
    s.lemma_fewer_wf(t);
    assert(s.cache.dom().contains(key));
    assert(t.cache.dom() =~= s.cache.dom().remove(key));
    assert forall|x: usize| #[trigger] t.queues.probation.contains(x) implies t.in_cache(x) by {
        assert(s.queues.probation.contains(x));
        assert(s.in_cache(x));
        assert(s.info(x).key_hash.key != key);
    }
    assert forall|k: u64| #[trigger] t.cache.dom().contains(k) implies t.queues.probation.contains(t.cache[k]) by {
        assert(s.cache.dom().contains(k));
        assert(s.info(s.cache[k]).key_hash.key == k);
    }
}

proof fn lemma_front_removed<V, S: SketchModel>(s: QueueState<V, S>)
    requires
        bounded(s),
    ensures
        s.queues.probation.len() > 0 ==> bounded(s.front_removed_ao()),
        s.queues.write_order.len() > 0 ==> bounded(s.front_removed_wo()),
{
    if s.queues.probation.len() > 0 {
        let front = s.queues.probation[0];
        assert(s.queues.probation.contains(front));
        assert(s.in_cache(front));
        lemma_removed(s, s.info(front).key_hash.key, front);
    }
    if s.queues.write_order.len() > 0 {
        let front = s.queues.write_order[0];
        let key = s.info(front).key_hash.key;
        match s.find(key) {
            Some(e) => {
                lemma_removed(s, key, e);
            },
            None => {
                s.lemma_queue_steps_wf(front);
                let t = s.unlinked_wo(front);
                assert forall|x: usize| #[trigger] t.queues.probation.contains(x) implies t.in_cache(x) by {
                    assert(s.in_cache(x));
                }
            },
        }
    }
}

proof fn lemma_expired_ao<V, S: SketchModel>(s: QueueState<V, S>, n: nat, now: Instant)
    requires
        bounded(s),
    ensures
        bounded(s.expired_ao_removed(n, now)),
        s.expired_ao_removed(n, now).max_capacity == s.max_capacity,
    decreases n,
{
    if n == 0 || s.queues.probation.len() == 0 || !s.expired_ao(s.queues.probation[0], now) {
    } else {
        lemma_front_removed(s);
        lemma_expired_ao(s.front_removed_ao(), (n - 1) as nat, now);
    }
}

proof fn lemma_expired_wo<V, S: SketchModel>(s: QueueState<V, S>, n: nat, now: Instant)
    requires
        bounded(s),
    ensures
        bounded(s.expired_wo_removed(n, now)),
        s.expired_wo_removed(n, now).max_capacity == s.max_capacity,
    decreases n,
{
    if n == 0 || s.queues.write_order.len() == 0 || !s.expired_wo(s.queues.write_order[0], now) {
    } else {
        lemma_front_removed(s);
        lemma_expired_wo(s.front_removed_wo(), (n - 1) as nat, now);
    }
}

/// Forgetting entries that are nowhere does not matter.
pub proof fn lemma_collected<V, S: SketchModel>(s: QueueState<V, S>)
    requires
        bounded(s),
        s.reads.len() == 0,
        s.writes.len() == 0,
    ensures
        bounded(s.collected()),
{
    s.lemma_collected_wf();
    let t = s.collected();
    assert forall|x: usize| #[trigger] t.queues.probation.contains(x) implies t.in_cache(x) by {
        assert(s.in_cache(x));
    }
}

/// A cache with no more entries than it may have, for which nothing waits, is accounted for.
pub proof fn bounded_cache_is_accounted<V, S: SketchModel>(s: QueueState<V, S>)
    requires
        bounded(s),
        s.writes.len() == 0,
    ensures
        accounted(s),
{
    let q = s.queues.probation;
    let f = |e: usize| s.info(e).key_hash.key;
    q.unique_seq_to_set();
    let image = q.to_set().map(f);
    assert(vstd::relations::injective_on(f, q.to_set())) by {
        assert forall|a: usize, b: usize|
            q.to_set().contains(a) && q.to_set().contains(b) && #[trigger] f(a) == #[trigger] f(b) implies a == b by {
            assert(q.contains(a) && q.contains(b));
            assert(s.in_cache(a) && s.in_cache(b));
        }
    }
    vstd::set_lib::lemma_map_size(q.to_set(), image, f);
    assert(image.subset_of(s.cache.dom())) by {
        assert forall|k: u64| image.contains(k) implies s.cache.dom().contains(k) by {
            let e = choose|e: usize| q.to_set().contains(e) && f(e) == k;
            assert(q.contains(e));
            assert(s.in_cache(e));
        }
    }
    vstd::set_lib::lemma_len_subset(image, s.cache.dom());
}

/// Whatever waits, and however much of it, housekeeping leaves a cache with no more entries than it may
/// have, if none of the writes comes too late.
pub proof fn batch_keeps_bound<V, S: SketchModel>(s: QueueState<V, S>, now: Instant)
    requires
        accounted(s),
        none_late(s),
    ensures
        bounded(s.synced(now)),
        s.synced(now).cache.len() <= s.max_capacity,
        s.synced(now).writes.len() == 0,
{
    reveal(QueueState::synced);
    if s.reads.len() == 0 && s.writes.len() == 0 && !s.has_expiry() {
        lemma_nothing_waits(s);
    } else {
        let n = EVICTION_BATCH_SIZE as nat;
        lemma_reads(s, s.reads.len());
        let s1 = s.reads_applied(s.reads.len());
        lemma_writes(s1);
        let s2 = s1.writes_applied(s1.writes.len());
        lemma_nothing_waits(s2);
        s.lemma_logs_applied(now);
        lemma_expired_wo(s2, n, now);
        let s3 = if s2.time_to_live is Some {
            s2.expired_wo_removed(n, now)
        } else {
            s2
        };
        lemma_expired_ao(s3, n, now);
        lemma_collected(s.logs_applied(now));
    }
}

/// Only new entries wait, and each is under its key.
pub open spec fn only_new_entries_wait<V, S: SketchModel>(s: QueueState<V, S>) -> bool {
    forall|i: int|
        0 <= i < s.writes.len() ==> (#[trigger] s.writes[i]) is Insert && s.in_cache(
            s.writes[i]->Insert_entry,
        )
}

/// What new entries do to each other: no key is taken out but that of the entry at the front of the
/// queue, or that of the new entry itself.
pub proof fn lemma_new_entries_stay<V, S: SketchModel>(s: QueueState<V, S>, t: QueueState<V, S>)
    requires
        is_consistent(s),
        only_new_entries_wait(s),
        is_write_step(s, t),
    ensures
        only_new_entries_wait(t),
        forall|j: int|
            #![trigger s.writes[j]]
            1 <= j < s.writes.len() ==> is_on_time(t, s.writes, j),
{
    let q = s.queues.probation;
    let first = s.writes[0]->Insert_entry;
    let key = s.writes[0]->Insert_key;
    assert(s.writes[0] is Insert);
    assert(is_right_write(s, 0));
    assert forall|j: int| #![trigger s.writes[j]] 1 <= j < s.writes.len() implies t.in_cache(
        s.writes[j]->Insert_entry,
    ) && s.writes[j] is Insert by {
        let e = s.writes[j]->Insert_entry;
        assert(s.writes[j] is Insert && s.in_cache(e));
        assert(s.write_ok(s.writes[j]));
        assert(s.writes[0]->Insert_entry != e);
        if q.len() > 0 {
            let victim = q[0];
            assert(q.contains(victim));
            assert(!removal_waits(s.writes, victim)) by {
                if removal_waits(s.writes, victim) {
                    let i = choose|i: int|
                        0 <= i < s.writes.len() && #[trigger] s.writes[i] == (QueueOp::Remove { entry: victim });
                    assert(s.writes[i] is Insert);
                }
            }
            assert(s.in_cache(victim));
        }
    }
    assert forall|i: int| 0 <= i < t.writes.len() implies (#[trigger] t.writes[i]) is Insert && t.in_cache(
        t.writes[i]->Insert_entry,
    ) by {
        assert(t.writes[i] == s.writes[i + 1]);
    }
}

proof fn lemma_new_on_time<V, S: SketchModel>(s: QueueState<V, S>)
    requires
        is_consistent(s),
        only_new_entries_wait(s),
    ensures
        forall|j: int|
            #![trigger s.writes[j]]
            0 <= j < s.writes.len() ==> is_on_time(s.writes_applied(j as nat), s.writes, j),
    decreases s.writes.len(),
{
    if s.writes.len() > 0 {
        let t = s.write_applied();
        lemma_new_write_applied(s);
        lemma_new_entries_stay(s, t);
        assert(s.writes[0] is Insert && s.in_cache(s.writes[0]->Insert_entry));
        lemma_write_step(s, t);
        lemma_new_on_time(t);
        assert forall|j: int| #![trigger s.writes[j]] 0 <= j < s.writes.len() implies is_on_time(
            s.writes_applied(j as nat),
            s.writes,
            j,
        ) by {
            if j == 0 {
                assert(s.writes_applied(0) == s);
            } else {
                let m = (j - 1) as nat;
                assert(t.writes[j - 1] == s.writes[j]);
                assert(s.writes_applied(j as nat) == t.writes_applied(m));
                assert(is_on_time(t.writes_applied(m), t.writes, j - 1));
                assert(t.writes.skip(j) =~= s.writes.skip(j + 1));
            }
        }
    }
}

/// Where only new entries wait, the policies do as they may with the first of them.
proof fn lemma_new_write_applied<V, S: SketchModel>(s: QueueState<V, S>)
    requires
        is_consistent(s),
        only_new_entries_wait(s),
        s.writes.len() > 0,
    ensures
        is_write_step(s, s.write_applied()),
{
    let q = s.queues.probation;
    lemma_write_applied_wf(s);
    assert(s.writes.remove(0) =~= s.writes.skip(1));
    assert(s.writes[0] is Insert);
    if q.len() > 0 {
        let victim = q[0];
        assert(q.contains(victim));
        assert(!removal_waits(s.writes, victim)) by {
            if removal_waits(s.writes, victim) {
                let i = choose|i: int|
                    0 <= i < s.writes.len() && #[trigger] s.writes[i] == (QueueOp::Remove { entry: victim });
                assert(s.writes[i] is Insert);
            }
        }
        assert(s.in_cache(victim));
    }
}

/// However many new entries wait, housekeeping leaves a cache with no more entries than it may have.
pub proof fn new_entries_keep_bound<V, S: SketchModel>(s: QueueState<V, S>, now: Instant)
    requires
        accounted(s),
        only_new_entries_wait(s),
    ensures
        bounded(s.synced(now)),
        s.synced(now).cache.len() <= s.max_capacity,
        s.synced(now).writes.len() == 0,
{
    lemma_reads(s, s.reads.len());
    let s1 = s.reads_applied(s.reads.len());
    assert forall|i: int| 0 <= i < s1.writes.len() implies (#[trigger] s1.writes[i]) is Insert && s1.in_cache(
        s1.writes[i]->Insert_entry,
    ) by {
        assert(s.writes[i] is Insert);
    }
    lemma_new_on_time(s1);
    assert forall|j: int| #![trigger s.writes[j]] 0 <= j < s.writes.len() implies is_on_time(
        s1.writes_applied(j as nat),
        s.writes,
        j,
    ) by {
        assert(s1.writes[j] == s.writes[j]);
    }
    batch_keeps_bound(s, now);
}

/// However many updates and removals wait, so does housekeeping.
pub proof fn updates_keep_bound<V, S: SketchModel>(s: QueueState<V, S>, now: Instant)
    requires
        accounted(s),
        forall|i: int| 0 <= i < s.writes.len() ==> !((#[trigger] s.writes[i]) is Insert),
    ensures
        bounded(s.synced(now)),
        s.synced(now).cache.len() <= s.max_capacity,
        s.synced(now).writes.len() == 0,
{
    batch_keeps_bound(s, now);
}

/// A new cache has no more entries than it may have.
pub proof fn new_cache_is_bounded<V, S: SketchModel>(s: QueueState<V, S>)
    requires
        s.wf(),
        s.entries.dom() == Set::<usize>::empty(),
    ensures
        bounded(s),
{
    assert forall|k: u64| !(#[trigger] s.cache.dom().contains(k)) by {
        if s.cache.dom().contains(k) {
            assert(s.entries.dom().contains(s.cache[k]));
        }
    }
    assert(s.cache.dom() =~= Set::<u64>::empty());
    assert forall|e: usize| #[trigger] s.queues.probation.contains(e) implies s.in_cache(e) by {
        assert(s.entries.dom().contains(e));
    }
}

/// What waits, waits when more waits.
proof fn lemma_waits_with_more(writes: Seq<QueueOp>, op: QueueOp, e: usize)
    ensures
        insert_waits(writes, e) ==> insert_waits(writes.push(op), e),
        removal_waits(writes, e) ==> removal_waits(writes.push(op), e),
        op is Insert && op->Insert_entry == e ==> insert_waits(writes.push(op), e),
        op == (QueueOp::Remove { entry: e }) ==> removal_waits(writes.push(op), e),
{
    let more = writes.push(op);
    if insert_waits(writes, e) {
        let i = choose|i: int|
            0 <= i < writes.len() && (#[trigger] writes[i]) is Insert && writes[i]->Insert_entry == e;
        assert(more[i] == writes[i]);
    }
    if removal_waits(writes, e) {
        let i = choose|i: int| 0 <= i < writes.len() && #[trigger] writes[i] == (QueueOp::Remove { entry: e });
        assert(more[i] == writes[i]);
    }
    assert(more[writes.len() as int] == op);
}

/// A write keeps the account.
pub proof fn write_keeps_account<V, S: SketchModel>(
    s: QueueState<V, S>,
    after: QueueState<V, S>,
    key: u64,
    hash: u64,
    value: V,
    time: Option<Instant>,
)
    requires
        accounted(s),
        s.put(after, key, hash, value, time),
    ensures
        accounted(after),
{
    let op = after.writes.last();
    assert(after.writes == s.writes.push(op));
    match s.find(key) {
        Some(e) => {
            let t = s.replaced(e, value, time);
            assert(s.cache.dom().contains(key));
            s.lemma_fewer_wf(t);
            t.lemma_write_logged_wf(op);
        },
        None => {
            let e = op->Insert_entry;
            s.lemma_inserted_wf(e, after.entries[e]);
            s.inserted(e, after.entries[e]).lemma_write_logged_wf(op);
            assert(after.cache.dom() =~= s.cache.dom().insert(key));
        },
    }
    assert forall|x: usize| s.entries.dom().contains(x) implies #[trigger] after.info(x).key_hash == s.info(
        x,
    ).key_hash by {}
    assert forall|x: usize| #[trigger] after.queues.probation.contains(x) implies after.in_cache(x)
        || removal_waits(after.writes, x) by {
        assert(s.queues.probation.contains(x));
        assert(s.entries.dom().contains(x));
        assert(after.info(x).key_hash == s.info(x).key_hash);
        lemma_waits_with_more(s.writes, op, x);
    }
    assert forall|k: u64| #[trigger] after.cache.dom().contains(k) implies after.queues.probation.contains(
        after.cache[k],
    ) || insert_waits(after.writes, after.cache[k]) by {
        lemma_waits_with_more(s.writes, op, after.cache[k]);
        if s.cache.dom().contains(k) {
            assert(after.cache[k] == s.cache[k]);
        }
    }
    assert forall|i: int| #![trigger after.writes[i]] 0 <= i < after.writes.len() implies is_right_write(after, i) by {
        if i < s.writes.len() {
            assert(after.writes[i] == s.writes[i]);
            assert(is_right_write(s, i));
            assert(s.write_ok(s.writes[i]));
            assert(after.writes.skip(i + 1) =~= s.writes.skip(i + 1).push(op));
            match s.writes[i] {
                QueueOp::Remove { entry } => {
                    let k = s.info(entry).key_hash.key;
                    assert(after.info(entry).key_hash == s.info(entry).key_hash);
                    if after.find(k) is Some {
                        lemma_waits_with_more(s.writes.skip(i + 1), op, after.cache[k]);
                    }
                },
                QueueOp::Insert { key, hash, entry } => {
                    assert(after.info(entry).key_hash == s.info(entry).key_hash);
                },
                _ => {},
            }
        }
    }
}

/// A removal keeps the account.
pub proof fn removal_keeps_account<V, S: SketchModel>(s: QueueState<V, S>, key: u64)
    requires
        accounted(s),
    ensures
        accounted(s.taken(key)),
{
    if s.find(key) is Some {
        let e = s.cache[key];
        let op = QueueOp::Remove { entry: e };
        let after = s.taken(key);
        assert(s.cache.dom().contains(key));
        s.lemma_fewer_wf(s.without_key(key));
        s.without_key(key).lemma_write_logged_wf(op);
        assert(after.cache.dom() =~= s.cache.dom().remove(key));
        assert forall|x: usize| #[trigger] after.queues.probation.contains(x) implies after.in_cache(x)
            || removal_waits(after.writes, x) by {
            assert(s.queues.probation.contains(x));
            lemma_waits_with_more(s.writes, op, x);
        }
        assert forall|k: u64| #[trigger] after.cache.dom().contains(k) implies after.queues.probation.contains(
            after.cache[k],
        ) || insert_waits(after.writes, after.cache[k]) by {
            assert(s.cache.dom().contains(k));
            lemma_waits_with_more(s.writes, op, s.cache[k]);
        }
        assert forall|i: int| #![trigger after.writes[i]] 0 <= i < after.writes.len() implies is_right_write(
            after,
            i,
        ) by {
            if i < s.writes.len() {
                assert(after.writes[i] == s.writes[i]);
                assert(is_right_write(s, i));
                assert(after.writes.skip(i + 1) =~= s.writes.skip(i + 1).push(op));
                match s.writes[i] {
                    QueueOp::Remove { entry } => {
                        let k = s.info(entry).key_hash.key;
                        if after.find(k) is Some {
                            lemma_waits_with_more(s.writes.skip(i + 1), op, s.cache[k]);
                        }
                    },
                    _ => {},
                }
            }
        }
    }
}

/// A read that is logged keeps the account.
pub proof fn logged_read_keeps_account<V, S: SketchModel>(s: QueueState<V, S>, op: ReadOp)
    requires
        accounted(s),
        s.read_ok(op),
    ensures
        accounted(s.read_logged(op)),
{
    if s.reads.len() < s.read_log_size {
        s.lemma_read_logged_wf(op);
        lemma_requeued(s, s.read_logged(op));
    }
}

/// A read keeps the account.
pub proof fn read_keeps_account<V, S: SketchModel>(
    s: QueueState<V, S>,
    key: u64,
    hash: u64,
    now: Instant,
)
    requires
        accounted(s),
    ensures
        accounted(s.read_at(key, hash, now)),
{
    let op = s.read_op(key, hash, now);
    let t = if s.lookup(key, now) is Some {
        let t = s.accessed(s.cache[key], s.time_at(now));
        assert(s.cache.dom().contains(key));
        assert(s.entries.dom().contains(s.cache[key]));
        s.lemma_fewer_wf(t);
        t
    } else {
        s
    };
    let u = s.read_at(key, hash, now);
    if t.reads.len() < t.read_log_size {
        t.lemma_read_logged_wf(op);
    }
    assert forall|x: usize| #[trigger] u.queues.probation.contains(x) implies u.in_cache(x) || removal_waits(
        u.writes,
        x,
    ) by {
        assert(s.queues.probation.contains(x));
    }
    assert forall|i: int| #![trigger u.writes[i]] 0 <= i < u.writes.len() implies is_right_write(u, i) by {
        assert(is_right_write(s, i));
    }
}

} // verus!
