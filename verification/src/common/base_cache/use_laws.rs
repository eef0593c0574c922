//! What a user of a cache that counts its entries sees, told by times, numbers and orders alone.
use vstd::prelude::*;

use super::state::QueueState;
use crate::common::concurrent::deques::{lemma_moved, lemma_unlinked, with_last};
use crate::common::estimator::SketchModel;
use crate::common::op_log::{QueueOp, ReadOp};
use crate::common::time::{duration_nanos, Instant};

verus! {

/// An entry is read exactly in its time: not yet as long after its last write as the time-to-live, nor as
/// long after its last use as the time-to-idle.
pub proof fn entry_is_read_exactly_in_its_time<V, S: SketchModel>(
    s: QueueState<V, S>,
    key: u64,
    now: Instant,
)
    requires
        now.nanos < u64::MAX,
    ensures
        ({
            let e = s.cache[key];
            let written = s.entries[e].info.last_modified@;
            let used = s.entries[e].info.last_accessed@;
            let lives = s.time_to_live is Some && written is Some ==> now.nanos - written->0.nanos
                < duration_nanos(s.time_to_live->0);
            let is_used = s.time_to_idle is Some && used is Some ==> now.nanos - used->0.nanos
                < duration_nanos(s.time_to_idle->0);
            s.lookup(key, now) == if s.cache.dom().contains(key) && lives && is_used {
                Some(s.entries[e].value)
            } else {
                None
            }
        }),
{
}

/// A write gives the key the value and, where entries expire, the time, and leaves every other key as it
/// was; it waits behind all the other writes.
pub proof fn write_is_seen_at_once<V, S: SketchModel>(
    s: QueueState<V, S>,
    after: QueueState<V, S>,
    key: u64,
    hash: u64,
    value: V,
    now: Instant,
    other: u64,
)
    requires
        s.wf(),
        s.put(after, key, hash, value, s.time_at(now)),
        now.nanos < u64::MAX,
        other != key,
    ensures
        after.cache.dom().contains(key),
        ({
            let entry = after.entries[after.cache[key]];
            let expire = s.time_to_live is Some || s.time_to_idle is Some;
            &&& entry.value == value
            &&& entry.info.key_hash.key == key
            &&& expire ==> entry.info.last_modified@ == Some(now) && entry.info.last_accessed@ == Some(now)
        }),
        after.cache.dom().contains(other) <==> s.cache.dom().contains(other),
        s.cache.dom().contains(other) ==> after.cache[other] == s.cache[other]
            && after.entries[after.cache[other]] == s.entries[s.cache[other]],
        after.writes.len() == s.writes.len() + 1,
        after.writes.drop_last() == s.writes,
        s.cache.dom().contains(key) ==> after.cache[key] == s.cache[key] && after.writes.last() is Update
            && after.writes.last()->Update_entry == s.cache[key],
        !s.cache.dom().contains(key) ==> after.writes.last() is Insert && after.writes.last()->Insert_entry
            == after.cache[key] && after.writes.last()->key == key && after.writes.last()->hash == hash,
        after.queues == s.queues,
        after.sketch == s.sketch,
        after.reads == s.reads,
{
    assert(s.cache.dom().contains(other) ==> s.entries.dom().contains(s.cache[other]));
    assert(s.cache.dom().contains(key) ==> s.entries.dom().contains(s.cache[key]));
    if s.cache.dom().contains(other) {
        assert(s.info(s.cache[other]).key_hash.key == other);
    }
    if s.cache.dom().contains(key) {
        assert(s.info(s.cache[key]).key_hash.key == key);
    }
    assert(after.writes.drop_last() =~= s.writes);
}

/// A removal takes the key out and leaves every other key as it was; it waits behind all the writes.
pub proof fn removal_is_seen_at_once<V, S: SketchModel>(s: QueueState<V, S>, key: u64, other: u64)
    requires
        other != key,
    ensures
        ({
            let after = s.taken(key);
            &&& !after.cache.dom().contains(key)
            &&& after.cache.dom().contains(other) <==> s.cache.dom().contains(other)
            &&& s.cache.dom().contains(other) ==> after.cache[other] == s.cache[other]
            &&& after.entries == s.entries
            &&& after.queues == s.queues
            &&& s.cache.dom().contains(key) ==> after.writes.drop_last() == s.writes
                && after.writes.last() is Remove && after.writes.last()->Remove_entry == s.cache[key]
            &&& !s.cache.dom().contains(key) ==> after.writes == s.writes
        }),
{
    let after = s.taken(key);
    if s.cache.dom().contains(key) {
        assert(after.writes.drop_last() =~= s.writes);
    }
}

/// A read that finds a value makes its entry used now, where entries expire, and changes no value and no
/// time of writing. It is logged, with the hash of the key, as long as the log takes more. A read that
/// finds none is logged too, and changes nothing else.
pub proof fn read_is_noted<V, S: SketchModel>(
    s: QueueState<V, S>,
    key: u64,
    hash: u64,
    now: Instant,
    x: usize,
)
    requires
        now.nanos < u64::MAX,
    ensures
        ({
            let after = s.read_at(key, hash, now);
            let found = s.lookup(key, now) is Some;
            let expire = s.time_to_live is Some || s.time_to_idle is Some;
            &&& after.cache == s.cache
            &&& after.queues == s.queues
            &&& after.writes == s.writes
            &&& after.sketch == s.sketch
            &&& after.entries[x].value == s.entries[x].value
            &&& after.entries[x].info.last_modified == s.entries[x].info.last_modified
            &&& found && expire && x == s.cache[key] ==> after.entries[x].info.last_accessed@ == Some(now)
            &&& !(found && expire && x == s.cache[key]) ==> after.entries[x] == s.entries[x]
            &&& s.reads.len() >= s.read_log_size ==> after.reads == s.reads
            &&& s.reads.len() < s.read_log_size ==> after.reads.drop_last() == s.reads
                && match after.reads.last() {
                ReadOp::Hit { hash: h, entry } => found && h == hash && entry == s.cache[key],
                ReadOp::Miss(h) => !found && h == hash,
            }
        }),
{
    let after = s.read_at(key, hash, now);
    if s.reads.len() < s.read_log_size {
        assert(after.reads.drop_last() =~= s.reads);
    }
}

/// The policies count every read, whether it found a value or not. One that did makes its entry the last
/// of the queue, and the others keep their order; one that did not changes no order.
pub proof fn read_is_shown_to_the_policies<V, S: SketchModel>(s: QueueState<V, S>, i: int)
    requires
        s.wf(),
        s.reads.len() > 0,
    ensures
        ({
            let after = s.read_applied();
            let q = s.queues.probation;
            &&& after.reads == s.reads.skip(1)
            &&& after.cache == s.cache
            &&& after.entries == s.entries
            &&& after.writes == s.writes
            &&& after.queues.write_order == s.queues.write_order
            &&& match s.reads[0] {
                ReadOp::Hit { hash, entry } => {
                    &&& after.sketch == s.sketch.counted(hash)
                    &&& 0 <= i < q.len() && q[i] == entry ==> after.queues.probation == with_last(q, i)
                    &&& !q.contains(entry) ==> after.queues.probation == q
                },
                ReadOp::Miss(hash) => after.sketch == s.sketch.counted(hash) && after.queues.probation == q,
            }
        }),
{
    let q = s.queues.probation;
    assert(s.reads.remove(0) =~= s.reads.skip(1));
    if 0 <= i < q.len() {
        lemma_moved(q, i);
    }
}

/// The policies are shown an update: its entry becomes the last of the queue, and of the order of
/// writing, and the others keep their order.
pub proof fn updated_entry_goes_last<V, S: SketchModel>(s: QueueState<V, S>, i: int, j: int)
    requires
        s.wf(),
        s.writes.len() > 0,
        s.writes[0] is Update,
    ensures
        ({
            let e = s.writes[0]->Update_entry;
            let after = s.write_applied();
            let q = s.queues.probation;
            let w = s.queues.write_order;
            &&& 0 <= i < q.len() && q[i] == e ==> after.queues.probation == with_last(q, i)
            &&& 0 <= j < w.len() && w[j] == e ==> after.queues.write_order == with_last(w, j)
            &&& !q.contains(e) ==> after.queues.probation == q
            &&& !w.contains(e) ==> after.queues.write_order == w
            &&& after.cache == s.cache
            &&& after.entries == s.entries
            &&& after.sketch == s.sketch
            &&& after.writes == s.writes.skip(1)
        }),
{
    assert(s.writes.remove(0) =~= s.writes.skip(1));
    if 0 <= i < s.queues.probation.len() {
        lemma_moved(s.queues.probation, i);
    }
    if 0 <= j < s.queues.write_order.len() {
        lemma_moved(s.queues.write_order, j);
    }
}

/// The policies are shown a removal: its entry is taken out of the queues, and the others keep their
/// order.
pub proof fn removed_entry_is_let_out<V, S: SketchModel>(s: QueueState<V, S>, i: int, j: int)
    requires
        s.wf(),
        s.writes.len() > 0,
        s.writes[0] is Remove,
    ensures
        ({
            let e = s.writes[0]->Remove_entry;
            let after = s.write_applied();
            let q = s.queues.probation;
            let w = s.queues.write_order;
            &&& 0 <= i < q.len() && q[i] == e ==> after.queues.probation == q.take(i) + q.skip(i + 1)
            &&& 0 <= j < w.len() && w[j] == e ==> after.queues.write_order == w.take(j) + w.skip(j + 1)
            &&& !q.contains(e) ==> after.queues.probation == q
            &&& !w.contains(e) ==> after.queues.write_order == w
            &&& after.cache == s.cache
            &&& after.entries == s.entries
            &&& after.sketch == s.sketch
            &&& after.writes == s.writes.skip(1)
        }),
{
    assert(s.writes.remove(0) =~= s.writes.skip(1));
    if 0 <= i < s.queues.probation.len() {
        lemma_moved(s.queues.probation, i);
    }
    if 0 <= j < s.queues.write_order.len() {
        lemma_moved(s.queues.write_order, j);
    }
}

/// The policies are shown a new entry: while there are no more keys than there may be, it becomes the
/// last of the queue, and nothing goes. Else it takes the place of the first of the queue, if its key
/// was seen more often than the key of that one; if not, its own key goes.
pub proof fn new_entry_takes_a_place<V, S: SketchModel>(s: QueueState<V, S>, other: u64)
    requires
        s.wf(),
        s.writes.len() > 0,
        s.writes[0] is Insert,
        s.queues.probation.len() > 0 ==> s.in_cache(s.queues.probation[0]),
    ensures
        ({
            let e = s.writes[0]->Insert_entry;
            let key = s.writes[0]->key;
            let hash = s.writes[0]->hash;
            let after = s.write_applied();
            let q = s.queues.probation;
            let w = s.queues.write_order;
            let first = s.entries[q[0]].info.key_hash;
            let has_more = q.len() > 0 && s.sketch.estimate(hash) > s.sketch.estimate(first.hash);
            &&& s.cache.len() <= s.max_capacity ==> {
                &&& after.queues.probation == q.push(e)
                &&& after.queues.write_order == if s.time_to_live is Some { w.push(e) } else { w }
                &&& after.cache == s.cache
            }
            &&& s.cache.len() > s.max_capacity && has_more ==> {
                &&& after.queues.probation == q.skip(1).push(e)
                &&& !after.cache.dom().contains(first.key)
                &&& s.time_to_live is Some ==> after.queues.write_order.last() == e
                &&& other != first.key ==> (after.cache.dom().contains(other) <==> s.cache.dom().contains(
                    other,
                ))
            }
            &&& s.cache.len() > s.max_capacity && !has_more ==> {
                &&& after.queues == s.queues
                &&& !after.cache.dom().contains(key)
                &&& other != key ==> (after.cache.dom().contains(other) <==> s.cache.dom().contains(other))
            }
            &&& after.cache.dom().contains(other) ==> after.cache[other] == s.cache[other]
            &&& after.entries == s.entries
            &&& after.sketch == s.sketch
            &&& after.writes == s.writes.skip(1)
        }),
{
    assert(s.writes.remove(0) =~= s.writes.skip(1));
    let q = s.queues.probation;
    if q.len() > 0 {
        lemma_moved(q, 0);
        assert(q.take(0) + q.skip(1) =~= q.skip(1));
        assert(s.find(s.info(q[0]).key_hash.key) == Some(q[0]));
    }
}

/// The entry was last used as long ago as it may idle.
pub open spec fn has_idled<V, S: SketchModel>(s: QueueState<V, S>, e: usize, now: Instant) -> bool {
    let used = s.entries[e].info.last_accessed@;
    s.time_to_idle is Some && used is Some && now.nanos - used->0.nanos >= duration_nanos(s.time_to_idle->0)
}

/// The entry was last written as long ago as it may live.
pub open spec fn has_lived<V, S: SketchModel>(s: QueueState<V, S>, e: usize, now: Instant) -> bool {
    let written = s.entries[e].info.last_modified@;
    s.time_to_live is Some && written is Some && now.nanos - written->0.nanos >= duration_nanos(
        s.time_to_live->0,
    )
}

/// None of these entries of the cache is under its key any more.
pub open spec fn are_gone<V, S: SketchModel>(s: QueueState<V, S>, after: QueueState<V, S>, nodes: Seq<usize>) -> bool {
    forall|i: int|
        #![trigger nodes[i]]
        0 <= i < nodes.len() ==> !after.cache.dom().contains(s.entries[nodes[i]].info.key_hash.key)
}

/// Every entry of the queues is under its key.
pub open spec fn all_keyed<V, S: SketchModel>(s: QueueState<V, S>) -> bool {
    &&& s.wf()
    &&& forall|e: usize| #[trigger] s.queues.probation.contains(e) ==> s.in_cache(e)
    &&& forall|e: usize| #[trigger] s.queues.write_order.contains(e) ==> s.in_cache(e)
}

proof fn lemma_one_went<V, S: SketchModel>(s: QueueState<V, S>, e: usize)
    requires
        all_keyed(s),
        s.in_cache(e),
    ensures
        all_keyed(s.without_key(s.info(e).key_hash.key).unlinked_ao(e).unlinked_wo(e)),
{
    let t = s.without_key(s.info(e).key_hash.key).unlinked_ao(e).unlinked_wo(e);
    lemma_unlinked(s.queues.probation, e);
    lemma_unlinked(s.queues.write_order, e);
    s.lemma_fewer_wf(t);
    assert forall|x: usize| #[trigger] t.queues.probation.contains(x) implies t.in_cache(x) by {
        assert(s.queues.probation.contains(x) && x != e);
        assert(s.in_cache(x));
    }
    assert forall|x: usize| #[trigger] t.queues.write_order.contains(x) implies t.in_cache(x) by {
        assert(s.queues.write_order.contains(x) && x != e);
        assert(s.in_cache(x));
    }
}

/// The entries that have idled for too long go, from the front of the queue to the first that has not, and
/// no more than `n` at once.
pub proof fn idle_entries_go<V, S: SketchModel>(s: QueueState<V, S>, n: nat, now: Instant)
    requires
        all_keyed(s),
        now.nanos < u64::MAX,
    ensures
        ({
            let after = s.expired_ao_removed(n, now);
            let q = s.queues.probation;
            &&& all_keyed(after)
            &&& after.entries == s.entries
            &&& after.time_to_idle == s.time_to_idle
            &&& after.time_to_live == s.time_to_live
            &&& exists|k: int|
                {
                    &&& 0 <= k <= n
                    &&& k <= q.len()
                    &&& after.queues.probation == #[trigger] q.skip(k)
                    &&& k == n || k == q.len() || !has_idled(s, q[k], now)
                    &&& forall|i: int| 0 <= i < k ==> has_idled(s, #[trigger] q[i], now)
                }
            &&& forall|key: u64| #[trigger]
                s.cache.dom().contains(key) && !has_idled(s, s.cache[key], now)
                    ==> after.cache.dom().contains(key)
            &&& forall|key: u64| #[trigger]
                after.cache.dom().contains(key) ==> s.cache.dom().contains(key) && after.cache[key]
                    == s.cache[key]
        }),
    decreases n,
{
    let q = s.queues.probation;
    assert(q.skip(0) =~= q);
    if n == 0 || q.len() == 0 || !s.expired_ao(q[0], now) {
    } else {
        let e = q[0];
        assert(q.contains(e));
        assert(s.in_cache(e));
        let t = s.front_removed_ao();
        lemma_moved(q, 0);
        assert(q.take(0) + q.skip(1) =~= q.skip(1));
        lemma_one_went(s, e);
        idle_entries_go(t, (n - 1) as nat, now);
        let after = t.expired_ao_removed((n - 1) as nat, now);
        let k = choose|k: int|
            {
                &&& 0 <= k <= n - 1
                &&& k <= q.skip(1).len()
                &&& after.queues.probation == #[trigger] q.skip(1).skip(k)
                &&& k == n - 1 || k == q.skip(1).len() || !has_idled(t, q.skip(1)[k], now)
                &&& forall|i: int| 0 <= i < k ==> has_idled(t, #[trigger] q.skip(1)[i], now)
            };
        assert(q.skip(1).skip(k) =~= q.skip(k + 1));
        assert forall|i: int| 0 <= i < k + 1 implies has_idled(s, #[trigger] q[i], now) by {
            if i > 0 {
                assert(q.skip(1)[i - 1] == q[i]);
                assert(has_idled(t, q[i], now));
            }
        }
        assert forall|key: u64| #[trigger]
            s.cache.dom().contains(key) && !has_idled(s, s.cache[key], now) implies after.cache.dom().contains(
            key,
        ) by {
            assert(has_idled(s, e, now));
            assert(s.info(s.cache[key]).key_hash.key == key);
            assert(t.cache.dom().contains(key));
        }
        assert forall|key: u64| #[trigger] after.cache.dom().contains(key) implies s.cache.dom().contains(key)
            && after.cache[key] == s.cache[key] by {
            assert(t.cache.dom().contains(key));
        }
    }
}

/// The entries that have lived for too long go, from the front of the queue in the order of writing to the
/// first that has not, and no more than `n` at once.
pub proof fn old_entries_go<V, S: SketchModel>(s: QueueState<V, S>, n: nat, now: Instant)
    requires
        all_keyed(s),
        now.nanos < u64::MAX,
    ensures
        ({
            let after = s.expired_wo_removed(n, now);
            let q = s.queues.write_order;
            &&& all_keyed(after)
            &&& after.entries == s.entries
            &&& after.time_to_idle == s.time_to_idle
            &&& after.time_to_live == s.time_to_live
            &&& after.queues.probation.len() <= s.queues.probation.len()
            &&& exists|k: int|
                {
                    &&& 0 <= k <= n
                    &&& k <= q.len()
                    &&& after.queues.write_order == #[trigger] q.skip(k)
                    &&& are_gone(s, after, q.take(k))
                    &&& k == n || k == q.len() || !has_lived(s, q[k], now)
                    &&& forall|i: int| 0 <= i < k ==> has_lived(s, #[trigger] q[i], now)
                }
            &&& forall|key: u64| #[trigger]
                s.cache.dom().contains(key) && !has_lived(s, s.cache[key], now)
                    ==> after.cache.dom().contains(key)
            &&& forall|key: u64| #[trigger]
                after.cache.dom().contains(key) ==> s.cache.dom().contains(key) && after.cache[key]
                    == s.cache[key]
        }),
    decreases n,
{
    let q = s.queues.write_order;
    assert(q.skip(0) =~= q);
    if n == 0 || q.len() == 0 || !s.expired_wo(q[0], now) {
    } else {
        let e = q[0];
        lemma_unlinked(s.queues.probation, e);
        assert(q.contains(e));
        assert(s.in_cache(e));
        let t = s.front_removed_wo();
        lemma_moved(q, 0);
        assert(q.take(0) + q.skip(1) =~= q.skip(1));
        lemma_one_went(s, e);
        old_entries_go(t, (n - 1) as nat, now);
        let after = t.expired_wo_removed((n - 1) as nat, now);
        let k = choose|k: int|
            {
                &&& 0 <= k <= n - 1
                &&& k <= q.skip(1).len()
                &&& after.queues.write_order == #[trigger] q.skip(1).skip(k)
                &&& are_gone(t, after, q.skip(1).take(k))
                &&& k == n - 1 || k == q.skip(1).len() || !has_lived(t, q.skip(1)[k], now)
                &&& forall|i: int| 0 <= i < k ==> has_lived(t, #[trigger] q.skip(1)[i], now)
            };
        assert(q.skip(1).skip(k) =~= q.skip(k + 1));
        let nodes = q.take(k + 1);
        assert forall|i: int| #![trigger nodes[i]] 0 <= i < nodes.len() implies !after.cache.dom().contains(
            s.entries[nodes[i]].info.key_hash.key,
        ) by {
            if i > 0 {
                assert(q.skip(1).take(k)[i - 1] == nodes[i]);
            } else {
                assert(!t.cache.dom().contains(s.info(e).key_hash.key));
            }
        }
        assert forall|i: int| 0 <= i < k + 1 implies has_lived(s, #[trigger] q[i], now) by {
            if i > 0 {
                assert(q.skip(1)[i - 1] == q[i]);
                assert(has_lived(t, q[i], now));
            }
        }
        assert forall|key: u64| #[trigger]
            s.cache.dom().contains(key) && !has_lived(s, s.cache[key], now) implies after.cache.dom().contains(
            key,
        ) by {
            assert(has_lived(s, e, now));
            assert(s.info(s.cache[key]).key_hash.key == key);
            assert(t.cache.dom().contains(key));
        }
        assert forall|key: u64| #[trigger] after.cache.dom().contains(key) implies s.cache.dom().contains(key)
            && after.cache[key] == s.cache[key] by {
            assert(t.cache.dom().contains(key));
        }
    }
}

/// Housekeeping that finds the logs empty takes no key away whose entry may still live and idle. The
/// entries at the front of a queue that have lived or idled for too long go, up to 500 of each queue.
pub proof fn housekeeping_takes_what_is_over<V, S: SketchModel>(s: QueueState<V, S>, now: Instant, key: u64)
    requires
        all_keyed(s),
        s.reads.len() == 0,
        s.writes.len() == 0,
        now.nanos < u64::MAX,
    ensures
        ({
            let after = s.synced(now);
            let w = s.queues.write_order;
            let q = s.queues.probation;
            &&& after.cache.dom().contains(key) ==> s.cache.dom().contains(key) && after.cache[key]
                == s.cache[key]
            &&& s.cache.dom().contains(key) && !has_idled(s, s.cache[key], now) && !has_lived(
                s,
                s.cache[key],
                now,
            ) ==> after.cache.dom().contains(key)
            &&& s.time_to_live is Some ==> exists|k: int|
                {
                    &&& 0 <= k <= 500
                    &&& k <= w.len()
                    &&& are_gone(s, after, #[trigger] w.take(k))
                    &&& k == 500 || k == w.len() || !has_lived(s, w[k], now)
                }
            &&& s.time_to_idle is Some ==> {
                ||| after.queues.probation.len() == 0
                ||| !has_idled(s, after.queues.probation[0], now)
                ||| after.queues.probation.len() + 500 <= q.len()
            }
            &&& s.time_to_live is Some && s.time_to_idle is None ==> exists|k: int|
                {
                    &&& 0 <= k <= 500
                    &&& k <= w.len()
                    &&& after.queues.write_order == #[trigger] w.skip(k)
                    &&& k == 500 || k == w.len() || !has_lived(s, w[k], now)
                    &&& forall|i: int| 0 <= i < k ==> has_lived(s, #[trigger] w[i], now)
                }
            &&& s.time_to_live is None && s.time_to_idle is Some ==> exists|k: int|
                {
                    &&& 0 <= k <= 500
                    &&& k <= q.len()
                    &&& after.queues.probation == #[trigger] q.skip(k)
                    &&& k == 500 || k == q.len() || !has_idled(s, q[k], now)
                    &&& forall|i: int| 0 <= i < k ==> has_idled(s, #[trigger] q[i], now)
                }
        }),
{
    reveal(QueueState::synced);
    assert(s.reads_applied(0) == s);
    assert(s.writes_applied(0) == s);
    old_entries_go(s, 500, now);
    let t = if s.time_to_live is Some {
        s.expired_wo_removed(500, now)
    } else {
        s
    };
    idle_entries_go(t, 500, now);
    if s.cache.dom().contains(key) && !has_idled(s, s.cache[key], now) && !has_lived(s, s.cache[key], now) {
        assert(t.cache.dom().contains(key));
        assert(!has_idled(t, t.cache[key], now));
    }
    let after = s.synced(now);
    if after.cache.dom().contains(key) {
        assert(t.cache.dom().contains(key));
    }
    let w = s.queues.write_order;
    if s.time_to_live is Some {
        let k = choose|k: int|
            {
                &&& 0 <= k <= 500
                &&& k <= w.len()
                &&& t.queues.write_order == #[trigger] w.skip(k)
                &&& are_gone(s, t, w.take(k))
                &&& k == 500 || k == w.len() || !has_lived(s, w[k], now)
                &&& forall|i: int| 0 <= i < k ==> has_lived(s, #[trigger] w[i], now)
            };
        let nodes = w.take(k);
        assert forall|i: int| #![trigger nodes[i]] 0 <= i < nodes.len() implies !after.cache.dom().contains(
            s.entries[nodes[i]].info.key_hash.key,
        ) by {
            assert(!t.cache.dom().contains(s.entries[nodes[i]].info.key_hash.key));
        }
        assert(are_gone(s, after, w.take(k)));
    }
    if s.time_to_idle is Some {
        let u = t.expired_ao_removed(500, now);
        let r = t.queues.probation;
        let k = choose|k: int|
            {
                &&& 0 <= k <= 500
                &&& k <= r.len()
                &&& u.queues.probation == #[trigger] r.skip(k)
                &&& k == 500 || k == r.len() || !has_idled(t, r[k], now)
                &&& forall|i: int| 0 <= i < k ==> has_idled(t, #[trigger] r[i], now)
            };
        if k < r.len() {
            assert(u.queues.probation[0] == r[k]);
        }
        assert(has_idled(t, r[k], now) == has_idled(s, r[k], now));
    }
}

/// The log of reads is shown to the policies from its beginning, and so is the log of writes; what is
/// shown is no longer in the log.
pub proof fn logs_are_shown_in_turn<V, S: SketchModel>(s: QueueState<V, S>, n: nat)
    ensures
        n < s.reads.len() ==> s.reads_applied(n).reads == s.reads.skip(n as int),
        n < s.writes.len() ==> s.writes_applied(n).writes == s.writes.skip(n as int),
        n < s.writes.len() ==> s.lfu_writes_applied(n).writes == s.writes.skip(n as int),
    decreases n,
{
    if n == 0 {
        assert(s.reads.skip(0) =~= s.reads);
        assert(s.writes.skip(0) =~= s.writes);
    } else {
        let m = (n - 1) as nat;
        if n < s.reads.len() {
            logs_are_shown_in_turn(s.read_applied(), m);
            assert(s.reads.remove(0).skip(m as int) =~= s.reads.skip(n as int));
        }
        if n < s.writes.len() {
            logs_are_shown_in_turn(s.write_applied(), m);
            logs_are_shown_in_turn(s.lfu_write_applied(), m);
            assert(s.writes.remove(0).skip(m as int) =~= s.writes.skip(n as int));
        }
    }
}

} // verus!
