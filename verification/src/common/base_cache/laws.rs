//! What holds of every cache that counts its entries, however it is used.
use vstd::prelude::*;

use super::state::{QueueState, EVICTION_BATCH_SIZE};
use crate::common::concurrent::expiry::expired_or_invalid;
use crate::common::estimator::SketchModel;
use crate::common::time::{duration_nanos, AtomicInstant, Instant};

verus! {

/// Whatever `after` has under a key, `before` had there too, with the same value and times.
pub open spec fn keeps_values<V, S: SketchModel>(before: QueueState<V, S>, after: QueueState<V, S>) -> bool {
    &&& forall|k: u64| #[trigger]
        after.cache.dom().contains(k) ==> before.cache.dom().contains(k) && after.cache[k]
            == before.cache[k]
    &&& forall|e: usize|
        after.entries.dom().contains(e) ==> (#[trigger] after.entries[e]) == before.entries[e]
}

/// The same, of all entries.
pub open spec fn steps<V, S: SketchModel>(before: QueueState<V, S>, after: QueueState<V, S>) -> bool {
    &&& forall|k: u64| #[trigger]
        after.cache.dom().contains(k) ==> before.cache.dom().contains(k) && after.cache[k]
            == before.cache[k]
    &&& after.entries == before.entries
}

/// What was written is read back until it expires: the times are counted from the write.
pub proof fn read_gives_back_what_was_written<V, S: SketchModel>(
    before: QueueState<V, S>,
    after: QueueState<V, S>,
    key: u64,
    hash: u64,
    value: V,
    now: Instant,
    later: Instant,
)
    requires
        before.wf(),
        before.put(after, key, hash, value, before.time_at(now)),
    ensures
        ({
            let time = AtomicInstant { instant: now.nanos }@;
            after.lookup(key, later) == if expired_or_invalid(before.time_to_live, None, time, later)
                || expired_or_invalid(before.time_to_idle, None, time, later) {
                None
            } else {
                Some(value)
            }
        }),
{
}

/// Writing one key changes what is read under no other key.
pub proof fn write_leaves_other_keys<V, S: SketchModel>(
    before: QueueState<V, S>,
    after: QueueState<V, S>,
    key: u64,
    hash: u64,
    value: V,
    time: Option<Instant>,
    other: u64,
    now: Instant,
)
    requires
        before.wf(),
        before.put(after, key, hash, value, time),
        other != key,
    ensures
        after.lookup(other, now) == before.lookup(other, now),
{
    assert(before.cache.dom().contains(other) ==> before.entries.dom().contains(before.cache[other]));
    assert(before.cache.dom().contains(key) ==> before.entries.dom().contains(before.cache[key]));
}

/// A key whose value was taken away has none, and the other keys keep theirs.
pub proof fn taken_key_is_gone<V, S: SketchModel>(
    before: QueueState<V, S>,
    key: u64,
    other: u64,
    now: Instant,
)
    requires
        before.wf(),
    ensures
        before.taken(key).lookup(key, now) is None,
        other != key ==> before.taken(key).lookup(other, now) == before.lookup(other, now),
{
}

/// An entry is not read once it has lived for the time-to-live, nor once it has idled for the
/// time-to-idle.
pub proof fn expired_entries_are_gone<V, S: SketchModel>(s: QueueState<V, S>, key: u64, now: Instant)
    requires
        s.find(key) is Some,
        ({
            let info = s.info(s.cache[key]);
            ||| s.time_to_live is Some && info.last_modified@ is Some && info.last_modified@->0.nanos
                + duration_nanos(s.time_to_live->0) <= now.nanos
            ||| s.time_to_idle is Some && info.last_accessed@ is Some && info.last_accessed@->0.nanos
                + duration_nanos(s.time_to_idle->0) <= now.nanos
        }),
    ensures
        s.lookup(key, now) is None,
{
}

/// Every entry under a key knows when it was written and used, and that was not after `now`.
pub open spec fn all_dated<V, S: SketchModel>(s: QueueState<V, S>, now: Instant) -> bool {
    forall|k: u64| #[trigger]
        s.cache.dom().contains(k) ==> {
            let info = s.info(s.cache[k]);
            &&& info.last_modified@ is Some && info.last_modified@->0.nanos <= now.nanos
            &&& info.last_accessed@ is Some && info.last_accessed@->0.nanos <= now.nanos
        }
}

/// Where entries expire, they know their times however the cache is used, as long as time does not
/// go back: writes, reads, removals and housekeeping keep it so.
pub proof fn entries_know_their_times<V, S: SketchModel>(
    s: QueueState<V, S>,
    after: QueueState<V, S>,
    key: u64,
    hash: u64,
    value: V,
    then: Instant,
    now: Instant,
)
    requires
        s.wf(),
        s.has_expiry(),
        all_dated(s, then),
        then.nanos <= now.nanos < u64::MAX,
    ensures
        s.put(after, key, hash, value, s.time_at(now)) ==> all_dated(after, now),
        all_dated(s.read_at(key, hash, now), now),
        all_dated(s.taken(key), now),
        all_dated(s.synced(now), now),
{
    if s.put(after, key, hash, value, s.time_at(now)) {
        assert forall|k: u64| #[trigger] after.cache.dom().contains(k) implies {
            let info = after.info(after.cache[k]);
            &&& info.last_modified@ is Some && info.last_modified@->0.nanos <= now.nanos
            &&& info.last_accessed@ is Some && info.last_accessed@->0.nanos <= now.nanos
        } by {
            if k != key {
                assert(s.cache.dom().contains(k));
            }
        }
    }
    let read = s.read_at(key, hash, now);
    assert forall|k: u64| #[trigger] read.cache.dom().contains(k) implies {
        let info = read.info(read.cache[k]);
        &&& info.last_modified@ is Some && info.last_modified@->0.nanos <= now.nanos
        &&& info.last_accessed@ is Some && info.last_accessed@->0.nanos <= now.nanos
    } by {
        assert(s.cache.dom().contains(k));
    }
    let taken = s.taken(key);
    assert forall|k: u64| #[trigger] taken.cache.dom().contains(k) implies {
        let info = taken.info(taken.cache[k]);
        &&& info.last_modified@ is Some && info.last_modified@->0.nanos <= now.nanos
        &&& info.last_accessed@ is Some && info.last_accessed@->0.nanos <= now.nanos
    } by {
        assert(s.cache.dom().contains(k));
    }
    housekeeping_keeps_values(s, now);
    let t = s.synced(now);
    assert forall|k: u64| #[trigger] t.cache.dom().contains(k) implies {
        let info = t.info(t.cache[k]);
        &&& info.last_modified@ is Some && info.last_modified@->0.nanos <= now.nanos
        &&& info.last_accessed@ is Some && info.last_accessed@->0.nanos <= now.nanos
    } by {
        assert(s.cache.dom().contains(k));
        assert(t.entries.dom().contains(t.cache[k]));
    }
}

/// No entry is read once it has lived for the time-to-live, counted from its last write, nor once
/// it has idled for the time-to-idle, counted from its last use.
pub proof fn all_entries_expire<V, S: SketchModel>(
    s: QueueState<V, S>,
    key: u64,
    then: Instant,
    now: Instant,
)
    requires
        all_dated(s, then),
        ({
            ||| s.time_to_live is Some && then.nanos + duration_nanos(s.time_to_live->0) <= now.nanos
            ||| s.time_to_idle is Some && then.nanos + duration_nanos(s.time_to_idle->0) <= now.nanos
        }),
    ensures
        s.lookup(key, now) is None,
{
    if s.cache.dom().contains(key) {
        assert(s.info(s.cache[key]).last_modified@ is Some);
    }
}

/// A new entry comes in while there is room.
pub proof fn entry_comes_in_with_room<V, S: SketchModel>(
    s: QueueState<V, S>,
    key: u64,
    hash: u64,
    e: usize,
)
    requires
        s.cache.len() <= s.max_capacity,
    ensures
        s.insert_handled(key, hash, e).queues.probation == s.queues.probation.push(e),
        s.insert_handled(key, hash, e).cache == s.cache,
{
}

/// Where there is no room, a new entry comes in exactly if its key is used more often than the
/// key of the entry that was not used for longest. That entry goes; else the new one goes.
pub proof fn more_frequent_entry_comes_in<V, S: SketchModel>(
    s: QueueState<V, S>,
    key: u64,
    hash: u64,
    e: usize,
)
    requires
        s.wf(),
        s.cache.len() > s.max_capacity,
        s.queues.probation.len() > 0,
        !s.queues.probation.contains(e),
    ensures
        ({
            let victim = s.info(s.queues.probation[0]).key_hash;
            let after = s.insert_handled(key, hash, e);
            let more = s.sketch.estimate(hash) > s.sketch.estimate(victim.hash);
            &&& after.queues.probation.contains(e) <==> more
            &&& more ==> after.cache == s.cache.remove(victim.key)
            &&& !more ==> after.cache == s.cache.remove(key) && after.queues == s.queues
        }),
{
    let victim = s.queues.probation[0];
    assert(s.queues.probation.contains(victim));
    assert(victim != e);
    assert(s.info(victim) == s.info(victim));
    let after = s.insert_handled(key, hash, e);
    if s.sketch.estimate(hash) > s.sketch.estimate(s.info(victim).key_hash.hash) {
        assert(after.queues.probation.last() == e);
        if s.find(s.info(victim).key_hash.key) is None {
            assert(s.cache.remove(s.info(victim).key_hash.key) =~= s.cache);
        }
    }
}

/// A cache that has one entry too many, all of whose queued entries are in the hash table, has
/// none too many once the policies know of the newest.
pub proof fn insertion_keeps_bound<V, S: SketchModel>(
    s: QueueState<V, S>,
    key: u64,
    hash: u64,
    e: usize,
)
    requires
        s.wf(),
        s.cache.dom().finite(),
        s.cache.len() <= s.max_capacity + 1,
        s.find(key) == Some(e),
        !s.queues.probation.contains(e),
        forall|i: int| 0 <= i < s.queues.probation.len() ==> s.in_cache(
            #[trigger] s.queues.probation[i],
        ),
    ensures
        s.insert_handled(key, hash, e).cache.len() <= s.max_capacity,
{
    if s.cache.len() > s.max_capacity && s.queues.probation.len() > 0 {
        assert(s.in_cache(s.queues.probation[0]));
        more_frequent_entry_comes_in(s, key, hash, e);
    }
}

pub proof fn lemma_steps_trans<V, S: SketchModel>(
    a: QueueState<V, S>,
    b: QueueState<V, S>,
    c: QueueState<V, S>,
)
    requires
        steps(a, b),
        steps(b, c),
    ensures
        steps(a, c),
{
    assert forall|k: u64| #[trigger] c.cache.dom().contains(k) implies a.cache.dom().contains(k)
        && c.cache[k] == a.cache[k] by {
        assert(b.cache.dom().contains(k));
    }
}

pub proof fn lemma_reads_step<V, S: SketchModel>(s: QueueState<V, S>, n: nat)
    ensures
        steps(s, s.reads_applied(n)),
    decreases n,
{
    if n > 0 && s.reads.len() > 0 {
        lemma_reads_step(s.read_applied(), (n - 1) as nat);
        lemma_steps_trans(s, s.read_applied(), s.reads_applied(n));
    }
}

pub proof fn lemma_writes_step<V, S: SketchModel>(s: QueueState<V, S>, n: nat)
    ensures
        steps(s, s.writes_applied(n)),
    decreases n,
{
    if n > 0 && s.writes.len() > 0 {
        lemma_writes_step(s.write_applied(), (n - 1) as nat);
        lemma_steps_trans(s, s.write_applied(), s.writes_applied(n));
    }
}

proof fn lemma_expired_ao_step<V, S: SketchModel>(s: QueueState<V, S>, n: nat, now: Instant)
    ensures
        steps(s, s.expired_ao_removed(n, now)),
    decreases n,
{
    if n == 0 || s.queues.probation.len() == 0 || !s.expired_ao(s.queues.probation[0], now) {
    } else {
        lemma_expired_ao_step(s.front_removed_ao(), (n - 1) as nat, now);
        lemma_steps_trans(s, s.front_removed_ao(), s.expired_ao_removed(n, now));
    }
}

proof fn lemma_expired_wo_step<V, S: SketchModel>(s: QueueState<V, S>, n: nat, now: Instant)
    ensures
        steps(s, s.expired_wo_removed(n, now)),
    decreases n,
{
    if n == 0 || s.queues.write_order.len() == 0 || !s.expired_wo(s.queues.write_order[0], now) {
    } else {
        lemma_expired_wo_step(s.front_removed_wo(), (n - 1) as nat, now);
        lemma_steps_trans(s, s.front_removed_wo(), s.expired_wo_removed(n, now));
    }
}

/// Housekeeping gives no key a value that it did not have. It may take keys away, and forgets no
/// entry that is under a key.
pub proof fn housekeeping_keeps_values<V, S: SketchModel>(s: QueueState<V, S>, now: Instant)
    requires
        s.wf(),
    ensures
        keeps_values(s, s.synced(now)),
        forall|k: u64| #[trigger]
            s.synced(now).cache.dom().contains(k) ==> s.synced(now).entries.dom().contains(
                s.synced(now).cache[k],
            ),
{
    reveal(QueueState::synced);
    let n = EVICTION_BATCH_SIZE as nat;
    lemma_reads_step(s, s.reads.len());
    let s1 = s.reads_applied(s.reads.len());
    lemma_writes_step(s1, s1.writes.len());
    let s2 = s1.writes_applied(s1.writes.len());
    lemma_steps_trans(s, s1, s2);
    lemma_expired_wo_step(s2, n, now);
    let s3 = if s2.time_to_live is Some {
        s2.expired_wo_removed(n, now)
    } else {
        s2
    };
    assert(steps(s2, s3));
    lemma_expired_ao_step(s3, n, now);
    let s4 = s2.expired_removed(n, now);
    assert(steps(s3, s4));
    lemma_steps_trans(s2, s3, s4);
    lemma_steps_trans(s, s2, s4);
    let t = s.logs_applied(now);
    assert(steps(s, t));
    assert forall|k: u64| #[trigger] s.synced(now).cache.dom().contains(k) implies s.synced(
        now,
    ).entries.dom().contains(s.synced(now).cache[k]) by {
        assert(s.cache.dom().contains(k));
        assert(s.entries.dom().contains(s.cache[k]));
        if s.synced(now) != s {
            assert(t.cache.dom().contains(k));
            assert(t.in_cache(t.cache[k]));
        }
    }
}

/// A key that is read after housekeeping has the value that it had before.
pub proof fn housekeeping_changes_no_value<V, S: SketchModel>(
    s: QueueState<V, S>,
    key: u64,
    now: Instant,
    later: Instant,
)
    requires
        s.wf(),
        s.synced(now).lookup(key, later) is Some,
    ensures
        s.find(key) is Some,
        s.synced(now).lookup(key, later) == Some(s.entries[s.find(key)->0].value),
{
    housekeeping_keeps_values(s, now);
    let after = s.synced(now);
    assert(after.cache.dom().contains(key));
    assert(after.entries.dom().contains(after.cache[key]));
}

} // verus!
