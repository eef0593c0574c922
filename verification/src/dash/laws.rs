//! What holds of every cache, however it is used.
use vstd::prelude::*;

use super::count_laws::{housekeeping_keeps_order, is_sound};
use super::state::{
    CacheState, Victims, EVICTION_BATCH_SIZE, MAX_CONSECUTIVE_RETRIES,
};
use crate::common::concurrent::admission::sat_add;
use crate::common::concurrent::deques::{moved_back, unlinked};
use crate::common::concurrent::expiry::expired_or_invalid;
use crate::common::concurrent::EntryState;
use crate::common::op_log::{ReadOp, WriteOp};
use crate::common::time::{duration_nanos, AtomicInstant, Instant};
use crate::common::CacheRegion;
use crate::notification::RemovalCause;

verus! {

/// Whatever `after` has under a key, `before` had there too, with the same value and times.
pub open spec fn keeps_values<V>(before: CacheState<V>, after: CacheState<V>) -> bool {
    &&& forall|k: u64| #[trigger]
        after.cache.dom().contains(k) ==> before.cache.dom().contains(k) && after.cache[k]
            == before.cache[k]
    &&& forall|e: usize| #[trigger]
        after.entries.dom().contains(e) ==> before.entries.dom().contains(e)
            && same_record(before.entries[e], after.entries[e])
}

/// The two records of an entry have the same value, key, weight and times.
pub open spec fn same_record<V>(a: EntryState<V>, b: EntryState<V>) -> bool {
    &&& a.value == b.value
    &&& a.info.key_hash == b.info.key_hash
    &&& a.info.policy_weight == b.info.policy_weight
    &&& a.info.last_accessed == b.info.last_accessed
    &&& a.info.last_modified == b.info.last_modified
}

/// The same entries, with the same values and keys.
spec fn same_values<V>(before: CacheState<V>, after: CacheState<V>) -> bool {
    &&& after.entries.dom() =~= before.entries.dom()
    &&& keeps_values(before, after)
}

proof fn lemma_same_trans<V>(a: CacheState<V>, b: CacheState<V>, c: CacheState<V>)
    requires
        same_values(a, b),
        same_values(b, c),
    ensures
        same_values(a, c),
{
    assert forall|k: u64| #[trigger] c.cache.dom().contains(k) implies a.cache.dom().contains(k)
        && c.cache[k] == a.cache[k] by {
        assert(b.cache.dom().contains(k));
    }
    assert forall|e: usize| #[trigger] c.entries.dom().contains(e) implies a.entries.dom().contains(e)
        && same_record(a.entries[e], c.entries[e]) by {
        assert(b.entries.dom().contains(e));
    }
}

proof fn lemma_same_steps<V>(s: CacheState<V>, e: usize, weight: u32, key: u64)
    requires
        s.entries.dom().contains(e),
    ensures
        same_values(s, s.to_back_ao(e)),
        same_values(s, s.to_back_wo(e)),
        same_values(s, s.admitted(e, weight)),
        same_values(s, s.dismissed(e)),
        same_values(s, s.without_key(key)),
{
}

/// What was written is read back until it expires or is invalidated: the times are counted from
/// the write.
pub proof fn read_gives_back_what_was_written<V>(
    before: CacheState<V>,
    after: CacheState<V>,
    key: u64,
    hash: u64,
    value: V,
    weight: u32,
    now: Instant,
    later: Instant,
)
    requires
        before.wf(),
        before.put(after, key, hash, value, weight, now),
    ensures
        ({
            let time = AtomicInstant { instant: now.nanos }@;
            after.lookup(key, later) == if expired_or_invalid(
                before.time_to_live,
                before.valid_after,
                time,
                later,
            ) || expired_or_invalid(before.time_to_idle, before.valid_after, time, later) {
                None
            } else {
                Some(value)
            }
        }),
        before.time_to_live is None && before.time_to_idle is None && (before.valid_after is Some
            ==> before.valid_after->0.nanos <= now.nanos) ==> after.lookup(key, later) == Some(value),
{
}

/// Every entry under a key knows when it was written and used, and that was not after `now`.
pub open spec fn all_dated<V>(s: CacheState<V>, now: Instant) -> bool {
    forall|k: u64| #[trigger]
        s.cache.dom().contains(k) ==> {
            let info = s.info(s.cache[k]);
            &&& info.last_modified@ is Some && info.last_modified@->0.nanos <= now.nanos
            &&& info.last_accessed@ is Some && info.last_accessed@->0.nanos <= now.nanos
        }
}

/// Entries know their times however a cache is used, as long as time does not go back: writes,
/// reads, removals and housekeeping keep it so.
pub proof fn entries_know_their_times<V>(
    s: CacheState<V>,
    after: CacheState<V>,
    key: u64,
    hash: u64,
    value: V,
    weight: u32,
    then: Instant,
    now: Instant,
)
    requires
        is_sound(s),
        all_dated(s, then),
        then.nanos <= now.nanos < u64::MAX,
    ensures
        s.put(after, key, hash, value, weight, now) ==> all_dated(after, now),
        all_dated(s.read_at(key, hash, now), now),
        all_dated(s.taken(key), now),
        all_dated(s.synced(now), now),
{
    if s.put(after, key, hash, value, weight, now) {
        assert forall|k: u64| #[trigger] after.cache.dom().contains(k) implies {
            let info = after.info(after.cache[k]);
            &&& info.last_modified@ is Some && info.last_modified@->0.nanos <= now.nanos
            &&& info.last_accessed@ is Some && info.last_accessed@->0.nanos <= now.nanos
        } by {
            if k != key {
                assert(s.cache.dom().contains(k));
            }
        }
    }
    assert forall|k: u64| #[trigger] s.read_at(key, hash, now).cache.dom().contains(k) implies {
        let info = s.read_at(key, hash, now).info(s.cache[k]);
        &&& info.last_modified@ is Some && info.last_modified@->0.nanos <= now.nanos
        &&& info.last_accessed@ is Some && info.last_accessed@->0.nanos <= now.nanos
    } by {
        assert(s.cache.dom().contains(k));
    }
    assert forall|k: u64| #[trigger] s.taken(key).cache.dom().contains(k) implies {
        let info = s.taken(key).info(s.taken(key).cache[k]);
        &&& info.last_modified@ is Some && info.last_modified@->0.nanos <= now.nanos
        &&& info.last_accessed@ is Some && info.last_accessed@->0.nanos <= now.nanos
    } by {
        assert(s.cache.dom().contains(k));
    }
    housekeeping_keeps_values(s, now);
    housekeeping_keeps_order(s, now);
    let t = s.synced(now);
    assert forall|k: u64| #[trigger] t.cache.dom().contains(k) implies {
        let info = t.info(t.cache[k]);
        &&& info.last_modified@ is Some && info.last_modified@->0.nanos <= now.nanos
        &&& info.last_accessed@ is Some && info.last_accessed@->0.nanos <= now.nanos
    } by {
        assert(s.cache.dom().contains(k));
        assert(t.entries.dom().contains(t.cache[k]));
    }
}

/// Once all entries are invalidated, none is read that was written before, whether housekeeping
/// was done since or not.
pub proof fn all_entries_are_invalidated<V>(
    before: CacheState<V>,
    key: u64,
    then: Instant,
    time: Instant,
    now: Instant,
)
    requires
        all_dated(before, then),
        then.nanos < time.nanos < u64::MAX,
    ensures
        (CacheState { valid_after: AtomicInstant { instant: time.nanos }@, ..before }).lookup(key, now) is None,
{
    if before.cache.dom().contains(key) {
        assert(before.info(before.cache[key]).last_modified@ is Some);
    }
}

/// No entry is read once it has lived for the time-to-live, counted from its last write, nor once
/// it has idled for the time-to-idle, counted from its last use.
pub proof fn all_entries_expire<V>(s: CacheState<V>, key: u64, then: Instant, now: Instant)
    requires
        all_dated(s, then),
        ({
            ||| s.time_to_live is Some && then.nanos + duration_nanos(s.time_to_live->0) <= now.nanos
            ||| s.time_to_idle is Some && then.nanos + duration_nanos(s.time_to_idle->0) <= now.nanos
        }),
    ensures
        s.lookup(key, now) is None,
{
    if s.cache.dom().contains(key) {
        assert(s.info(s.cache[key]).last_modified@ is Some);
    }
}

/// Writing one key changes what is read under no other key.
pub proof fn write_leaves_other_keys<V>(
    before: CacheState<V>,
    after: CacheState<V>,
    key: u64,
    hash: u64,
    value: V,
    weight: u32,
    now: Instant,
    other: u64,
    later: Instant,
)
    requires
        before.wf(),
        before.put(after, key, hash, value, weight, now),
        other != key,
    ensures
        after.lookup(other, later) == before.lookup(other, later),
{
    assert(before.cache.dom().contains(other) ==> before.entries.dom().contains(before.cache[other]));
    assert(before.cache.dom().contains(key) ==> before.entries.dom().contains(before.cache[key]));
}

/// A key whose value was taken away has none, and the other keys keep theirs.
pub proof fn taken_key_is_gone<V>(before: CacheState<V>, key: u64, other: u64, now: Instant)
    requires
        before.wf(),
    ensures
        before.taken(key).lookup(key, now) is None,
        other != key ==> before.taken(key).lookup(other, now) == before.lookup(other, now),
{
}

/// Once all entries are invalidated, no entry is read that was last written, or last used,
/// before.
pub proof fn invalidated_entries_are_gone<V>(
    before: CacheState<V>,
    key: u64,
    time: Instant,
    now: Instant,
)
    requires
        before.wf(),
        time.nanos < u64::MAX,
        before.find(key) is Some,
        ({
            let info = before.info(before.cache[key]);
            ||| info.last_modified@ is Some && info.last_modified@->0.nanos < time.nanos
            ||| info.last_accessed@ is Some && info.last_accessed@->0.nanos < time.nanos
        }),
    ensures
        (CacheState { valid_after: AtomicInstant { instant: time.nanos }@, ..before }).lookup(key, now) is None,
{
}

/// An entry is not read once it has lived for the time-to-live, nor once it has idled for the
/// time-to-idle.
pub proof fn expired_entries_are_gone<V>(s: CacheState<V>, key: u64, now: Instant)
    requires
        s.find(key) is Some,
        ({
            let info = s.info(s.cache[key]);
            ||| s.time_to_live is Some && info.last_modified@ is Some && info.last_modified@->0.nanos
                + duration_nanos(s.time_to_live->0) <= now.nanos
            ||| s.time_to_idle is Some && info.last_accessed@ is Some && info.last_accessed@->0.nanos
                + duration_nanos(s.time_to_idle->0) <= now.nanos
        }),
    ensures
        s.lookup(key, now) is None,
{
}

/// The hash table, the queues and the logs speak of entries that there are.
spec fn known<V>(s: CacheState<V>) -> bool {
    &&& s.all_known(s.queues.window)
    &&& s.all_known(s.queues.probation)
    &&& s.all_known(s.queues.protected)
    &&& s.all_known(s.queues.write_order)
    &&& forall|k: u64| #[trigger] s.cache.dom().contains(k) ==> s.entries.dom().contains(s.cache[k])
    &&& forall|i: int| 0 <= i < s.reads.len() ==> s.read_ok(#[trigger] s.reads[i])
    &&& forall|i: int| 0 <= i < s.writes.len() ==> s.write_ok(#[trigger] s.writes[i])
}

/// From `a` to `b` the values stay, and what is spoken of is there.
spec fn carries<V>(a: CacheState<V>, b: CacheState<V>) -> bool {
    same_values(a, b) && known(b)
}

proof fn lemma_wf_known<V>(s: CacheState<V>)
    requires
        s.wf(),
    ensures
        known(s),
{
    assert forall|i: int| 0 <= i < s.queues.probation.len() implies s.entries.dom().contains(
        #[trigger] s.queues.probation[i],
    ) by {
        assert(s.queues.probation.contains(s.queues.probation[i]));
        assert(s.entries.dom().contains(s.queues.probation[i]));
    }
    assert forall|i: int| 0 <= i < s.queues.write_order.len() implies s.entries.dom().contains(
        #[trigger] s.queues.write_order[i],
    ) by {
        let e = s.queues.write_order[i];
        assert(s.queues.write_order.contains(e));
        assert(s.queues.probation.contains(e));
        assert(s.entries.dom().contains(e));
    }
}

/// Moving an entry within a queue, or out of it, brings nobody in.
proof fn lemma_queue_known<V>(s: CacheState<V>, q: Seq<usize>, e: usize)
    requires
        s.all_known(q),
    ensures
        s.all_known(moved_back(q, e)),
        s.all_known(unlinked(q, e)),
        s.entries.dom().contains(e) ==> s.all_known(q.push(e)),
{
    if q.contains(e) {
        let p = q.index_of(e);
        assert forall|i: int| 0 <= i < moved_back(q, e).len() implies s.entries.dom().contains(
            #[trigger] moved_back(q, e)[i],
        ) by {
            let j = if i == q.len() - 1 {
                p
            } else if i < p {
                i
            } else {
                i + 1
            };
            assert(moved_back(q, e)[i] == q[j]);
        }
        assert forall|i: int| 0 <= i < unlinked(q, e).len() implies s.entries.dom().contains(
            #[trigger] unlinked(q, e)[i],
        ) by {
            let j = if i < p {
                i
            } else {
                i + 1
            };
            assert(unlinked(q, e)[i] == q[j]);
        }
    }
}

proof fn lemma_known_step<V>(a: CacheState<V>, b: CacheState<V>)
    requires
        known(a),
        same_values(a, b),
        a.all_known(b.queues.window),
        a.all_known(b.queues.probation),
        a.all_known(b.queues.protected),
        a.all_known(b.queues.write_order),
        b.reads == a.reads,
        b.writes == a.writes,
    ensures
        carries(a, b),
{
    assert forall|k: u64| #[trigger] b.cache.dom().contains(k) implies b.entries.dom().contains(
        b.cache[k],
    ) by {
        assert(a.cache.dom().contains(k));
    }
    assert forall|i: int| 0 <= i < b.reads.len() implies b.read_ok(#[trigger] b.reads[i]) by {
        assert(a.read_ok(a.reads[i]));
    }
    assert forall|i: int| 0 <= i < b.writes.len() implies b.write_ok(#[trigger] b.writes[i]) by {
        assert(a.write_ok(a.writes[i]));
    }
}

proof fn lemma_carries_trans<V>(a: CacheState<V>, b: CacheState<V>, c: CacheState<V>)
    requires
        carries(a, b),
        carries(b, c),
    ensures
        carries(a, c),
{
    lemma_same_trans(a, b, c);
}

proof fn lemma_steps<V>(s: CacheState<V>, e: usize, weight: u32, key: u64)
    requires
        known(s),
        s.entries.dom().contains(e),
    ensures
        carries(s, s),
        carries(s, s.to_back_ao(e)),
        carries(s, s.to_back_wo(e)),
        carries(s, s.admitted(e, weight)),
        carries(s, s.dismissed(e)),
        carries(s, s.without_key(key)),
{
    lemma_same_steps(s, e, weight, key);
    lemma_queue_known(s, s.queues.probation, e);
    lemma_queue_known(s, s.queues.write_order, e);
    lemma_known_step(s, s);
    lemma_known_step(s, s.to_back_ao(e));
    lemma_known_step(s, s.to_back_wo(e));
    lemma_known_step(s, s.admitted(e, weight));
    lemma_known_step(s, s.dismissed(e));
    lemma_known_step(s, s.without_key(key));
}

proof fn lemma_search_known<V>(s: CacheState<V>, weight: int, freq: int, i: int, v: Victims)
    requires
        known(s),
        s.all_known(v.nodes),
        s.all_known(v.skipped),
    ensures
        s.all_known(s.search(weight, freq, i, v).nodes),
        s.all_known(s.search(weight, freq, i, v).skipped),
    decreases s.queues.probation.len() - i,
{
    if v.policy_weight >= weight || freq < v.freq || v.retries > MAX_CONSECUTIVE_RETRIES || !(0 <= i
        < s.queues.probation.len()) {
    } else {
        let n = s.queues.probation[i];
        assert(s.entries.dom().contains(n));
        match s.find(s.info(n).key_hash.key) {
            Some(e) => {
                let w = Victims {
                    nodes: v.nodes.push(n),
                    policy_weight: v.policy_weight + s.info(e).policy_weight,
                    freq: v.freq + s.sketch.frequency(s.info(n).key_hash.hash),
                    retries: 0,
                    ..v
                };
                assert(s.all_known(w.nodes));
                lemma_search_known(s, weight, freq, i + 1, w);
            },
            None => {
                let w = Victims { skipped: v.skipped.push(n), retries: v.retries + 1, ..v };
                assert(s.all_known(w.skipped));
                lemma_search_known(s, weight, freq, i + 1, w);
            },
        }
    }
}

proof fn lemma_evicted_carries<V>(s: CacheState<V>, nodes: Seq<usize>, skipped: Seq<usize>, n: int)
    requires
        known(s),
        s.all_known(nodes),
        s.all_known(skipped),
        0 <= n <= nodes.len(),
    ensures
        carries(s, s.evicted(nodes, skipped, n).0),
        s.all_known(s.evicted(nodes, skipped, n).1),
    decreases n,
{
    if n > 0 {
        lemma_evicted_carries(s, nodes, skipped, n - 1);
        let (s1, skipped1) = s.evicted(nodes, skipped, n - 1);
        let v = nodes[n - 1];
        assert(s.entries.dom().contains(v));
        let key = s1.info(v).key_hash.key;
        match s1.find(key) {
            Some(e) => {
                assert(s1.cache.dom().contains(key));
                lemma_steps(s1, e, 0, key);
                lemma_steps(s1.without_key(key), e, 0, key);
                lemma_carries_trans(s, s1, s1.without_key(key));
                lemma_carries_trans(s, s1.without_key(key), s1.without_key(key).dismissed(e));
            },
            None => {
                assert(s.all_known(skipped1.push(v)));
            },
        }
    } else {
        lemma_known_step(s, s);
    }
}

proof fn lemma_all_to_back_carries<V>(s: CacheState<V>, nodes: Seq<usize>, n: int)
    requires
        known(s),
        s.all_known(nodes),
        n <= nodes.len(),
    ensures
        carries(s, s.all_to_back_ao(nodes, n)),
    decreases n,
{
    if n > 0 {
        lemma_all_to_back_carries(s, nodes, n - 1);
        let s1 = s.all_to_back_ao(nodes, n - 1);
        assert(s.entries.dom().contains(nodes[n - 1]));
        lemma_steps(s1, nodes[n - 1], 0, 0);
        lemma_carries_trans(s, s1, s1.to_back_ao(nodes[n - 1]));
    } else {
        lemma_known_step(s, s);
    }
}

proof fn lemma_upserted_carries<V>(
    s: CacheState<V>,
    key: u64,
    hash: u64,
    e: usize,
    old_weight: u32,
    new_weight: u32,
)
    requires
        known(s),
        s.entries.dom().contains(e),
    ensures
        carries(s, s.upserted(key, hash, e, old_weight, new_weight)),
{
    lemma_steps(s, e, new_weight, key);
    if s.info(e).is_admitted {
        let s3 = CacheState {
            counters: s.counters.subtracted(0, old_weight).added(0, new_weight),
            ..s
        };
        lemma_known_step(s, s3);
        lemma_steps(s3, e, new_weight, key);
        lemma_steps(s3.to_back_ao(e), e, new_weight, key);
        lemma_carries_trans(s, s3, s3.to_back_ao(e));
        lemma_carries_trans(s, s3.to_back_ao(e), s3.to_back_ao(e).to_back_wo(e));
    } else if s.has_room_for(new_weight) {
    } else if new_weight > s.max_capacity->0 {
    } else {
        let freq = s.sketch.frequency(hash) as int;
        let v = s.victims(new_weight as int, freq);
        lemma_search_known(
            s,
            new_weight as int,
            freq,
            0,
            Victims {
                nodes: Seq::empty(),
                policy_weight: 0,
                freq: 0,
                skipped: Seq::empty(),
                retries: 0,
            },
        );
        if v.policy_weight >= new_weight && freq > v.freq {
            lemma_evicted_carries(s, v.nodes, v.skipped, v.nodes.len() as int);
            let (s3, skipped) = s.evicted(v.nodes, v.skipped, v.nodes.len() as int);
            lemma_steps(s3, e, new_weight, key);
            let s4 = s3.admitted(e, new_weight);
            assert(s4.all_known(skipped)) by {
                assert forall|i: int| 0 <= i < skipped.len() implies s4.entries.dom().contains(
                    #[trigger] skipped[i],
                ) by {
                    assert(s.entries.dom().contains(skipped[i]));
                }
            }
            lemma_all_to_back_carries(s4, skipped, skipped.len() as int);
            lemma_carries_trans(s, s3, s4);
            lemma_carries_trans(s, s4, s4.all_to_back_ao(skipped, skipped.len() as int));
        } else {
            let s3 = s.without_key(key);
            lemma_all_to_back_carries(s3, v.skipped, v.skipped.len() as int);
            lemma_carries_trans(s, s3, s3.all_to_back_ao(v.skipped, v.skipped.len() as int));
        }
    }
}

proof fn lemma_popped_known<V>(s: CacheState<V>)
    requires
        known(s),
    ensures
        s.reads.len() > 0 ==> carries(s, CacheState { reads: s.reads.remove(0), ..s }) && s.read_ok(
            s.reads[0],
        ),
        s.writes.len() > 0 ==> carries(s, CacheState { writes: s.writes.remove(0), ..s })
            && s.write_ok(s.writes[0]),
{
    if s.reads.len() > 0 {
        let s1 = CacheState { reads: s.reads.remove(0), ..s };
        assert(s.read_ok(s.reads[0]));
        assert forall|i: int| 0 <= i < s1.reads.len() implies s1.read_ok(#[trigger] s1.reads[i]) by {
            assert(s.read_ok(s.reads[i + 1]));
        }
        assert forall|i: int| 0 <= i < s1.writes.len() implies s1.write_ok(#[trigger] s1.writes[i]) by {
            assert(s.write_ok(s.writes[i]));
        }
        assert(s1.all_known(s1.queues.probation));
    }
    if s.writes.len() > 0 {
        let s1 = CacheState { writes: s.writes.remove(0), ..s };
        assert(s.write_ok(s.writes[0]));
        assert forall|i: int| 0 <= i < s1.writes.len() implies s1.write_ok(#[trigger] s1.writes[i]) by {
            assert(s.write_ok(s.writes[i + 1]));
        }
        assert forall|i: int| 0 <= i < s1.reads.len() implies s1.read_ok(#[trigger] s1.reads[i]) by {
            assert(s.read_ok(s.reads[i]));
        }
        assert(s1.all_known(s1.queues.probation));
    }
}

proof fn lemma_reads_carry<V>(s: CacheState<V>, n: nat)
    requires
        known(s),
    ensures
        carries(s, s.reads_applied(n)),
    decreases n,
{
    lemma_known_step(s, s);
    if n > 0 && s.reads.len() > 0 {
        lemma_popped_known(s);
        let s1 = CacheState { reads: s.reads.remove(0), ..s };
        let s4 = s.read_applied();
        match s.reads[0] {
            ReadOp::Hit { hash, entry } => {
                let s2 = CacheState { sketch: s1.sketch.incremented(hash), ..s1 };
                lemma_known_step(s1, s2);
                lemma_steps(s2, entry, 0, 0);
                lemma_carries_trans(s, s1, s2);
                lemma_carries_trans(s, s2, s4);
            },
            ReadOp::Miss(hash) => {
                lemma_known_step(s1, s4);
                lemma_carries_trans(s, s1, s4);
            },
        }
        lemma_reads_carry(s4, (n - 1) as nat);
        lemma_carries_trans(s, s4, s4.reads_applied((n - 1) as nat));
    }
}

proof fn lemma_writes_carry<V>(s: CacheState<V>, n: nat)
    requires
        known(s),
    ensures
        carries(s, s.writes_applied(n)),
    decreases n,
{
    lemma_known_step(s, s);
    if n > 0 && s.writes.len() > 0 {
        lemma_popped_known(s);
        let s1 = CacheState { writes: s.writes.remove(0), ..s };
        let s2 = s.write_applied();
        match s.writes[0] {
            WriteOp::Upsert { key, hash, entry, old_weight, new_weight } => {
                lemma_upserted_carries(s1, key, hash, entry, old_weight, new_weight);
            },
            WriteOp::Remove { key, entry } => {
                lemma_steps(s1, entry, 0, key);
            },
        }
        lemma_carries_trans(s, s1, s2);
        lemma_writes_carry(s2, (n - 1) as nat);
        lemma_carries_trans(s, s2, s2.writes_applied((n - 1) as nat));
    }
}

proof fn lemma_skipped_carries<V>(s: CacheState<V>, key: u64, region: CacheRegion)
    requires
        known(s),
    ensures
        carries(s, s.skipped_updated(key, region).0),
{
    lemma_known_step(s, s);
    match s.find(key) {
        Some(e) => {
            assert(s.cache.dom().contains(key));
            lemma_steps(s, e, 0, key);
            lemma_steps(s.to_back_ao(e), e, 0, key);
            lemma_carries_trans(s, s.to_back_ao(e), s.to_back_ao(e).to_back_wo(e));
        },
        None => {
            let q = s.queues.access_order(region);
            if q.len() > 0 {
                lemma_queue_known(s, q, q[0]);
                lemma_known_step(s, s.skipped_updated(key, region).0);
            }
        },
    }
}

proof fn lemma_removed_carries<V>(s: CacheState<V>, key: u64, e: usize)
    requires
        known(s),
        s.entries.dom().contains(e),
    ensures
        carries(s, s.without_key(key).dismissed(e)),
{
    lemma_steps(s, e, 0, key);
    lemma_steps(s.without_key(key), e, 0, key);
    lemma_carries_trans(s, s.without_key(key), s.without_key(key).dismissed(e));
}

proof fn lemma_expired_ao_carries<V>(s: CacheState<V>, region: CacheRegion, n: nat, now: Instant)
    requires
        known(s),
    ensures
        carries(s, s.expired_ao_removed(region, n, now)),
    decreases n,
{
    lemma_known_step(s, s);
    let queue = s.queues.access_order(region);
    if n == 0 || queue.len() == 0 || !s.expired_ao(queue[0], now) {
    } else {
        let key = s.info(queue[0]).key_hash.key;
        match s.find(key) {
            Some(e) if s.expired_ao(e, now) => {
                assert(s.cache.dom().contains(key));
                lemma_removed_carries(s, key, e);
                let s1 = s.without_key(key).dismissed(e);
                lemma_expired_ao_carries(s1, region, (n - 1) as nat, now);
                lemma_carries_trans(s, s1, s1.expired_ao_removed(region, (n - 1) as nat, now));
            },
            _ => {
                lemma_skipped_carries(s, key, region);
                let (s1, skipped) = s.skipped_updated(key, region);
                if skipped {
                    lemma_expired_ao_carries(s1, region, (n - 1) as nat, now);
                    lemma_carries_trans(s, s1, s1.expired_ao_removed(region, (n - 1) as nat, now));
                }
            },
        }
    }
}

proof fn lemma_expired_wo_carries<V>(s: CacheState<V>, n: nat, now: Instant)
    requires
        known(s),
    ensures
        carries(s, s.expired_wo_removed(n, now)),
    decreases n,
{
    lemma_known_step(s, s);
    let queue = s.queues.write_order;
    if n == 0 || queue.len() == 0 || !s.expired_wo(queue[0], now) {
    } else {
        let key = s.info(queue[0]).key_hash.key;
            match s.find(key) {
            Some(e) => {
                assert(s.cache.dom().contains(key));
                if s.expired_wo(e, now) {
                    lemma_removed_carries(s, key, e);
                    let s1 = s.without_key(key).dismissed(e);
                    lemma_expired_wo_carries(s1, (n - 1) as nat, now);
                    lemma_carries_trans(s, s1, s1.expired_wo_removed((n - 1) as nat, now));
                } else if s.info(e).last_modified@ is None {
                    lemma_steps(s, e, 0, key);
                    lemma_steps(s.to_back_ao(e), e, 0, key);
                    let s1 = s.to_back_ao(e).to_back_wo(e);
                    lemma_carries_trans(s, s.to_back_ao(e), s1);
                    lemma_expired_wo_carries(s1, (n - 1) as nat, now);
                    lemma_carries_trans(s, s1, s1.expired_wo_removed((n - 1) as nat, now));
                }
            },
            None => {
                assert(s.entries.dom().contains(queue[0]));
                lemma_steps(s, queue[0], 0, key);
                let s1 = s.to_back_wo(queue[0]);
                lemma_expired_wo_carries(s1, (n - 1) as nat, now);
                lemma_carries_trans(s, s1, s1.expired_wo_removed((n - 1) as nat, now));
            },
        }
    }
}

proof fn lemma_lru_carries<V>(s: CacheState<V>, n: nat, to_evict: u64, evicted: u64)
    requires
        known(s),
    ensures
        carries(s, s.lru_evicted(n, to_evict, evicted)),
    decreases n,
{
    lemma_known_step(s, s);
    let queue = s.queues.probation;
    if n == 0 || evicted >= to_evict || queue.len() == 0 {
    } else {
        let front = s.info(queue[0]);
        let key = front.key_hash.key;
        match s.find(key) {
            Some(e) if front.last_modified@ is Some && s.info(e).last_modified@
                == front.last_modified@ => {
                assert(s.cache.dom().contains(key));
                lemma_removed_carries(s, key, e);
                let s1 = s.without_key(key).dismissed(e);
                let more = sat_add(evicted, s.info(e).policy_weight as int);
                lemma_lru_carries(s1, (n - 1) as nat, to_evict, more);
                lemma_carries_trans(s, s1, s1.lru_evicted((n - 1) as nat, to_evict, more));
            },
            _ => {
                lemma_skipped_carries(s, key, CacheRegion::MainProbation);
                let (s1, skipped) = s.skipped_updated(key, CacheRegion::MainProbation);
                if skipped {
                    lemma_lru_carries(s1, (n - 1) as nat, to_evict, evicted);
                    lemma_carries_trans(s, s1, s1.lru_evicted((n - 1) as nat, to_evict, evicted));
                }
            },
        }
    }
}

/// Housekeeping gives no key a value that it did not have. It may take keys away.
pub proof fn housekeeping_keeps_values<V>(s: CacheState<V>, now: Instant)
    requires
        s.wf(),
    ensures
        keeps_values(s, s.synced(now)),
{
    reveal(CacheState::synced);
    lemma_wf_known(s);
    let n = EVICTION_BATCH_SIZE as nat;
    lemma_reads_carry(s, s.reads.len());
    let s1 = s.reads_applied(s.reads.len());
    lemma_writes_carry(s1, s1.writes.len());
    let s2 = s1.writes_applied(s1.writes.len());
    let s3 = s2.sketch_checked();
    lemma_known_step(s2, s3);
    lemma_carries_trans(s, s1, s2);
    lemma_carries_trans(s, s2, s3);
    lemma_known_step(s3, s3);
    let s4 = if s3.time_to_live is Some {
        lemma_expired_wo_carries(s3, n, now);
        s3.expired_wo_removed(n, now)
    } else {
        s3
    };
    lemma_expired_ao_carries(s4, CacheRegion::Window, n, now);
    let s5 = s4.expired_ao_removed(CacheRegion::Window, n, now);
    lemma_expired_ao_carries(s5, CacheRegion::MainProbation, n, now);
    let s6 = s5.expired_ao_removed(CacheRegion::MainProbation, n, now);
    lemma_expired_ao_carries(s6, CacheRegion::MainProtected, n, now);
    let s7 = s6.expired_ao_removed(CacheRegion::MainProtected, n, now);
    lemma_carries_trans(s4, s5, s6);
    lemma_carries_trans(s4, s6, s7);
    lemma_carries_trans(s3, s4, s7);
    lemma_known_step(s4, s4);
    let s8 = if s3.time_to_live is Some || s3.time_to_idle is Some || s3.valid_after is Some {
        s3.expired_removed(n, now)
    } else {
        s3
    };
    assert(carries(s3, s8));
    lemma_lru_carries(s8, n, s8.overweight(), 0);
    lemma_known_step(s8, s8);
    let s9 = s3.trimmed(now);
    lemma_carries_trans(s3, s8, s9);
    lemma_carries_trans(s, s3, s9);
    assert(s.synced(now) == s9.collected());
}

/// A key that is read after housekeeping has the value that it had before.
pub proof fn housekeeping_changes_no_value<V>(s: CacheState<V>, key: u64, now: Instant, later: Instant)
    requires
        is_sound(s),
        s.synced(now).lookup(key, later) is Some,
    ensures
        s.find(key) is Some,
        s.synced(now).lookup(key, later) == Some(s.entries[s.find(key)->0].value),
{
    housekeeping_keeps_values(s, now);
    housekeeping_keeps_order(s, now);
    let after = s.synced(now);
    assert(after.cache.dom().contains(key));
    assert(after.entries.dom().contains(after.cache[key]));
}

/// What goes, goes for a cause that tells whether it could still be read: a live entry for the
/// cause that is given, an expired entry because it expired, and an entry that was invalidated
/// before it expired because its user removed it.
pub proof fn cause_of_removal_is_true<V>(s: CacheState<V>, key: u64, now: Instant, live: RemovalCause)
    ensures
        s.find(key) is Some <==> s.cause_of_removal(key, now, live) is Some,
        s.lookup(key, now) is Some ==> s.cause_of_removal(key, now, live) == Some(live),
        s.find(key) is Some && s.lookup(key, now) is None ==> {
            let e = s.cache[key];
            &&& s.is_past(e, now) || s.is_invalidated(e)
            &&& s.cause_of_removal(key, now, live) == Some(
                if s.is_past(e, now) {
                    RemovalCause::Expired
                } else {
                    RemovalCause::Explicit
                },
            )
        },
{
}

} // verus!
