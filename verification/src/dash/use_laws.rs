//! What a user of a cache sees, told by times, weights and orders alone.
use vstd::prelude::*;

use super::capacity_laws::{
    least_recently_used_go_first, lemma_frequency_pushed, lemma_front_evicted, lemma_member_removed,
    lemma_prefix_evicted, lemma_search_prefix, lemma_total_pushed, lemma_total_same, lemma_total_unlinked, settled,
    settled_except, total_frequency, total_weight,
};
use super::state::{CacheState, Victims};
use crate::common::concurrent::deques::{lemma_moved, lemma_unlinked, unlinked, with_last, Queues};
use crate::common::op_log::{ReadOp, WriteOp};
use crate::common::time::{duration_nanos, Instant};
use crate::common::CacheRegion;
use crate::notification::RemovalCause;

verus! {

/// An entry is read exactly in its time: not yet as long after its last write as the time-to-live, nor as
/// long after its last use as the time-to-idle, and not touched before the time at which all entries
/// were last invalidated.
pub proof fn entry_is_read_exactly_in_its_time<V>(s: CacheState<V>, key: u64, now: Instant)
    requires
        s.cache.dom().contains(key),
        now.nanos < u64::MAX,
    ensures
        ({
            let e = s.cache[key];
            let written = s.entries[e].info.last_modified@;
            let used = s.entries[e].info.last_accessed@;
            let lives = s.time_to_live is Some && written is Some ==> now.nanos - written->0.nanos
                < duration_nanos(s.time_to_live->0);
            let is_used = s.time_to_idle is Some && used is Some ==> now.nanos - used->0.nanos
                < duration_nanos(s.time_to_idle->0);
            let is_valid = s.valid_after is Some ==> (written is Some ==> s.valid_after->0.nanos
                <= written->0.nanos) && (used is Some ==> s.valid_after->0.nanos <= used->0.nanos);
            s.lookup(key, now) == if lives && is_used && is_valid {
                Some(s.entries[e].value)
            } else {
                None
            }
        }),
{
}

/// A key that is not in the hash table is not read.
pub proof fn absent_key_is_not_read<V>(s: CacheState<V>, key: u64, now: Instant)
    requires
        !s.cache.dom().contains(key),
    ensures
        s.lookup(key, now) is None,
{
}

/// Why the entry of a key goes: because it has lived or idled for as long as it may; else, because all
/// entries of its time were invalidated; else for the cause that is given.
pub proof fn cause_is_told_by_the_times<V>(s: CacheState<V>, key: u64, now: Instant, live: RemovalCause)
    requires
        s.cache.dom().contains(key),
        now.nanos < u64::MAX,
    ensures
        ({
            let info = s.entries[s.cache[key]].info;
            let written = info.last_modified@;
            let used = info.last_accessed@;
            let is_over = (s.time_to_live is Some && written is Some && now.nanos - written->0.nanos
                >= duration_nanos(s.time_to_live->0)) || (s.time_to_idle is Some && used is Some
                && now.nanos - used->0.nanos >= duration_nanos(s.time_to_idle->0));
            let is_void = s.valid_after is Some && ((written is Some && written->0.nanos
                < s.valid_after->0.nanos) || (used is Some && used->0.nanos
                < s.valid_after->0.nanos));
            s.cause_of_removal(key, now, live) == Some(
                if is_over {
                    RemovalCause::Expired
                } else if is_void {
                    RemovalCause::Explicit
                } else {
                    live
                },
            )
        }),
{
}

/// A write gives the key the value, the weight and the time, and leaves every other key as it was; it
/// waits behind all the other writes.
pub proof fn write_is_seen_at_once<V>(
    s: CacheState<V>,
    after: CacheState<V>,
    key: u64,
    hash: u64,
    value: V,
    weight: u32,
    now: Instant,
    other: u64,
)
    requires
        s.wf(),
        s.put(after, key, hash, value, weight, now),
        now.nanos < u64::MAX,
        other != key,
    ensures
        after.cache.dom().contains(key),
        ({
            let entry = after.entries[after.cache[key]];
            &&& entry.value == value
            &&& entry.info.key_hash.key == key
            &&& entry.info.policy_weight == weight
            &&& entry.info.last_modified@ == Some(now)
            &&& entry.info.last_accessed@ == Some(now)
        }),
        after.cache.dom().contains(other) <==> s.cache.dom().contains(other),
        s.cache.dom().contains(other) ==> after.cache[other] == s.cache[other]
            && after.entries[after.cache[other]] == s.entries[s.cache[other]],
        after.writes.len() == s.writes.len() + 1,
        after.writes.drop_last() == s.writes,
        after.writes.last() is Upsert,
        after.writes.last()->Upsert_entry == after.cache[key],
        after.writes.last()->Upsert_key == key,
        after.writes.last()->hash == hash,
        after.writes.last()->new_weight == weight,
        s.cache.dom().contains(key) ==> after.cache[key] == s.cache[key]
            && after.writes.last()->old_weight == s.entries[s.cache[key]].info.policy_weight,
        !s.cache.dom().contains(key) ==> !after.entries[after.cache[key]].info.is_admitted
            && after.entries[after.cache[key]].info.key_hash.hash == hash,
        after.queues == s.queues,
        after.counters == s.counters,
        after.sketch == s.sketch,
        after.reads == s.reads,
{
    assert(s.cache.dom().contains(other) ==> s.entries.dom().contains(s.cache[other]));
    assert(s.cache.dom().contains(key) ==> s.entries.dom().contains(s.cache[key]));
    if s.cache.dom().contains(other) {
        assert(s.info(s.cache[other]).key_hash.key == other);
    }
    if s.cache.dom().contains(key) {
        assert(s.info(s.cache[key]).key_hash.key == key);
    }
    assert(after.writes.drop_last() =~= s.writes);
}

/// A removal takes the key out and leaves every other key as it was; it waits behind all the writes.
pub proof fn removal_is_seen_at_once<V>(s: CacheState<V>, key: u64, other: u64)
    requires
        other != key,
    ensures
        ({
            let after = s.taken(key);
            &&& !after.cache.dom().contains(key)
            &&& after.cache.dom().contains(other) <==> s.cache.dom().contains(other)
            &&& s.cache.dom().contains(other) ==> after.cache[other] == s.cache[other]
            &&& after.entries == s.entries
            &&& after.queues == s.queues
            &&& after.counters == s.counters
            &&& s.cache.dom().contains(key) ==> after.writes.drop_last() == s.writes
                && after.writes.last() is Remove && after.writes.last()->Remove_entry == s.cache[key]
            &&& !s.cache.dom().contains(key) ==> after.writes == s.writes
        }),
{
    let after = s.taken(key);
    if s.cache.dom().contains(key) {
        assert(after.writes.drop_last() =~= s.writes);
    } else {
        assert(after == s);
    }
}

/// A read that finds a value makes its entry used now, and changes no value and no time of writing. It is
/// logged, with the hash of the key, as long as the log takes more: up to 3072 reads. A read that finds
/// none is logged too, and changes nothing else.
pub proof fn read_is_noted<V>(s: CacheState<V>, key: u64, hash: u64, now: Instant, x: usize)
    requires
        now.nanos < u64::MAX,
    ensures
        ({
            let after = s.read_at(key, hash, now);
            let found = s.lookup(key, now) is Some;
            &&& after.cache == s.cache
            &&& after.queues == s.queues
            &&& after.writes == s.writes
            &&& after.counters == s.counters
            &&& after.sketch == s.sketch
            &&& after.entries[x].value == s.entries[x].value
            &&& after.entries[x].info.last_modified == s.entries[x].info.last_modified
            &&& after.entries[x].info.policy_weight == s.entries[x].info.policy_weight
            &&& found && x == s.cache[key] ==> after.entries[x].info.last_accessed@ == Some(now)
            &&& !(found && x == s.cache[key]) ==> after.entries[x] == s.entries[x]
            &&& s.reads.len() >= 3072 ==> after.reads == s.reads
            &&& s.reads.len() < 3072 ==> after.reads.drop_last() == s.reads && match after.reads.last() {
                ReadOp::Hit { hash: h, entry } => found && h == hash && entry == s.cache[key],
                ReadOp::Miss(h) => !found && h == hash,
            }
        }),
{
    let after = s.read_at(key, hash, now);
    if s.reads.len() < 3072 {
        assert(after.reads.drop_last() =~= s.reads);
    }
}

/// The policies count every read, whether it found a value or not. One that did makes its entry the last
/// of the queue, and the others keep their order; one that did not changes no order.
pub proof fn read_is_shown_to_the_policies<V>(s: CacheState<V>, i: int)
    requires
        s.wf(),
        s.reads.len() > 0,
    ensures
        ({
            let after = s.read_applied();
            let q = s.queues.probation;
            &&& after.reads == s.reads.skip(1)
            &&& after.cache == s.cache
            &&& after.entries == s.entries
            &&& after.counters == s.counters
            &&& after.queues.write_order == s.queues.write_order
            &&& match s.reads[0] {
                ReadOp::Hit { hash, entry } => {
                    &&& after.sketch == s.sketch.incremented(hash)
                    &&& 0 <= i < q.len() && q[i] == entry ==> after.queues.probation == with_last(q, i)
                    &&& !q.contains(entry) ==> after.queues.probation == q
                },
                ReadOp::Miss(hash) => after.sketch == s.sketch.incremented(hash)
                    && after.queues.probation == q,
            }
        }),
{
    let q = s.queues.probation;
    assert(s.reads.remove(0) =~= s.reads.skip(1));
    if 0 <= i < q.len() {
        lemma_moved(q, i);
    }
}

/// An update of an entry that is in the queue counts its new weight in place of the old one, and makes it
/// the last of the queue; the others keep their order. Where entries have a time-to-live, the same holds
/// of the order of writing.
pub proof fn updated_entry_goes_last<V>(
    s: CacheState<V>,
    key: u64,
    hash: u64,
    old_weight: u32,
    weight: u32,
    i: int,
    j: int,
)
    requires
        0 <= i < s.queues.probation.len(),
        s.queues.probation.no_duplicates(),
        s.queues.write_order.no_duplicates(),
        s.entries[s.queues.probation[i]].info.is_admitted,
        old_weight <= s.counters.weighted_size,
        s.counters.weighted_size - old_weight + weight <= u64::MAX,
    ensures
        ({
            let e = s.queues.probation[i];
            let after = s.upserted(key, hash, e, old_weight, weight);
            let w = s.queues.write_order;
            &&& after.queues.probation == with_last(s.queues.probation, i)
            &&& 0 <= j < w.len() && w[j] == e ==> after.queues.write_order == with_last(w, j)
            &&& after.counters.weighted_size == s.counters.weighted_size - old_weight + weight
            &&& after.counters.entry_count == s.counters.entry_count
            &&& after.cache == s.cache
            &&& after.entries == s.entries
        }),
{
    lemma_moved(s.queues.probation, i);
    if 0 <= j < s.queues.write_order.len() {
        lemma_moved(s.queues.write_order, j);
    }
}

/// A new entry comes in exactly as long as all entries together then weigh no more than the capacity, or
/// where there is none: it becomes the last of the queue, its weight is counted, and nothing else goes.
pub proof fn entry_comes_in_while_it_fits<V>(
    s: CacheState<V>,
    key: u64,
    hash: u64,
    e: usize,
    old_weight: u32,
    weight: u32,
)
    requires
        s.wf(),
        s.entries.dom().contains(e),
        !s.entries[e].info.is_admitted,
        s.max_capacity is None || s.counters.weighted_size + weight <= s.max_capacity->0,
        s.counters.weighted_size + weight <= u64::MAX,
        s.counters.entry_count < u64::MAX,
    ensures
        ({
            let after = s.upserted(key, hash, e, old_weight, weight);
            &&& after.entries[e].info.is_admitted
            &&& after.queues.probation == s.queues.probation.push(e)
            &&& s.time_to_live is Some ==> after.queues.write_order == s.queues.write_order.push(e)
            &&& after.cache == s.cache
            &&& after.counters.weighted_size == s.counters.weighted_size + weight
            &&& after.counters.entry_count == s.counters.entry_count + 1
        }),
{
}

/// The policies are shown a removal: the entry is taken out of the queue, its weight is no longer
/// counted, and the others keep their order.
pub proof fn removed_entry_is_let_out<V>(s: CacheState<V>, i: int, j: int)
    requires
        s.wf(),
        s.writes.len() > 0,
        s.writes[0] is Remove,
        0 <= i < s.queues.probation.len(),
        s.queues.probation[i] == s.writes[0]->Remove_entry,
        s.entries[s.queues.probation[i]].info.policy_weight <= s.counters.weighted_size,
    ensures
        ({
            let e = s.queues.probation[i];
            let q = s.queues.probation;
            let w = s.queues.write_order;
            let after = s.write_applied();
            &&& after.queues.probation == q.take(i) + q.skip(i + 1)
            &&& 0 <= j < w.len() && w[j] == e ==> after.queues.write_order == w.take(j) + w.skip(j + 1)
            &&& after.counters.weighted_size == s.counters.weighted_size - s.entries[e].info.policy_weight
            &&& after.counters.entry_count == s.counters.entry_count - 1
            &&& after.cache == s.cache
            &&& after.writes == s.writes.skip(1)
        }),
{
    let e = s.queues.probation[i];
    assert(s.queues.probation.contains(e));
    assert(s.entries.dom().contains(e) && s.info(e).is_admitted);
    assert(s.writes.remove(0) =~= s.writes.skip(1));
    lemma_moved(s.queues.probation, i);
    if 0 <= j < s.queues.write_order.len() {
        lemma_moved(s.queues.write_order, j);
    }
}

proof fn lemma_longer_is_heavier<V>(s: CacheState<V>, q: Seq<usize>, a: int, b: int)
    requires
        0 <= a <= b <= q.len(),
    ensures
        total_weight(s, q.take(a)) <= total_weight(s, q.take(b)),
        total_frequency(s, q.take(a)) <= total_frequency(s, q.take(b)),
    decreases b - a,
{
    if a < b {
        lemma_longer_is_heavier(s, q, a, b - 1);
        assert(q.take(b) =~= q.take(b - 1).push(q[b - 1]));
        lemma_total_pushed(s, q.take(b - 1), q[b - 1]);
        lemma_frequency_pushed(s, q.take(b - 1), q[b - 1]);
    }
}

/// The first `k` of the queue are just heavy enough to make room for the weight, and were used less
/// often, all together, than this.
pub open spec fn are_victims<V>(s: CacheState<V>, k: int, weight: u32, freq: int) -> bool {
    let q = s.queues.probation;
    &&& 0 <= k <= q.len()
    &&& total_weight(s, q.take(k)) >= weight
    &&& k > 0 ==> total_weight(s, q.take(k - 1)) < weight
    &&& total_frequency(s, q.take(k)) < freq
}

/// Where a new entry does not fit, it comes in exactly if the entries that were not used for longest,
/// just as many as weigh enough to make room for it, were used less often, all together, than it. Then
/// these go, and the new entry becomes the last of the queue. Else nothing goes but the key of the new
/// entry. The cache is settled but for that key.
pub proof fn entry_replaces_less_used_ones<V>(
    s: CacheState<V>,
    key: u64,
    hash: u64,
    e: usize,
    old_weight: u32,
    weight: u32,
    k: int,
    other: u64,
)
    requires
        settled_except(s, Set::empty().insert(key)),
        s.find(key) == Some(e),
        !s.entries[e].info.is_admitted,
        s.max_capacity is Some,
        weight <= s.max_capacity->0,
        s.counters.weighted_size + weight > s.max_capacity->0,
        0 <= k <= s.queues.probation.len(),
    ensures
        ({
            let after = s.upserted(key, hash, e, old_weight, weight);
            let freq = s.sketch.frequency(hash) as int;
            let q = s.queues.probation;
            &&& are_victims(s, k, weight, freq) ==> {
                &&& after.entries[e].info.is_admitted
                &&& after.queues.probation == q.skip(k).push(e)
                &&& after.counters.weighted_size == s.counters.weighted_size - total_weight(s, q.take(k))
                    + weight
                &&& after.cache.dom().contains(other) <==> s.cache.dom().contains(other) && !q.take(
                    k,
                ).contains(s.cache[other])
            }
            &&& (forall|m: int| !are_victims(s, m, weight, freq)) ==> {
                &&& !after.entries[e].info.is_admitted
                &&& after.queues.probation == q
                &&& after.counters == s.counters
                &&& after.cache == s.cache.remove(key)
            }
            &&& after.cache.dom().contains(other) ==> after.cache[other] == s.cache[other]
        }),
{
    let pending = Set::<u64>::empty().insert(key);
    let q = s.queues.probation;
    let freq = s.sketch.frequency(hash) as int;
    let v = s.victims(weight as int, freq);
    assert(q.take(0) =~= Seq::<usize>::empty());
    lemma_search_prefix(
        s,
        pending,
        weight as int,
        freq,
        0,
        Victims {
            nodes: Seq::empty(),
            policy_weight: 0,
            freq: 0,
            skipped: Seq::empty(),
            retries: 0,
        },
    );
    let m = v.nodes.len() as int;
    assert(v.skipped == Seq::<usize>::empty()) by {
        lemma_none_skipped(
            s,
            pending,
            weight as int,
            freq,
            0,
            Victims {
                nodes: Seq::empty(),
                policy_weight: 0,
                freq: 0,
                skipped: Seq::empty(),
                retries: 0,
            },
        );
    }
    if are_victims(s, k, weight, freq) {
        if m < k {
            lemma_longer_is_heavier(s, q, m, k - 1);
            lemma_longer_is_heavier(s, q, m, k);
        } else if m > k {
            lemma_longer_is_heavier(s, q, k, m - 1);
        }
        assert(m == k);
    }
    if v.policy_weight >= weight && freq > v.freq {
        assert(are_victims(s, m, weight, freq));
        lemma_prefix_evicted(s, pending, v.skipped, v.nodes, m);
        assert(v.nodes.take(m) =~= v.nodes);
        let (s1, skipped) = s.evicted(v.nodes, v.skipped, m);
        s1.admitted(e, weight).lemma_all_to_back(skipped, skipped.len() as int);
        if s1.cache.dom().contains(other) {
            assert(s1.cache[other] == s.cache[other]);
        }
    } else {
        s.without_key(key).lemma_all_to_back(v.skipped, v.skipped.len() as int);
    }
}

/// In a settled cache no entry of the queue is found to be gone.
proof fn lemma_none_skipped<V>(
    s: CacheState<V>,
    pending: Set<u64>,
    weight: int,
    freq: int,
    i: int,
    v: Victims,
)
    requires
        settled_except(s, pending),
        0 <= i,
    ensures
        s.search(weight, freq, i, v).skipped == v.skipped,
    decreases s.queues.probation.len() - i,
{
    let q = s.queues.probation;
    if v.policy_weight >= weight || freq < v.freq || v.retries > super::state::MAX_CONSECUTIVE_RETRIES || !(0
        <= i < q.len()) {
    } else {
        let n = q[i];
        assert(q.contains(n));
        assert(s.in_cache(n));
        let w = Victims {
            nodes: v.nodes.push(n),
            policy_weight: v.policy_weight + s.info(n).policy_weight,
            freq: v.freq + s.sketch.frequency(s.info(n).key_hash.hash),
            retries: 0,
            ..v
        };
        lemma_none_skipped(s, pending, weight, freq, i + 1, w);
    }
}

/// Housekeeping of a settled cache whose entries do not expire evicts from the front of the queue, and just
/// as many as are needed for the rest to weigh no more than the capacity; no more than 500 at once.
/// Without a capacity it evicts none.
pub proof fn housekeeping_evicts_just_enough<V>(s: CacheState<V>, now: Instant)
    requires
        settled(s),
        s.reads.len() == 0,
        s.writes.len() == 0,
        s.time_to_live is None,
        s.time_to_idle is None,
        s.valid_after is None,
    ensures
        ({
            let after = s.synced(now);
            let q = s.queues.probation;
            &&& s.max_capacity is None ==> after.queues.probation == q
            &&& s.max_capacity is Some ==> exists|k: int|
                {
                    &&& 0 <= k <= q.len()
                    &&& k <= 500
                    &&& after.queues.probation == #[trigger] q.skip(k)
                    &&& after.counters.weighted_size <= s.max_capacity->0 || k == 500
                    &&& k > 0 ==> s.counters.weighted_size - total_weight(s, q.take(k - 1))
                        > s.max_capacity->0
                }
        }),
{
    reveal(CacheState::synced);
    let q = s.queues.probation;
    assert(s.reads_applied(0) == s);
    assert(s.writes_applied(0) == s);
    let t = s.sketch_checked();
    assert(s.logs_applied() == t);
    lemma_checked(s);
    if t.max_capacity is Some {
        least_recently_used_go_first(t);
        let after = t.lru_evicted(500, t.overweight(), 0);
        let k = choose|k: int|
            {
                &&& 0 <= k <= 500
                &&& after.queues.probation == #[trigger] q.skip(k)
                &&& k <= q.len()
                &&& after.counters.weighted_size <= t.max_capacity->0 || k == 500
                &&& k > 0 ==> total_weight(t, q.take(k - 1)) < t.overweight()
                &&& k > 0 ==> t.counters.weighted_size - total_weight(t, q.take(k - 1)) > t.max_capacity->0
            };
        if k > 0 {
            lemma_total_same(t, s, q.take(k - 1));
        }
        assert(q.skip(0) =~= q);
        if t.overweight() == 0 {
            assert(s.synced(now).queues.probation == q.skip(0));
        }
    }
}

/// The cache gets its frequency sketch when it is half full, and not before; without a capacity it gets
/// none. Once it has one, it keeps it.
pub proof fn sketch_comes_when_half_full<V>(s: CacheState<V>)
    ensures
        ({
            let after = s.sketch_checked();
            let is_half_full = s.max_capacity is Some && 2 * s.counters.weighted_size + 1
                >= s.max_capacity->0;
            &&& after.sketch_enabled <==> s.sketch_enabled || is_half_full
            &&& s.sketch_enabled ==> after.sketch == s.sketch
            &&& !is_half_full ==> after.sketch == s.sketch
            &&& after.cache == s.cache
            &&& after.queues == s.queues
        }),
{
}

/// The entry was last used as long ago as it may idle, or before all entries were invalidated.
pub open spec fn has_idled<V>(s: CacheState<V>, e: usize, now: Instant) -> bool {
    let used = s.entries[e].info.last_accessed@;
    used is Some && ({
        ||| s.time_to_idle is Some && now.nanos - used->0.nanos >= duration_nanos(s.time_to_idle->0)
        ||| s.valid_after is Some && used->0.nanos < s.valid_after->0.nanos
    })
}

/// The entry was last written as long ago as it may live, or before all entries were invalidated.
pub open spec fn has_lived<V>(s: CacheState<V>, e: usize, now: Instant) -> bool {
    let written = s.entries[e].info.last_modified@;
    written is Some && ({
        ||| s.time_to_live is Some && now.nanos - written->0.nanos >= duration_nanos(s.time_to_live->0)
        ||| s.valid_after is Some && written->0.nanos < s.valid_after->0.nanos
    })
}

/// Entries went, and nothing else changed of the times.
pub open spec fn some_went<V>(s: CacheState<V>, after: CacheState<V>) -> bool {
    &&& settled(after)
    &&& after.time_to_live == s.time_to_live
    &&& after.time_to_idle == s.time_to_idle
    &&& after.valid_after == s.valid_after
    &&& after.max_capacity == s.max_capacity
    &&& forall|x: usize|
        #![trigger after.info(x)]
        after.info(x).last_accessed == s.info(x).last_accessed && after.info(x).last_modified == s.info(x).last_modified && after.info(
            x,
        ).key_hash == s.info(x).key_hash && after.info(x).policy_weight == s.info(x).policy_weight
    &&& forall|x: usize| (#[trigger] after.entries[x]).value == s.entries[x].value
    &&& forall|k: u64| #[trigger]
        after.cache.dom().contains(k) ==> s.cache.dom().contains(k) && after.cache[k] == s.cache[k]
}

proof fn lemma_one_went<V>(s: CacheState<V>, e: usize)
    requires
        settled(s),
        s.queues.probation.contains(e),
    ensures
        some_went(s, s.without_key(s.info(e).key_hash.key).dismissed(e)),
{
    lemma_member_removed(s, Set::empty(), e);
    let t = s.without_key(s.info(e).key_hash.key);
    let after = t.dismissed(e);
    assert(s.entries.dom().contains(e) && s.info(e).is_admitted);
    assert forall|x: usize|
        #![trigger after.info(x)]
        after.info(x).last_accessed == s.info(x).last_accessed && after.info(x).last_modified == s.info(x).last_modified && after.info(
            x,
        ).key_hash == s.info(x).key_hash && after.info(x).policy_weight == s.info(x).policy_weight by {
        if x != e {
            assert(after.entries[x] == s.entries[x]);
        }
    }
}

proof fn lemma_went_on<V>(a: CacheState<V>, b: CacheState<V>, c: CacheState<V>)
    requires
        some_went(a, b),
        some_went(b, c),
    ensures
        some_went(a, c),
{
    assert forall|x: usize|
        #![trigger c.info(x)]
        c.info(x).last_accessed == a.info(x).last_accessed && c.info(x).last_modified == a.info(x).last_modified && c.info(x).key_hash == a.info(x).key_hash
            && c.info(x).policy_weight == a.info(x).policy_weight by {
        let i = b.info(x);
        let j = c.info(x);
        assert(i.key_hash == a.info(x).key_hash);
        assert(j.key_hash == i.key_hash);
        assert(j.last_accessed == i.last_accessed);
    }
    assert forall|x: usize| (#[trigger] c.entries[x]).value == a.entries[x].value by {
        assert(b.entries[x].value == a.entries[x].value);
    }
    assert forall|k: u64| #[trigger] c.cache.dom().contains(k) implies a.cache.dom().contains(k) && c.cache[k]
        == a.cache[k] by {
        assert(b.cache.dom().contains(k));
    }
}

/// None of these entries of the cache is under its key any more.
pub open spec fn are_gone<V>(s: CacheState<V>, after: CacheState<V>, nodes: Seq<usize>) -> bool {
    forall|i: int|
        #![trigger nodes[i]]
        0 <= i < nodes.len() ==> !after.cache.dom().contains(s.entries[nodes[i]].info.key_hash.key)
}

/// The entries that have idled for too long go, from the front of the queue to the first that has not, and
/// no more than `n` at once.
pub proof fn idle_entries_go<V>(s: CacheState<V>, n: nat, now: Instant)
    requires
        settled(s),
        now.nanos < u64::MAX,
    ensures
        ({
            let after = s.expired_ao_removed(CacheRegion::MainProbation, n, now);
            let q = s.queues.probation;
            &&& some_went(s, after)
            &&& exists|k: int|
                {
                    &&& 0 <= k <= n
                    &&& k <= q.len()
                    &&& after.queues.probation == #[trigger] q.skip(k)
                    &&& k == n || k == q.len() || !has_idled(s, q[k], now)
                    &&& forall|i: int| 0 <= i < k ==> has_idled(s, #[trigger] q[i], now)
                }
            &&& forall|key: u64| #[trigger]
                s.cache.dom().contains(key) && !has_idled(s, s.cache[key], now)
                    ==> after.cache.dom().contains(key)
        }),
    decreases n,
{
    let q = s.queues.probation;
    let region = CacheRegion::MainProbation;
    assert(q.skip(0) =~= q);
    if n == 0 || q.len() == 0 || !s.expired_ao(q[0], now) {
    } else {
        let e = q[0];
        assert(q.contains(e));
        lemma_front_evicted(s, Set::empty());
        let t = s.without_key(s.info(e).key_hash.key).dismissed(e);
        lemma_one_went(s, e);
        assert(s.expired_ao_removed(region, n, now) == t.expired_ao_removed(region, (n - 1) as nat, now));
        idle_entries_go(t, (n - 1) as nat, now);
        let after = t.expired_ao_removed(region, (n - 1) as nat, now);
        let k = choose|k: int|
            {
                &&& 0 <= k <= n - 1
                &&& k <= q.skip(1).len()
                &&& after.queues.probation == #[trigger] q.skip(1).skip(k)
                &&& k == n - 1 || k == q.skip(1).len() || !has_idled(t, q.skip(1)[k], now)
                &&& forall|i: int| 0 <= i < k ==> has_idled(t, #[trigger] q.skip(1)[i], now)
            };
        assert(q.skip(1).skip(k) =~= q.skip(k + 1));
        assert forall|i: int| 0 <= i < k + 1 implies has_idled(s, #[trigger] q[i], now) by {
            if i > 0 {
                assert(q.skip(1)[i - 1] == q[i]);
                assert(has_idled(t, q[i], now));
            }
        }
        assert forall|key: u64| #[trigger]
            s.cache.dom().contains(key) && !has_idled(s, s.cache[key], now) implies after.cache.dom().contains(
            key,
        ) by {
            assert(has_idled(s, e, now));
            assert(s.info(s.cache[key]).key_hash.key == key);
            assert(t.cache.dom().contains(key));
        }
        lemma_went_on(s, t, after);
    }
}

/// The entries that have lived for too long go, from the front of the queue in the order of writing to the
/// first that has not, and no more than `n` at once.
pub proof fn old_entries_go<V>(s: CacheState<V>, n: nat, now: Instant)
    requires
        settled(s),
        s.time_to_live is Some,
        now.nanos < u64::MAX,
    ensures
        ({
            let after = s.expired_wo_removed(n, now);
            let q = s.queues.write_order;
            &&& some_went(s, after)
            &&& exists|k: int|
                {
                    &&& 0 <= k <= n
                    &&& k <= q.len()
                    &&& after.queues.write_order == #[trigger] q.skip(k)
                    &&& k == n || k == q.len() || !has_lived(s, q[k], now)
                    &&& forall|i: int| 0 <= i < k ==> has_lived(s, #[trigger] q[i], now)
                }
            &&& forall|key: u64| #[trigger]
                s.cache.dom().contains(key) && !has_lived(s, s.cache[key], now)
                    ==> after.cache.dom().contains(key)
        }),
    decreases n,
{
    let q = s.queues.write_order;
    assert(q.skip(0) =~= q);
    if n == 0 || q.len() == 0 || !s.expired_wo(q[0], now) {
    } else {
        let e = q[0];
        assert(q.contains(e));
        assert(s.queues.probation.contains(e));
        lemma_member_removed(s, Set::empty(), e);
        let t = s.without_key(s.info(e).key_hash.key).dismissed(e);
        lemma_one_went(s, e);
        lemma_moved(q, 0);
        assert(q.take(0) + q.skip(1) =~= q.skip(1));
        assert(s.info(e).is_admitted);
        assert(t.queues.write_order == q.skip(1));
        assert(s.expired_wo_removed(n, now) == t.expired_wo_removed((n - 1) as nat, now));
        old_entries_go(t, (n - 1) as nat, now);
        let after = t.expired_wo_removed((n - 1) as nat, now);
        let k = choose|k: int|
            {
                &&& 0 <= k <= n - 1
                &&& k <= q.skip(1).len()
                &&& after.queues.write_order == #[trigger] q.skip(1).skip(k)
                &&& k == n - 1 || k == q.skip(1).len() || !has_lived(t, q.skip(1)[k], now)
                &&& forall|i: int| 0 <= i < k ==> has_lived(t, #[trigger] q.skip(1)[i], now)
            };
        assert(q.skip(1).skip(k) =~= q.skip(k + 1));
        assert forall|i: int| 0 <= i < k + 1 implies has_lived(s, #[trigger] q[i], now) by {
            if i > 0 {
                assert(q.skip(1)[i - 1] == q[i]);
                assert(has_lived(t, q[i], now));
            }
        }
        assert forall|key: u64| #[trigger]
            s.cache.dom().contains(key) && !has_lived(s, s.cache[key], now) implies after.cache.dom().contains(
            key,
        ) by {
            assert(has_lived(s, e, now));
            assert(s.info(s.cache[key]).key_hash.key == key);
            assert(t.cache.dom().contains(key));
        }
        lemma_went_on(s, t, after);
    }
}

/// Housekeeping of a settled cache that is not too heavy takes no key away whose entry may still live and
/// idle. Where an entry at the front of a queue has lived or idled for too long, it goes, up to 500 of
/// each queue.
pub proof fn housekeeping_takes_what_is_over<V>(s: CacheState<V>, now: Instant, key: u64)
    requires
        settled(s),
        s.reads.len() == 0,
        s.writes.len() == 0,
        s.max_capacity is None || s.counters.weighted_size <= s.max_capacity->0,
        now.nanos < u64::MAX,
    ensures
        ({
            let after = s.synced(now);
            let w = s.queues.write_order;
            let q = s.queues.probation;
            &&& after.cache.dom().contains(key) ==> s.cache.dom().contains(key) && after.cache[key]
                == s.cache[key]
            &&& s.cache.dom().contains(key) && !has_idled(s, s.cache[key], now) && !has_lived(
                s,
                s.cache[key],
                now,
            ) ==> after.cache.dom().contains(key)
            &&& s.time_to_live is Some ==> exists|k: int|
                {
                    &&& 0 <= k <= 500
                    &&& k <= w.len()
                    &&& are_gone(s, after, #[trigger] w.take(k))
                    &&& k == 500 || k == w.len() || !has_lived(s, w[k], now)
                }
            &&& s.time_to_idle is Some || s.valid_after is Some ==> {
                ||| after.queues.probation.len() == 0
                ||| !has_idled(s, after.queues.probation[0], now)
                ||| after.queues.probation.len() + 500 <= q.len()
            }
            &&& s.time_to_live is Some && s.time_to_idle is None && s.valid_after is None ==> exists|k: int|
                {
                    &&& 0 <= k <= 500
                    &&& k <= w.len()
                    &&& after.queues.write_order == #[trigger] w.skip(k)
                    &&& k == 500 || k == w.len() || !has_lived(s, w[k], now)
                    &&& forall|i: int| 0 <= i < k ==> has_lived(s, #[trigger] w[i], now)
                }
            &&& s.time_to_live is None && (s.time_to_idle is Some || s.valid_after is Some) ==> exists|
                k: int,
            |
                {
                    &&& 0 <= k <= 500
                    &&& k <= q.len()
                    &&& after.queues.probation == #[trigger] q.skip(k)
                    &&& k == 500 || k == q.len() || !has_idled(s, q[k], now)
                    &&& forall|i: int| 0 <= i < k ==> has_idled(s, #[trigger] q[i], now)
                }
        }),
{
    reveal(CacheState::synced);
    assert(s.reads_applied(0) == s);
    assert(s.writes_applied(0) == s);
    let t = s.sketch_checked();
    assert(s.logs_applied() == t);
    lemma_checked(s);
    lemma_trimmed_by_time(t, now, key);
    let q = s.queues.probation;
    let w = s.queues.write_order;
    assert(forall|i: int| 0 <= i < q.len() ==> has_idled(t, #[trigger] q[i], now) == has_idled(s, q[i], now));
    assert(forall|i: int| 0 <= i < w.len() ==> has_lived(t, #[trigger] w[i], now) == has_lived(s, w[i], now));
    let after = s.synced(now);
    if s.time_to_live is Some {
        let k = choose|k: int|
            {
                &&& 0 <= k <= 500
                &&& k <= w.len()
                &&& are_gone(t, t.trimmed(now), #[trigger] w.take(k))
                &&& k == 500 || k == w.len() || !has_lived(t, w[k], now)
            };
        assert(are_gone(s, after, w.take(k)));
    }
}

proof fn lemma_checked<V>(s: CacheState<V>)
    requires
        settled(s),
    ensures
        ({
            let t = s.sketch_checked();
            &&& settled(t)
            &&& t.queues == s.queues
            &&& t.counters == s.counters
            &&& t.entries == s.entries
            &&& t.cache == s.cache
            &&& t.time_to_live == s.time_to_live
            &&& t.time_to_idle == s.time_to_idle
            &&& t.valid_after == s.valid_after
            &&& t.max_capacity == s.max_capacity
        }),
{
    let t = s.sketch_checked();
    s.lemma_rest_wf(t);
    lemma_total_same(t, s, s.queues.probation);
    assert forall|e: usize| #[trigger] t.queues.probation.contains(e) implies t.in_cache(e) && t.info(
        e,
    ).last_modified@ is Some by {
        assert(s.in_cache(e));
    }
}

proof fn lemma_trimmed_by_time<V>(s: CacheState<V>, now: Instant, key: u64)
    requires
        settled(s),
        s.max_capacity is None || s.counters.weighted_size <= s.max_capacity->0,
        now.nanos < u64::MAX,
    ensures
        ({
            let after = s.trimmed(now);
            let w = s.queues.write_order;
            let q = s.queues.probation;
            &&& after.cache.dom().contains(key) ==> s.cache.dom().contains(key) && after.cache[key]
                == s.cache[key]
            &&& s.cache.dom().contains(key) && !has_idled(s, s.cache[key], now) && !has_lived(
                s,
                s.cache[key],
                now,
            ) ==> after.cache.dom().contains(key)
            &&& s.time_to_live is Some ==> exists|k: int|
                {
                    &&& 0 <= k <= 500
                    &&& k <= w.len()
                    &&& are_gone(s, after, #[trigger] w.take(k))
                    &&& k == 500 || k == w.len() || !has_lived(s, w[k], now)
                }
            &&& s.time_to_idle is Some || s.valid_after is Some ==> {
                ||| after.queues.probation.len() == 0
                ||| !has_idled(s, after.queues.probation[0], now)
                ||| after.queues.probation.len() + 500 <= q.len()
            }
            &&& s.time_to_live is Some && s.time_to_idle is None && s.valid_after is None ==> exists|k: int|
                {
                    &&& 0 <= k <= 500
                    &&& k <= w.len()
                    &&& after.queues.write_order == #[trigger] w.skip(k)
                    &&& k == 500 || k == w.len() || !has_lived(s, w[k], now)
                    &&& forall|i: int| 0 <= i < k ==> has_lived(s, #[trigger] w[i], now)
                }
            &&& s.time_to_live is None && (s.time_to_idle is Some || s.valid_after is Some) ==> exists|
                k: int,
            |
                {
                    &&& 0 <= k <= 500
                    &&& k <= q.len()
                    &&& after.queues.probation == #[trigger] q.skip(k)
                    &&& k == 500 || k == q.len() || !has_idled(s, q[k], now)
                    &&& forall|i: int| 0 <= i < k ==> has_idled(s, #[trigger] q[i], now)
                }
        }),
{
    if s.time_to_live is Some {
        old_entries_go(s, 500, now);
        lemma_lighter(s, s.expired_wo_removed(500, now));
        lemma_old_are_gone(s, s.expired_wo_removed(500, now));
    }
    let t = if s.time_to_live is Some {
        s.expired_wo_removed(500, now)
    } else {
        s
    };
    assert(some_went(s, t)) by {
        if s.time_to_live is None {
        }
    }
    if t.time_to_idle is Some || t.valid_after is Some {
        assert(t.expired_ao_removed(CacheRegion::Window, 500, now) == t);
        idle_entries_go(t, 500, now);
        let u = t.expired_ao_removed(CacheRegion::MainProbation, 500, now);
        assert(u.expired_ao_removed(CacheRegion::MainProtected, 500, now) == u);
        lemma_lighter(t, u);
        assert forall|x: usize| #![trigger t.info(x)] has_idled(t, x, now) == has_idled(s, x, now) by {
            assert(t.info(x).last_accessed == s.info(x).last_accessed);
        }
        let r = t.queues.probation;
        let k = choose|k: int|
            {
                &&& 0 <= k <= 500
                &&& k <= r.len()
                &&& u.queues.probation == #[trigger] r.skip(k)
                &&& k == 500 || k == r.len() || !has_idled(t, r[k], now)
                &&& forall|i: int| 0 <= i < k ==> has_idled(t, #[trigger] r[i], now)
            };
        if k < r.len() {
            assert(u.queues.probation[0] == r[k]);
            assert(t.info(r[k]) == t.info(r[k]));
        }
        lemma_shorter(s, t);
    }
    let after = s.trimmed(now);
    let w = s.queues.write_order;
    assert forall|k: int| 0 <= k <= w.len() && are_gone(s, t, #[trigger] w.take(k)) implies are_gone(
        s,
        after,
        w.take(k),
    ) by {
        let nodes = w.take(k);
        assert forall|i: int| #![trigger nodes[i]] 0 <= i < nodes.len() implies !after.cache.dom().contains(
            s.entries[nodes[i]].info.key_hash.key,
        ) by {
            assert(!t.cache.dom().contains(s.entries[nodes[i]].info.key_hash.key));
        }
    }
    if s.cache.dom().contains(key) && !has_idled(s, s.cache[key], now) && !has_lived(s, s.cache[key], now) {
        assert(t.cache.dom().contains(key));
        assert(t.info(t.cache[key]).last_accessed == s.info(s.cache[key]).last_accessed);
        assert(!has_idled(t, t.cache[key], now));
    }
}

/// Who is no longer in the queues is no longer under its key.
proof fn lemma_old_are_gone<V>(s: CacheState<V>, after: CacheState<V>)
    requires
        settled(s),
        some_went(s, after),
        s.time_to_live is Some,
    ensures
        forall|k: int|
            0 <= k <= s.queues.write_order.len() && after.queues.write_order == #[trigger] s.queues.write_order.skip(
                k,
            ) ==> are_gone(s, after, s.queues.write_order.take(k)),
{
    let w = s.queues.write_order;
    assert forall|k: int| 0 <= k <= w.len() && after.queues.write_order == #[trigger] w.skip(k) implies are_gone(
        s,
        after,
        w.take(k),
    ) by {
        let nodes = w.take(k);
        assert forall|i: int| #![trigger nodes[i]] 0 <= i < nodes.len() implies !after.cache.dom().contains(
            s.entries[nodes[i]].info.key_hash.key,
        ) by {
            let e = nodes[i];
            let key = s.info(e).key_hash.key;
            assert(w[i] == e);
            assert(w.contains(e));
            assert(s.queues.probation.contains(e));
            assert(s.in_cache(e));
            if after.cache.dom().contains(key) {
                assert(after.cache[key] == e);
                assert(after.info(after.cache[key]).is_admitted);
                assert(after.entries.dom().contains(e));
                assert(after.queues.probation.contains(e));
                assert(after.queues.write_order.contains(e));
                let j = choose|j: int| 0 <= j < w.skip(k).len() && w.skip(k)[j] == e;
                assert(w[j + k] == e);
            }
        }
    }
}

/// A settled cache has no longer a queue once entries went.
proof fn lemma_shorter<V>(s: CacheState<V>, after: CacheState<V>)
    requires
        settled(s),
        some_went(s, after),
    ensures
        after.queues.probation.len() <= s.queues.probation.len(),
{
    let a = after.queues.probation;
    let b = s.queues.probation;
    assert forall|e: usize| #[trigger] a.contains(e) implies b.contains(e) by {
        assert(after.in_cache(e));
        let k = after.info(e).key_hash.key;
        assert(after.cache.dom().contains(k));
        assert(s.cache[k] == e);
        assert(s.info(s.cache[k]).is_admitted);
        assert(s.entries.dom().contains(s.cache[k]));
    }
    a.unique_seq_to_set();
    b.unique_seq_to_set();
    assert(a.to_set().subset_of(b.to_set()));
    vstd::set_lib::lemma_len_subset(a.to_set(), b.to_set());
}

/// A settled cache is no heavier once entries went.
proof fn lemma_lighter<V>(s: CacheState<V>, after: CacheState<V>)
    requires
        settled(s),
        some_went(s, after),
    ensures
        after.counters.weighted_size <= s.counters.weighted_size,
{
    let a = after.queues.probation;
    let b = s.queues.probation;
    assert forall|e: usize| #[trigger] a.contains(e) implies b.contains(e) by {
        assert(after.in_cache(e));
        let k = after.info(e).key_hash.key;
        assert(after.cache.dom().contains(k));
        assert(s.cache[k] == e);
        assert(s.info(s.cache[k]).is_admitted);
        assert(s.entries.dom().contains(s.cache[k]));
    }
    assert forall|i: int| 0 <= i < a.len() implies after.info(#[trigger] a[i]).policy_weight == s.info(
        a[i],
    ).policy_weight by {}
    lemma_total_same(after, s, a);
    lemma_part_is_lighter(s, a, b);
}

proof fn lemma_part_is_lighter<V>(s: CacheState<V>, a: Seq<usize>, b: Seq<usize>)
    requires
        a.no_duplicates(),
        b.no_duplicates(),
        forall|e: usize| #[trigger] a.contains(e) ==> b.contains(e),
    ensures
        total_weight(s, a) <= total_weight(s, b),
    decreases a.len(),
{
    if a.len() == 0 {
        lemma_total_same(s, s, b);
    } else {
        let e = a[0];
        assert(a.contains(e));
        lemma_total_unlinked(s, b, e);
        lemma_unlinked(b, e);
        let rest = a.skip(1);
        assert forall|x: usize| #[trigger] rest.contains(x) implies unlinked(b, e).contains(x) by {
            let i = choose|i: int| 0 <= i < rest.len() && rest[i] == x;
            assert(a[i + 1] == x);
            assert(a.contains(x));
        }
        lemma_part_is_lighter(s, rest, unlinked(b, e));
    }
}

/// The log of reads is shown to the policies from its beginning, and so is the log of writes; what is
/// shown is no longer in the log.
pub proof fn logs_are_shown_in_turn<V>(s: CacheState<V>, n: nat)
    requires
        s.wf(),
    ensures
        n < s.reads.len() ==> s.reads_applied(n).reads == s.reads.skip(n as int),
        s.reads_applied(s.reads.len()).reads.len() == 0,
        s.reads_applied(n).writes == s.writes,
{
    lemma_reads_in_turn(s, n);
    lemma_reads_in_turn(s, s.reads.len());
}

proof fn lemma_reads_in_turn<V>(s: CacheState<V>, n: nat)
    ensures
        n <= s.reads.len() ==> s.reads_applied(n).reads == s.reads.skip(n as int),
        s.reads_applied(n).writes == s.writes,
    decreases n,
{
    assert(s.reads.skip(0) =~= s.reads);
    if n > 0 && s.reads.len() > 0 {
        lemma_reads_in_turn(s.read_applied(), (n - 1) as nat);
        if n <= s.reads.len() {
            assert(s.reads.remove(0).skip(n - 1) =~= s.reads.skip(n as int));
        }
    }
}

/// Housekeeping is done before a write exactly when 3072 writes wait.
pub proof fn full_log_is_worked_off<V>(s: CacheState<V>, now: Instant)
    ensures
        s.writes.len() < 3072 ==> s.with_room(now) == s,
        s.writes.len() >= 3072 ==> s.with_room(now) == s.synced(now),
{
}

/// All entries are invalidated by giving a time: what was last written and used at that time or later is
/// still read, in its time, and nothing else.
pub proof fn invalidation_spares_what_comes_later<V>(s: CacheState<V>, key: u64, time: Instant, now: Instant)
    requires
        s.cache.dom().contains(key),
        s.valid_after is None,
        time.nanos < u64::MAX,
        now.nanos < u64::MAX,
    ensures
        ({
            let after = CacheState { valid_after: Some(time), ..s };
            let info = s.entries[s.cache[key]].info;
            let is_later = (info.last_modified@ is Some ==> info.last_modified@->0.nanos >= time.nanos) && (
            info.last_accessed@ is Some ==> info.last_accessed@->0.nanos >= time.nanos);
            after.lookup(key, now) == if is_later {
                s.lookup(key, now)
            } else {
                None
            }
        }),
{
}

/// The key of an entry is in the hash table.
pub open spec fn has_key<V>(s: CacheState<V>, e: usize) -> bool {
    s.cache.dom().contains(s.entries[e].info.key_hash.key)
}

proof fn lemma_search_parts<V>(s: CacheState<V>, weight: int, freq: int, i: int, v: Victims)
    requires
        0 <= i <= s.queues.probation.len(),
        v.nodes.len() + v.skipped.len() == i,
        forall|j: int| 0 <= j < v.nodes.len() ==> has_key(s, #[trigger] v.nodes[j]),
        forall|j: int| 0 <= j < v.skipped.len() ==> !has_key(s, #[trigger] v.skipped[j]),
        v.nodes.to_set() + v.skipped.to_set() == s.queues.probation.take(i).to_set(),
    ensures
        ({
            let r = s.search(weight, freq, i, v);
            let m = r.nodes.len() + r.skipped.len();
            &&& i <= m <= s.queues.probation.len()
            &&& forall|j: int| 0 <= j < r.nodes.len() ==> has_key(s, #[trigger] r.nodes[j])
            &&& forall|j: int| 0 <= j < r.skipped.len() ==> !has_key(s, #[trigger] r.skipped[j])
            &&& r.nodes.to_set() + r.skipped.to_set() == s.queues.probation.take(m as int).to_set()
        }),
    decreases s.queues.probation.len() - i,
{
    let q = s.queues.probation;
    if v.policy_weight >= weight || freq < v.freq || v.retries > super::state::MAX_CONSECUTIVE_RETRIES || !(0
        <= i < q.len()) {
    } else {
        let n = q[i];
        assert(q.take(i + 1) =~= q.take(i).push(n));
        lemma_set_pushed(q.take(i), n);
        lemma_set_pushed(v.nodes, n);
        lemma_set_pushed(v.skipped, n);
        match s.find(s.info(n).key_hash.key) {
            Some(e) => {
                let w = Victims {
                    nodes: v.nodes.push(n),
                    policy_weight: v.policy_weight + s.info(e).policy_weight,
                    freq: v.freq + s.sketch.frequency(s.info(n).key_hash.hash),
                    retries: 0,
                    ..v
                };
                assert(w.nodes.to_set() + w.skipped.to_set() =~= q.take(i + 1).to_set());
                lemma_search_parts(s, weight, freq, i + 1, w);
            },
            None => {
                let w = Victims { skipped: v.skipped.push(n), retries: v.retries + 1, ..v };
                assert(w.nodes.to_set() + w.skipped.to_set() =~= q.take(i + 1).to_set());
                lemma_search_parts(s, weight, freq, i + 1, w);
            },
        }
    }
}

proof fn lemma_set_pushed(q: Seq<usize>, e: usize)
    ensures
        q.push(e).to_set() == q.to_set().insert(e),
{
    let r = q.push(e);
    assert forall|x: usize| r.to_set().contains(x) <==> #[trigger] q.to_set().insert(e).contains(x) by {
        if q.contains(x) {
            let i = choose|i: int| 0 <= i < q.len() && q[i] == x;
            assert(r[i] == x);
        }
        if x == e {
            assert(r[q.len() as int] == e);
        }
        if r.contains(x) && x != e {
            let i = choose|i: int| 0 <= i < r.len() && r[i] == x;
            assert(q[i] == x);
        }
    }
    assert(r.to_set() =~= q.to_set().insert(e));
}

/// In any cache, the search for victims parts the first of the queue into those whose keys are there, who
/// are victims, and those whose keys are gone, who are not.
pub proof fn gone_entries_are_no_victims<V>(s: CacheState<V>, weight: int, freq: int, i: int)
    ensures
        ({
            let v = s.victims(weight, freq);
            let m = (v.nodes.len() + v.skipped.len()) as int;
            &&& m <= s.queues.probation.len()
            &&& 0 <= i < v.nodes.len() ==> has_key(s, v.nodes[i])
            &&& 0 <= i < v.skipped.len() ==> !has_key(s, v.skipped[i])
            &&& v.nodes.to_set() + v.skipped.to_set() == s.queues.probation.take(m).to_set()
        }),
{
    let none = Seq::<usize>::empty();
    assert(s.queues.probation.take(0) =~= none);
    assert(none.to_set() + none.to_set() =~= none.to_set());
    lemma_search_parts(
        s,
        weight,
        freq,
        0,
        Victims { nodes: Seq::empty(), policy_weight: 0, freq: 0, skipped: Seq::empty(), retries: 0 },
    );
}

proof fn lemma_gone_skipped<V>(s: CacheState<V>, weight: int, freq: int, i: int)
    requires
        0 <= i <= 6,
        i <= s.queues.probation.len(),
        weight > 0,
        freq >= 0,
        forall|j: int| 0 <= j < i ==> !has_key(s, #[trigger] s.queues.probation[j]),
    ensures
        s.victims(weight, freq) == s.search(
            weight,
            freq,
            i,
            Victims {
                nodes: Seq::empty(),
                policy_weight: 0,
                freq: 0,
                skipped: s.queues.probation.take(i),
                retries: i,
            },
        ),
    decreases i,
{
    let q = s.queues.probation;
    if i == 0 {
        assert(q.take(0) =~= Seq::<usize>::empty());
    } else {
        lemma_gone_skipped(s, weight, freq, i - 1);
        assert(!has_key(s, q[i - 1]));
        assert(q.take(i) =~= q.take(i - 1).push(q[i - 1]));
    }
}

/// The search passes up to five at the front of the queue whose keys are gone, and ends with the sixth: it
/// then has found no victim.
pub proof fn six_gone_entries_end_the_search<V>(s: CacheState<V>, weight: int, freq: int, i: int)
    requires
        weight > 0,
        freq >= 0,
        0 <= i <= 6,
        i <= s.queues.probation.len(),
        forall|j: int| 0 <= j < i ==> !has_key(s, #[trigger] s.queues.probation[j]),
    ensures
        i == 6 ==> s.victims(weight, freq).nodes.len() == 0 && s.victims(weight, freq).skipped
            == s.queues.probation.take(6),
        i < 6 && i < s.queues.probation.len() && has_key(s, s.queues.probation[i]) ==> s.victims(
            weight,
            freq,
        ).nodes.len() > 0 && s.victims(weight, freq).nodes[0] == s.queues.probation[i],
{
    lemma_gone_skipped(s, weight, freq, i);
    let q = s.queues.probation;
    if i < 6 && i < q.len() && has_key(s, q[i]) {
        let e = s.cache[s.info(q[i]).key_hash.key];
        lemma_victims_stay(
            s,
            weight,
            freq,
            i + 1,
            Victims {
                nodes: Seq::empty().push(q[i]),
                policy_weight: 0 + s.info(e).policy_weight,
                freq: 0 + s.sketch.frequency(s.info(q[i]).key_hash.hash),
                skipped: q.take(i),
                retries: 0,
            },
        );
    }
}

proof fn lemma_victims_stay<V>(s: CacheState<V>, weight: int, freq: int, i: int, v: Victims)
    requires
        v.nodes.len() > 0,
    ensures
        s.search(weight, freq, i, v).nodes.len() > 0,
        s.search(weight, freq, i, v).nodes[0] == v.nodes[0],
    decreases s.queues.probation.len() - i,
{
    let q = s.queues.probation;
    if v.policy_weight >= weight || freq < v.freq || v.retries > super::state::MAX_CONSECUTIVE_RETRIES || !(0
        <= i < q.len()) {
    } else {
        let n = q[i];
        match s.find(s.info(n).key_hash.key) {
            Some(e) => lemma_victims_stay(
                s,
                weight,
                freq,
                i + 1,
                Victims {
                    nodes: v.nodes.push(n),
                    policy_weight: v.policy_weight + s.info(e).policy_weight,
                    freq: v.freq + s.sketch.frequency(s.info(n).key_hash.hash),
                    retries: 0,
                    ..v
                },
            ),
            None => lemma_victims_stay(
                s,
                weight,
                freq,
                i + 1,
                Victims { skipped: v.skipped.push(n), retries: v.retries + 1, ..v },
            ),
        }
    }
}

/// An entry at the front of the queue whose key is gone is moved to its back, and the eviction goes on with
/// the next; nothing else changes, but that one of the turns is used up. The same holds of the removal of
/// entries that have idled or lived too long.
pub proof fn gone_entry_is_put_off<V>(s: CacheState<V>, n: nat, to_evict: u64, evicted: u64, now: Instant)
    requires
        s.wf(),
        n > 0,
        evicted < to_evict,
        now.nanos < u64::MAX,
    ensures
        ({
            let q = s.queues.probation;
            let put_off = CacheState {
                queues: Queues { probation: q.skip(1).push(q[0]), ..s.queues },
                ..s
            };
            q.len() > 0 && !has_key(s, q[0]) ==> {
                &&& s.lru_evicted(n, to_evict, evicted) == put_off.lru_evicted((n - 1) as nat, to_evict, evicted)
                &&& has_idled(s, q[0], now) ==> s.expired_ao_removed(CacheRegion::MainProbation, n, now)
                    == put_off.expired_ao_removed(CacheRegion::MainProbation, (n - 1) as nat, now)
            }
        }),
        ({
            let w = s.queues.write_order;
            let put_off = CacheState {
                queues: Queues { write_order: w.skip(1).push(w[0]), ..s.queues },
                ..s
            };
            w.len() > 0 && !has_key(s, w[0]) && has_lived(s, w[0], now) ==> s.expired_wo_removed(n, now)
                == put_off.expired_wo_removed((n - 1) as nat, now)
        }),
{
    let q = s.queues.probation;
    let w = s.queues.write_order;
    if q.len() > 0 {
        lemma_moved(q, 0);
        assert(with_last(q, 0) =~= q.skip(1).push(q[0]));
        assert(q.contains(q[0]));
    }
    if w.len() > 0 {
        lemma_moved(w, 0);
        assert(with_last(w, 0) =~= w.skip(1).push(w[0]));
        assert(w.contains(w[0]));
    }
}

} // verus!
