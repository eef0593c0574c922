//! What holds of the weight of a cache over many operations: the policies know all that there is
//! to know, and housekeeping brings the weight below its limit.
use vstd::prelude::*;

use super::account_laws::{
    accounted, balanced, counted_weight, counted_weights, fits, is_right_write, is_there, keeps_count,
    none_strays_at, none_strays_for,
    lemma_candidate_stays, lemma_counted_now, lemma_requeued, lemma_total_of_same, lemma_total_pushed, lemma_total_unlinked, lemma_victims,
    lemma_write_applied, removal_waits, total_of, upsert_waits,
};
use super::capacity_laws::{
    least_recently_used_go_first, lemma_member_removed, lemma_total_same, settled, settled_except,
    total_weight,
};
use super::state::{CacheState, EVICTION_BATCH_SIZE};
use crate::common::concurrent::deques::{lemma_moved_back, unlinked};
use crate::common::op_log::{ReadOp, WriteOp};
use crate::common::time::Instant;
use crate::common::CacheRegion;

verus! {

/// Nothing but the logs, the sketch, the time from which entries are valid and the order of the
/// queues differs.
spec fn same_contents<V>(a: CacheState<V>, b: CacheState<V>) -> bool {
    &&& a.cache == b.cache
    &&& a.entries == b.entries
    &&& a.counters == b.counters
    &&& a.max_capacity == b.max_capacity
}

proof fn lemma_same_settled<V>(a: CacheState<V>, b: CacheState<V>)
    requires
        settled(a),
        same_contents(a, b),
        b.wf(),
        b.queues.probation == a.queues.probation,
    ensures
        settled(b),
{
    lemma_total_same(b, a, b.queues.probation);
    assert forall|e: usize| #[trigger] b.queues.probation.contains(e) implies b.in_cache(e)
        && b.info(e).last_modified@ is Some by {
        assert(a.in_cache(e));
    }
}

/// After housekeeping the cache weighs no more than it may, or it was rid of as many entries as
/// may go at once.
pub open spec fn weight_is_bounded<V>(s: CacheState<V>, now: Instant) -> bool {
    let after = s.synced(now);
    ||| after.max_capacity is None
    ||| after.counters.weighted_size <= after.max_capacity->0
    ||| after.queues.probation.len() + EVICTION_BATCH_SIZE
        <= s.logs_applied().queues.probation.len()
}

proof fn lemma_expired_wo<V>(s: CacheState<V>, n: nat, now: Instant)
    requires
        settled(s),
    ensures
        settled(s.expired_wo_removed(n, now)),
        s.expired_wo_removed(n, now).queues.probation.len() <= s.queues.probation.len(),
        s.expired_wo_removed(n, now).max_capacity == s.max_capacity,
    decreases n,
{
    let queue = s.queues.write_order;
    if n == 0 || queue.len() == 0 || !s.expired_wo(queue[0], now) {
    } else {
        let e = queue[0];
        assert(queue.contains(e));
        assert(s.queues.probation.contains(e));
        assert(s.in_cache(e));
        lemma_member_removed(s, Set::empty(), e);
        lemma_expired_wo(s.without_key(s.info(e).key_hash.key).dismissed(e), (n - 1) as nat, now);
    }
}

proof fn lemma_expired_ao<V>(s: CacheState<V>, region: CacheRegion, n: nat, now: Instant)
    requires
        settled(s),
    ensures
        settled(s.expired_ao_removed(region, n, now)),
        s.expired_ao_removed(region, n, now).queues.probation.len() <= s.queues.probation.len(),
        s.expired_ao_removed(region, n, now).max_capacity == s.max_capacity,
    decreases n,
{
    let queue = s.queues.access_order(region);
    if n == 0 || queue.len() == 0 || !s.expired_ao(queue[0], now) {
    } else {
        let e = queue[0];
        assert(s.queues.probation.contains(e));
        assert(s.in_cache(e));
        lemma_member_removed(s, Set::empty(), e);
        lemma_expired_ao(
            s.without_key(s.info(e).key_hash.key).dismissed(e),
            region,
            (n - 1) as nat,
            now,
        );
    }
}

proof fn lemma_collected<V>(s: CacheState<V>)
    requires
        settled(s),
        s.reads.len() == 0,
        s.writes.len() == 0,
    ensures
        settled(s.collected()),
{
    let t = s.collected();
    let q = s.queues.probation;
    s.lemma_collected_wf();
    assert forall|x: usize| #[trigger] t.queues.probation.contains(x) implies t.in_cache(x)
        && t.info(x) == s.info(x) && t.info(x).last_modified@ is Some by {
        assert(s.in_cache(x));
        assert(s.entries.dom().contains(x));
    }
    assert forall|k: u64| #[trigger] t.cache.dom().contains(k) implies t.info(t.cache[k]).is_admitted by {
        assert(s.cache.dom().contains(k));
        assert(s.in_cache(s.cache[k]));
    }
    assert forall|i: int| 0 <= i < q.len() implies t.info(#[trigger] q[i]).policy_weight == s.info(
        q[i],
    ).policy_weight by {
        assert(t.queues.probation.contains(q[i]));
    }
    lemma_total_same(t, s, q);
}

/// What is removed from a settled cache leaves it settled, and not too heavy.
proof fn lemma_trimmed<V>(s: CacheState<V>, now: Instant)
    requires
        settled(s),
    ensures
        ({
            let after = s.trimmed(now);
            &&& settled(after)
            &&& after.same_logs(s)
            &&& after.max_capacity == s.max_capacity
            &&& s.max_capacity is Some ==> after.counters.weighted_size <= s.max_capacity->0
                || after.queues.probation.len() + EVICTION_BATCH_SIZE <= s.queues.probation.len()
        }),
{
    let n = EVICTION_BATCH_SIZE as nat;
    let s1 = if s.time_to_live is Some {
        lemma_expired_wo(s, n, now);
        s.expired_wo_removed(n, now)
    } else {
        s
    };
    lemma_expired_ao(s1, CacheRegion::Window, n, now);
    let s2 = s1.expired_ao_removed(CacheRegion::Window, n, now);
    lemma_expired_ao(s2, CacheRegion::MainProbation, n, now);
    let s3 = s2.expired_ao_removed(CacheRegion::MainProbation, n, now);
    lemma_expired_ao(s3, CacheRegion::MainProtected, n, now);
    s.lemma_expired_removed(n, now);
    let s4 = if s.time_to_live is Some || s.time_to_idle is Some || s.valid_after is Some {
        s.expired_removed(n, now)
    } else {
        s
    };
    assert(settled(s4));
    assert(s4.queues.probation.len() <= s.queues.probation.len());
    if s4.overweight() > 0 {
        lemma_evicted_to_bound(s4);
    }
}

proof fn lemma_evicted_to_bound<V>(s: CacheState<V>)
    requires
        settled(s),
        s.max_capacity is Some,
    ensures
        ({
            let after = s.lru_evicted(EVICTION_BATCH_SIZE as nat, s.overweight(), 0);
            &&& settled(after)
            &&& after.same_logs(s)
            &&& after.max_capacity == s.max_capacity
            &&& after.counters.weighted_size <= s.max_capacity->0 || after.queues.probation.len()
                + EVICTION_BATCH_SIZE <= s.queues.probation.len()
        }),
{
    let n = EVICTION_BATCH_SIZE as nat;
    let after = s.lru_evicted(n, s.overweight(), 0);
    s.lemma_lru_evicted(n, s.overweight(), 0);
    s.lemma_lru_settings(n, s.overweight(), 0);
    least_recently_used_go_first(s);
    let k = choose|k: int|
        {
            &&& 0 <= k <= n
            &&& after.queues.probation == #[trigger] s.queues.probation.skip(k)
            &&& k <= s.queues.probation.len()
            &&& after.counters.weighted_size <= s.max_capacity->0 || k == n
        };
    assert(s.queues.probation.skip(k).len() == s.queues.probation.len() - k);
}

proof fn lemma_logs_empty<V>(s: CacheState<V>)
    ensures
        s.logs_applied().reads.len() == 0,
        s.logs_applied().writes.len() == 0,
{
    let n = s.reads.len();
    s.lemma_reads_applied(n);
    let s1 = s.reads_applied(n);
    s1.lemma_writes_applied(s1.writes.len());
}

/// Where the cache is settled once the logs were shown to the policies, it is so after
/// housekeeping.
proof fn lemma_synced<V>(s: CacheState<V>, now: Instant)
    requires
        settled(s.logs_applied()),
    ensures
        settled(s.synced(now)),
        s.synced(now).reads.len() == 0,
        s.synced(now).writes.len() == 0,
        weight_is_bounded(s, now),
{
    reveal(CacheState::synced);
    lemma_logs_empty(s);
    let s2 = s.logs_applied();
    lemma_trimmed(s2, now);
    lemma_collected(s2.trimmed(now));
    assert(s.synced(now) == s2.trimmed(now).collected());
}

proof fn lemma_sketch_checked<V>(s: CacheState<V>)
    requires
        settled(s),
    ensures
        settled(s.sketch_checked()),
{
    s.lemma_rest_wf(s.sketch_checked());
    lemma_same_settled(s, s.sketch_checked());
}

/// A new cache is settled: it holds nothing, and the policies know of nothing.
pub proof fn new_cache_is_settled<V>(s: CacheState<V>)
    requires
        s.wf(),
        s.entries.dom() == Set::<usize>::empty(),
        s.counters.weighted_size == 0,
    ensures
        settled(s),
{
    let q = s.queues.probation;
    if q.len() > 0 {
        assert(q.contains(q[0]));
        assert(s.entries.dom().contains(q[0]));
    }
    assert(total_weight(s, q) == 0);
    assert forall|x: usize| #[trigger] q.contains(x) implies false by {
        assert(s.entries.dom().contains(x));
    }
    assert forall|k: u64| #[trigger] s.cache.dom().contains(k) implies false by {
        assert(s.entries.dom().contains(s.cache[k]));
    }
}

/// A read leaves a settled cache settled.
pub proof fn read_keeps_cache_settled<V>(s: CacheState<V>, key: u64, hash: u64, now: Instant)
    requires
        settled(s),
    ensures
        settled(s.read_at(key, hash, now)),
        s.read_at(key, hash, now).writes == s.writes,
{
    let op = s.read_op(key, hash, now);
    let t = if s.lookup(key, now) is Some {
        let e = s.cache[key];
        let t = s.accessed(e, now);
        assert(s.cache.dom().contains(key));
        s.lemma_entry_wf(t, e);
        let q = s.queues.probation;
        lemma_total_same(t, s, q);
        assert forall|x: usize| #[trigger] q.contains(x) implies t.in_cache(x) && t.info(
            x,
        ).last_modified@ is Some by {
            assert(s.in_cache(x));
        }
        assert forall|k: u64| #[trigger] t.cache.dom().contains(k) implies t.info(t.cache[k]).is_admitted by {
            assert(s.cache.dom().contains(k));
        }
        assert(t.read_ok(op));
        t
    } else {
        s
    };
    let u = t.read_logged(op);
    assert forall|i: int| 0 <= i < u.reads.len() implies t.read_ok(#[trigger] u.reads[i]) by {
        if i < t.reads.len() {
            assert(t.read_ok(t.reads[i]));
        }
    }
    t.lemma_logs_wf(u);
    lemma_same_settled(t, u);
}

proof fn lemma_totals<V>(s: CacheState<V>, q: Seq<usize>)
    requires
        forall|i: int| 0 <= i < q.len() ==> !upsert_waits(s.writes, #[trigger] q[i]),
    ensures
        total_of(q, counted_weights(s)) == total_weight(s, q),
    decreases q.len(),
{
    if q.len() > 0 {
        let rest = q.skip(1);
        assert forall|i: int| 0 <= i < rest.len() implies !upsert_waits(s.writes, #[trigger] rest[i]) by {
            assert(rest[i] == q[i + 1]);
        }
        lemma_totals(s, rest);
        lemma_counted_now(s.writes, q[0], s.info(q[0]).policy_weight);
        assert(counted_weights(s)(q[0]) == s.info(q[0]).policy_weight);
    }
}

/// A settled cache, for which no write waits, is accounted for.
pub proof fn settled_cache_is_accounted<V>(s: CacheState<V>)
    requires
        settled(s),
        s.writes.len() == 0,
    ensures
        accounted(s),
{
    assert forall|e: usize| !(#[trigger] upsert_waits(s.writes, e)) by {}
    lemma_totals(s, s.queues.probation);
    assert forall|k: u64| #[trigger] s.cache.dom().contains(k) implies s.info(s.cache[k]).is_admitted by {
        assert(!Set::<u64>::empty().contains(k));
    }
}

/// A cache that is accounted for, and for which no write waits, is settled.
pub proof fn lemma_nothing_waits<V>(s: CacheState<V>)
    requires
        balanced(s),
        s.writes.len() == 0,
    ensures
        settled(s),
{
    assert forall|e: usize| !(#[trigger] upsert_waits(s.writes, e)) by {}
    lemma_totals(s, s.queues.probation);
    assert forall|e: usize| #[trigger] s.queues.probation.contains(e) implies s.in_cache(e) by {
        assert(!removal_waits(s.writes, e));
    }
    assert forall|k: u64| #[trigger] s.cache.dom().contains(k) implies s.info(s.cache[k]).is_admitted by {
        assert(!upsert_waits(s.writes, s.cache[k]));
    }
}

/// Nothing goes astray when the waiting writes are shown to the policies in turn: no entry is let out
/// whose weight is about to change, and no entry is let in whose key is gone.
pub open spec fn none_strays<V>(s: CacheState<V>) -> bool {
    none_strays_for(s.reads_applied(s.reads.len()), s.writes.len())
}

/// The reads change the order of the queue and nothing else that matters here.
proof fn lemma_reads<V>(s: CacheState<V>, n: nat)
    requires
        balanced(s),
    ensures
        balanced(s.reads_applied(n)),
        s.reads_applied(n).cache == s.cache,
        s.reads_applied(n).entries == s.entries,
        s.reads_applied(n).writes == s.writes,
        s.reads_applied(n).counters == s.counters,
        s.reads_applied(n).max_capacity == s.max_capacity,
        forall|e: usize| #[trigger]
            s.reads_applied(n).queues.probation.contains(e) <==> s.queues.probation.contains(e),
    decreases n,
{
    if n > 0 && s.reads.len() > 0 {
        let t = CacheState { reads: s.reads.remove(0), ..s };
        assert(s.read_ok(s.reads[0]));
        assert forall|i: int| 0 <= i < t.reads.len() implies s.read_ok(#[trigger] t.reads[i]) by {
            assert(t.reads[i] == s.reads[i + 1]);
        }
        s.lemma_logs_wf(t);
        let hash = match s.reads[0] {
            ReadOp::Hit { hash, entry } => hash,
            ReadOp::Miss(hash) => hash,
        };
        let counted = CacheState { sketch: t.sketch.incremented(hash), ..t };
        t.lemma_rest_wf(counted);
        let q = s.queues.probation;
        match s.reads[0] {
            ReadOp::Hit { hash, entry } => {
                counted.lemma_to_back_wf(entry);
                lemma_moved_back(q, entry);
                if q.contains(entry) {
                    let f = counted_weights(s);
                    lemma_total_unlinked(q, f, entry);
                    lemma_total_pushed(unlinked(q, entry), f, entry);
                }
            },
            ReadOp::Miss(hash) => {},
        }
        lemma_requeued(s, s.read_applied(), None, 0);
        lemma_reads(s.read_applied(), (n - 1) as nat);
    }
}

proof fn lemma_writes<V>(s: CacheState<V>)
    requires
        balanced(s),
        fits(s),
        none_strays_for(s, s.writes.len()),
    ensures
        balanced(s.writes_applied(s.writes.len())),
        s.writes_applied(s.writes.len()).writes.len() == 0,
    decreases s.writes.len(),
{
    if s.writes.len() > 0 {
        let t = s.write_applied();
        lemma_write_applied(s);
        lemma_writes(t);
    }
}

/// Whatever waits, and however much of it, housekeeping leaves a cache settled, and not too heavy, if
/// nothing goes astray.
pub proof fn batch_keeps_bound<V>(s: CacheState<V>, now: Instant)
    requires
        accounted(s),
        fits(s),
        none_strays(s),
    ensures
        settled(s.synced(now)),
        weight_is_bounded(s, now),
        s.synced(now).writes.len() == 0,
{
    lemma_reads(s, s.reads.len());
    let s1 = s.reads_applied(s.reads.len());
    lemma_writes(s1);
    let s2 = s1.writes_applied(s1.writes.len());
    lemma_nothing_waits(s2);
    lemma_sketch_checked(s2);
    lemma_synced(s, now);
}

/// The keys of the waiting writes.
pub open spec fn waiting_keys(writes: Seq<WriteOp>) -> Set<u64> {
    Set::new(
        |k: u64|
            exists|i: int|
                0 <= i < writes.len() && (#[trigger] writes[i]) is Upsert && writes[i]->Upsert_key == k,
    )
}

/// Only new entries wait: each is under its key, and is not in the queue, and no two are the same.
pub open spec fn only_new_entries_wait<V>(s: CacheState<V>) -> bool {
    &&& forall|i: int|
        0 <= i < s.writes.len() ==> (#[trigger] s.writes[i]) is Upsert && s.in_cache(
            s.writes[i]->Upsert_entry,
        ) && !s.info(s.writes[i]->Upsert_entry).is_admitted
    &&& forall|i: int, j: int|
        0 <= i < j < s.writes.len() ==> (#[trigger] s.writes[i])->Upsert_entry != (
        #[trigger] s.writes[j])->Upsert_entry
}

/// A new entry neither takes the key of another that waits nor lets it in.
proof fn lemma_new_entries_stay<V>(s: CacheState<V>)
    requires
        balanced(s),
        only_new_entries_wait(s),
        s.writes.len() > 0,
    ensures
        only_new_entries_wait(s.write_applied()),
        none_strays_at(s),
{
    let t = s.write_applied();
    let p = CacheState { writes: s.writes.remove(0), ..s };
    let q = s.queues.probation;
    assert(p.writes =~= s.writes.skip(1));
    assert(s.writes[0] is Upsert);
    assert(is_right_write(s, 0));
    let first = s.writes[0]->Upsert_entry;
    let key = s.writes[0]->Upsert_key;
    let hash = s.writes[0]->hash;
    let old_weight = s.writes[0]->old_weight;
    let weight = s.writes[0]->new_weight;
    p.lemma_upserted_logs(key, hash, first, old_weight, weight);
    assert(s.write_ok(s.writes[0]));
    assert forall|i: int| 0 <= i < p.writes.len() implies s.write_ok(#[trigger] p.writes[i]) by {
        assert(p.writes[i] == s.writes[i + 1]);
    }
    s.lemma_logs_wf(p);
    assert forall|j: int| #![trigger s.writes[j]] 1 <= j < s.writes.len() implies t.in_cache(
        s.writes[j]->Upsert_entry,
    ) && !t.info(s.writes[j]->Upsert_entry).is_admitted by {
        let e = s.writes[j]->Upsert_entry;
        assert(s.writes[j] is Upsert && s.in_cache(e) && !s.info(e).is_admitted);
        assert(s.writes[0]->Upsert_entry != s.writes[j]->Upsert_entry);
        assert(s.write_ok(s.writes[j]));
        assert(p.in_cache(e));
        assert(p.info(e).key_hash.key != key);
        if p.has_room_for(weight) {
        } else if weight > p.max_capacity->0 {
        } else {
            let freq = p.sketch.frequency(hash) as int;
            let v = p.victims(weight as int, freq);
            lemma_victims(p, weight as int, freq);
            p.lemma_victims(weight as int, freq);
            if v.policy_weight >= weight && freq > v.freq {
                let n = v.nodes.len() as int;
                assert forall|m: int| 0 <= m < v.nodes.len() implies p.info(
                    #[trigger] v.nodes[m],
                ).key_hash.key != p.info(e).key_hash.key by {
                    let y = v.nodes[m];
                    assert(q.contains(y));
                    assert(!removal_waits(s.writes, y)) by {
                        if removal_waits(s.writes, y) {
                            let i = choose|i: int|
                                0 <= i < s.writes.len() && (#[trigger] s.writes[i]) is Remove
                                    && s.writes[i]->Remove_entry == y;
                            assert(s.writes[i] is Upsert);
                        }
                    }
                    assert(s.in_cache(y));
                    assert(s.info(y).is_admitted);
                }
                lemma_candidate_stays(p, v.nodes, v.skipped, n, e);
                p.lemma_evicted(v.nodes, v.skipped, n, e);
                let (s1, skipped) = p.evicted(v.nodes, v.skipped, n);
                s1.admitted(first, weight).lemma_all_to_back(skipped, skipped.len() as int);
                assert(t.info(e) == s1.info(e));
            } else {
                p.without_key(key).lemma_all_to_back(v.skipped, v.skipped.len() as int);
            }
        }
    }
    assert forall|i: int| 0 <= i < t.writes.len() implies (#[trigger] t.writes[i]) is Upsert && t.in_cache(
        t.writes[i]->Upsert_entry,
    ) && !t.info(t.writes[i]->Upsert_entry).is_admitted by {
        assert(t.writes[i] == s.writes[i + 1]);
    }
    assert forall|x: usize| p.info(x).is_admitted implies counted_weight(p.writes, x, p.info(x).policy_weight)
        == #[trigger] p.info(x).policy_weight by {
        if upsert_waits(p.writes, x) {
            let i = choose|i: int|
                0 <= i < p.writes.len() && (#[trigger] p.writes[i]) is Upsert && p.writes[i]->Upsert_entry == x;
            assert(p.writes[i] == s.writes[i + 1]);
        }
        lemma_counted_now(p.writes, x, p.info(x).policy_weight);
    }
    assert(s.in_cache(first));
    assert(p == (CacheState { writes: s.writes.skip(1), ..s }));
    assert(keeps_count(p, t)) by {
        assert forall|x: usize| p.info(x).is_admitted && !(#[trigger] t.info(x)).is_admitted implies counted_weight(
            p.writes,
            x,
            p.info(x).policy_weight,
        ) == p.info(x).policy_weight by {
            assert(p.info(x).policy_weight == p.info(x).policy_weight);
        }
    }
    assert forall|i: int, j: int| 0 <= i < j < t.writes.len() implies (#[trigger] t.writes[i])->Upsert_entry != (
    #[trigger] t.writes[j])->Upsert_entry by {
        assert(t.writes[i] == s.writes[i + 1]);
        assert(t.writes[j] == s.writes[j + 1]);
    }
}

proof fn lemma_new_entries<V>(s: CacheState<V>)
    requires
        balanced(s),
        fits(s),
        only_new_entries_wait(s),
    ensures
        none_strays_for(s, s.writes.len()),
    decreases s.writes.len(),
{
    if s.writes.len() > 0 {
        let t = s.write_applied();
        lemma_new_entries_stay(s);
        lemma_write_applied(s);
        lemma_new_entries(t);
    }
}

/// However many new entries wait, housekeeping leaves a cache settled, and not too heavy.
pub proof fn new_entries_keep_bound<V>(s: CacheState<V>, now: Instant)
    requires
        settled_except(s, waiting_keys(s.writes)),
        fits(s),
        forall|i: int|
            0 <= i < s.writes.len() ==> {
                let op = #[trigger] s.writes[i];
                &&& op is Upsert
                &&& s.find(op->Upsert_key) == Some(op->Upsert_entry)
                &&& !s.info(op->Upsert_entry).is_admitted
                &&& s.info(op->Upsert_entry).policy_weight == op->new_weight
                &&& s.info(op->Upsert_entry).last_modified@ is Some
            },
        forall|i: int, j: int|
            0 <= i < j < s.writes.len() ==> (#[trigger] s.writes[i])->Upsert_key != (
            #[trigger] s.writes[j])->Upsert_key,
    ensures
        settled(s.synced(now)),
        weight_is_bounded(s, now),
        s.synced(now).writes.len() == 0,
{
    let q = s.queues.probation;
    assert forall|i: int| 0 <= i < s.writes.len() implies (#[trigger] s.writes[i]) is Upsert && s.in_cache(
        s.writes[i]->Upsert_entry,
    ) && s.info(s.writes[i]->Upsert_entry).key_hash.key == s.writes[i]->Upsert_key by {
        assert(s.cache.dom().contains(s.writes[i]->Upsert_key));
    }
    assert forall|i: int, j: int| 0 <= i < j < s.writes.len() implies (#[trigger] s.writes[i])->Upsert_entry != (
    #[trigger] s.writes[j])->Upsert_entry by {
        assert(s.writes[i]->Upsert_key != s.writes[j]->Upsert_key);
    }
    assert(only_new_entries_wait(s));
    assert forall|i: int| 0 <= i < q.len() implies !upsert_waits(s.writes, #[trigger] q[i]) by {
        assert(q.contains(q[i]));
        assert(s.info(q[i]).is_admitted);
    }
    lemma_totals(s, q);
    assert forall|i: int| #![trigger s.writes[i]] 0 <= i < s.writes.len() implies is_right_write(s, i) by {
        let e = s.writes[i]->Upsert_entry;
        let behind = s.writes.skip(i + 1);
        if upsert_waits(behind, e) {
            let m = choose|m: int|
                0 <= m < behind.len() && (#[trigger] behind[m]) is Upsert && behind[m]->Upsert_entry == e;
            assert(s.writes[i + 1 + m] == behind[m]);
        }
        lemma_counted_now(behind, e, s.info(e).policy_weight);
    }
    assert forall|k: u64| #[trigger] s.cache.dom().contains(k) implies s.info(s.cache[k]).is_admitted
        || upsert_waits(s.writes, s.cache[k]) by {
        if waiting_keys(s.writes).contains(k) {
            let i = choose|i: int|
                0 <= i < s.writes.len() && (#[trigger] s.writes[i]) is Upsert && s.writes[i]->Upsert_key == k;
            assert(s.writes[i]->Upsert_entry == s.cache[k]);
        }
    }
    assert(accounted(s));
    lemma_reads(s, s.reads.len());
    let s1 = s.reads_applied(s.reads.len());
    assert(only_new_entries_wait(s1)) by {
        assert forall|i: int| 0 <= i < s1.writes.len() implies (#[trigger] s1.writes[i]) is Upsert && s1.in_cache(
            s1.writes[i]->Upsert_entry,
        ) && !s1.info(s1.writes[i]->Upsert_entry).is_admitted by {
            assert(s.writes[i] is Upsert);
        }
    }
    lemma_new_entries(s1);
    batch_keeps_bound(s, now);
}

/// Only updates of entries wait that are in the queue, and under their keys.
pub open spec fn only_updates_wait<V>(s: CacheState<V>) -> bool {
    forall|i: int|
        0 <= i < s.writes.len() ==> (#[trigger] s.writes[i]) is Upsert && s.in_cache(
            s.writes[i]->Upsert_entry,
        ) && s.info(s.writes[i]->Upsert_entry).is_admitted
}

proof fn lemma_updates<V>(s: CacheState<V>)
    requires
        only_updates_wait(s),
    ensures
        none_strays_for(s, s.writes.len()),
    decreases s.writes.len(),
{
    if s.writes.len() > 0 {
        let t = s.write_applied();
        assert(s.writes[0] is Upsert && s.info(s.writes[0]->Upsert_entry).is_admitted);
        assert(t.writes =~= s.writes.skip(1));
        assert(t.cache == s.cache && t.entries == s.entries);
        assert forall|i: int| 0 <= i < t.writes.len() implies (#[trigger] t.writes[i]) is Upsert && t.in_cache(
            t.writes[i]->Upsert_entry,
        ) && t.info(t.writes[i]->Upsert_entry).is_admitted by {
            assert(t.writes[i] == s.writes[i + 1]);
        }
        lemma_updates(t);
    }
}

/// However many updates wait, of one key or of many, housekeeping leaves a cache settled, and not too
/// heavy.
pub proof fn updates_keep_bound<V>(s: CacheState<V>, now: Instant)
    requires
        accounted(s),
        fits(s),
        only_updates_wait(s),
    ensures
        settled(s.synced(now)),
        weight_is_bounded(s, now),
        s.synced(now).writes.len() == 0,
{
    lemma_reads(s, s.reads.len());
    let s1 = s.reads_applied(s.reads.len());
    assert forall|i: int| 0 <= i < s1.writes.len() implies (#[trigger] s1.writes[i]) is Upsert && s1.in_cache(
        s1.writes[i]->Upsert_entry,
    ) && s1.info(s1.writes[i]->Upsert_entry).is_admitted by {
        assert(s.writes[i] is Upsert);
    }
    lemma_updates(s1);
    batch_keeps_bound(s, now);
}

proof fn lemma_removals<V>(s: CacheState<V>)
    requires
        balanced(s),
        fits(s),
        forall|i: int| 0 <= i < s.writes.len() ==> (#[trigger] s.writes[i]) is Remove,
    ensures
        none_strays_for(s, s.writes.len()),
    decreases s.writes.len(),
{
    if s.writes.len() > 0 {
        let t = s.write_applied();
        let rest = s.writes.skip(1);
        assert(s.writes[0] is Remove);
        assert(t.writes =~= rest);
        assert(is_right_write(s, 0));
        let e = s.writes[0]->Remove_entry;
        lemma_counted_now(rest, e, s.info(e).policy_weight);
        assert(none_strays_at(s));
        lemma_write_applied(s);
        assert forall|i: int| 0 <= i < t.writes.len() implies (#[trigger] t.writes[i]) is Remove by {
            assert(t.writes[i] == s.writes[i + 1]);
        }
        lemma_removals(t);
    }
}

/// However many removals wait, so does housekeeping.
pub proof fn removals_keep_bound<V>(s: CacheState<V>, now: Instant)
    requires
        accounted(s),
        fits(s),
        forall|i: int| 0 <= i < s.writes.len() ==> (#[trigger] s.writes[i]) is Remove,
    ensures
        settled(s.synced(now)),
        weight_is_bounded(s, now),
        s.synced(now).writes.len() == 0,
{
    lemma_reads(s, s.reads.len());
    lemma_removals(s.reads_applied(s.reads.len()));
    batch_keeps_bound(s, now);
}

/// One more write waits: who waited waits, and the weights are counted as before.
proof fn lemma_waits_with_more(writes: Seq<WriteOp>, op: WriteOp, e: usize, weight: u32, old: u32)
    requires
        op is Upsert && op->Upsert_entry == e ==> op->old_weight == old,
        !(op is Upsert && op->Upsert_entry == e) ==> weight == old,
    ensures
        upsert_waits(writes, e) ==> upsert_waits(writes.push(op), e),
        removal_waits(writes, e) ==> removal_waits(writes.push(op), e),
        op is Upsert && op->Upsert_entry == e ==> upsert_waits(writes.push(op), e),
        op is Remove && op->Remove_entry == e ==> removal_waits(writes.push(op), e),
        upsert_waits(writes.push(op), e) ==> upsert_waits(writes, e) || (op is Upsert
            && op->Upsert_entry == e),
        counted_weight(writes.push(op), e, weight) == counted_weight(writes, e, old),
    decreases writes.len(),
{
    let more = writes.push(op);
    if upsert_waits(writes, e) {
        let i = choose|i: int|
            0 <= i < writes.len() && (#[trigger] writes[i]) is Upsert && writes[i]->Upsert_entry == e;
        assert(more[i] == writes[i]);
    }
    if removal_waits(writes, e) {
        let i = choose|i: int|
            0 <= i < writes.len() && (#[trigger] writes[i]) is Remove && writes[i]->Remove_entry == e;
        assert(more[i] == writes[i]);
    }
    assert(more[writes.len() as int] == op);
    if upsert_waits(more, e) {
        let i = choose|i: int|
            0 <= i < more.len() && (#[trigger] more[i]) is Upsert && more[i]->Upsert_entry == e;
        if i < writes.len() {
            assert(writes[i] == more[i]);
        }
    }
    if writes.len() == 0 {
        assert(more.skip(1) =~= Seq::<WriteOp>::empty());
        assert(counted_weight(more.skip(1), e, weight) == weight);
    } else {
        assert(more.skip(1) =~= writes.skip(1).push(op));
        assert(more[0] == writes[0]);
        lemma_waits_with_more(writes.skip(1), op, e, weight, old);
    }
}

/// No write to an entry waits that there is not yet.
proof fn lemma_new_is_not_before<V>(s: CacheState<V>, i: int, e: usize)
    requires
        s.wf(),
        0 <= i <= s.writes.len(),
        !s.entries.dom().contains(e),
    ensures
        !upsert_waits(s.writes.take(i), e),
{
    let before = s.writes.take(i);
    if upsert_waits(before, e) {
        let j = choose|j: int|
            0 <= j < before.len() && (#[trigger] before[j]) is Upsert && before[j]->Upsert_entry == e;
        assert(s.writes[j] == before[j]);
        assert(s.write_ok(s.writes[j]));
    }
}

/// What a write of the entry `e` under the key changes.
spec fn is_put_of<V>(s: CacheState<V>, after: CacheState<V>, key: u64, e: usize, op: WriteOp) -> bool {
    &&& after.writes == s.writes.push(op)
    &&& op is Upsert
    &&& op->Upsert_entry == e
    &&& op->Upsert_key == key
    &&& match s.find(key) {
        Some(x) => x == e && after.cache == s.cache && op->old_weight == s.info(e).policy_weight,
        None => after.cache == s.cache.insert(key, e) && !s.entries.dom().contains(e) && !after.info(
            e,
        ).is_admitted,
    }
    &&& after.info(e).key_hash.key == key
    &&& after.info(e).last_modified@ is Some
    &&& after.info(e).policy_weight == op->new_weight
    &&& forall|x: usize| #[trigger]
        s.entries.dom().contains(x) ==> after.info(x).key_hash == s.info(x).key_hash && after.info(
            x,
        ).is_admitted == s.info(x).is_admitted && (x != e ==> after.info(x) == s.info(x))
}

/// The writes that waited agree with the hash table after another write.
proof fn lemma_put_right<V>(
    s: CacheState<V>,
    after: CacheState<V>,
    key: u64,
    e: usize,
    op: WriteOp,
    i: int,
)
    requires
        accounted(s),
        is_put_of(s, after, key, e, op),
        0 <= i < s.writes.len(),
    ensures
        is_right_write(after, i),
        is_there(after, i),
{
    assert(after.writes[i] == s.writes[i]);
    assert(is_right_write(s, i));
    assert(is_there(s, i));
    assert(s.write_ok(s.writes[i]));
    let behind = s.writes.skip(i + 1);
    assert(after.writes.skip(i + 1) =~= behind.push(op));
    assert(after.writes.take(i) =~= s.writes.take(i));
    match s.writes[i] {
        WriteOp::Upsert { key, hash, entry, old_weight, new_weight } => {
            assert(s.entries.dom().contains(entry));
            let w = after.info(entry).policy_weight;
            lemma_waits_with_more(behind, op, entry, w, s.info(entry).policy_weight);
        },
        WriteOp::Remove { key, entry } => {
            assert(s.entries.dom().contains(entry));
            assert(entry != e);
            let w = s.info(entry).policy_weight;
            lemma_waits_with_more(behind, op, entry, w, w);
            let k = s.info(entry).key_hash.key;
            if after.find(k) is Some {
                let x = after.cache[k];
                if s.cache.dom().contains(k) {
                    assert(s.find(k) == Some(x));
                    assert(s.entries.dom().contains(x));
                    lemma_waits_with_more(
                        behind,
                        op,
                        x,
                        after.info(x).policy_weight,
                        s.info(x).policy_weight,
                    );
                } else {
                    assert(x == e);
                    lemma_new_is_not_before(s, i, e);
                    lemma_waits_with_more(behind, op, e, after.info(e).policy_weight, op->old_weight);
                }
            }
        },
    }
}

/// A write keeps the account.
pub proof fn write_keeps_account<V>(
    s: CacheState<V>,
    after: CacheState<V>,
    key: u64,
    hash: u64,
    value: V,
    weight: u32,
    now: Instant,
)
    requires
        accounted(s),
        s.put(after, key, hash, value, weight, now),
        now.nanos < u64::MAX,
    ensures
        accounted(after),
{
    let op = after.writes.last();
    let e = op->Upsert_entry;
    let q = s.queues.probation;
    assert(after.writes =~= s.writes.push(op));
    let t = match s.find(key) {
        Some(x) => {
            assert(s.cache.dom().contains(key));
            assert(x == e);
            let t = s.replaced(x, value, weight, now);
            s.lemma_entry_wf(t, x);
            t
        },
        None => {
            s.lemma_inserted_wf(e, after.entries[e]);
            s.inserted(e, after.entries[e])
        },
    };
    assert forall|i: int| 0 <= i < after.writes.len() implies t.write_ok(#[trigger] after.writes[i]) by {
        if i < s.writes.len() {
            assert(after.writes[i] == s.writes[i]);
            assert(s.write_ok(s.writes[i]));
        }
    }
    assert forall|i: int| 0 <= i < after.reads.len() implies t.read_ok(#[trigger] after.reads[i]) by {
        assert(s.read_ok(s.reads[i]));
    }
    t.lemma_logs_wf(after);
    assert(is_put_of(s, after, key, e, op));
    lemma_put_balanced(s, after, key, e, op);
}

proof fn lemma_put_balanced<V>(
    s: CacheState<V>,
    after: CacheState<V>,
    key: u64,
    e: usize,
    op: WriteOp,
)
    requires
        accounted(s),
        is_put_of(s, after, key, e, op),
        after.wf(),
        after.queues == s.queues,
        after.counters == s.counters,
    ensures
        accounted(after),
{
    let q = s.queues.probation;
    let f = counted_weights(s);
    let g = counted_weights(after);
    assert forall|x: usize| #[trigger] s.entries.dom().contains(x) implies g(x) == f(x) && (upsert_waits(
        s.writes,
        x,
    ) ==> upsert_waits(after.writes, x)) && (removal_waits(s.writes, x) ==> removal_waits(after.writes, x)) by {
        lemma_waits_with_more(
            s.writes,
            op,
            x,
            after.info(x).policy_weight,
            s.info(x).policy_weight,
        );
    }
    assert forall|i: int| 0 <= i < q.len() implies g(#[trigger] q[i]) == f(q[i]) by {
        assert(q.contains(q[i]));
        assert(s.entries.dom().contains(q[i]));
    }
    lemma_total_of_same(q, g, f);
    assert forall|x: usize| #[trigger] after.queues.probation.contains(x) implies after.info(
        x,
    ).last_modified@ is Some && (after.in_cache(x) || removal_waits(after.writes, x)) by {
        assert(q.contains(x));
        assert(s.entries.dom().contains(x));
    }
    lemma_waits_with_more(s.writes, op, e, after.info(e).policy_weight, op->old_weight);
    assert forall|k: u64| #[trigger] after.cache.dom().contains(k) implies after.info(
        after.cache[k],
    ).is_admitted || upsert_waits(after.writes, after.cache[k]) by {
        if after.cache[k] != e {
            assert(s.cache.dom().contains(k));
            assert(s.entries.dom().contains(s.cache[k]));
        }
    }
    assert forall|i: int| #![trigger after.writes[i]] 0 <= i < after.writes.len() implies is_right_write(
        after,
        i,
    ) && is_there(after, i) by {
        if i < s.writes.len() {
            lemma_put_right(s, after, key, e, op, i);
        } else {
            assert(after.writes[i] == op);
            assert(after.writes.skip(i + 1) =~= Seq::<WriteOp>::empty());
        }
    }
}

/// The writes that waited agree with the hash table after a removal.
proof fn lemma_taken_right<V>(s: CacheState<V>, key: u64, i: int)
    requires
        accounted(s),
        s.find(key) is Some,
        0 <= i < s.writes.len(),
    ensures
        is_right_write(s.taken(key), i),
        is_there(s.taken(key), i),
{
    let e = s.cache[key];
    let op = WriteOp::Remove { key, entry: e };
    let after = s.taken(key);
    assert(after.writes[i] == s.writes[i]);
    assert(is_right_write(s, i));
    assert(is_there(s, i));
    let behind = s.writes.skip(i + 1);
    assert(after.writes.skip(i + 1) =~= behind.push(op));
    assert(after.writes.take(i) =~= s.writes.take(i));
    match s.writes[i] {
        WriteOp::Upsert { key, hash, entry, old_weight, new_weight } => {
            let w = s.info(entry).policy_weight;
            lemma_waits_with_more(behind, op, entry, w, w);
        },
        WriteOp::Remove { key, entry } => {
            let w = s.info(entry).policy_weight;
            lemma_waits_with_more(behind, op, entry, w, w);
            let k = s.info(entry).key_hash.key;
            if after.find(k) is Some {
                let v = s.info(s.cache[k]).policy_weight;
                lemma_waits_with_more(behind, op, s.cache[k], v, v);
            }
        },
    }
}

/// A removal keeps the account.
pub proof fn removal_keeps_account<V>(s: CacheState<V>, key: u64)
    requires
        accounted(s),
    ensures
        accounted(s.taken(key)),
{
    if s.find(key) is Some {
        let e = s.cache[key];
        let op = WriteOp::Remove { key, entry: e };
        let t = s.without_key(key);
        let after = s.taken(key);
        let q = s.queues.probation;
        assert(s.cache.dom().contains(key));
        s.lemma_without_key_wf(key);
        assert(after.writes == s.writes.push(op));
        assert forall|i: int| 0 <= i < after.writes.len() implies t.write_ok(#[trigger] after.writes[i]) by {
            if i < s.writes.len() {
                assert(s.write_ok(s.writes[i]));
            }
        }
        t.lemma_logs_wf(after);
        let f = counted_weights(s);
        let g = counted_weights(after);
        assert forall|i: int| 0 <= i < q.len() implies g(#[trigger] q[i]) == f(q[i]) by {
            let w = s.info(q[i]).policy_weight;
            lemma_waits_with_more(s.writes, op, q[i], w, w);
        }
        lemma_total_of_same(q, g, f);
        assert forall|x: usize| #[trigger] after.queues.probation.contains(x) implies after.info(
            x,
        ).last_modified@ is Some && (after.in_cache(x) || removal_waits(after.writes, x)) by {
            assert(q.contains(x));
            lemma_waits_with_more(s.writes, op, x, s.info(x).policy_weight, s.info(x).policy_weight);
        }
        assert forall|k: u64| #[trigger] after.cache.dom().contains(k) implies after.info(
            after.cache[k],
        ).is_admitted || upsert_waits(after.writes, after.cache[k]) by {
            assert(s.cache.dom().contains(k));
            let x = s.cache[k];
            lemma_waits_with_more(s.writes, op, x, s.info(x).policy_weight, s.info(x).policy_weight);
        }
        assert forall|i: int| #![trigger after.writes[i]] 0 <= i < after.writes.len() implies is_right_write(
            after,
            i,
        ) && is_there(after, i) by {
            if i < s.writes.len() {
                lemma_taken_right(s, key, i);
            } else {
                assert(after.writes[i] == op);
                assert(after.writes.skip(i + 1) =~= Seq::<WriteOp>::empty());
            }
        }
    }
}

/// A read keeps the account.
pub proof fn read_keeps_account<V>(s: CacheState<V>, key: u64, hash: u64, now: Instant)
    requires
        accounted(s),
    ensures
        accounted(s.read_at(key, hash, now)),
{
    let op = s.read_op(key, hash, now);
    let q = s.queues.probation;
    let t = if s.lookup(key, now) is Some {
        let t = s.accessed(s.cache[key], now);
        assert(s.cache.dom().contains(key));
        s.lemma_entry_wf(t, s.cache[key]);
        assert(t.read_ok(op));
        t
    } else {
        s
    };
    let u = t.read_logged(op);
    assert forall|i: int| 0 <= i < u.reads.len() implies t.read_ok(#[trigger] u.reads[i]) by {
        if i < t.reads.len() {
            assert(t.read_ok(t.reads[i]));
        }
    }
    t.lemma_logs_wf(u);
    let f = counted_weights(s);
    let g = counted_weights(u);
    assert forall|i: int| 0 <= i < q.len() implies g(#[trigger] q[i]) == f(q[i]) by {}
    lemma_total_of_same(q, g, f);
    assert forall|x: usize| #[trigger] u.queues.probation.contains(x) implies u.info(x).last_modified@ is Some
        && (u.in_cache(x) || removal_waits(u.writes, x)) by {
        assert(q.contains(x));
    }
    assert forall|k: u64| #[trigger] u.cache.dom().contains(k) implies u.info(u.cache[k]).is_admitted
        || upsert_waits(u.writes, u.cache[k]) by {
        assert(s.cache.dom().contains(k));
    }
    assert forall|i: int| #![trigger u.writes[i]] 0 <= i < u.writes.len() implies is_right_write(u, i)
        && is_there(u, i) by {
        assert(is_right_write(s, i));
        assert(is_there(s, i));
    }
}

} // verus!
