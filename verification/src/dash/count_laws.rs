//! What holds of a cache whose entries all weigh one: its weight is the number of its entries.
use vstd::prelude::*;
use vstd::set_lib::lemma_len_subset;

use super::capacity_laws::{admission_without_room_keeps_weight, settled_except};
use super::state::{CacheState, EVICTION_BATCH_SIZE};
use crate::common::concurrent::admission::sat_add;
use crate::common::op_log::{ReadOp, WriteOp};
use crate::common::time::Instant;
use crate::common::CacheRegion;

verus! {

/// No write of the log tells of the entry as of a new one.
spec fn is_not_new<V>(s: CacheState<V>, e: usize) -> bool {
    forall|i: int|
        0 <= i < s.writes.len() && (#[trigger] s.writes[i]) is Upsert && s.writes[i]->Upsert_entry == e
            ==> s.writes[i]->old_weight != 0
}

/// The writes of the log are of entries that weigh one. Where one tells of a new entry, it is
/// the first that tells of it, and the entry was not let in yet.
pub open spec fn unit_writes<V>(s: CacheState<V>) -> bool {
    &&& forall|i: int|
        0 <= i < s.writes.len() && (#[trigger] s.writes[i]) is Upsert ==> s.writes[i]->new_weight == 1
            && s.writes[i]->old_weight <= 1
    &&& forall|i: int|
        0 <= i < s.writes.len() && (#[trigger] s.writes[i]) is Upsert && s.writes[i]->old_weight == 0
            ==> !s.info(s.writes[i]->Upsert_entry).is_admitted
    &&& forall|i: int, j: int|
        0 <= j < i < s.writes.len() && (#[trigger] s.writes[i]) is Upsert && s.writes[i]->old_weight == 0
            && (#[trigger] s.writes[j]) is Upsert ==> s.writes[j]->Upsert_entry
            != s.writes[i]->Upsert_entry
}

/// The cache is well-formed, and its entries can be counted.
pub open spec fn is_sound<V>(s: CacheState<V>) -> bool {
    &&& s.wf()
    &&& s.entries.dom().finite()
    &&& s.entries.dom().len() <= u64::MAX
}

/// Every entry weighs one, and the weight of the cache is the number of its entries.
pub open spec fn counts_entries<V>(s: CacheState<V>) -> bool {
    &&& is_sound(s)
    &&& s.counters.weighted_size == s.counters.entry_count
    &&& forall|e: usize| #[trigger] s.entries.dom().contains(e) ==> s.info(e).policy_weight == 1
    &&& unit_writes(s)
}

/// The cache is sound. Where every entry weighs one, its weight is the number of its entries.
spec fn kept<V>(s: CacheState<V>, unit: bool) -> bool {
    &&& is_sound(s)
    &&& unit ==> counts_entries(s)
}

/// From `a` to `b` no entry comes or goes, and none is let in.
spec fn settles<V>(a: CacheState<V>, b: CacheState<V>) -> bool {
    &&& b.entries.dom() =~= a.entries.dom()
    &&& b.writes == a.writes
    &&& forall|e: usize| #[trigger]
        a.entries.dom().contains(e) ==> b.info(e).policy_weight == a.info(e).policy_weight && (
        b.info(e).is_admitted ==> a.info(e).is_admitted)
}

proof fn lemma_settles<V>(a: CacheState<V>, b: CacheState<V>, unit: bool)
    requires
        kept(a, unit),
        settles(a, b),
        b.wf(),
        unit ==> b.counters.weighted_size == b.counters.entry_count,
    ensures
        kept(b, unit),
{
    if unit {
        assert forall|e: usize| #[trigger] b.entries.dom().contains(e) implies b.info(e).policy_weight
            == 1 by {
            assert(a.entries.dom().contains(e));
        }
        assert forall|i: int|
            0 <= i < b.writes.len() && (#[trigger] b.writes[i]) is Upsert && b.writes[i]->old_weight
                == 0 implies !b.info(b.writes[i]->Upsert_entry).is_admitted by {
            assert(a.write_ok(a.writes[i]));
            assert(a.entries.dom().contains(a.writes[i]->Upsert_entry));
        }
    }
}

proof fn lemma_to_back<V>(s: CacheState<V>, e: usize, unit: bool)
    requires
        kept(s, unit),
    ensures
        kept(s.to_back_ao(e), unit),
        kept(s.to_back_wo(e), unit),
{
    s.lemma_to_back_wf(e);
    lemma_settles(s, s.to_back_ao(e), unit);
    lemma_settles(s, s.to_back_wo(e), unit);
}

proof fn lemma_removed<V>(s: CacheState<V>, key: u64, unit: bool)
    requires
        kept(s, unit),
    ensures
        kept(s.without_key(key), unit),
{
    s.lemma_without_key_wf(key);
    lemma_settles(s, s.without_key(key), unit);
}

proof fn lemma_dismissed<V>(s: CacheState<V>, e: usize, unit: bool)
    requires
        kept(s, unit),
        s.entries.dom().contains(e),
    ensures
        kept(s.dismissed(e), unit),
{
    s.lemma_dismissed_wf(e);
    lemma_settles(s, s.dismissed(e), unit);
}

/// A key and its entry are removed.
proof fn lemma_key_dismissed<V>(s: CacheState<V>, key: u64, unit: bool)
    requires
        kept(s, unit),
        s.find(key) is Some,
    ensures
        kept(s.without_key(key).dismissed(s.cache[key]), unit),
{
    assert(s.cache.dom().contains(key));
    lemma_removed(s, key, unit);
    lemma_dismissed(s.without_key(key), s.cache[key], unit);
}

proof fn lemma_admitted<V>(s: CacheState<V>, e: usize, weight: u32, unit: bool)
    requires
        kept(s, unit),
        s.entries.dom().contains(e),
        !s.info(e).is_admitted,
        unit ==> is_not_new(s, e) && weight == 1,
    ensures
        kept(s.admitted(e, weight), unit),
{
    let q = s.queues.probation;
    let after = s.admitted(e, weight);
    assert(q.to_set().subset_of(s.entries.dom().remove(e))) by {
        assert forall|x: usize| q.to_set().contains(x) implies s.entries.dom().remove(e).contains(x) by {
            assert(q.contains(x));
            assert(s.entries.dom().contains(x) && s.info(x).is_admitted);
        }
    }
    lemma_len_subset(q.to_set(), s.entries.dom().remove(e));
    q.unique_seq_to_set();
    s.lemma_admitted_wf(e, weight);
    assert(after.entries.dom() =~= s.entries.dom());
    if unit {
        assert forall|x: usize| #[trigger] after.entries.dom().contains(x) implies after.info(x).policy_weight
            == 1 by {
            assert(s.entries.dom().contains(x));
        }
        assert forall|i: int|
            0 <= i < after.writes.len() && (#[trigger] after.writes[i]) is Upsert
                && after.writes[i]->old_weight == 0 implies !after.info(
            after.writes[i]->Upsert_entry,
        ).is_admitted by {
            assert(s.writes[i]->Upsert_entry != e);
        }
    }
}

proof fn lemma_evicted<V>(s: CacheState<V>, nodes: Seq<usize>, skipped: Seq<usize>, n: int, unit: bool)
    requires
        kept(s, unit),
        0 <= n <= nodes.len(),
        s.all_known(nodes),
    ensures
        kept(s.evicted(nodes, skipped, n).0, unit),
        s.evicted(nodes, skipped, n).0.same_logs(s),
    decreases n,
{
    if n > 0 {
        lemma_evicted(s, nodes, skipped, n - 1, unit);
        let t = s.evicted(nodes, skipped, n - 1).0;
        let key = t.info(nodes[n - 1]).key_hash.key;
        if t.find(key) is Some {
            lemma_key_dismissed(t, key, unit);
        }
    }
}

proof fn lemma_all_to_back<V>(s: CacheState<V>, nodes: Seq<usize>, n: int, unit: bool)
    requires
        kept(s, unit),
    ensures
        kept(s.all_to_back_ao(nodes, n), unit),
    decreases n,
{
    if n > 0 {
        lemma_all_to_back(s, nodes, n - 1, unit);
        lemma_to_back(s.all_to_back_ao(nodes, n - 1), nodes[n - 1], unit);
    }
}

proof fn lemma_upserted<V>(
    s: CacheState<V>,
    key: u64,
    hash: u64,
    e: usize,
    old_weight: u32,
    weight: u32,
    unit: bool,
)
    requires
        kept(s, unit),
        s.entries.dom().contains(e),
        unit ==> is_not_new(s, e) && weight == 1 && old_weight <= 1 && (old_weight == 0
            ==> !s.info(e).is_admitted),
    ensures
        kept(s.upserted(key, hash, e, old_weight, weight), unit),
{
    if s.info(e).is_admitted {
        assert(s.queues.probation.contains(e));
        let t = CacheState { counters: s.counters.subtracted(0, old_weight).added(0, weight), ..s };
        s.lemma_rest_wf(t);
        lemma_settles(s, t, unit);
        lemma_to_back(t, e, unit);
        lemma_to_back(t.to_back_ao(e), e, unit);
    } else if s.has_room_for(weight) {
        lemma_admitted(s, e, weight, unit);
    } else if weight > s.max_capacity->0 {
        lemma_removed(s, key, unit);
    } else {
        let freq = s.sketch.frequency(hash) as int;
        s.lemma_victims(weight as int, freq);
        let v = s.victims(weight as int, freq);
        if v.policy_weight >= weight && freq > v.freq {
            let n = v.nodes.len() as int;
            s.lemma_evicted(v.nodes, v.skipped, n, e);
            lemma_evicted(s, v.nodes, v.skipped, n, unit);
            let (s1, skipped) = s.evicted(v.nodes, v.skipped, n);
            assert(unit ==> is_not_new(s1, e));
            lemma_admitted(s1, e, weight, unit);
            lemma_all_to_back(s1.admitted(e, weight), skipped, skipped.len() as int, unit);
        } else {
            lemma_removed(s, key, unit);
            lemma_all_to_back(s.without_key(key), v.skipped, v.skipped.len() as int, unit);
        }
    }
}

proof fn lemma_reads_applied<V>(s: CacheState<V>, n: nat, unit: bool)
    requires
        kept(s, unit),
    ensures
        kept(s.reads_applied(n), unit),
    decreases n,
{
    if n > 0 && s.reads.len() > 0 {
        let t = CacheState { reads: s.reads.remove(0), ..s };
        assert(s.read_ok(s.reads[0]));
        assert forall|i: int| 0 <= i < t.reads.len() implies s.read_ok(#[trigger] t.reads[i]) by {
            assert(t.reads[i] == s.reads[i + 1]);
        }
        s.lemma_logs_wf(t);
        lemma_settles(s, t, unit);
        let hash = match s.reads[0] {
            ReadOp::Hit { hash, entry } => hash,
            ReadOp::Miss(hash) => hash,
        };
        let counted = CacheState { sketch: t.sketch.incremented(hash), ..t };
        t.lemma_rest_wf(counted);
        lemma_settles(t, counted, unit);
        match s.reads[0] {
            ReadOp::Hit { hash, entry } => {
                lemma_to_back(counted, entry, unit);
            },
            ReadOp::Miss(hash) => {},
        }
        lemma_reads_applied(s.read_applied(), (n - 1) as nat, unit);
    }
}

/// The oldest write is taken out of the log.
proof fn lemma_popped<V>(s: CacheState<V>, unit: bool)
    requires
        kept(s, unit),
        s.writes.len() > 0,
    ensures
        kept(CacheState { writes: s.writes.remove(0), ..s }, unit),
        s.write_ok(s.writes[0]),
        unit && s.writes[0] is Upsert ==> is_not_new(
            CacheState { writes: s.writes.remove(0), ..s },
            s.writes[0]->Upsert_entry,
        ),
{
    let t = CacheState { writes: s.writes.remove(0), ..s };
    assert(s.write_ok(s.writes[0]));
    assert forall|i: int| 0 <= i < t.writes.len() implies s.write_ok(#[trigger] t.writes[i])
        && t.writes[i] == s.writes[i + 1] by {
        assert(t.writes[i] == s.writes[i + 1]);
    }
    s.lemma_logs_wf(t);
    if unit {
        assert forall|i: int|
            0 <= i < t.writes.len() && (#[trigger] t.writes[i]) is Upsert && t.writes[i]->old_weight
                == 0 implies !t.info(t.writes[i]->Upsert_entry).is_admitted by {
            assert(t.writes[i] == s.writes[i + 1]);
        }
        assert forall|i: int, j: int|
            0 <= j < i < t.writes.len() && (#[trigger] t.writes[i]) is Upsert && t.writes[i]->old_weight
                == 0 && (#[trigger] t.writes[j]) is Upsert implies t.writes[j]->Upsert_entry
            != t.writes[i]->Upsert_entry by {
            assert(t.writes[i] == s.writes[i + 1]);
            assert(t.writes[j] == s.writes[j + 1]);
        }
        if s.writes[0] is Upsert {
            assert forall|i: int|
                0 <= i < t.writes.len() && (#[trigger] t.writes[i]) is Upsert
                    && t.writes[i]->Upsert_entry == s.writes[0]->Upsert_entry implies t.writes[i]->old_weight
                != 0 by {
                assert(t.writes[i] == s.writes[i + 1]);
            }
        }
    }
}

proof fn lemma_writes_applied<V>(s: CacheState<V>, n: nat, unit: bool)
    requires
        kept(s, unit),
    ensures
        kept(s.writes_applied(n), unit),
    decreases n,
{
    if n > 0 && s.writes.len() > 0 {
        lemma_popped(s, unit);
        let t = CacheState { writes: s.writes.remove(0), ..s };
        match s.writes[0] {
            WriteOp::Upsert { key, hash, entry, old_weight, new_weight } => {
                lemma_upserted(t, key, hash, entry, old_weight, new_weight, unit);
            },
            WriteOp::Remove { key, entry } => {
                lemma_dismissed(t, entry, unit);
            },
        }
        lemma_writes_applied(s.write_applied(), (n - 1) as nat, unit);
    }
}

proof fn lemma_skipped<V>(s: CacheState<V>, key: u64, region: CacheRegion, unit: bool)
    requires
        kept(s, unit),
    ensures
        kept(s.skipped_updated(key, region).0, unit),
{
    match s.find(key) {
        Some(e) => {
            lemma_to_back(s, e, unit);
            lemma_to_back(s.to_back_ao(e), e, unit);
        },
        None => {
            if s.queues.access_order(region).len() > 0 {
                let e = s.queues.access_order(region)[0];
                lemma_to_back(s, e, unit);
                assert(s.skipped_updated(key, region).0 == s.to_back_ao(e));
            }
        },
    }
}

proof fn lemma_expired_ao<V>(s: CacheState<V>, region: CacheRegion, n: nat, now: Instant, unit: bool)
    requires
        kept(s, unit),
    ensures
        kept(s.expired_ao_removed(region, n, now), unit),
    decreases n,
{
    let queue = s.queues.access_order(region);
    if n == 0 || queue.len() == 0 || !s.expired_ao(queue[0], now) {
    } else {
        let key = s.info(queue[0]).key_hash.key;
        match s.find(key) {
            Some(e) if s.expired_ao(e, now) => {
                lemma_key_dismissed(s, key, unit);
                lemma_expired_ao(s.without_key(key).dismissed(e), region, (n - 1) as nat, now, unit);
            },
            _ => {
                lemma_skipped(s, key, region, unit);
                let (t, skipped) = s.skipped_updated(key, region);
                if skipped {
                    lemma_expired_ao(t, region, (n - 1) as nat, now, unit);
                }
            },
        }
    }
}

proof fn lemma_expired_wo<V>(s: CacheState<V>, n: nat, now: Instant, unit: bool)
    requires
        kept(s, unit),
    ensures
        kept(s.expired_wo_removed(n, now), unit),
    decreases n,
{
    let queue = s.queues.write_order;
    if n == 0 || queue.len() == 0 || !s.expired_wo(queue[0], now) {
    } else {
        let key = s.info(queue[0]).key_hash.key;
        match s.find(key) {
            Some(e) => {
                if s.expired_wo(e, now) {
                    lemma_key_dismissed(s, key, unit);
                    lemma_expired_wo(s.without_key(key).dismissed(e), (n - 1) as nat, now, unit);
                } else if s.info(e).last_modified@ is None {
                    lemma_to_back(s, e, unit);
                    lemma_to_back(s.to_back_ao(e), e, unit);
                    lemma_expired_wo(s.to_back_ao(e).to_back_wo(e), (n - 1) as nat, now, unit);
                }
            },
            None => {
                lemma_to_back(s, queue[0], unit);
                lemma_expired_wo(s.to_back_wo(queue[0]), (n - 1) as nat, now, unit);
            },
        }
    }
}

proof fn lemma_lru<V>(s: CacheState<V>, n: nat, to_evict: u64, evicted: u64, unit: bool)
    requires
        kept(s, unit),
    ensures
        kept(s.lru_evicted(n, to_evict, evicted), unit),
    decreases n,
{
    let queue = s.queues.probation;
    if n == 0 || evicted >= to_evict || queue.len() == 0 {
    } else {
        let front = s.info(queue[0]);
        let key = front.key_hash.key;
        match s.find(key) {
            Some(e) if front.last_modified@ is Some && s.info(e).last_modified@
                == front.last_modified@ => {
                lemma_key_dismissed(s, key, unit);
                lemma_lru(
                    s.without_key(key).dismissed(e),
                    (n - 1) as nat,
                    to_evict,
                    sat_add(evicted, s.info(e).policy_weight as int), unit,
                );
            },
            _ => {
                lemma_skipped(s, key, CacheRegion::MainProbation, unit);
                let (t, skipped) = s.skipped_updated(key, CacheRegion::MainProbation);
                if skipped {
                    lemma_lru(t, (n - 1) as nat, to_evict, evicted, unit);
                }
            },
        }
    }
}

/// Where every entry weighs one, giving a key a value keeps the weight of the cache at the
/// number of its entries.
pub proof fn write_keeps_count<V>(
    before: CacheState<V>,
    after: CacheState<V>,
    key: u64,
    hash: u64,
    value: V,
    now: Instant,
)
    requires
        counts_entries(before),
        before.put(after, key, hash, value, 1, now),
        after.entries.dom().len() <= u64::MAX,
    ensures
        counts_entries(after),
{
    let e = after.writes.last()->Upsert_entry;
    let n = before.writes.len() as int;
    match before.find(key) {
        Some(entry) => {
            assert(before.cache.dom().contains(key));
            let t = before.replaced(entry, value, 1, now);
            before.lemma_entry_wf(t, entry);
            lemma_settles(before, t, true);
            t.lemma_logs_wf(after);
        },
        None => {
            let t = before.inserted(e, after.entries[e]);
            before.lemma_inserted_wf(e, after.entries[e]);
            t.lemma_logs_wf(after);
            assert forall|x: usize| #[trigger] after.entries.dom().contains(x) implies after.info(
                x,
            ).policy_weight == 1 by {
                if x != e {
                    assert(before.entries.dom().contains(x));
                }
            }
            assert forall|i: int| 0 <= i < n && (#[trigger] before.writes[i]) is Upsert implies before.writes[i]->Upsert_entry
                != e by {
                assert(before.write_ok(before.writes[i]));
            }
        },
    }
    assert forall|i: int| 0 <= i < n implies after.writes[i] == #[trigger] before.writes[i] by {}
    assert forall|i: int|
        0 <= i < after.writes.len() && (#[trigger] after.writes[i]) is Upsert
            && after.writes[i]->old_weight == 0 implies !after.info(
        after.writes[i]->Upsert_entry,
    ).is_admitted by {
        if i < n {
            assert(after.writes[i] == before.writes[i]);
            assert(before.write_ok(before.writes[i]));
        }
    }
}

/// So does taking a value away.
pub proof fn removal_keeps_count<V>(before: CacheState<V>, key: u64)
    requires
        counts_entries(before),
    ensures
        counts_entries(before.taken(key)),
{
    if before.find(key) is Some {
        assert(before.cache.dom().contains(key));
        lemma_removed(before, key, true);
        let t = before.without_key(key);
        let after = before.taken(key);
        t.lemma_logs_wf(after);
        assert forall|i: int|
            0 <= i < after.writes.len() && (#[trigger] after.writes[i]) is Upsert implies i
            < before.writes.len() && after.writes[i] == before.writes[i] by {}
    }
}

proof fn lemma_synced<V>(s: CacheState<V>, now: Instant, unit: bool)
    requires
        kept(s, unit),
    ensures
        kept(s.synced(now), unit),
{
    reveal(CacheState::synced);
    let n = EVICTION_BATCH_SIZE as nat;
    s.lemma_reads_applied(s.reads.len());
    lemma_reads_applied(s, s.reads.len(), unit);
    let s1 = s.reads_applied(s.reads.len());
    s1.lemma_writes_applied(s1.writes.len());
    lemma_writes_applied(s1, s1.writes.len(), unit);
    let s2 = s1.writes_applied(s1.writes.len());
    let s3 = s.logs_applied();
    s2.lemma_rest_wf(s3);
    lemma_settles(s2, s3, unit);
    let s4 = if s3.time_to_live is Some {
        lemma_expired_wo(s3, n, now, unit);
        s3.expired_wo_removed(n, now)
    } else {
        s3
    };
    lemma_expired_ao(s4, CacheRegion::Window, n, now, unit);
    let s5 = s4.expired_ao_removed(CacheRegion::Window, n, now);
    lemma_expired_ao(s5, CacheRegion::MainProbation, n, now, unit);
    let s6 = s5.expired_ao_removed(CacheRegion::MainProbation, n, now);
    lemma_expired_ao(s6, CacheRegion::MainProtected, n, now, unit);
    s3.lemma_expired_removed(n, now);
    let s7 = if s3.time_to_live is Some || s3.time_to_idle is Some || s3.valid_after is Some {
        s3.expired_removed(n, now)
    } else {
        s3
    };
    lemma_lru(s7, n, s7.overweight(), 0, unit);
    s7.lemma_lru_evicted(n, s7.overweight(), 0);
    let s8 = s3.trimmed(now);
    s8.lemma_collected_wf();
    let s9 = s8.collected();
    assert(s9.entries.dom().subset_of(s8.entries.dom()));
    lemma_len_subset(s9.entries.dom(), s8.entries.dom());
    assert forall|e: usize| unit && #[trigger] s9.entries.dom().contains(e) implies s9.info(
        e,
    ).policy_weight == 1 by {
        assert(s8.entries.dom().contains(e));
    }
}

/// So does housekeeping.
pub proof fn housekeeping_keeps_count<V>(s: CacheState<V>, now: Instant)
    requires
        counts_entries(s),
    ensures
        counts_entries(s.synced(now)),
{
    lemma_synced(s, now, true);
}

/// Housekeeping keeps every cache well-formed, whatever its entries weigh.
pub proof fn housekeeping_keeps_order<V>(s: CacheState<V>, now: Instant)
    requires
        is_sound(s),
    ensures
        is_sound(s.synced(now)),
        is_sound(s.with_room(now)),
{
    lemma_synced(s, now, false);
}

/// So does giving a key a value.
pub proof fn write_keeps_order<V>(
    before: CacheState<V>,
    after: CacheState<V>,
    key: u64,
    hash: u64,
    value: V,
    weight: u32,
    now: Instant,
)
    requires
        is_sound(before),
        before.put(after, key, hash, value, weight, now),
        after.entries.dom().len() <= u64::MAX,
    ensures
        is_sound(after),
{
    match before.find(key) {
        Some(entry) => {
            assert(before.cache.dom().contains(key));
            let t = before.replaced(entry, value, weight, now);
            before.lemma_entry_wf(t, entry);
            assert(t.entries.dom() =~= before.entries.dom());
            t.lemma_logs_wf(after);
        },
        None => {
            let e = after.writes.last()->Upsert_entry;
            let t = before.inserted(e, after.entries[e]);
            before.lemma_inserted_wf(e, after.entries[e]);
            t.lemma_logs_wf(after);
        },
    }
}

/// So does taking a value away, and so does reading one.
pub proof fn removal_and_read_keep_order<V>(before: CacheState<V>, key: u64, hash: u64, now: Instant)
    requires
        is_sound(before),
    ensures
        is_sound(before.taken(key)),
        is_sound(before.read_at(key, hash, now)),
{
    if before.find(key) is Some {
        assert(before.cache.dom().contains(key));
        before.lemma_without_key_wf(key);
        before.without_key(key).lemma_logs_wf(before.taken(key));
    }
    let e = before.cache[key];
    let t = if before.lookup(key, now) is Some {
        before.lemma_entry_wf(before.accessed(e, now), e);
        assert(before.accessed(e, now).entries.dom() =~= before.entries.dom());
        before.accessed(e, now)
    } else {
        before
    };
    t.lemma_logs_wf(before.read_at(key, hash, now));
}

/// A cache whose entries all weigh one lets no new entry in past its capacity: it then has no more
/// entries than it may, or than it had. The cache is settled but for the key of the entry.
pub proof fn entries_are_bounded<V>(s: CacheState<V>, key: u64, hash: u64, e: usize)
    requires
        counts_entries(s),
        settled_except(s, Set::empty().insert(key)),
        s.find(key) == Some(e),
        !s.info(e).is_admitted,
        s.max_capacity is Some,
    ensures
        ({
            let count = s.upserted(key, hash, e, 0, 1).counters.entry_count;
            count <= s.counters.entry_count || count <= s.max_capacity->0
        }),
{
    if !s.has_room_for(1) {
        admission_without_room_keeps_weight(s, key, hash, e, 0, 1);
    }
}

} // verus!
