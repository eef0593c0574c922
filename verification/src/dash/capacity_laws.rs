//! What holds of which entries a cache keeps: the candidates that are used more often come in,
//! the entries that were not used for longest go out, and the weight of all stays bounded.
use vstd::prelude::*;

use super::state::{CacheState, Victims, EVICTION_BATCH_SIZE, MAX_CONSECUTIVE_RETRIES};
use crate::common::concurrent::admission::sat_add;
use crate::common::concurrent::deques::{lemma_unlinked, unlinked};

verus! {

/// A candidate for which there is room comes in, and the entries then weigh no more than the
/// cache may hold.
pub proof fn admission_with_room_keeps_bound<V>(
    s: CacheState<V>,
    key: u64,
    hash: u64,
    e: usize,
    old_weight: u32,
    weight: u32,
)
    requires
        s.wf(),
        s.entries.dom().contains(e),
        !s.info(e).is_admitted,
        s.has_room_for(weight),
    ensures
        ({
            let after = s.upserted(key, hash, e, old_weight, weight);
            &&& after.info(e).is_admitted
            &&& after.cache == s.cache
            &&& s.max_capacity is Some ==> after.counters.weighted_size <= s.max_capacity->0
        }),
{
}

/// A candidate that is heavier than the whole cache may be does not come in, and nothing else
/// goes.
pub proof fn too_heavy_entry_is_rejected<V>(
    s: CacheState<V>,
    key: u64,
    hash: u64,
    e: usize,
    old_weight: u32,
    weight: u32,
)
    requires
        s.wf(),
        s.entries.dom().contains(e),
        !s.info(e).is_admitted,
        s.max_capacity is Some,
        weight > s.max_capacity->0,
    ensures
        ({
            let after = s.upserted(key, hash, e, old_weight, weight);
            &&& !after.info(e).is_admitted
            &&& after.cache == s.cache.remove(key)
            &&& after.queues == s.queues
            &&& after.counters == s.counters
        }),
{
}

/// Where there is no room, a candidate comes in exactly if it is used more often than all the
/// entries together that have to make room for it, and these are heavy enough.
pub proof fn more_frequent_candidate_is_admitted<V>(
    s: CacheState<V>,
    key: u64,
    hash: u64,
    e: usize,
    old_weight: u32,
    weight: u32,
)
    requires
        s.wf(),
        s.entries.dom().contains(e),
        !s.info(e).is_admitted,
        !s.has_room_for(weight),
        weight <= s.max_capacity->0,
    ensures
        ({
            let after = s.upserted(key, hash, e, old_weight, weight);
            let freq = s.sketch.frequency(hash) as int;
            let victims = s.victims(weight as int, freq);
            &&& after.info(e).is_admitted <==> freq > victims.freq && victims.policy_weight
                >= weight
            &&& after.info(e).is_admitted ==> forall|i: int|
                0 <= i < victims.nodes.len() ==> after.find(
                    #[trigger] s.info(victims.nodes[i]).key_hash.key,
                ) is None
            &&& !after.info(e).is_admitted ==> after.cache == s.cache.remove(key)
                && after.counters == s.counters
        }),
{
    let freq = s.sketch.frequency(hash) as int;
    s.lemma_victims(weight as int, freq);
    let v = s.victims(weight as int, freq);
    if v.policy_weight >= weight && freq > v.freq {
        let n = v.nodes.len() as int;
        s.lemma_evicted(v.nodes, v.skipped, n, e);
        lemma_evicted_gone(s, v.nodes, v.skipped, n, n);
        let (s1, skipped) = s.evicted(v.nodes, v.skipped, n);
        let s2 = s1.admitted(e, weight);
        s2.lemma_all_to_back(skipped, skipped.len() as int);
        assert forall|i: int| 0 <= i < n implies s2.find(
            #[trigger] s.info(v.nodes[i]).key_hash.key,
        ) is None by {
            assert(s.entries.dom().contains(v.nodes[i]));
            assert(s.info(v.nodes[i]).key_hash == s.info(v.nodes[i]).key_hash);
        }
    } else {
        let s1 = s.without_key(key);
        s1.lemma_all_to_back(v.skipped, v.skipped.len() as int);
    }
}

/// A key whose entry was evicted stays without a value.
proof fn lemma_evicted_gone<V>(
    s: CacheState<V>,
    nodes: Seq<usize>,
    skipped: Seq<usize>,
    n: int,
    m: int,
)
    requires
        0 <= n <= m <= nodes.len(),
        s.wf(),
        s.all_known(nodes),
    ensures
        forall|i: int|
            0 <= i < n ==> s.evicted(nodes, skipped, n).0.find(
                #[trigger] s.info(nodes[i]).key_hash.key,
            ) is None,
        forall|x: usize| #[trigger]
            s.entries.dom().contains(x) ==> s.evicted(nodes, skipped, n).0.entries.dom().contains(x)
                && s.evicted(nodes, skipped, n).0.info(x).key_hash == s.info(x).key_hash,
    decreases n,
{
    if n > 0 {
        lemma_evicted_gone(s, nodes, skipped, n - 1, m);
        let (t, sk) = s.evicted(nodes, skipped, n - 1);
        let v = nodes[n - 1];
        assert(s.entries.dom().contains(v));
        let key = t.info(v).key_hash.key;
        let u = s.evicted(nodes, skipped, n).0;
        assert forall|i: int| 0 <= i < n implies u.find(
            #[trigger] s.info(nodes[i]).key_hash.key,
        ) is None by {
            if i < n - 1 {
                assert(t.find(s.info(nodes[i]).key_hash.key) is None);
            }
        }
    }
}

/// What the entries of a queue weigh together.
pub open spec fn total_weight<V>(s: CacheState<V>, queue: Seq<usize>) -> int
    decreases queue.len(),
{
    if queue.len() == 0 {
        0
    } else {
        s.info(queue[0]).policy_weight + total_weight(s, queue.skip(1))
    }
}

/// The policies know all that there is to know, except of some keys: every entry of the queue is in
/// the hash table, under another key, every entry of the hash table that is not under one of these
/// keys is in the queue, the times of writing are known, and the weights are counted.
pub open spec fn settled_except<V>(s: CacheState<V>, pending: Set<u64>) -> bool {
    &&& s.wf()
    &&& s.counters.weighted_size == total_weight(s, s.queues.probation)
    &&& forall|e: usize| #[trigger]
        s.queues.probation.contains(e) ==> s.in_cache(e) && !pending.contains(
            s.info(e).key_hash.key,
        ) && s.info(e).last_modified@ is Some
    &&& forall|k: u64| #[trigger]
        s.cache.dom().contains(k) ==> pending.contains(k) || s.info(s.cache[k]).is_admitted
}

/// The policies know all that there is to know.
pub open spec fn settled<V>(s: CacheState<V>) -> bool {
    settled_except(s, Set::empty())
}

pub proof fn lemma_total_same<V>(a: CacheState<V>, b: CacheState<V>, queue: Seq<usize>)
    requires
        forall|i: int| 0 <= i < queue.len() ==> a.info(#[trigger] queue[i]).policy_weight == b.info(
            queue[i],
        ).policy_weight,
    ensures
        total_weight(a, queue) == total_weight(b, queue),
        total_weight(a, queue) >= 0,
    decreases queue.len(),
{
    if queue.len() > 0 {
        let rest = queue.skip(1);
        assert forall|i: int| 0 <= i < rest.len() implies a.info(#[trigger] rest[i]).policy_weight
            == b.info(rest[i]).policy_weight by {
            assert(rest[i] == queue[i + 1]);
        }
        lemma_total_same(a, b, rest);
    }
}

/// The weight of a queue without one of its entries.
pub proof fn lemma_total_unlinked<V>(s: CacheState<V>, q: Seq<usize>, e: usize)
    requires
        q.no_duplicates(),
        q.contains(e),
    ensures
        total_weight(s, unlinked(q, e)) == total_weight(s, q) - s.info(e).policy_weight,
    decreases q.len(),
{
    let i = q.index_of(e);
    assert(q[i] == e);
    let rest = q.skip(1);
    if i == 0 {
        assert(unlinked(q, e) =~= rest);
    } else {
        assert(rest[i - 1] == e);
        assert(rest.contains(e));
        assert(rest.no_duplicates()) by {
            assert forall|a: int, b: int| 0 <= a < rest.len() && 0 <= b < rest.len() && a != b implies rest[a]
                != rest[b] by {
                assert(rest[a] == q[a + 1] && rest[b] == q[b + 1]);
            }
        }
        let k = rest.index_of(e);
        assert(rest[k] == e);
        assert(q[k + 1] == e);
        assert(k + 1 == i);
        lemma_total_unlinked(s, rest, e);
        let r = unlinked(q, e);
        assert(r[0] == q[0]);
        assert(r.skip(1) =~= unlinked(rest, e));
    }
}

/// One entry is removed from a settled cache.
pub proof fn lemma_member_removed<V>(s: CacheState<V>, pending: Set<u64>, e: usize)
    requires
        settled_except(s, pending),
        s.queues.probation.contains(e),
    ensures
        ({
            let after = s.without_key(s.info(e).key_hash.key).dismissed(e);
            &&& s.find(s.info(e).key_hash.key) == Some(e)
            &&& s.info(e).policy_weight <= s.counters.weighted_size
            &&& settled_except(after, pending)
            &&& after.queues.probation == unlinked(s.queues.probation, e)
            &&& after.queues.probation.len() == s.queues.probation.len() - 1
            &&& after.counters.weighted_size == s.counters.weighted_size - s.info(e).policy_weight
            &&& after.counters.entry_count == s.counters.entry_count - 1
            &&& after.max_capacity == s.max_capacity
        }),
{
    let q = s.queues.probation;
    let key = s.info(e).key_hash.key;
    assert(s.in_cache(e));
    assert(s.entries.dom().contains(e) && s.info(e).is_admitted);
    let t = s.without_key(key);
    s.lemma_without_key_wf(key);
    t.lemma_dismissed_wf(e);
    let after = t.dismissed(e);
    let rest = unlinked(q, e);
    lemma_unlinked(q, e);
    assert(after.queues.probation == rest);
    assert forall|x: usize| #[trigger] after.queues.probation.contains(x) implies after.in_cache(x)
        && !pending.contains(after.info(x).key_hash.key) && after.info(x).last_modified@ is Some by {
        assert(q.contains(x) && x != e);
        assert(s.in_cache(x));
        assert(s.info(x).key_hash.key != key);
    }
    assert forall|k: u64| #[trigger] after.cache.dom().contains(k) implies pending.contains(k)
        || after.info(after.cache[k]).is_admitted by {
        assert(s.cache.dom().contains(k));
        assert(s.cache[k] != e);
    }
    lemma_total_unlinked(s, q, e);
    assert forall|i: int| 0 <= i < rest.len() implies after.info(#[trigger] rest[i]).policy_weight
        == s.info(rest[i]).policy_weight by {
        assert(rest.contains(rest[i]));
    }
    lemma_total_same(after, s, rest);
    assert(total_weight(s, rest) >= 0) by {
        lemma_total_same(s, s, rest);
    }
}

/// One entry is evicted from the front of the queue of a settled cache.
pub proof fn lemma_front_evicted<V>(s: CacheState<V>, pending: Set<u64>)
    requires
        settled_except(s, pending),
        s.queues.probation.len() > 0,
    ensures
        ({
            let e = s.queues.probation[0];
            let after = s.without_key(s.info(e).key_hash.key).dismissed(e);
            &&& s.find(s.info(e).key_hash.key) == Some(e)
            &&& s.info(e).last_modified@ is Some
            &&& s.info(e).policy_weight <= s.counters.weighted_size
            &&& settled_except(after, pending)
            &&& after.queues.probation == s.queues.probation.skip(1)
            &&& after.counters.weighted_size == s.counters.weighted_size - s.info(e).policy_weight
            &&& after.counters.entry_count == s.counters.entry_count - 1
            &&& after.max_capacity == s.max_capacity
        }),
{
    let q = s.queues.probation;
    let e = q[0];
    assert(q.contains(e));
    lemma_member_removed(s, pending, e);
    assert(q.index_of(e) == 0) by {
        let i = q.index_of(e);
        assert(q[i] == e);
    }
    assert(unlinked(q, e) =~= q.skip(1));
}

/// In a settled cache the search for victims takes the entries from the front of the queue.
pub proof fn lemma_search_prefix<V>(
    s: CacheState<V>,
    pending: Set<u64>,
    weight: int,
    freq: int,
    i: int,
    v: Victims,
)
    requires
        settled_except(s, pending),
        0 <= i <= s.queues.probation.len(),
        v.nodes == s.queues.probation.take(i),
        v.policy_weight == total_weight(s, v.nodes),
        v.freq == total_frequency(s, v.nodes),
        v.retries == 0,
    ensures
        ({
            let r = s.search(weight, freq, i, v);
            let m = r.nodes.len() as int;
            let q = s.queues.probation;
            &&& i <= m <= q.len()
            &&& r.nodes == q.take(m)
            &&& r.policy_weight == total_weight(s, r.nodes)
            &&& r.freq == total_frequency(s, r.nodes)
            &&& r.policy_weight >= weight || freq < r.freq || m == q.len()
            &&& m > i ==> total_weight(s, q.take(m - 1)) < weight
        }),
    decreases s.queues.probation.len() - i,
{
    let q = s.queues.probation;
    if v.policy_weight >= weight || freq < v.freq || v.retries > MAX_CONSECUTIVE_RETRIES || !(0 <= i
        < q.len()) {
    } else {
        let n = q[i];
        assert(q.contains(n));
        assert(s.in_cache(n));
        let w = Victims {
            nodes: v.nodes.push(n),
            policy_weight: v.policy_weight + s.info(n).policy_weight,
            freq: v.freq + s.sketch.frequency(s.info(n).key_hash.hash),
            retries: 0,
            ..v
        };
        assert(w.nodes =~= q.take(i + 1));
        lemma_total_pushed(s, v.nodes, n);
        lemma_frequency_pushed(s, v.nodes, n);
        lemma_search_prefix(s, pending, weight, freq, i + 1, w);
    }
}

/// How often the keys of the entries of a queue were used, all together.
pub open spec fn total_frequency<V>(s: CacheState<V>, queue: Seq<usize>) -> int
    decreases queue.len(),
{
    if queue.len() == 0 {
        0
    } else {
        s.sketch.frequency(s.info(queue[0]).key_hash.hash) + total_frequency(s, queue.skip(1))
    }
}

pub proof fn lemma_frequency_pushed<V>(s: CacheState<V>, q: Seq<usize>, e: usize)
    ensures
        total_frequency(s, q.push(e)) == total_frequency(s, q) + s.sketch.frequency(
            s.info(e).key_hash.hash,
        ),
    decreases q.len(),
{
    let r = q.push(e);
    if q.len() == 0 {
        assert(r.skip(1) =~= Seq::<usize>::empty());
        assert(total_frequency(s, r.skip(1)) == 0);
    } else {
        lemma_frequency_pushed(s, q.skip(1), e);
        assert(r.skip(1) =~= q.skip(1).push(e));
        assert(r[0] == q[0]);
    }
}

/// The weight of a queue with one entry more.
pub proof fn lemma_total_pushed<V>(s: CacheState<V>, q: Seq<usize>, e: usize)
    ensures
        total_weight(s, q.push(e)) == total_weight(s, q) + s.info(e).policy_weight,
    decreases q.len(),
{
    let r = q.push(e);
    if q.len() == 0 {
        assert(r.skip(1) =~= Seq::<usize>::empty());
        assert(total_weight(s, r.skip(1)) == 0);
    } else {
        lemma_total_pushed(s, q.skip(1), e);
        assert(r.skip(1) =~= q.skip(1).push(e));
        assert(r[0] == q[0]);
    }
}

/// Evicting the entries from the front of the queue makes a settled cache lighter by their weights.
pub proof fn lemma_prefix_evicted<V>(
    s: CacheState<V>,
    pending: Set<u64>,
    skipped: Seq<usize>,
    nodes: Seq<usize>,
    n: int,
)
    requires
        settled_except(s, pending),
        0 <= n <= nodes.len() <= s.queues.probation.len(),
        nodes == s.queues.probation.take(nodes.len() as int),
    ensures
        s.evicted(nodes, skipped, n).1 == skipped,
        ({
            let t = s.evicted(nodes, skipped, n).0;
            &&& settled_except(t, pending)
            &&& t.queues.probation == s.queues.probation.skip(n)
            &&& t.counters.weighted_size == s.counters.weighted_size - total_weight(s, nodes.take(n))
            &&& t.counters.entry_count == s.counters.entry_count - n
            &&& t.max_capacity == s.max_capacity
            &&& forall|k: u64| #[trigger]
                t.cache.dom().contains(k) <==> s.cache.dom().contains(k) && !nodes.take(n).contains(
                    s.cache[k],
                )
            &&& forall|k: u64| #[trigger] t.cache.dom().contains(k) ==> t.cache[k] == s.cache[k]
            &&& forall|x: usize|
                #![trigger t.info(x)]
                t.info(x).key_hash == s.info(x).key_hash && t.info(x).policy_weight == s.info(
                    x,
                ).policy_weight
        }),
    decreases n,
{
    let q = s.queues.probation;
    if n == 0 {
        assert(nodes.take(0) =~= Seq::<usize>::empty());
        assert(q.skip(0) =~= q);
    } else {
        lemma_prefix_evicted(s, pending, skipped, nodes, n - 1);
        let u = s.evicted(nodes, skipped, n - 1).0;
        let t = s.evicted(nodes, skipped, n).0;
        let v = nodes[n - 1];
        assert(v == q[n - 1]);
        assert(u.queues.probation[0] == v);
        assert(u.info(v).key_hash == s.info(v).key_hash && u.info(v).policy_weight == s.info(
            v,
        ).policy_weight);
        lemma_front_evicted(u, pending);
        assert(q.skip(n - 1).skip(1) =~= q.skip(n));
        assert(nodes.take(n) =~= nodes.take(n - 1).push(v));
        lemma_total_pushed(s, nodes.take(n - 1), v);
        let vk = s.info(v).key_hash.key;
        assert forall|k: u64| #[trigger] t.cache.dom().contains(k) <==> s.cache.dom().contains(k) && !nodes.take(
            n,
        ).contains(s.cache[k]) by {
            assert(u.cache.dom().contains(k) <==> s.cache.dom().contains(k) && !nodes.take(n - 1).contains(
                s.cache[k],
            ));
            let before = nodes.take(n - 1);
            let now = nodes.take(n);
            assert(now.contains(s.cache[k]) <==> before.contains(s.cache[k]) || s.cache[k] == v) by {
                assert(now[n - 1] == v);
                if before.contains(s.cache[k]) {
                    let j = choose|j: int| 0 <= j < before.len() && before[j] == s.cache[k];
                    assert(now[j] == before[j]);
                }
                if now.contains(s.cache[k]) {
                    let j = choose|j: int| 0 <= j < now.len() && now[j] == s.cache[k];
                    if j < n - 1 {
                        assert(before[j] == now[j]);
                    }
                }
            }
            if s.cache.dom().contains(k) {
                assert(s.info(s.cache[k]).key_hash.key == k);
            }
            assert(u.cache.dom().contains(vk) && u.cache[vk] == v);
        }
        assert forall|x: usize|
            #![trigger t.info(x)]
            t.info(x).key_hash == s.info(x).key_hash && t.info(x).policy_weight == s.info(
                x,
            ).policy_weight by {
            assert(u.info(x).key_hash == s.info(x).key_hash);
        }
    }
}

/// Where there is no room, the weight does not rise, whether the candidate comes in or not; nor does the
/// number of entries, unless the candidate weighs nothing. The cache is settled but for the key of the
/// candidate.
pub proof fn admission_without_room_keeps_weight<V>(
    s: CacheState<V>,
    key: u64,
    hash: u64,
    e: usize,
    old_weight: u32,
    weight: u32,
)
    requires
        settled_except(s, Set::empty().insert(key)),
        s.find(key) == Some(e),
        !s.info(e).is_admitted,
        !s.has_room_for(weight),
    ensures
        ({
            let after = s.upserted(key, hash, e, old_weight, weight);
            &&& after.counters.weighted_size <= s.counters.weighted_size
            &&& weight > 0 ==> after.counters.entry_count <= s.counters.entry_count
        }),
{
    if weight <= s.max_capacity->0 {
        let pending = Set::<u64>::empty().insert(key);
        let freq = s.sketch.frequency(hash) as int;
        let v = s.victims(weight as int, freq);
        assert(s.queues.probation.take(0) =~= Seq::<usize>::empty());
        lemma_search_prefix(
            s,
            pending,
            weight as int,
            freq,
            0,
            Victims {
                nodes: Seq::empty(),
                policy_weight: 0,
                freq: 0,
                skipped: Seq::empty(),
                retries: 0,
            },
        );
        if v.policy_weight >= weight && freq > v.freq {
            let n = v.nodes.len() as int;
            lemma_prefix_evicted(s, pending, v.skipped, v.nodes, n);
            assert(v.nodes.take(n) =~= v.nodes);
            let (s1, skipped) = s.evicted(v.nodes, v.skipped, n);
            s1.admitted(e, weight).lemma_all_to_back(skipped, skipped.len() as int);
            if weight > 0 {
                assert(n > 0);
            }
        } else {
            s.without_key(key).lemma_all_to_back(v.skipped, v.skipped.len() as int);
        }
    }
}

/// Too heavy a cache evicts the entries that were not used for longest, and no more of them
/// than it needs to: it then weighs no more than it may, unless it evicted all that it may at
/// once.
pub proof fn least_recently_used_go_first<V>(s: CacheState<V>)
    requires
        settled(s),
        s.max_capacity is Some,
    ensures
        ({
            let n = EVICTION_BATCH_SIZE as nat;
            let after = s.lru_evicted(n, s.overweight(), 0);
            &&& settled(after)
            &&& exists|k: int|
                {
                    &&& 0 <= k <= n
                    &&& after.queues.probation == #[trigger] s.queues.probation.skip(k)
                    &&& k <= s.queues.probation.len()
                    &&& after.counters.weighted_size <= s.max_capacity->0 || k == n
                    &&& k > 0 ==> total_weight(s, s.queues.probation.take(k - 1)) < s.overweight()
                    &&& k > 0 ==> s.counters.weighted_size - total_weight(
                        s,
                        s.queues.probation.take(k - 1),
                    ) > s.max_capacity->0
                }
        }),
{
    lemma_lru_evicts_front(s, EVICTION_BATCH_SIZE as nat, s.overweight(), 0);
}

proof fn lemma_total_take<V>(s: CacheState<V>, q: Seq<usize>, k: int)
    requires
        0 < k <= q.len(),
    ensures
        total_weight(s, q.take(k)) == s.info(q[0]).policy_weight + total_weight(
            s,
            q.skip(1).take(k - 1),
        ),
{
    assert(q.take(k).skip(1) =~= q.skip(1).take(k - 1));
}

proof fn lemma_lru_evicts_front<V>(s: CacheState<V>, n: nat, to_evict: u64, evicted: u64)
    requires
        settled(s),
        s.counters.weighted_size + evicted <= u64::MAX,
        evicted < to_evict ==> to_evict - evicted <= s.counters.weighted_size,
    ensures
        ({
            let after = s.lru_evicted(n, to_evict, evicted);
            &&& settled(after)
            &&& exists|k: int|
                {
                    &&& 0 <= k <= n
                    &&& after.queues.probation == #[trigger] s.queues.probation.skip(k)
                    &&& k <= s.queues.probation.len()
                    &&& after.counters.weighted_size <= s.counters.weighted_size + evicted - to_evict
                        || k == n || evicted >= to_evict
                    &&& evicted >= to_evict ==> after == s
                    &&& k > 0 ==> evicted + total_weight(s, s.queues.probation.take(k - 1))
                        < to_evict
                }
        }),
    decreases n,
{
    let q = s.queues.probation;
    assert(q.skip(0) =~= q);
    if n == 0 || evicted >= to_evict {
    } else if q.len() == 0 {
        assert(total_weight(s, q) == 0);
    } else {
        lemma_front_evicted(s, Set::empty());
        let e = q[0];
        let weight = s.info(e).policy_weight;
        let after = s.without_key(s.info(e).key_hash.key).dismissed(e);
        let evicted2 = sat_add(evicted, weight as int);
        assert(s.lru_evicted(n, to_evict, evicted) == after.lru_evicted(
            (n - 1) as nat,
            to_evict,
            evicted2,
        ));
        lemma_lru_evicts_front(after, (n - 1) as nat, to_evict, evicted2);
        let last = after.lru_evicted((n - 1) as nat, to_evict, evicted2);
        let k = choose|k: int|
            {
                &&& 0 <= k <= n - 1
                &&& last.queues.probation == #[trigger] after.queues.probation.skip(k)
                &&& k <= after.queues.probation.len()
                &&& last.counters.weighted_size <= after.counters.weighted_size + evicted2
                    - to_evict || k == n - 1 || evicted2 >= to_evict
                &&& evicted2 >= to_evict ==> last == after
                &&& k > 0 ==> evicted2 + total_weight(after, after.queues.probation.take(k - 1))
                    < to_evict
            };
        assert(q.skip(1).skip(k) =~= q.skip(k + 1));
        if k > 0 {
            let part = q.skip(1).take(k - 1);
            assert forall|i: int| 0 <= i < part.len() implies after.info(#[trigger] part[i]).policy_weight
                == s.info(part[i]).policy_weight by {
                assert(part[i] == q[i + 1]);
                assert(q[i + 1] != e);
            }
            lemma_total_same(after, s, part);
            lemma_total_take(s, q, k);
        } else {
            assert(q.take(0).len() == 0);
        }
        assert(last.queues.probation == q.skip(k + 1));
    }
}

/// An entry that is read is, once the policies know, the last to go.
pub proof fn used_entry_goes_last<V>(s: CacheState<V>)
    requires
        s.wf(),
        s.reads.len() > 0,
        s.reads[0] is Hit,
        s.info(s.reads[0]->entry).is_admitted,
    ensures
        s.read_applied().queues.probation.len() == s.queues.probation.len(),
        s.read_applied().queues.probation.last() == s.reads[0]->entry,
{
    assert(s.read_ok(s.reads[0]));
    assert(s.queues.probation.contains(s.reads[0]->entry));
}

} // verus!
