//! Counters, and the weights and frequencies by which entries are admitted.
use std::collections::HashMap;

use vstd::prelude::*;

use super::deques::{lemma_moved, unlinked, Deques, Queues};
use super::entry_info::{is_newer_gen, EntryInfo};
use super::entry_table::EntryTable;
use super::{DeqNodes, ValueEntry};
use crate::common::frequency_sketch::{frequency_is_capped, FrequencySketch, SketchState};
use crate::common::small_list::SmallList;
use crate::common::timer_wheel::{
    all_same_but_timer, bucket_count, without_timer, TimerWheel, WheelState, LEVELS,
};
use crate::common::CacheRegion;

verus! {

/// The cost of an entry under policies that know of no other.
pub const DEFAULT_COST: u64 = 1;

/// `a + b`, or the largest `u64`.
pub open spec fn sat_add(a: u64, b: int) -> u64 {
    if a + b <= u64::MAX {
        (a + b) as u64
    } else {
        u64::MAX
    }
}

/// `a - b`, or zero.
pub open spec fn sat_sub(a: u64, b: int) -> u64 {
    if a >= b {
        (a - b) as u64
    } else {
        0
    }
}

/// The number of admitted entries, and the sum of their weights.
#[derive(Clone, Copy, Debug, PartialEq, Eq, Structural)]
pub struct EvictionCounters {
    pub entry_count: u64,
    pub weighted_size: u64,
    pub eviction_count: u64,
}

impl EvictionCounters {
    pub fn new(entry_count: u64, weighted_size: u64) -> (r: Self)
        ensures
            r == (EvictionCounters { entry_count, weighted_size, eviction_count: 0 }),
    {
        EvictionCounters { entry_count, weighted_size, eviction_count: 0 }
    }

    pub open spec fn added(self, entry_count: int, weight: u32) -> Self {
        EvictionCounters {
            entry_count: (self.entry_count + entry_count) as u64,
            weighted_size: sat_add(self.weighted_size, weight as int),
            ..self
        }
    }

    pub open spec fn subtracted(self, entry_count: int, weight: u32) -> Self {
        EvictionCounters {
            entry_count: (self.entry_count - entry_count) as u64,
            weighted_size: sat_sub(self.weighted_size, weight as int),
            ..self
        }
    }

    pub fn saturating_add(&mut self, entry_count: u64, weight: u32)
        requires
            old(self).entry_count + entry_count <= u64::MAX,
        ensures
            *final(self) == old(self).added(entry_count as int, weight),
    {
        self.entry_count = self.entry_count + entry_count;
        self.weighted_size = self.weighted_size.saturating_add(weight as u64);
    }

    pub fn saturating_sub(&mut self, entry_count: u64, weight: u32)
        requires
            entry_count <= old(self).entry_count,
        ensures
            *final(self) == old(self).subtracted(entry_count as int, weight),
    {
        self.entry_count = self.entry_count - entry_count;
        self.weighted_size = self.weighted_size.saturating_sub(weight as u64);
    }

    pub fn incr_eviction_count(&mut self)
        ensures
            *final(self) == (EvictionCounters {
                eviction_count: sat_add(old(self).eviction_count, 1),
                ..*old(self)
            }),
    {
        self.eviction_count = self.eviction_count.saturating_add(1);
    }
}

/// The sum of the weights and of the frequencies of some entries.
#[derive(Clone, Copy, Debug, PartialEq, Eq, Structural)]
pub struct EntrySizeAndFrequency {
    pub policy_weight: u64,
    pub freq: u64,
}

impl Default for EntrySizeAndFrequency {
    fn default() -> (r: Self)
        ensures
            r == (EntrySizeAndFrequency { policy_weight: 0, freq: 0 }),
    {
        EntrySizeAndFrequency { policy_weight: 0, freq: 0 }
    }
}

/// What a hash adds to a sum of frequencies: its estimate, as many times as its entry costs.
pub open spec fn weighed_frequency(sketch: SketchState, hash: u64, cost: Option<u64>) -> int {
    match cost {
        Some(c) => sketch.frequency(hash) * c,
        None => sketch.frequency(hash) * DEFAULT_COST,
    }
}

impl EntrySizeAndFrequency {
    pub fn new(policy_weight: u32) -> (r: Self)
        ensures
            r == (EntrySizeAndFrequency { policy_weight: policy_weight as u64, freq: 0 }),
    {
        EntrySizeAndFrequency { policy_weight: policy_weight as u64, freq: 0 }
    }

    pub fn add_policy_weight(&mut self, weight: u32)
        requires
            old(self).policy_weight + weight <= u64::MAX,
        ensures
            *final(self) == (EntrySizeAndFrequency {
                policy_weight: (old(self).policy_weight + weight) as u64,
                ..*old(self)
            }),
    {
        self.policy_weight = self.policy_weight + weight as u64;
    }

    pub fn add_frequency(&mut self, freq: &FrequencySketch, hash: u64, cost: Option<u64>)
        requires
            freq.wf(),
            old(self).freq + weighed_frequency(freq@, hash, cost) <= u64::MAX,
        ensures
            *final(self) == (EntrySizeAndFrequency {
                freq: (old(self).freq + weighed_frequency(freq@, hash, cost)) as u64,
                ..*old(self)
            }),
    {
        let ghost old_cost = cost;
        let estimate: u64 = freq.frequency(hash) as u64;
        let cost: u64 = cost.unwrap_or(DEFAULT_COST);
        assert(estimate * cost == weighed_frequency(freq@, hash, old_cost));
        self.freq = self.freq + estimate * cost;
    }
}

/// The eviction policy of a cache.
#[derive(Clone, Copy, Debug, PartialEq, Eq, Structural)]
pub enum EvictionPolicyConfig {
    CostAwareLfu,
    TinyLfu,
    Lru,
}

impl EvictionPolicyConfig {
    /// The cost by which the policy weighs the frequency of an entry of the cost
    /// `policy_cost`.
    pub open spec fn spec_entry_cost(self, policy_cost: u32) -> Option<u64> {
        match self {
            EvictionPolicyConfig::CostAwareLfu => Some(policy_cost as u64),
            _ => None,
        }
    }

    pub fn entry_cost(&self, policy_cost: u32) -> (r: Option<u64>)
        ensures
            r == self.spec_entry_cost(policy_cost),
    {
        match self {
            EvictionPolicyConfig::CostAwareLfu => Some(policy_cost as u64),
            EvictionPolicyConfig::TinyLfu | EvictionPolicyConfig::Lru => None,
        }
    }

    /// Adds an entry to a sum.
    pub fn add_entry(
        &self,
        esf: &mut EntrySizeAndFrequency,
        freq: &FrequencySketch,
        hash: u64,
        policy_weight: u32,
        policy_cost: u32,
    )
        requires
            freq.wf(),
            old(esf).policy_weight + policy_weight <= u64::MAX,
            old(esf).freq + weighed_frequency(freq@, hash, self.spec_entry_cost(policy_cost))
                <= u64::MAX,
        ensures
            final(esf).policy_weight == old(esf).policy_weight + policy_weight,
            final(esf).freq == old(esf).freq + weighed_frequency(
                freq@,
                hash,
                self.spec_entry_cost(policy_cost),
            ),
    {
        esf.add_policy_weight(policy_weight);
        esf.add_frequency(freq, hash, self.entry_cost(policy_cost));
    }
}

/// How many victims in a row may turn out to be gone before the search for victims ends.
pub const MAX_CONSECUTIVE_RETRIES: usize = 5;

/// The outcome of a search for victims.
pub enum AdmissionResult {
    /// The candidate is to be admitted in place of these entries.
    Admitted { victims: SmallList },
    /// The candidate is to be rejected.
    Rejected,
}

/// What a search for victims looks at: the hash table, what the policies know of the entries,
/// and how often hashes were seen.
pub struct Surroundings<V> {
    pub cache: Map<u64, usize>,
    pub entries: Map<usize, ValueEntry<u64, V>>,
    pub sketch: SketchState,
}

/// A search for victims: the queue, the place in it where the search goes on, the victims so
/// far with the sums of their weights and frequencies, and how many of the last ones were
/// skipped.
pub struct Search {
    pub queue: Seq<usize>,
    pub next: int,
    pub victims: Seq<usize>,
    pub policy_weight: int,
    pub freq: int,
    pub retries: int,
}

impl<V> Surroundings<V> {
    /// The entry has been updated and the policies do not know yet, or its key is gone.
    pub open spec fn is_skipped(self, e: usize) -> bool {
        let info = self.entries[e].info;
        info.entry_gen != info.policy_gen || !self.cache.dom().contains(info.key_hash.key)
    }

    /// The search goes on from where it is, until the victims are as heavy as the candidate, are
    /// used more often than the candidate, too many in a row were skipped, or the queue ends.
    /// Who is skipped is moved to the back of the queue.
    #[verifier::opaque]
    pub open spec fn searched(self, weight: int, freq: int, s: Search) -> Search
        decreases s.queue.len() - s.next, MAX_CONSECUTIVE_RETRIES + 1 - s.retries,
    {
        if self.is_over(weight, freq, s) {
            s
        } else if self.is_skipped(s.queue[s.next]) {
            if s.next == s.queue.len() - 1 {
                self.after_skip(s)
            } else {
                self.searched(weight, freq, self.after_skip(s))
            }
        } else {
            self.searched(weight, freq, self.after_victim(s))
        }
    }

    /// The search ends here.
    pub open spec fn is_over(self, weight: int, freq: int, s: Search) -> bool {
        s.policy_weight >= weight || s.freq > freq || s.retries > MAX_CONSECUTIVE_RETRIES || !(0
            <= s.next < s.queue.len())
    }

    /// The search after the next of the queue was skipped.
    pub open spec fn after_skip(self, s: Search) -> Search {
        Search {
            queue: s.queue.remove(s.next).push(s.queue[s.next]),
            retries: s.retries + 1,
            ..s
        }
    }

    /// The search after the next of the queue was found to be a victim.
    pub open spec fn after_victim(self, s: Search) -> Search {
        let e = s.queue[s.next];
        let info = self.entries[e].info;
        let found = self.cache[info.key_hash.key];
        Search {
            next: s.next + 1,
            victims: s.victims.push(e),
            policy_weight: s.policy_weight + self.entries[found].info.policy_weight,
            freq: s.freq + self.sketch.frequency(info.key_hash.hash),
            retries: 0,
            ..s
        }
    }

    /// The search goes on by one entry, or is over.
    pub proof fn lemma_searched(self, weight: int, freq: int, s: Search)
        ensures
            self.is_over(weight, freq, s) ==> self.searched(weight, freq, s) == s,
            !self.is_over(weight, freq, s) && self.is_skipped(s.queue[s.next]) ==> self.searched(
                weight,
                freq,
                s,
            ) == if s.next == s.queue.len() - 1 {
                self.after_skip(s)
            } else {
                self.searched(weight, freq, self.after_skip(s))
            },
            !self.is_over(weight, freq, s) && !self.is_skipped(s.queue[s.next]) ==> self.searched(
                weight,
                freq,
                s,
            ) == self.searched(weight, freq, self.after_victim(s)),
    {
        reveal(Surroundings::searched);
    }

    /// The search for victims of a candidate of this weight and frequency.
    pub open spec fn search(self, weight: int, freq: int, queue: Seq<usize>) -> Search {
        self.searched(
            weight,
            freq,
            Search {
                queue,
                next: 0,
                victims: Seq::empty(),
                policy_weight: 0,
                freq: 0,
                retries: 0,
            },
        )
    }
}

/// The entry that the hash table has under the key of a potential victim, unless the victim
/// is to be skipped.
fn victim_entry<V>(
    cache: &HashMap<u64, usize>,
    entries: &EntryTable<u64, V>,
    freq: &FrequencySketch,
    victim: usize,
) -> (r: Option<usize>)
    requires
        entries@.dom().contains(victim),
        forall|k: u64| #[trigger] cache@.dom().contains(k) ==> entries@.dom().contains(cache@[k]),
    ensures
        ({
            let around = Surroundings { cache: cache@, entries: entries@, sketch: freq@ };
            if around.is_skipped(victim) {
                r is None
            } else {
                &&& r == Some(cache@[entries@[victim].info.key_hash.key])
                &&& entries@.dom().contains(r->0)
            }
        }),
{
    broadcast use vstd::std_specs::hash::group_hash_axioms;

    if entries.get(victim).is_dirty() {
        return None;
    }
    match cache.get(&entries.get(victim).info.key_hash.key) {
        Some(e) => {
            assert(cache@.dom().contains(entries@[victim].info.key_hash.key));
            Some(*e)
        },
        None => None,
    }
}

/// Size-aware admission: decides whether a candidate is to be admitted to the main space, and
/// in place of whom.
///
/// The entries that were used longest ago are the potential victims. The candidate is admitted
/// if they are as heavy as the candidate, and the candidate is used more often than all of them
/// taken together. When it is rejected, the potential victims stay where they are.
pub fn decide_admission<V>(
    candidate: &EntrySizeAndFrequency,
    cache: &HashMap<u64, usize>,
    entries: &EntryTable<u64, V>,
    deqs: &mut Deques,
    freq: &FrequencySketch,
) -> (r: AdmissionResult)
    requires
        old(deqs).wf(),
        old(deqs).linked(entries@),
        freq.wf(),
        candidate.policy_weight + u32::MAX <= u64::MAX,
        candidate.freq + 15 <= u64::MAX,
        forall|k: u64| #[trigger] cache@.dom().contains(k) ==> entries@.dom().contains(cache@[k]),
    ensures
        final(deqs).wf(),
        final(deqs).linked(entries@),
        ({
            let around = Surroundings { cache: cache@, entries: entries@, sketch: freq@ };
            let s = around.search(
                candidate.policy_weight as int,
                candidate.freq as int,
                old(deqs)@.probation,
            );
            &&& final(deqs)@ == (Queues { probation: s.queue, ..old(deqs)@ })
            &&& match r {
                AdmissionResult::Admitted { victims } => {
                    &&& s.policy_weight >= candidate.policy_weight && candidate.freq > s.freq
                    &&& victims@ == s.victims
                },
                AdmissionResult::Rejected => !(s.policy_weight >= candidate.policy_weight
                    && candidate.freq > s.freq),
            }
        }),
{
    let ghost around = Surroundings { cache: cache@, entries: entries@, sketch: freq@ };
    let ghost weight = candidate.policy_weight as int;
    let ghost cand_freq = candidate.freq as int;
    let ghost mut i: int = 0;
    let ghost mut so_far = Search {
        queue: deqs@.probation,
        next: 0,
        victims: Seq::empty(),
        policy_weight: 0,
        freq: 0,
        retries: 0,
    };
    proof {
        around.lemma_searched(weight, cand_freq, so_far);
    }
    let mut retries: usize = 0;
    let mut sums = EntrySizeAndFrequency::default();
    let mut victims = SmallList::new();
    let mut next_victim: Option<usize> = deqs.peek_front_ao(CacheRegion::MainProbation);
    while sums.policy_weight < candidate.policy_weight && sums.freq <= candidate.freq && retries
        <= MAX_CONSECUTIVE_RETRIES
        invariant_except_break
            around.search(weight, cand_freq, old(deqs)@.probation) == around.searched(
                weight,
                cand_freq,
                so_far,
            ),
            around.is_over(weight, cand_freq, so_far) ==> around.searched(weight, cand_freq, so_far)
                == so_far,
            next_victim == if i < deqs@.probation.len() {
                Some(deqs@.probation[i])
            } else {
                None::<usize>
            },
        invariant
            around == (Surroundings { cache: cache@, entries: entries@, sketch: freq@ }),
            weight == candidate.policy_weight,
            cand_freq == candidate.freq,
            weight + u32::MAX <= u64::MAX,
            cand_freq + 15 <= u64::MAX,
            freq.wf(),
            deqs.wf(),
            deqs.linked(entries@),
            forall|k: u64| #[trigger] cache@.dom().contains(k) ==> entries@.dom().contains(cache@[k]),
            deqs@ == (Queues { probation: deqs@.probation, ..old(deqs)@ }),
            0 <= i <= deqs@.probation.len(),
            retries <= MAX_CONSECUTIVE_RETRIES + 1,
            so_far == (Search {
                queue: deqs@.probation,
                next: i,
                victims: victims@,
                policy_weight: sums.policy_weight as int,
                freq: sums.freq as int,
                retries: retries as int,
            }),
        ensures
            deqs.wf(),
            deqs.linked(entries@),
            deqs@ == (Queues { probation: deqs@.probation, ..old(deqs)@ }),
            ({
                let s = around.search(weight, cand_freq, old(deqs)@.probation);
                &&& s.queue == deqs@.probation
                &&& s.victims == victims@
                &&& s.policy_weight == sums.policy_weight
                &&& s.freq == sums.freq
            }),
        decreases deqs@.probation.len() - i, MAX_CONSECUTIVE_RETRIES + 1 - retries,
    {
        let victim: usize = match next_victim {
            Some(victim) => victim,
            None => {
                break;
            },
        };
        proof {
            around.lemma_searched(weight, cand_freq, so_far);
        }
        let next: Option<usize> = deqs.next_in_probation(entries, victim, Ghost(i));
        match victim_entry(cache, entries, freq, victim) {
            Some(vic_entry) => {
                let hash: u64 = entries.get(victim).info.key_hash.hash;
                proof {
                    frequency_is_capped(freq@, hash);
                }
                sums.add_policy_weight(entries.get(vic_entry).policy_weight());
                sums.add_frequency(freq, hash, None);
                victims.push(victim);
                retries = 0;
                next_victim = next;
                proof {
                    so_far = around.after_victim(so_far);
                    i = i + 1;
                    around.lemma_searched(weight, cand_freq, so_far);
                }
            },
            None => {
                deqs.skip_in_probation(entries, victim, Ghost(i));
                retries = retries + 1;
                next_victim = next;
                proof {
                    so_far = around.after_skip(so_far);
                    around.lemma_searched(weight, cand_freq, so_far);
                }
                if next.is_none() {
                    break;
                }
            },
        }
    }
    if sums.policy_weight >= candidate.policy_weight && candidate.freq > sums.freq {
        AdmissionResult::Admitted { victims }
    } else {
        AdmissionResult::Rejected
    }
}

/// What the timer wheel is after the timer of the entry `e` was brought in line with its
/// expiration time.
pub open spec fn timer_updated<V>(wheel: TimerWheel, entry: ValueEntry<u64, V>, e: usize) -> WheelState {
    let expiration_time = entry.info.expiration_time();
    let without = if entry.nodes.timer_node is Some {
        without_timer(wheel@, wheel.place_of(entry))
    } else if expiration_time is Some && !wheel.enabled() {
        emptied(wheel@)
    } else {
        wheel@
    };
    match expiration_time {
        Some(t) => without.scheduled(e, t),
        None => without,
    }
}

/// The entries are linked with the queues and with the timer wheel.
pub open spec fn all_linked<V>(
    deqs: Deques,
    wheel: TimerWheel,
    entries: Map<usize, ValueEntry<u64, V>>,
) -> bool {
    deqs.wf() && wheel.wf() && deqs.linked(entries) && wheel.linked(entries)
}

/// Brings the timer of an entry in line with its expiration time. The wheel is enabled if it
/// is not and has to be.
pub fn update_timer_wheel<V>(entries: &mut EntryTable<u64, V>, e: usize, timer_wheel: &mut TimerWheel)
    requires
        old(timer_wheel).wf(),
        old(entries).wf(),
        old(timer_wheel).linked(old(entries)@),
        old(entries)@.dom().contains(e),
    ensures
        final(timer_wheel).wf(),
        final(entries).wf(),
        final(timer_wheel).linked(final(entries)@),
        final(timer_wheel)@ == timer_updated(*old(timer_wheel), old(entries)@[e], e),
        final(timer_wheel).enabled() == (old(timer_wheel).enabled()
            || old(entries)@[e].info.expiration_time() is Some),
        all_same_but_timer(old(entries)@, final(entries)@),
        final(entries)@ == old(entries)@.insert(e, final(entries)@[e]),
        final(entries)@[e].nodes.timer_node is Some <==> old(entries)@[e].info.expiration_time() is Some,
{
    let ghost m0 = entries@;
    proof {
        if m0[e].nodes.timer_node is Some {
            timer_wheel.lemma_place_of(m0, e);
        }
    }
    let (expiration_time, current_expiry_gen) = entries.get(e).entry_info().expiration_state();
    if expiration_time.is_some() && !timer_wheel.is_enabled() {
        proof {
            timer_wheel.lemma_not_enabled(m0);
        }
        timer_wheel.enable();
        proof {
            timer_wheel.lemma_wf();
            timer_wheel.lemma_empty_linked(m0);
            lemma_emptied(old(timer_wheel)@, timer_wheel@);
        }
    }
    let (timer_node, expected_expiry_gen) = entries.get(e).timer_node_with_expiry_gen();
    match (expiration_time.is_some(), timer_node.is_some()) {
        (false, false) => {
            proof {
                assert(m0.insert(e, m0[e]) =~= m0);
            }
        },
        (true, false) => {
            let timer = timer_wheel.schedule(entries, e, current_expiry_gen);
        },
        (true, true) => {
            let result = timer_wheel.reschedule(entries, e);
        },
        (false, true) => {
            timer_wheel.deschedule(entries, e);
        },
    }
}

/// Takes an entry into the queues and sets its timer.
pub fn handle_admit<V>(
    entries: &mut EntryTable<u64, V>,
    e: usize,
    policy_weight: u32,
    is_write_order_queue_enabled: bool,
    deqs: &mut Deques,
    timer_wheel: &mut TimerWheel,
    counters: &mut EvictionCounters,
)
    requires
        old(entries).wf(),
        all_linked(*old(deqs), *old(timer_wheel), old(entries)@),
        old(entries)@.dom().contains(e),
        old(entries)@[e].nodes.access_order_q_node is None,
        old(entries)@[e].nodes.write_order_q_node is None,
        old(counters).entry_count < u64::MAX,
    ensures
        final(entries).wf(),
        all_linked(*final(deqs), *final(timer_wheel), final(entries)@),
        *final(counters) == old(counters).added(1, policy_weight),
        final(timer_wheel)@ == timer_updated(*old(timer_wheel), old(entries)@[e], e),
        final(deqs)@ == (Queues {
            probation: old(deqs)@.probation.push(e),
            write_order: if is_write_order_queue_enabled {
                old(deqs)@.write_order.push(e)
            } else {
                old(deqs)@.write_order
            },
            ..old(deqs)@
        }),
        final(entries)@ == old(entries)@.insert(e, final(entries)@[e]),
        final(entries)@[e].value == old(entries)@[e].value,
        final(entries)@[e].info == (EntryInfo { is_admitted: true, ..old(entries)@[e].info }),
{
    counters.saturating_add(1, policy_weight);
    let ghost m0 = entries@;
    update_timer_wheel(entries, e, timer_wheel);
    let ghost m1 = entries@;
    proof {
        deqs.lemma_same_nodes(m0, m1);
    }
    deqs.push_back_ao(entries, CacheRegion::MainProbation, e);
    let ghost m2 = entries@;
    if is_write_order_queue_enabled {
        deqs.push_back_wo(entries, e);
    }
    let ghost m3 = entries@;
    entries.get_mut(e).set_admitted(true);
    proof {
        let m4 = entries@;
        deqs.lemma_same_nodes(m3, m4);
        timer_wheel.lemma_same_timers(m1, m4);
        assert(m4 =~= m0.insert(e, m4[e]));
    }
}

/// What the timer wheel is without the timer of an entry.
pub open spec fn timer_dropped<V>(wheel: TimerWheel, entry: ValueEntry<u64, V>) -> WheelState {
    if entry.nodes.timer_node is Some {
        without_timer(wheel@, wheel.place_of(entry))
    } else {
        wheel@
    }
}

/// What the queues are without an entry that is admitted.
pub open spec fn queues_dropped<V>(queues: Queues, entry: ValueEntry<u64, V>, e: usize) -> Queues {
    if entry.info.is_admitted {
        Queues {
            probation: unlinked(queues.probation, e),
            write_order: unlinked(queues.write_order, e),
            ..queues
        }
    } else {
        queues
    }
}

/// What the counters are without an entry that is admitted.
pub open spec fn counters_dropped<V>(
    counters: EvictionCounters,
    entry: ValueEntry<u64, V>,
) -> EvictionCounters {
    if entry.info.is_admitted {
        counters.subtracted(1, entry.info.policy_weight)
    } else {
        counters
    }
}

/// An admitted entry has a node in the probation, and one that is not admitted has no node.
pub open spec fn admission_ok<V>(entry: ValueEntry<u64, V>, counters: EvictionCounters) -> bool {
    &&& entry.info.is_admitted ==> counters.entry_count > 0
        && entry.nodes.access_order_q_node is Some
        && entry.nodes.access_order_q_node->0.region == CacheRegion::MainProbation
    &&& !entry.info.is_admitted ==> entry.nodes.access_order_q_node is None
        && entry.nodes.write_order_q_node is None
}

/// Takes an entry out of the queues, if it is in them, and drops its timer.
pub fn handle_remove<V>(
    deqs: &mut Deques,
    timer_wheel: &mut TimerWheel,
    entries: &mut EntryTable<u64, V>,
    e: usize,
    gen: Option<u16>,
    counters: &mut EvictionCounters,
)
    requires
        old(entries).wf(),
        all_linked(*old(deqs), *old(timer_wheel), old(entries)@),
        old(entries)@.dom().contains(e),
        admission_ok(old(entries)@[e], *old(counters)),
    ensures
        final(entries).wf(),
        all_linked(*final(deqs), *final(timer_wheel), final(entries)@),
        *final(counters) == counters_dropped(*old(counters), old(entries)@[e]),
        final(timer_wheel)@ == timer_dropped(*old(timer_wheel), old(entries)@[e]),
        final(deqs)@ == queues_dropped(old(deqs)@, old(entries)@[e], e),
        final(entries)@ == old(entries)@.insert(e, final(entries)@[e]),
        final(entries)@[e] == (ValueEntry {
            value: old(entries)@[e].value,
            info: policy_seen(
                EntryInfo { is_admitted: false, ..old(entries)@[e].info },
                gen,
            ),
            nodes: final(entries)@[e].nodes,
        }),
        final(entries)@[e].nodes.access_order_q_node is None,
        final(entries)@[e].nodes.write_order_q_node is None,
        final(entries)@[e].nodes.timer_node is None,
{
    let ghost m0 = entries@;
    if entries.get(e).timer_node_with_expiry_gen().0.is_some() {
        timer_wheel.deschedule(entries, e);
    }
    let ghost m1 = entries@;
    proof {
        assert(m1 =~= m0.insert(e, m1[e]));
        deqs.lemma_same_nodes(m0, m1);
    }
    handle_remove_without_timer_wheel(deqs, entries, e, gen, counters);
    proof {
        let m2 = entries@;
        timer_wheel.lemma_same_timers(m1, m2);
        assert(m2 =~= m0.insert(e, m2[e]));
    }
}

/// What is known of an entry after the policies have seen its update of this generation.
pub open spec fn policy_seen(info: EntryInfo<u64>, gen: Option<u16>) -> EntryInfo<u64> {
    match gen {
        Some(g) => if is_newer_gen(info.policy_gen, g) {
            EntryInfo { policy_gen: g, ..info }
        } else {
            info
        },
        None => info,
    }
}

/// Takes an entry out of the queues, if it is in them, and leaves its timer.
pub fn handle_remove_without_timer_wheel<V>(
    deqs: &mut Deques,
    entries: &mut EntryTable<u64, V>,
    e: usize,
    gen: Option<u16>,
    counters: &mut EvictionCounters,
)
    requires
        old(entries).wf(),
        old(deqs).wf(),
        old(deqs).linked(old(entries)@),
        old(entries)@.dom().contains(e),
        admission_ok(old(entries)@[e], *old(counters)),
    ensures
        final(entries).wf(),
        final(deqs).wf(),
        final(deqs).linked(final(entries)@),
        *final(counters) == counters_dropped(*old(counters), old(entries)@[e]),
        final(deqs)@ == queues_dropped(old(deqs)@, old(entries)@[e], e),
        final(entries)@ == old(entries)@.insert(
            e,
            ValueEntry {
                value: old(entries)@[e].value,
                info: policy_seen(
                    EntryInfo { is_admitted: false, ..old(entries)@[e].info },
                    gen,
                ),
                nodes: DeqNodes {
                    access_order_q_node: None,
                    write_order_q_node: None,
                    ..old(entries)@[e].nodes
                },
            },
        ),
{
    let ghost m0 = entries@;
    if entries.get(e).is_admitted() {
        counters.saturating_sub(1, entries.get(e).policy_weight());
        deqs.unlink_ao(entries, e);
        deqs.unlink_wo(entries, e);
        let ghost m1 = entries@;
        entries.get_mut(e).set_admitted(false);
        proof {
            deqs.lemma_same_nodes(m1, entries@);
        }
    } else {
        entries.get_mut(e).unset_q_nodes();
        proof {
            deqs.lemma_same_nodes(m0, entries@);
        }
    }
    let ghost m2 = entries@;
    match gen {
        Some(g) => {
            entries.get_mut(e).info.set_policy_gen(g);
            proof {
                deqs.lemma_same_nodes(m2, entries@);
            }
        },
        None => {},
    }
    proof {
        assert(entries@ =~= m0.insert(e, entries@[e]));
    }
}

/// Takes an entry out of the queues, if it is in them, and drops its timer, while the queues
/// are gone through. The generation that the policies have seen stays.
pub fn handle_remove_with_deques<V>(
    deqs: &mut Deques,
    timer_wheel: &mut TimerWheel,
    entries: &mut EntryTable<u64, V>,
    e: usize,
    counters: &mut EvictionCounters,
)
    requires
        old(entries).wf(),
        all_linked(*old(deqs), *old(timer_wheel), old(entries)@),
        old(entries)@.dom().contains(e),
        admission_ok(old(entries)@[e], *old(counters)),
    ensures
        final(entries).wf(),
        all_linked(*final(deqs), *final(timer_wheel), final(entries)@),
        *final(counters) == counters_dropped(*old(counters), old(entries)@[e]),
        final(timer_wheel)@ == timer_dropped(*old(timer_wheel), old(entries)@[e]),
        final(deqs)@ == queues_dropped(old(deqs)@, old(entries)@[e], e),
        final(entries)@ == old(entries)@.insert(e, final(entries)@[e]),
        final(entries)@[e] == (ValueEntry {
            value: old(entries)@[e].value,
            info: EntryInfo { is_admitted: false, ..old(entries)@[e].info },
            nodes: final(entries)@[e].nodes,
        }),
        final(entries)@[e].nodes.access_order_q_node is None,
        final(entries)@[e].nodes.write_order_q_node is None,
        final(entries)@[e].nodes.timer_node is None,
{
    handle_remove(deqs, timer_wheel, entries, e, None, counters);
}

/// A wheel with nothing but its sentinels.
pub open spec fn emptied(w: WheelState) -> WheelState {
    WheelState {
        buckets: Seq::new(
            LEVELS as nat,
            |l: int| Seq::new(bucket_count(l) as nat, |i: int| seq![None::<usize>]),
        ),
        ..w
    }
}

proof fn lemma_emptied(before: WheelState, after: WheelState)
    requires
        after.shaped(),
        after.origin == before.origin,
        after.current == before.current,
        forall|l: int, i: int|
            0 <= l < LEVELS && 0 <= i < bucket_count(l) ==> #[trigger] after.buckets[l][i]
                == seq![None::<usize>],
    ensures
        after == emptied(before),
{
    let e = emptied(before);
    assert forall|l: int| 0 <= l < LEVELS implies #[trigger] after.buckets[l] == e.buckets[l] by {
        assert(after.buckets[l] =~= e.buckets[l]);
    }
    assert(after.buckets =~= e.buckets);
}

/// Taking an entry out that was just let in leaves the queues and the counters as they were,
/// unless the weights were too many to be counted.
pub proof fn removal_undoes_admission<V>(
    queues: Queues,
    counters: EvictionCounters,
    entry: ValueEntry<u64, V>,
    e: usize,
    is_write_order_queue_enabled: bool,
)
    requires
        !queues.probation.contains(e),
        !queues.write_order.contains(e),
        counters.entry_count < u64::MAX,
        counters.weighted_size + entry.info.policy_weight <= u64::MAX,
        entry.info.is_admitted,
    ensures
        ({
            let admitted = Queues {
                probation: queues.probation.push(e),
                write_order: if is_write_order_queue_enabled {
                    queues.write_order.push(e)
                } else {
                    queues.write_order
                },
                ..queues
            };
            &&& queues_dropped(admitted, entry, e) == queues
            &&& counters_dropped(counters.added(1, entry.info.policy_weight), entry) == counters
        }),
{
    lemma_push_unlink(queues.probation, e);
    lemma_push_unlink(queues.write_order, e);
}

proof fn lemma_push_unlink(q: Seq<usize>, e: usize)
    requires
        !q.contains(e),
    ensures
        unlinked(q.push(e), e) == q,
        unlinked(q, e) == q,
{
    let r = q.push(e);
    assert(r[q.len() as int] == e);
    assert(r.contains(e));
    let i = r.index_of(e);
    assert(r[i] == e);
    if i < q.len() {
        assert(q[i] == e);
    }
    assert(r.remove(i) =~= q);
}

/// The counters grow and shrink by what is counted, the weight not beyond the largest `u64` nor below
/// nothing.
pub proof fn counters_count(c: EvictionCounters, n: int, weight: u32)
    requires
        n >= 0,
    ensures
        c.entry_count + n <= u64::MAX ==> c.added(n, weight).entry_count == c.entry_count + n,
        c.weighted_size + weight <= u64::MAX ==> c.added(n, weight).weighted_size == c.weighted_size + weight,
        c.weighted_size + weight > u64::MAX ==> c.added(n, weight).weighted_size == u64::MAX,
        n <= c.entry_count ==> c.subtracted(n, weight).entry_count == c.entry_count - n,
        weight <= c.weighted_size ==> c.subtracted(n, weight).weighted_size == c.weighted_size - weight,
        weight > c.weighted_size ==> c.subtracted(n, weight).weighted_size == 0,
        c.added(n, weight).eviction_count == c.eviction_count,
        c.subtracted(n, weight).eviction_count == c.eviction_count,
{
}

/// Only a policy that is aware of costs weighs how often an entry is used by what it costs.
pub proof fn costs_weigh_where_they_matter(sketch: SketchState, hash: u64, policy_cost: u32)
    ensures
        weighed_frequency(
            sketch,
            hash,
            EvictionPolicyConfig::CostAwareLfu.spec_entry_cost(policy_cost),
        ) == sketch.frequency(hash) * policy_cost,
        weighed_frequency(sketch, hash, EvictionPolicyConfig::TinyLfu.spec_entry_cost(policy_cost))
            == sketch.frequency(hash),
        weighed_frequency(sketch, hash, EvictionPolicyConfig::Lru.spec_entry_cost(policy_cost))
            == sketch.frequency(hash),
{
}

/// The policies take note of a generation that is at most half of all ahead of the one that they know, and
/// of no other; nothing else changes.
pub proof fn policies_see_newer_generations(info: EntryInfo<u64>, gen: u16)
    ensures
        policy_seen(info, None) == info,
        0 < gen - info.policy_gen <= 32767 ==> policy_seen(info, Some(gen)).policy_gen == gen,
        !(0 < gen - info.policy_gen <= 32767) ==> policy_seen(info, Some(gen)) == info,
        policy_seen(info, Some(gen)).entry_gen == info.entry_gen,
        policy_seen(info, Some(gen)).is_admitted == info.is_admitted,
        policy_seen(info, Some(gen)).policy_weight == info.policy_weight,
{
}

/// An entry that is let out leaves both queues, in which the others keep their order, and its weight is no
/// longer counted. An entry that is not admitted changes nothing.
pub proof fn entry_is_let_out<V>(
    queues: Queues,
    counters: EvictionCounters,
    entry: ValueEntry<u64, V>,
    e: usize,
    i: int,
    j: int,
)
    requires
        queues.probation.no_duplicates(),
        queues.write_order.no_duplicates(),
    ensures
        !entry.info.is_admitted ==> queues_dropped(queues, entry, e) == queues && counters_dropped(
            counters,
            entry,
        ) == counters,
        entry.info.is_admitted ==> ({
            let q = queues.probation;
            let w = queues.write_order;
            let after = queues_dropped(queues, entry, e);
            let counted = counters_dropped(counters, entry);
            &&& 0 <= i < q.len() && q[i] == e ==> after.probation == q.take(i) + q.skip(i + 1)
            &&& 0 <= j < w.len() && w[j] == e ==> after.write_order == w.take(j) + w.skip(j + 1)
            &&& !q.contains(e) ==> after.probation == q
            &&& !w.contains(e) ==> after.write_order == w
            &&& counters.entry_count > 0 ==> counted.entry_count == counters.entry_count - 1
            &&& entry.info.policy_weight <= counters.weighted_size ==> counted.weighted_size
                == counters.weighted_size - entry.info.policy_weight
        }),
{
    if 0 <= i < queues.probation.len() {
        lemma_moved(queues.probation, i);
    }
    if 0 <= j < queues.write_order.len() {
        lemma_moved(queues.write_order, j);
    }
}

/// What some entries weigh together.
pub open spec fn weight_of_all<V>(env: Surroundings<V>, nodes: Seq<usize>) -> int
    decreases nodes.len(),
{
    if nodes.len() == 0 {
        0
    } else {
        weight_of_all(env, nodes.drop_last()) + env.entries[nodes.last()].info.policy_weight
    }
}

/// How often the keys of some entries were seen, all together.
pub open spec fn frequency_of_all<V>(env: Surroundings<V>, nodes: Seq<usize>) -> int
    decreases nodes.len(),
{
    if nodes.len() == 0 {
        0
    } else {
        frequency_of_all(env, nodes.drop_last()) + env.sketch.frequency(
            env.entries[nodes.last()].info.key_hash.hash,
        )
    }
}

/// Every entry of the queue is under its key, and the policies know of every update of it.
pub open spec fn all_known<V>(env: Surroundings<V>, queue: Seq<usize>) -> bool {
    forall|i: int|
        #![trigger queue[i]]
        0 <= i < queue.len() ==> ({
            let info = env.entries[queue[i]].info;
            &&& info.entry_gen == info.policy_gen
            &&& env.cache.dom().contains(info.key_hash.key)
            &&& env.cache[info.key_hash.key] == queue[i]
        })
}

/// Where the policies know of every update, the victims are the first of the queue, and just as many as
/// are as heavy as the candidate, unless the queue is too short, or they are used more often than the
/// candidate; then the search ends there. The queue keeps its order.
pub proof fn victims_are_just_heavy_enough<V>(
    env: Surroundings<V>,
    weight: int,
    freq: int,
    queue: Seq<usize>,
)
    requires
        all_known(env, queue),
    ensures
        ({
            let r = env.search(weight, freq, queue);
            let m = r.victims.len() as int;
            &&& 0 <= m <= queue.len()
            &&& r.queue == queue
            &&& r.victims == queue.take(m)
            &&& r.policy_weight == weight_of_all(env, queue.take(m))
            &&& r.freq == frequency_of_all(env, queue.take(m))
            &&& r.policy_weight >= weight || r.freq > freq || m == queue.len()
            &&& m > 0 ==> weight_of_all(env, queue.take(m - 1)) < weight && frequency_of_all(
                env,
                queue.take(m - 1),
            ) <= freq
        }),
{
    assert(queue.take(0) =~= Seq::<usize>::empty());
    lemma_victims(
        env,
        weight,
        freq,
        Search { queue, next: 0, victims: Seq::empty(), policy_weight: 0, freq: 0, retries: 0 },
    );
}

proof fn lemma_victims<V>(env: Surroundings<V>, weight: int, freq: int, s: Search)
    requires
        all_known(env, s.queue),
        0 <= s.next <= s.queue.len(),
        s.victims == s.queue.take(s.next),
        s.policy_weight == weight_of_all(env, s.victims),
        s.freq == frequency_of_all(env, s.victims),
        s.retries == 0,
        s.next > 0 ==> weight_of_all(env, s.queue.take(s.next - 1)) < weight && frequency_of_all(
            env,
            s.queue.take(s.next - 1),
        ) <= freq,
    ensures
        ({
            let r = env.searched(weight, freq, s);
            let m = r.victims.len() as int;
            &&& s.next <= m <= s.queue.len()
            &&& r.queue == s.queue
            &&& r.victims == s.queue.take(m)
            &&& r.policy_weight == weight_of_all(env, s.queue.take(m))
            &&& r.freq == frequency_of_all(env, s.queue.take(m))
            &&& r.policy_weight >= weight || r.freq > freq || m == s.queue.len()
            &&& m > 0 ==> weight_of_all(env, s.queue.take(m - 1)) < weight && frequency_of_all(
                env,
                s.queue.take(m - 1),
            ) <= freq
        }),
    decreases s.queue.len() - s.next,
{
    env.lemma_searched(weight, freq, s);
    if !env.is_over(weight, freq, s) {
        let e = s.queue[s.next];
        assert(!env.is_skipped(e));
        let t = env.after_victim(s);
        assert(t.victims =~= s.queue.take(s.next + 1));
        assert(t.victims.drop_last() =~= s.victims);
        lemma_victims(env, weight, freq, t);
    }
}

/// No entry that was updated without the policies knowing, nor one whose key is gone, is a victim. Nobody
/// joins or leaves the queue in the search.
pub proof fn stale_entries_are_no_victims<V>(
    env: Surroundings<V>,
    weight: int,
    freq: int,
    queue: Seq<usize>,
    i: int,
)
    requires
        0 <= i < env.search(weight, freq, queue).victims.len(),
    ensures
        ({
            let r = env.search(weight, freq, queue);
            let info = env.entries[r.victims[i]].info;
            &&& info.entry_gen == info.policy_gen
            &&& env.cache.dom().contains(info.key_hash.key)
            &&& r.queue.len() == queue.len()
            &&& r.queue.to_multiset() =~= queue.to_multiset()
        }),
{
    lemma_no_stale(
        env,
        weight,
        freq,
        Search { queue, next: 0, victims: Seq::empty(), policy_weight: 0, freq: 0, retries: 0 },
    );
}

proof fn lemma_no_stale<V>(env: Surroundings<V>, weight: int, freq: int, s: Search)
    requires
        forall|i: int| 0 <= i < s.victims.len() ==> !env.is_skipped(#[trigger] s.victims[i]),
        s.retries >= 0,
    ensures
        ({
            let r = env.searched(weight, freq, s);
            &&& forall|i: int| 0 <= i < r.victims.len() ==> !env.is_skipped(#[trigger] r.victims[i])
            &&& r.queue.len() == s.queue.len()
            &&& r.queue.to_multiset() =~= s.queue.to_multiset()
        }),
    decreases s.queue.len() - s.next, MAX_CONSECUTIVE_RETRIES + 1 - s.retries,
{
    env.lemma_searched(weight, freq, s);
    if !env.is_over(weight, freq, s) {
        let e = s.queue[s.next];
        if env.is_skipped(e) {
            let t = env.after_skip(s);
            let rest = s.queue.remove(s.next);
            s.queue.to_multiset_ensures();
            rest.to_multiset_ensures();
            assert(s.queue.to_multiset().count(e) > 0);
            assert(t.queue.to_multiset() =~= s.queue.to_multiset());
            if s.next != s.queue.len() - 1 {
                lemma_no_stale(env, weight, freq, t);
            }
        } else {
            lemma_no_stale(env, weight, freq, env.after_victim(s));
        }
    }
}

/// The timer of an entry that has an expiration time waits last in the bucket for that time, and one that has
/// none has no timer.
pub proof fn timer_follows_the_expiration_time<V>(wheel: TimerWheel, entry: ValueEntry<u64, V>, e: usize)
    requires
        wheel@.shaped(),
        wheel@.origin.nanos <= wheel@.current.nanos,
    ensures
        entry.info.expiration_time() is None && entry.nodes.timer_node is None ==> timer_updated(wheel, entry, e)
            == wheel@ && timer_dropped(wheel, entry) == wheel@,
        entry.info.expiration_time() is None ==> timer_updated(wheel, entry, e) == timer_dropped(wheel, entry),
        entry.info.expiration_time() matches Some(t) && entry.nodes.timer_node is None && wheel.enabled()
            && wheel@.current.nanos <= t.nanos ==> ({
            let t = entry.info.expiration_time()->0;
            let (level, index) = wheel@.bucket_for(t);
            timer_updated(wheel, entry, e).buckets[level][index] == wheel@.buckets[level][index].push(Some(e))
        }),
{
    match entry.info.expiration_time() {
        Some(t) => {
            if wheel@.current.nanos <= t.nanos {
                let (level, index) = wheel@.bucket_for(t);
                vstd::arithmetic::div_mod::lemma_mod_bound(
                    crate::common::timer_wheel::ticks(wheel@.origin, t, level),
                    bucket_count(level),
                );
                assert(wheel@.buckets[level].len() == bucket_count(level));
            }
        },
        None => {},
    }
}

/// The search passes up to five entries in a row that were updated without the policies knowing, or whose
/// keys are gone, moves each to the back of the queue, and ends with the sixth.
pub proof fn six_stale_entries_end_the_search<V>(
    env: Surroundings<V>,
    weight: int,
    freq: int,
    queue: Seq<usize>,
    n: int,
)
    requires
        weight > 0,
        freq >= 0,
        0 <= n <= 6,
        n < queue.len(),
        forall|i: int| 0 <= i < n ==> env.is_skipped(#[trigger] queue[i]),
    ensures
        n == 6 ==> env.search(weight, freq, queue).victims.len() == 0 && env.search(weight, freq, queue).queue
            == queue.skip(6) + queue.take(6),
        n < 6 && !env.is_skipped(queue[n]) ==> env.search(weight, freq, queue).victims.len() > 0 && env.search(
            weight,
            freq,
            queue,
        ).victims[0] == queue[n],
{
    lemma_skips(env, weight, freq, queue, n);
    let s = Search {
        queue: queue.skip(n) + queue.take(n),
        next: 0,
        victims: Seq::empty(),
        policy_weight: 0,
        freq: 0,
        retries: n,
    };
    env.lemma_searched(weight, freq, s);
    if n < 6 && !env.is_skipped(queue[n]) {
        assert(s.queue[0] == queue[n]);
        lemma_victims_stay(env, weight, freq, env.after_victim(s));
    }
}

proof fn lemma_skips<V>(env: Surroundings<V>, weight: int, freq: int, queue: Seq<usize>, n: int)
    requires
        weight > 0,
        freq >= 0,
        0 <= n <= 6,
        n < queue.len(),
        forall|i: int| 0 <= i < n ==> env.is_skipped(#[trigger] queue[i]),
    ensures
        env.search(weight, freq, queue) == env.searched(
            weight,
            freq,
            Search {
                queue: queue.skip(n) + queue.take(n),
                next: 0,
                victims: Seq::empty(),
                policy_weight: 0,
                freq: 0,
                retries: n,
            },
        ),
    decreases n,
{
    if n == 0 {
        assert(queue.skip(0) + queue.take(0) =~= queue);
    } else {
        lemma_skips(env, weight, freq, queue, n - 1);
        let s = Search {
            queue: queue.skip(n - 1) + queue.take(n - 1),
            next: 0,
            victims: Seq::empty(),
            policy_weight: 0,
            freq: 0,
            retries: n - 1,
        };
        env.lemma_searched(weight, freq, s);
        assert(s.queue[0] == queue[n - 1]);
        assert(s.queue.remove(0).push(s.queue[0]) =~= queue.skip(n) + queue.take(n));
    }
}

proof fn lemma_victims_stay<V>(env: Surroundings<V>, weight: int, freq: int, s: Search)
    requires
        s.victims.len() > 0,
        s.retries >= 0,
    ensures
        env.searched(weight, freq, s).victims.len() > 0,
        env.searched(weight, freq, s).victims[0] == s.victims[0],
    decreases s.queue.len() - s.next, MAX_CONSECUTIVE_RETRIES + 1 - s.retries,
{
    env.lemma_searched(weight, freq, s);
    if !env.is_over(weight, freq, s) {
        if env.is_skipped(s.queue[s.next]) {
            if s.next != s.queue.len() - 1 {
                lemma_victims_stay(env, weight, freq, env.after_skip(s));
            }
        } else {
            lemma_victims_stay(env, weight, freq, env.after_victim(s));
        }
    }
}

/// An entry is skipped exactly if it was updated without the policies knowing, or its key is gone.
pub proof fn stale_entries_are_skipped<V>(env: Surroundings<V>, e: usize)
    ensures
        ({
            let info = env.entries[e].info;
            env.is_skipped(e) <==> info.entry_gen != info.policy_gen || !env.cache.dom().contains(
                info.key_hash.key,
            )
        }),
{
}

} // verus!
