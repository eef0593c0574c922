//! A cache with weights, expiration, and values that are computed when they are missing.
use std::time::Duration;

use vstd::prelude::*;

use super::entry_selector::{OwnedKeyEntrySelector, RefKeyEntrySelector};
use super::PredicateId;
use super::value_initializer::{
    post_init_for_get_with, post_init_for_optionally_get_with, OptionallyNone,
};
use crate::common::concurrent::admission::EvictionCounters;
use crate::common::concurrent::deques::Queues;
use crate::common::entry::{Entry, EntryView};
use crate::common::error::PredicateRegistrationError;
use crate::common::time::{duration_nanos, AtomicInstant, Instant};
use crate::dash::base_cache::BaseCache;
use crate::dash::count_laws::{housekeeping_keeps_order, is_sound, removal_and_read_keep_order};
use crate::dash::inner::can_hold;
use crate::dash::laws::{housekeeping_keeps_values, same_record};
use crate::dash::state::CacheState;
use crate::notification::{DeliveryMode, RemovalCause};
use crate::policy::{Policy, PolicyState};
use crate::sync::ConcurrentCacheExt;

verus! {

/// A cache. Keys are numbers, each with a hash that its user gives; the current time is given
/// too. A weigher tells how heavy an entry is; without one, every entry weighs one.
pub struct Cache<V, W, L> {
    base: BaseCache<V>,
    weigher: Option<W>,
    eviction_listener: Option<L>,
    eviction_notification_mode: Option<DeliveryMode>,
    invalidator_enabled: bool,
    /// The predicates whose values were taken away, and that housekeeping has not gone over.
    predicates: Vec<PredicateId>,
}

/// The weigher can weigh every entry.
pub open spec fn can_weigh<V, W: Fn(&u64, &V) -> u32>(weigher: Option<W>) -> bool {
    weigher is Some ==> forall|k: u64, v: V| #[trigger] weigher->0.requires((&k, &v))
}

/// An entry is this heavy.
pub open spec fn is_weight<V, W: Fn(&u64, &V) -> u32>(
    weigher: Option<W>,
    key: u64,
    value: V,
    weight: u32,
) -> bool {
    match weigher {
        Some(w) => w.ensures((&key, &value), weight),
        None => weight == 1,
    }
}

/// What a read of a key leaves behind.
pub open spec fn after_read<V>(before: CacheState<V>, key: u64, hash: u64, now: Instant) -> CacheState<
    V,
> {
    before.read_at(key, hash, now)
}

/// The value was given to the key, after a read that did not find one.
pub open spec fn is_put_after_read<V, W: Fn(&u64, &V) -> u32>(
    before: CacheState<V>,
    weigher: Option<W>,
    key: u64,
    hash: u64,
    now: Instant,
    after: CacheState<V>,
    value: V,
) -> bool {
    exists|weight: u32|
        is_weight(weigher, key, value, weight) && #[trigger] after_read(
            before,
            key,
            hash,
            now,
        ).with_room(now).put(after, key, hash, value, weight, now)
}

/// The entry tells of a value that was there.
pub open spec fn is_got<V>(value: V, key: u64, entry: EntryView<u64, &V>) -> bool {
    entry == (EntryView { key: Some(key), value: &value, is_fresh: false, is_old_value_replaced: false })
}

/// The closure can judge every value.
pub open spec fn can_judge<V, R: Fn(&V) -> bool>(replace_if: R) -> bool {
    forall|v: V| #[trigger] replace_if.requires((&v,))
}

/// The key has no value, or one that is to be replaced.
pub open spec fn is_wanting<V, R: Fn(&V) -> bool>(
    before: CacheState<V>,
    key: u64,
    now: Instant,
    replace_if: R,
) -> bool {
    before.lookup(key, now) matches Some(v) ==> replace_if.ensures((&v,), true)
}

/// The key has a value that is not to be replaced, and the entry tells of it.
pub open spec fn is_kept<V, R: Fn(&V) -> bool>(
    before: CacheState<V>,
    key: u64,
    hash: u64,
    now: Instant,
    replace_if: R,
    after: CacheState<V>,
    entry: EntryView<u64, &V>,
) -> bool {
    &&& before.lookup(key, now) matches Some(v) && is_got(v, key, entry) && replace_if.ensures(
        (&v,),
        false,
    )
    &&& after == after_read(before, key, hash, now)
}

/// The value of the entry was given to the key.
pub open spec fn is_made<V, W: Fn(&u64, &V) -> u32>(
    before: CacheState<V>,
    weigher: Option<W>,
    key: u64,
    hash: u64,
    now: Instant,
    after: CacheState<V>,
    entry: EntryView<u64, &V>,
) -> bool {
    &&& entry.key == Some(key)
    &&& entry.is_fresh
    &&& entry.is_old_value_replaced == (before.lookup(key, now) is Some)
    &&& is_put_after_read(before, weigher, key, hash, now, after, *entry.value)
}

/// The cache after the values of the first `n` of some keys were taken away, of those that were
/// chosen.
pub open spec fn chosen_taken<V>(
    before: CacheState<V>,
    keys: Seq<u64>,
    chosen: Seq<bool>,
    n: int,
    now: Instant,
) -> CacheState<V>
    decreases n,
{
    if n <= 0 {
        before
    } else {
        let s = chosen_taken(before, keys, chosen, n - 1, now);
        if s.find(keys[n - 1]) is Some && chosen[n - 1] {
            s.with_room(now).taken(keys[n - 1])
        } else {
            s
        }
    }
}

/// A key is chosen as the predicate answers of its value.
pub open spec fn is_answer<V, F: Fn(&u64, &V) -> bool>(
    before: CacheState<V>,
    keys: Seq<u64>,
    chosen: Seq<bool>,
    predicate: F,
    i: int,
    now: Instant,
) -> bool {
    let s = chosen_taken(before, keys, chosen, i, now);
    match s.find(keys[i]) {
        Some(e) => predicate.ensures((&keys[i], &s.entries[e].value), chosen[i]),
        None => true,
    }
}

/// The keys are chosen as the predicate answers of their values.
pub open spec fn are_answers<V, F: Fn(&u64, &V) -> bool>(
    before: CacheState<V>,
    keys: Seq<u64>,
    chosen: Seq<bool>,
    predicate: F,
    now: Instant,
) -> bool {
    forall|i: int|
        0 <= i < chosen.len() ==> #[trigger] is_answer(before, keys, chosen, predicate, i, now)
}

/// Later choices change nothing.
proof fn lemma_chosen_same<V>(
    before: CacheState<V>,
    keys: Seq<u64>,
    a: Seq<bool>,
    b: Seq<bool>,
    n: int,
    now: Instant,
)
    requires
        n <= a.len() <= b.len(),
        forall|i: int| 0 <= i < a.len() ==> a[i] == #[trigger] b[i],
    ensures
        chosen_taken(before, keys, a, n, now) == chosen_taken(before, keys, b, n, now),
    decreases n,
{
    if n > 0 {
        lemma_chosen_same(before, keys, a, b, n - 1, now);
        assert(a[n - 1] == b[n - 1]);
    }
}

/// A key that was chosen has no value, nor does it get one from what is done about the others.
pub proof fn chosen_keys_are_gone<V>(
    before: CacheState<V>,
    keys: Seq<u64>,
    chosen: Seq<bool>,
    n: int,
    i: int,
    now: Instant,
)
    requires
        0 <= i < n <= keys.len(),
        keys.len() == chosen.len(),
        chosen[i],
    ensures
        chosen_taken(before, keys, chosen, n, now).find(keys[i]) is None,
    decreases n,
{
    let s = chosen_taken(before, keys, chosen, n - 1, now);
    s.lemma_with_room_settings(now);
    if i < n - 1 {
        chosen_keys_are_gone(before, keys, chosen, n - 1, i, now);
    }
}

/// A key that is in the cache after values were taken away was there before.
pub proof fn no_key_comes_by_taking<V>(
    before: CacheState<V>,
    keys: Seq<u64>,
    chosen: Seq<bool>,
    n: int,
    now: Instant,
)
    ensures
        chosen_taken(before, keys, chosen, n, now).no_new_keys(before),
    decreases n,
{
    if n > 0 {
        no_key_comes_by_taking(before, keys, chosen, n - 1, now);
        chosen_taken(before, keys, chosen, n - 1, now).lemma_with_room_settings(now);
    }
}

/// Whatever key still has a value has the one that it had.
proof fn lemma_taking_keeps<V>(
    before: CacheState<V>,
    keys: Seq<u64>,
    chosen: Seq<bool>,
    n: int,
    now: Instant,
    key: u64,
)
    requires
        is_sound(before),
    ensures
        ({
            let s = chosen_taken(before, keys, chosen, n, now);
            &&& is_sound(s)
            &&& s.same_settings(before)
            &&& s.find(key) is Some ==> s.find(key) == before.find(key) && same_record(
                before.entries[before.cache[key]],
                s.entries[before.cache[key]],
            )
        }),
    decreases n,
{
    if n > 0 {
        lemma_taking_keeps(before, keys, chosen, n - 1, now, key);
        let s = chosen_taken(before, keys, chosen, n - 1, now);
        let t = s.with_room(now);
        housekeeping_keeps_order(s, now);
        housekeeping_keeps_values(s, now);
        s.lemma_with_room_settings(now);
        removal_and_read_keep_order(t, keys[n - 1], 0, now);
        if t.find(key) is Some {
            assert(t.cache.dom().contains(key));
            assert(t.entries.dom().contains(t.cache[key]));
        }
    }
}

/// A predicate takes the values away of which it is true.
pub proof fn predicate_takes_its_values<V, F: Fn(&u64, &V) -> bool>(
    before: CacheState<V>,
    keys: Seq<u64>,
    chosen: Seq<bool>,
    predicate: F,
    now: Instant,
    key: u64,
)
    requires
        is_sound(before),
        keys.to_set() == before.cache.dom(),
        chosen.len() == keys.len(),
        are_answers(before, keys, chosen, predicate, now),
        before.find(key) is Some,
        !predicate.ensures((&key, &before.entries[before.cache[key]].value), false),
    ensures
        chosen_taken(before, keys, chosen, keys.len() as int, now).find(key) is None,
{
    assert(keys.to_set().contains(key));
    let i = choose|i: int| 0 <= i < keys.len() && keys[i] == key;
    lemma_taking_keeps(before, keys, chosen, i, now, key);
    assert(is_answer(before, keys, chosen, predicate, i, now));
    lemma_gone_stays_gone(before, keys, chosen, i, keys.len() as int, now, key);
    if chosen[i] {
        chosen_keys_are_gone(before, keys, chosen, keys.len() as int, i, now);
    }
}

proof fn lemma_gone_stays_gone<V>(
    before: CacheState<V>,
    keys: Seq<u64>,
    chosen: Seq<bool>,
    m: int,
    n: int,
    now: Instant,
    key: u64,
)
    requires
        m <= n,
    ensures
        chosen_taken(before, keys, chosen, m, now).find(key) is None ==> chosen_taken(
            before,
            keys,
            chosen,
            n,
            now,
        ).find(key) is None,
    decreases n - m,
{
    if m < n {
        lemma_gone_stays_gone(before, keys, chosen, m, n - 1, now, key);
        chosen_taken(before, keys, chosen, n - 1, now).lemma_with_room_settings(now);
    }
}

/// A predicate leaves the values of which it is not true, as long as housekeeping on the way does
/// not evict them.
pub proof fn predicate_spares_other_values<V, F: Fn(&u64, &V) -> bool>(
    before: CacheState<V>,
    keys: Seq<u64>,
    chosen: Seq<bool>,
    predicate: F,
    n: int,
    now: Instant,
    key: u64,
    later: Instant,
)
    requires
        is_sound(before),
        0 <= n <= keys.len(),
        chosen.len() == keys.len(),
        are_answers(before, keys, chosen, predicate, now),
        before.find(key) is Some,
        !predicate.ensures((&key, &before.entries[before.cache[key]].value), true),
        forall|j: int|
            0 <= j < n ==> {
                let s = #[trigger] chosen_taken(before, keys, chosen, j, now);
                s.with_room(now).find(key) == s.find(key)
            },
    ensures
        chosen_taken(before, keys, chosen, n, now).find(key) == before.find(key),
        chosen_taken(before, keys, chosen, n, now).lookup(key, later) == before.lookup(key, later),
    decreases n,
{
    lemma_taking_keeps(before, keys, chosen, n, now, key);
    if n > 0 {
        predicate_spares_other_values(before, keys, chosen, predicate, n - 1, now, key, later);
        let s = chosen_taken(before, keys, chosen, n - 1, now);
        lemma_taking_keeps(before, keys, chosen, n - 1, now, key);
        assert(is_answer(before, keys, chosen, predicate, n - 1, now));
        assert(s.with_room(now).find(key) == s.find(key));
    }
}

/// Every value is kept.
pub(crate) fn keep<V>(value: &V) -> (r: bool)
    ensures
        !r,
{
    false
}

impl<V, W: Fn(&u64, &V) -> u32, L> Cache<V, W, L> {
    pub closed spec fn view(&self) -> CacheState<V> {
        self.base@
    }

    pub closed spec fn spec_weigher(&self) -> Option<W> {
        self.weigher
    }

    /// Entries may be invalidated by closures.
    pub closed spec fn spec_invalidator_enabled(&self) -> bool {
        self.invalidator_enabled
    }

    /// Who is told what was removed, and when.
    pub closed spec fn spec_eviction_listener(&self) -> (Option<L>, Option<DeliveryMode>) {
        (self.eviction_listener, self.eviction_notification_mode)
    }

    /// The predicates whose values were taken away, and that housekeeping has not gone over.
    pub closed spec fn spec_predicates(&self) -> Seq<PredicateId> {
        self.predicates@
    }

    /// The cache has the weigher and the listener of the other, and allows closures if the other
    /// does.
    pub open spec fn has_settings_of(&self, other: &Self) -> bool {
        &&& self.spec_weigher() == other.spec_weigher()
        &&& self.spec_eviction_listener() == other.spec_eviction_listener()
        &&& self.spec_invalidator_enabled() == other.spec_invalidator_enabled()
    }

    /// The cache has the settings and the predicates of the other.
    pub open spec fn is_set_up_like(&self, other: &Self) -> bool {
        &&& self.has_settings_of(other)
        &&& self.spec_predicates() == other.spec_predicates()
    }

    pub closed spec fn wf(&self) -> bool {
        &&& self.base.wf()
        &&& can_weigh(self.weigher)
        &&& self@.has_weigher == (self.weigher is Some)
    }

    /// What every cache has.
    pub proof fn lemma_wf(&self)
        requires
            self.wf(),
        ensures
            is_sound(self@),
            can_weigh(self.spec_weigher()),
            self@.has_weigher == (self.spec_weigher() is Some),
    {
        self.base.lemma_wf();
    }

    /// The cache holds nothing, and is of these settings.
    pub open spec fn is_empty_cache(
        &self,
        max_capacity: Option<u64>,
        weigher: Option<W>,
        listener: (Option<L>, Option<DeliveryMode>),
        time_to_live: Option<Duration>,
        time_to_idle: Option<Duration>,
    ) -> bool {
        &&& self@.cache.dom() == Set::<u64>::empty()
        &&& self@.entries.dom() == Set::<usize>::empty()
        &&& self@.queues == Queues::empty()
        &&& self@.counters == (EvictionCounters {
            entry_count: 0,
            weighted_size: 0,
            eviction_count: 0,
        })
        &&& !self@.sketch_enabled
        &&& self@.sketch.table.len() == 0
        &&& self@.reads.len() == 0
        &&& self@.writes.len() == 0
        &&& self@.max_capacity == max_capacity
        &&& self@.time_to_live == time_to_live
        &&& self@.time_to_idle == time_to_idle
        &&& self@.valid_after is None
        &&& self.spec_weigher() == weigher
        &&& self.spec_eviction_listener() == listener
        &&& self.spec_predicates().len() == 0
    }

    /// A cache of the capacity `max_capacity`, whose entries do not expire.
    pub fn new(max_capacity: u64) -> (r: Self)
        ensures
            r.wf(),
            r.is_empty_cache(Some(max_capacity), None, (None, None), None, None),
            !r.spec_invalidator_enabled(),
    {
        Self::with_everything(Some(max_capacity), None, None, None, None, None, None, false)
    }

    pub fn with_everything(
        max_capacity: Option<u64>,
        initial_capacity: Option<usize>,
        weigher: Option<W>,
        eviction_listener: Option<L>,
        eviction_notification_mode: Option<DeliveryMode>,
        time_to_live: Option<Duration>,
        time_to_idle: Option<Duration>,
        invalidator_enabled: bool,
    ) -> (r: Self)
        requires
            can_hold(initial_capacity),
            can_weigh(weigher),
        ensures
            r.wf(),
            r.is_empty_cache(
                max_capacity,
                weigher,
                (eviction_listener, eviction_notification_mode),
                time_to_live,
                time_to_idle,
            ),
            r.spec_invalidator_enabled() == invalidator_enabled,
    {
        Cache {
            base: BaseCache::new(
                max_capacity,
                initial_capacity,
                weigher.is_some(),
                time_to_live,
                time_to_idle,
            ),
            weigher,
            eviction_listener,
            eviction_notification_mode,
            invalidator_enabled,
            predicates: Vec::new(),
        }
    }

    /// How heavy an entry is.
    fn weigh(&self, key: u64, value: &V) -> (r: u32)
        requires
            self.wf(),
        ensures
            is_weight(self.spec_weigher(), key, *value, r),
    {
        match &self.weigher {
            Some(w) => w(&key, value),
            None => 1,
        }
    }

    /// Whether a key has a value. This is no read: it does not make the entry used.
    pub fn contains_key(&self, key: u64, now: Instant) -> (r: bool)
        requires
            self.wf(),
        ensures
            r == (self@.lookup(key, now) is Some),
    {
        self.base.contains_key(key, now)
    }

    /// Why the entry of a key goes, if it goes now. That of a live entry is `live`: it was
    /// replaced, say, or there was no room for it.
    pub fn removal_cause(&self, key: u64, now: Instant, live: RemovalCause) -> (r: Option<RemovalCause>)
        requires
            self.wf(),
        ensures
            r == self@.cause_of_removal(key, now, live),
    {
        self.base.removal_cause(key, now, live)
    }

    /// Reads the value of a key.
    pub fn get(&mut self, key: u64, hash: u64, now: Instant) -> (r: Option<&V>)
        requires
            old(self).wf(),
        ensures
            final(self).wf(),
            final(self).is_set_up_like(old(self)),
            match old(self)@.lookup(key, now) {
                Some(v) => r == Some(&v),
                None => r is None,
            },
            final(self)@ == old(self)@.read_at(key, hash, now),
    {
        self.base.get_with_hash(key, hash, now)
    }

    /// Gives a key a value.
    pub fn insert(&mut self, key: u64, hash: u64, value: V, now: Instant)
        requires
            old(self).wf(),
        ensures
            final(self).wf(),
            final(self).is_set_up_like(old(self)),
            exists|weight: u32|
                is_weight(old(self).spec_weigher(), key, value, weight) && #[trigger] old(self)@.with_room(now).put(final(self)@, key, hash, value, weight, now),
    {
        let weight: u32 = self.weigh(key, &value);
        let ghost before = self@;
        self.base.insert_with_hash(key, hash, value, weight, now);
        proof {
            before.lemma_with_room_settings(now);
            assert(before.with_room(now).put(self@, key, hash, value, weight, now));
        }
    }

    /// Takes the value of a key away.
    pub fn invalidate(&mut self, key: u64, now: Instant)
        requires
            old(self).wf(),
        ensures
            final(self).wf(),
            final(self).is_set_up_like(old(self)),
            final(self)@ == old(self)@.with_room(now).taken(key),
    {
        proof {
            self@.lemma_with_room_settings(now);
        }
        self.base.invalidate(key, now);
    }

    /// Takes all values away that were written or used before now.
    pub fn invalidate_all(&mut self, now: Instant)
        requires
            old(self).wf(),
        ensures
            final(self).wf(),
            final(self).is_set_up_like(old(self)),
            final(self)@ == (CacheState {
                valid_after: AtomicInstant { instant: now.nanos }@,
                ..old(self)@
            }),
    {
        self.base.invalidate_all(now);
    }

    /// Takes the values away that satisfy a predicate.
    ///
    /// The predicate is asked of every value that is in the cache, and of no value that comes
    /// later. The predicate is known by its id until housekeeping has gone over what was taken
    /// away. This is for caches that were made for it.
    pub fn invalidate_entries_if<F: Fn(&u64, &V) -> bool>(
        &mut self,
        predicate: F,
        id: PredicateId,
        now: Instant,
    ) -> (r: Result<PredicateId, PredicateRegistrationError>)
        requires
            old(self).wf(),
            forall|k: u64, v: V| #[trigger] predicate.requires((&k, &v)),
        ensures
            final(self).wf(),
            final(self).has_settings_of(old(self)),
            match r {
                Ok(known) => {
                    &&& old(self).spec_invalidator_enabled()
                    &&& known@ == id@
                    &&& final(self).spec_predicates() == old(self).spec_predicates().push(id)
                    &&& exists|keys: Seq<u64>, chosen: Seq<bool>|
                        {
                            &&& keys.no_duplicates()
                            &&& keys.to_set() == old(self)@.cache.dom()
                            &&& chosen.len() == keys.len()
                            &&& #[trigger] are_answers(old(self)@, keys, chosen, predicate, now)
                            &&& final(self)@ == chosen_taken(
                                old(self)@,
                                keys,
                                chosen,
                                keys.len() as int,
                                now,
                            )
                        }
                },
                Err(e) => {
                    &&& !old(self).spec_invalidator_enabled()
                    &&& e == PredicateRegistrationError::InvalidationClosuresDisabled
                    &&& final(self)@ == old(self)@
                    &&& final(self).spec_predicates() == old(self).spec_predicates()
                },
            },
    {
        if !self.invalidator_enabled {
            return Err(PredicateRegistrationError::InvalidationClosuresDisabled);
        }
        let ghost before = self@;
        let keys: Vec<u64> = self.keys();
        let ghost mut chosen: Seq<bool> = Seq::empty();
        let mut i: usize = 0;
        while i < keys.len()
            invariant
                i <= keys.len(),
                self.wf(),
                self.is_set_up_like(old(self)),
                forall|k: u64, v: V| #[trigger] predicate.requires((&k, &v)),
                chosen.len() == i,
                are_answers(before, keys@, chosen, predicate, now),
                self@ == chosen_taken(before, keys@, chosen, i as int, now),
            decreases keys.len() - i,
        {
            let key: u64 = keys[i];
            let ghost s = self@;
            let ghost before_i = chosen;
            let answer = match self.peek(key) {
                Some(value) => predicate(&key, value),
                None => false,
            };
            if answer {
                self.invalidate(key, now);
            }
            proof {
                chosen = chosen.push(answer);
                lemma_chosen_same(before, keys@, before_i, chosen, i as int, now);
                assert forall|j: int| 0 <= j < chosen.len() implies #[trigger] is_answer(
                    before,
                    keys@,
                    chosen,
                    predicate,
                    j,
                    now,
                ) by {
                    lemma_chosen_same(before, keys@, before_i, chosen, j, now);
                    if j < i {
                        assert(is_answer(before, keys@, before_i, predicate, j, now));
                    }
                }
            }
            i = i + 1;
        }
        let known = id.clone();
        self.predicates.push(id);
        Ok(known)
    }

    /// The number of predicates whose values were taken away, and that housekeeping has not gone
    /// over.
    pub fn invalidation_predicate_count(&self) -> (r: usize)
        ensures
            r == self.spec_predicates().len(),
    {
        self.predicates.len()
    }

    /// Who is told what was removed.
    pub fn eviction_listener(&self) -> (r: Option<&L>)
        ensures
            match self.spec_eviction_listener().0 {
                Some(listener) => r == Some(&listener),
                None => r is None,
            },
    {
        self.eviction_listener.as_ref()
    }

    /// When the listener is told.
    pub fn eviction_notification_mode(&self) -> (r: Option<DeliveryMode>)
        ensures
            r == self.spec_eviction_listener().1,
    {
        self.eviction_notification_mode
    }

    pub fn policy(&self) -> (r: Policy)
        ensures
            r@ == (PolicyState {
                max_capacity: self@.max_capacity,
                num_segments: 1,
                time_to_live: self@.time_to_live,
                time_to_idle: self@.time_to_idle,
            }),
    {
        self.base.policy()
    }

    /// The number of entries that the policies keep.
    pub fn estimated_entry_count(&self) -> (r: u64)
        ensures
            r == self@.counters.entry_count,
    {
        self.base.estimated_entry_count()
    }

    /// The sum of the weights of the entries that the policies keep.
    pub fn weighted_size(&self) -> (r: u64)
        ensures
            r == self@.counters.weighted_size,
    {
        self.base.weighted_size()
    }

    /// Whether the policies keep no entry.
    pub fn is_table_empty(&self) -> (r: bool)
        ensures
            r == (self@.counters.entry_count == 0),
    {
        self.estimated_entry_count() == 0
    }

    /// The keys, in an order that is left open.
    pub fn keys(&self) -> (r: Vec<u64>)
        requires
            self.wf(),
        ensures
            r@.no_duplicates(),
            r@.to_set() == self@.cache.dom(),
    {
        self.base.keys()
    }

    /// The value that a key has in the hash table, be it expired or not.
    pub fn peek(&self, key: u64) -> (r: Option<&V>)
        requires
            self.wf(),
        ensures
            match self@.find(key) {
                Some(e) => r == Some(&self@.entries[e].value),
                None => r is None,
            },
    {
        self.base.peek(key)
    }

    /// Gives the cache its frequency sketch at once.
    pub fn reconfigure_for_testing(&mut self)
        requires
            old(self).wf(),
        ensures
            final(self).wf(),
            final(self).is_set_up_like(old(self)),
            final(self)@ == match old(self)@.max_capacity {
                Some(max_cap) => old(self)@.with_sketch(max_cap),
                None => old(self)@,
            },
    {
        self.base.enable_frequency_sketch_for_testing();
    }

    /// How many reads are logged.
    pub fn read_log_len(&self) -> (r: usize)
        requires
            self.wf(),
        ensures
            r == self@.reads.len(),
    {
        self.base.read_log_len()
    }

    /// How many writes are logged.
    pub fn write_log_len(&self) -> (r: usize)
        requires
            self.wf(),
        ensures
            r == self@.writes.len(),
    {
        self.base.write_log_len()
    }

    /// Whether so much is logged that housekeeping is due.
    pub fn is_sync_due(&self) -> (r: bool)
        requires
            self.wf(),
        ensures
            r == (self@.reads.len() >= crate::dash::state::READ_LOG_FLUSH_POINT
                || self@.writes.len() >= crate::dash::state::WRITE_LOG_FLUSH_POINT),
    {
        self.base.apply_reads_if_needed() || self.base.apply_reads_writes_if_needed()
    }

    /// Starts the choice of an entry: it is got, or made if it is missing.
    pub fn entry(&self, key: u64, hash: u64) -> (r: OwnedKeyEntrySelector<u64>)
        ensures
            r.spec_key() == key,
            r.spec_hash() == hash,
    {
        OwnedKeyEntrySelector::new(key, hash)
    }

    /// Starts the choice of an entry, for a key that is borrowed.
    pub fn entry_by_ref<'a>(&self, key: &'a u64, hash: u64) -> (r: RefKeyEntrySelector<'a, u64>)
        ensures
            *r.spec_key() == *key,
            r.spec_hash() == hash,
    {
        RefKeyEntrySelector::new(key, hash)
    }

    /// Gets the entry of a key. Where there is none, or where `replace_if` wants another
    /// value, the value is computed, which may fail, and given to the key.
    pub fn get_or_try_insert_with_hash_and_fun<
        E,
        F: FnOnce() -> Result<V, E>,
        R: Fn(&V) -> bool,
    >(&mut self, key: u64, hash: u64, init: F, replace_if: R, now: Instant) -> (r: Result<
        Entry<u64, &V>,
        E,
    >)
        requires
            old(self).wf(),
            init.requires(()),
            can_judge(replace_if),
        ensures
            final(self).wf(),
            final(self).is_set_up_like(old(self)),
            match r {
                Ok(entry) => if entry@.is_fresh {
                    &&& is_wanting(old(self)@, key, now, replace_if)
                    &&& init.ensures((), Ok(*entry@.value))
                    &&& is_made(old(self)@, old(self).spec_weigher(), key, hash, now, final(self)@, entry@)
                } else {
                    is_kept(old(self)@, key, hash, now, replace_if, final(self)@, entry@)
                },
                Err(e) => {
                    &&& is_wanting(old(self)@, key, now, replace_if)
                    &&& init.ensures((), Err(e))
                    &&& final(self)@ == after_read(old(self)@, key, hash, now)
                },
            },
    {
        let (existed, wanting) = match self.get(key, hash, now) {
            Some(value) => (true, replace_if(value)),
            None => (false, true),
        };
        if wanting {
            match init() {
                Ok(value) => {
                    self.insert(key, hash, value, now);
                },
                Err(e) => {
                    return Err(e);
                },
            }
        }
        proof {
            self.lemma_wf();
            old(self).lemma_wf();
        }
        Ok(Entry::new(Some(key), self.peek(key).unwrap(), wanting, existed && wanting))
    }

    /// Gets the entry of a key. Where there is none, or where `replace_if` wants another
    /// value, the value is computed and given to the key.
    pub fn get_or_insert_with_hash_and_fun<F: FnOnce() -> V, R: Fn(&V) -> bool>(
        &mut self,
        key: u64,
        hash: u64,
        init: F,
        replace_if: R,
        now: Instant,
    ) -> (r: Entry<u64, &V>)
        requires
            old(self).wf(),
            init.requires(()),
            can_judge(replace_if),
        ensures
            final(self).wf(),
            final(self).is_set_up_like(old(self)),
            if r@.is_fresh {
                &&& is_wanting(old(self)@, key, now, replace_if)
                &&& init.ensures((), *r@.value)
                &&& is_made(old(self)@, old(self).spec_weigher(), key, hash, now, final(self)@, r@)
            } else {
                is_kept(old(self)@, key, hash, now, replace_if, final(self)@, r@)
            },
    {
        let init_ok = || -> (r: Result<V, ()>)
            requires
                init.requires(()),
            ensures
                r matches Ok(v) && init.ensures((), v),
            { post_init_for_get_with(init()) };
        match self.get_or_try_insert_with_hash_and_fun(key, hash, init_ok, replace_if, now) {
            Ok(entry) => entry,
            Err(_) => vstd::pervasive::unreached(),
        }
    }

    /// Gets the entry of a key. Where there is none, the value is computed, and if there is
    /// one, given to the key.
    pub fn get_or_optionally_insert_with_hash_and_fun<F: FnOnce() -> Option<V>>(
        &mut self,
        key: u64,
        hash: u64,
        init: F,
        now: Instant,
    ) -> (r: Option<Entry<u64, &V>>)
        requires
            old(self).wf(),
            init.requires(()),
        ensures
            final(self).wf(),
            final(self).is_set_up_like(old(self)),
            match old(self)@.lookup(key, now) {
                Some(v) => r matches Some(entry) && is_got(v, key, entry@) && final(self)@
                    == after_read(old(self)@, key, hash, now),
                None => match r {
                    Some(entry) => {
                        &&& init.ensures((), Some(*entry@.value))
                        &&& is_made(old(self)@, old(self).spec_weigher(), key, hash, now, final(self)@, entry@)
                    },
                    None => init.ensures((), None) && final(self)@ == after_read(
                        old(self)@,
                        key,
                        hash,
                        now,
                    ),
                },
            },
    {
        let init_some = || -> (r: Result<V, OptionallyNone>)
            requires
                init.requires(()),
            ensures
                match r {
                    Ok(v) => init.ensures((), Some(v)),
                    Err(_) => init.ensures((), None),
                },
            { post_init_for_optionally_get_with(init()) };
        match self.get_or_try_insert_with_hash_and_fun(key, hash, init_some, keep::<V>, now) {
            Ok(entry) => Some(entry),
            Err(_) => None,
        }
    }

    /// Reads the value of a key. A missing value is computed and given to the key.
    pub fn get_with<F: FnOnce() -> V>(&mut self, key: u64, hash: u64, init: F, now: Instant) -> (r:
        &V)
        requires
            old(self).wf(),
            init.requires(()),
        ensures
            final(self).wf(),
            final(self).is_set_up_like(old(self)),
            match old(self)@.lookup(key, now) {
                Some(v) => *r == v && final(self)@ == after_read(old(self)@, key, hash, now),
                None => init.ensures((), *r) && is_put_after_read(
                    old(self)@,
                    old(self).spec_weigher(),
                    key,
                    hash,
                    now,
                    final(self)@,
                    *r,
                ),
            },
    {
        self.get_or_insert_with_hash_and_fun(key, hash, init, keep::<V>, now).into_value()
    }

    /// Reads the value of a key. A missing value is computed, which may fail, and given to the
    /// key.
    pub fn try_get_with<E, F: FnOnce() -> Result<V, E>>(
        &mut self,
        key: u64,
        hash: u64,
        init: F,
        now: Instant,
    ) -> (r: Result<&V, E>)
        requires
            old(self).wf(),
            init.requires(()),
        ensures
            final(self).wf(),
            final(self).is_set_up_like(old(self)),
            match old(self)@.lookup(key, now) {
                Some(v) => r matches Ok(value) && *value == v && final(self)@ == after_read(
                    old(self)@,
                    key,
                    hash,
                    now,
                ),
                None => match r {
                    Ok(value) => init.ensures((), Ok(*value)) && is_put_after_read(
                        old(self)@,
                        old(self).spec_weigher(),
                        key,
                        hash,
                        now,
                        final(self)@,
                        *value,
                    ),
                    Err(e) => init.ensures((), Err(e)) && final(self)@ == after_read(
                        old(self)@,
                        key,
                        hash,
                        now,
                    ),
                },
            },
    {
        match self.get_or_try_insert_with_hash_and_fun(key, hash, init, keep::<V>, now) {
            Ok(entry) => Ok(entry.into_value()),
            Err(e) => Err(e),
        }
    }

    /// Reads the value of a key. A missing value is computed, and if there is one, given to
    /// the key.
    pub fn optionally_get_with<F: FnOnce() -> Option<V>>(
        &mut self,
        key: u64,
        hash: u64,
        init: F,
        now: Instant,
    ) -> (r: Option<&V>)
        requires
            old(self).wf(),
            init.requires(()),
        ensures
            final(self).wf(),
            final(self).is_set_up_like(old(self)),
            match old(self)@.lookup(key, now) {
                Some(v) => r matches Some(value) && *value == v && final(self)@ == after_read(
                    old(self)@,
                    key,
                    hash,
                    now,
                ),
                None => match r {
                    Some(value) => init.ensures((), Some(*value)) && is_put_after_read(
                        old(self)@,
                        old(self).spec_weigher(),
                        key,
                        hash,
                        now,
                        final(self)@,
                        *value,
                    ),
                    None => init.ensures((), None) && final(self)@ == after_read(
                        old(self)@,
                        key,
                        hash,
                        now,
                    ),
                },
            },
    {
        match self.get_or_optionally_insert_with_hash_and_fun(key, hash, init, now) {
            Some(entry) => Some(entry.into_value()),
            None => None,
        }
    }

    /// An older name of [`Cache::get_with`].
    pub fn get_or_insert_with<F: FnOnce() -> V>(
        &mut self,
        key: u64,
        hash: u64,
        init: F,
        now: Instant,
    ) -> (r: &V)
        requires
            old(self).wf(),
            init.requires(()),
        ensures
            final(self).wf(),
            final(self).is_set_up_like(old(self)),
            match old(self)@.lookup(key, now) {
                Some(v) => *r == v && final(self)@ == after_read(old(self)@, key, hash, now),
                None => init.ensures((), *r) && is_put_after_read(
                    old(self)@,
                    old(self).spec_weigher(),
                    key,
                    hash,
                    now,
                    final(self)@,
                    *r,
                ),
            },
    {
        self.get_with(key, hash, init, now)
    }

    /// An older name of [`Cache::try_get_with`].
    pub fn get_or_try_insert_with<E, F: FnOnce() -> Result<V, E>>(
        &mut self,
        key: u64,
        hash: u64,
        init: F,
        now: Instant,
    ) -> (r: Result<&V, E>)
        requires
            old(self).wf(),
            init.requires(()),
        ensures
            final(self).wf(),
            final(self).is_set_up_like(old(self)),
            match old(self)@.lookup(key, now) {
                Some(v) => r matches Ok(value) && *value == v && final(self)@ == after_read(
                    old(self)@,
                    key,
                    hash,
                    now,
                ),
                None => match r {
                    Ok(value) => init.ensures((), Ok(*value)) && is_put_after_read(
                        old(self)@,
                        old(self).spec_weigher(),
                        key,
                        hash,
                        now,
                        final(self)@,
                        *value,
                    ),
                    Err(e) => init.ensures((), Err(e)) && final(self)@ == after_read(
                        old(self)@,
                        key,
                        hash,
                        now,
                    ),
                },
            },
    {
        self.try_get_with(key, hash, init, now)
    }
}

impl<V, W: Fn(&u64, &V) -> u32, L> ConcurrentCacheExt for Cache<V, W, L> {
    open spec fn in_order(&self) -> bool {
        self.wf()
    }

    open spec fn is_synced_from(&self, before: &Self, now: Instant) -> bool {
        &&& self@ == before@.synced(now)
        &&& self.has_settings_of(before)
        &&& self.spec_predicates().len() == 0
    }

    fn sync(&mut self, now: Instant) {
        proof {
            self@.lemma_synced_settings(now);
        }
        let pace = self.base.sync(now);
        self.predicates = Vec::new();
    }
}

/// A value that was computed for a key and put into the cache is read back until it has lived or idled for
/// as long as it may. It weighs what the weigher says, or one where there is none.
pub proof fn made_value_is_read_back<V, W: Fn(&u64, &V) -> u32>(
    before: CacheState<V>,
    weigher: Option<W>,
    key: u64,
    hash: u64,
    now: Instant,
    after: CacheState<V>,
    entry: EntryView<u64, &V>,
    later: Instant,
)
    requires
        is_sound(after_read(before, key, hash, now).with_room(now)),
        is_made(before, weigher, key, hash, now, after, entry),
        now.nanos <= later.nanos < u64::MAX,
    ensures
        after.cache.dom().contains(key),
        ({
            let info = after.entries[after.cache[key]].info;
            let lives = after.time_to_live is Some ==> later.nanos - now.nanos < duration_nanos(
                after.time_to_live->0,
            );
            let is_used = after.time_to_idle is Some ==> later.nanos - now.nanos < duration_nanos(
                after.time_to_idle->0,
            );
            let is_valid = after.valid_after is Some ==> after.valid_after->0.nanos <= now.nanos;
            &&& after.lookup(key, later) == if lives && is_used && is_valid {
                Some(*entry.value)
            } else {
                None
            }
            &&& weigher is None ==> info.policy_weight == 1
            &&& weigher is Some ==> weigher->0.ensures((&key, entry.value), info.policy_weight)
        }),
        entry.is_fresh,
        entry.key == Some(key),
        entry.is_old_value_replaced <==> before.lookup(key, now) is Some,
{
    let s = after_read(before, key, hash, now).with_room(now);
    let weight = choose|weight: u32|
        is_weight(weigher, key, *entry.value, weight) && #[trigger] after_read(
            before,
            key,
            hash,
            now,
        ).with_room(now).put(after, key, hash, *entry.value, weight, now);
    assert(s.put(after, key, hash, *entry.value, weight, now));
    if s.cache.dom().contains(key) {
        assert(s.entries.dom().contains(s.cache[key]));
    }
}

/// A value that is kept is the one that is read, and stays.
pub proof fn kept_value_is_read_back<V, R: Fn(&V) -> bool>(
    before: CacheState<V>,
    key: u64,
    hash: u64,
    now: Instant,
    replace_if: R,
    after: CacheState<V>,
    entry: EntryView<u64, &V>,
)
    requires
        is_kept(before, key, hash, now, replace_if, after, entry),
        now.nanos < u64::MAX,
    ensures
        before.lookup(key, now) == Some(*entry.value),
        after.cache == before.cache,
        after.entries[after.cache[key]].value == *entry.value,
        !entry.is_fresh,
        !entry.is_old_value_replaced,
        entry.key == Some(key),
        replace_if.ensures((entry.value,), false),
{
}

} // verus!
