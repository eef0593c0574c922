//! Entries that are got or made.
use vstd::prelude::*;

use super::cache::{
    after_read, can_judge, is_got, is_kept, is_made, is_wanting, keep, Cache,
};
use super::value_initializer::InitResult;
use crate::common::entry::{Entry, EntryView};
use crate::common::time::Instant;

verus! {

/// A key for which an entry is to be got or made.
pub struct OwnedKeyEntrySelector<K> {
    owned_key: K,
    hash: u64,
}

impl<K> OwnedKeyEntrySelector<K> {
    pub closed spec fn spec_key(&self) -> K {
        self.owned_key
    }

    pub closed spec fn spec_hash(&self) -> u64 {
        self.hash
    }

    pub fn new(owned_key: K, hash: u64) -> (r: Self)
        ensures
            r.spec_key() == owned_key,
            r.spec_hash() == hash,
    {
        OwnedKeyEntrySelector { owned_key, hash }
    }

    pub fn key(&self) -> (r: &K)
        ensures
            *r == self.spec_key(),
    {
        &self.owned_key
    }

    pub fn hash(&self) -> (r: u64)
        ensures
            r == self.spec_hash(),
    {
        self.hash
    }

    /// The entry, once it is known what came of the computation of its value: a value that was
    /// computed is fresh, and one that was there is not. `had_value` says that the key had a
    /// value before, which a computed value replaces.
    pub fn select<V, E>(self, result: InitResult<V, E>, had_value: bool) -> (r: Result<Entry<K, V>, E>)
        ensures
            match result {
                InitResult::Initialized(v) => r matches Ok(entry) && entry@ == (EntryView {
                    key: Some(self.spec_key()),
                    value: v,
                    is_fresh: true,
                    is_old_value_replaced: had_value,
                }),
                InitResult::ReadExisting(v) => r matches Ok(entry) && entry@ == (EntryView {
                    key: Some(self.spec_key()),
                    value: v,
                    is_fresh: false,
                    is_old_value_replaced: false,
                }),
                InitResult::InitErr(e) => r matches Err(error) && error == e,
            },
    {
        match result {
            InitResult::Initialized(value) => Ok(
                Entry::new(Some(self.owned_key), value, true, had_value),
            ),
            InitResult::ReadExisting(value) => Ok(
                Entry::new(Some(self.owned_key), value, false, false),
            ),
            InitResult::InitErr(e) => Err(e),
        }
    }
}

impl OwnedKeyEntrySelector<u64> {
    /// Gets the entry of the key. Where there is none, the default value is given to the key.
    pub fn or_default<V, W: Fn(&u64, &V) -> u32, L>(self, cache: &mut Cache<V, W, L>, now: Instant) -> (r: Entry<u64, &V>) where
        V: Default,

        requires
            old(cache).wf(),
            V::default.requires(()),
        ensures
            final(cache).wf(),
            final(cache).is_set_up_like(old(cache)),
            match old(cache)@.lookup(self.spec_key(), now) {
                Some(v) => is_got(v, self.spec_key(), r@) && final(cache)@ == after_read(
                    old(cache)@,
                    self.spec_key(),
                    self.spec_hash(),
                    now,
                ),
                None => V::default.ensures((), *r@.value) && is_made(
                    old(cache)@,
                    old(cache).spec_weigher(),
                    self.spec_key(),
                    self.spec_hash(),
                    now,
                    final(cache)@,
                    r@,
                ),
            },
    {
        self.or_insert_with(cache, V::default, now)
    }

    /// Gets the entry of the key. Where there is none, the value is given to the key.
    pub fn or_insert<V, W: Fn(&u64, &V) -> u32, L>(self, cache: &mut Cache<V, W, L>, default: V, now: Instant) -> (r: Entry<u64, &V>)
        requires
            old(cache).wf(),
        ensures
            final(cache).wf(),
            final(cache).is_set_up_like(old(cache)),
            match old(cache)@.lookup(self.spec_key(), now) {
                Some(v) => is_got(v, self.spec_key(), r@) && final(cache)@ == after_read(
                    old(cache)@,
                    self.spec_key(),
                    self.spec_hash(),
                    now,
                ),
                None => *r@.value == default && is_made(
                    old(cache)@,
                    old(cache).spec_weigher(),
                    self.spec_key(),
                    self.spec_hash(),
                    now,
                    final(cache)@,
                    r@,
                ),
            },
    {
        let init = || -> (r: V)
            ensures
                r == default,
            { default };
        self.or_insert_with(cache, init, now)
    }

    /// Gets the entry of the key. Where there is none, the value is computed and given to the
    /// key.
    pub fn or_insert_with<V, W: Fn(&u64, &V) -> u32, L, F: FnOnce() -> V>(
        self,
        cache: &mut Cache<V, W, L>,
        init: F,
        now: Instant,
    ) -> (r: Entry<u64, &V>)
        requires
            old(cache).wf(),
            init.requires(()),
        ensures
            final(cache).wf(),
            final(cache).is_set_up_like(old(cache)),
            match old(cache)@.lookup(self.spec_key(), now) {
                Some(v) => is_got(v, self.spec_key(), r@) && final(cache)@ == after_read(
                    old(cache)@,
                    self.spec_key(),
                    self.spec_hash(),
                    now,
                ),
                None => init.ensures((), *r@.value) && is_made(
                    old(cache)@,
                    old(cache).spec_weigher(),
                    self.spec_key(),
                    self.spec_hash(),
                    now,
                    final(cache)@,
                    r@,
                ),
            },
    {
        cache.get_or_insert_with_hash_and_fun(self.owned_key, self.hash, init, keep::<V>, now)
    }

    /// Gets the entry of the key. Where there is none, or where `replace_if` wants another
    /// value, the value is computed and given to the key.
    pub fn or_insert_with_if<
        V,
        W: Fn(&u64, &V) -> u32,
        L,
        F: FnOnce() -> V,
        R: Fn(&V) -> bool,
    >(
        self,
        cache: &mut Cache<V, W, L>,
        init: F,
        replace_if: R,
        now: Instant,
    ) -> (r: Entry<u64, &V>)
        requires
            old(cache).wf(),
            init.requires(()),
            can_judge(replace_if),
        ensures
            final(cache).wf(),
            final(cache).is_set_up_like(old(cache)),
            if r@.is_fresh {
                &&& is_wanting(old(cache)@, self.spec_key(), now, replace_if)
                &&& init.ensures((), *r@.value)
                &&& is_made(
                    old(cache)@,
                    old(cache).spec_weigher(),
                    self.spec_key(),
                    self.spec_hash(),
                    now,
                    final(cache)@,
                    r@,
                )
            } else {
                is_kept(
                    old(cache)@,
                    self.spec_key(),
                    self.spec_hash(),
                    now,
                    replace_if,
                    final(cache)@,
                    r@,
                )
            },
    {
        cache.get_or_insert_with_hash_and_fun(self.owned_key, self.hash, init, replace_if, now)
    }

    /// Gets the entry of the key. Where there is none, the value is computed, and if there is
    /// one, given to the key.
    pub fn or_optionally_insert_with<V, W: Fn(&u64, &V) -> u32, L, F: FnOnce() -> Option<V>>(
        self,
        cache: &mut Cache<V, W, L>,
        init: F,
        now: Instant,
    ) -> (r: Option<Entry<u64, &V>>)
        requires
            old(cache).wf(),
            init.requires(()),
        ensures
            final(cache).wf(),
            final(cache).is_set_up_like(old(cache)),
            match old(cache)@.lookup(self.spec_key(), now) {
                Some(v) => r matches Some(entry) && is_got(v, self.spec_key(), entry@) && final(cache)@
                    == after_read(old(cache)@, self.spec_key(), self.spec_hash(), now),
                None => match r {
                    Some(entry) => init.ensures((), Some(*entry@.value)) && is_made(
                        old(cache)@,
                        old(cache).spec_weigher(),
                        self.spec_key(),
                        self.spec_hash(),
                        now,
                        final(cache)@,
                        entry@,
                    ),
                    None => init.ensures((), None) && final(cache)@ == after_read(
                        old(cache)@,
                        self.spec_key(),
                        self.spec_hash(),
                        now,
                    ),
                },
            },
    {
        cache.get_or_optionally_insert_with_hash_and_fun(self.owned_key, self.hash, init, now)
    }

    /// Gets the entry of the key. Where there is none, the value is computed, which may fail,
    /// and given to the key.
    pub fn or_try_insert_with<V, W: Fn(&u64, &V) -> u32, L, E, F: FnOnce() -> Result<V, E>>(
        self,
        cache: &mut Cache<V, W, L>,
        init: F,
        now: Instant,
    ) -> (r: Result<Entry<u64, &V>, E>)
        requires
            old(cache).wf(),
            init.requires(()),
        ensures
            final(cache).wf(),
            final(cache).is_set_up_like(old(cache)),
            match old(cache)@.lookup(self.spec_key(), now) {
                Some(v) => r matches Ok(entry) && is_got(v, self.spec_key(), entry@) && final(cache)@
                    == after_read(old(cache)@, self.spec_key(), self.spec_hash(), now),
                None => match r {
                    Ok(entry) => init.ensures((), Ok(*entry@.value)) && is_made(
                        old(cache)@,
                        old(cache).spec_weigher(),
                        self.spec_key(),
                        self.spec_hash(),
                        now,
                        final(cache)@,
                        entry@,
                    ),
                    Err(e) => init.ensures((), Err(e)) && final(cache)@ == after_read(
                        old(cache)@,
                        self.spec_key(),
                        self.spec_hash(),
                        now,
                    ),
                },
            },
    {
        cache.get_or_try_insert_with_hash_and_fun(self.owned_key, self.hash, init, keep::<V>, now)
    }
}

/// A borrowed key for which an entry is to be got or made.
pub struct RefKeyEntrySelector<'a, Q> {
    ref_key: &'a Q,
    hash: u64,
}

impl<'a, Q> RefKeyEntrySelector<'a, Q> {
    pub closed spec fn spec_key(&self) -> &'a Q {
        self.ref_key
    }

    pub closed spec fn spec_hash(&self) -> u64 {
        self.hash
    }

    pub fn new(ref_key: &'a Q, hash: u64) -> (r: Self)
        ensures
            r.spec_key() == ref_key,
            r.spec_hash() == hash,
    {
        RefKeyEntrySelector { ref_key, hash }
    }
}

impl<'a> RefKeyEntrySelector<'a, u64> {
    /// Gets the entry of the key. Where there is none, the default value is given to the key.
    pub fn or_default<V, W: Fn(&u64, &V) -> u32, L>(self, cache: &mut Cache<V, W, L>, now: Instant) -> (r: Entry<u64, &V>) where
        V: Default,

        requires
            old(cache).wf(),
            V::default.requires(()),
        ensures
            final(cache).wf(),
            final(cache).is_set_up_like(old(cache)),
            match old(cache)@.lookup(*self.spec_key(), now) {
                Some(v) => is_got(v, *self.spec_key(), r@) && final(cache)@ == after_read(
                    old(cache)@,
                    *self.spec_key(),
                    self.spec_hash(),
                    now,
                ),
                None => V::default.ensures((), *r@.value) && is_made(
                    old(cache)@,
                    old(cache).spec_weigher(),
                    *self.spec_key(),
                    self.spec_hash(),
                    now,
                    final(cache)@,
                    r@,
                ),
            },
    {
        self.or_insert_with(cache, V::default, now)
    }

    /// Gets the entry of the key. Where there is none, the value is given to the key.
    pub fn or_insert<V, W: Fn(&u64, &V) -> u32, L>(self, cache: &mut Cache<V, W, L>, default: V, now: Instant) -> (r: Entry<u64, &V>)
        requires
            old(cache).wf(),
        ensures
            final(cache).wf(),
            final(cache).is_set_up_like(old(cache)),
            match old(cache)@.lookup(*self.spec_key(), now) {
                Some(v) => is_got(v, *self.spec_key(), r@) && final(cache)@ == after_read(
                    old(cache)@,
                    *self.spec_key(),
                    self.spec_hash(),
                    now,
                ),
                None => *r@.value == default && is_made(
                    old(cache)@,
                    old(cache).spec_weigher(),
                    *self.spec_key(),
                    self.spec_hash(),
                    now,
                    final(cache)@,
                    r@,
                ),
            },
    {
        let init = || -> (r: V)
            ensures
                r == default,
            { default };
        self.or_insert_with(cache, init, now)
    }

    /// Gets the entry of the key. Where there is none, the value is computed and given to the
    /// key.
    pub fn or_insert_with<V, W: Fn(&u64, &V) -> u32, L, F: FnOnce() -> V>(
        self,
        cache: &mut Cache<V, W, L>,
        init: F,
        now: Instant,
    ) -> (r: Entry<u64, &V>)
        requires
            old(cache).wf(),
            init.requires(()),
        ensures
            final(cache).wf(),
            final(cache).is_set_up_like(old(cache)),
            match old(cache)@.lookup(*self.spec_key(), now) {
                Some(v) => is_got(v, *self.spec_key(), r@) && final(cache)@ == after_read(
                    old(cache)@,
                    *self.spec_key(),
                    self.spec_hash(),
                    now,
                ),
                None => init.ensures((), *r@.value) && is_made(
                    old(cache)@,
                    old(cache).spec_weigher(),
                    *self.spec_key(),
                    self.spec_hash(),
                    now,
                    final(cache)@,
                    r@,
                ),
            },
    {
        cache.get_or_insert_with_hash_and_fun(*self.ref_key, self.hash, init, keep::<V>, now)
    }

    /// Gets the entry of the key. Where there is none, or where `replace_if` wants another
    /// value, the value is computed and given to the key.
    pub fn or_insert_with_if<
        V,
        W: Fn(&u64, &V) -> u32,
        L,
        F: FnOnce() -> V,
        R: Fn(&V) -> bool,
    >(
        self,
        cache: &mut Cache<V, W, L>,
        init: F,
        replace_if: R,
        now: Instant,
    ) -> (r: Entry<u64, &V>)
        requires
            old(cache).wf(),
            init.requires(()),
            can_judge(replace_if),
        ensures
            final(cache).wf(),
            final(cache).is_set_up_like(old(cache)),
            if r@.is_fresh {
                &&& is_wanting(old(cache)@, *self.spec_key(), now, replace_if)
                &&& init.ensures((), *r@.value)
                &&& is_made(
                    old(cache)@,
                    old(cache).spec_weigher(),
                    *self.spec_key(),
                    self.spec_hash(),
                    now,
                    final(cache)@,
                    r@,
                )
            } else {
                is_kept(
                    old(cache)@,
                    *self.spec_key(),
                    self.spec_hash(),
                    now,
                    replace_if,
                    final(cache)@,
                    r@,
                )
            },
    {
        cache.get_or_insert_with_hash_and_fun(*self.ref_key, self.hash, init, replace_if, now)
    }

    /// Gets the entry of the key. Where there is none, the value is computed, and if there is
    /// one, given to the key.
    pub fn or_optionally_insert_with<V, W: Fn(&u64, &V) -> u32, L, F: FnOnce() -> Option<V>>(
        self,
        cache: &mut Cache<V, W, L>,
        init: F,
        now: Instant,
    ) -> (r: Option<Entry<u64, &V>>)
        requires
            old(cache).wf(),
            init.requires(()),
        ensures
            final(cache).wf(),
            final(cache).is_set_up_like(old(cache)),
            match old(cache)@.lookup(*self.spec_key(), now) {
                Some(v) => r matches Some(entry) && is_got(v, *self.spec_key(), entry@) && final(cache)@
                    == after_read(old(cache)@, *self.spec_key(), self.spec_hash(), now),
                None => match r {
                    Some(entry) => init.ensures((), Some(*entry@.value)) && is_made(
                        old(cache)@,
                        old(cache).spec_weigher(),
                        *self.spec_key(),
                        self.spec_hash(),
                        now,
                        final(cache)@,
                        entry@,
                    ),
                    None => init.ensures((), None) && final(cache)@ == after_read(
                        old(cache)@,
                        *self.spec_key(),
                        self.spec_hash(),
                        now,
                    ),
                },
            },
    {
        cache.get_or_optionally_insert_with_hash_and_fun(*self.ref_key, self.hash, init, now)
    }

    /// Gets the entry of the key. Where there is none, the value is computed, which may fail,
    /// and given to the key.
    pub fn or_try_insert_with<V, W: Fn(&u64, &V) -> u32, L, E, F: FnOnce() -> Result<V, E>>(
        self,
        cache: &mut Cache<V, W, L>,
        init: F,
        now: Instant,
    ) -> (r: Result<Entry<u64, &V>, E>)
        requires
            old(cache).wf(),
            init.requires(()),
        ensures
            final(cache).wf(),
            final(cache).is_set_up_like(old(cache)),
            match old(cache)@.lookup(*self.spec_key(), now) {
                Some(v) => r matches Ok(entry) && is_got(v, *self.spec_key(), entry@) && final(cache)@
                    == after_read(old(cache)@, *self.spec_key(), self.spec_hash(), now),
                None => match r {
                    Ok(entry) => init.ensures((), Ok(*entry@.value)) && is_made(
                        old(cache)@,
                        old(cache).spec_weigher(),
                        *self.spec_key(),
                        self.spec_hash(),
                        now,
                        final(cache)@,
                        entry@,
                    ),
                    Err(e) => init.ensures((), Err(e)) && final(cache)@ == after_read(
                        old(cache)@,
                        *self.spec_key(),
                        self.spec_hash(),
                        now,
                    ),
                },
            },
    {
        cache.get_or_try_insert_with_hash_and_fun(*self.ref_key, self.hash, init, keep::<V>, now)
    }
}

} // verus!
