//! The operations of a hash table.
use vstd::prelude::*;

use super::bucket::{BucketArray, InsertionResult, RehashOp, BUCKET_ARRAY_DEFAULT_LENGTH};

verus! {

/// The most values that a table takes.
pub const MAX_LEN: usize = usize::MAX / 16;

/// A hash table. The hash of a key is given with it, and is the same each time.
pub struct BucketArrayRef<V> {
    bucket_array: BucketArray<V>,
    len: usize,
}

impl<V> BucketArrayRef<V> {
    /// The values of the keys.
    pub closed spec fn view(&self) -> Map<u64, V> {
        self.bucket_array@
    }

    /// Where the key is in the table, it is there under this hash.
    pub closed spec fn hash_ok(&self, key: u64, hash: u64) -> bool {
        self.bucket_array.hash_ok(key, hash)
    }

    /// The number of values is counted, and there are not too many buckets for them.
    pub closed spec fn wf(&self) -> bool {
        &&& self.bucket_array.wf()
        &&& self.len == self.bucket_array.live()
        &&& self@.dom().finite()
        &&& self.len == self@.dom().len()
        &&& self.len <= MAX_LEN
        &&& self.bucket_array.spec_len() <= usize::MAX / 4
    }

    /// The keys of a table can be counted.
    pub proof fn lemma_wf(&self)
        requires
            self.wf(),
        ensures
            self@.dom().finite(),
            self@.dom().len() <= MAX_LEN,
    {
    }

    pub fn new() -> (r: Self)
        ensures
            r.wf(),
            r@.dom() == Set::<u64>::empty(),
            forall|key: u64, hash: u64| r.hash_ok(key, hash),
    {
        let bucket_array: BucketArray<V> = BucketArray::with_length(0, BUCKET_ARRAY_DEFAULT_LENGTH);
        proof {
            bucket_array.lemma_live_bound();
            bucket_array.lemma_counts();
        }
        let r = BucketArrayRef { bucket_array, len: 0 };
        assert(r@.dom() =~= Set::<u64>::empty());
        r
    }

    /// The number of values.
    pub fn len(&self) -> (r: usize)
        requires
            self.wf(),
        ensures
            r == self@.dom().len(),
    {
        self.len
    }

    /// Lays the table out anew.
    fn rehash(&mut self, op: RehashOp)
        requires
            old(self).wf(),
            old(self).bucket_array.live() <= BucketArray::<V>::length_after(
                old(self).bucket_array.spec_len() as int,
                op,
            ),
            BucketArray::<V>::length_after(old(self).bucket_array.spec_len() as int, op) <= usize::MAX / 4,
        ensures
            final(self).wf(),
            final(self)@ == old(self)@,
            final(self).len == old(self).len,
            forall|k: u64, h: u64|
                old(self).bucket_array.hash_ok(k, h) ==> #[trigger] final(self).bucket_array.hash_ok(k, h),
            final(self).bucket_array.spec_tombstones() == 0,
            final(self).bucket_array.spec_len() == BucketArray::<V>::length_after(
                old(self).bucket_array.spec_len() as int,
                op,
            ),
            final(self).bucket_array.used() == old(self).len,
    {
        let mut taken: BucketArray<V> = BucketArray::with_length(0, 2);
        std::mem::swap(&mut self.bucket_array, &mut taken);
        self.bucket_array = taken.rehash(op);
    }

    /// Lays the table out anew until the numbers of buckets, of tombstones and of values suit
    /// each other.
    fn rehash_until_skip(&mut self)
        requires
            old(self).wf(),
        ensures
            final(self).wf(),
            final(self)@ == old(self)@,
            final(self).len == old(self).len,
            forall|k: u64, h: u64|
                old(self).bucket_array.hash_ok(k, h) ==> #[trigger] final(self).bucket_array.hash_ok(k, h),
            final(self).bucket_array.used() < final(self).bucket_array.spec_len(),
    {
        loop
            invariant
                self.wf(),
                self@ == old(self)@,
                self.len == old(self).len,
                forall|k: u64, h: u64|
                    old(self).bucket_array.hash_ok(k, h) ==> #[trigger] self.bucket_array.hash_ok(k, h),
            ensures
                self.wf(),
                self@ == old(self)@,
                self.len == old(self).len,
                forall|k: u64, h: u64|
                    old(self).bucket_array.hash_ok(k, h) ==> #[trigger] self.bucket_array.hash_ok(k, h),
                self.bucket_array.used() < self.bucket_array.spec_len(),
            decreases
                    (if self.len > self.bucket_array.spec_len() / 2 {
                        1int
                    } else {
                        0int
                    }),
                    (if self.len > self.bucket_array.spec_len() / 2 {
                        self.len - self.bucket_array.spec_len() / 2
                    } else {
                        self.bucket_array.spec_tombstones()
                    }),
        {
            proof {
                self.bucket_array.lemma_live_bound();
            }
            let rehash_op = RehashOp::new(
                self.bucket_array.capacity(),
                self.bucket_array.tombstone_count(),
                self.len,
            );
            if rehash_op.is_skip() {
                proof {
                    self.bucket_array.lemma_counts();
                }
                break;
            }
            self.rehash(rehash_op);
        }
    }

    /// What a function makes of the value of a key, if the key has one.
    pub fn get_key_value_and_then<F: FnOnce(&u64, &V) -> Option<T>, T>(
        &self,
        key: u64,
        hash: u64,
        with_entry: F,
    ) -> (r: Option<T>)
        requires
            self.wf(),
            self.hash_ok(key, hash),
            self@.dom().contains(key) ==> with_entry.requires((&key, &self@[key])),
        ensures
            if self@.dom().contains(key) {
                with_entry.ensures((&key, &self@[key]), r)
            } else {
                r is None
            },
    {
        match self.bucket_array.get(hash, key) {
            Some(value) => with_entry(&key, value),
            None => None,
        }
    }

    /// Takes the value of a key away, if it satisfies a condition, and returns what a function
    /// makes of it.
    pub fn remove_entry_if_and<F: Fn(&u64, &V) -> bool, G: FnOnce(&u64, &V) -> T, T>(
        &mut self,
        key: u64,
        hash: u64,
        condition: F,
        with_previous_entry: G,
    ) -> (r: Option<T>)
        requires
            old(self).wf(),
            old(self).hash_ok(key, hash),
            forall|v: &V| #[trigger] condition.requires((&key, v)),
            forall|v: &V| #[trigger] with_previous_entry.requires((&key, v)),
        ensures
            final(self).wf(),
            final(self).hash_ok(key, hash),
            forall|k: u64, h: u64| old(self).hash_ok(k, h) && k != key ==> #[trigger] final(self).hash_ok(k, h),
            match r {
                Some(t) => {
                    &&& old(self)@.dom().contains(key)
                    &&& condition.ensures((&key, &old(self)@[key]), true)
                    &&& with_previous_entry.ensures((&key, &old(self)@[key]), t)
                    &&& final(self)@ == old(self)@.remove(key)
                },
                None => {
                    &&& old(self)@.dom().contains(key) ==> condition.ensures(
                        (&key, &old(self)@[key]),
                        false,
                    )
                    &&& final(self)@ == old(self)@
                },
            },
    {
        self.rehash_until_skip();
        match self.bucket_array.remove_if(hash, key, &condition) {
            Some(value) => {
                proof {
                    self.bucket_array.lemma_live_bound();
                }
                self.len = self.len - 1;
                Some(with_previous_entry(&key, &value))
            },
            None => None,
        }
    }

    /// Gives a key a value, if it has none; if it has one, returns what a function makes of it.
    pub fn insert_if_not_present_and<F: FnOnce() -> V, G: FnOnce(&u64, &V) -> T, T>(
        &mut self,
        key: u64,
        hash: u64,
        on_insert: F,
        with_existing_entry: G,
    ) -> (r: Option<T>)
        requires
            old(self).wf(),
            old(self).hash_ok(key, hash),
            old(self)@.dom().len() < MAX_LEN,
            on_insert.requires(()),
            forall|v: &V| #[trigger] with_existing_entry.requires((&key, v)),
        ensures
            final(self).wf(),
            final(self).hash_ok(key, hash),
            forall|k: u64, h: u64| old(self).hash_ok(k, h) && k != key ==> #[trigger] final(self).hash_ok(k, h),
            match r {
                Some(t) => {
                    &&& old(self)@.dom().contains(key)
                    &&& with_existing_entry.ensures((&key, &old(self)@[key]), t)
                    &&& final(self)@ == old(self)@
                },
                None => {
                    &&& !old(self)@.dom().contains(key)
                    &&& final(self)@.dom().contains(key)
                    &&& on_insert.ensures((), final(self)@[key])
                    &&& final(self)@ == old(self)@.insert(key, final(self)@[key])
                },
            },
    {
        self.rehash_until_skip();
        match self.bucket_array.insert_if_not_present(hash, key, on_insert) {
            Ok(InsertionResult::AlreadyPresent(_)) => {
                let existing = self.bucket_array.get(hash, key);
                Some(with_existing_entry(&key, existing.unwrap()))
            },
            Ok(InsertionResult::Inserted) | Ok(InsertionResult::ReplacedTombstone) => {
                self.len = self.len + 1;
                None
            },
            Err(_) => vstd::pervasive::unreached(),
        }
    }

    /// Gives a key a value. If it has one, the new value is what a function makes of it, and
    /// what another function makes of the old one is returned.
    pub fn insert_with_or_modify_entry_and<
        F: FnOnce() -> V,
        G: Fn(&u64, &V) -> V,
        H: FnOnce(&u64, &V) -> T,
        T,
    >(&mut self, key: u64, hash: u64, on_insert: F, on_modify: G, with_old_entry: H) -> (r: Option<T>)
        requires
            old(self).wf(),
            old(self).hash_ok(key, hash),
            old(self)@.dom().len() < MAX_LEN,
            on_insert.requires(()),
            forall|v: &V| #[trigger] on_modify.requires((&key, v)),
            forall|v: &V| #[trigger] with_old_entry.requires((&key, v)),
        ensures
            final(self).wf(),
            final(self).hash_ok(key, hash),
            forall|k: u64, h: u64| old(self).hash_ok(k, h) && k != key ==> #[trigger] final(self).hash_ok(k, h),
            final(self)@.dom().contains(key),
            final(self)@ == old(self)@.insert(key, final(self)@[key]),
            match r {
                Some(t) => {
                    &&& old(self)@.dom().contains(key)
                    &&& on_modify.ensures((&key, &old(self)@[key]), final(self)@[key])
                    &&& with_old_entry.ensures((&key, &old(self)@[key]), t)
                },
                None => {
                    &&& !old(self)@.dom().contains(key)
                    &&& on_insert.ensures((), final(self)@[key])
                },
            },
    {
        self.rehash_until_skip();
        match self.bucket_array.insert_or_modify(hash, key, on_insert, &on_modify) {
            Ok(Some(old_value)) => {
                assert(self@.dom() =~= old(self)@.dom());
                Some(with_old_entry(&key, &old_value))
            },
            Ok(None) => {
                self.len = self.len + 1;
                None
            },
            Err(_) => vstd::pervasive::unreached(),
        }
    }

    /// The keys of the table, each once, and what a function makes of each.
    pub fn keys<F: Fn(&u64) -> T, T>(&self, with_key: F) -> (r: Vec<T>)
        requires
            self.wf(),
            forall|k: u64| #[trigger] with_key.requires((&k,)),
        ensures
            exists|keys: Seq<u64>| #[trigger] self.lists(keys) && keys.len() == r@.len() && forall|i: int|
                0 <= i < r@.len() ==> with_key.ensures((&keys[i],), #[trigger] r@[i]),
    {
        let r = self.bucket_array.keys(&with_key);
        proof {
            let keys = choose|keys: Seq<u64>| #[trigger] self.bucket_array.lists(keys) && keys.len()
                == r@.len() && forall|i: int|
                0 <= i < r@.len() ==> with_key.ensures((&keys[i],), #[trigger] r@[i]);
            assert(self.lists(keys));
        }
        r
    }

    /// These are the keys of the table, each once.
    pub open spec fn lists(&self, keys: Seq<u64>) -> bool {
        &&& keys.no_duplicates()
        &&& forall|k: u64| #[trigger] keys.contains(k) <==> self@.dom().contains(k)
    }
}

} // verus!
