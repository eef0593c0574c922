//! The buckets of a hash table.
//!
//! A key is looked for from the bucket that its hash gives on, bucket by bucket, and is in the
//! table before the first empty bucket or not at all. A removed key leaves a tombstone, which
//! is no empty bucket.
use vstd::arithmetic::div_mod::{lemma_fundamental_div_mod, lemma_fundamental_div_mod_converse};
use vstd::prelude::*;

verus! {

/// The number of buckets of a new table.
pub const BUCKET_ARRAY_DEFAULT_LENGTH: usize = 128;

/// A bucket that holds a key. Without a value it is a tombstone.
pub struct Bucket<V> {
    pub key: u64,
    pub hash: u64,
    pub maybe_value: Option<V>,
}

/// How the buckets are to be laid out anew.
#[derive(Clone, Copy, Debug, PartialEq, Eq, Structural)]
pub enum RehashOp {
    /// In twice as many buckets.
    Expand,
    /// In half as many buckets.
    Shrink,
    /// In as many buckets, without the tombstones.
    GcOnly,
    /// Not at all.
    Skip,
}

impl RehashOp {
    /// What the numbers of values that the table is meant for, of tombstones and of values call
    /// for.
    pub open spec fn spec_new(cap: int, tombstone_count: int, len: int) -> Self {
        if len > cap {
            RehashOp::Expand
        } else if tombstone_count * 5 < cap {
            RehashOp::Skip
        } else if len * 4 <= cap && 2 * cap > BUCKET_ARRAY_DEFAULT_LENGTH {
            RehashOp::Shrink
        } else {
            RehashOp::GcOnly
        }
    }

    pub fn new(cap: usize, tombstone_count: usize, len: usize) -> (r: Self)
        ensures
            r == Self::spec_new(cap as int, tombstone_count as int, len as int),
    {
        if len > cap {
            RehashOp::Expand
        } else if (tombstone_count as u128) * 5 < cap as u128 {
            RehashOp::Skip
        } else if len as u128 * 4 <= cap as u128 && 2 * (cap as u128)
            > BUCKET_ARRAY_DEFAULT_LENGTH as u128 {
            RehashOp::Shrink
        } else {
            RehashOp::GcOnly
        }
    }

    pub fn is_skip(&self) -> (r: bool)
        ensures
            r == (*self is Skip),
    {
        match self {
            RehashOp::Skip => true,
            _ => false,
        }
    }
}

/// The `j`-th bucket that is looked at for a hash, among `n` buckets.
pub open spec fn probe(hash: u64, j: int, n: int) -> int {
    (hash as int + j) % n
}

/// How many of the buckets satisfy a predicate.
pub open spec fn count_where<V>(
    s: Seq<Option<Bucket<V>>>,
    f: spec_fn(Option<Bucket<V>>) -> bool,
) -> int
    decreases s.len(),
{
    if s.len() == 0 {
        0
    } else {
        count_where(s.drop_last(), f) + if f(s.last()) {
            1int
        } else {
            0int
        }
    }
}

proof fn lemma_count_bound<V>(s: Seq<Option<Bucket<V>>>, f: spec_fn(Option<Bucket<V>>) -> bool)
    ensures
        0 <= count_where(s, f) <= s.len(),
        (forall|i: int| 0 <= i < s.len() ==> f(#[trigger] s[i])) ==> count_where(s, f) == s.len(),
        (forall|i: int| 0 <= i < s.len() ==> !f(#[trigger] s[i])) ==> count_where(s, f) == 0,
    decreases s.len(),
{
    if s.len() > 0 {
        let t = s.drop_last();
        lemma_count_bound(t, f);
        if forall|i: int| 0 <= i < s.len() ==> f(#[trigger] s[i]) {
            assert forall|i: int| 0 <= i < t.len() implies f(#[trigger] t[i]) by {
                assert(t[i] == s[i]);
            }
            assert(f(s[s.len() - 1]));
        }
        if forall|i: int| 0 <= i < s.len() ==> !f(#[trigger] s[i]) {
            assert forall|i: int| 0 <= i < t.len() implies !f(#[trigger] t[i]) by {
                assert(t[i] == s[i]);
            }
            assert(!f(s[s.len() - 1]));
        }
    }
}

proof fn lemma_count_update<V>(
    s: Seq<Option<Bucket<V>>>,
    f: spec_fn(Option<Bucket<V>>) -> bool,
    i: int,
    x: Option<Bucket<V>>,
)
    requires
        0 <= i < s.len(),
    ensures
        count_where(s.update(i, x), f) == count_where(s, f) - (if f(s[i]) {
            1int
        } else {
            0int
        }) + (if f(x) {
            1int
        } else {
            0int
        }),
    decreases s.len(),
{
    let u = s.update(i, x);
    if i == s.len() - 1 {
        assert(u.drop_last() =~= s.drop_last());
    } else {
        assert(u.drop_last() =~= s.drop_last().update(i, x));
        lemma_count_update(s.drop_last(), f, i, x);
    }
}

/// The buckets of a hash table.
pub struct BucketArray<V> {
    buckets: Vec<Option<Bucket<V>>>,
    epoch: usize,
    tombstone_count: usize,
}

/// What became of a key that was to be inserted.
pub enum InsertionResult {
    /// The key is there already, in this bucket.
    AlreadyPresent(usize),
    /// The key was put into an empty bucket.
    Inserted,
    /// The key was put into the bucket of its tombstone.
    ReplacedTombstone,
}

spec fn is_full<V>() -> spec_fn(Option<Bucket<V>>) -> bool {
    |b: Option<Bucket<V>>| b is Some
}

spec fn is_grave<V>() -> spec_fn(Option<Bucket<V>>) -> bool {
    |b: Option<Bucket<V>>| b is Some && b->0.maybe_value is None
}

impl<V> BucketArray<V> {
    /// The bucket `i` holds the key with a value.
    spec fn live_at(&self, i: int, key: u64) -> bool {
        &&& 0 <= i < self.buckets@.len()
        &&& self.buckets@[i] is Some
        &&& self.buckets@[i]->0.key == key
        &&& self.buckets@[i]->0.maybe_value is Some
    }

    spec fn has_live(&self, key: u64) -> bool {
        exists|i: int| #[trigger] self.live_at(i, key)
    }

    /// The values of the keys.
    pub closed spec fn view(&self) -> Map<u64, V> {
        Map::new(
            |key: u64| self.has_live(key),
            |key: u64| self.buckets@[choose|i: int| self.live_at(i, key)]->0.maybe_value->0,
        )
    }

    /// Where the key is in the table, it is there under this hash.
    pub closed spec fn hash_ok(&self, key: u64, hash: u64) -> bool {
        forall|i: int|
            0 <= i < self.buckets@.len() && (#[trigger] self.buckets@[i]) is Some
                && self.buckets@[i]->0.key == key ==> self.buckets@[i]->0.hash == hash
    }

    /// The number of buckets.
    pub closed spec fn spec_len(&self) -> nat {
        self.buckets@.len()
    }

    pub closed spec fn spec_epoch(&self) -> usize {
        self.epoch
    }

    /// The number of tombstones.
    pub closed spec fn spec_tombstones(&self) -> int {
        self.tombstone_count as int
    }

    /// The number of buckets that are not empty.
    pub closed spec fn used(&self) -> int {
        count_where(self.buckets@, is_full())
    }

    /// Before the bucket of a key there is no empty one.
    spec fn reached_at(&self, i: int, j: int) -> bool {
        let n = self.buckets@.len() as int;
        let hash = self.buckets@[i]->0.hash;
        &&& 0 <= j < n
        &&& probe(hash, j, n) == i
        &&& forall|m: int| 0 <= m < j ==> self.buckets@[#[trigger] probe(hash, m, n)] is Some
    }

    spec fn reached(&self, i: int) -> bool {
        exists|j: int| #[trigger] self.reached_at(i, j)
    }

    /// Each key has one bucket at most, and there is no empty bucket before it.
    pub closed spec fn wf(&self) -> bool {
        &&& self.buckets@.len() > 0
        &&& self.buckets@.len() % 2 == 0
        &&& self.tombstone_count == count_where(self.buckets@, is_grave())
        &&& forall|i: int, k: int|
            0 <= i < self.buckets@.len() && 0 <= k < self.buckets@.len() && (
            #[trigger] self.buckets@[i]) is Some && (#[trigger] self.buckets@[k]) is Some
                && self.buckets@[i]->0.key == self.buckets@[k]->0.key ==> i == k
        &&& forall|i: int|
            0 <= i < self.buckets@.len() && (#[trigger] self.buckets@[i]) is Some ==> self.reached(i)
    }

    /// `length` empty buckets.
    pub fn with_length(epoch: usize, length: usize) -> (r: Self)
        requires
            0 < length,
            length % 2 == 0,
        ensures
            r.wf(),
            r@ == Map::<u64, V>::empty(),
            r.spec_len() == length,
            r.spec_epoch() == epoch,
            r.spec_tombstones() == 0,
            r.used() == 0,
            forall|key: u64, hash: u64| r.hash_ok(key, hash),
    {
        let mut buckets: Vec<Option<Bucket<V>>> = Vec::new();
        let mut i: usize = 0;
        while i < length
            invariant
                i <= length,
                buckets@.len() == i,
                forall|j: int| 0 <= j < i ==> (#[trigger] buckets@[j]) is None,
            decreases length - i,
        {
            buckets.push(None);
            i = i + 1;
        }
        let r = BucketArray { buckets, epoch, tombstone_count: 0 };
        proof {
            lemma_count_bound(buckets@, is_full());
            lemma_count_bound(buckets@, is_grave());
            assert(r@ =~= Map::<u64, V>::empty()) by {
                assert forall|key: u64| !r.has_live(key) by {}
            }
        }
        r
    }

    pub fn epoch(&self) -> (r: usize)
        ensures
            r == self.spec_epoch(),
    {
        self.epoch
    }

    /// The number of values that the table is meant for: half the number of buckets.
    pub fn capacity(&self) -> (r: usize)
        requires
            self.wf(),
        ensures
            r == self.spec_len() / 2,
            self.spec_len() == 2 * r,
            r > 0,
    {
        self.buckets.len() / 2
    }

    pub fn tombstone_count(&self) -> (r: usize)
        ensures
            r == self.spec_tombstones(),
    {
        self.tombstone_count
    }

    /// The value of a key is that of the bucket that holds it.
    proof fn lemma_live(&self, i: int, key: u64)
        requires
            self.wf(),
            self.live_at(i, key),
        ensures
            self@.dom().contains(key),
            self@[key] == self.buckets@[i]->0.maybe_value->0,
    {
        assert(self.has_live(key));
        let k = choose|k: int| self.live_at(k, key);
        assert(k == i);
    }

    /// Looks for the bucket of a key: the bucket that holds the key, or the first empty one, or
    /// none when all are taken by other keys.
    fn find_bucket(&self, hash: u64, key: u64) -> (r: Option<usize>)
        requires
            self.wf(),
            self.hash_ok(key, hash),
        ensures
            match r {
                Some(i) => {
                    &&& i < self.buckets@.len()
                    &&& match self.buckets@[i as int] {
                        Some(b) => b.key == key,
                        None => {
                            &&& exists|j: int| #[trigger] self.free_at(hash, j, i as int)
                            &&& forall|k: int|
                                0 <= k < self.buckets@.len() && (#[trigger] self.buckets@[k]) is Some
                                    ==> self.buckets@[k]->0.key != key
                        },
                    }
                },
                None => {
                    &&& self.used() == self.buckets@.len()
                    &&& forall|k: int|
                        0 <= k < self.buckets@.len() && (#[trigger] self.buckets@[k]) is Some
                            ==> self.buckets@[k]->0.key != key
                },
            },
    {
        let n: usize = self.buckets.len();
        let start: usize = (hash % n as u64) as usize;
        let mut j: usize = 0;
        while j < n
            invariant
                n == self.buckets@.len(),
                n > 0,
                j <= n,
                start == hash as int % n as int,
                self.wf(),
                self.hash_ok(key, hash),
                forall|m: int|
                    0 <= m < j ==> (self.buckets@[#[trigger] probe(hash, m, n as int)] is Some
                        && self.buckets@[probe(hash, m, n as int)]->0.key != key),
            decreases n - j,
        {
            let i: usize = if j < n - start {
                start + j
            } else {
                j - (n - start)
            };
            proof {
                lemma_probe(hash, j as int, n as int, start as int, i as int);
            }
            match &self.buckets[i] {
                Some(bucket) => {
                    if bucket.key == key {
                        return Some(i);
                    }
                },
                None => {
                    proof {
                        assert(self.free_at(hash, j as int, i as int));
                        assert forall|k: int|
                            0 <= k < self.buckets@.len() && (
                            #[trigger] self.buckets@[k]) is Some implies self.buckets@[k]->0.key != key by {
                            if self.buckets@[k]->0.key == key {
                                assert(self.reached(k));
                                let d = choose|d: int| #[trigger] self.reached_at(k, d);
                                if d > j {
                                    assert(self.buckets@[probe(hash, j as int, n as int)] is Some);
                                }
                                assert(probe(hash, d, n as int) == k);
                            }
                        }
                    }
                    return Some(i);
                },
            }
            j = j + 1;
        }
        proof {
            assert forall|k: int| 0 <= k < self.buckets@.len() implies (is_full())(
                #[trigger] self.buckets@[k],
            ) && self.buckets@[k]->0.key != key by {
                let m = lemma_probe_covers(hash, n as int, k);
                assert(probe(hash, m, n as int) == k);
            }
            lemma_count_bound(self.buckets@, is_full());
        }
        None
    }

    spec fn free_at(&self, hash: u64, j: int, i: int) -> bool {
        let n = self.buckets@.len() as int;
        &&& 0 <= j < n
        &&& probe(hash, j, n) == i
        &&& forall|m: int| 0 <= m < j ==> self.buckets@[#[trigger] probe(hash, m, n)] is Some
    }
}

proof fn lemma_probe(hash: u64, j: int, n: int, start: int, i: int)
    requires
        0 <= j < n,
        start == hash as int % n,
        i == if j < n - start {
            start + j
        } else {
            j - (n - start)
        },
    ensures
        i == probe(hash, j, n),
        0 <= i < n,
{
    let h = hash as int;
    lemma_fundamental_div_mod(h, n);
    let q = h / n;
    assert(h == n * q + start);
    if j < n - start {
        assert(h + j == q * n + i) by (nonlinear_arith)
            requires
                h == n * q + start,
                i == start + j,
        ;
        lemma_fundamental_div_mod_converse(h + j, n, q, i);
    } else {
        assert(h + j == (q + 1) * n + i) by (nonlinear_arith)
            requires
                h == n * q + start,
                i == j - (n - start),
        ;
        lemma_fundamental_div_mod_converse(h + j, n, q + 1, i);
    }
}

proof fn lemma_probe_covers(hash: u64, n: int, k: int) -> (j: int)
    requires
        0 <= k < n,
    ensures
        0 <= j < n,
        probe(hash, j, n) == k,
{
    let start = hash as int % n;
    let j = if k >= start {
        k - start
    } else {
        k + (n - start)
    };
    lemma_probe(hash, j, n, start, k);
    j
}

spec fn is_live<V>() -> spec_fn(Option<Bucket<V>>) -> bool {
    |b: Option<Bucket<V>>| b is Some && b->0.maybe_value is Some
}

impl<V> BucketArray<V> {
    /// The number of buckets that hold a value.
    pub closed spec fn live(&self) -> int {
        count_where(self.buckets@, is_live())
    }

    /// The bucket `i` may take the key: it holds the key, or it is the first empty one for the
    /// hash and no bucket holds the key.
    spec fn takes(&self, i: int, hash: u64, key: u64) -> bool {
        &&& 0 <= i < self.buckets@.len()
        &&& match self.buckets@[i] {
            Some(b) => b.key == key && b.hash == hash,
            None => {
                &&& exists|j: int| #[trigger] self.free_at(hash, j, i)
                &&& forall|k: int|
                    0 <= k < self.buckets@.len() && (#[trigger] self.buckets@[k]) is Some
                        ==> self.buckets@[k]->0.key != key
            },
        }
    }

    /// Puts a key with or without a value into a bucket, and returns what was there.
    fn set_bucket(&mut self, i: usize, hash: u64, key: u64, maybe_value: Option<V>) -> (r: Option<
        Bucket<V>,
    >)
        requires
            old(self).wf(),
            old(self).takes(i as int, hash, key),
        ensures
            final(self).wf(),
            r == old(self).buckets@[i as int],
            final(self)@ == match maybe_value {
                Some(v) => old(self)@.insert(key, v),
                None => old(self)@.remove(key),
            },
            final(self).spec_len() == old(self).spec_len(),
            final(self).spec_epoch() == old(self).spec_epoch(),
            final(self).hash_ok(key, hash),
            forall|k: u64, h: u64|
                k != key && old(self).hash_ok(k, h) ==> #[trigger] final(self).hash_ok(k, h),
            final(self).live() == old(self).live() - (if r is Some && r->0.maybe_value is Some {
                1int
            } else {
                0int
            }) + (if maybe_value is Some {
                1int
            } else {
                0int
            }),
            final(self).used() == old(self).used() + (if r is Some {
                0int
            } else {
                1int
            }),
            old(self)@.dom().contains(key) == (r is Some && r->0.maybe_value is Some),
            r is Some && r->0.maybe_value is Some ==> old(self)@[key] == r->0.maybe_value->0,
    {
        let ghost before = *self;
        let ghost n = self.buckets@.len() as int;
        let ghost new_bucket = Some(Bucket { key, hash, maybe_value });
        let mut taken: Option<Bucket<V>> = Some(Bucket { key, hash, maybe_value });
        std::mem::swap(&mut self.buckets[i], &mut taken);
        proof {
            assert(self.buckets@ == before.buckets@.update(i as int, new_bucket));
            lemma_count_update(before.buckets@, is_full(), i as int, new_bucket);
            lemma_count_update(before.buckets@, is_grave(), i as int, new_bucket);
            lemma_count_update(before.buckets@, is_live(), i as int, new_bucket);
            lemma_count_bound(self.buckets@, is_grave());
        }
        let was_grave = match &taken {
            Some(b) => b.maybe_value.is_none(),
            None => false,
        };
        let is_grave_now = match &self.buckets[i] {
            Some(b) => b.maybe_value.is_none(),
            None => false,
        };
        if was_grave && !is_grave_now {
            self.tombstone_count = self.tombstone_count - 1;
        } else if !was_grave && is_grave_now {
            let bound: usize = self.buckets.len();
            self.tombstone_count = self.tombstone_count + 1;
        }
        proof {
            assert forall|k: int| 0 <= k < n && (#[trigger] self.buckets@[k]) is Some implies self.reached(
                k,
            ) by {
                if before.buckets@[k] is Some {
                    assert(before.reached(k));
                    let j = choose|j: int| #[trigger] before.reached_at(k, j);
                    assert(self.reached_at(k, j)) by {
                        let h = self.buckets@[k]->0.hash;
                        assert forall|m: int| 0 <= m < j implies self.buckets@[#[trigger] probe(h, m, n)] is Some by {
                            assert(before.buckets@[probe(h, m, n)] is Some);
                        }
                    }
                } else {
                    assert(k == i);
                    let j = choose|j: int| #[trigger] before.free_at(hash, j, i as int);
                    assert(self.reached_at(k, j)) by {
                        assert forall|m: int| 0 <= m < j implies self.buckets@[#[trigger] probe(
                            hash,
                            m,
                            n,
                        )] is Some by {
                            assert(before.buckets@[probe(hash, m, n)] is Some);
                        }
                    }
                }
            }
            assert forall|a: int, b: int|
                0 <= a < n && 0 <= b < n && (#[trigger] self.buckets@[a]) is Some && (
                #[trigger] self.buckets@[b]) is Some && self.buckets@[a]->0.key
                    == self.buckets@[b]->0.key implies a == b by {
                if a != i {
                    assert(before.buckets@[a] is Some);
                }
                if b != i {
                    assert(before.buckets@[b] is Some);
                }
            }
            assert forall|k: u64, h: u64| k != key && before.hash_ok(k, h) implies #[trigger] self.hash_ok(
                k,
                h,
            ) by {
                assert forall|x: int|
                    0 <= x < n && (#[trigger] self.buckets@[x]) is Some && self.buckets@[x]->0.key
                        == k implies self.buckets@[x]->0.hash == h by {
                    assert(before.buckets@[x] is Some);
                }
            }
            assert(self.hash_ok(key, hash)) by {
                assert forall|x: int|
                    0 <= x < n && (#[trigger] self.buckets@[x]) is Some && self.buckets@[x]->0.key
                        == key implies self.buckets@[x]->0.hash == hash by {
                    assert(self.buckets@[i as int] is Some);
                }
            }
            if taken is Some && taken->0.maybe_value is Some {
                assert(before.live_at(i as int, key));
                before.lemma_live(i as int, key);
            } else if before@.dom().contains(key) {
                let x = choose|x: int| #[trigger] before.live_at(x, key);
                assert(before.buckets@[x] is Some);
                assert(before.buckets@[i as int] is Some);
                assert(false);
            }
            self.lemma_view_after(&before, i as int, key, maybe_value);
        }
        taken
    }

    proof fn lemma_view_after(&self, before: &Self, i: int, key: u64, maybe_value: Option<V>)
        requires
            self.wf(),
            before.wf(),
            0 <= i < before.buckets@.len(),
            self.buckets@.len() == before.buckets@.len(),
            self.buckets@[i] is Some,
            self.buckets@[i]->0.key == key,
            self.buckets@[i]->0.maybe_value == maybe_value,
            before.buckets@[i] is Some ==> before.buckets@[i]->0.key == key,
            forall|k: int|
                0 <= k < before.buckets@.len() && k != i ==> #[trigger] self.buckets@[k]
                    == before.buckets@[k],
            forall|k: int|
                0 <= k < before.buckets@.len() && k != i && (
                #[trigger] before.buckets@[k]) is Some ==> before.buckets@[k]->0.key != key,
        ensures
            self@ == match maybe_value {
                Some(v) => before@.insert(key, v),
                None => before@.remove(key),
            },
    {
        let expected = match maybe_value {
            Some(v) => before@.insert(key, v),
            None => before@.remove(key),
        };
        assert forall|k: u64| self@.dom().contains(k) == expected.dom().contains(k) by {
            if self@.dom().contains(k) {
                let x = choose|x: int| #[trigger] self.live_at(x, k);
                if x != i {
                    assert(before.buckets@[x] == self.buckets@[x]);
                    assert(before.live_at(x, k));
                    assert(before.has_live(k));
                }
            }
            if expected.dom().contains(k) {
                if k == key {
                    assert(self.live_at(i, k));
                    assert(self.has_live(k));
                } else {
                    let x = choose|x: int| #[trigger] before.live_at(x, k);
                    assert(x != i);
                    assert(self.buckets@[x] == before.buckets@[x]);
                    assert(self.live_at(x, k));
                    assert(self.has_live(k));
                }
            }
        }
        assert forall|k: u64| self@.dom().contains(k) implies self@[k] == expected[k] by {
            let x = choose|x: int| #[trigger] self.live_at(x, k);
            self.lemma_live(x, k);
            if k != key {
                assert(x != i);
                assert(before.buckets@[x] == self.buckets@[x]);
                assert(before.live_at(x, k));
                before.lemma_live(x, k);
            } else {
                assert(self.live_at(i, k));
                self.lemma_live(i, k);
            }
        }
        assert(self@ =~= expected);
    }

    /// The value of a key.
    pub fn get(&self, hash: u64, key: u64) -> (r: Option<&V>)
        requires
            self.wf(),
            self.hash_ok(key, hash),
        ensures
            match r {
                Some(v) => self@.dom().contains(key) && *v == self@[key],
                None => !self@.dom().contains(key),
            },
    {
        let found = self.find_bucket(hash, key);
        proof {
            if self@.dom().contains(key) {
                let x = choose|x: int| #[trigger] self.live_at(x, key);
                assert(self.buckets@[x] is Some);
                self.lemma_live(x, key);
            }
        }
        match found {
            Some(i) => match &self.buckets[i] {
                Some(bucket) => {
                    proof {
                        if bucket.maybe_value is Some {
                            assert(self.live_at(i as int, key));
                            self.lemma_live(i as int, key);
                        }
                    }
                    bucket.maybe_value.as_ref()
                },
                None => None,
            },
            None => None,
        }
    }

    /// Gives a key a value, if it has none. When the key is not in the table and there is no
    /// empty bucket, the table has to be laid out anew first.
    pub fn insert_if_not_present<F: FnOnce() -> V>(&mut self, hash: u64, key: u64, on_insert: F) -> (r:
        Result<InsertionResult, F>)
        requires
            old(self).wf(),
            old(self).hash_ok(key, hash),
            on_insert.requires(()),
        ensures
            final(self).wf(),
            final(self).hash_ok(key, hash),
            forall|k: u64, h: u64| old(self).hash_ok(k, h) && k != key ==> #[trigger] final(self).hash_ok(k, h),
            final(self).spec_len() == old(self).spec_len(),
            match r {
                Ok(InsertionResult::AlreadyPresent(_)) => {
                    &&& old(self)@.dom().contains(key)
                    &&& final(self)@ == old(self)@
                    &&& final(self).live() == old(self).live()
                },
                Ok(InsertionResult::Inserted) | Ok(InsertionResult::ReplacedTombstone) => {
                    &&& !old(self)@.dom().contains(key)
                    &&& final(self)@.dom().contains(key)
                    &&& on_insert.ensures((), final(self)@[key])
                    &&& final(self)@ == old(self)@.insert(key, final(self)@[key])
                    &&& final(self).live() == old(self).live() + 1
                },
                Err(f) => {
                    &&& f == on_insert
                    &&& !old(self)@.dom().contains(key)
                    &&& old(self).used() == old(self).spec_len()
                    &&& *final(self) == *old(self)
                },
            },
    {
        proof {
            if self@.dom().contains(key) {
                let x = choose|x: int| #[trigger] self.live_at(x, key);
                assert(self.buckets@[x] is Some);
            }
        }
        match self.find_bucket(hash, key) {
            Some(i) => {
                let (present, occupied): (bool, bool) = match &self.buckets[i] {
                    Some(b) => (b.maybe_value.is_some(), true),
                    None => (false, false),
                };
                if present {
                    proof {
                        assert(self.live_at(i as int, key));
                        self.lemma_live(i as int, key);
                    }
                    return Ok(InsertionResult::AlreadyPresent(i));
                }
                let value = on_insert();
                let previous = self.set_bucket(i, hash, key, Some(value));
                if occupied {
                    Ok(InsertionResult::ReplacedTombstone)
                } else {
                    Ok(InsertionResult::Inserted)
                }
            },
            None => Err(on_insert),
        }
    }

    /// Gives a key a value, and returns the one that it had. When the key is not in the table
    /// and there is no empty bucket, the table has to be laid out anew first.
    pub fn insert_or_modify<F: FnOnce() -> V, G: Fn(&u64, &V) -> V>(
        &mut self,
        hash: u64,
        key: u64,
        on_insert: F,
        on_modify: &G,
    ) -> (r: Result<Option<V>, F>)
        requires
            old(self).wf(),
            old(self).hash_ok(key, hash),
            on_insert.requires(()),
            forall|v: &V| #[trigger] on_modify.requires((&key, v)),
        ensures
            final(self).wf(),
            final(self).hash_ok(key, hash),
            forall|k: u64, h: u64| old(self).hash_ok(k, h) && k != key ==> #[trigger] final(self).hash_ok(k, h),
            final(self).spec_len() == old(self).spec_len(),
            match r {
                Ok(Some(old_value)) => {
                    &&& old(self)@.dom().contains(key)
                    &&& old_value == old(self)@[key]
                    &&& final(self)@.dom().contains(key)
                    &&& on_modify.ensures((&key, &old_value), final(self)@[key])
                    &&& final(self)@ == old(self)@.insert(key, final(self)@[key])
                    &&& final(self).live() == old(self).live()
                },
                Ok(None) => {
                    &&& !old(self)@.dom().contains(key)
                    &&& final(self)@.dom().contains(key)
                    &&& on_insert.ensures((), final(self)@[key])
                    &&& final(self)@ == old(self)@.insert(key, final(self)@[key])
                    &&& final(self).live() == old(self).live() + 1
                },
                Err(f) => {
                    &&& f == on_insert
                    &&& !old(self)@.dom().contains(key)
                    &&& old(self).used() == old(self).spec_len()
                    &&& *final(self) == *old(self)
                },
            },
    {
        proof {
            if self@.dom().contains(key) {
                let x = choose|x: int| #[trigger] self.live_at(x, key);
                assert(self.buckets@[x] is Some);
            }
        }
        match self.find_bucket(hash, key) {
            Some(i) => {
                let modified: Option<V> = match &self.buckets[i] {
                    Some(b) => match &b.maybe_value {
                        Some(v) => Some(on_modify(&key, v)),
                        None => None,
                    },
                    None => None,
                };
                let value = match modified {
                    Some(v) => v,
                    None => on_insert(),
                };
                match self.set_bucket(i, hash, key, Some(value)) {
                    Some(b) => Ok(b.maybe_value),
                    None => Ok(None),
                }
            },
            None => Err(on_insert),
        }
    }

    /// Takes the value of a key away, if it satisfies a condition, and returns it.
    pub fn remove_if<F: Fn(&u64, &V) -> bool>(&mut self, hash: u64, key: u64, condition: &F) -> (r:
        Option<V>)
        requires
            old(self).wf(),
            old(self).hash_ok(key, hash),
            forall|v: &V| #[trigger] condition.requires((&key, v)),
        ensures
            final(self).wf(),
            final(self).hash_ok(key, hash),
            forall|k: u64, h: u64| old(self).hash_ok(k, h) && k != key ==> #[trigger] final(self).hash_ok(k, h),
            final(self).spec_len() == old(self).spec_len(),
            match r {
                Some(v) => {
                    &&& old(self)@.dom().contains(key)
                    &&& v == old(self)@[key]
                    &&& condition.ensures((&key, &v), true)
                    &&& final(self)@ == old(self)@.remove(key)
                    &&& final(self).live() == old(self).live() - 1
                },
                None => {
                    &&& old(self)@.dom().contains(key) ==> condition.ensures(
                        (&key, &old(self)@[key]),
                        false,
                    )
                    &&& *final(self) == *old(self)
                },
            },
    {
        proof {
            if self@.dom().contains(key) {
                let x = choose|x: int| #[trigger] self.live_at(x, key);
                assert(self.buckets@[x] is Some);
                self.lemma_live(x, key);
            }
        }
        match self.find_bucket(hash, key) {
            Some(i) => {
                let removes = match &self.buckets[i] {
                    Some(b) => match &b.maybe_value {
                        Some(v) => condition(&key, v),
                        None => false,
                    },
                    None => false,
                };
                if removes {
                    match self.set_bucket(i, hash, key, None) {
                        Some(b) => b.maybe_value,
                        None => None,
                    }
                } else {
                    None
                }
            },
            None => None,
        }
    }
}

impl<V> BucketArray<V> {
    /// The number of buckets after the table was laid out anew.
    pub open spec fn length_after(n: int, op: RehashOp) -> int {
        match op {
            RehashOp::Expand => 2 * n,
            RehashOp::Shrink => n / 2 + (n / 2) % 2,
            _ => n,
        }
    }

    /// No more buckets hold a value than there are buckets.
    pub proof fn lemma_live_bound(&self)
        requires
            self.wf(),
        ensures
            0 <= self.live() <= self.spec_len(),
            0 <= self.spec_tombstones() <= self.spec_len(),
            self.spec_len() > 0,
    {
        lemma_count_bound(self.buckets@, is_live());
        lemma_count_bound(self.buckets@, is_grave());
    }

    /// A bucket that is not empty holds a value or is a tombstone.
    pub proof fn lemma_counts(&self)
        requires
            self.wf(),
        ensures
            self.used() == self.live() + self.spec_tombstones(),
            self.live() >= 0,
    {
        lemma_counts(self.buckets@);
    }

    /// Lays the table out anew, without the tombstones.
    pub fn rehash(self, op: RehashOp) -> (r: Self)
        requires
            self.wf(),
            self.spec_len() <= usize::MAX / 2,
            self.live() <= Self::length_after(self.spec_len() as int, op),
        ensures
            r.wf(),
            r@ == self@,
            r.live() == self.live(),
            r.spec_len() == Self::length_after(self.spec_len() as int, op),
            r.spec_tombstones() == 0,
            r.used() == self.live(),
            forall|k: u64, h: u64| self.hash_ok(k, h) ==> #[trigger] r.hash_ok(k, h),
    {
        let ghost all = self.buckets@;
        let n: usize = self.buckets.len();
        let new_length: usize = match op {
            RehashOp::Expand => 2 * n,
            RehashOp::Shrink => n / 2 + (n / 2) % 2,
            _ => n,
        };
        let epoch: usize = self.epoch.saturating_add(1);
        let ghost whole = self;
        let mut next: BucketArray<V> = BucketArray::with_length(epoch, new_length);
        let mut buckets = self.buckets;
        proof {
            lemma_count_bound(all, is_live());
            lemma_count_bound(next.buckets@, is_live());
            lemma_fresh(next);
        }
        while buckets.len() > 0
            invariant
                buckets@ == all.take(buckets@.len() as int),
                buckets@.len() <= all.len(),
                all == whole.buckets@,
                whole.wf(),
                next.wf(),
                next.spec_len() == new_length,
                new_length == Self::length_after(all.len() as int, op),
                next.spec_tombstones() == 0,
                next.used() == next.live(),
                next.live() + count_where(buckets@, is_live()) == whole.live(),
                whole.live() <= new_length,
                forall|k: u64| #[trigger]
                    next@.dom().contains(k) <==> exists|i: int|
                        buckets@.len() <= i && #[trigger] whole.live_at(i, k),
                forall|k: u64| #[trigger] next@.dom().contains(k) ==> next@[k] == whole@[k],
                forall|k: u64, h: u64| whole.hash_ok(k, h) ==> #[trigger] next.hash_ok(k, h),
            decreases buckets@.len(),
        {
            let ghost m = buckets@.len() - 1;
            let ghost before = buckets@;
            let slot = buckets.pop().unwrap();
            proof {
                assert(slot == all[m]);
                assert(buckets@ =~= before.drop_last());
                assert(buckets@ =~= all.take(m));
                lemma_count_bound(buckets@, is_live());
            }
            match slot {
                Some(bucket) => match bucket.maybe_value {
                    Some(value) => {
                        let key: u64 = bucket.key;
                        let hash: u64 = bucket.hash;
                        proof {
                            assert(whole.live_at(m, key));
                            whole.lemma_live(m, key);
                            assert(whole.hash_ok(key, hash)) by {
                                assert forall|i: int|
                                    0 <= i < all.len() && (#[trigger] whole.buckets@[i]) is Some
                                        && whole.buckets@[i]->0.key == key implies whole.buckets@[i]->0.hash
                                    == hash by {
                                    assert(whole.buckets@[m] is Some);
                                }
                            }
                            assert(next.hash_ok(key, hash));
                            if next@.dom().contains(key) {
                                let i = choose|i: int| m + 1 <= i && #[trigger] whole.live_at(i, key);
                                assert(whole.buckets@[i] is Some && whole.buckets@[m] is Some);
                            }
                        }
                        let ghost next0 = next;
                        let found = next.find_bucket(hash, key);
                        proof {
                            if found is None {
                                assert(next.used() == new_length);
                            }
                            if found is Some && next.buckets@[found->0 as int] is Some {
                                lemma_no_graves(next, found->0 as int, key);
                            }
                        }
                        let previous = next.set_bucket(found.unwrap(), hash, key, Some(value));
                        proof {
                            lemma_no_graves_after(next, next0);
                            assert forall|k: u64| #[trigger] next@.dom().contains(k) <==> exists|i: int|
                                m <= i && #[trigger] whole.live_at(i, k) by {
                                if next@.dom().contains(k) {
                                    if k == key {
                                        assert(whole.live_at(m, k));
                                    } else {
                                        assert(next0@.dom().contains(k));
                                        let i = choose|i: int| m + 1 <= i && #[trigger] whole.live_at(i, k);
                                        assert(whole.live_at(i, k));
                                    }
                                }
                                if exists|i: int| m <= i && #[trigger] whole.live_at(i, k) {
                                    let i = choose|i: int| m <= i && #[trigger] whole.live_at(i, k);
                                    if i == m {
                                        assert(k == key);
                                    } else {
                                        assert(next0@.dom().contains(k));
                                    }
                                }
                            }
                        }
                    },
                    None => {
                        proof {
                            assert forall|k: u64| #[trigger] next@.dom().contains(k) <==> exists|i: int|
                                m <= i && #[trigger] whole.live_at(i, k) by {
                                if exists|i: int| m <= i && #[trigger] whole.live_at(i, k) {
                                    let i = choose|i: int| m <= i && #[trigger] whole.live_at(i, k);
                                    assert(i != m);
                                    assert(next@.dom().contains(k));
                                }
                            }
                        }
                    },
                },
                None => {
                    proof {
                        assert forall|k: u64| #[trigger] next@.dom().contains(k) <==> exists|i: int|
                            m <= i && #[trigger] whole.live_at(i, k) by {
                            if exists|i: int| m <= i && #[trigger] whole.live_at(i, k) {
                                let i = choose|i: int| m <= i && #[trigger] whole.live_at(i, k);
                                assert(i != m);
                                assert(next@.dom().contains(k));
                            }
                        }
                    }
                },
            }
        }
        proof {
            assert forall|k: u64| next@.dom().contains(k) == whole@.dom().contains(k) by {
                if whole@.dom().contains(k) {
                    let i = choose|i: int| #[trigger] whole.live_at(i, k);
                    assert(0 <= i);
                    assert(next@.dom().contains(k));
                }
                if next@.dom().contains(k) {
                    let i = choose|i: int| 0 <= i && #[trigger] whole.live_at(i, k);
                    assert(whole.has_live(k));
                }
            }
            assert(next@ =~= whole@);
        }
        next
    }

    /// The keys of the table, each once, and what a function makes of each.
    pub fn keys<F: Fn(&u64) -> T, T>(&self, with_key: &F) -> (r: Vec<T>)
        requires
            self.wf(),
            forall|k: u64| #[trigger] with_key.requires((&k,)),
        ensures
            exists|keys: Seq<u64>| #[trigger] self.lists(keys) && keys.len() == r@.len() && forall|i: int|
                0 <= i < r@.len() ==> with_key.ensures((&keys[i],), #[trigger] r@[i]),
    {
        let mut r: Vec<T> = Vec::new();
        let ghost mut keys: Seq<u64> = Seq::empty();
        let mut i: usize = 0;
        while i < self.buckets.len()
            invariant
                i <= self.buckets@.len(),
                self.wf(),
                forall|k: u64| #[trigger] with_key.requires((&k,)),
                keys.len() == r@.len(),
                keys.no_duplicates(),
                forall|j: int| 0 <= j < r@.len() ==> with_key.ensures((&keys[j],), #[trigger] r@[j]),
                forall|k: u64| #[trigger]
                    keys.contains(k) <==> exists|x: int| x < i && #[trigger] self.live_at(x, k),
            decreases self.buckets@.len() - i,
        {
            let ghost keys0 = keys;
            match &self.buckets[i] {
                Some(bucket) => {
                    if bucket.maybe_value.is_some() {
                        proof {
                            assert(self.live_at(i as int, bucket.key));
                            if keys.contains(bucket.key) {
                                let x = choose|x: int| x < i && #[trigger] self.live_at(x, bucket.key);
                                assert(self.buckets@[x] is Some && self.buckets@[i as int] is Some);
                            }
                            keys = keys.push(bucket.key);
                            assert(keys[keys0.len() as int] == bucket.key);
                        }
                        r.push(with_key(&bucket.key));
                    }
                },
                None => {},
            }
            proof {
                assert forall|k: u64| #[trigger] keys.contains(k) <==> exists|x: int|
                    x < i + 1 && #[trigger] self.live_at(x, k) by {
                    if keys.contains(k) {
                        let j = choose|j: int| 0 <= j < keys.len() && keys[j] == k;
                        if j < keys0.len() {
                            assert(keys0[j] == k);
                            assert(keys0.contains(k));
                            let x = choose|x: int| x < i && #[trigger] self.live_at(x, k);
                            assert(self.live_at(x, k));
                        } else {
                            assert(self.live_at(i as int, k));
                        }
                    }
                    if exists|x: int| x < i + 1 && #[trigger] self.live_at(x, k) {
                        let x = choose|x: int| x < i + 1 && #[trigger] self.live_at(x, k);
                        if x < i {
                            assert(keys0.contains(k));
                            let j = choose|j: int| 0 <= j < keys0.len() && keys0[j] == k;
                            assert(keys[j] == k);
                        } else {
                            assert(x == i);
                            assert(keys[keys0.len() as int] == k);
                        }
                    }
                }
            }
            i = i + 1;
        }
        proof {
            assert(self.lists(keys)) by {
                assert forall|k: u64| #[trigger] keys.contains(k) <==> self@.dom().contains(k) by {
                    if keys.contains(k) {
                        let x = choose|x: int| x < i && #[trigger] self.live_at(x, k);
                        assert(self.has_live(k));
                    }
                    if self@.dom().contains(k) {
                        let x = choose|x: int| #[trigger] self.live_at(x, k);
                        assert(x < i);
                        assert(keys.contains(k));
                    }
                }
            }
        }
        r
    }

    /// These are the keys of the table, each once.
    pub open spec fn lists(&self, keys: Seq<u64>) -> bool {
        &&& keys.no_duplicates()
        &&& forall|k: u64| #[trigger] keys.contains(k) <==> self@.dom().contains(k)
    }
}

/// A table without keys has no bucket with a value.
proof fn lemma_fresh<V>(a: BucketArray<V>)
    requires
        a.used() == 0,
    ensures
        a.live() == 0,
{
    lemma_counts(a.buckets@);
}

/// A bucket that is not empty holds a value or is a tombstone.
proof fn lemma_counts<V>(s: Seq<Option<Bucket<V>>>)
    ensures
        count_where(s, is_full()) == count_where(s, is_live()) + count_where(s, is_grave()),
        count_where(s, is_live()) >= 0,
        count_where(s, is_grave()) >= 0,
    decreases s.len(),
{
    if s.len() > 0 {
        lemma_counts(s.drop_last());
    }
}

/// In a table without tombstones, a bucket that holds a key has its value.
proof fn lemma_no_graves<V>(a: BucketArray<V>, i: int, key: u64)
    requires
        a.wf(),
        a.spec_tombstones() == 0,
        0 <= i < a.buckets@.len(),
        a.buckets@[i] is Some,
        a.buckets@[i]->0.key == key,
    ensures
        a@.dom().contains(key),
{
    if a.buckets@[i]->0.maybe_value is None {
        let s = a.buckets@;
        lemma_count_update(s, is_grave(), i, None);
        lemma_count_bound(s.update(i, None), is_grave());
    }
    assert(a.live_at(i, key));
    a.lemma_live(i, key);
}

proof fn lemma_no_graves_after<V>(a: BucketArray<V>, before: BucketArray<V>)
    requires
        a.wf(),
        before.wf(),
        before.spec_tombstones() == 0,
        before.used() == before.live(),
        a.live() == before.live() + 1,
        a.used() == before.used() + 1,
    ensures
        a.spec_tombstones() == 0,
{
    lemma_counts(a.buckets@);
}

/// A table grows exactly when it has more values than it is meant for. Else it is laid out anew exactly
/// when a fifth of what it is meant for, or more, is tombstones: in half as many buckets if no more than a
/// quarter has values and there are more than 128 buckets, and in as many if not.
pub proof fn table_is_laid_out_for_its_values(cap: int, tombstone_count: int, len: int)
    ensures
        RehashOp::spec_new(cap, tombstone_count, len) is Expand <==> len > cap,
        RehashOp::spec_new(cap, tombstone_count, len) is Skip <==> len <= cap && 5 * tombstone_count < cap,
        RehashOp::spec_new(cap, tombstone_count, len) is Shrink <==> len <= cap && 5 * tombstone_count >= cap
            && 4 * len <= cap && cap > 64,
{
}

/// However many values a table has, there is room for them, and more than as much again, once it is laid
/// out anew, if it was meant for half as many values as it has buckets.
pub proof fn new_layout_has_room<V>(n: int, tombstone_count: int, len: int)
    requires
        n >= 2,
        0 <= len <= n / 2 + 1,
    ensures
        ({
            let op = RehashOp::spec_new(n / 2, tombstone_count, len);
            let after = BucketArray::<V>::length_after(n, op);
            &&& after > len || n == 2
            &&& op is Expand ==> after == 2 * n && len <= after / 2
            &&& op is Shrink ==> n / 2 <= after <= n / 2 + 1 && after % 2 == 0 && 2 * len <= after
            &&& op is GcOnly || op is Skip ==> after == n && len <= n / 2
        }),
{
}

/// From the bucket that a hash gives on, every bucket is looked at once before any is looked at again.
pub proof fn all_buckets_are_looked_at(hash: u64, i: int, j: int, n: int)
    requires
        0 <= i < j < n,
    ensures
        0 <= probe(hash, i, n) < n,
        probe(hash, i, n) != probe(hash, j, n),
        probe(hash, 0, n) == hash as int % n,
        probe(hash, i + 1, n) == if probe(hash, i, n) == n - 1 { 0 } else { probe(hash, i, n) + 1 },
{
    let a = hash as int + i;
    let b = hash as int + j;
    lemma_fundamental_div_mod(a, n);
    lemma_fundamental_div_mod(b, n);
    vstd::arithmetic::div_mod::lemma_mod_bound(a, n);
    if a % n == b % n {
        assert(b - a == n * (b / n) - n * (a / n));
        assert(n * (b / n) - n * (a / n) == n * (b / n - a / n)) by (nonlinear_arith);
        let d = b / n - a / n;
        assert(0 < n * d < n);
        assert(false) by (nonlinear_arith)
            requires
                0 < n * d < n,
                n > 0,
        ;
    }
    if a % n == n - 1 {
        assert(a + 1 == n * (a / n + 1) + 0) by (nonlinear_arith)
            requires
                a == n * (a / n) + n - 1,
        ;
        lemma_fundamental_div_mod_converse(a + 1, n, a / n + 1, 0);
    } else {
        assert(n * (a / n) == (a / n) * n) by (nonlinear_arith);
        lemma_fundamental_div_mod_converse(a + 1, n, a / n, a % n + 1);
    }
}

} // verus!
