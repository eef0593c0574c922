//! A cache that is parted into segments.
use std::time::Duration;

use vstd::arithmetic::power2::{lemma_pow2_adds, lemma_pow2_pos, pow2};
use vstd::bits::lemma_u64_shr_is_div;
use vstd::prelude::*;

use super::cache::{
    is_fresh_sketch, sketch_capacity_for, Cache, READ_LOG_SIZE, WRITE_LOG_SIZE,
};
use super::ConcurrentCacheExt;
use crate::common::base_cache::state::{QueueState, READ_LOG_FLUSH_POINT, WRITE_LOG_FLUSH_POINT};
use crate::common::concurrent::deques::Queues;
use crate::common::frequency_sketch::SketchState;
use crate::common::math::{is_next_power_of_two, next_power_of_two_exponent};
use crate::common::time::Instant;

verus! {

/// Two to the power of 64.
pub const HASHES: u128 = 0x1_0000_0000_0000_0000;

/// The segment of a hash, among `count` segments: each has an equal share of the hashes.
pub open spec fn segment_of(hash: u64, count: int) -> int {
    hash as int * count / HASHES as int
}

/// A cache that is parted into segments by the hashes of the keys.
pub struct SegmentedCache<V> {
    desired_capacity: usize,
    segments: Vec<Cache<V>>,
    segment_shift: u32,
}

impl<V> SegmentedCache<V> {
    /// The segments.
    pub closed spec fn view(&self) -> Seq<QueueState<V, SketchState>> {
        self.segments@.map_values(|c: Cache<V>| c@)
    }

    /// The capacity that was asked for.
    pub closed spec fn spec_capacity(&self) -> usize {
        self.desired_capacity
    }

    /// The number of segments is a power of two, and a hash is shifted to leave the number of
    /// its segment.
    pub closed spec fn wf(&self) -> bool {
        &&& 1 <= self.segment_shift <= 64
        &&& self.segments@.len() == pow2((64 - self.segment_shift) as nat)
        &&& forall|i: int| 0 <= i < self.segments@.len() ==> (#[trigger] self.segments@[i]).wf()
    }

    /// A cache of up to `capacity` entries, which do not expire, in at least `num_segments`
    /// segments.
    pub fn new(capacity: usize, num_segments: usize) -> (r: Self)
        requires
            0 < num_segments <= 0x8000_0000_0000_0000,
        ensures
            r.wf(),
            r.is_empty_cache(capacity, num_segments, None, None),
    {
        Self::with_everything(capacity, num_segments, None, None)
    }

    /// The cache holds nothing, and is of these settings. The number of segments is the next
    /// power of two, and each has an equal share of the capacity.
    pub open spec fn is_empty_cache(
        &self,
        capacity: usize,
        num_segments: usize,
        time_to_live: Option<Duration>,
        time_to_idle: Option<Duration>,
    ) -> bool {
        &&& self.spec_capacity() == capacity
        &&& is_next_power_of_two(num_segments as int, self@.len() as int)
        &&& forall|i: int|
            0 <= i < self@.len() ==> {
                let s = #[trigger] self@[i];
                &&& s.cache.dom() == Set::<u64>::empty()
                &&& s.entries.dom() == Set::<usize>::empty()
                &&& s.queues == Queues::empty()
                &&& s.reads.len() == 0
                &&& s.writes.len() == 0
                &&& s.max_capacity == capacity as int / self@.len() as int
                &&& is_fresh_sketch(s.sketch, sketch_capacity_for(s.max_capacity))
                &&& s.read_log_size == READ_LOG_SIZE
                &&& s.write_log_size == WRITE_LOG_SIZE
                &&& s.time_to_live == time_to_live
                &&& s.time_to_idle == time_to_idle
            }
    }

    pub fn with_everything(
        capacity: usize,
        num_segments: usize,
        time_to_live: Option<Duration>,
        time_to_idle: Option<Duration>,
    ) -> (r: Self)
        requires
            0 < num_segments <= 0x8000_0000_0000_0000,
        ensures
            r.wf(),
            r.is_empty_cache(capacity, num_segments, time_to_live, time_to_idle),
    {
        let exponent: u32 = next_power_of_two_exponent(num_segments as u64);
        let actual_num_segments: u64 = power_of_two(exponent);
        let segment_shift: u32 = 64 - exponent;
        let seg_capacity: usize = (capacity as u64 / actual_num_segments) as usize;
        let mut segments: Vec<Cache<V>> = Vec::new();
        let mut i: u64 = 0;
        while i < actual_num_segments
            invariant
                i <= actual_num_segments,
                segments@.len() == i,
                forall|j: int|
                    0 <= j < i ==> (#[trigger] segments@[j]).wf() && segments@[j].is_empty_cache(
                        seg_capacity,
                        time_to_live,
                        time_to_idle,
                    ),
            decreases actual_num_segments - i,
        {
            segments.push(Cache::with_everything(seg_capacity, time_to_live, time_to_idle));
            i = i + 1;
        }
        let r = SegmentedCache { desired_capacity: capacity, segments, segment_shift };
        proof {
            assert forall|j: int| 0 <= j < r@.len() implies #[trigger] r@[j] == segments@[j]@
                && segments@[j].is_empty_cache(seg_capacity, time_to_live, time_to_idle) by {
                assert(segments@[j].wf());
            }
        }
        r
    }

    /// The number of the segment of a hash.
    fn segment_index_from_hash(&self, hash: u64) -> (r: usize)
        requires
            self.wf(),
        ensures
            r == segment_of(hash, self@.len() as int),
            r < self@.len(),
    {
        let bound: usize = self.segments.len();
        let r: usize = if self.segment_shift == 64 {
            proof {
                lemma_pow2_zero();
                assert(hash as int * 1 / 0x1_0000_0000_0000_0000 == 0);
            }
            0
        } else {
            let shift: u64 = self.segment_shift as u64;
            proof {
                let n = self.segments@.len() as int;
                let k = (64 - shift) as nat;
                lemma_u64_shr_is_div(hash, shift);
                lemma_pow2_adds(k, shift as nat);
                lemma_pow2_zero();
                lemma_pow2_pos(shift as nat);
                lemma_share(hash as int, n, pow2(shift as nat) as int);
            }
            (hash >> shift) as usize
        };
        r
    }

    /// Reads the value of a key, and logs the read, unless the log is full.
    pub fn get(&mut self, key: u64, hash: u64, now: Instant) -> (r: Option<&V>)
        requires
            old(self).wf(),
        ensures
            final(self).wf(),
            final(self).spec_capacity() == old(self).spec_capacity(),
            ({
                let i = segment_of(hash, old(self)@.len() as int);
                let s = old(self)@[i];
                &&& 0 <= i < old(self)@.len()
                &&& match s.lookup(key, now) {
                    Some(v) => r == Some(&v),
                    None => r is None,
                }
                &&& final(self)@ == old(self)@.update(
                    i,
                    s.read_at(key, hash, now),
                )
            }),
    {
        let index: usize = self.segment_index_from_hash(hash);
        let ghost segments0 = self.segments@;
        let segment = &mut self.segments[index];
        let ghost after = *final(segment);
        let r = segment.get_with_hash(key, hash, now);
        proof {
            assert(segments0.update(index as int, after).map_values(|c: Cache<V>| c@)
                =~= segments0.map_values(|c: Cache<V>| c@).update(index as int, after@));
        }
        r
    }

    /// Gives a key a value, logs the write, and returns the value. When the log of its segment
    /// is full, housekeeping is done there first.
    pub fn insert(&mut self, key: u64, hash: u64, value: V, now: Instant) -> (r: &V)
        requires
            old(self).wf(),
        ensures
            *r == value,
            final(self).wf(),
            final(self).spec_capacity() == old(self).spec_capacity(),
            ({
                let i = segment_of(hash, old(self)@.len() as int);
                &&& 0 <= i < old(self)@.len()
                &&& final(self)@ == old(self)@.update(i, final(self)@[i])
                &&& old(self)@[i].with_room(now).put(
                    final(self)@[i],
                    key,
                    hash,
                    value,
                    old(self)@[i].time_at(now),
                )
            }),
    {
        let index: usize = self.segment_index_from_hash(hash);
        let ghost segments0 = self.segments@;
        let segment = &mut self.segments[index];
        let ghost after = *final(segment);
        let r = segment.insert_with_hash(key, hash, value, now);
        proof {
            assert(segments0.update(index as int, after).map_values(|c: Cache<V>| c@)
                =~= segments0.map_values(|c: Cache<V>| c@).update(index as int, after@));
        }
        r
    }

    /// Takes the value of a key away, and returns it. When the log of its segment is full,
    /// housekeeping is done there first.
    pub fn remove(&mut self, key: u64, hash: u64, now: Instant) -> (r: Option<&V>)
        requires
            old(self).wf(),
        ensures
            final(self).wf(),
            final(self).spec_capacity() == old(self).spec_capacity(),
            ({
                let i = segment_of(hash, old(self)@.len() as int);
                let s = old(self)@[i].with_room(now);
                &&& 0 <= i < old(self)@.len()
                &&& match s.find(key) {
                    Some(e) => r == Some(&s.entries[e].value),
                    None => r is None,
                }
                &&& final(self)@ == old(self)@.update(i, s.taken(key))
            }),
    {
        let index: usize = self.segment_index_from_hash(hash);
        let ghost segments0 = self.segments@;
        let segment = &mut self.segments[index];
        let ghost after = *final(segment);
        let r = segment.remove(key, now);
        proof {
            assert(segments0.update(index as int, after).map_values(|c: Cache<V>| c@)
                =~= segments0.map_values(|c: Cache<V>| c@).update(index as int, after@));
        }
        r
    }

    /// The value that a key has in the hash table, be it expired or not.
    pub fn peek(&self, key: u64, hash: u64) -> (r: Option<&V>)
        requires
            self.wf(),
        ensures
            ({
                let s = self@[segment_of(hash, self@.len() as int)];
                match s.find(key) {
                    Some(e) => r == Some(&s.entries[e].value),
                    None => r is None,
                }
            }),
    {
        let index: usize = self.segment_index_from_hash(hash);
        self.segments[index].peek(key)
    }

    /// Whether housekeeping is due in the segment of a hash.
    pub fn is_sync_due(&self, hash: u64) -> (r: bool)
        requires
            self.wf(),
        ensures
            ({
                let s = self@[segment_of(hash, self@.len() as int)];
                r == (s.reads.len() >= READ_LOG_FLUSH_POINT || s.writes.len() >= WRITE_LOG_FLUSH_POINT)
            }),
    {
        let index: usize = self.segment_index_from_hash(hash);
        self.segments[index].should_apply_reads() || self.segments[index].should_apply_writes()
    }

    /// The capacity that was asked for.
    pub fn capacity(&self) -> (r: usize)
        ensures
            r == self.spec_capacity(),
    {
        self.desired_capacity
    }

    pub fn time_to_live(&self) -> (r: Option<Duration>)
        requires
            self.wf(),
        ensures
            r == self@[0].time_to_live,
    {
        proof {
            lemma_pow2_pos((64 - self.segment_shift) as nat);
        }
        self.segments[0].time_to_live()
    }

    pub fn time_to_idle(&self) -> (r: Option<Duration>)
        requires
            self.wf(),
        ensures
            r == self@[0].time_to_idle,
    {
        proof {
            lemma_pow2_pos((64 - self.segment_shift) as nat);
        }
        self.segments[0].time_to_idle()
    }

    /// The number of segments.
    pub fn num_segments(&self) -> (r: usize)
        ensures
            r == self@.len(),
    {
        self.segments.len()
    }
}

impl<V> ConcurrentCacheExt for SegmentedCache<V> {
    open spec fn in_order(&self) -> bool {
        self.wf()
    }

    open spec fn is_synced_from(&self, before: &Self, now: Instant) -> bool {
        &&& self.spec_capacity() == before.spec_capacity()
        &&& self@ == before@.map_values(|s: QueueState<V, SketchState>| s.synced(now))
    }

    fn sync(&mut self, now: Instant) {
        let n: usize = self.segments.len();
        let mut i: usize = 0;
        while i < n
            invariant
                i <= n,
                n == self.segments@.len(),
                self.wf(),
                old(self).wf(),
                self.segment_shift == old(self).segment_shift,
                self.desired_capacity == old(self).desired_capacity,
                n == old(self).segments@.len(),
                forall|j: int| 0 <= j < i ==> (#[trigger] self.segments@[j])@ == old(self).segments@[j]@.synced(now),
                forall|j: int| i <= j < n ==> #[trigger] self.segments@[j] == old(self).segments@[j],
            decreases n - i,
        {
            self.segments[i].sync(now);
            i = i + 1;
        }
        proof {
            assert(self@ =~= old(self)@.map_values(|s: QueueState<V, SketchState>| s.synced(now)));
        }
    }
}

/// The hashes are shared in order: of two hashes, the larger is not in an earlier segment.
pub proof fn segments_are_in_order(a: u64, b: u64, count: int)
    requires
        a <= b,
        0 < count,
    ensures
        0 <= segment_of(a, count) <= segment_of(b, count) < count,
{
    let h = HASHES as int;
    assert(a as int * count <= b as int * count < h * count && 0 <= a as int * count)
        by (nonlinear_arith)
        requires
            a <= b < h,
            0 < count,
    ;
    assert(a as int * count / h <= b as int * count / h) by {
        vstd::arithmetic::div_mod::lemma_div_is_ordered(a as int * count, b as int * count, h);
    }
    assert(b as int * count / h < count) by (nonlinear_arith)
        requires
            0 <= b as int * count < h * count,
            h > 0,
    ;
}

proof fn lemma_pow2_zero()
    ensures
        pow2(0) == 1,
        pow2(64) == HASHES,
{
    vstd::arithmetic::power2::lemma2_to64();
}

/// Two to the power of `exponent`.
fn power_of_two(exponent: u32) -> (r: u64)
    requires
        exponent <= 63,
    ensures
        r == pow2(exponent as nat),
{
    let mut p: u64 = 1;
    let mut k: u32 = 0;
    proof {
        lemma_pow2_zero();
    }
    while k < exponent
        invariant
            k <= exponent <= 63,
            p == pow2(k as nat),
        decreases exponent - k,
    {
        proof {
            vstd::arithmetic::power2::lemma_pow2_unfold((k + 1) as nat);
            vstd::arithmetic::power2::lemma2_to64_rest();
            if k + 1 < 63 {
                vstd::arithmetic::power2::lemma_pow2_strictly_increases((k + 1) as nat, 63);
            }
        }
        p = p * 2;
        k = k + 1;
    }
    p
}

/// Cutting the low part off is the same as taking the share.
proof fn lemma_share(hash: int, count: int, span: int)
    requires
        0 <= hash < HASHES,
        0 < count,
        0 < span,
        count * span == HASHES,
    ensures
        hash / span == hash * count / HASHES as int,
        hash / span < count,
{
    assert(hash * count / (span * count) == hash / span) by {
        vstd::arithmetic::div_mod::lemma_div_multiples_vanish_quotient(count, hash, span);
        assert(count * hash == hash * count) by (nonlinear_arith);
        assert(count * span == span * count) by (nonlinear_arith);
    }
    assert(span * count == count * span) by (nonlinear_arith);
    assert(hash / span < count) by (nonlinear_arith)
        requires
            0 <= hash < count * span,
            0 < span,
    ;
}

/// Every segment is used, each by an equal share of the hashes: of `count` segments, a power of two, the
/// `i`-th has the hashes from `i` times the share on, up to the next.
pub proof fn segments_share_the_hashes(hash: u64, exponent: nat, i: int)
    requires
        exponent <= 64,
        0 <= i < pow2(exponent),
    ensures
        ({
            let count = pow2(exponent) as int;
            let share = 0x1_0000_0000_0000_0000int / count;
            &&& count * share == 0x1_0000_0000_0000_0000
            &&& segment_of(hash, count) == i <==> i * share <= hash < (i + 1) * share
        }),
{
    let count = pow2(exponent) as int;
    let rest = (64 - exponent) as nat;
    let span = pow2(rest) as int;
    lemma_pow2_zero();
    lemma_pow2_pos(exponent);
    lemma_pow2_pos(rest);
    lemma_pow2_adds(exponent, rest);
    assert(count * span == 0x1_0000_0000_0000_0000);
    assert(0x1_0000_0000_0000_0000int / count == span) by (nonlinear_arith)
        requires
            count > 0,
            count * span == 0x1_0000_0000_0000_0000,
    ;
    lemma_share(hash as int, count, span);
    assert(hash as int / span == i <==> i * span <= hash < (i + 1) * span) by {
        let h = hash as int;
        vstd::arithmetic::div_mod::lemma_fundamental_div_mod(h, span);
        let d = h / span;
        let m = h % span;
        assert(h == span * d + m);
        assert(0 <= m < span);
        if d == i {
            assert(i * span <= h < (i + 1) * span) by (nonlinear_arith)
                requires
                    h == span * i + m,
                    0 <= m < span,
            ;
        }
        if i * span <= h < (i + 1) * span {
            assert(d == i) by (nonlinear_arith)
                requires
                    h == span * d + m,
                    0 <= m < span,
                    i * span <= h < (i + 1) * span,
            ;
        }
    }
}

/// The capacity is shared by the segments: all together may hold as much as was asked for, but for less
/// than one entry of each.
pub proof fn segments_share_the_capacity<V>(
    cache: SegmentedCache<V>,
    capacity: usize,
    num_segments: usize,
    time_to_live: Option<Duration>,
    time_to_idle: Option<Duration>,
    i: int,
)
    requires
        0 < num_segments,
        cache.is_empty_cache(capacity, num_segments, time_to_live, time_to_idle),
        0 <= i < cache@.len(),
    ensures
        num_segments <= cache@.len() < 2 * num_segments,
        cache@.len() * cache@[i].max_capacity <= capacity < cache@.len() * (cache@[i].max_capacity + 1),
        cache@[i].time_to_live == time_to_live,
        cache@[i].time_to_idle == time_to_idle,
{
    let n = cache@.len() as int;
    let s = cache@[i];
    let k = choose|k: nat|
        n == #[trigger] pow2(k) && num_segments <= n && (k > 0 ==> pow2((k - 1) as nat) < num_segments);
    if k > 0 {
        vstd::arithmetic::power2::lemma_pow2_unfold(k);
    } else {
        lemma_pow2_zero();
    }
    let c = capacity as int;
    vstd::arithmetic::div_mod::lemma_fundamental_div_mod(c, n);
    assert(s.max_capacity == c / n);
    assert(n * (c / n + 1) == n * (c / n) + n) by (nonlinear_arith);
}

/// What is done with a key in one segment leaves the other segments as they were: keys of different
/// segments do not meet.
pub proof fn keys_of_other_segments_stay<V>(
    before: Seq<QueueState<V, SketchState>>,
    after: QueueState<V, SketchState>,
    hash: u64,
    other: u64,
)
    requires
        0 < before.len(),
        segment_of(hash, before.len() as int) != segment_of(other, before.len() as int),
    ensures
        ({
            let n = before.len() as int;
            before.update(segment_of(hash, n), after)[segment_of(other, n)] == before[segment_of(other, n)]
        }),
{
    segments_are_in_order(hash, hash, before.len() as int);
    segments_are_in_order(other, other, before.len() as int);
}

} // verus!
