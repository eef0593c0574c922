//! What holds of every timer wheel, however it is used.
use vstd::arithmetic::div_mod::lemma_div_denominator;
use vstd::prelude::*;

use crate::common::concurrent::ValueEntry;
use crate::common::time::Instant;
use crate::common::timer_wheel::{
    bucket_count, index_for, level_for, nanos_since, next_event, one_sentinel, sentinel_at, span, starting_run, ticks, turned,
    without_timer,
    IterState, TimerEvent, TimerWheel, WheelState, LEVELS,
};

verus! {

/// The expiration time of an entry.
pub type Expirations = Map<usize, Option<Instant>>;

/// A timer for `time` may stand in the bucket when the wheel was last advanced to
/// `current`: the bucket is the one for that time, is not behind the wheel, and comes
/// round in time.
pub open spec fn placed(origin: Instant, current: Instant, level: int, index: int, time: Instant) -> bool {
    let ahead = ticks(origin, time, level) - ticks(origin, current, level);
    &&& index == index_for(origin, time, level)
    &&& 0 <= ahead
    &&& level > 0 ==> 0 < ahead
    &&& level < LEVELS - 1 ==> ahead <= bucket_count(level)
}

/// Every timer of the wheel may stand where it stands.
pub open spec fn all_placed(w: WheelState, expirations: Expirations) -> bool {
    forall|l: int, i: int, k: int|
        0 <= l < LEVELS && 0 <= i < bucket_count(l) && 0 <= k < w.buckets[l][i].len() && (
        #[trigger] w.buckets[l][i][k]) is Some ==> {
            let t = expirations[w.buckets[l][i][k]->0];
            t is Some && placed(w.origin, w.current, l, i, t->0)
        }
}

/// Every timer of the wheel may stand where it stands, or is late: it is for a time that is not
/// after the one to which the wheel was last advanced.
pub open spec fn all_placed_or_late(w: WheelState, expirations: Expirations) -> bool {
    forall|l: int, i: int, k: int|
        w.has_place(l, i, k) && (#[trigger] w.buckets[l][i][k]) is Some ==> {
            let t = expirations[w.buckets[l][i][k]->0];
            &&& t is Some
            &&& t->0.nanos <= w.current.nanos || placed(w.origin, w.current, l, i, t->0)
        }
}

/// Every timer of the wheel is for a time after `now`.
pub open spec fn all_after(w: WheelState, expirations: Expirations, now: Instant) -> bool {
    forall|l: int, i: int, k: int|
        0 <= l < LEVELS && 0 <= i < bucket_count(l) && 0 <= k < w.buckets[l][i].len() && (
        #[trigger] w.buckets[l][i][k]) is Some ==> {
            let t = expirations[w.buckets[l][i][k]->0];
            t is Some && t->0.nanos > now.nanos
        }
}

/// Each bucket of the wheel has its sentinel.
pub open spec fn all_sentinels(w: WheelState) -> bool {
    forall|l: int, i: int|
        0 <= l < LEVELS && 0 <= i < bucket_count(l) ==> one_sentinel(#[trigger] w.buckets[l][i])
}

/// The wheel and the run after `n` events.
pub open spec fn after_events(
    w: WheelState,
    it: IterState,
    expirations: Expirations,
    n: nat,
) -> (WheelState, IterState)
    decreases n,
{
    if n == 0 {
        (w, it)
    } else {
        let (w1, it1, event) = next_event(w, it, expirations);
        after_events(w1, it1, expirations, (n - 1) as nat)
    }
}

/// An entry waits somewhere in the wheel.
pub open spec fn waits(w: WheelState, e: usize) -> bool {
    exists|l: int, i: int|
        0 <= l < LEVELS && 0 <= i < bucket_count(l) && #[trigger] w.waits_in(e, l, i)
}

/// A timer is put where it may stand.
pub proof fn scheduling_places(w: WheelState, time: Instant)
    requires
        w.origin.nanos <= w.current.nanos <= time.nanos,
    ensures
        0 <= w.bucket_for(time).0 < LEVELS,
        0 <= w.bucket_for(time).1 < bucket_count(w.bucket_for(time).0),
        placed(w.origin, w.current, w.bucket_for(time).0, w.bucket_for(time).1, time),
{
    let a = nanos_since(w.origin, w.current);
    let b = nanos_since(w.origin, time);
    let d = nanos_since(w.current, time);
    assert(b == a + d);
    if d < span(1) {
        lemma_ticks_ahead(a, d, 0);
    } else if d < span(2) {
        lemma_ticks_ahead(a, d, 1);
    } else if d < span(3) {
        lemma_ticks_ahead(a, d, 2);
    } else if d < span(4) {
        lemma_ticks_ahead(a, d, 3);
    } else {
        lemma_ticks_ahead(a, d, 4);
    }
}

proof fn lemma_ticks_ahead(a: int, d: int, level: int)
    requires
        0 <= a,
        0 <= d,
        0 <= level < LEVELS,
        level > 0 ==> span(level) <= d,
        level < LEVELS - 1 ==> d < span(level + 1),
    ensures
        a / span(level) <= (a + d) / span(level),
        level > 0 ==> a / span(level) < (a + d) / span(level),
        level < LEVELS - 1 ==> (a + d) / span(level) - a / span(level) <= bucket_count(level),
        level == 4 ==> ((a + d) / span(level)) % 1 == 0,
{
    if level == 0 {
    } else if level == 1 {
    } else if level == 2 {
    } else if level == 3 {
    } else {
    }
}

/// Whether a timer has been dealt with in this run: it is for a time after now, and stands
/// where it may stand from now on.
spec fn settled(w: WheelState, it: IterState, l: int, i: int, t: Instant) -> bool {
    &&& t.nanos > it.current_time.nanos
    &&& placed(w.origin, it.current_time, l, i, t)
}

/// Whether a timer is where the run may still find it.
spec fn pending(w: WheelState, it: IterState, l: int, i: int, t: Instant) -> bool {
    placed(w.origin, it.previous_time, l, i, t) || settled(w, it, l, i, t)
}

/// How many buckets after the first one of the level a bucket is visited.
spec fn visit_offset(w: WheelState, it: IterState, i: int) -> int {
    (i - ticks(w.origin, it.previous_time, it.level) % bucket_count(it.level)) % bucket_count(it.level)
}

/// The number of buckets of the level that the run has left behind.
spec fn visited(w: WheelState, it: IterState) -> int {
    it.index - ticks(w.origin, it.previous_time, it.level) % bucket_count(it.level)
}

spec fn run_ok_at(
    w: WheelState,
    it: IterState,
    expirations: Expirations,
    late: bool,
    l: int,
    i: int,
    k: int,
) -> bool {
    let t = expirations[w.buckets[l][i][k]->0];
    &&& t is Some
    &&& late && t->0.nanos <= it.previous_time.nanos || if it.is_done {
        &&& placed(w.origin, it.current_time, l, i, t->0)
        &&& ticks(w.origin, it.current_time, 0) > ticks(w.origin, it.previous_time, 0)
            ==> t->0.nanos > it.current_time.nanos
    } else if l < it.level {
        settled(w, it, l, i, t->0)
    } else if l > it.level || it.is_new_level {
        pending(w, it, l, i, t->0)
    } else if visit_offset(w, it, i) < visited(w, it) {
        settled(w, it, l, i, t->0)
    } else if i == it.bucket() && !it.is_new_index && k > sentinel_at(w.buckets[l][i]) {
        settled(w, it, l, i, t->0)
    } else {
        pending(w, it, l, i, t->0)
    }
}

/// What holds of a run at every point, whatever waits in the wheel.
spec fn run_shaped(w: WheelState, it: IterState) -> bool {
    let p = ticks(w.origin, it.previous_time, it.level);
    let c = ticks(w.origin, it.current_time, it.level);
    let count = bucket_count(it.level);
    &&& w.shaped()
    &&& all_sentinels(w)
    &&& w.current == it.current_time
    &&& w.origin.nanos <= it.previous_time.nanos <= it.current_time.nanos
    &&& 0 <= it.level
    &&& !it.is_done ==> it.level < LEVELS
    &&& !it.is_done && !it.is_new_level ==> {
        &&& p < c
        &&& p % count <= it.index < it.end_index
        &&& it.end_index == p % count + if c - p + 1 < count {
            c - p + 1
        } else {
            count
        }
    }
}

/// What holds at every point of a run over the events.
spec fn run_ok(w: WheelState, it: IterState, expirations: Expirations, late: bool) -> bool {
    &&& run_shaped(w, it)
    &&& !it.is_done && it.level > 0 ==> ticks(w.origin, it.current_time, it.level - 1) > ticks(
        w.origin,
        it.previous_time,
        it.level - 1,
    )
    &&& forall|l: int, i: int, k: int|
        0 <= l < LEVELS && 0 <= i < bucket_count(l) && 0 <= k < w.buckets[l][i].len() && (
        #[trigger] w.buckets[l][i][k]) is Some ==> run_ok_at(w, it, expirations, late, l, i, k)
}

proof fn lemma_ticks_mono(origin: Instant, a: Instant, b: Instant, level: int)
    requires
        a.nanos <= b.nanos,
    ensures
        ticks(origin, a, level) <= ticks(origin, b, level),
{
}

proof fn lemma_div_step(x: int, level: int)
    requires
        0 <= x,
        0 <= level < LEVELS - 1,
    ensures
        x / span(level + 1) == (x / span(level)) / bucket_count(level),
{
    lemma_div_denominator(x, span(level), bucket_count(level));
    assert(span(level) * bucket_count(level) == span(level + 1));
}

/// Where the wheel did not move at a level, it did not move at a higher one.
proof fn lemma_ticks_coarser(origin: Instant, a: Instant, b: Instant, level: int, higher: int)
    requires
        0 <= level <= higher < LEVELS,
        ticks(origin, a, level) == ticks(origin, b, level),
    ensures
        ticks(origin, a, higher) == ticks(origin, b, higher),
    decreases higher - level,
{
    if level < higher {
        lemma_div_step(nanos_since(origin, a), level);
        lemma_div_step(nanos_since(origin, b), level);
        lemma_ticks_coarser(origin, a, b, level + 1, higher);
    }
}

/// The visiting order of the buckets of a level.
proof fn lemma_visit_order(start: int, index: int, count: int)
    requires
        count == 64 || count == 32 || count == 4 || count == 1,
        0 <= start < count,
        start <= index < start + count,
    ensures
        0 <= index % count < count,
        (index % count - start) % count == index - start,
        forall|i: int|
            0 <= i < count && #[trigger] ((i - start) % count) == index - start ==> i == index % count,
        forall|i: int| 0 <= i < count ==> 0 <= #[trigger] ((i - start) % count) < count,
{
}

/// A timer in a bucket that the run leaves out is for a later tick.
proof fn lemma_left_out(p: int, c: int, tau: int, count: int)
    requires
        count == 64 || count == 32 || count == 4 || count == 1,
        0 <= p < c,
        p <= tau,
        tau - p <= count,
        ({
            let passed = c - p + 1;
            (tau % count - p % count) % count >= if passed < count {
                passed
            } else {
                count
            }
        }),
    ensures
        tau > c,
{
    assert((tau % count - p % count) % count == (tau - p) % count) by {
        if count == 64 {
        } else if count == 32 {
        } else if count == 4 {
        }
    }
}

proof fn lemma_enter_shape(w: WheelState, it: IterState)
    requires
        run_shaped(w, it),
        !it.is_done,
        it.is_new_level,
    ensures
        run_shaped(w, it.entering_level(w)),
{
    assert(bucket_count(it.level) >= 1);
}

proof fn lemma_past_shape(w: WheelState, it: IterState)
    requires
        run_shaped(w, it),
        !it.is_done,
        !it.is_new_level,
    ensures
        run_shaped(w, it.past_bucket()),
{
}

proof fn lemma_enter_level(w: WheelState, it: IterState, x: Expirations, late: bool)
    requires
        run_ok(w, it, x, late),
        !it.is_done,
        it.is_new_level,
    ensures
        run_ok(w, it.entering_level(w), x, late),
{
    let it1 = it.entering_level(w);
    let p = ticks(w.origin, it.previous_time, it.level);
    let c = ticks(w.origin, it.current_time, it.level);
    let count = bucket_count(it.level);
    assert(count == 64 || count == 32 || count == 4 || count == 1);
    assert(0 <= p) by {
        lemma_ticks_mono(w.origin, w.origin, it.previous_time, it.level);
    }
    lemma_ticks_mono(w.origin, it.previous_time, it.current_time, it.level);
    assert forall|l: int, i: int, k: int|
        0 <= l < LEVELS && 0 <= i < bucket_count(l) && 0 <= k < w.buckets[l][i].len() && (
        #[trigger] w.buckets[l][i][k]) is Some implies run_ok_at(w, it1, x, late, l, i, k) by {
        assert(run_ok_at(w, it, x, late, l, i, k));
        let t = x[w.buckets[l][i][k]->0]->0;
        if c <= p {
            if l >= it.level {
                lemma_ticks_coarser(w.origin, it.previous_time, it.current_time, it.level, l);
                if t.nanos <= it.current_time.nanos {
                    lemma_ticks_mono(w.origin, t, it.current_time, l);
                }
            }
        } else {
            assert(visited(w, it1) == 0);
            lemma_visit_order(p % count, p % count, count);
        }
    }
}

/// Where the `k`-th of a turned bucket of `n` stood, when the sentinel stood at `p`.
spec fn place_before(p: int, n: int, k: int) -> int {
    if k < n - p - 1 {
        k + p + 1
    } else if k < n - 1 {
        k - (n - p - 1)
    } else {
        p
    }
}

/// Where the `j`-th of a bucket of `n` stands once the bucket is turned.
spec fn place_after(p: int, n: int, j: int) -> int {
    if j > p {
        j - p - 1
    } else if j < p {
        j + (n - p - 1)
    } else {
        n - 1
    }
}

proof fn lemma_turned(items: Seq<Option<usize>>)
    requires
        one_sentinel(items),
    ensures
        0 <= sentinel_at(items) < items.len(),
        items[sentinel_at(items)] is None,
        one_sentinel(turned(items)),
        turned(items).len() == items.len(),
        sentinel_at(turned(items)) == items.len() - 1,
        forall|k: int|
            0 <= k < items.len() ==> #[trigger] turned(items)[k] == items[place_before(
                sentinel_at(items),
                items.len() as int,
                k,
            )],
{
    let n = items.len() as int;
    let p = sentinel_at(items);
    let s = choose|i: int| 0 <= i < items.len() && (#[trigger] items[i]) is None;
    let out = turned(items);
    assert(out[n - 1] is None);
    assert forall|k: int| 0 <= k < n implies #[trigger] out[k] == items[place_before(p, n, k)] by {}
    assert forall|k: int| 0 <= k < n - 1 implies #[trigger] out[k] is Some by {
        assert(out[k] == items[place_before(p, n, k)]);
        assert(items[p] is None);
    }
}

proof fn lemma_turn_shape(w: WheelState, it: IterState)
    requires
        run_shaped(w, it),
        !it.is_done,
        !it.is_new_level,
    ensures
        run_shaped(
            w.with_bucket(it.level, it.bucket(), turned(w.buckets[it.level][it.bucket()])),
            IterState { is_new_index: false, ..it },
        ),
{
    let b = it.bucket();
    let items = w.buckets[it.level][b];
    assert(one_sentinel(items));
    lemma_turned(items);
    let w1 = w.with_bucket(it.level, b, turned(items));
    assert forall|l: int, i: int| 0 <= l < LEVELS && 0 <= i < bucket_count(l) implies one_sentinel(
        #[trigger] w1.buckets[l][i],
    ) by {
        assert(one_sentinel(w.buckets[l][i]));
    }
}

proof fn lemma_pop_shape(w: WheelState, it: IterState)
    requires
        run_shaped(w, it),
        !it.is_done,
        !it.is_new_level,
        w.buckets[it.level][it.bucket()].len() > 0,
        w.buckets[it.level][it.bucket()][0] is Some,
    ensures
        ({
            let items = w.buckets[it.level][it.bucket()];
            &&& run_shaped(w.with_bucket(it.level, it.bucket(), items.remove(0)), it)
            &&& 0 < sentinel_at(items) < items.len()
            &&& sentinel_at(items.remove(0)) == sentinel_at(items) - 1
        }),
{
    let b = it.bucket();
    let items = w.buckets[it.level][b];
    assert(one_sentinel(items));
    let left = items.remove(0);
    let w1 = w.with_bucket(it.level, b, left);
    let s = sentinel_at(items);
    assert(left[s - 1] is None);
    assert forall|i: int, j: int|
        0 <= i < left.len() && 0 <= j < left.len() && (#[trigger] left[i]) is None && (
        #[trigger] left[j]) is None implies i == j by {
        assert(items[i + 1] is None);
        assert(items[j + 1] is None);
    }
    assert(sentinel_at(left) == s - 1);
    assert forall|l: int, i: int| 0 <= l < LEVELS && 0 <= i < bucket_count(l) implies one_sentinel(
        #[trigger] w1.buckets[l][i],
    ) by {
        assert(one_sentinel(w.buckets[l][i]));
    }
}

proof fn lemma_schedule_shape(w: WheelState, it: IterState, e: usize, t: Instant)
    requires
        run_shaped(w, it),
        !it.is_done,
        t.nanos > it.current_time.nanos,
    ensures
        ({
            let (l, i) = w.bucket_for(t);
            let items = w.buckets[l][i];
            &&& run_shaped(w.scheduled(e, t), it)
            &&& 0 <= l < LEVELS
            &&& 0 <= i < bucket_count(l)
            &&& w.scheduled(e, t) == w.with_bucket(l, i, items.push(Some(e)))
            &&& 0 <= sentinel_at(items) < items.len()
            &&& sentinel_at(items.push(Some(e))) == sentinel_at(items)
        }),
{
    scheduling_places(w, t);
    let (l0, i0) = w.bucket_for(t);
    let items = w.buckets[l0][i0];
    let more = items.push(Some(e));
    let w1 = w.scheduled(e, t);
    assert(one_sentinel(items));
    let s = sentinel_at(items);
    assert(more[s] is None);
    assert forall|i: int, j: int|
        0 <= i < more.len() && 0 <= j < more.len() && (#[trigger] more[i]) is None && (
        #[trigger] more[j]) is None implies i == j by {
        assert(items[i] is None);
        assert(items[j] is None);
    }
    assert(sentinel_at(more) == s);
    assert forall|l: int, i: int| 0 <= l < LEVELS && 0 <= i < bucket_count(l) implies one_sentinel(
        #[trigger] w1.buckets[l][i],
    ) by {
        assert(one_sentinel(w.buckets[l][i]));
    }
}

proof fn lemma_turn_bucket(w: WheelState, it: IterState, x: Expirations, late: bool)
    requires
        run_ok(w, it, x, late),
        !it.is_done,
        !it.is_new_level,
        it.is_new_index,
    ensures
        run_ok(
            w.with_bucket(it.level, it.bucket(), turned(w.buckets[it.level][it.bucket()])),
            IterState { is_new_index: false, ..it },
            x,
            late,
        ),
{
    let b = it.bucket();
    let count = bucket_count(it.level);
    let start = ticks(w.origin, it.previous_time, it.level) % count;
    lemma_visit_order(start, it.index, count);
    let items = w.buckets[it.level][b];
    assert(one_sentinel(items));
    lemma_turned(items);
    let w1 = w.with_bucket(it.level, b, turned(items));
    let it1 = IterState { is_new_index: false, ..it };
    lemma_turn_shape(w, it);
    assert forall|l: int, i: int, k: int|
        0 <= l < LEVELS && 0 <= i < bucket_count(l) && 0 <= k < w1.buckets[l][i].len() && (
        #[trigger] w1.buckets[l][i][k]) is Some implies run_ok_at(w1, it1, x, late, l, i, k) by {
        if l == it.level && i == b {
            let j = place_before(sentinel_at(items), items.len() as int, k);
            assert(turned(items)[k] == items[j]);
            assert(w.buckets[l][i][j] is Some);
            assert(run_ok_at(w, it, x, late, l, i, j));
        } else {
            assert(w.buckets[l][i][k] is Some);
            assert(run_ok_at(w, it, x, late, l, i, k));
        }
    }
}

proof fn lemma_pop_front(w: WheelState, it: IterState, x: Expirations, late: bool)
    requires
        run_ok(w, it, x, late),
        !it.is_done,
        !it.is_new_level,
        !it.is_new_index,
        w.buckets[it.level][it.bucket()].len() > 0,
        w.buckets[it.level][it.bucket()][0] is Some,
    ensures
        run_ok(
            w.with_bucket(it.level, it.bucket(), w.buckets[it.level][it.bucket()].remove(0)),
            it,
            x,
            late,
        ),
        x[w.buckets[it.level][it.bucket()][0]->0] is Some,
{
    let b = it.bucket();
    let count = bucket_count(it.level);
    let start = ticks(w.origin, it.previous_time, it.level) % count;
    lemma_visit_order(start, it.index, count);
    let items = w.buckets[it.level][b];
    assert(one_sentinel(items));
    assert(w.buckets[it.level][b][0] is Some);
    assert(run_ok_at(w, it, x, late, it.level, b, 0));
    let left = items.remove(0);
    let w1 = w.with_bucket(it.level, b, left);
    lemma_pop_shape(w, it);
    assert forall|l: int, i: int, k: int|
        0 <= l < LEVELS && 0 <= i < bucket_count(l) && 0 <= k < w1.buckets[l][i].len() && (
        #[trigger] w1.buckets[l][i][k]) is Some implies run_ok_at(w1, it, x, late, l, i, k) by {
        let j = if l == it.level && i == b { k + 1 } else { k };
        assert(w1.buckets[l][i][k] == w.buckets[l][i][j]);
        assert(run_ok_at(w, it, x, late, l, i, j));
    }
}

proof fn lemma_schedule_again(w: WheelState, it: IterState, x: Expirations, late: bool, e: usize)
    requires
        run_ok(w, it, x, late),
        !it.is_done,
        x[e] is Some,
        x[e]->0.nanos > it.current_time.nanos,
    ensures
        run_ok(w.scheduled(e, x[e]->0), it, x, late),
{
    let t = x[e]->0;
    scheduling_places(w, t);
    lemma_schedule_shape(w, it, e, t);
    let (l0, i0) = w.bucket_for(t);
    let items = w.buckets[l0][i0];
    let w1 = w.scheduled(e, t);
    assert forall|l: int, i: int, k: int|
        0 <= l < LEVELS && 0 <= i < bucket_count(l) && 0 <= k < w1.buckets[l][i].len() && (
        #[trigger] w1.buckets[l][i][k]) is Some implies run_ok_at(w1, it, x, late, l, i, k) by {
        if l == l0 && i == i0 && k == items.len() {
            assert(settled(w1, it, l, i, t));
        } else {
            assert(w1.buckets[l][i][k] == w.buckets[l][i][k]);
            assert(run_ok_at(w, it, x, late, l, i, k));
        }
    }
}

proof fn lemma_past_bucket(w: WheelState, it: IterState, x: Expirations, late: bool)
    requires
        run_ok(w, it, x, late),
        !it.is_done,
        !it.is_new_level,
        !it.is_new_index,
        !(w.buckets[it.level][it.bucket()].len() > 0 && w.buckets[it.level][it.bucket()][0] is Some),
    ensures
        run_ok(w, it.past_bucket(), x, late),
{
    let b = it.bucket();
    let count = bucket_count(it.level);
    let p = ticks(w.origin, it.previous_time, it.level);
    let c = ticks(w.origin, it.current_time, it.level);
    let start = p % count;
    lemma_ticks_mono(w.origin, w.origin, it.previous_time, it.level);
    lemma_visit_order(start, it.index, count);
    let items = w.buckets[it.level][b];
    assert(one_sentinel(items));
    let s = sentinel_at(items);
    assert(items[s] is None);
    assert(items[0] is None);
    assert(s == 0);
    let it1 = it.past_bucket();
    assert forall|l: int, i: int, k: int|
        0 <= l < LEVELS && 0 <= i < bucket_count(l) && 0 <= k < w.buckets[l][i].len() && (
        #[trigger] w.buckets[l][i][k]) is Some implies run_ok_at(w, it1, x, late, l, i, k) by {
        assert(run_ok_at(w, it, x, late, l, i, k));
        let t = x[w.buckets[l][i][k]->0]->0;
        let is_late = late && t.nanos <= it.previous_time.nanos;
        if l == it.level && !is_late {
            let offset = (i - start) % count;
            assert(visit_offset(w, it, i) == offset);
            assert(visited(w, it) == it.index - start);
            if offset == it.index - start {
                assert(i == b);
                assert(k != 0);
            }
            if it.index + 1 < it.end_index {
                assert(visit_offset(w, it1, i) == offset);
                assert(visited(w, it1) == it.index + 1 - start);
            } else {
                if offset > it.index - start && !settled(w, it, l, i, t) {
                    let tau = ticks(w.origin, t, l);
                    lemma_left_out(p, c, tau, count);
                    if t.nanos <= it.current_time.nanos {
                        lemma_ticks_mono(w.origin, t, it.current_time, l);
                    }
                }
                assert(settled(w, it, l, i, t));
            }
        }
    }
}

/// What holds at a point of a run holds after the next event.
proof fn lemma_run_goes_on(w: WheelState, it: IterState, x: Expirations, late: bool)
    requires
        run_ok(w, it, x, late),
    ensures
        run_ok(next_event(w, it, x).0, next_event(w, it, x).1, x, late),
    decreases
            LEVELS - it.level,
            (if it.is_new_level {
                1int
            } else {
                0int
            }),
            it.end_index - it.index,
            (if it.is_new_index {
                1int
            } else {
                0int
            }),
            w.buckets[it.level][it.bucket()].len(),
{
    if it.is_done {
    } else if it.is_new_level {
        lemma_enter_level(w, it, x, late);
        let entered = it.entering_level(w);
        if !entered.is_done {
            lemma_run_goes_on(w, entered, x, late);
        }
    } else {
        let items = w.buckets[it.level][it.bucket()];
        if it.is_new_index {
            lemma_turn_bucket(w, it, x, late);
            lemma_run_goes_on(
                w.with_bucket(it.level, it.bucket(), turned(items)),
                IterState { is_new_index: false, ..it },
                x,
                late,
            );
        } else if items.len() > 0 && items[0] is Some {
            lemma_pop_front(w, it, x, late);
            let e = items[0]->0;
            let popped = w.with_bucket(it.level, it.bucket(), items.remove(0));
            if x[e]->0.nanos > it.current_time.nanos {
                lemma_schedule_again(popped, it, x, late, e);
            }
        } else {
            lemma_past_bucket(w, it, x, late);
            let past = it.past_bucket();
            if !past.is_done {
                lemma_run_goes_on(w, past, x, late);
            }
        }
    }
}

proof fn lemma_run_stays_ok(w: WheelState, it: IterState, x: Expirations, late: bool, n: nat)
    requires
        run_ok(w, it, x, late),
    ensures
        run_ok(after_events(w, it, x, n).0, after_events(w, it, x, n).1, x, late),
        after_events(w, it, x, n).1.previous_time == it.previous_time,
        after_events(w, it, x, n).1.current_time == it.current_time,
        after_events(w, it, x, n).0.origin == w.origin,
    decreases n,
{
    if n > 0 {
        lemma_run_goes_on(w, it, x, late);
        lemma_event_frame(w, it, x);
        let (w1, it1, event) = next_event(w, it, x);
        lemma_run_stays_ok(w1, it1, x, late, (n - 1) as nat);
    }
}

/// A run does not change the times it was started with.
proof fn lemma_event_frame(w: WheelState, it: IterState, x: Expirations)
    requires
        w.shaped(),
        0 <= it.level,
    ensures
        next_event(w, it, x).1.previous_time == it.previous_time,
        next_event(w, it, x).1.current_time == it.current_time,
        next_event(w, it, x).0.origin == w.origin,
        next_event(w, it, x).0.current == w.current,
    decreases
            LEVELS - it.level,
            (if it.is_new_level {
                1int
            } else {
                0int
            }),
            it.end_index - it.index,
            (if it.is_new_index {
                1int
            } else {
                0int
            }),
            w.buckets[it.level][it.bucket()].len(),
{
    if it.is_done || it.level >= LEVELS {
    } else if it.is_new_level {
        let entered = it.entering_level(w);
        if !entered.is_done {
            lemma_event_frame(w, entered, x);
        }
    } else {
        let items = w.buckets[it.level][it.bucket()];
        if it.is_new_index {
            lemma_event_frame(
                w.with_bucket(it.level, it.bucket(), turned(items)),
                IterState { is_new_index: false, ..it },
                x,
            );
        } else if items.len() > 0 && items[0] is Some {
            let popped = w.with_bucket(it.level, it.bucket(), items.remove(0));
            if x[items[0]->0] is None {
                lemma_event_frame(popped, it, x);
            }
        } else {
            let past = it.past_bucket();
            if !past.is_done {
                lemma_event_frame(w, past, x);
            }
        }
    }
}

proof fn lemma_starts_shaped(w: WheelState, now: Instant)
    requires
        w.shaped(),
        all_sentinels(w),
        w.origin.nanos <= w.current.nanos <= now.nanos,
    ensures
        run_shaped(WheelState { current: now, ..w }, starting_run(w.current, now)),
{
    let w0 = WheelState { current: now, ..w };
    assert forall|l: int, i: int| 0 <= l < LEVELS && 0 <= i < bucket_count(l) implies one_sentinel(
        #[trigger] w0.buckets[l][i],
    ) by {
        assert(one_sentinel(w.buckets[l][i]));
    }
    assert forall|l: int| 0 <= l < LEVELS implies (#[trigger] w0.buckets[l]).len() == bucket_count(l) by {
        assert(w.buckets[l].len() == bucket_count(l));
    }
}

/// Where timers may be late, they may stand anywhere; `late` says whether there may be such.
spec fn is_start(w: WheelState, expirations: Expirations, late: bool) -> bool {
    &&& w.shaped()
    &&& all_sentinels(w)
    &&& if late {
        all_placed_or_late(w, expirations)
    } else {
        all_placed(w, expirations)
    }
}

proof fn lemma_starts_ok(w: WheelState, now: Instant, expirations: Expirations, late: bool)
    requires
        is_start(w, expirations, late),
        w.origin.nanos <= w.current.nanos <= now.nanos,
    ensures
        run_ok(WheelState { current: now, ..w }, starting_run(w.current, now), expirations, late),
{
    let w0 = WheelState { current: now, ..w };
    let it0 = starting_run(w.current, now);
    lemma_starts_shaped(w, now);
    assert forall|l: int, i: int, k: int|
        0 <= l < LEVELS && 0 <= i < bucket_count(l) && 0 <= k < w0.buckets[l][i].len() && (
        #[trigger] w0.buckets[l][i][k]) is Some implies run_ok_at(w0, it0, expirations, late, l, i, k) by {
        assert(w.buckets[l][i][k] is Some);
    }
}

/// Once a run over the events has come to its end, every timer stands where it may stand,
/// and, when the wheel moved on by a tick, no timer that is due is left in the wheel.
pub proof fn advancing_fires_all_due(w: WheelState, now: Instant, expirations: Expirations, n: nat)
    requires
        w.shaped(),
        all_sentinels(w),
        w.origin.nanos <= w.current.nanos <= now.nanos,
        all_placed(w, expirations),
        after_events(
            WheelState { current: now, ..w },
            starting_run(w.current, now),
            expirations,
            n,
        ).1.is_done,
    ensures
        ({
            let after = after_events(
                WheelState { current: now, ..w },
                starting_run(w.current, now),
                expirations,
                n,
            ).0;
            &&& all_placed(after, expirations)
            &&& ticks(w.origin, now, 0) > ticks(w.origin, w.current, 0) ==> all_after(
                after,
                expirations,
                now,
            )
        }),
{
    let w0 = WheelState { current: now, ..w };
    let it0 = starting_run(w.current, now);
    let late = false;
    lemma_starts_ok(w, now, expirations, late);
    lemma_run_stays_ok(w0, it0, expirations, late, n);
    let (after, it1) = after_events(w0, it0, expirations, n);
    assert forall|l: int, i: int, k: int|
        0 <= l < LEVELS && 0 <= i < bucket_count(l) && 0 <= k < after.buckets[l][i].len() && (
        #[trigger] after.buckets[l][i][k]) is Some implies {
        let t = expirations[after.buckets[l][i][k]->0];
        t is Some && placed(after.origin, after.current, l, i, t->0)
    } by {
        assert(run_ok_at(after, it1, expirations, late, l, i, k));
    }
    if ticks(w.origin, now, 0) > ticks(w.origin, w.current, 0) {
        assert forall|l: int, i: int, k: int|
            0 <= l < LEVELS && 0 <= i < bucket_count(l) && 0 <= k < after.buckets[l][i].len() && (
            #[trigger] after.buckets[l][i][k]) is Some implies {
            let t = expirations[after.buckets[l][i][k]->0];
            t is Some && t->0.nanos > now.nanos
        } by {
            assert(run_ok_at(after, it1, expirations, late, l, i, k));
        }
    }
}

/// The same of a wheel in which timers may be late: those that were not late when the run began
/// stand where they may stand at its end, and, when the wheel moved on by a tick, none of them is
/// due.
pub proof fn advancing_fires_all_that_come_due(
    w: WheelState,
    now: Instant,
    expirations: Expirations,
    n: nat,
)
    requires
        w.shaped(),
        all_sentinels(w),
        w.origin.nanos <= w.current.nanos <= now.nanos,
        all_placed_or_late(w, expirations),
        after_events(
            WheelState { current: now, ..w },
            starting_run(w.current, now),
            expirations,
            n,
        ).1.is_done,
    ensures
        ({
            let after = after_events(
                WheelState { current: now, ..w },
                starting_run(w.current, now),
                expirations,
                n,
            ).0;
            &&& all_placed_or_late(after, expirations)
            &&& ticks(w.origin, now, 0) > ticks(w.origin, w.current, 0) ==> forall|
                l: int,
                i: int,
                k: int,
            |
                after.has_place(l, i, k) && (#[trigger] after.buckets[l][i][k]) is Some ==> {
                    let t = expirations[after.buckets[l][i][k]->0];
                    t is Some && (t->0.nanos <= w.current.nanos || t->0.nanos > now.nanos)
                }
        }),
{
    let w0 = WheelState { current: now, ..w };
    let it0 = starting_run(w.current, now);
    let late = true;
    lemma_starts_ok(w, now, expirations, late);
    lemma_run_stays_ok(w0, it0, expirations, late, n);
    let (after, it1) = after_events(w0, it0, expirations, n);
    assert forall|l: int, i: int, k: int|
        after.has_place(l, i, k) && (#[trigger] after.buckets[l][i][k]) is Some implies {
        let t = expirations[after.buckets[l][i][k]->0];
        &&& t is Some
        &&& t->0.nanos <= after.current.nanos || placed(after.origin, after.current, l, i, t->0)
        &&& ticks(w.origin, now, 0) > ticks(w.origin, w.current, 0) ==> t->0.nanos
            <= w.current.nanos || t->0.nanos > now.nanos
    } by {
        assert(run_ok_at(after, it1, expirations, late, l, i, k));
    }
}

/// Scheduling a timer for any time, be it behind the wheel, keeps every timer where it may stand, or
/// late.
pub proof fn scheduling_keeps_all_placed_or_late(w: WheelState, e: usize, expirations: Expirations)
    requires
        w.shaped(),
        all_placed_or_late(w, expirations),
        expirations[e] is Some,
        w.origin.nanos <= w.current.nanos,
    ensures
        all_placed_or_late(w.scheduled(e, expirations[e]->0), expirations),
{
    let t = expirations[e]->0;
    if t.nanos >= w.current.nanos {
        scheduling_places(w, t);
    }
    let (l0, i0) = w.bucket_for(t);
    let items = w.buckets[l0][i0];
    let w1 = w.scheduled(e, t);
    assert forall|l: int, i: int, k: int|
        w1.has_place(l, i, k) && (#[trigger] w1.buckets[l][i][k]) is Some implies {
        let t = expirations[w1.buckets[l][i][k]->0];
        &&& t is Some
        &&& t->0.nanos <= w1.current.nanos || placed(w1.origin, w1.current, l, i, t->0)
    } by {
        if !(l == l0 && i == i0 && k == items.len()) {
            assert(w.has_place(l, i, k));
            assert(w1.buckets[l][i][k] == w.buckets[l][i][k]);
        }
    }
}

/// Scheduling a timer for a time that is not behind the wheel keeps every timer where it
/// may stand.
pub proof fn scheduling_keeps_all_placed(w: WheelState, e: usize, expirations: Expirations)
    requires
        w.shaped(),
        all_placed(w, expirations),
        expirations[e] is Some,
        w.origin.nanos <= w.current.nanos <= expirations[e]->0.nanos,
    ensures
        all_placed(w.scheduled(e, expirations[e]->0), expirations),
        w.scheduled(e, expirations[e]->0).waits_in(
            e,
            w.bucket_for(expirations[e]->0).0,
            w.bucket_for(expirations[e]->0).1,
        ),
{
    let t = expirations[e]->0;
    scheduling_places(w, t);
    let (l0, i0) = w.bucket_for(t);
    let items = w.buckets[l0][i0];
    let w1 = w.scheduled(e, t);
    assert(w1.buckets[l0][i0][items.len() as int] == Some(e));
    assert forall|l: int, i: int, k: int|
        0 <= l < LEVELS && 0 <= i < bucket_count(l) && 0 <= k < w1.buckets[l][i].len() && (
        #[trigger] w1.buckets[l][i][k]) is Some implies {
        let t = expirations[w1.buckets[l][i][k]->0];
        t is Some && placed(w1.origin, w1.current, l, i, t->0)
    } by {
        if !(l == l0 && i == i0 && k == items.len()) {
            assert(w1.buckets[l][i][k] == w.buckets[l][i][k]);
        }
    }
}

/// An entry is reported as expired only when its time has come, and is reported as moved
/// only when its time has not come. No event means that the run is done. Of the others who
/// wait with an expiration time, none is lost.
pub proof fn events_are_true(w: WheelState, it: IterState, expirations: Expirations)
    requires
        w.shaped(),
        all_sentinels(w),
        0 <= it.level,
    ensures
        ({
            let (w1, it1, event) = next_event(w, it, expirations);
            &&& match event {
                Some(TimerEvent::Expired(e)) => expirations[e] is Some
                    && expirations[e]->0.nanos <= it.current_time.nanos,
                Some(TimerEvent::Rescheduled(e)) => expirations[e] is Some
                    && expirations[e]->0.nanos > it.current_time.nanos && waits(w1, e),
                Some(TimerEvent::Descheduled(e)) => false,
                None => it1.is_done || it1.level >= LEVELS,
            }
            &&& forall|x: usize|
                waits(w, x) && expirations[x] is Some && event != Some(TimerEvent::Expired(x))
                    ==> #[trigger] waits(w1, x)
        }),
    decreases
            LEVELS - it.level,
            (if it.is_new_level {
                1int
            } else {
                0int
            }),
            it.end_index - it.index,
            (if it.is_new_index {
                1int
            } else {
                0int
            }),
            w.buckets[it.level][it.bucket()].len(),
{
    if it.is_done || it.level >= LEVELS {
    } else if it.is_new_level {
        let entered = it.entering_level(w);
        if !entered.is_done {
            events_are_true(w, entered, expirations);
        }
    } else {
        let b = it.bucket();
        let items = w.buckets[it.level][b];
        assert(one_sentinel(items));
        if it.is_new_index {
            lemma_turned(items);
            let w1 = w.with_bucket(it.level, b, turned(items));
            assert forall|l: int, i: int| 0 <= l < LEVELS && 0 <= i < bucket_count(l) implies one_sentinel(
                #[trigger] w1.buckets[l][i],
            ) by {
                assert(one_sentinel(w.buckets[l][i]));
            }
            assert forall|x: usize| waits(w, x) implies #[trigger] waits(w1, x) by {
                let (l, i) = choose|l: int, i: int|
                    0 <= l < LEVELS && 0 <= i < bucket_count(l) && #[trigger] w.waits_in(x, l, i);
                if l == it.level && i == b {
                    let j = choose|j: int| 0 <= j < items.len() && items[j] == Some(x);
                    let k = place_after(sentinel_at(items), items.len() as int, j);
                    assert(turned(items)[k] == items[j]);
                    assert(w1.buckets[l][i][k] == Some(x));
                }
                assert(w1.waits_in(x, l, i));
            }
            events_are_true(w1, IterState { is_new_index: false, ..it }, expirations);
        } else if items.len() > 0 && items[0] is Some {
            let e = items[0]->0;
            let left = items.remove(0);
            let popped = w.with_bucket(it.level, b, left);
            let s = sentinel_at(items);
            assert(left[s - 1] is None);
            assert forall|i: int, j: int|
                0 <= i < left.len() && 0 <= j < left.len() && (#[trigger] left[i]) is None && (
                #[trigger] left[j]) is None implies i == j by {
                assert(items[i + 1] is None);
                assert(items[j + 1] is None);
            }
            assert forall|l: int, i: int| 0 <= l < LEVELS && 0 <= i < bucket_count(l) implies one_sentinel(
                #[trigger] popped.buckets[l][i],
            ) by {
                assert(one_sentinel(w.buckets[l][i]));
            }
            assert forall|x: usize| waits(w, x) && x != e implies #[trigger] waits(popped, x) by {
                let (l, i) = choose|l: int, i: int|
                    0 <= l < LEVELS && 0 <= i < bucket_count(l) && #[trigger] w.waits_in(x, l, i);
                let j = choose|j: int| 0 <= j < w.buckets[l][i].len() && w.buckets[l][i][j] == Some(x);
                if l == it.level && i == b {
                    assert(popped.buckets[l][i][j - 1] == Some(x));
                } else {
                    assert(popped.buckets[l][i][j] == Some(x));
                }
                assert(popped.waits_in(x, l, i));
            }
            match expirations[e] {
                Some(t) => {
                    if t.nanos > it.current_time.nanos {
                        let (l0, i0) = popped.bucket_for(t);
                        let w1 = popped.scheduled(e, t);
                        assert(w1.buckets[l0][i0][popped.buckets[l0][i0].len() as int] == Some(e));
                        assert(w1.waits_in(e, l0, i0));
                        assert forall|x: usize| waits(popped, x) implies #[trigger] waits(w1, x) by {
                            let (l, i) = choose|l: int, i: int|
                                0 <= l < LEVELS && 0 <= i < bucket_count(l) && #[trigger] popped.waits_in(
                                    x,
                                    l,
                                    i,
                                );
                            let j = choose|j: int|
                                0 <= j < popped.buckets[l][i].len() && popped.buckets[l][i][j] == Some(
                                    x,
                                );
                            assert(w1.buckets[l][i][j] == Some(x));
                            assert(w1.waits_in(x, l, i));
                        }
                    }
                },
                None => {
                    events_are_true(popped, it, expirations);
                },
            }
        } else {
            let past = it.past_bucket();
            if !past.is_done {
                events_are_true(w, past, expirations);
            }
        }
    }
}

/// Taking a timer out that was just scheduled leaves the wheel as it was.
pub proof fn descheduling_undoes_scheduling(w: WheelState, e: usize, time: Instant, place: (int, int, int))
    requires
        w.shaped(),
        !waits(w, e),
        ({
            let (level, index, k) = place;
            let items = w.scheduled(e, time).buckets[level][index];
            0 <= level < LEVELS && 0 <= index < bucket_count(level) && 0 <= k < items.len() && items[k]
                == Some(e)
        }),
    ensures
        without_timer(w.scheduled(e, time), place) == w,
{
    let (level, index, k) = place;
    let (l, i) = w.bucket_for(time);
    let after = w.scheduled(e, time);
    let items = w.buckets[level][index];
    if (level, index) != (l, i) {
        assert(after.buckets[level][index] == items);
        assert(w.waits_in(e, level, index));
    } else {
        if k < items.len() {
            assert(items[k] == Some(e));
            assert(w.waits_in(e, level, index));
        }
        assert(items.push(Some(e)).remove(k) =~= items);
    }
    assert(without_timer(after, place).buckets =~~= w.buckets);
}

/// No entry waits at two places.
pub open spec fn each_waits_once(w: WheelState) -> bool {
    forall|l: int, i: int, k: int, l2: int, i2: int, k2: int|
        w.has_place(l, i, k) && w.has_place(l2, i2, k2) && (#[trigger] w.buckets[l][i][k]) is Some && (
        #[trigger] w.buckets[l2][i2][k2]) == w.buckets[l][i][k] ==> l == l2 && i == i2 && k == k2
}

/// The entry that an event is about.
pub open spec fn entry_of(event: TimerEvent) -> usize {
    match event {
        TimerEvent::Expired(e) => e,
        TimerEvent::Rescheduled(e) => e,
        TimerEvent::Descheduled(e) => e,
    }
}

/// The run may still come to the place.
spec fn ahead(w: WheelState, it: IterState, l: int, i: int, k: int) -> bool {
    &&& !it.is_done
    &&& w.has_place(l, i, k)
    &&& {
        ||| l > it.level
        ||| l == it.level && it.is_new_level
        ||| l == it.level && visit_offset(w, it, i) > visited(w, it)
        ||| l == it.level && i == it.bucket() && (it.is_new_index || k < sentinel_at(w.buckets[l][i]))
    }
}

/// The run may still come to the entry.
spec fn waits_ahead(w: WheelState, it: IterState, e: usize) -> bool {
    exists|l: int, i: int, k: int|
        ahead(w, it, l, i, k) && (#[trigger] w.buckets[l][i][k]) == Some(e)
}

/// A timer for the time, if there is one, is due now, or may stand in the bucket when the wheel was
/// last advanced to `current`.
pub open spec fn due_or_placed(
    origin: Instant,
    current: Instant,
    level: int,
    index: int,
    time: Option<Instant>,
    now: Instant,
) -> bool {
    time is Some ==> time->0.nanos <= now.nanos || placed(origin, current, level, index, time->0)
}

/// Every timer of the wheel is due at the time `now`, or may stand where it stands.
pub open spec fn all_due_or_placed(w: WheelState, expirations: Expirations, now: Instant) -> bool {
    forall|l: int, i: int, k: int|
        w.has_place(l, i, k) && (#[trigger] w.buckets[l][i][k]) is Some ==> due_or_placed(
            w.origin,
            w.current,
            l,
            i,
            expirations[w.buckets[l][i][k]->0],
            now,
        )
}

/// Those ahead of the run stand where they stood when it began, and none stands there twice.
spec fn ahead_ok(w: WheelState, it: IterState, x: Expirations) -> bool {
    &&& forall|l: int, i: int, k: int|
        ahead(w, it, l, i, k) && (#[trigger] w.buckets[l][i][k]) is Some ==> due_or_placed(
            w.origin,
            it.previous_time,
            l,
            i,
            x[w.buckets[l][i][k]->0],
            it.current_time,
        )
    &&& forall|l: int, i: int, k: int, l2: int, i2: int, k2: int|
        ahead(w, it, l, i, k) && ahead(w, it, l2, i2, k2) && (#[trigger] w.buckets[l][i][k]) is Some && (
        #[trigger] w.buckets[l2][i2][k2]) == w.buckets[l][i][k] ==> l == l2 && i == i2 && k == k2
}

/// What is ahead after a step was ahead before it, at a place that `from` tells.
spec fn recedes(
    w: WheelState,
    it: IterState,
    w1: WheelState,
    it1: IterState,
    from: spec_fn(int, int, int) -> int,
) -> bool {
    &&& w1.origin == w.origin
    &&& it1.previous_time == it.previous_time
    &&& it1.current_time == it.current_time
    &&& forall|l: int, i: int, k: int|
        ahead(w1, it1, l, i, k) && (#[trigger] w1.buckets[l][i][k]) is Some ==> ahead(
            w,
            it,
            l,
            i,
            from(l, i, k),
        ) && w.buckets[l][i][from(l, i, k)] == w1.buckets[l][i][k]
    &&& forall|l: int, i: int, k: int, k2: int|
        ahead(w1, it1, l, i, k) && ahead(w1, it1, l, i, k2) && #[trigger] from(l, i, k)
            == #[trigger] from(l, i, k2) ==> k == k2
}

proof fn lemma_recedes(
    w: WheelState,
    it: IterState,
    w1: WheelState,
    it1: IterState,
    from: spec_fn(int, int, int) -> int,
    x: Expirations,
)
    requires
        ahead_ok(w, it, x),
        recedes(w, it, w1, it1, from),
    ensures
        ahead_ok(w1, it1, x),
        forall|e: usize| #[trigger] waits_ahead(w1, it1, e) ==> waits_ahead(w, it, e),
{
    assert forall|l: int, i: int, k: int|
        ahead(w1, it1, l, i, k) && (#[trigger] w1.buckets[l][i][k]) is Some implies due_or_placed(
        w1.origin,
        it1.previous_time,
        l,
        i,
        x[w1.buckets[l][i][k]->0],
        it1.current_time,
    ) by {
        assert(w.buckets[l][i][from(l, i, k)] is Some);
    }
    assert forall|l: int, i: int, k: int, l2: int, i2: int, k2: int|
        ahead(w1, it1, l, i, k) && ahead(w1, it1, l2, i2, k2) && (#[trigger] w1.buckets[l][i][k]) is Some && (
        #[trigger] w1.buckets[l2][i2][k2]) == w1.buckets[l][i][k] implies l == l2 && i == i2 && k == k2 by {
        assert(w.buckets[l][i][from(l, i, k)] == w.buckets[l2][i2][from(l2, i2, k2)]);
    }
    assert forall|e: usize| #[trigger] waits_ahead(w1, it1, e) implies waits_ahead(w, it, e) by {
        let (l, i, k) = choose|l: int, i: int, k: int|
            ahead(w1, it1, l, i, k) && (#[trigger] w1.buckets[l][i][k]) == Some(e);
        assert(w.buckets[l][i][from(l, i, k)] == Some(e));
    }
}

/// A timer that the run finds before its time is for the tick of now, or comes round again.
proof fn lemma_comes_round(p: int, c: int, tau: int, count: int)
    requires
        count == 64 || count == 32 || count == 4,
        0 <= p < c <= tau,
        tau - p <= count,
        (tau % count - p % count) % count <= c - p,
    ensures
        tau == c || tau == p + count,
{
    assert((tau % count - p % count) % count == (tau - p) % count) by {
        if count == 64 {
        } else if count == 32 {
        }
    }
}

/// A timer that the run finds before its time goes to a lower level, or stays at its level.
proof fn lemma_comes_down(a: int, b: int, d: int, level: int)
    requires
        0 <= level < LEVELS,
        0 <= a <= b < d,
        a / span(level) < b / span(level),
        a / span(level) <= d / span(level),
        level < LEVELS - 1 ==> d / span(level) - a / span(level) <= bucket_count(level),
        ((d / span(level)) % bucket_count(level) - (a / span(level)) % bucket_count(level))
            % bucket_count(level) <= b / span(level) - a / span(level),
    ensures
        level_for(d - b) <= level,
{
    if level == 0 {
        lemma_comes_round(a / span(0), b / span(0), d / span(0), 64);
    } else if level == 1 {
        lemma_comes_round(a / span(1), b / span(1), d / span(1), 64);
    } else if level == 2 {
        lemma_comes_round(a / span(2), b / span(2), d / span(2), 32);
    } else if level == 3 {
        lemma_comes_round(a / span(3), b / span(3), d / span(3), 4);
    }
}

/// The next event takes its entry out of the way of the run.
proof fn lemma_event_recedes(w: WheelState, it: IterState, x: Expirations)
    requires
        run_shaped(w, it),
        ahead_ok(w, it, x),
    ensures
        ({
            let (w1, it1, event) = next_event(w, it, x);
            &&& run_shaped(w1, it1)
            &&& ahead_ok(w1, it1, x)
            &&& forall|e: usize| #[trigger] waits_ahead(w1, it1, e) ==> waits_ahead(w, it, e)
            &&& event is Some ==> waits_ahead(w, it, entry_of(event->0)) && !waits_ahead(
                w1,
                it1,
                entry_of(event->0),
            )
        }),
    decreases
            LEVELS - it.level,
            (if it.is_new_level {
                1int
            } else {
                0int
            }),
            it.end_index - it.index,
            (if it.is_new_index {
                1int
            } else {
                0int
            }),
            w.buckets[it.level][it.bucket()].len(),
{
    let same = |l: int, i: int, k: int| k;
    if it.is_done {
    } else if it.is_new_level {
        lemma_enter_shape(w, it);
        let entered = it.entering_level(w);
        assert(recedes(w, it, w, entered, same));
        lemma_recedes(w, it, w, entered, same, x);
        if !entered.is_done {
            lemma_event_recedes(w, entered, x);
        }
    } else {
        let items = w.buckets[it.level][it.bucket()];
        if it.is_new_index {
            lemma_turn_shape(w, it);
            lemma_turn_recedes(w, it, x);
            lemma_event_recedes(
                w.with_bucket(it.level, it.bucket(), turned(items)),
                IterState { is_new_index: false, ..it },
                x,
            );
        } else if items.len() > 0 && items[0] is Some {
            lemma_pop_recedes(w, it, x);
            let popped = w.with_bucket(it.level, it.bucket(), items.remove(0));
            if x[items[0]->0] is None {
                lemma_pop_shape(w, it);
                lemma_event_recedes(popped, it, x);
            }
        } else {
            lemma_past_shape(w, it);
            lemma_past_recedes(w, it, x);
            let past = it.past_bucket();
            if !past.is_done {
                lemma_event_recedes(w, past, x);
            }
        }
    }
}

proof fn lemma_turn_recedes(w: WheelState, it: IterState, x: Expirations)
    requires
        run_shaped(w, it),
        ahead_ok(w, it, x),
        !it.is_done,
        !it.is_new_level,
        it.is_new_index,
    ensures
        ({
            let w1 = w.with_bucket(it.level, it.bucket(), turned(w.buckets[it.level][it.bucket()]));
            let it1 = IterState { is_new_index: false, ..it };
            &&& ahead_ok(w1, it1, x)
            &&& forall|e: usize| #[trigger] waits_ahead(w1, it1, e) ==> waits_ahead(w, it, e)
        }),
{
    let b = it.bucket();
    let count = bucket_count(it.level);
    lemma_visit_order(ticks(w.origin, it.previous_time, it.level) % count, it.index, count);
    let items = w.buckets[it.level][b];
    assert(one_sentinel(items));
    lemma_turned(items);
    let w1 = w.with_bucket(it.level, b, turned(items));
    let it1 = IterState { is_new_index: false, ..it };
    let from = |l: int, i: int, k: int|
        if l == it.level && i == b {
            place_before(sentinel_at(items), items.len() as int, k)
        } else {
            k
        };
    assert forall|l: int, i: int, k: int|
        ahead(w1, it1, l, i, k) && (#[trigger] w1.buckets[l][i][k]) is Some implies ahead(
        w,
        it,
        l,
        i,
        from(l, i, k),
    ) && w.buckets[l][i][from(l, i, k)] == w1.buckets[l][i][k] by {
        if l == it.level && i == b {
            assert(turned(items)[k] == items[from(l, i, k)]);
        }
    }
    assert(recedes(w, it, w1, it1, from));
    lemma_recedes(w, it, w1, it1, from, x);
}

proof fn lemma_past_recedes(w: WheelState, it: IterState, x: Expirations)
    requires
        run_shaped(w, it),
        ahead_ok(w, it, x),
        !it.is_done,
        !it.is_new_level,
    ensures
        ahead_ok(w, it.past_bucket(), x),
        forall|e: usize| #[trigger] waits_ahead(w, it.past_bucket(), e) ==> waits_ahead(w, it, e),
{
    let count = bucket_count(it.level);
    let start = ticks(w.origin, it.previous_time, it.level) % count;
    let it1 = it.past_bucket();
    let same = |l: int, i: int, k: int| k;
    lemma_visit_order(start, it.index, count);
    if it.index + 1 < it.end_index {
        lemma_visit_order(start, it.index + 1, count);
    }
    assert forall|l: int, i: int, k: int|
        ahead(w, it1, l, i, k) && (#[trigger] w.buckets[l][i][k]) is Some implies ahead(
        w,
        it,
        l,
        i,
        same(l, i, k),
    ) by {
        if l == it.level {
            assert(visit_offset(w, it1, i) == (i - start) % count);
        }
    }
    assert(recedes(w, it, w, it1, same));
    lemma_recedes(w, it, w, it1, same, x);
}

proof fn lemma_pop_recedes(w: WheelState, it: IterState, x: Expirations)
    requires
        run_shaped(w, it),
        ahead_ok(w, it, x),
        !it.is_done,
        !it.is_new_level,
        !it.is_new_index,
        w.buckets[it.level][it.bucket()].len() > 0,
        w.buckets[it.level][it.bucket()][0] is Some,
    ensures
        ({
            let items = w.buckets[it.level][it.bucket()];
            let e = items[0]->0;
            let popped = w.with_bucket(it.level, it.bucket(), items.remove(0));
            &&& ahead_ok(popped, it, x)
            &&& forall|y: usize| #[trigger] waits_ahead(popped, it, y) ==> waits_ahead(w, it, y)
            &&& x[e] is Some ==> {
                let (w1, it1, event) = next_event(w, it, x);
                &&& run_shaped(w1, it1)
                &&& ahead_ok(w1, it1, x)
                &&& forall|y: usize| #[trigger] waits_ahead(w1, it1, y) ==> waits_ahead(w, it, y)
                &&& event is Some
                &&& waits_ahead(w, it, entry_of(event->0))
                &&& !waits_ahead(w1, it1, entry_of(event->0))
            }
        }),
{
    let b = it.bucket();
    let count = bucket_count(it.level);
    let start = ticks(w.origin, it.previous_time, it.level) % count;
    lemma_visit_order(start, it.index, count);
    lemma_pop_shape(w, it);
    let items = w.buckets[it.level][b];
    let left = items.remove(0);
    let w1 = w.with_bucket(it.level, b, left);
    let e = items[0]->0;
    assert(ahead(w, it, it.level, b, 0));
    assert(w.buckets[it.level][b][0] == Some(e));
    assert(waits_ahead(w, it, e));
    let from = |l: int, i: int, k: int|
        if l == it.level && i == b {
            k + 1
        } else {
            k
        };
    assert forall|l: int, i: int, k: int|
        ahead(w1, it, l, i, k) && (#[trigger] w1.buckets[l][i][k]) is Some implies ahead(
        w,
        it,
        l,
        i,
        from(l, i, k),
    ) && w.buckets[l][i][from(l, i, k)] == w1.buckets[l][i][k] by {
        assert(w1.buckets[l][i][k] == w.buckets[l][i][from(l, i, k)]);
    }
    assert(recedes(w, it, w1, it, from));
    lemma_recedes(w, it, w1, it, from, x);
    assert(!waits_ahead(w1, it, e)) by {
        if waits_ahead(w1, it, e) {
            let (l, i, k) = choose|l: int, i: int, k: int|
                ahead(w1, it, l, i, k) && (#[trigger] w1.buckets[l][i][k]) == Some(e);
            assert(w.buckets[l][i][from(l, i, k)] == w.buckets[it.level][b][0]);
            assert(from(l, i, k) == 0);
        }
    }
    let t = x[e]->0;
    if x[e] is Some && t.nanos > it.current_time.nanos {
        assert(placed(w.origin, it.previous_time, it.level, b, t));
        lemma_comes_down(
            nanos_since(w.origin, it.previous_time),
            nanos_since(w.origin, it.current_time),
            nanos_since(w.origin, t),
            it.level,
        );
        lemma_schedule_recedes(w1, it, x, e);
    }
}

/// Who is scheduled again stands behind the run.
proof fn lemma_schedule_recedes(w: WheelState, it: IterState, x: Expirations, e: usize)
    requires
        run_shaped(w, it),
        ahead_ok(w, it, x),
        !waits_ahead(w, it, e),
        !it.is_done,
        !it.is_new_level,
        !it.is_new_index,
        x[e] is Some,
        x[e]->0.nanos > it.current_time.nanos,
        w.bucket_for(x[e]->0).0 <= it.level,
        index_for(w.origin, x[e]->0, it.level) == it.bucket(),
    ensures
        ({
            let w1 = w.scheduled(e, x[e]->0);
            &&& run_shaped(w1, it)
            &&& ahead_ok(w1, it, x)
            &&& !waits_ahead(w1, it, e)
            &&& forall|y: usize| #[trigger] waits_ahead(w1, it, y) ==> waits_ahead(w, it, y)
        }),
{
    let t = x[e]->0;
    lemma_schedule_shape(w, it, e, t);
    let (l0, i0) = w.bucket_for(t);
    let items = w.buckets[l0][i0];
    let w1 = w.scheduled(e, t);
    let same = |l: int, i: int, k: int| k;
    let count = bucket_count(it.level);
    lemma_visit_order(ticks(w.origin, it.previous_time, it.level) % count, it.index, count);
    assert(!ahead(w1, it, l0, i0, items.len() as int));
    assert forall|l: int, i: int, k: int|
        ahead(w1, it, l, i, k) && (#[trigger] w1.buckets[l][i][k]) is Some implies ahead(
        w,
        it,
        l,
        i,
        same(l, i, k),
    ) && w.buckets[l][i][same(l, i, k)] == w1.buckets[l][i][k] by {
        assert(!(l == l0 && i == i0 && k == items.len()));
    }
    assert(recedes(w, it, w1, it, same));
    lemma_recedes(w, it, w1, it, same, x);
}

/// The event that a run gives after `n` others.
pub open spec fn event_after(w: WheelState, it: IterState, x: Expirations, n: nat) -> Option<TimerEvent> {
    let (w1, it1) = after_events(w, it, x, n);
    next_event(w1, it1, x).2
}

proof fn lemma_events_recede(w: WheelState, it: IterState, x: Expirations, n: nat)
    requires
        run_shaped(w, it),
        ahead_ok(w, it, x),
    ensures
        ({
            let (w1, it1) = after_events(w, it, x, n);
            &&& run_shaped(w1, it1)
            &&& ahead_ok(w1, it1, x)
            &&& forall|e: usize| #[trigger] waits_ahead(w1, it1, e) ==> waits_ahead(w, it, e)
        }),
    decreases n,
{
    if n > 0 {
        lemma_event_recedes(w, it, x);
        let (w1, it1, event) = next_event(w, it, x);
        lemma_events_recede(w1, it1, x, (n - 1) as nat);
    }
}

proof fn lemma_events_add(w: WheelState, it: IterState, x: Expirations, n: nat, m: nat)
    ensures
        after_events(w, it, x, n + m) == ({
            let (w1, it1) = after_events(w, it, x, n);
            after_events(w1, it1, x, m)
        }),
    decreases n,
{
    if n > 0 {
        let (w1, it1, event) = next_event(w, it, x);
        lemma_events_add(w1, it1, x, (n - 1) as nat, m);
    }
}

proof fn lemma_done_stays_done(w: WheelState, it: IterState, x: Expirations, n: nat)
    requires
        w.shaped(),
        0 <= it.level,
        it.is_done || it.level >= LEVELS,
    ensures
        after_events(w, it, x, n) == (w, it),
        next_event(w, it, x).2 is None,
    decreases n,
{
    if n > 0 {
        lemma_done_stays_done(w, it, x, (n - 1) as nat);
    }
}

/// A run gives at most one event of each entry, and once it gave none, it gives no other. The
/// timers that are not due by then stand where they may stand; those that are due may stand
/// anywhere.
pub proof fn one_event_of_each_entry(
    w: WheelState,
    now: Instant,
    expirations: Expirations,
    n: nat,
    m: nat,
)
    requires
        w.shaped(),
        all_sentinels(w),
        each_waits_once(w),
        w.origin.nanos <= w.current.nanos <= now.nanos,
        all_due_or_placed(w, expirations, now),
        n < m,
    ensures
        ({
            let w0 = WheelState { current: now, ..w };
            let run = starting_run(w.current, now);
            let first = event_after(w0, run, expirations, n);
            let second = event_after(w0, run, expirations, m);
            match (first, second) {
                (Some(a), Some(b)) => entry_of(a) != entry_of(b),
                (None, Some(b)) => false,
                _ => true,
            }
        }),
{
    let w0 = WheelState { current: now, ..w };
    let it0 = starting_run(w.current, now);
    lemma_starts_shaped(w, now);
    assert(ahead_ok(w0, it0, expirations)) by {
        assert forall|l: int, i: int, k: int|
            ahead(w0, it0, l, i, k) && (#[trigger] w0.buckets[l][i][k]) is Some implies due_or_placed(
            w0.origin,
            it0.previous_time,
            l,
            i,
            expirations[w0.buckets[l][i][k]->0],
            it0.current_time,
        ) by {
            assert(w.has_place(l, i, k));
            assert(w.buckets[l][i][k] is Some);
        }
        assert forall|l: int, i: int, k: int, l2: int, i2: int, k2: int|
            ahead(w0, it0, l, i, k) && ahead(w0, it0, l2, i2, k2) && (#[trigger] w0.buckets[l][i][k]) is Some
                && (#[trigger] w0.buckets[l2][i2][k2]) == w0.buckets[l][i][k] implies l == l2 && i == i2
            && k == k2 by {
            assert(w.has_place(l, i, k) && w.has_place(l2, i2, k2));
            assert(w.buckets[l][i][k] is Some && w.buckets[l2][i2][k2] == w.buckets[l][i][k]);
        }
    }
    lemma_events_recede(w0, it0, expirations, n);
    let (w1, it1) = after_events(w0, it0, expirations, n);
    let (w2, it2, first) = next_event(w1, it1, expirations);
    lemma_event_recedes(w1, it1, expirations);
    events_are_true(w1, it1, expirations);
    let d = (m - n - 1) as nat;
    lemma_events_add(w0, it0, expirations, n, d + 1);
    assert(after_events(w1, it1, expirations, d + 1) == after_events(w2, it2, expirations, d));
    let (w3, it3) = after_events(w2, it2, expirations, d);
    assert((w3, it3) == after_events(w0, it0, expirations, m));
    if first is None {
        lemma_done_stays_done(w2, it2, expirations, d);
    } else {
        lemma_events_recede(w2, it2, expirations, d);
        lemma_event_recedes(w3, it3, expirations);
    }
}

/// Timers that may stand where they stand, or are late, are due or may stand there at any later time.
pub proof fn late_timers_are_due(w: WheelState, expirations: Expirations, now: Instant)
    requires
        all_placed_or_late(w, expirations),
        w.current.nanos <= now.nanos,
    ensures
        all_due_or_placed(w, expirations, now),
{
}

/// In a wheel that its entries know of, no entry waits at two places.
pub proof fn linked_entries_wait_once<K, V>(wheel: &TimerWheel, entries: Map<usize, ValueEntry<K, V>>)
    requires
        wheel.wf(),
        wheel.enabled(),
        wheel.linked(entries),
    ensures
        each_waits_once(wheel@),
{
    let w = wheel@;
    assert forall|l: int, i: int, k: int, l2: int, i2: int, k2: int|
        w.has_place(l, i, k) && w.has_place(l2, i2, k2) && (#[trigger] w.buckets[l][i][k]) is Some && (
        #[trigger] w.buckets[l2][i2][k2]) == w.buckets[l][i][k] implies l == l2 && i == i2 && k == k2 by {
        wheel.lemma_waits_once(entries, l, i, k);
        wheel.lemma_waits_once(entries, l2, i2, k2);
    }
}

} // verus!
